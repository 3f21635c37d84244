# Iron Batch

Continuous batching and paged KV cache allocation for LLM inference, as a Verus
library: the scheduler, the block allocator and the rules around them carry
contracts that Verus proves.

- `src/kv_cache.rs`, `src/scheduler.rs`: the block allocator and the scheduler.
  `src/kv_model.rs`, `src/request.rs` and `src/sched_model.rs` hold the models
  that their contracts speak of, `src/kv_laws.rs` and `src/sched_laws.rs` what
  holds of them as a whole: no block leaks, no request is lost, admission is
  first come, first served (requests preempted together come back in order), a
  load whose requests can each run alone drains in bounded steps, and a drained
  scheduler has its pool back.
- `src/token_source.rs`: the backend as a step sees it, with a record of its
  calls.
- `src/server.rs`, `src/server_laws.rs`: the decode loop's decisions and the
  token events of a step. `src/loop_laws.rs`: what holds over a whole run of the
  loop, such as that a client's stream numbers every token and costs one backend
  call for each, and that the backend is told to let go of a sequence once, after
  the last call for it.
- `src/backend.rs`, `src/driver.rs`, `src/metrics.rs`, `src/bench_client.rs`: the
  decisions of the backends, of a fake device, of the metrics and of the load
  generator.
- `app/`: the HTTP server and the load generator around the library.

Three things are believed rather than proved: the monotonic clock (of which
nothing is claimed), the standard library's sort, and that `serde_json` gives the
same answer for the same text.

To plug in a runtime, implement `Backend` or `DeviceHandle`; to back the blocks
with memory, map block ids to offsets.
