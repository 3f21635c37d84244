//! Continuous batching over a paged KV cache, with every rule of the scheduler
//! and of the block allocator proved.

pub mod backend;
pub mod bench_client;
pub mod driver;
pub mod kv_cache;
pub mod kv_laws;
pub mod kv_model;
pub mod loop_laws;
pub mod metrics;
pub mod metrics_laws;
pub mod request;
pub mod run_laws;
pub mod sched_laws;
mod sched_lemmas;
pub mod sched_model;
pub mod scheduler;
pub mod server;
pub mod server_laws;
pub mod step_laws;
pub mod token_source;
