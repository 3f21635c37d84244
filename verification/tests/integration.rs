use iron_batch::backend::MockBackend;
use iron_batch::kv_cache::BlockAllocator;
use iron_batch::scheduler::{Request, Scheduler, SchedulerConfig};
use iron_batch::token_source::TokenSource;
use std::cell::RefCell;
use std::time::Instant;

fn req(seq_id: u64, prompt_tokens: u32, max_new_tokens: u32) -> Request {
    Request {
        seq_id,
        prompt_tokens,
        max_new_tokens,
        generated: 0,
        arrival: Instant::now(),
        first_token_at: None,
    }
}

/// The mock's draws held against a probability of an end of sequence.
struct Mock {
    draws: RefCell<MockBackend>,
    eos_prob: f64,
}

impl Mock {
    fn new(eos_prob: f64) -> Self {
        Mock {
            draws: RefCell::new(MockBackend::new()),
            eos_prob,
        }
    }

    fn advance_token(&self, seq_id: &u64) -> bool {
        self.draws
            .borrow_mut()
            .advance_token(seq_id, |draw| (draw as f64) / (u64::MAX as f64) < self.eos_prob)
    }

    fn free_seq(&self, seq_id: &u64) {
        self.draws.borrow_mut().free_seq(seq_id);
    }
}

/// Every enqueued request finishes exactly once and the KV allocator returns
/// to fully free after draining — no block leaks across admit/evict/preempt.
#[test]
fn drains_mixed_batch_without_leaking_kv_blocks() {
    let total_blocks = 256;
    let block_size = 16;
    let alloc = BlockAllocator::new(total_blocks, block_size);
    let mut sched = Scheduler::new(
        SchedulerConfig {
            max_batch_tokens: 512,
            max_running_seqs: 16,
        },
        alloc,
    );

    let backend = Mock::new(1.0 / 8.0);
    let n_requests = 40u64;
    for i in 0..n_requests {
        sched
            .enqueue(req(i, 24 + (i % 5) as u32 * 8, 4 + (i % 3) as u32))
            .unwrap();
    }

    let mut finished_ids = std::collections::HashSet::new();
    let mut steps = 0;
    while sched.has_work() {
        let report = sched.step(&mut TokenSource::new(|seq_id| backend.advance_token(seq_id)));
        for id in &report.finished {
            assert!(finished_ids.insert(*id), "seq {id} finished twice");
        }
        // Preempted sequences must NOT appear in finished
        for id in &report.preempted {
            assert!(
                !report.finished.contains(id),
                "seq {id} is both preempted and finished"
            );
        }
        steps += 1;
        assert!(steps < 100_000, "scheduler appears stuck");
    }

    assert_eq!(finished_ids.len(), n_requests as usize);
    assert_eq!(sched.free_kv_blocks(), total_blocks, "leaked KV blocks");
}

/// A request whose prompt exceeds max_batch_tokens must be rejected at
/// enqueue time, not queued, or it deadlocks every request behind it forever.
#[test]
fn oversized_request_is_rejected_not_deadlocked() {
    let alloc = BlockAllocator::new(64, 16);
    let mut sched = Scheduler::new(
        SchedulerConfig {
            max_batch_tokens: 100,
            max_running_seqs: 8,
        },
        alloc,
    );

    assert!(sched.enqueue(req(1, 200, 4)).is_err());
    assert_eq!(sched.waiting_count(), 0, "rejected request must not be queued");

    sched.enqueue(req(2, 32, 2)).unwrap();
    let backend = Mock::new(1.0);
    let mut steps = 0;
    while sched.has_work() {
        sched.step(&mut TokenSource::new(|seq_id| backend.advance_token(seq_id)));
        steps += 1;
        assert!(steps < 1_000, "scheduler appears stuck");
    }
}

/// Preempted sequences must not appear in ran[] in the same step they were
/// preempted — doing so would cause a phantom token event for the client.
#[test]
fn preempted_seq_not_in_ran() {
    // 1 block total — seq gets admitted, generates until it needs a second
    // block, OOMs, gets preempted. The step that preempts it must not also
    // have it in ran[].
    let alloc = BlockAllocator::new(1, 16);
    let mut sched = Scheduler::new(
        SchedulerConfig {
            max_batch_tokens: 1000,
            max_running_seqs: 8,
        },
        alloc,
    );
    sched.enqueue(req(1, 16, 40)).unwrap();

    let mut preemption_step_found = false;
    for _ in 0..200 {
        let report = sched.step(&mut TokenSource::new(|_| false));
        if report.preempted.contains(&1) {
            assert!(
                !report.ran.contains(&1),
                "seq 1 is in both ran[] and preempted[] — phantom token would be sent"
            );
            preemption_step_found = true;
            break;
        }
    }
    assert!(preemption_step_found, "seq 1 was never preempted");
}

/// free_seq must be called when a sequence finishes so backends can clean up
/// per-sequence state. The mock's table should not grow after sequences
/// complete.
#[test]
fn backend_free_seq_called_on_completion() {
    let alloc = BlockAllocator::new(64, 16);
    let mut sched = Scheduler::new(
        SchedulerConfig {
            max_batch_tokens: 1000,
            max_running_seqs: 8,
        },
        alloc,
    );
    let backend = Mock::new(1.0); // EOS on first token
    sched.enqueue(req(1, 16, 4)).unwrap();

    let mut steps = 0;
    while sched.has_work() {
        let report = sched.step(&mut TokenSource::new(|seq_id| backend.advance_token(seq_id)));
        for id in &report.finished {
            backend.free_seq(id);
        }
        steps += 1;
        assert!(steps < 100);
    }
    // the generator of seq 1 is gone: it starts over from its seed
    let mut untouched = MockBackend::new();
    assert_eq!(
        backend.draws.borrow_mut().next_rand(&1),
        untouched.next_rand(&1)
    );
}
