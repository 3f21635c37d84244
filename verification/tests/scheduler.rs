use iron_batch::kv_cache::BlockAllocator;
use iron_batch::scheduler::{Request, Scheduler, SchedulerConfig, SchedulerError};
use iron_batch::token_source::TokenSource;
use std::time::Instant;

fn req(seq_id: u64, prompt_tokens: u32, max_new_tokens: u32) -> Request {
    Request {
        seq_id,
        prompt_tokens,
        max_new_tokens,
        generated: 0,
        arrival: Instant::now(),
        first_token_at: None,
    }
}

fn scheduler(blocks: u32, max_batch_tokens: u32, max_running_seqs: usize) -> Scheduler {
    Scheduler::new(
        SchedulerConfig {
            max_batch_tokens,
            max_running_seqs,
        },
        BlockAllocator::new(blocks, 16),
    )
}

#[test]
fn admits_until_token_budget_full() {
    let alloc = BlockAllocator::new(64, 16);
    let mut sched = Scheduler::new(
        SchedulerConfig {
            max_batch_tokens: 100,
            max_running_seqs: 8,
        },
        alloc,
    );
    for i in 0..5 {
        let _ = sched.enqueue(Request {
            seq_id: i,
            prompt_tokens: 30,
            max_new_tokens: 4,
            generated: 0,
            arrival: Instant::now(),
            first_token_at: None,
        });
    }
    let report = sched.step(&mut TokenSource::new(|_| false));
    // 100 / 30 -> 3 admitted this step, 2 stay waiting
    assert_eq!(report.admitted.len(), 3);
    assert_eq!(sched.waiting_count(), 2);
}

#[test]
fn finished_seqs_free_their_blocks() {
    let alloc = BlockAllocator::new(64, 16);
    let mut sched = Scheduler::new(
        SchedulerConfig {
            max_batch_tokens: 1000,
            max_running_seqs: 8,
        },
        alloc,
    );
    let _ = sched.enqueue(Request {
        seq_id: 1,
        prompt_tokens: 16,
        max_new_tokens: 1,
        generated: 0,
        arrival: Instant::now(),
        first_token_at: None,
    });
    let r1 = sched.step(&mut TokenSource::new(|_| false));
    assert_eq!(r1.finished, vec![1]);
    assert_eq!(sched.running_count(), 0);
    assert_eq!(sched.free_kv_blocks(), 64);
}

#[test]
fn zero_max_new_tokens_generates_nothing() {
    let alloc = BlockAllocator::new(64, 16);
    let mut sched = Scheduler::new(
        SchedulerConfig {
            max_batch_tokens: 1000,
            max_running_seqs: 8,
        },
        alloc,
    );
    let _ = sched.enqueue(Request {
        seq_id: 1,
        prompt_tokens: 16,
        max_new_tokens: 0,
        generated: 0,
        arrival: Instant::now(),
        first_token_at: None,
    });
    let r1 = sched.step(&mut TokenSource::new(|_| panic!("step_fn must not be called for a 0-token request")));
    assert_eq!(r1.finished, vec![1]);
    assert!(r1.ran.is_empty());
}

#[test]
fn oom_during_decode_preempts_instead_of_silently_continuing() {
    // Only enough blocks for the prompt; the first growth attempt
    // during decode must fail and preempt the sequence.
    let alloc = BlockAllocator::new(1, 16);
    let mut sched = Scheduler::new(
        SchedulerConfig {
            max_batch_tokens: 1000,
            max_running_seqs: 8,
        },
        alloc,
    );
    let _ = sched.enqueue(Request {
        seq_id: 1,
        prompt_tokens: 16, // exactly 1 block, none left to grow into
        max_new_tokens: 20,
        generated: 0,
        arrival: Instant::now(),
        first_token_at: None,
    });
    // step 1: admits, generates token 1..15 without needing to grow
    // (block_size is 16, so growth is only attempted every 16th token)
    let mut report = sched.step(&mut TokenSource::new(|_| false));
    for _ in 0..15 {
        report = sched.step(&mut TokenSource::new(|_| false));
    }
    assert!(report.preempted.contains(&1));
    assert_eq!(sched.running_count(), 0);
    assert_eq!(sched.waiting_count(), 1); // back in the queue, not lost
}

#[test]
fn resumed_seq_reserves_blocks_for_tokens_already_generated() {
    // seq 1 needs 1 block for its prompt and will need a 2nd once it's
    // generated 16 tokens. We force that 2nd grow to OOM by parking an
    // unrelated dummy sequence on the only other block, then free the
    // dummy and check what seq 1 actually gets on resume: it should
    // reserve for prompt + generated (32 tokens -> 2 blocks), not just
    // its original prompt (16 tokens -> 1 block).
    let alloc = BlockAllocator::new(2, 16);
    let mut sched = Scheduler::new(
        SchedulerConfig {
            max_batch_tokens: 1000,
            max_running_seqs: 8,
        },
        alloc,
    );
    sched
        .enqueue(Request {
            seq_id: 1,
            prompt_tokens: 16,
            max_new_tokens: 40,
            generated: 0,
            arrival: Instant::now(),
            first_token_at: None,
        })
        .unwrap();

    sched.step(&mut TokenSource::new(|_| false)); // admits seq 1, takes block 1 of 2
    sched.allocator_mut().allocate_seq(999, 16).unwrap(); // occupy the last block

    let mut report;
    loop {
        report = sched.step(&mut TokenSource::new(|_| false));
        if report.preempted.contains(&1) {
            break;
        }
    }
    assert!(sched.allocator().page_table(1).is_none()); // freed on preempt

    sched.allocator_mut().free_seq(999); // give seq 1 somewhere to resume into
    let resumed = sched.step(&mut TokenSource::new(|_| false));
    assert!(resumed.admitted.contains(&1));
    assert_eq!(
        sched.allocator().page_table(1).unwrap().len(),
        2,
        "resumed seq should reserve blocks for prompt + already-generated tokens"
    );
    // the token of the preempting step was kept: this one is the 17th
    assert_eq!(resumed.generated_counts.get(&1), Some(&17));
}

#[test]
fn prompt_at_the_cap_is_queued_and_over_it_refused() {
    let mut sched = scheduler(64, 100, 8);
    assert!(sched.enqueue(req(1, 100, 4)).is_ok());
    assert_eq!(
        sched.enqueue(req(2, 101, 4)),
        Err(SchedulerError::PromptExceedsBatchBudget {
            seq_id: 2,
            prompt_tokens: 101,
            max_batch_tokens: 100,
        })
    );
    assert_eq!(sched.waiting_count(), 1);
}

#[test]
fn later_smaller_request_does_not_jump_the_queue() {
    let mut sched = scheduler(64, 100, 8);
    sched.enqueue(req(1, 60, 4)).unwrap();
    sched.enqueue(req(2, 60, 4)).unwrap();
    sched.enqueue(req(3, 1, 4)).unwrap();
    let report = sched.step(&mut TokenSource::new(|_| false));
    assert_eq!(report.admitted, vec![1]);
    assert_eq!(sched.waiting_count(), 2);
}

#[test]
fn running_seqs_cap_holds() {
    let mut sched = scheduler(64, 1000, 2);
    for i in 0..4 {
        sched.enqueue(req(i, 10, 4)).unwrap();
    }
    let report = sched.step(&mut TokenSource::new(|_| false));
    assert_eq!(report.admitted, vec![0, 1]);
    assert_eq!(sched.running_count(), 2);
}

#[test]
fn no_blocks_stops_admission_and_keeps_the_order() {
    let mut sched = scheduler(3, 1000, 8);
    sched.enqueue(req(1, 32, 4)).unwrap();
    sched.enqueue(req(2, 32, 4)).unwrap();
    sched.enqueue(req(3, 16, 4)).unwrap();
    let report = sched.step(&mut TokenSource::new(|_| false));
    assert_eq!(report.admitted, vec![1]);
    assert_eq!(sched.free_kv_blocks(), 1);
    assert_eq!(sched.waiting_count(), 2);
    // seq 1 ends; 2 and 3 follow in order
    let report = sched.step(&mut TokenSource::new(|_| true));
    assert_eq!(report.finished, vec![1]);
    let report = sched.step(&mut TokenSource::new(|_| false));
    assert_eq!(report.admitted, vec![2, 3]);
}

#[test]
fn eos_finishes_early() {
    let mut sched = scheduler(64, 1000, 8);
    sched.enqueue(req(1, 16, 40)).unwrap();
    sched.enqueue(req(2, 16, 40)).unwrap();
    let report = sched.step(&mut TokenSource::new(|id| *id == 2));
    assert_eq!(report.ran, vec![1, 2]);
    assert_eq!(report.finished, vec![2]);
    assert_eq!(report.generated_counts.get(&1), Some(&1));
    assert_eq!(report.generated_counts.get(&2), Some(&1));
    assert_eq!(sched.running_count(), 1);
}

#[test]
fn counts_go_up_by_one_a_step() {
    let mut sched = scheduler(64, 1000, 8);
    sched.enqueue(req(5, 16, 3)).unwrap();
    for n in 1..4u32 {
        let report = sched.step(&mut TokenSource::new(|_| false));
        assert_eq!(report.generated_counts.get(&5), Some(&n));
        assert_eq!(report.generated_counts.len(), report.ran.len());
        assert_eq!(report.finished.contains(&5), n == 3);
    }
    assert!(!sched.has_work());
    let report = sched.step(&mut TokenSource::new(|_| false));
    assert!(report.ran.is_empty() && report.admitted.is_empty());
}

#[test]
fn sequence_grows_a_block_every_block_size_tokens() {
    let mut sched = scheduler(8, 1000, 8);
    sched.enqueue(req(1, 16, 100)).unwrap();
    for _ in 0..15 {
        sched.step(&mut TokenSource::new(|_| false));
    }
    assert_eq!(sched.allocator().page_table(1).unwrap().len(), 1);
    sched.step(&mut TokenSource::new(|_| false));
    assert_eq!(sched.allocator().page_table(1).unwrap().len(), 2);
}

#[test]
fn preempted_requests_go_to_the_front_in_order() {
    // two sequences on two blocks, a third one in the queue behind them
    let mut sched = scheduler(2, 1000, 2);
    sched.enqueue(req(1, 16, 100)).unwrap();
    sched.enqueue(req(2, 16, 100)).unwrap();
    sched.enqueue(req(3, 16, 100)).unwrap();
    let mut report = sched.step(&mut TokenSource::new(|_| false));
    for _ in 0..15 {
        report = sched.step(&mut TokenSource::new(|_| false));
    }
    assert_eq!(report.preempted, vec![1, 2]);
    assert!(report.ran.is_empty());
    assert!(report.generated_counts.is_empty());
    assert_eq!(sched.waiting_count(), 3);
    assert_eq!(sched.free_kv_blocks(), 2);
    // seq 1 came first and is first in line; it now needs both blocks
    let report = sched.step(&mut TokenSource::new(|_| false));
    assert_eq!(report.admitted, vec![1]);
    let report = sched.step(&mut TokenSource::new(|_| true));
    assert_eq!(report.finished, vec![1]);
    let report = sched.step(&mut TokenSource::new(|_| true));
    assert_eq!(report.admitted, vec![2]);
    let report = sched.step(&mut TokenSource::new(|_| true));
    assert_eq!(report.admitted, vec![3]);
}

#[test]
fn resumed_request_counts_with_its_whole_context() {
    // 32 + 0 and 16 + 16 tokens: each fits under 50, both together do not
    let mut sched = scheduler(64, 50, 8);
    sched.enqueue(req(1, 32, 40)).unwrap();
    let mut resumed = req(2, 16, 40);
    resumed.generated = 16;
    sched.enqueue(resumed).unwrap();
    let report = sched.step(&mut TokenSource::new(|_| false));
    assert_eq!(report.admitted, vec![1]);
    assert_eq!(sched.waiting_count(), 1);
    sched.step(&mut TokenSource::new(|_| true));
    let report = sched.step(&mut TokenSource::new(|_| false));
    assert_eq!(report.admitted, vec![2]);
    assert_eq!(report.generated_counts.get(&2), Some(&17));
}

#[test]
fn request_that_outgrew_the_cap_runs_alone() {
    let mut sched = scheduler(4, 20, 8);
    sched.allocator_mut().allocate_seq(99, 48).unwrap();
    sched.enqueue(req(1, 16, 20)).unwrap();
    sched.enqueue(req(2, 1, 4)).unwrap();
    sched.enqueue(req(3, 20, 4)).unwrap();
    let mut report = sched.step(&mut TokenSource::new(|_| false));
    for _ in 0..15 {
        report = sched.step(&mut TokenSource::new(|_| false));
    }
    assert_eq!(report.preempted, vec![1]);
    sched.allocator_mut().free_seq(99);
    // 16 + 16 tokens are over the cap of 20, and nothing joins it there
    let report = sched.step(&mut TokenSource::new(|_| false));
    assert_eq!(report.admitted, vec![1]);
    assert_eq!(sched.waiting_count(), 2);
    for _ in 0..2 {
        let report = sched.step(&mut TokenSource::new(|_| false));
        assert_eq!(report.ran, vec![1]);
    }
    let report = sched.step(&mut TokenSource::new(|_| false));
    assert_eq!(report.finished, vec![1]);
    let report = sched.step(&mut TokenSource::new(|_| false));
    assert_eq!(report.admitted, vec![2]);
}

#[test]
fn backend_is_asked_once_each_in_batch_order() {
    let mut sched = scheduler(8, 1000, 8);
    sched.enqueue(req(3, 16, 4)).unwrap();
    sched.enqueue(req(1, 16, 0)).unwrap(); // wants no token
    sched.enqueue(req(2, 16, 4)).unwrap();
    let mut asked = Vec::new();
    sched.step(&mut TokenSource::new(|id| {
        asked.push(*id);
        false
    }));
    assert_eq!(asked, vec![3, 2]);
}

#[test]
fn block_size_matters_once_something_can_run() {
    let mut sched = Scheduler::new(
        SchedulerConfig {
            max_batch_tokens: 100,
            max_running_seqs: 0,
        },
        BlockAllocator::new(4, 0),
    );
    assert!(!sched.needs_block_size());
    sched.enqueue(req(1, 16, 4)).unwrap();
    assert!(!sched.needs_block_size()); // nothing may run
    assert!(sched.step(&mut TokenSource::new(|_| false)).admitted.is_empty());
    let mut sched = scheduler(4, 100, 1);
    assert!(!sched.needs_block_size());
    sched.enqueue(req(1, 16, 4)).unwrap();
    assert!(sched.needs_block_size());
    sched.step(&mut TokenSource::new(|_| false));
    assert!(sched.needs_block_size());
}

#[test]
fn preempted_with_its_last_token_finishes_on_resume() {
    let mut sched = scheduler(1, 1000, 8);
    sched.enqueue(req(1, 0, 16)).unwrap();
    sched.allocator_mut().allocate_seq(999, 16).unwrap();
    let mut report = sched.step(&mut TokenSource::new(|_| false));
    for _ in 0..15 {
        report = sched.step(&mut TokenSource::new(|_| false));
    }
    assert_eq!(report.preempted, vec![1]);
    assert!(report.finished.is_empty());
    sched.allocator_mut().free_seq(999);
    let report = sched.step(&mut TokenSource::new(|_| panic!("it has all its tokens")));
    assert_eq!(report.admitted, vec![1]);
    assert_eq!(report.finished, vec![1]);
    assert!(report.ran.is_empty());
    assert_eq!(sched.free_kv_blocks(), 1);
}

#[test]
fn absurd_context_does_not_wrap() {
    let mut sched = scheduler(4, u32::MAX, 8);
    let mut r = req(1, u32::MAX, u32::MAX);
    r.generated = 10;
    sched.enqueue(r).unwrap();
    let report = sched.step(&mut TokenSource::new(|_| false));
    assert!(report.admitted.is_empty());
    assert_eq!(sched.waiting_count(), 1);
    assert_eq!(sched.free_kv_blocks(), 4);
}

#[test]
fn is_done_counts_tokens() {
    let mut r = req(1, 16, 2);
    assert!(!r.is_done());
    r.generated = 2;
    assert!(r.is_done());
    r.generated = 3;
    assert!(r.is_done());
}

/// A pool that is too small for the whole load: sequences are preempted and
/// resumed, every one finishes once with the tokens it asked for, and the pool
/// is whole again.
#[test]
fn tight_pool_drains_through_preemptions() {
    let mut sched = scheduler(9, 1000, 4);
    for i in 1..5 {
        sched.enqueue(req(i, 16, 33)).unwrap();
    }
    let mut tokens = vec![0u32; 5];
    let mut finished: Vec<u64> = Vec::new();
    let mut preemptions = 0;
    let mut steps = 0;
    while sched.has_work() {
        let report = sched.step(&mut TokenSource::new(|_| false));
        preemptions += report.preempted.len();
        for id in &report.ran {
            tokens[*id as usize] += 1;
        }
        for id in &report.preempted {
            assert!(!report.ran.contains(id) && !report.finished.contains(id));
            tokens[*id as usize] += 1; // kept, though not announced
        }
        for id in &report.finished {
            assert!(!finished.contains(id));
            finished.push(*id);
        }
        let mut held: Vec<u32> = Vec::new();
        for id in 1..5u64 {
            for b in sched.allocator().page_table(id).unwrap_or_default() {
                assert!(!held.contains(&b));
                held.push(b);
            }
        }
        assert_eq!(held.len() as u32 + sched.free_kv_blocks(), 9);
        steps += 1;
        assert!(steps <= 4 * 34, "every step with a batch does some of the work");
    }
    assert!(preemptions > 0);
    finished.sort();
    assert_eq!(finished, vec![1, 2, 3, 4]);
    assert_eq!(tokens, vec![0, 33, 33, 33, 33]);
    assert_eq!(sched.free_kv_blocks(), 9);
}
