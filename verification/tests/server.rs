use iron_batch::kv_cache::BlockAllocator;
use iron_batch::scheduler::{Request, Scheduler, SchedulerConfig, StepReport};
use iron_batch::server::{
    frame_line, plan_step, AppState, Delivery, Ending, Engine, GenerateReq, LoopAction, LoopEvent,
    TokenEvent, TokenStream, TOKEN_CHANNEL_CAPACITY,
};
use iron_batch::token_source::TokenSource;
use std::collections::HashMap;
use std::time::Instant;

const OVER: TokenEvent = TokenEvent {
    token_index: 0,
    done: true,
};

fn req(seq_id: u64, prompt_tokens: u32, max_new_tokens: u32) -> Request {
    Request {
        seq_id,
        prompt_tokens,
        max_new_tokens,
        generated: 0,
        arrival: Instant::now(),
        first_token_at: None,
    }
}

fn engine(blocks: u32) -> Engine {
    Engine::new(Scheduler::new(
        SchedulerConfig {
            max_batch_tokens: 100,
            max_running_seqs: 8,
        },
        BlockAllocator::new(blocks, 16),
    ))
}

#[test]
fn ids_count_up_from_one() {
    let mut state = AppState::new();
    let ask = GenerateReq {
        prompt_tokens: 12,
        max_new_tokens: 3,
    };
    let now = Instant::now();
    let a = state.open_request(&ask, now);
    let b = state.open_request(&ask, now);
    assert_eq!((a.seq_id, b.seq_id), (1, 2));
    assert_eq!((a.prompt_tokens, a.max_new_tokens, a.generated), (12, 3, 0));
    assert!(a.arrival == now && a.first_token_at.is_none());
    assert_eq!(state.metrics.tokens_generated(), 0);
    assert_eq!(TOKEN_CHANNEL_CAPACITY, 256);
}

#[test]
fn loop_polls_then_steps_or_waits() {
    let mut e = engine(64);
    let r = e.on_event(LoopEvent::QueueEmpty);
    assert_eq!((r.next, r.refused), (LoopAction::Wait, None));
    let r = e.on_event(LoopEvent::Received(req(1, 10, 2)));
    assert_eq!((r.next, r.refused), (LoopAction::Poll, None));
    let r = e.on_event(LoopEvent::QueueEmpty);
    assert_eq!((r.next, r.refused), (LoopAction::Step, None));
    let r = e.on_event(LoopEvent::Stepped);
    assert_eq!((r.next, r.refused), (LoopAction::Poll, None));
    let r = e.on_event(LoopEvent::Closed);
    assert_eq!((r.next, r.refused), (LoopAction::Stop, None));
}

#[test]
fn refused_request_is_answered_with_the_end() {
    let mut e = engine(64);
    let r = e.on_event(LoopEvent::Received(req(9, 101, 2)));
    assert_eq!(r.next, LoopAction::Poll);
    assert_eq!(
        r.refused,
        Some(Delivery {
            seq_id: 9,
            event: OVER
        })
    );
    assert!(!e.scheduler.has_work());
}

#[test]
fn stream_counts_up_and_ends_once() {
    let mut e = engine(64);
    e.on_event(LoopEvent::Received(req(4, 10, 3)));
    let mut events = Vec::new();
    for _ in 0..3 {
        let plan = e.step(&mut TokenSource::new(|_| false));
        assert_eq!(plan.tokens, 1);
        for d in &plan.tokens_sent {
            assert_eq!(d.seq_id, 4);
            events.push(d.event);
        }
        for end in &plan.endings {
            assert_eq!((end.seq_id, end.notice), (4, None));
            assert_eq!(plan.release, vec![4]);
        }
    }
    assert_eq!(
        events,
        vec![
            TokenEvent { token_index: 0, done: false },
            TokenEvent { token_index: 1, done: false },
            TokenEvent { token_index: 2, done: true },
        ]
    );
    assert!(!e.scheduler.has_work());
}

/// Two clients share the loop; one stream ends early, the other at its length.
#[test]
fn streams_of_a_run_cost_one_call_per_event() {
    let mut e = engine(64);
    e.on_event(LoopEvent::Received(req(1, 10, 5)));
    e.on_event(LoopEvent::Received(req(2, 10, 4)));
    // what the backend is called with: a token asked for, or a release
    let mut calls: Vec<(u64, bool)> = Vec::new();
    let mut events: HashMap<u64, Vec<TokenEvent>> = HashMap::new();
    let mut completions = 0;
    while e.scheduler.has_work() {
        let mut asked = Vec::new();
        let plan = e.step(&mut TokenSource::new(|id| {
            asked.push(*id);
            *id == 1 && calls.iter().filter(|c| c.0 == 1).count() == 2
        }));
        calls.extend(asked.iter().map(|id| (*id, false)));
        calls.extend(plan.release.iter().map(|id| (*id, true)));
        for d in &plan.tokens_sent {
            events.entry(d.seq_id).or_default().push(d.event);
        }
        completions += plan.endings.len();
    }
    for (id, n) in [(1, 3), (2, 4)] {
        let expected: Vec<TokenEvent> = (0..n)
            .map(|i| TokenEvent { token_index: i, done: i == n - 1 })
            .collect();
        assert_eq!(events[&id], expected);
        let of_id: Vec<bool> = calls.iter().filter(|c| c.0 == id).map(|c| c.1).collect();
        let mut asked_then_freed = vec![false; n as usize];
        asked_then_freed.push(true);
        assert_eq!(of_id, asked_then_freed);
    }
    assert_eq!(completions, 2);
}

#[test]
fn request_for_no_tokens_gets_a_notice() {
    let mut e = engine(64);
    e.on_event(LoopEvent::Received(req(4, 10, 0)));
    let plan = e.step(&mut TokenSource::new(|_| panic!("nothing to ask for")));
    assert_eq!(plan.tokens, 0);
    assert!(plan.tokens_sent.is_empty());
    assert_eq!(
        plan.endings,
        vec![Ending {
            seq_id: 4,
            notice: Some(OVER)
        }]
    );
}

#[test]
fn preempted_sequence_gets_no_event() {
    let mut e = engine(1);
    e.on_event(LoopEvent::Received(req(4, 16, 40)));
    for _ in 0..15 {
        assert_eq!(e.step(&mut TokenSource::new(|_| false)).tokens_sent.len(), 1);
    }
    let plan = e.step(&mut TokenSource::new(|_| false));
    assert!(plan.tokens_sent.is_empty() && plan.endings.is_empty());
    assert_eq!(plan.tokens, 0);
}

#[test]
fn plan_of_a_mixed_report() {
    let mut generated_counts = HashMap::new();
    generated_counts.insert(1u64, 5u32);
    generated_counts.insert(2, 1);
    let report = StepReport {
        ran: vec![1, 2, 3, 6],
        admitted: vec![],
        finished: vec![2, 4, 6],
        preempted: vec![6],
        generated_counts,
    };
    let plan = plan_step(&report);
    assert_eq!(plan.release, vec![2, 4, 6]);
    assert_eq!(plan.tokens, 4);
    assert_eq!(
        plan.tokens_sent,
        vec![
            Delivery { seq_id: 1, event: TokenEvent { token_index: 4, done: false } },
            Delivery { seq_id: 2, event: TokenEvent { token_index: 0, done: true } },
            Delivery { seq_id: 3, event: TokenEvent { token_index: 0, done: false } },
        ]
    );
    assert_eq!(
        plan.endings,
        vec![
            Ending { seq_id: 2, notice: None },
            Ending { seq_id: 4, notice: Some(OVER) },
            Ending { seq_id: 6, notice: Some(OVER) },
        ]
    );
}

#[test]
fn stream_records_its_first_event_and_stops_at_the_end() {
    let mut s = TokenStream::new();
    let step = s.on_event(&TokenEvent { token_index: 0, done: false });
    assert!(step.record_ttft && !step.last);
    let step = s.on_event(&TokenEvent { token_index: 1, done: true });
    assert!(!step.record_ttft && step.last);
}

#[test]
fn lines_end_in_a_newline() {
    assert_eq!(frame_line("{}".to_string()), "{}\n");
}
