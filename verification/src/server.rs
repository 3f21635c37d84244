//! The rules of the HTTP front end. One background task owns the scheduler and
//! drives the decode loop; request handlers enqueue and stream what the loop
//! sends them. What the loop does next, which token events a step gives rise to
//! and what a stream does with each is decided here; channels and sockets are
//! the caller's.

use crate::kv_model::SeqId;
use crate::metrics::Metrics;
use crate::sched_model::{Answer, SchedState};
use crate::scheduler::{Request, Scheduler, StepReport};
use crate::token_source::TokenSource;
use std::time::Instant;
use vstd::prelude::*;
use vstd::string::StringExecFns;

verus! {

broadcast use vstd::std_specs::hash::group_hash_axioms;

/// How many token events a client may lag behind.
pub const TOKEN_CHANNEL_CAPACITY: usize = 256;

/// What a client asks for.
#[derive(Debug, PartialEq, Eq, Clone, Copy)]
pub struct GenerateReq {
    pub prompt_tokens: u32,
    pub max_new_tokens: u32,
}

/// One line of a client's stream.
#[derive(Debug, PartialEq, Eq, Clone, Copy)]
pub struct TokenEvent {
    pub token_index: u32,
    pub done: bool,
}

impl TokenEvent {
    /// The event that ends a stream without a token.
    pub open spec fn over() -> TokenEvent {
        TokenEvent { token_index: 0, done: true }
    }
}

/// What all request handlers share.
pub struct AppState {
    pub next_seq_id: SeqId,
    pub metrics: Metrics,
}

impl AppState {
    /// The first sequence is number 1.
    pub fn new() -> (s: Self)
        ensures
            s.next_seq_id == 1,
            s.metrics@ == crate::metrics::MetricsState::empty(),
            s.metrics@.wf(),
    {
        AppState { next_seq_id: 1, metrics: Metrics::new() }
    }

    /// Turn what a client asked for into a request with the next sequence id.
    pub fn open_request(&mut self, req: &GenerateReq, arrival: Instant) -> (r: Request)
        ensures
            r == (Request {
                seq_id: old(self).next_seq_id,
                prompt_tokens: req.prompt_tokens,
                max_new_tokens: req.max_new_tokens,
                generated: 0,
                arrival,
                first_token_at: None,
            }),
            final(self).next_seq_id == old(self).next_seq_id.wrapping_add(1),
            final(self).metrics == old(self).metrics,
    {
        let seq_id = self.next_seq_id;
        self.next_seq_id = seq_id.wrapping_add(1);
        Request {
            seq_id,
            prompt_tokens: req.prompt_tokens,
            max_new_tokens: req.max_new_tokens,
            generated: 0,
            arrival,
            first_token_at: None,
        }
    }
}

/// What happened to the decode loop.
pub enum LoopEvent {
    /// A request came in.
    Received(Request),
    /// No request is there right now.
    QueueEmpty,
    /// No request will ever come again.
    Closed,
    /// A decode step is done.
    Stepped,
}

/// What the decode loop does next.
#[derive(Debug, PartialEq, Eq, Clone, Copy)]
pub enum LoopAction {
    /// Look for a request without waiting.
    Poll,
    /// Wait for a request.
    Wait,
    /// Run a decode step.
    Step,
    /// End.
    Stop,
}

/// The answer to an event: a client to be told that its request was refused, and
/// what to do next.
#[derive(Debug, PartialEq, Eq, Clone, Copy)]
pub struct Reaction {
    pub refused: Option<Delivery>,
    pub next: LoopAction,
}

/// A token event and whose it is.
#[derive(Debug, PartialEq, Eq, Clone, Copy)]
pub struct Delivery {
    pub seq_id: SeqId,
    pub event: TokenEvent,
}

/// A finished sequence. Its client is told so here if no token event did.
#[derive(Debug, PartialEq, Eq, Clone, Copy)]
pub struct Ending {
    pub seq_id: SeqId,
    pub notice: Option<TokenEvent>,
}

/// What follows from a decode step, in this order: the backend lets go of
/// `release`, the metrics count `tokens`, the `tokens_sent` go out (a client
/// that cannot be reached is unsubscribed), and for each of `endings` the notice
/// goes out if there is one, the client is unsubscribed and the metrics count a
/// completion.
pub struct StepPlan {
    pub release: Vec<SeqId>,
    pub tokens: u64,
    pub tokens_sent: Vec<Delivery>,
    pub endings: Vec<Ending>,
}

impl StepPlan {
    /// The event for a sequence that ran: the index of its token, and whether it
    /// was the last.
    pub open spec fn token_event(report: StepReport, id: SeqId) -> TokenEvent {
        TokenEvent {
            token_index: if report.generated_counts@.contains_key(id) {
                report.generated_counts@[id].saturating_sub(1)
            } else {
                0
            },
            done: report.finished@.contains(id),
        }
    }

    /// The token events of a step: one for each sequence that ran and was not
    /// preempted, in the order in which they ran.
    pub open spec fn deliveries(report: StepReport) -> Seq<Delivery> {
        report.ran@.filter(|id: SeqId| !report.preempted@.contains(id)).map_values(
            |id: SeqId| Delivery { seq_id: id, event: StepPlan::token_event(report, id) },
        )
    }

    /// The end of a finished sequence, with a notice if it had no token event.
    pub open spec fn ending(report: StepReport, id: SeqId) -> Ending {
        Ending {
            seq_id: id,
            notice: if !report.ran@.contains(id) || report.preempted@.contains(id) {
                Some(TokenEvent::over())
            } else {
                None
            },
        }
    }

    /// The plan is what follows from the report.
    pub open spec fn follows(&self, report: StepReport) -> bool {
        &&& self.release@ == report.finished@
        &&& self.tokens == report.ran@.len()
        &&& self.tokens_sent@ == StepPlan::deliveries(report)
        &&& self.endings@ == report.finished@.map_values(
            |id: SeqId| StepPlan::ending(report, id),
        )
    }
}

/// What follows from a decode step.
pub fn plan_step(report: &StepReport) -> (plan: StepPlan)
    ensures
        plan.follows(*report),
{
    let tokens_sent = plan_deliveries(report);
    let mut release: Vec<SeqId> = Vec::with_capacity(report.finished.len());
    let mut endings: Vec<Ending> = Vec::with_capacity(report.finished.len());
    let ghost end_of = |id: SeqId| StepPlan::ending(*report, id);
    let mut i: usize = 0;
    assert(report.finished@.take(0).map_values(end_of) =~= Seq::<Ending>::empty());
    while i < report.finished.len()
        invariant
            i <= report.finished@.len(),
            end_of == (|id: SeqId| StepPlan::ending(*report, id)),
            release@ == report.finished@.take(i as int),
            endings@ == report.finished@.take(i as int).map_values(end_of),
        decreases report.finished@.len() - i,
    {
        let id = report.finished[i];
        let told = crate::scheduler::contains_id(&report.ran, id)
            && !crate::scheduler::contains_id(&report.preempted, id);
        release.push(id);
        endings.push(
            Ending {
                seq_id: id,
                notice: if told {
                    None
                } else {
                    Some(TokenEvent { token_index: 0, done: true })
                },
            },
        );
        proof {
            assert(report.finished@.take(i + 1) =~= report.finished@.take(i as int).push(id));
            assert(endings@ =~= report.finished@.take(i + 1).map_values(end_of));
        }
        i = i + 1;
    }
    assert(report.finished@.take(i as int) =~= report.finished@);
    StepPlan { release, tokens: report.ran.len() as u64, tokens_sent, endings }
}

/// The token events of a step.
fn plan_deliveries(report: &StepReport) -> (sent: Vec<Delivery>)
    ensures
        sent@ == StepPlan::deliveries(*report),
{
    let mut sent: Vec<Delivery> = Vec::with_capacity(report.ran.len());
    let ghost stands = |id: SeqId| !report.preempted@.contains(id);
    let ghost told = |id: SeqId|
        Delivery { seq_id: id, event: StepPlan::token_event(*report, id) };
    let mut i: usize = 0;
    proof {
        reveal(Seq::filter);
        assert(report.ran@.take(0).filter(stands).map_values(told) =~= Seq::<Delivery>::empty());
    }
    while i < report.ran.len()
        invariant
            i <= report.ran@.len(),
            stands == (|id: SeqId| !report.preempted@.contains(id)),
            told == (|id: SeqId|
                Delivery { seq_id: id, event: StepPlan::token_event(*report, id) }),
            sent@ == report.ran@.take(i as int).filter(stands).map_values(told),
        decreases report.ran@.len() - i,
    {
        let id = report.ran[i];
        let ghost before = report.ran@.take(i as int);
        proof {
            assert(report.ran@.take(i + 1) =~= before.push(id));
            crate::sched_lemmas::lemma_filter_push(before, id, stands);
        }
        if !crate::scheduler::contains_id(&report.preempted, id) {
            let token_index = match report.generated_counts.get(&id) {
                Some(generated) => generated.saturating_sub(1),
                None => 0,
            };
            let done = crate::scheduler::contains_id(&report.finished, id);
            sent.push(Delivery { seq_id: id, event: TokenEvent { token_index, done } });
            assert(sent@ =~= before.filter(stands).push(id).map_values(told));
        }
        i = i + 1;
    }
    assert(report.ran@.take(i as int) =~= report.ran@);
    sent
}

/// The decode loop's state.
pub struct Engine {
    pub scheduler: Scheduler,
}

impl Engine {
    /// A loop over `scheduler`.
    pub fn new(scheduler: Scheduler) -> (e: Self)
        ensures
            e.scheduler == scheduler,
    {
        Engine { scheduler }
    }

    /// React to an event. Requests are taken in as long as some are there; then a
    /// decode step runs if there is work, and the loop waits if there is none. A
    /// request that the scheduler refuses is answered with the end of its
    /// stream.
    pub fn on_event(&mut self, event: LoopEvent) -> (r: Reaction)
        ensures
            final(self).scheduler.pool() == old(self).scheduler.pool(),
            old(self).scheduler.wf() ==> final(self).scheduler.wf(),
            match event {
                LoopEvent::Received(req) => {
                    &&& r.next == LoopAction::Poll
                    &&& if req.prompt_tokens > old(self).scheduler@.max_batch_tokens {
                        &&& r.refused == Some(
                            Delivery { seq_id: req.seq_id, event: TokenEvent::over() },
                        )
                        &&& final(self).scheduler@ == old(self).scheduler@
                    } else {
                        &&& r.refused is None
                        &&& final(self).scheduler@.waiting == old(self).scheduler@.waiting.push(req)
                        &&& final(self).scheduler@ == old(self).scheduler@.enqueued(req)
                    }
                },
                LoopEvent::QueueEmpty => {
                    &&& r.refused is None
                    &&& r.next == if old(self).scheduler@.idle() {
                        LoopAction::Wait
                    } else {
                        LoopAction::Step
                    }
                    &&& r.next == if old(self).scheduler@.waiting.len() == 0 && old(
                        self,
                    ).scheduler@.running.len() == 0 {
                        LoopAction::Wait
                    } else {
                        LoopAction::Step
                    }
                    &&& final(self).scheduler@ == old(self).scheduler@
                },
                LoopEvent::Closed => {
                    &&& r == (Reaction { refused: None, next: LoopAction::Stop })
                    &&& final(self).scheduler@ == old(self).scheduler@
                },
                LoopEvent::Stepped => {
                    &&& r == (Reaction { refused: None, next: LoopAction::Poll })
                    &&& final(self).scheduler@ == old(self).scheduler@
                },
            },
    {
        match event {
            LoopEvent::Received(req) => {
                let seq_id = req.seq_id;
                let refused = match self.scheduler.enqueue(req) {
                    Ok(()) => None,
                    Err(_) => Some(
                        Delivery { seq_id, event: TokenEvent { token_index: 0, done: true } },
                    ),
                };
                Reaction { refused, next: LoopAction::Poll }
            },
            LoopEvent::QueueEmpty => {
                let next = if self.scheduler.has_work() {
                    LoopAction::Step
                } else {
                    LoopAction::Wait
                };
                Reaction { refused: None, next }
            },
            LoopEvent::Closed => Reaction { refused: None, next: LoopAction::Stop },
            LoopEvent::Stepped => Reaction { refused: None, next: LoopAction::Poll },
        }
    }

    /// Run a decode step and say what follows from it.
    pub fn step<F>(&mut self, step_fn: &mut TokenSource<F>) -> (plan: StepPlan) where
        F: FnMut(&SeqId) -> bool,

        requires
            old(self).scheduler.wf(),
            old(self).scheduler@.admits_cleanly(),
            old(self).scheduler@.needs_block_size() ==> old(self).scheduler@.block_size > 0,
            crate::scheduler::may_ask(
                old(step_fn).asked(),
                old(self).scheduler@.admitted().running,
            ),
        ensures
            final(self).scheduler.wf(),
            final(self).scheduler.pool().total_blocks() == old(
                self,
            ).scheduler.pool().total_blocks(),
            final(step_fn).asked() == old(step_fn).asked(),
            exists|answers: Seq<Answer>, report: StepReport|
                {
                    &&& crate::scheduler::answered_by(
                        old(step_fn).asked(),
                        old(self).scheduler@.admitted().running,
                        answers,
                    )
                    &&& final(step_fn).log() == old(step_fn).log() + SchedState::calls_of(
                        old(self).scheduler@.admitted().running,
                        answers,
                    )
                    &&& final(self).scheduler@ == #[trigger] old(self).scheduler@.stepped(answers)
                    &&& report.tells(old(self).scheduler@, answers)
                    &&& #[trigger] plan.follows(report)
                },
    {
        let report = self.scheduler.step(step_fn);
        let plan = plan_step(&report);
        assert(plan.follows(report));
        plan
    }
}

/// A client's stream.
#[derive(Debug, PartialEq, Eq, Clone, Copy)]
pub struct TokenStream {
    pub first: bool,
}

/// What to do with an event that reached a client's stream.
#[derive(Debug, PartialEq, Eq, Clone, Copy)]
pub struct StreamStep {
    /// The wait for the first event is over: keep its length.
    pub record_ttft: bool,
    /// The stream ends after this event.
    pub last: bool,
}

impl TokenStream {
    /// A stream that nothing has reached yet.
    pub fn new() -> (s: Self)
        ensures
            s.first,
    {
        TokenStream { first: true }
    }

    /// Take in one event.
    pub fn on_event(&mut self, event: &TokenEvent) -> (r: StreamStep)
        ensures
            r == (StreamStep { record_ttft: old(self).first, last: event.done }),
            !final(self).first,
    {
        let record_ttft = self.first;
        self.first = false;
        StreamStep { record_ttft, last: event.done }
    }
}

/// One event per line.
pub fn frame_line(line: String) -> (framed: String)
    ensures
        framed@ == line@ + "\n"@,
{
    line.concat("\n")
}

} // verus!
