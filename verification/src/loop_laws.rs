//! Laws over a whole run of the decode loop: what the backend is called with,
//! which sequences it is told to let go of, and what a client's stream carries.
//! A run is the list of the requests handed in and of the decode steps, in the
//! order in which the loop took them.

use crate::kv_model::SeqId;
use crate::request::Request;
use crate::sched_laws::Op;
use crate::sched_model::{Answer, Entry, Outcome, SchedState};
use crate::scheduler::StepReport;
use crate::server::{Delivery, Ending, StepPlan, TokenEvent};
use vstd::prelude::*;

verus! {

/// One call of the backend.
pub enum BackendCall {
    /// Asked for the next token of a sequence; true if it said that this was the
    /// last.
    Advance(SeqId, bool),
    /// Told to let go of a sequence.
    Free(SeqId),
}

impl BackendCall {
    /// Whose call it is.
    pub open spec fn seq_id(self) -> SeqId {
        match self {
            BackendCall::Advance(id, _) => id,
            BackendCall::Free(id) => id,
        }
    }
}

impl TokenEvent {
    /// The events of `n` tokens, numbered from 0. If the stream is over, the last
    /// of them says so; no other does.
    pub open spec fn numbered(n: nat, over: bool) -> Seq<TokenEvent> {
        Seq::new(n, |i: int| TokenEvent { token_index: i as u32, done: over && i == n - 1 })
    }
}

impl Request {
    /// What a request for tokens from the first on has brought about while it is
    /// on: the backend was asked once for each token so far and said no end, and
    /// the client got one event for each, numbered from 0, none of them done.
    pub open spec fn streams(self, said: Seq<bool>, events: Seq<TokenEvent>) -> bool {
        &&& said.len() < self.max_new_tokens || said.len() == 0
        &&& forall|i: int| 0 <= i < said.len() ==> !#[trigger] said[i]
        &&& events == TokenEvent::numbered(said.len(), false)
    }

    /// What it has brought about once it is finished: the same, but that the last
    /// event is done, and that the last call said so or gave the last token that
    /// was asked for. A request for no tokens gets a single event, which ends the
    /// stream, and the backend is not asked.
    pub open spec fn streamed(self, said: Seq<bool>, events: Seq<TokenEvent>) -> bool {
        if self.max_new_tokens == 0 {
            said.len() == 0 && events == seq![TokenEvent::over()]
        } else {
            &&& 0 < said.len() <= self.max_new_tokens
            &&& forall|i: int| 0 <= i < said.len() - 1 ==> !#[trigger] said[i]
            &&& said.last() || said.len() == self.max_new_tokens
            &&& events == TokenEvent::numbered(said.len(), true)
        }
    }
}

impl SchedState {
    /// The ids of the calls in a record.
    pub open spec fn call_ids(calls: Seq<(SeqId, bool)>) -> Seq<SeqId> {
        calls.map_values(|c: (SeqId, bool)| c.0)
    }

    /// What a decode step did to each request of its batch.
    pub open spec fn entries(self, answers: Seq<Answer>) -> Seq<Entry> {
        self.admitted().decoded(answers).entries
    }

    /// The token events of a step: one for each sequence that got a token that
    /// stands, with the index of that token.
    pub open spec fn deliveries(self, answers: Seq<Answer>) -> Seq<Delivery> {
        Entry::served(self.entries(answers)).map_values(
            |e: Entry|
                Delivery {
                    seq_id: e.request.seq_id,
                    event: TokenEvent {
                        token_index: (e.request.generated - 1) as u32,
                        done: e.outcome is Finished,
                    },
                },
        )
    }

    /// The ends of a step: one for each sequence that finished, with a notice for
    /// one that had no token to get.
    pub open spec fn endings(self, answers: Seq<Answer>) -> Seq<Ending> {
        Entry::ending(self.entries(answers)).map_values(
            |e: Entry|
                Ending {
                    seq_id: e.request.seq_id,
                    notice: if e.outcome is AlreadyDone {
                        Some(TokenEvent::over())
                    } else {
                        None
                    },
                },
        )
    }

    /// What the client of `id` is sent for a step: token events, then notices.
    pub open spec fn step_events(self, answers: Seq<Answer>, id: SeqId) -> Seq<TokenEvent> {
        self.deliveries(answers).filter(|d: Delivery| d.seq_id == id).map_values(
            |d: Delivery| d.event,
        ) + self.endings(answers).filter(
            |e: Ending| e.seq_id == id && e.notice is Some,
        ).map_values(|e: Ending| e.notice->0)
    }

    /// The calls for tokens over a run, as the contract of a step has them.
    pub open spec fn calls_by(self, ops: Seq<Op>) -> Seq<(SeqId, bool)>
        decreases ops.len(),
    {
        if ops.len() == 0 {
            Seq::empty()
        } else {
            let before = self.calls_by(ops.drop_last());
            match ops.last() {
                Op::Enqueue(_) => before,
                Op::Step(answers) => before + SchedState::calls_of(
                    self.after(ops.drop_last()).admitted().running,
                    answers,
                ),
            }
        }
    }

    /// What the backend said in a record of calls when asked for tokens of `id`.
    pub open spec fn said_of(calls: Seq<(SeqId, bool)>, id: SeqId) -> Seq<bool>
        decreases calls.len(),
    {
        if calls.len() == 0 {
            Seq::empty()
        } else {
            let before = SchedState::said_of(calls.drop_last(), id);
            if calls.last().0 == id {
                before.push(calls.last().1)
            } else {
                before
            }
        }
    }

    /// What the backend said over a run when asked for tokens of `id`.
    pub open spec fn answers_by(self, ops: Seq<Op>, id: SeqId) -> Seq<bool> {
        SchedState::said_of(self.calls_by(ops), id)
    }

    /// The sequences that the backend is told to let go of over a run.
    pub open spec fn released_by(self, ops: Seq<Op>) -> Seq<SeqId>
        decreases ops.len(),
    {
        if ops.len() == 0 {
            Seq::empty()
        } else {
            let before = self.released_by(ops.drop_last());
            match ops.last() {
                Op::Enqueue(_) => before,
                Op::Step(answers) => before + Entry::ids(
                    Entry::ending(self.after(ops.drop_last()).entries(answers)),
                ),
            }
        }
    }

    /// All the calls of the backend over a run: those of a step, and then the
    /// releases that follow from it.
    pub open spec fn backend_calls(self, ops: Seq<Op>) -> Seq<BackendCall>
        decreases ops.len(),
    {
        if ops.len() == 0 {
            Seq::empty()
        } else {
            let before = self.backend_calls(ops.drop_last());
            match ops.last() {
                Op::Enqueue(_) => before,
                Op::Step(answers) => before + self.after(ops.drop_last()).step_calls(answers),
            }
        }
    }

    /// All the calls of the backend for one step.
    pub open spec fn step_calls(self, answers: Seq<Answer>) -> Seq<BackendCall> {
        SchedState::calls_of(self.admitted().running, answers).map_values(
            |c: (SeqId, bool)| BackendCall::Advance(c.0, c.1),
        ) + Entry::ids(Entry::ending(self.entries(answers))).map_values(
            |id: SeqId| BackendCall::Free(id),
        )
    }

    /// The completions that the metrics count over a run.
    pub open spec fn completions_by(self, ops: Seq<Op>) -> nat
        decreases ops.len(),
    {
        if ops.len() == 0 {
            0
        } else {
            let before = self.completions_by(ops.drop_last());
            match ops.last() {
                Op::Enqueue(_) => before,
                Op::Step(answers) => before + self.after(ops.drop_last()).endings(answers).len(),
            }
        }
    }

    /// What the client of `id` is sent over a run once its request is queued.
    pub open spec fn events_by(self, ops: Seq<Op>, id: SeqId) -> Seq<TokenEvent>
        decreases ops.len(),
    {
        if ops.len() == 0 {
            Seq::empty()
        } else {
            let before = self.events_by(ops.drop_last(), id);
            match ops.last() {
                Op::Enqueue(_) => before,
                Op::Step(answers) => before + self.after(ops.drop_last()).step_events(answers, id),
            }
        }
    }

    /// The request that a run queued under `id`.
    pub open spec fn request_by(self, ops: Seq<Op>, id: SeqId) -> Option<Request>
        decreases ops.len(),
    {
        if ops.len() == 0 {
            None
        } else {
            let before = self.request_by(ops.drop_last(), id);
            match ops.last() {
                Op::Enqueue(r) => if r.seq_id == id && r.prompt_tokens <= self.after(
                    ops.drop_last(),
                ).max_batch_tokens {
                    Some(r)
                } else {
                    before
                },
                Op::Step(_) => before,
            }
        }
    }

    /// No step of a run preempts `id`.
    pub open spec fn never_preempts(self, ops: Seq<Op>, id: SeqId) -> bool
        decreases ops.len(),
    {
        ops.len() > 0 ==> {
            &&& self.never_preempts(ops.drop_last(), id)
            &&& match ops.last() {
                Op::Enqueue(_) => true,
                Op::Step(answers) => !Entry::ids(
                    Entry::displaced(self.after(ops.drop_last()).entries(answers)),
                ).contains(id),
            }
        }
    }

    /// The scheduler holds a request under `id` with this many tokens, out of
    /// this many.
    pub open spec fn holds(self, id: SeqId, generated: nat, max_new_tokens: u32) -> bool {
        exists|r: Request|
            (self.running + self.waiting).contains(r) && #[trigger] r.seq_id == id && r.generated
                == generated && r.max_new_tokens == max_new_tokens
    }
}

pub proof fn lemma_filter_none<A>(s: Seq<A>, pred: spec_fn(A) -> bool)
    requires
        forall|i: int| 0 <= i < s.len() ==> !pred(#[trigger] s[i]),
    ensures
        s.filter(pred) == Seq::<A>::empty(),
    decreases s.len(),
{
    reveal(Seq::filter);
    if s.len() > 0 {
        let rest = s.drop_last();
        assert forall|i: int| 0 <= i < rest.len() implies !pred(#[trigger] rest[i]) by {
            assert(rest[i] == s[i]);
        }
        lemma_filter_none(rest, pred);
        assert(!pred(s[s.len() - 1]));
    }
}

/// Filtering for the one element that passes.
proof fn lemma_filter_one<A>(s: Seq<A>, pred: spec_fn(A) -> bool, k: int)
    requires
        0 <= k < s.len(),
        pred(s[k]),
        forall|i: int| 0 <= i < s.len() && i != k ==> !pred(#[trigger] s[i]),
    ensures
        s.filter(pred) == seq![s[k]],
    decreases s.len(),
{
    reveal(Seq::filter);
    let rest = s.drop_last();
    assert forall|i: int| 0 <= i < rest.len() && i != k implies !pred(#[trigger] rest[i]) by {
        assert(rest[i] == s[i]);
    }
    if k == s.len() - 1 {
        lemma_filter_none(rest, pred);
        assert(s.filter(pred) =~= seq![s[k]]);
    } else {
        lemma_filter_one(rest, pred, k);
        assert(!pred(s[s.len() - 1]));
    }
}

/// Filtering what was mapped is mapping what was filtered.
proof fn lemma_map_filter<A, B>(
    s: Seq<A>,
    f: spec_fn(A) -> B,
    on_image: spec_fn(B) -> bool,
    pred: spec_fn(A) -> bool,
)
    requires
        forall|x: A| #[trigger] pred(x) == on_image(f(x)),
    ensures
        s.map_values(f).filter(on_image) == s.filter(pred).map_values(f),
    decreases s.len(),
{
    if s.len() == 0 {
        reveal(Seq::filter);
        assert(s.map_values(f).filter(on_image) =~= s.filter(pred).map_values(f));
    } else {
        let rest = s.drop_last();
        let last = s.last();
        lemma_map_filter(rest, f, on_image, pred);
        assert(s =~= rest.push(last));
        assert(s.map_values(f) =~= rest.map_values(f).push(f(last)));
        crate::sched_lemmas::lemma_filter_push(rest, last, pred);
        crate::sched_lemmas::lemma_filter_push(rest.map_values(f), f(last), on_image);
        assert(pred(last) == on_image(f(last)));
        assert(rest.filter(pred).push(last).map_values(f) =~= rest.filter(pred).map_values(f).push(
            f(last),
        ));
    }
}

/// The calls of a step are for the requests that want a token, in batch order.
proof fn lemma_call_ids(rs: Seq<Request>, answers: Seq<Answer>)
    requires
        answers.len() == rs.len(),
    ensures
        SchedState::call_ids(SchedState::calls_of(rs, answers)) == Request::ids(
            rs.filter(|r: Request| !r.done()),
        ),
    decreases rs.len(),
{
    let wants = |r: Request| !r.done();
    if rs.len() == 0 {
        reveal(Seq::filter);
        assert(SchedState::call_ids(SchedState::calls_of(rs, answers)) =~= Request::ids(
            rs.filter(wants),
        ));
    } else {
        let n = rs.len() - 1;
        let rest = rs.drop_last();
        let last = rs.last();
        lemma_call_ids(rest, answers.take(n));
        crate::sched_lemmas::lemma_filter_push(rest, last, wants);
        assert(rs =~= rest.push(last));
        let before = SchedState::calls_of(rest, answers.take(n));
        assert(SchedState::call_ids(before.push((last.seq_id, answers[n].eos)))
            =~= SchedState::call_ids(before).push(last.seq_id));
        assert(Request::ids(rest.filter(wants).push(last)) =~= Request::ids(
            rest.filter(wants),
        ).push(last.seq_id));
    }
}

/// What a decode step does to a request, by the request and the answer.
pub proof fn lemma_outcome(s: SchedState, answers: Seq<Answer>, k: int)
    requires
        answers.len() <= s.running.len(),
        0 <= k < answers.len(),
    ensures
        s.decoded(answers).entries.len() == answers.len(),
        ({
            let r = s.running[k];
            let e = s.decoded(answers).entries[k];
            &&& e.outcome is AlreadyDone <==> r.done()
            &&& e.outcome is AlreadyDone ==> e.request == r
            &&& !r.done() ==> e.request == r.with_token(answers[k].now)
            &&& e.outcome is Finished ==> answers[k].eos || e.request.done()
            &&& e.outcome is Continued ==> !answers[k].eos && !e.request.done()
        }),
    decreases answers.len(),
{
    let fewer = answers.drop_last();
    crate::sched_laws::law_one_token_each(s, answers, k);
    if k < fewer.len() {
        lemma_outcome(s, fewer, k);
        assert(s.decoded(answers).entries[k] == s.decoded(fewer).entries[k]);
        assert(fewer[k] == answers[k]);
    } else if fewer.len() > 0 {
        lemma_outcome(s, fewer, 0);
    }
}

/// The entries of the requests that wanted a token.
proof fn lemma_asked_entries(s: SchedState, answers: Seq<Answer>)
    requires
        answers.len() <= s.running.len(),
    ensures
        Request::ids(s.running.take(answers.len() as int).filter(|r: Request| !r.done()))
            == Entry::ids(
            s.decoded(answers).entries.filter(|e: Entry| !(e.outcome is AlreadyDone)),
        ),
    decreases answers.len(),
{
    let wants = |r: Request| !r.done();
    let asked = |e: Entry| !(e.outcome is AlreadyDone);
    let n = answers.len() as int;
    let es = s.decoded(answers).entries;
    if n == 0 {
        reveal(Seq::filter);
        assert(Request::ids(s.running.take(n).filter(wants)) =~= Entry::ids(es.filter(asked)));
    } else {
        let fewer = answers.drop_last();
        lemma_asked_entries(s, fewer);
        lemma_outcome(s, answers, n - 1);
        crate::sched_laws::law_one_token_each(s, answers, n - 1);
        let rest = s.decoded(fewer).entries;
        let r = s.running[n - 1];
        let e = es[n - 1];
        assert(es =~= rest.push(e));
        assert(s.running.take(n) =~= s.running.take(n - 1).push(r));
        crate::sched_lemmas::lemma_filter_push(rest, e, asked);
        crate::sched_lemmas::lemma_filter_push(s.running.take(n - 1), r, wants);
        assert(Entry::ids(rest.filter(asked).push(e)) =~= Entry::ids(rest.filter(asked)).push(
            r.seq_id,
        ));
        let ahead = s.running.take(n - 1).filter(wants);
        assert(Request::ids(ahead.push(r)) =~= Request::ids(ahead).push(r.seq_id));
    }
}

/// Filtering requests by id is filtering their ids.
pub proof fn lemma_ids_filter(rs: Seq<Request>, keep: spec_fn(SeqId) -> bool)
    ensures
        Request::ids(rs).filter(keep) == Request::ids(rs.filter(|r: Request| keep(r.seq_id))),
{
    lemma_map_filter(rs, |r: Request| r.seq_id, keep, |r: Request| keep(r.seq_id));
}

/// A step asks the backend exactly once for each request of the batch that still
/// wants a token, in batch order, and for no other; those that ran are those that
/// it asked for without those that it preempted.
pub proof fn law_backend_asked_once_each(s: SchedState, total: nat, answers: Seq<Answer>)
    requires
        s.wf(total),
        s.admits_cleanly(),
        answers.len() == s.admitted().running.len(),
    ensures
        ({
            let asked = SchedState::call_ids(
                SchedState::calls_of(s.admitted().running, answers),
            );
            let preempted = Entry::ids(Entry::displaced(s.entries(answers)));
            &&& asked == Request::ids(s.admitted().running.filter(|r: Request| !r.done()))
            &&& asked.no_duplicates()
            &&& Entry::ids(Entry::served(s.entries(answers))) == asked.filter(
                |id: SeqId| !preempted.contains(id),
            )
        }),
{
    let t = s.admitted();
    let es = s.entries(answers);
    let was_asked = |e: Entry| !(e.outcome is AlreadyDone);
    let stands = |e: Entry| !(e.outcome is Preempted);
    let preempted = Entry::ids(Entry::displaced(es));
    let keep = |id: SeqId| !preempted.contains(id);
    let keep_request = |r: Request| keep(r.seq_id);
    crate::sched_laws::lemma_batch(s, total, answers);
    lemma_call_ids(t.running, answers);
    lemma_asked_entries(t, answers);
    assert(t.running.take(answers.len() as int) =~= t.running);
    crate::sched_lemmas::lemma_filter_ids_distinct(es, was_asked);
    let on = es.filter(was_asked);
    assert forall|i: int| 0 <= i < on.len() implies stands(#[trigger] on[i]) == keep_request(
        on[i].request,
    ) by {
        assert(on.contains(on[i]));
        es.lemma_filter_contains_rev(was_asked, on[i]);
        let j = choose|j: int| 0 <= j < es.len() && es[j] == on[i];
        crate::sched_lemmas::lemma_id_tells_entry(es, |e: Entry| e.outcome is Preempted, j);
    }
    crate::sched_lemmas::lemma_filter_requests(on, stands, keep_request);
    crate::sched_lemmas::lemma_filter_filter(es, was_asked, stands, |e: Entry| e.outcome.ran());
    lemma_ids_filter(Entry::requests(on), keep);
}

/// What follows from a step, by what the step did: the backend lets go of the
/// sequences that finished; each sequence that got a token that stands gets an
/// event with the index of that token, done if it was the last; each finished
/// sequence has an ending, with a notice if it had no token to get. A sequence
/// gets no event in the step that preempts it.
pub proof fn law_plan_of_a_step(
    s: SchedState,
    total: nat,
    answers: Seq<Answer>,
    report: StepReport,
    plan: StepPlan,
)
    requires
        s.wf(total),
        s.admits_cleanly(),
        answers.len() == s.admitted().running.len(),
        report.tells(s, answers),
        plan.follows(report),
    ensures
        plan.release@ == Entry::ids(Entry::ending(s.entries(answers))),
        plan.tokens == s.deliveries(answers).len(),
        plan.tokens_sent@ == s.deliveries(answers),
        plan.endings@ == s.endings(answers),
        forall|i: int|
            0 <= i < plan.tokens_sent@.len() ==> !report.preempted@.contains(
                (#[trigger] plan.tokens_sent@[i]).seq_id,
            ),
{
    broadcast use vstd::seq_lib::group_filter_ensures;

    let t = s.admitted();
    let es = s.entries(answers);
    let ran = |e: Entry| e.outcome.ran();
    let ends = |e: Entry| e.outcome.ends();
    let served = es.filter(ran);
    let ending = es.filter(ends);
    crate::sched_laws::lemma_batch(s, total, answers);
    assert forall|i: int| 0 <= i < served.len() implies !report.preempted@.contains(
        (#[trigger] served[i]).request.seq_id,
    ) && StepPlan::token_event(report, served[i].request.seq_id) == (TokenEvent {
        token_index: (served[i].request.generated - 1) as u32,
        done: served[i].outcome is Finished,
    }) by {
        assert(ran(served[i]));
        assert(served.contains(served[i]));
        es.lemma_filter_contains_rev(ran, served[i]);
        let j = choose|j: int| 0 <= j < es.len() && es[j] == served[i];
        crate::sched_laws::law_counts_are_token_counts(es, j);
        crate::sched_lemmas::lemma_id_tells_entry(es, ends, j);
        crate::sched_lemmas::lemma_id_tells_entry(es, |e: Entry| e.outcome is Preempted, j);
        lemma_outcome(t, answers, j);
    }
    let stands = |id: SeqId| !report.preempted@.contains(id);
    assert forall|i: int| 0 <= i < report.ran@.len() implies stands(#[trigger] report.ran@[i]) by {
        assert(report.ran@[i] == served[i].request.seq_id);
    }
    crate::sched_lemmas::lemma_filter_all(report.ran@, stands);
    assert(plan.tokens_sent@ =~= s.deliveries(answers));
    assert forall|i: int| 0 <= i < ending.len() implies StepPlan::ending(
        report,
        (#[trigger] ending[i]).request.seq_id,
    ).notice == (if ending[i].outcome is AlreadyDone {
        Some(TokenEvent::over())
    } else {
        None
    }) by {
        assert(ends(ending[i]));
        assert(ending.contains(ending[i]));
        es.lemma_filter_contains_rev(ends, ending[i]);
        let j = choose|j: int| 0 <= j < es.len() && es[j] == ending[i];
        crate::sched_lemmas::lemma_id_tells_entry(es, ran, j);
        crate::sched_lemmas::lemma_id_tells_entry(es, |e: Entry| e.outcome is Preempted, j);
    }
    assert(plan.endings@ =~= s.endings(answers));
}

/// The batch of a step is made of requests that the scheduler held.
proof fn lemma_batch_is_held(s: SchedState, id: SeqId)
    requires
        Request::ids(s.admitted().running).contains(id),
    ensures
        s.all_ids().count(id) > 0,
{
    broadcast use vstd::seq_lib::group_to_multiset_ensures;

    crate::sched_lemmas::lemma_admit_count(s, 0);
    let batch = s.admitted().running;
    let k = choose|k: int| 0 <= k < batch.len() && Request::ids(batch)[k] == id;
    if k < s.running.len() {
        assert(Request::ids(s.running)[k] == id);
        assert(Request::ids(s.running).contains(id));
    } else {
        assert(Request::ids(s.waiting)[k - s.running.len()] == id);
        assert(Request::ids(s.waiting).contains(id));
    }
}

/// The calls of a step are all for sequences of its batch, and a release comes
/// once and after everything else for its sequence.
proof fn lemma_step_calls(s: SchedState, total: nat, answers: Seq<Answer>)
    requires
        s.wf(total),
        s.admits_cleanly(),
        answers.len() == s.admitted().running.len(),
    ensures
        forall|i: int|
            0 <= i < s.step_calls(answers).len() ==> Request::ids(s.admitted().running).contains(
                (#[trigger] s.step_calls(answers)[i]).seq_id(),
            ),
        forall|i: int, j: int|
            0 <= i < j < s.step_calls(answers).len() && (#[trigger] s.step_calls(
                answers,
            )[i]) is Free ==> (#[trigger] s.step_calls(answers)[j]).seq_id() != s.step_calls(
                answers,
            )[i].seq_id(),
        forall|i: int|
            0 <= i < s.step_calls(answers).len() && (#[trigger] s.step_calls(answers)[i]) is Free
                ==> Entry::ids(Entry::ending(s.entries(answers))).contains(
                s.step_calls(answers)[i].seq_id(),
            ),
{
    let batch = s.admitted().running;
    let es = s.entries(answers);
    let asked = SchedState::calls_of(batch, answers);
    let gone = Entry::ids(Entry::ending(es));
    let calls = s.step_calls(answers);
    let wants = |r: Request| !r.done();
    crate::sched_laws::lemma_batch(s, total, answers);
    law_backend_asked_once_each(s, total, answers);
    crate::sched_lemmas::lemma_filter_ids_distinct(es, |e: Entry| e.outcome.ends());
    assert(SchedState::call_ids(asked) == Request::ids(batch.filter(wants)));
    assert(SchedState::call_ids(asked).len() == asked.len());
    assert forall|i: int| 0 <= i < calls.len() implies Request::ids(batch).contains(
        (#[trigger] calls[i]).seq_id(),
    ) by {
        if i < asked.len() {
            let r = batch.filter(wants)[i];
            assert(SchedState::call_ids(asked)[i] == r.seq_id);
            assert(batch.filter(wants).contains(r));
            batch.lemma_filter_contains_rev(wants, r);
            let k = choose|k: int| 0 <= k < batch.len() && batch[k] == r;
            assert(Request::ids(batch)[k] == r.seq_id);
        } else {
            assert(calls[i].seq_id() == gone[i - asked.len()]);
            assert(gone.contains(gone[i - asked.len()]));
            assert(Entry::ids(es).contains(gone[i - asked.len()]));
        }
    }
    assert forall|i: int, j: int|
        0 <= i < j < calls.len() && (#[trigger] calls[i]) is Free implies (
    #[trigger] calls[j]).seq_id() != calls[i].seq_id() by {
        assert(i >= asked.len());
        assert(gone[i - asked.len()] != gone[j - asked.len()]);
    }
    assert forall|i: int| 0 <= i < calls.len() && (#[trigger] calls[i]) is Free implies
        gone.contains(calls[i].seq_id()) by {
        assert(i >= asked.len());
        assert(gone[i - asked.len()] == calls[i].seq_id());
    }
}

/// Over a run, the backend is told to let go of every finished sequence exactly
/// once and of no other, and never called for it again; the metrics count one
/// completion for each.
pub proof fn law_released_once_and_last(s: SchedState, total: nat, ops: Seq<Op>)
    requires
        s == SchedState::fresh(s.max_batch_tokens, s.max_running_seqs, s.block_size, total),
        total <= u32::MAX,
        s.sound_run(ops),
    ensures
        s.released_by(ops).to_multiset() == s.finished_by(ops),
        s.released_by(ops).no_duplicates(),
        s.completions_by(ops) == s.released_by(ops).len(),
        forall|i: int|
            0 <= i < s.backend_calls(ops).len() && (#[trigger] s.backend_calls(ops)[i]) is Free
                ==> s.finished_by(ops).count(s.backend_calls(ops)[i].seq_id()) == 1,
        forall|i: int, j: int|
            0 <= i < j < s.backend_calls(ops).len() && (#[trigger] s.backend_calls(ops)[i]) is Free
                ==> (#[trigger] s.backend_calls(ops)[j]).seq_id() != s.backend_calls(
                ops,
            )[i].seq_id(),
    decreases ops.len(),
{
    broadcast use vstd::seq_lib::group_to_multiset_ensures;

    crate::sched_laws::law_runs_keep_account(s, total, ops);
    if ops.len() == 0 {
        assert(Seq::<SeqId>::empty().to_multiset().len() == 0);
        assert(s.released_by(ops).to_multiset() =~= s.finished_by(ops));
    } else {
        let rest = ops.drop_last();
        law_released_once_and_last(s, total, rest);
        crate::sched_laws::law_runs_keep_account(s, total, rest);
        if let Op::Step(answers) = ops.last() {
            let t = s.after(rest);
            let gone = Entry::ids(Entry::ending(t.entries(answers)));
            let before = s.backend_calls(rest);
            let now = t.step_calls(answers);
            let calls = s.backend_calls(ops);
            vstd::seq_lib::lemma_multiset_commutative(s.released_by(rest), gone);
            assert(s.released_by(ops).to_multiset() =~= s.finished_by(ops));
            lemma_step_calls(t, total, answers);
            assert forall|i: int| 0 <= i < calls.len() && (#[trigger] calls[i]) is Free implies
                s.finished_by(ops).count(calls[i].seq_id()) == 1 by {
                if i < before.len() {
                    assert(before[i] == calls[i]);
                } else {
                    assert(now[i - before.len()] == calls[i]);
                    assert(gone.contains(calls[i].seq_id()));
                    assert(gone.to_multiset().count(calls[i].seq_id()) > 0);
                }
                assert(s.finished_by(ops).count(calls[i].seq_id()) <= 1);
            }
            assert forall|i: int, j: int|
                0 <= i < j < calls.len() && (#[trigger] calls[i]) is Free implies (
            #[trigger] calls[j]).seq_id() != calls[i].seq_id() by {
                if j < before.len() {
                    assert(before[i] == calls[i] && before[j] == calls[j]);
                } else if i < before.len() {
                    assert(before[i] == calls[i]);
                    assert(now[j - before.len()] == calls[j]);
                    assert(s.queued_by(rest).count(calls[i].seq_id()) <= 1);
                    assert(t.all_ids().count(calls[i].seq_id()) == 0);
                    lemma_batch_is_held(t, calls[j].seq_id());
                } else {
                    assert(now[i - before.len()] == calls[i]);
                    assert(now[j - before.len()] == calls[j]);
                }
            }
        }
        assert forall|id: SeqId| s.released_by(ops).to_multiset().contains(id) implies
            s.released_by(ops).to_multiset().count(id) == 1 by {
            assert(s.finished_by(ops).count(id) <= 1);
        }
        s.released_by(ops).lemma_multiset_has_no_duplicates_conv();
    }
}

/// A step calls the backend for no sequence outside its batch.
proof fn lemma_no_calls_for(rs: Seq<Request>, answers: Seq<Answer>, id: SeqId)
    requires
        answers.len() == rs.len(),
        !Request::ids(rs).contains(id),
    ensures
        SchedState::said_of(SchedState::calls_of(rs, answers), id) == Seq::<bool>::empty(),
    decreases rs.len(),
{
    if rs.len() > 0 {
        let n = rs.len() - 1;
        let rest = rs.drop_last();
        let before = SchedState::calls_of(rest, answers.take(n));
        assert(Request::ids(rs)[n] == rs.last().seq_id);
        assert(!Request::ids(rest).contains(id)) by {
            if Request::ids(rest).contains(id) {
                let i = choose|i: int| 0 <= i < rest.len() && Request::ids(rest)[i] == id;
                assert(Request::ids(rs)[i] == id);
            }
        }
        lemma_no_calls_for(rest, answers.take(n), id);
        assert(before.push((rs.last().seq_id, answers[n].eos)).drop_last() =~= before);
    }
}

/// A step calls the backend once for a sequence of its batch that wants a token.
proof fn lemma_calls_for(rs: Seq<Request>, answers: Seq<Answer>, k: int)
    requires
        answers.len() == rs.len(),
        Request::ids(rs).no_duplicates(),
        0 <= k < rs.len(),
    ensures
        SchedState::said_of(SchedState::calls_of(rs, answers), rs[k].seq_id) == if rs[k].done() {
            Seq::<bool>::empty()
        } else {
            seq![answers[k].eos]
        },
    decreases rs.len(),
{
    let id = rs[k].seq_id;
    let n = rs.len() - 1;
    let rest = rs.drop_last();
    let before = SchedState::calls_of(rest, answers.take(n));
    assert(Request::ids(rest) =~= Request::ids(rs).drop_last());
    assert(before.push((rs.last().seq_id, answers[n].eos)).drop_last() =~= before);
    if k == n {
        assert(!Request::ids(rest).contains(id)) by {
            if Request::ids(rest).contains(id) {
                let i = choose|i: int| 0 <= i < rest.len() && Request::ids(rest)[i] == id;
                assert(Request::ids(rs)[i] == Request::ids(rs)[n]);
            }
        }
        lemma_no_calls_for(rest, answers.take(n), id);
        assert(Seq::<bool>::empty().push(answers[n].eos) =~= seq![answers[n].eos]);
    } else {
        lemma_calls_for(rest, answers.take(n), k);
        assert(rest[k] == rs[k]);
        assert(answers.take(n)[k] == answers[k]);
        assert(Request::ids(rs)[k] != Request::ids(rs)[n]);
    }
}

/// A client's events of a step, by the entries of its sequence.
proof fn lemma_step_events(s: SchedState, answers: Seq<Answer>, id: SeqId)
    ensures
        s.step_events(answers, id) == s.entries(answers).filter(
            |e: Entry| e.outcome.ran() && e.request.seq_id == id,
        ).map_values(
            |e: Entry|
                TokenEvent {
                    token_index: (e.request.generated - 1) as u32,
                    done: e.outcome is Finished,
                },
        ) + s.entries(answers).filter(
            |e: Entry| e.outcome is AlreadyDone && e.request.seq_id == id,
        ).map_values(|e: Entry| TokenEvent::over()),
{
    let es = s.entries(answers);
    let ran = |e: Entry| e.outcome.ran();
    let ends = |e: Entry| e.outcome.ends();
    let has_id = |e: Entry| e.request.seq_id == id;
    let ran_id = |e: Entry| e.outcome.ran() && e.request.seq_id == id;
    let over_id = |e: Entry| e.outcome is AlreadyDone && e.request.seq_id == id;
    let delivery = |e: Entry|
        Delivery {
            seq_id: e.request.seq_id,
            event: TokenEvent {
                token_index: (e.request.generated - 1) as u32,
                done: e.outcome is Finished,
            },
        };
    let ending = |e: Entry|
        Ending {
            seq_id: e.request.seq_id,
            notice: if e.outcome is AlreadyDone {
                Some(TokenEvent::over())
            } else {
                None
            },
        };
    lemma_map_filter(es.filter(ran), delivery, |d: Delivery| d.seq_id == id, has_id);
    crate::sched_lemmas::lemma_filter_filter(es, ran, has_id, ran_id);
    lemma_map_filter(
        es.filter(ends),
        ending,
        |e: Ending| e.seq_id == id && e.notice is Some,
        over_id,
    );
    crate::sched_lemmas::lemma_filter_filter(es, ends, over_id, over_id);
    let sent = es.filter(ran_id);
    let told = es.filter(over_id);
    assert(sent.map_values(delivery).map_values(|d: Delivery| d.event) =~= sent.map_values(
        |e: Entry|
            TokenEvent {
                token_index: (e.request.generated - 1) as u32,
                done: e.outcome is Finished,
            },
    ));
    assert(told.map_values(ending).map_values(|e: Ending| e.notice->0) =~= told.map_values(
        |e: Entry| TokenEvent::over(),
    )) by {
        broadcast use vstd::seq_lib::group_filter_ensures;

        assert forall|i: int| 0 <= i < told.len() implies ending(#[trigger] told[i]).notice->0
            == TokenEvent::over() by {
            assert(over_id(told[i]));
        }
    }
}

/// What a step does for one sequence of its batch: at most one call of the
/// backend and at most one event.
proof fn lemma_step_for(s: SchedState, total: nat, answers: Seq<Answer>, k: int)
    requires
        s.wf(total),
        s.admits_cleanly(),
        answers.len() == s.admitted().running.len(),
        0 <= k < answers.len(),
    ensures
        ({
            let r = s.admitted().running[k];
            let e = s.entries(answers)[k];
            s.step_events(answers, r.seq_id) == match e.outcome {
                Outcome::AlreadyDone => seq![TokenEvent::over()],
                Outcome::Preempted => Seq::<TokenEvent>::empty(),
                _ => seq![
                    TokenEvent { token_index: r.generated, done: e.outcome is Finished },
                ],
            }
        }),
{
    let r = s.admitted().running[k];
    let id = r.seq_id;
    let es = s.entries(answers);
    let ran_id = |e: Entry| e.outcome.ran() && e.request.seq_id == id;
    let over_id = |e: Entry| e.outcome is AlreadyDone && e.request.seq_id == id;
    crate::sched_laws::lemma_batch(s, total, answers);
    lemma_outcome(s.admitted(), answers, k);
    lemma_step_events(s, answers, id);
    assert(Entry::ids(es)[k] == Request::ids(s.admitted().running)[k]);
    assert forall|i: int| 0 <= i < es.len() && i != k implies (
    #[trigger] es[i]).request.seq_id != id by {
        assert(Entry::ids(es)[i] != Entry::ids(es)[k]);
    }
    if ran_id(es[k]) {
        lemma_filter_one(es, ran_id, k);
    } else {
        lemma_filter_none(es, ran_id);
    }
    if over_id(es[k]) {
        lemma_filter_one(es, over_id, k);
    } else {
        lemma_filter_none(es, over_id);
    }
    assert(s.step_events(answers, id) =~= match es[k].outcome {
        Outcome::AlreadyDone => seq![TokenEvent::over()],
        Outcome::Preempted => Seq::<TokenEvent>::empty(),
        _ => seq![TokenEvent { token_index: r.generated, done: es[k].outcome is Finished }],
    });
}

/// A step does nothing for a sequence outside its batch.
proof fn lemma_step_without(s: SchedState, total: nat, answers: Seq<Answer>, id: SeqId)
    requires
        s.wf(total),
        s.admits_cleanly(),
        answers.len() == s.admitted().running.len(),
        !Request::ids(s.admitted().running).contains(id),
    ensures
        SchedState::said_of(SchedState::calls_of(s.admitted().running, answers), id) == Seq::<
            bool,
        >::empty(),
        s.step_events(answers, id) == Seq::<TokenEvent>::empty(),
        !Entry::ids(Entry::ending(s.entries(answers))).contains(id),
{
    let es = s.entries(answers);
    crate::sched_laws::lemma_batch(s, total, answers);
    lemma_no_calls_for(s.admitted().running, answers, id);
    lemma_step_events(s, answers, id);
    crate::sched_lemmas::lemma_filter_ids_distinct(es, |e: Entry| e.outcome.ends());
    assert forall|i: int| 0 <= i < es.len() implies (#[trigger] es[i]).request.seq_id != id by {
        assert(Entry::ids(es)[i] == es[i].request.seq_id);
    }
    lemma_filter_none(es, |e: Entry| e.outcome.ran() && e.request.seq_id == id);
    lemma_filter_none(es, |e: Entry| e.outcome is AlreadyDone && e.request.seq_id == id);
    assert(s.step_events(answers, id) =~= Seq::<TokenEvent>::empty());
}

/// Where a held request goes in a step: it waits on, or it is in the batch at
/// the position returned.
proof fn lemma_step_moves(
    s: SchedState,
    total: nat,
    answers: Seq<Answer>,
    id: SeqId,
    generated: nat,
    max_new_tokens: u32,
) -> (k: int)
    requires
        s.wf(total),
        s.unique_ids(),
        s.admits_cleanly(),
        answers.len() == s.admitted().running.len(),
        s.holds(id, generated, max_new_tokens),
    ensures
        k < answers.len(),
        k < 0 ==> !Request::ids(s.admitted().running).contains(id) && s.stepped(answers).holds(
            id,
            generated,
            max_new_tokens,
        ),
        k >= 0 ==> {
            let r = s.admitted().running[k];
            let e = s.entries(answers)[k];
            &&& r.seq_id == id
            &&& r.generated == generated
            &&& r.max_new_tokens == max_new_tokens
            &&& e.outcome is Continued ==> s.stepped(answers).holds(
                id,
                generated + 1,
                max_new_tokens,
            )
            &&& e.outcome.ends() == Entry::ids(Entry::ending(s.entries(answers))).contains(id)
            &&& e.outcome is Preempted == Entry::ids(
                Entry::displaced(s.entries(answers)),
            ).contains(id)
        },
{
    let line = s.running + s.waiting;
    let r = choose|r: Request|
        line.contains(r) && #[trigger] r.seq_id == id && r.generated == generated
            && r.max_new_tokens == max_new_tokens;
    let i = choose|i: int| 0 <= i < line.len() && line[i] == r;
    let batch = s.admitted().running;
    let es = s.entries(answers);
    let u = s.stepped(answers);
    crate::sched_lemmas::lemma_admit_count(s, 0);
    crate::sched_laws::lemma_batch(s, total, answers);
    assert(batch =~= line.take(batch.len() as int));
    assert(Request::ids(line)[i] == id);
    if i < batch.len() {
        let e = es[i];
        let stays = |e: Entry| e.outcome is Continued;
        lemma_outcome(s.admitted(), answers, i);
        assert(Entry::ids(es)[i] == id);
        crate::sched_lemmas::lemma_id_tells_entry(es, |e: Entry| e.outcome.ends(), i);
        crate::sched_lemmas::lemma_id_tells_entry(es, |e: Entry| e.outcome is Preempted, i);
        if e.outcome is Continued {
            es.lemma_filter_contains(stays, i);
            let on = es.filter(stays);
            let j = choose|j: int| 0 <= j < on.len() && on[j] == e;
            assert((u.running + u.waiting)[j] == e.request);
            assert(e.request.seq_id == id);
        }
        i
    } else {
        assert(!Request::ids(batch).contains(id)) by {
            if Request::ids(batch).contains(id) {
                let j = choose|j: int| 0 <= j < batch.len() && Request::ids(batch)[j] == id;
                assert(Request::ids(line)[j] == id);
            }
        }
        let back = Entry::requests(Entry::displaced(es));
        let j = u.running.len() + back.len() + i - batch.len();
        assert((u.running + u.waiting)[j] == r);
        -1
    }
}

/// What the backend said in one record and then in another.
proof fn lemma_said_concat(a: Seq<(SeqId, bool)>, b: Seq<(SeqId, bool)>, id: SeqId)
    ensures
        SchedState::said_of(a + b, id) == SchedState::said_of(a, id) + SchedState::said_of(b, id),
    decreases b.len(),
{
    if b.len() == 0 {
        assert(a + b =~= a);
        assert(SchedState::said_of(a, id) + SchedState::said_of(b, id) =~= SchedState::said_of(
            a,
            id,
        ));
    } else {
        lemma_said_concat(a, b.drop_last(), id);
        assert((a + b).drop_last() =~= a + b.drop_last());
        assert(SchedState::said_of(a + b, id) =~= SchedState::said_of(a, id) + SchedState::said_of(
            b,
            id,
        ));
    }
}

/// A client's stream, for a request handed in with nothing generated that is
/// never preempted, at any point of a run: the events that the client was sent,
/// and what the backend said to the calls for the sequence.
pub proof fn law_stream_numbers_every_token(s: SchedState, total: nat, ops: Seq<Op>, id: SeqId)
    requires
        s == SchedState::fresh(s.max_batch_tokens, s.max_running_seqs, s.block_size, total),
        total <= u32::MAX,
        s.sound_run(ops),
        s.request_by(ops, id) is Some ==> s.request_by(ops, id)->0.generated == 0,
        s.never_preempts(ops, id),
    ensures
        s.request_by(ops, id) is Some <==> s.queued_by(ops).count(id) == 1,
        match s.request_by(ops, id) {
            None => s.answers_by(ops, id).len() == 0 && s.events_by(ops, id).len() == 0,
            Some(r) => {
                let said = s.answers_by(ops, id);
                if s.finished_by(ops).count(id) == 0 {
                    &&& s.after(ops).holds(id, said.len(), r.max_new_tokens)
                    &&& r.streams(said, s.events_by(ops, id))
                } else {
                    r.streamed(said, s.events_by(ops, id))
                }
            },
        },
    decreases ops.len(),
{
    broadcast use vstd::seq_lib::group_to_multiset_ensures;

    crate::sched_laws::law_runs_keep_account(s, total, ops);
    assert(s.queued_by(ops).count(id) <= 1);
    assert(s.finished_by(ops).count(id) <= 1);
    if ops.len() > 0 {
        let rest = ops.drop_last();
        crate::sched_laws::law_runs_keep_account(s, total, rest);
        assert(s.queued_by(rest).count(id) <= 1);
        match ops.last() {
            Op::Enqueue(r) => {
                if s.request_by(rest, id) is Some {
                    lemma_request_is_queued(s, rest, id);
                }
                law_stream_numbers_every_token(s, total, rest, id);
                lemma_enqueue_holds(s, ops, id);
                if s.request_by(rest, id) is None {
                    assert(s.events_by(ops, id) =~= TokenEvent::numbered(0, false));
                }
            },
            Op::Step(answers) => {
                law_stream_numbers_every_token(s, total, rest, id);
                lemma_stream_step(s, total, ops, id);
            },
        }
    }
}

/// A request that a run queued is in its account.
pub proof fn lemma_request_is_queued(s: SchedState, ops: Seq<Op>, id: SeqId)
    requires
        s.request_by(ops, id) is Some,
    ensures
        s.queued_by(ops).count(id) > 0,
    decreases ops.len(),
{
    let rest = ops.drop_last();
    if let Op::Enqueue(r) = ops.last() {
        if s.request_by(rest, id) is Some {
            lemma_request_is_queued(s, rest, id);
        }
    } else {
        lemma_request_is_queued(s, rest, id);
    }
}

/// Handing a request in leaves what is held as it is, and adds the request.
proof fn lemma_enqueue_holds(s: SchedState, ops: Seq<Op>, id: SeqId)
    requires
        ops.len() > 0,
        ops.last() is Enqueue,
    ensures
        forall|n: nat, max: u32| #[trigger]
            s.after(ops.drop_last()).holds(id, n, max) ==> s.after(ops).holds(id, n, max),
        ops.last()->Enqueue_0.prompt_tokens <= s.after(ops.drop_last()).max_batch_tokens
            && ops.last()->Enqueue_0.seq_id == id ==> s.after(ops).holds(
            id,
            ops.last()->Enqueue_0.generated as nat,
            ops.last()->Enqueue_0.max_new_tokens,
        ),
{
    let t = s.after(ops.drop_last());
    let u = s.after(ops);
    let r = ops.last()->Enqueue_0;
    if r.prompt_tokens <= t.max_batch_tokens {
        let before = t.running + t.waiting;
        let line = u.running + u.waiting;
        assert(line =~= before.push(r));
        assert(line[before.len() as int] == r);
        assert forall|n: nat, max: u32| #[trigger] t.holds(id, n, max) implies u.holds(
            id,
            n,
            max,
        ) by {
            let x = choose|x: Request|
                before.contains(x) && #[trigger] x.seq_id == id && x.generated == n
                    && x.max_new_tokens == max;
            let i = choose|i: int| 0 <= i < before.len() && before[i] == x;
            assert(line[i] == x);
        }
    }
}

/// One more token on a stream.
proof fn lemma_stream_grows(
    r: Request,
    said: Seq<bool>,
    events: Seq<TokenEvent>,
    before: Request,
    e: Entry,
    answer: Answer,
)
    requires
        r.streams(said, events),
        before.generated == said.len(),
        before.max_new_tokens == r.max_new_tokens,
        !before.done(),
        e.request == before.with_token(answer.now),
        e.outcome is Finished ==> answer.eos || e.request.done(),
        e.outcome is Continued ==> !answer.eos && !e.request.done(),
    ensures
        ({
            let event = TokenEvent {
                token_index: before.generated,
                done: e.outcome is Finished,
            };
            let more = events + seq![event];
            &&& e.outcome is Finished ==> r.streamed(said.push(answer.eos), more)
            &&& e.outcome is Continued ==> r.streams(said.push(answer.eos), more)
        }),
{
    let event = TokenEvent { token_index: before.generated, done: e.outcome is Finished };
    assert(events + seq![event] =~= TokenEvent::numbered(
        said.len() + 1,
        e.outcome is Finished,
    ));
}

/// One more step, for a sequence that it does not preempt.
proof fn lemma_stream_step(s: SchedState, total: nat, ops: Seq<Op>, id: SeqId)
    requires
        ops.len() > 0,
        ops.last() is Step,
        ops.last()->Step_0.len() == s.after(ops.drop_last()).admitted().running.len(),
        s.after(ops.drop_last()).wf(total),
        s.after(ops.drop_last()).unique_ids(),
        s.after(ops.drop_last()).admits_cleanly(),
        s.queued_by(ops.drop_last()) == s.after(ops.drop_last()).all_ids().add(
            s.finished_by(ops.drop_last()),
        ),
        s.queued_by(ops.drop_last()).count(id) <= 1,
        s.never_preempts(ops, id),
        s.request_by(ops, id) is Some <==> s.queued_by(ops).count(id) == 1,
        match s.request_by(ops, id) {
            None => s.answers_by(ops.drop_last(), id).len() == 0 && s.events_by(
                ops.drop_last(),
                id,
            ).len() == 0,
            Some(r) => {
                let said = s.answers_by(ops.drop_last(), id);
                if s.finished_by(ops.drop_last()).count(id) == 0 {
                    &&& s.after(ops.drop_last()).holds(id, said.len(), r.max_new_tokens)
                    &&& r.streams(said, s.events_by(ops.drop_last(), id))
                } else {
                    r.streamed(said, s.events_by(ops.drop_last(), id))
                }
            },
        },
    ensures
        match s.request_by(ops, id) {
            None => s.answers_by(ops, id).len() == 0 && s.events_by(ops, id).len() == 0,
            Some(r) => {
                let said = s.answers_by(ops, id);
                if s.finished_by(ops).count(id) == 0 {
                    &&& s.after(ops).holds(id, said.len(), r.max_new_tokens)
                    &&& r.streams(said, s.events_by(ops, id))
                } else {
                    r.streamed(said, s.events_by(ops, id))
                }
            },
        },
{
    let rest = ops.drop_last();
    let t = s.after(rest);
    let answers = ops.last()->Step_0;
    let batch = t.admitted().running;
    let es = t.entries(answers);
    let gone = Entry::ids(Entry::ending(es));
    let said = s.answers_by(rest, id);
    let n = said.len();
    let events = s.events_by(rest, id);
    lemma_said_concat(s.calls_by(rest), SchedState::calls_of(batch, answers), id);
    assert(s.events_by(ops, id) == events + t.step_events(answers, id));
    assert(s.finished_by(ops).count(id) == s.finished_by(rest).count(id) + gone.to_multiset().count(
        id,
    ));
    assert(gone.contains(id) <==> gone.to_multiset().count(id) > 0) by {
        broadcast use vstd::seq_lib::group_to_multiset_ensures;

    }
    if s.request_by(ops, id) is None || s.finished_by(rest).count(id) > 0 {
        assert(t.all_ids().count(id) == 0);
        if Request::ids(batch).contains(id) {
            lemma_batch_is_held(t, id);
        }
        lemma_step_without(t, total, answers, id);
        assert(s.answers_by(ops, id) =~= said);
        assert(s.events_by(ops, id) =~= events);
    } else {
        let r = s.request_by(ops, id)->0;
        let k = lemma_step_moves(t, total, answers, id, n, r.max_new_tokens);
        if k < 0 {
            lemma_step_without(t, total, answers, id);
            assert(s.answers_by(ops, id) =~= said);
            assert(s.events_by(ops, id) =~= events);
        } else {
            crate::sched_laws::lemma_batch(t, total, answers);
            lemma_calls_for(batch, answers, k);
            lemma_step_for(t, total, answers, k);
            lemma_outcome(t.admitted(), answers, k);
            if batch[k].done() {
                assert(s.answers_by(ops, id) =~= said);
                assert(s.events_by(ops, id) =~= seq![TokenEvent::over()]);
            } else {
                assert(s.answers_by(ops, id) =~= said.push(answers[k].eos));
                lemma_stream_grows(r, said, events, batch[k], es[k], answers[k]);
            }
        }
    }
}

} // verus!
