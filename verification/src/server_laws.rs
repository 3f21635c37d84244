//! Laws of the front end: what a client's stream carries.

use crate::kv_model::SeqId;
use crate::request::Request;
use crate::sched_model::{Answer, Entry, SchedState};
use crate::scheduler::StepReport;
use crate::server::{Delivery, StepPlan};
use vstd::prelude::*;

verus! {

/// A sequence that ran and was not preempted gets a token event, and no other
/// does.
proof fn lemma_delivered_iff_ran(report: StepReport, id: SeqId)
    ensures
        (exists|i: int|
            0 <= i < StepPlan::deliveries(report).len() && (#[trigger] StepPlan::deliveries(
                report,
            )[i]).seq_id == id) <==> report.ran@.contains(id) && !report.preempted@.contains(id),
{
    broadcast use vstd::seq_lib::group_filter_ensures;

    let stands = |x: SeqId| !report.preempted@.contains(x);
    let kept = report.ran@.filter(stands);
    let sent = StepPlan::deliveries(report);
    if exists|i: int| 0 <= i < sent.len() && (#[trigger] sent[i]).seq_id == id {
        let i = choose|i: int| 0 <= i < sent.len() && (#[trigger] sent[i]).seq_id == id;
        assert(kept[i] == id);
        assert(stands(kept[i]));
        assert(kept.contains(id));
        report.ran@.lemma_filter_contains_rev(stands, id);
    }
    if report.ran@.contains(id) && !report.preempted@.contains(id) {
        let k = choose|k: int| 0 <= k < report.ran@.len() && report.ran@[k] == id;
        report.ran@.lemma_filter_contains(stands, k);
        let i = choose|i: int| 0 <= i < kept.len() && kept[i] == id;
        assert(sent[i].seq_id == id);
    }
}

/// A finished sequence is told so once: by its token event if it has one, and by
/// a notice of its own if it has none. A token event that says so goes to a
/// finished sequence only.
pub proof fn law_finished_told_once(report: StepReport, id: SeqId)
    ensures
        report.finished@.contains(id) ==> ((exists|i: int|
            0 <= i < StepPlan::deliveries(report).len() && (#[trigger] StepPlan::deliveries(
                report,
            )[i]).seq_id == id && StepPlan::deliveries(report)[i].event.done) <==> StepPlan::ending(
            report,
            id,
        ).notice is None),
        forall|i: int|
            0 <= i < StepPlan::deliveries(report).len() && (#[trigger] StepPlan::deliveries(
                report,
            )[i]).event.done ==> report.finished@.contains(
                StepPlan::deliveries(report)[i].seq_id,
            ),
{
    lemma_delivered_iff_ran(report, id);
    let sent = StepPlan::deliveries(report);
    assert forall|i: int| 0 <= i < sent.len() implies (#[trigger] sent[i]).event
        == StepPlan::token_event(report, sent[i].seq_id) by {}
    if report.finished@.contains(id) && StepPlan::ending(report, id).notice is None {
        let i = choose|i: int| 0 <= i < sent.len() && (#[trigger] sent[i]).seq_id == id;
        assert(sent[i].event.done);
    }
}

/// No sequence gets two token events from one step.
pub proof fn law_one_token_event_each(
    s: SchedState,
    total: nat,
    answers: Seq<Answer>,
    report: StepReport,
    i: int,
    j: int,
)
    requires
        s.wf(total),
        s.admits_cleanly(),
        answers.len() == s.admitted().running.len(),
        report.tells(s, answers),
        0 <= i < j < StepPlan::deliveries(report).len(),
    ensures
        StepPlan::deliveries(report)[i].seq_id != StepPlan::deliveries(report)[j].seq_id,
{
    let es = s.admitted().decoded(answers).entries;
    crate::sched_laws::lemma_batch(s, total, answers);
    crate::sched_lemmas::lemma_filter_ids_distinct(es, |e: Entry| e.outcome.ran());
    crate::kv_model::lemma_filter_distinct(
        report.ran@,
        |x: SeqId| !report.preempted@.contains(x),
    );
}

/// A sequence that ran is sent a token event, and the index in it is the number
/// of tokens that the sequence had before the step: the tokens of a sequence are
/// numbered from 0 in the order in which they are generated.
pub proof fn law_token_index_counts_up(
    s: SchedState,
    total: nat,
    answers: Seq<Answer>,
    report: StepReport,
    k: int,
)
    requires
        s.wf(total),
        s.admits_cleanly(),
        answers.len() == s.admitted().running.len(),
        report.tells(s, answers),
        0 <= k < answers.len(),
        s.admitted().decoded(answers).entries[k].outcome.ran(),
    ensures
        ({
            let r: Request = s.admitted().running[k];
            let event = StepPlan::token_event(report, r.seq_id);
            &&& event.token_index == r.generated
            &&& StepPlan::deliveries(report).contains(
                Delivery { seq_id: r.seq_id, event },
            )
        }),
{
    let t = s.admitted();
    let es = t.decoded(answers).entries;
    crate::sched_laws::lemma_batch(s, total, answers);
    crate::sched_laws::law_one_token_each(t, answers, k);
    crate::sched_laws::law_counts_are_token_counts(es, k);
    let id = t.running[k].seq_id;
    assert(es[k].request.seq_id == id);
    crate::sched_lemmas::lemma_id_tells_entry(es, |e: Entry| e.outcome.ran(), k);
    crate::sched_lemmas::lemma_id_tells_entry(es, |e: Entry| e.outcome is Preempted, k);
    lemma_ran_entry_not_done(t, answers, k);
    lemma_delivered_iff_ran(report, id);
    let sent = StepPlan::deliveries(report);
    let i = choose|i: int| 0 <= i < sent.len() && (#[trigger] sent[i]).seq_id == id;
    assert(sent[i] == (Delivery { seq_id: id, event: StepPlan::token_event(report, id) }));
}

proof fn lemma_ran_entry_not_done(t: SchedState, answers: Seq<Answer>, k: int)
    requires
        0 <= k < answers.len(),
        answers.len() <= t.running.len(),
        t.decoded(answers).entries.len() == answers.len(),
        t.decoded(answers).entries[k].outcome.ran(),
    ensures
        !t.running[k].done(),
    decreases answers.len(),
{
    let fewer = answers.drop_last();
    crate::sched_laws::law_one_token_each(t, answers, k);
    if k < fewer.len() {
        crate::sched_laws::law_one_token_each(t, fewer, k);
        assert(t.decoded(answers).entries[k] == t.decoded(fewer).entries[k]);
        lemma_ran_entry_not_done(t, fewer, k);
    } else if fewer.len() > 0 {
        crate::sched_laws::law_one_token_each(t, fewer, 0);
    }
}

/// What follows from a report, told by its lists. The backend lets go of what
/// finished. The tokens counted are those that ran. Of those that ran, each that
/// was not preempted gets one event, in order: its index is one less than its
/// count, and it is done if the sequence finished. Each finished sequence has one
/// ending, in order; it has a notice, with index 0 and done, if it got no event.
pub proof fn law_plan_follows_the_lists(report: StepReport, plan: StepPlan)
    requires
        plan.follows(report),
    ensures
        plan.release@ == report.finished@,
        plan.tokens == report.ran@.len(),
        plan.tokens_sent@.map_values(|d: Delivery| d.seq_id) == report.ran@.filter(
            |id: SeqId| !report.preempted@.contains(id),
        ),
        forall|i: int|
            #![trigger plan.tokens_sent@[i]]
            0 <= i < plan.tokens_sent@.len() ==> {
                let sent = plan.tokens_sent@[i];
                &&& report.ran@.contains(sent.seq_id)
                &&& sent.event.done <==> report.finished@.contains(sent.seq_id)
                &&& report.generated_counts@.contains_key(sent.seq_id)
                    && report.generated_counts@[sent.seq_id] > 0 ==> sent.event.token_index
                    == report.generated_counts@[sent.seq_id] - 1
            },
        plan.endings@.len() == report.finished@.len(),
        forall|i: int|
            #![trigger plan.endings@[i]]
            0 <= i < plan.endings@.len() ==> {
                let ending = plan.endings@[i];
                &&& ending.seq_id == report.finished@[i]
                &&& ending.notice is None <==> report.ran@.contains(ending.seq_id)
                    && !report.preempted@.contains(ending.seq_id)
                &&& ending.notice matches Some(event) ==> event.token_index == 0 && event.done
            },
{
    let stands = |id: SeqId| !report.preempted@.contains(id);
    let kept = report.ran@.filter(stands);
    assert(plan.tokens_sent@.map_values(|d: Delivery| d.seq_id) =~= kept);
    assert forall|i: int| 0 <= i < plan.tokens_sent@.len() implies report.ran@.contains(
        (#[trigger] plan.tokens_sent@[i]).seq_id,
    ) by {
        assert(plan.tokens_sent@[i].seq_id == kept[i]);
        assert(kept.contains(kept[i]));
        report.ran@.lemma_filter_contains_rev(stands, kept[i]);
    }
}

/// The event that ends a stream without a token has index 0 and is done.
pub proof fn law_end_without_token()
    ensures
        crate::server::TokenEvent::over().token_index == 0,
        crate::server::TokenEvent::over().done,
{
}

} // verus!
