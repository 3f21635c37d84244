//! Laws over a whole run of a scheduler: how many blocks a sequence holds as it
//! decodes, and in which order requests are admitted.

use crate::kv_model::SeqId;
use crate::request::Request;
use crate::sched_laws::Op;
use crate::sched_model::{Answer, Entry, SchedState};
use vstd::prelude::*;

verus! {

/// A run leaves the caps and the block size as they are.
proof fn lemma_run_keeps_config(s: SchedState, ops: Seq<Op>)
    ensures
        s.after(ops).max_batch_tokens == s.max_batch_tokens,
        s.after(ops).max_running_seqs == s.max_running_seqs,
        s.after(ops).block_size == s.block_size,
    decreases ops.len(),
{
    if ops.len() > 0 {
        lemma_run_keeps_config(s, ops.drop_last());
    }
}

/// Where a request that waits after a step was before it, if the step did not
/// preempt it.
proof fn lemma_waited_before(s: SchedState, answers: Seq<Answer>, i: int) -> (w: int)
    requires
        0 <= i < s.stepped(answers).waiting.len(),
        !Entry::ids(Entry::displaced(s.entries(answers))).contains(
            s.stepped(answers).waiting[i].seq_id,
        ),
    ensures
        0 <= w < s.waiting.len(),
        s.waiting[w] == s.stepped(answers).waiting[i],
        w == i + s.admissions() - Entry::displaced(s.entries(answers)).len(),
        s.admissions() <= w,
{
    crate::sched_lemmas::lemma_admit_count(s, 0);
    let back = Entry::displaced(s.entries(answers));
    if i < back.len() {
        assert(Entry::ids(back)[i] == s.stepped(answers).waiting[i].seq_id);
    }
    i + s.admissions() - back.len()
}

/// Where a request that runs after a step was before it.
proof fn lemma_ran_before(s: SchedState, total: nat, answers: Seq<Answer>, j: int) -> (k: int)
    requires
        s.wf(total),
        s.admits_cleanly(),
        answers.len() == s.admitted().running.len(),
        0 <= j < s.stepped(answers).running.len(),
    ensures
        0 <= k < s.running.len() + s.admissions(),
        s.admissions() <= s.waiting.len(),
        s.stepped(answers).running[j].seq_id == if k < s.running.len() {
            s.running[k].seq_id
        } else {
            s.waiting[k - s.running.len()].seq_id
        },
{
    let es = s.entries(answers);
    let on = Entry::staying(es);
    crate::sched_lemmas::lemma_admit_count(s, 0);
    crate::sched_laws::lemma_batch(s, total, answers);
    assert(s.stepped(answers).running[j] == on[j].request);
    assert(on.contains(on[j]));
    es.lemma_filter_contains_rev(|e: Entry| e.outcome is Continued, on[j]);
    let k = choose|k: int| 0 <= k < es.len() && es[k] == on[j];
    assert(Entry::ids(es)[k] == Request::ids(s.admitted().running)[k]);
    k
}

/// One token more fills a block or it does not.
proof fn lemma_next_block(g: int, block_size: int)
    requires
        g >= 0,
        block_size > 0,
    ensures
        (g + 1) / block_size == g / block_size + (if (g + 1) % block_size == 0 {
            1int
        } else {
            0int
        }),
{
    vstd::arithmetic::div_mod::lemma_fundamental_div_mod(g, block_size);
    vstd::arithmetic::div_mod::lemma_fundamental_div_mod(g + 1, block_size);
    let q = g / block_size;
    let p = (g + 1) / block_size;
    let r = g % block_size;
    let t = (g + 1) % block_size;
    assert(p == q + (if t == 0 { 1int } else { 0int })) by (nonlinear_arith)
        requires
            g == block_size * q + r,
            g + 1 == block_size * p + t,
            0 <= r < block_size,
            0 <= t < block_size,
    ;
}

/// The blocks of a sequence as it decodes: one that was handed in with nothing
/// generated and is never preempted holds, while it runs, as many blocks as its
/// prompt fills, rounded up, and one more for every whole block of tokens that it
/// has generated.
pub proof fn law_blocks_follow_generated_tokens(
    s: SchedState,
    total: nat,
    ops: Seq<Op>,
    id: SeqId,
)
    requires
        s == SchedState::fresh(s.max_batch_tokens, s.max_running_seqs, s.block_size, total),
        total <= u32::MAX,
        s.block_size > 0,
        s.sound_run(ops),
        s.never_preempts(ops, id),
        s.request_by(ops, id) is Some,
        s.request_by(ops, id)->0.generated == 0,
        s.request_by(ops, id)->0.prompt_tokens + s.block_size - 1 <= u32::MAX,
    ensures
        ({
            let r = s.request_by(ops, id)->0;
            let t = s.after(ops);
            &&& forall|j: int|
                0 <= j < t.running.len() && (#[trigger] t.running[j]).seq_id == id ==> {
                    &&& t.running[j].prompt_tokens == r.prompt_tokens
                    &&& t.alloc.tables.contains_key(id)
                    &&& t.alloc.tables[id].len() == (r.prompt_tokens + s.block_size - 1) / (
                    s.block_size as int) + t.running[j].generated / s.block_size
                }
            &&& forall|i: int|
                0 <= i < t.waiting.len() && (#[trigger] t.waiting[i]).seq_id == id ==> {
                    &&& t.waiting[i].prompt_tokens == r.prompt_tokens
                    &&& t.waiting[i].generated == 0
                }
        }),
    decreases ops.len(),
{
    broadcast use vstd::seq_lib::group_to_multiset_ensures;

    let rest = ops.drop_last();
    let t = s.after(rest);
    let u = s.after(ops);
    crate::sched_laws::law_runs_keep_account(s, total, rest);
    lemma_run_keeps_config(s, rest);
    match ops.last() {
        Op::Enqueue(r) => {
            if s.request_by(rest, id) is None {
                crate::loop_laws::law_stream_numbers_every_token(s, total, rest, id);
                assert(s.queued_by(rest).count(id) <= 1);
                assert(t.all_ids().count(id) == 0);
                assert forall|j: int| 0 <= j < t.running.len() implies (
                #[trigger] t.running[j]).seq_id != id by {
                    assert(Request::ids(t.running)[j] == t.running[j].seq_id);
                    assert(Request::ids(t.running).contains(t.running[j].seq_id));
                }
                assert forall|i: int| 0 <= i < t.waiting.len() implies (
                #[trigger] t.waiting[i]).seq_id != id by {
                    assert(Request::ids(t.waiting)[i] == t.waiting[i].seq_id);
                    assert(Request::ids(t.waiting).contains(t.waiting[i].seq_id));
                }
            } else {
                crate::loop_laws::lemma_request_is_queued(s, rest, id);
                assert(r.seq_id != id);
                law_blocks_follow_generated_tokens(s, total, rest, id);
            }
            assert forall|i: int|
                0 <= i < u.waiting.len() && (
                #[trigger] u.waiting[i]).seq_id == id implies u.waiting[i].prompt_tokens
                == s.request_by(ops, id)->0.prompt_tokens && u.waiting[i].generated == 0 by {
                if i < t.waiting.len() {
                    assert(u.waiting[i] == t.waiting[i]);
                }
            }
        },
        Op::Step(answers) => {
            law_blocks_follow_generated_tokens(s, total, rest, id);
            lemma_blocks_step(t, total, answers, s.request_by(ops, id)->0, id);
        },
    }
}

/// The law of the blocks over one step.
proof fn lemma_blocks_step(t: SchedState, total: nat, answers: Seq<Answer>, r: Request, id: SeqId)
    requires
        t.wf(total),
        t.unique_ids(),
        t.block_size > 0,
        answers.len() == t.admitted().running.len(),
        r.prompt_tokens + t.block_size - 1 <= u32::MAX,
        !Entry::ids(Entry::displaced(t.entries(answers))).contains(id),
        forall|j: int|
            0 <= j < t.running.len() && (#[trigger] t.running[j]).seq_id == id ==> {
                &&& t.running[j].prompt_tokens == r.prompt_tokens
                &&& t.alloc.tables.contains_key(id)
                &&& t.alloc.tables[id].len() == (r.prompt_tokens + t.block_size - 1) / (
                t.block_size as int) + t.running[j].generated / t.block_size
            },
        forall|i: int|
            0 <= i < t.waiting.len() && (#[trigger] t.waiting[i]).seq_id == id ==> {
                &&& t.waiting[i].prompt_tokens == r.prompt_tokens
                &&& t.waiting[i].generated == 0
            },
    ensures
        ({
            let u = t.stepped(answers);
            &&& forall|j: int|
                0 <= j < u.running.len() && (#[trigger] u.running[j]).seq_id == id ==> {
                    &&& u.running[j].prompt_tokens == r.prompt_tokens
                    &&& u.alloc.tables.contains_key(id)
                    &&& u.alloc.tables[id].len() == (r.prompt_tokens + t.block_size - 1) / (
                    t.block_size as int) + u.running[j].generated / t.block_size
                }
            &&& forall|i: int|
                0 <= i < u.waiting.len() && (#[trigger] u.waiting[i]).seq_id == id ==> {
                    &&& u.waiting[i].prompt_tokens == r.prompt_tokens
                    &&& u.waiting[i].generated == 0
                }
        }),
{
    let u = t.stepped(answers);
    crate::sched_laws::law_unique_ids_admit_cleanly(t);
    assert forall|j: int| 0 <= j < u.running.len() && (#[trigger] u.running[j]).seq_id == id implies {
        &&& u.running[j].prompt_tokens == r.prompt_tokens
        &&& u.alloc.tables.contains_key(id)
        &&& u.alloc.tables[id].len() == (r.prompt_tokens + t.block_size - 1) / (
        t.block_size as int) + u.running[j].generated / t.block_size
    } by {
        let k = lemma_ran_before(t, total, answers, j);
        if k < t.running.len() {
            crate::step_laws::law_page_table_grows_with_tokens(t, total, answers, k, j);
            crate::step_laws::lemma_table_after_step(t, total, answers, k, j);
            lemma_next_block(t.running[k].generated as int, t.block_size as int);
        } else {
            crate::step_laws::law_page_table_of_admitted(
                t,
                total,
                answers,
                k - t.running.len(),
                j,
            );
            lemma_next_block(0, t.block_size as int);
            vstd::arithmetic::div_mod::lemma_div_basics(t.block_size as int);
        }
    }
    assert forall|i: int| 0 <= i < u.waiting.len() && (
    #[trigger] u.waiting[i]).seq_id == id implies u.waiting[i].prompt_tokens == r.prompt_tokens
        && u.waiting[i].generated == 0 by {
        let w = lemma_waited_before(t, answers, i);
        assert(t.waiting[w] == u.waiting[i]);
    }
}

/// First come, first admitted: of two requests that are never preempted, the one
/// that was queued first is admitted no later. At any point of a run, as long as
/// the earlier one waits, the later one waits behind it. (`m` is a point of the
/// run at which the first was queued and the second was not.)
pub proof fn law_first_come_first_admitted(
    s: SchedState,
    total: nat,
    ops: Seq<Op>,
    m: int,
    first: SeqId,
    second: SeqId,
    i: int,
)
    requires
        s == SchedState::fresh(s.max_batch_tokens, s.max_running_seqs, s.block_size, total),
        total <= u32::MAX,
        s.sound_run(ops),
        0 <= m <= ops.len(),
        s.request_by(ops.take(m), first) is Some,
        s.request_by(ops.take(m), second) is None,
        s.request_by(ops, second) is Some,
        s.never_preempts(ops, first),
        s.never_preempts(ops, second),
        0 <= i < s.after(ops).waiting.len(),
        s.after(ops).waiting[i].seq_id == first,
    ensures
        exists|j: int|
            i < j < s.after(ops).waiting.len() && (#[trigger] s.after(ops).waiting[j]).seq_id
                == second,
    decreases ops.len(),
{
    if ops.len() == m {
        assert(ops.take(m) =~= ops);
    } else {
        let rest = ops.drop_last();
        let t = s.after(rest);
        let u = s.after(ops);
        assert(rest.take(m) =~= ops.take(m));
        lemma_request_stays(s, rest, m, first);
        crate::loop_laws::lemma_request_is_queued(s, rest, first);
        match ops.last() {
            Op::Enqueue(r) => {
                assert(r.seq_id != first);
                if r.prompt_tokens <= t.max_batch_tokens {
                    assert(i < t.waiting.len());
                    assert(u.waiting[i] == t.waiting[i]);
                    if s.request_by(rest, second) is None {
                        assert(u.waiting[t.waiting.len() as int].seq_id == second);
                    }
                }
                if s.request_by(rest, second) is Some {
                    law_first_come_first_admitted(s, total, rest, m, first, second, i);
                    let j = choose|j: int|
                        i < j < t.waiting.len() && (#[trigger] t.waiting[j]).seq_id == second;
                    assert(u.waiting[j] == t.waiting[j]);
                }
            },
            Op::Step(answers) => {
                let w = lemma_waited_before(t, answers, i);
                law_first_come_first_admitted(s, total, rest, m, first, second, w);
                let v = choose|v: int|
                    w < v < t.waiting.len() && (#[trigger] t.waiting[v]).seq_id == second;
                let j = i + v - w;
                crate::sched_lemmas::lemma_admit_count(t, 0);
                assert(u.waiting[j] == t.waiting[v]);
            },
        }
    }
}

/// What was queued stays on record.
proof fn lemma_request_stays(s: SchedState, ops: Seq<Op>, m: int, id: SeqId)
    requires
        0 <= m <= ops.len(),
        s.request_by(ops.take(m), id) is Some,
    ensures
        s.request_by(ops, id) is Some,
    decreases ops.len(),
{
    if ops.len() == m {
        assert(ops.take(m) =~= ops);
    } else {
        assert(ops.drop_last().take(m) =~= ops.take(m));
        lemma_request_stays(s, ops.drop_last(), m, id);
    }
}

} // verus!
