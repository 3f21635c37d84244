//! What queueing and a decode step do, told by requests, ids and numbers: who is
//! admitted and who waits, what becomes of each request of the batch, which
//! blocks its page table gets, and what the report says of all that.

use crate::kv_model::{AllocState, BlockId, SeqId};
use crate::request::Request;
use crate::sched_model::{Answer, Entry, SchedState};
use crate::scheduler::StepReport;
use vstd::prelude::*;

verus! {

/// The prompt and generated tokens of a list of requests.
pub open spec fn total_tokens(rs: Seq<Request>) -> int {
    rs.fold_left(0int, |sum: int, r: Request| sum + r.prompt_tokens + r.generated)
}

/// The blocks that the contexts of a list of requests fill, each rounded up.
pub open spec fn total_blocks(rs: Seq<Request>, block_size: u32) -> int {
    rs.fold_left(
        0int,
        |sum: int, r: Request|
            sum + (r.prompt_tokens + r.generated + block_size - 1) / (block_size as int),
    )
}

/// No padded context outgrows what counts blocks: then the padding before the
/// division does not saturate.
pub open spec fn contexts_in_range(rs: Seq<Request>, block_size: u32) -> bool {
    forall|i: int|
        0 <= i < rs.len() ==> (#[trigger] rs[i]).prompt_tokens + rs[i].generated + block_size - 1
            <= u32::MAX
}

proof fn lemma_total_tokens(rs: Seq<Request>)
    ensures
        total_tokens(rs) == Request::batch_tokens(rs),
    decreases rs.len(),
{
    if rs.len() > 0 {
        lemma_total_tokens(rs.drop_last());
    }
}

proof fn lemma_total_tokens_push(rs: Seq<Request>, r: Request)
    ensures
        total_tokens(rs.push(r)) == total_tokens(rs) + r.prompt_tokens + r.generated,
{
    assert(rs.push(r).drop_last() =~= rs);
}

proof fn lemma_total_blocks_push(rs: Seq<Request>, r: Request, block_size: u32)
    ensures
        total_blocks(rs.push(r), block_size) == total_blocks(rs, block_size) + (r.prompt_tokens
            + r.generated + block_size - 1) / (block_size as int),
{
    assert(rs.push(r).drop_last() =~= rs);
}

/// What a request reserves is its context rounded up to whole blocks; where the
/// padding saturates it is no more than that.
proof fn lemma_reserved_blocks(r: Request, block_size: u32)
    requires
        block_size > 0,
    ensures
        ({
            let ceiling = (r.prompt_tokens + r.generated + block_size - 1) / (block_size as int);
            let reserved = AllocState::blocks_for(r.reserved_tokens(), block_size);
            &&& reserved <= ceiling
            &&& r.prompt_tokens + r.generated + block_size - 1 <= u32::MAX ==> reserved == ceiling
        }),
{
    let padded = r.prompt_tokens + r.generated + block_size - 1;
    let capped = if padded > u32::MAX {
        u32::MAX as int
    } else {
        padded
    };
    vstd::arithmetic::div_mod::lemma_div_is_ordered(capped, padded, block_size as int);
}

/// Queueing appends: the queue after it is the queue before, in the same order,
/// followed by the new request, and nothing else changes.
pub proof fn law_enqueue_appends(s: SchedState, r: Request)
    ensures
        ({
            let t = s.enqueued(r);
            let n = s.waiting.len() as int;
            &&& t.waiting.len() == n + 1
            &&& forall|i: int| 0 <= i < n ==> #[trigger] t.waiting[i] == s.waiting[i]
            &&& t.waiting[n] == r
            &&& t.running == s.running
            &&& t.alloc == s.alloc
            &&& t.max_batch_tokens == s.max_batch_tokens
            &&& t.max_running_seqs == s.max_running_seqs
            &&& t.block_size == s.block_size
        }),
{
}

/// The blocks that are left once the first `j` of the queue are admitted.
proof fn lemma_blocks_left(s: SchedState, j: nat)
    requires
        s.block_size > 0,
        j <= s.admissions(),
    ensures
        s.alloc_after(j).free.len() >= s.alloc.free.len() - total_blocks(
            s.waiting.take(j as int),
            s.block_size,
        ),
        contexts_in_range(s.waiting.take(j as int), s.block_size) ==> s.alloc_after(j).free.len()
            == s.alloc.free.len() - total_blocks(s.waiting.take(j as int), s.block_size),
    decreases j,
{
    crate::sched_lemmas::lemma_admit_count(s, 0);
    if j > 0 {
        let i = (j - 1) as nat;
        let fewer = s.waiting.take(i as int);
        let more = s.waiting.take(j as int);
        let r = s.waiting[i as int];
        lemma_blocks_left(s, i);
        assert(s.fits(i));
        assert(more =~= fewer.push(r));
        lemma_total_blocks_push(fewer, r, s.block_size);
        lemma_reserved_blocks(r, s.block_size);
        if contexts_in_range(more, s.block_size) {
            assert forall|k: int| 0 <= k < fewer.len() implies (#[trigger] fewer[k]).prompt_tokens
                + fewer[k].generated + s.block_size - 1 <= u32::MAX by {
                assert(more[k] == fewer[k]);
            }
            assert(more[i as int] == r);
        }
    } else {
        assert(s.waiting.take(0) =~= Seq::<Request>::empty());
    }
}

/// Continuous batching: whatever runs, the head of the queue joins the batch in
/// the very next step if there is room for one more sequence, the tokens of the
/// batch and of its context are within the cap, and its blocks are free.
pub proof fn law_head_joins_running_batch(
    s: SchedState,
    answers: Seq<Answer>,
    report: StepReport,
)
    requires
        report.tells(s, answers),
        s.block_size > 0,
        s.waiting.len() > 0,
        s.running.len() < s.max_running_seqs,
        total_tokens(s.running) + s.waiting[0].prompt_tokens + s.waiting[0].generated
            <= s.max_batch_tokens,
        (s.waiting[0].prompt_tokens + s.waiting[0].generated + s.block_size - 1) / (
        s.block_size as int) <= s.alloc.free.len(),
    ensures
        report.admitted@.len() > 0,
        report.admitted@[0] == s.waiting[0].seq_id,
        s.admitted().running.len() > s.running.len(),
        s.admitted().running[s.running.len() as int] == s.waiting[0],
{
    crate::sched_lemmas::lemma_admit_count(s, 0);
    lemma_total_tokens(s.running);
    lemma_reserved_blocks(s.waiting[0], s.block_size);
    assert(s.running + s.waiting.take(0) =~= s.running);
    assert(s.fits(0));
    crate::sched_lemmas::lemma_admit_count(s, 1);
}

/// Admission goes on while there is room: with the first `j` of the queue in the
/// batch, the next one joins them if the sequence cap, the token cap and the free
/// blocks leave room for it beside them; and in an empty batch if its prompt is
/// within the token cap and its blocks are free.
pub proof fn law_admission_takes_all_that_fit(
    s: SchedState,
    answers: Seq<Answer>,
    report: StepReport,
    j: int,
)
    requires
        report.tells(s, answers),
        s.block_size > 0,
        0 <= j <= report.admitted@.len(),
        j < s.waiting.len(),
        s.running.len() + j < s.max_running_seqs,
        total_tokens(s.running + s.waiting.take(j + 1)) <= s.max_batch_tokens || (s.running.len()
            + j == 0 && s.waiting[j].prompt_tokens <= s.max_batch_tokens),
        total_blocks(s.waiting.take(j + 1), s.block_size) <= s.alloc.free.len(),
    ensures
        report.admitted@.len() > j,
        report.admitted@[j] == s.waiting[j].seq_id,
{
    crate::sched_lemmas::lemma_admit_count(s, 0);
    let ahead = s.waiting.take(j);
    let with_next = s.waiting.take(j + 1);
    let batch = s.running + ahead;
    assert(with_next =~= ahead.push(s.waiting[j]));
    assert(s.running + with_next =~= batch.push(s.waiting[j]));
    lemma_total_tokens(batch);
    lemma_total_tokens_push(batch, s.waiting[j]);
    lemma_total_blocks_push(ahead, s.waiting[j], s.block_size);
    lemma_reserved_blocks(s.waiting[j], s.block_size);
    lemma_blocks_left(s, j as nat);
    assert(s.fits(j as nat));
    assert(s.admissions() != j);
}

/// Admission takes nothing more: what is admitted is the front of the queue, in
/// order, and when each joined, the sequence cap held, the tokens of the batch
/// were within the token cap (or it was alone, with a prompt within it), and the
/// blocks of all of them were there.
pub proof fn law_admission_takes_only_what_fits(
    s: SchedState,
    answers: Seq<Answer>,
    report: StepReport,
    j: int,
)
    requires
        report.tells(s, answers),
        s.block_size > 0,
        0 <= j < report.admitted@.len(),
    ensures
        report.admitted@.len() <= s.waiting.len(),
        report.admitted@[j] == s.waiting[j].seq_id,
        s.running.len() + j < s.max_running_seqs,
        total_tokens(s.running + s.waiting.take(j + 1)) <= s.max_batch_tokens || (s.running.len()
            + j == 0 && s.waiting[j].prompt_tokens <= s.max_batch_tokens),
        contexts_in_range(s.waiting, s.block_size) ==> total_blocks(
            s.waiting.take(j + 1),
            s.block_size,
        ) <= s.alloc.free.len(),
{
    crate::sched_lemmas::lemma_admit_count(s, 0);
    let ahead = s.waiting.take(j);
    let with_next = s.waiting.take(j + 1);
    let batch = s.running + ahead;
    assert(s.fits(j as nat));
    assert(with_next =~= ahead.push(s.waiting[j]));
    assert(s.running + with_next =~= batch.push(s.waiting[j]));
    lemma_total_tokens(batch);
    lemma_total_tokens_push(batch, s.waiting[j]);
    lemma_blocks_left(s, (j + 1) as nat);
    if contexts_in_range(s.waiting, s.block_size) {
        assert forall|k: int| 0 <= k < with_next.len() implies (
        #[trigger] with_next[k]).prompt_tokens + with_next[k].generated + s.block_size - 1
            <= u32::MAX by {
            assert(with_next[k] == s.waiting[k]);
        }
    }
}

/// The requests of the batch before `k` that take a block in this step.
pub open spec fn growths_before(rs: Seq<Request>, block_size: u32, k: int) -> int {
    rs.take(k).filter(
        |r: Request|
            r.generated < r.max_new_tokens && (r.generated + 1) % (block_size as int) == 0,
    ).len() as int
}

proof fn lemma_growths_push(rs: Seq<Request>, block_size: u32, k: int)
    requires
        0 <= k < rs.len(),
    ensures
        growths_before(rs, block_size, k + 1) == growths_before(rs, block_size, k) + (if rs[k].generated
            < rs[k].max_new_tokens && (rs[k].generated + 1) % (block_size as int) == 0 {
            1int
        } else {
            0int
        }),
{
    assert(rs.take(k + 1) =~= rs.take(k).push(rs[k]));
    crate::sched_lemmas::lemma_filter_push(
        rs.take(k),
        rs[k],
        |r: Request|
            r.generated < r.max_new_tokens && (r.generated + 1) % (block_size as int) == 0,
    );
}

/// The free blocks run down by the growths, until there are none.
proof fn lemma_free_runs_down(s: SchedState, answers: Seq<Answer>)
    requires
        answers.len() <= s.running.len(),
        s.block_size > 0,
    ensures
        ({
            let left = s.alloc.free.len() - growths_before(
                s.running,
                s.block_size,
                answers.len() as int,
            );
            s.decoded(answers).alloc.free.len() == if left > 0 {
                left
            } else {
                0
            }
        }),
    decreases answers.len(),
{
    let n = answers.len() as int;
    if n == 0 {
        reveal(Seq::filter);
        assert(s.running.take(0) =~= Seq::<Request>::empty());
    } else {
        lemma_free_runs_down(s, answers.drop_last());
        lemma_growths_push(s.running, s.block_size, n - 1);
    }
}

/// What a decode step does to one request, told by numbers.
proof fn lemma_outcome_by_numbers(s: SchedState, answers: Seq<Answer>, k: int)
    requires
        answers.len() <= s.running.len(),
        0 <= k < answers.len(),
        s.block_size > 0,
    ensures
        s.decoded(answers).entries.len() == answers.len(),
        ({
            let r = s.running[k];
            let e = s.decoded(answers).entries[k];
            let blocked = (r.generated + 1) % (s.block_size as int) == 0 && growths_before(
                s.running,
                s.block_size,
                k,
            ) >= s.alloc.free.len();
            &&& r.generated >= r.max_new_tokens ==> e.outcome is AlreadyDone && e.request == r
            &&& r.generated < r.max_new_tokens ==> {
                &&& e.request.generated == r.generated + 1
                &&& e.outcome is Preempted <==> blocked
                &&& !blocked ==> e.outcome is Finished || e.outcome is Continued
                &&& !blocked ==> (e.outcome is Finished <==> answers[k].eos || r.generated + 1
                    >= r.max_new_tokens)
            }
        }),
    decreases answers.len(),
{
    let fewer = answers.drop_last();
    crate::sched_laws::law_one_token_each(s, answers, k);
    if k < fewer.len() {
        lemma_outcome_by_numbers(s, fewer, k);
        assert(s.decoded(answers).entries[k] == s.decoded(fewer).entries[k]);
        assert(fewer[k] == answers[k]);
    } else {
        lemma_free_runs_down(s, fewer);
        if fewer.len() > 0 {
            lemma_outcome_by_numbers(s, fewer, 0);
        }
    }
}

/// What a step reports of each request of its batch. One that has all its tokens
/// is finished and nothing else. Any other gets a token. If that token is the
/// last of a block, it needs a new block: when the requests ahead of it have taken
/// all the free ones, it is preempted. Otherwise it ran, with a count one higher,
/// and it is finished if the backend said so or it has all its tokens now.
pub proof fn law_step_tells_each_request(
    s: SchedState,
    total: nat,
    answers: Seq<Answer>,
    report: StepReport,
    k: int,
)
    requires
        s.wf(total),
        s.admits_cleanly(),
        s.block_size > 0,
        answers.len() == s.admitted().running.len(),
        report.tells(s, answers),
        0 <= k < answers.len(),
    ensures
        ({
            let batch = s.running + s.waiting.take(report.admitted@.len() as int);
            let r = batch[k];
            let g = r.generated + 1;
            let blocked = g % (s.block_size as int) == 0 && growths_before(batch, s.block_size, k)
                >= s.admitted().alloc.free.len();
            &&& batch.len() == answers.len()
            &&& r.generated >= r.max_new_tokens ==> {
                &&& report.finished@.contains(r.seq_id)
                &&& !report.ran@.contains(r.seq_id)
                &&& !report.preempted@.contains(r.seq_id)
            }
            &&& r.generated < r.max_new_tokens ==> {
                &&& report.preempted@.contains(r.seq_id) <==> blocked
                &&& report.ran@.contains(r.seq_id) <==> !blocked
                &&& report.finished@.contains(r.seq_id) <==> !blocked && (answers[k].eos || g
                    >= r.max_new_tokens)
                &&& !blocked ==> report.generated_counts@.contains_key(r.seq_id)
                    && report.generated_counts@[r.seq_id] == g
            }
        }),
{
    let t = s.admitted();
    let es = t.decoded(answers).entries;
    crate::sched_lemmas::lemma_admit_count(s, 0);
    crate::sched_laws::lemma_batch(s, total, answers);
    lemma_outcome_by_numbers(t, answers, k);
    assert(report.admitted@.len() == s.admissions());
    assert(Entry::ids(es)[k] == Request::ids(t.running)[k]);
    crate::sched_lemmas::lemma_id_tells_entry(es, |e: Entry| e.outcome.ends(), k);
    crate::sched_lemmas::lemma_id_tells_entry(es, |e: Entry| e.outcome.ran(), k);
    crate::sched_lemmas::lemma_id_tells_entry(es, |e: Entry| e.outcome is Preempted, k);
    if es[k].outcome.ran() {
        crate::sched_laws::law_counts_are_token_counts(es, k);
    }
}

/// The free blocks that a step's batch starts from: those before it without those
/// that the admitted contexts fill.
pub proof fn law_admission_takes_blocks(s: SchedState, answers: Seq<Answer>, report: StepReport)
    requires
        report.tells(s, answers),
        s.block_size > 0,
        contexts_in_range(s.waiting, s.block_size),
    ensures
        s.admitted().alloc.free.len() + total_blocks(
            s.waiting.take(report.admitted@.len() as int),
            s.block_size,
        ) == s.alloc.free.len(),
{
    crate::sched_lemmas::lemma_admit_count(s, 0);
    lemma_blocks_left(s, s.admissions());
    let first = s.waiting.take(s.admissions() as int);
    assert(report.admitted@.len() == s.admissions());
    assert forall|k: int| 0 <= k < first.len() implies (#[trigger] first[k]).prompt_tokens
        + first[k].generated + s.block_size - 1 <= u32::MAX by {
        assert(first[k] == s.waiting[k]);
    }
}

/// Filtering entries is filtering their ids by membership, when ids are distinct.
proof fn lemma_ids_by_membership(es: Seq<Entry>, pred: spec_fn(Entry) -> bool)
    requires
        Entry::ids(es).no_duplicates(),
    ensures
        Entry::ids(es.filter(pred)) == Entry::ids(es).filter(
            |id: SeqId| Entry::ids(es.filter(pred)).contains(id),
        ),
{
    let kept = Entry::ids(es.filter(pred));
    let keep = |id: SeqId| kept.contains(id);
    let keep_request = |r: Request| keep(r.seq_id);
    assert forall|i: int| 0 <= i < es.len() implies pred(#[trigger] es[i]) == keep_request(
        es[i].request,
    ) by {
        crate::sched_lemmas::lemma_id_tells_entry(es, pred, i);
    }
    crate::sched_lemmas::lemma_filter_requests(es, pred, keep_request);
    crate::loop_laws::lemma_ids_filter(Entry::requests(es), keep);
}

/// The lists of a report are in batch order and without repetition: each is the
/// ids of the batch, from which it leaves some out.
pub proof fn law_report_in_batch_order(
    s: SchedState,
    total: nat,
    answers: Seq<Answer>,
    report: StepReport,
)
    requires
        s.wf(total),
        s.admits_cleanly(),
        answers.len() == s.admitted().running.len(),
        report.tells(s, answers),
    ensures
        ({
            let batch = Request::ids(s.running + s.waiting.take(report.admitted@.len() as int));
            &&& batch.no_duplicates()
            &&& report.ran@ == batch.filter(|id: SeqId| report.ran@.contains(id))
            &&& report.finished@ == batch.filter(|id: SeqId| report.finished@.contains(id))
            &&& report.preempted@ == batch.filter(|id: SeqId| report.preempted@.contains(id))
        }),
        forall|id: SeqId| #[trigger]
            report.generated_counts@.contains_key(id) <==> report.ran@.contains(id),
{
    let es = s.admitted().decoded(answers).entries;
    crate::sched_lemmas::lemma_admit_count(s, 0);
    crate::sched_laws::lemma_batch(s, total, answers);
    assert(report.admitted@.len() == s.admissions());
    lemma_ids_by_membership(es, |e: Entry| e.outcome.ran());
    lemma_ids_by_membership(es, |e: Entry| e.outcome.ends());
    lemma_ids_by_membership(es, |e: Entry| e.outcome is Preempted);
    assert forall|id: SeqId| #[trigger]
        report.generated_counts@.contains_key(id) <==> report.ran@.contains(id) by {
        crate::sched_laws::law_counts_cover_ran(es, id);
    }
}

/// Where the requests are after a step: those of the batch that neither finished
/// nor were preempted run on, in batch order; those that were preempted wait, in
/// batch order, ahead of those of the queue that were not admitted, which wait as
/// they did. The caps and the block size stay.
pub proof fn law_step_places_requests(
    s: SchedState,
    total: nat,
    answers: Seq<Answer>,
    report: StepReport,
)
    requires
        s.wf(total),
        s.admits_cleanly(),
        answers.len() == s.admitted().running.len(),
        report.tells(s, answers),
    ensures
        ({
            let n = report.admitted@.len() as int;
            let batch = Request::ids(s.running + s.waiting.take(n));
            let u = s.stepped(answers);
            &&& Request::ids(u.running) == batch.filter(
                |id: SeqId| !report.finished@.contains(id) && !report.preempted@.contains(id),
            )
            &&& u.waiting.len() == report.preempted@.len() + s.waiting.len() - n
            &&& forall|i: int|
                0 <= i < report.preempted@.len() ==> (#[trigger] u.waiting[i]).seq_id
                    == report.preempted@[i]
            &&& forall|i: int|
                report.preempted@.len() <= i < u.waiting.len() ==> #[trigger] u.waiting[i]
                    == s.waiting[n + i - report.preempted@.len()]
            &&& u.max_batch_tokens == s.max_batch_tokens
            &&& u.max_running_seqs == s.max_running_seqs
            &&& u.block_size == s.block_size
        }),
{
    let t = s.admitted();
    let es = t.decoded(answers).entries;
    let u = s.stepped(answers);
    let stays = |e: Entry| e.outcome is Continued;
    let keep = |id: SeqId| !report.finished@.contains(id) && !report.preempted@.contains(id);
    let keep_request = |r: Request| keep(r.seq_id);
    crate::sched_lemmas::lemma_admit_count(s, 0);
    crate::sched_laws::lemma_batch(s, total, answers);
    assert(report.admitted@.len() == s.admissions());
    assert forall|i: int| 0 <= i < es.len() implies stays(#[trigger] es[i]) == keep_request(
        es[i].request,
    ) by {
        crate::sched_lemmas::lemma_id_tells_entry(es, |e: Entry| e.outcome.ends(), i);
        crate::sched_lemmas::lemma_id_tells_entry(es, |e: Entry| e.outcome is Preempted, i);
    }
    crate::sched_lemmas::lemma_filter_requests(es, stays, keep_request);
    crate::loop_laws::lemma_ids_filter(Entry::requests(es), keep);
    assert(Request::ids(u.running) == batch_ids(s).filter(keep));
    let back = Entry::displaced(es);
    assert(report.preempted@.len() == back.len());
    assert forall|i: int| 0 <= i < back.len() implies (#[trigger] u.waiting[i]).seq_id
        == report.preempted@[i] by {
        assert(u.waiting[i] == back[i].request);
    }
}

/// The ids of the batch of the next step.
pub open spec fn batch_ids(s: SchedState) -> Seq<SeqId> {
    Request::ids(s.running + s.waiting.take(s.admissions() as int))
}

/// What a step makes of a request that it does not finish: one token more, and
/// the same request otherwise. (The time of the first token is told by
/// `law_one_token_each`.)
pub proof fn law_step_adds_one_token(
    s: SchedState,
    total: nat,
    answers: Seq<Answer>,
    report: StepReport,
    k: int,
    after: Request,
)
    requires
        s.wf(total),
        s.unique_ids(),
        answers.len() == s.admitted().running.len(),
        report.tells(s, answers),
        0 <= k < answers.len(),
        (s.stepped(answers).running + s.stepped(answers).waiting).contains(after),
        after.seq_id == s.admitted().running[k].seq_id,
    ensures
        ({
            let before = (s.running + s.waiting.take(report.admitted@.len() as int))[k];
            &&& before.generated < before.max_new_tokens
            &&& after.generated == before.generated + 1
            &&& after.prompt_tokens == before.prompt_tokens
            &&& after.max_new_tokens == before.max_new_tokens
            &&& after.arrival == before.arrival
            &&& after.first_token_at is Some
            &&& before.first_token_at is Some ==> after.first_token_at == before.first_token_at
        }),
{
    let t = s.admitted();
    let es = t.decoded(answers).entries;
    let u = s.stepped(answers);
    let line = u.running + u.waiting;
    crate::sched_laws::law_unique_ids_admit_cleanly(s);
    crate::sched_lemmas::lemma_admit_count(s, 0);
    crate::sched_laws::lemma_batch(s, total, answers);
    let i = choose|i: int| 0 <= i < line.len() && line[i] == after;
    let on = Entry::staying(es);
    let back = Entry::displaced(es);
    let n = s.admissions() as int;
    if i < on.len() {
        assert(line[i] == on[i].request);
        lemma_entry_of(es, |e: Entry| e.outcome is Continued, i, k, t, answers);
    } else if i < on.len() + back.len() {
        assert(line[i] == back[i - on.len()].request);
        lemma_entry_of(es, |e: Entry| e.outcome is Preempted, i - on.len(), k, t, answers);
    } else {
        let w = n + i - on.len() - back.len();
        assert(line[i] == s.waiting[w]);
        let all = Request::ids(s.running + s.waiting);
        assert(all[s.running.len() + w] == after.seq_id);
        assert(all[k] == t.running[k].seq_id);
        assert(false);
    }
}

/// The entry that a filter kept at `i` is that of the request `k` of the batch, if
/// they have the same id.
proof fn lemma_entry_of(
    es: Seq<Entry>,
    pred: spec_fn(Entry) -> bool,
    i: int,
    k: int,
    t: SchedState,
    answers: Seq<Answer>,
)
    requires
        es == t.decoded(answers).entries,
        answers.len() == t.running.len(),
        es.len() == answers.len(),
        Entry::ids(es) == Request::ids(t.running),
        Entry::ids(es).no_duplicates(),
        0 <= k < es.len(),
        0 <= i < es.filter(pred).len(),
        es.filter(pred)[i].request.seq_id == t.running[k].seq_id,
        forall|e: Entry| #[trigger] pred(e) ==> !(e.outcome is AlreadyDone),
    ensures
        es.filter(pred)[i] == es[k],
        pred(es[k]),
        !t.running[k].done(),
        es[k].request.generated == t.running[k].generated + 1,
        es[k].request == (Request {
            generated: (t.running[k].generated + 1) as u32,
            first_token_at: es[k].request.first_token_at,
            ..t.running[k]
        }),
        es[k].request.first_token_at is Some,
        t.running[k].first_token_at is Some ==> es[k].request.first_token_at
            == t.running[k].first_token_at,
{
    broadcast use vstd::seq_lib::group_filter_ensures;

    let kept = es.filter(pred);
    assert(pred(kept[i]));
    assert(kept.contains(kept[i]));
    es.lemma_filter_contains_rev(pred, kept[i]);
    let j = choose|j: int| 0 <= j < es.len() && es[j] == kept[i];
    assert(Entry::ids(es)[j] == kept[i].request.seq_id);
    assert(Entry::ids(es)[k] == Request::ids(t.running)[k]);
    assert(Entry::ids(es)[k] == t.running[k].seq_id);
    assert(Entry::ids(es)[j] == Entry::ids(es)[k]);
    crate::sched_laws::law_one_token_each(t, answers, k);
    crate::loop_laws::lemma_outcome(t, answers, k);
}

/// Freeing sequences leaves the page tables of the others alone.
proof fn lemma_freed_all_keeps(a: AllocState, gone: Seq<SeqId>, id: SeqId)
    requires
        !gone.contains(id),
    ensures
        a.freed_all(gone).tables.contains_key(id) <==> a.tables.contains_key(id),
        a.freed_all(gone).tables[id] == a.tables[id],
    decreases gone.len(),
{
    if gone.len() > 0 {
        let rest = gone.drop_last();
        assert(gone[gone.len() - 1] == gone.last());
        assert(!rest.contains(id)) by {
            if rest.contains(id) {
                let i = choose|i: int| 0 <= i < rest.len() && rest[i] == id;
                assert(gone[i] == id);
            }
        }
        lemma_freed_all_keeps(a, rest, id);
    }
}

/// Admission leaves the page tables of the others alone.
proof fn lemma_admission_keeps(s: SchedState, j: nat, id: SeqId)
    requires
        j <= s.waiting.len(),
        !Request::ids(s.waiting.take(j as int)).contains(id),
    ensures
        s.alloc_after(j).tables.contains_key(id) <==> s.alloc.tables.contains_key(id),
        s.alloc_after(j).tables[id] == s.alloc.tables[id],
    decreases j,
{
    if j > 0 {
        let i = (j - 1) as nat;
        let fewer = Request::ids(s.waiting.take(i as int));
        let more = Request::ids(s.waiting.take(j as int));
        assert(more[i as int] == s.waiting[i as int].seq_id);
        assert(!fewer.contains(id)) by {
            if fewer.contains(id) {
                let k = choose|k: int| 0 <= k < fewer.len() && fewer[k] == id;
                assert(more[k] == id);
            }
        }
        lemma_admission_keeps(s, i, id);
    }
}

/// Decoding changes the page table of a sequence only by the block that its own
/// token needs.
proof fn lemma_decoded_table(s: SchedState, total: nat, answers: Seq<Answer>, id: SeqId, k: int)
    requires
        s.wf(total),
        s.block_size > 0,
        answers.len() <= s.running.len(),
        -1 <= k < s.running.len(),
        k >= 0 ==> s.running[k].seq_id == id,
        k < 0 ==> !Request::ids(s.running).contains(id),
    ensures
        s.decoded(answers).entries.len() == answers.len(),
        ({
            let old_table = s.alloc.tables[id];
            let table = s.decoded(answers).alloc.tables[id];
            if 0 <= k < answers.len() && s.decoded(answers).entries[k].outcome.ran() && (
            s.running[k].generated + 1) % (s.block_size as int) == 0 {
                &&& table.len() == old_table.len() + 1
                &&& table.drop_last() == old_table
            } else {
                table == old_table
            }
        }),
    decreases answers.len(),
{
    crate::sched_lemmas::lemma_decoded(s, total, answers);
    if answers.len() > 0 {
        let fewer = answers.drop_last();
        let m = fewer.len() as int;
        let d = s.decoded(fewer);
        lemma_decoded_table(s, total, fewer, id, k);
        crate::sched_lemmas::lemma_decoded(s, total, fewer);
        assert(Request::ids(s.running)[m] == s.running[m].seq_id);
        if k >= 0 && k != m {
            assert(Request::ids(s.running)[k] != Request::ids(s.running)[m]);
        }
        if 0 <= k < m {
            assert(s.decoded(answers).entries[k] == d.entries[k]);
        }
        let table = s.decoded(answers).alloc.tables[id];
        if k == m && table != d.alloc.tables[id] {
            assert(table.drop_last() =~= d.alloc.tables[id]);
        }
    }
}

/// The page table of a sequence that runs on, told by the table that it had when
/// the batch was formed.
pub proof fn lemma_table_after_step(
    s: SchedState,
    total: nat,
    answers: Seq<Answer>,
    k: int,
    j: int,
)
    requires
        s.wf(total),
        s.unique_ids(),
        s.block_size > 0,
        answers.len() == s.admitted().running.len(),
        0 <= k < answers.len(),
        0 <= j < s.stepped(answers).running.len(),
        s.stepped(answers).running[j].seq_id == s.admitted().running[k].seq_id,
    ensures
        ({
            let id = s.admitted().running[k].seq_id;
            let u = s.stepped(answers);
            let old_table = s.admitted().alloc.tables[id];
            &&& u.alloc.tables.contains_key(id)
            &&& u.running[j].generated == s.admitted().running[k].generated + 1
            &&& u.running[j].prompt_tokens == s.admitted().running[k].prompt_tokens
            &&& if u.running[j].generated % s.block_size == 0 {
                &&& u.alloc.tables[id].len() == old_table.len() + 1
                &&& u.alloc.tables[id].drop_last() == old_table
            } else {
                u.alloc.tables[id] == old_table
            }
        }),
{
    let t = s.admitted();
    let d = t.decoded(answers);
    let es = d.entries;
    let u = s.stepped(answers);
    let id = t.running[k].seq_id;
    let finished = Entry::ids(Entry::ending(es));
    let preempted = Entry::ids(Entry::displaced(es));
    crate::sched_laws::law_unique_ids_admit_cleanly(s);
    crate::sched_lemmas::lemma_admit_count(s, 0);
    crate::sched_laws::lemma_batch(s, total, answers);
    let on = Entry::staying(es);
    assert(u.running[j] == on[j].request);
    lemma_entry_of(es, |e: Entry| e.outcome is Continued, j, k, t, answers);
    lemma_decoded_table(t, total, answers, id, k);
    crate::sched_lemmas::lemma_id_tells_entry(es, |e: Entry| e.outcome.ends(), k);
    crate::sched_lemmas::lemma_id_tells_entry(es, |e: Entry| e.outcome is Preempted, k);
    lemma_freed_all_keeps(d.alloc, finished, id);
    lemma_freed_all_keeps(d.alloc.freed_all(finished), preempted, id);
    assert(d.alloc.tables.contains_key(es[k].request.seq_id));
}

/// A sequence that runs on through a step keeps its blocks in place, and its page
/// table grows by one block exactly when its new token count is a multiple of the
/// block size.
pub proof fn law_page_table_grows_with_tokens(
    s: SchedState,
    total: nat,
    answers: Seq<Answer>,
    i: int,
    j: int,
)
    requires
        s.wf(total),
        s.unique_ids(),
        s.block_size > 0,
        answers.len() == s.admitted().running.len(),
        0 <= i < s.running.len(),
        0 <= j < s.stepped(answers).running.len(),
        s.stepped(answers).running[j].seq_id == s.running[i].seq_id,
    ensures
        ({
            let id = s.running[i].seq_id;
            let u = s.stepped(answers);
            let old_table = s.alloc.tables[id];
            let table = u.alloc.tables[id];
            &&& u.running[j].generated == s.running[i].generated + 1
            &&& u.alloc.tables.contains_key(id)
            &&& table.len() == old_table.len() + (if u.running[j].generated % s.block_size == 0 {
                1int
            } else {
                0int
            })
            &&& forall|b: int| 0 <= b < old_table.len() ==> #[trigger] table[b] == old_table[b]
        }),
{
    let id = s.running[i].seq_id;
    let n = s.admissions();
    crate::sched_lemmas::lemma_admit_count(s, 0);
    assert(s.admitted().running[i] == s.running[i]);
    lemma_table_after_step(s, total, answers, i, j);
    assert(!Request::ids(s.waiting.take(n as int)).contains(id)) by {
        if Request::ids(s.waiting.take(n as int)).contains(id) {
            let w = choose|w: int| 0 <= w < n && Request::ids(s.waiting.take(n as int))[w] == id;
            let all = Request::ids(s.running + s.waiting);
            assert(all[s.running.len() + w] == id);
            assert(all[i] == id);
        }
    }
    lemma_admission_keeps(s, n, id);
    let old_table = s.alloc.tables[id];
    let table = s.stepped(answers).alloc.tables[id];
    assert forall|b: int| 0 <= b < old_table.len() implies #[trigger] table[b] == old_table[b] by {
        assert(table.drop_last().len() == old_table.len() ==> table.drop_last()[b] == table[b]);
    }
}

/// A sequence that a step admits and that runs on gets blocks for its context,
/// rounded up, and one more if its new token count is a multiple of the block
/// size.
pub proof fn law_page_table_of_admitted(
    s: SchedState,
    total: nat,
    answers: Seq<Answer>,
    i: int,
    j: int,
)
    requires
        s.wf(total),
        s.unique_ids(),
        s.block_size > 0,
        answers.len() == s.admitted().running.len(),
        0 <= i < s.waiting.len(),
        0 <= j < s.stepped(answers).running.len(),
        s.stepped(answers).running[j].seq_id == s.waiting[i].seq_id,
        s.waiting[i].prompt_tokens + s.waiting[i].generated + s.block_size - 1 <= u32::MAX,
    ensures
        ({
            let r = s.waiting[i];
            let u = s.stepped(answers);
            let context = r.prompt_tokens + r.generated;
            &&& u.running[j].generated == r.generated + 1
            &&& u.running[j].prompt_tokens == r.prompt_tokens
            &&& u.alloc.tables.contains_key(r.seq_id)
            &&& u.alloc.tables[r.seq_id].len() == (context + s.block_size - 1) / (
            s.block_size as int) + (if u.running[j].generated % s.block_size == 0 {
                1int
            } else {
                0int
            })
        }),
{
    let r = s.waiting[i];
    let n = s.admissions();
    let t = s.admitted();
    let u = s.stepped(answers);
    let es = t.decoded(answers).entries;
    crate::sched_laws::law_unique_ids_admit_cleanly(s);
    crate::sched_lemmas::lemma_admit_count(s, 0);
    crate::sched_laws::lemma_batch(s, total, answers);
    // what runs after the step was in its batch
    let on = Entry::staying(es);
    assert(u.running[j] == on[j].request);
    assert(on.contains(on[j]));
    es.lemma_filter_contains_rev(|e: Entry| e.outcome is Continued, on[j]);
    let k = choose|k: int| 0 <= k < es.len() && es[k] == on[j];
    let all = Request::ids(s.running + s.waiting);
    assert(Entry::ids(es)[k] == Request::ids(t.running)[k]);
    assert(all[k] == t.running[k].seq_id);
    assert(all[s.running.len() + i] == r.seq_id);
    assert(k == s.running.len() + i);
    lemma_table_after_step(s, total, answers, k, j);
    crate::sched_laws::law_admission_reserves_full_context(s, total, i as nat, n);
    lemma_reserved_blocks(r, s.block_size);
}

/// A step touches the page tables of its batch only: those of finished and
/// preempted sequences go, and a sequence that is not in the batch keeps its
/// table as it is.
pub proof fn law_step_frees_what_leaves(
    s: SchedState,
    total: nat,
    answers: Seq<Answer>,
    report: StepReport,
    id: SeqId,
)
    requires
        s.wf(total),
        s.admits_cleanly(),
        s.block_size > 0,
        answers.len() == s.admitted().running.len(),
        report.tells(s, answers),
    ensures
        ({
            let batch = Request::ids(s.running + s.waiting.take(report.admitted@.len() as int));
            let u = s.stepped(answers);
            &&& report.finished@.contains(id) || report.preempted@.contains(id)
                ==> !u.alloc.tables.contains_key(id)
            &&& !batch.contains(id) ==> {
                &&& u.alloc.tables.contains_key(id) <==> s.alloc.tables.contains_key(id)
                &&& u.alloc.tables[id] == s.alloc.tables[id]
            }
        }),
{
    let t = s.admitted();
    let d = t.decoded(answers);
    let n = s.admissions();
    let first = Request::ids(s.waiting.take(n as int));
    crate::sched_lemmas::lemma_admit_count(s, 0);
    crate::sched_laws::lemma_batch(s, total, answers);
    crate::sched_lemmas::lemma_retired_wf(t, total, d);
    assert(report.admitted@.len() == n);
    let batch = Request::ids(t.running);
    if !batch.contains(id) {
        assert(!first.contains(id)) by {
            if first.contains(id) {
                let w = choose|w: int| 0 <= w < n && first[w] == id;
                assert(batch[s.running.len() + w] == id);
            }
        }
        lemma_admission_keeps(s, n, id);
        lemma_decoded_table(t, total, answers, id, -1);
        crate::sched_lemmas::lemma_filter_ids_distinct(d.entries, |e: Entry| e.outcome.ends());
        crate::sched_lemmas::lemma_filter_ids_distinct(d.entries, |e: Entry| e.outcome is Preempted);
        let finished = Entry::ids(Entry::ending(d.entries));
        let preempted = Entry::ids(Entry::displaced(d.entries));
        assert(!finished.contains(id) && !preempted.contains(id));
        lemma_freed_all_keeps(d.alloc, finished, id);
        lemma_freed_all_keeps(d.alloc.freed_all(finished), preempted, id);
        assert(d.alloc.tables.contains_key(id) <==> t.alloc.tables.dom().contains(id));
    }
}

/// A step has to know the block size exactly when something runs, or when the head
/// of the queue may enter an empty batch.
pub proof fn law_block_size_needed_to_run(s: SchedState)
    ensures
        s.needs_block_size() <==> s.running.len() > 0 || (s.waiting.len() > 0
            && s.max_running_seqs > 0 && s.waiting[0].prompt_tokens <= s.max_batch_tokens),
{
    if s.running.len() == 0 {
        let batch = s.running + s.waiting.take(0);
        assert(batch =~= Seq::<Request>::empty());
    }
}

/// A scheduler is idle when nothing waits and nothing runs, and only then.
pub proof fn law_idle_means_empty(s: SchedState)
    ensures
        s.idle() <==> s.waiting.len() == 0 && s.running.len() == 0,
{
}

/// The page tables of some sequences, one after the other.
pub open spec fn tables_of(a: AllocState, ids: Seq<SeqId>) -> Seq<BlockId> {
    ids.fold_left(Seq::<BlockId>::empty(), |blocks: Seq<BlockId>, id: SeqId| blocks + a.tables[id])
}

proof fn lemma_freed_in_order(a: AllocState, total: nat, ids: Seq<SeqId>)
    requires
        a.wf(total),
        a.unshared(),
        ids.no_duplicates(),
        forall|i: int| 0 <= i < ids.len() ==> a.tables.contains_key(#[trigger] ids[i]),
    ensures
        a.freed_all(ids).free == a.free + tables_of(a, ids),
    decreases ids.len(),
{
    if ids.len() == 0 {
        assert(a.free + tables_of(a, ids) =~= a.free);
    } else {
        let rest = ids.drop_last();
        let id = ids.last();
        let b = a.freed_all(rest);
        assert forall|i: int| 0 <= i < rest.len() implies a.tables.contains_key(
            #[trigger] rest[i],
        ) by {
            assert(rest[i] == ids[i]);
        }
        lemma_freed_in_order(a, total, rest);
        crate::sched_lemmas::lemma_freed_all(a, total, rest);
        crate::sched_laws::lemma_freed_all_unshared(a, total, rest);
        assert(!rest.contains(id)) by {
            if rest.contains(id) {
                let i = choose|i: int| 0 <= i < rest.len() && rest[i] == id;
                assert(ids[i] == ids[ids.len() - 1]);
            }
        }
        lemma_freed_all_keeps(a, rest, id);
        assert(a.tables.contains_key(ids[ids.len() - 1]));
        assert forall|other: SeqId, x: BlockId|
            other != id && b.tables.contains_key(other) && #[trigger] b.tables[id].contains(
                x,
            ) implies !(#[trigger] b.tables[other]).contains(x) by {
            if b.tables[other].contains(x) {
                crate::kv_model::lemma_refs_zero(b, x);
                let both = Set::<SeqId>::empty().insert(id).insert(other);
                assert(both.subset_of(b.holders(x)));
                vstd::set_lib::lemma_len_subset(both, b.holders(x));
                assert(b.refs(x) <= 1);
            }
        }
        crate::kv_laws::law_free_returns_unshared_blocks(b, total, id);
        assert(a.freed_all(ids).free =~= a.free + tables_of(a, ids));
    }
}

/// The order in which a step returns blocks: the tables of the finished sequences
/// go back to the free stack first, then those of the preempted ones, each list in
/// order, so that the block freed last is the first to be handed out again.
pub proof fn law_step_returns_blocks_in_order(
    s: SchedState,
    total: nat,
    answers: Seq<Answer>,
    report: StepReport,
)
    requires
        s.wf(total),
        s.admits_cleanly(),
        s.alloc.unshared(),
        answers.len() == s.admitted().running.len(),
        report.tells(s, answers),
    ensures
        ({
            let pool = s.admitted().decoded(answers).alloc;
            s.stepped(answers).alloc.free == pool.free + tables_of(pool, report.finished@)
                + tables_of(pool, report.preempted@)
        }),
{
    let t = s.admitted();
    let d = t.decoded(answers);
    let es = d.entries;
    let finished = report.finished@;
    let preempted = report.preempted@;
    let ends = |e: Entry| e.outcome.ends();
    let is_displaced = |e: Entry| e.outcome is Preempted;
    crate::sched_lemmas::lemma_admit_count(s, 0);
    crate::sched_laws::lemma_batch(s, total, answers);
    crate::sched_laws::lemma_admission_unshared(s, total, s.admissions());
    crate::sched_laws::lemma_decode_unshared(t, total, answers);
    crate::sched_lemmas::lemma_filter_ids_distinct(es, ends);
    crate::sched_lemmas::lemma_filter_ids_distinct(es, is_displaced);
    assert forall|id: SeqId| Entry::ids(es).contains(id) implies #[trigger] d.alloc.tables.contains_key(
        id,
    ) by {
        let k = choose|k: int| 0 <= k < Entry::ids(es).len() && Entry::ids(es)[k] == id;
        assert(d.alloc.tables.contains_key(es[k].request.seq_id));
    }
    assert forall|i: int| 0 <= i < finished.len() implies d.alloc.tables.contains_key(
        #[trigger] finished[i],
    ) by {
        assert(finished.contains(finished[i]));
    }
    lemma_freed_in_order(d.alloc, total, finished);
    let a = d.alloc.freed_all(finished);
    crate::sched_lemmas::lemma_freed_all(d.alloc, total, finished);
    crate::sched_laws::lemma_freed_all_unshared(d.alloc, total, finished);
    assert forall|i: int| 0 <= i < preempted.len() implies !finished.contains(
        #[trigger] preempted[i],
    ) && a.tables.contains_key(preempted[i]) by {
        assert(preempted.contains(preempted[i]));
        crate::sched_laws::law_preempted_neither_ran_nor_finished(s, total, answers, preempted[i]);
    }
    lemma_freed_in_order(a, total, preempted);
    lemma_tables_agree(a, d.alloc, finished, preempted);
}

/// Sequences that were not freed have the tables that they had.
proof fn lemma_tables_agree(a: AllocState, b: AllocState, gone: Seq<SeqId>, ids: Seq<SeqId>)
    requires
        a == b.freed_all(gone),
        forall|i: int| 0 <= i < ids.len() ==> !gone.contains(#[trigger] ids[i]),
    ensures
        tables_of(a, ids) == tables_of(b, ids),
    decreases ids.len(),
{
    if ids.len() > 0 {
        let rest = ids.drop_last();
        assert forall|i: int| 0 <= i < rest.len() implies !gone.contains(#[trigger] rest[i]) by {
            assert(rest[i] == ids[i]);
        }
        lemma_tables_agree(a, b, gone, rest);
        assert(!gone.contains(ids[ids.len() - 1]));
        lemma_freed_all_keeps(b, gone, ids.last());
    }
}

} // verus!
