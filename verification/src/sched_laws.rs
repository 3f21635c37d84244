//! Laws of the scheduler, stated over the model that the contracts of
//! `Scheduler` speak of. `answers` stands for whatever the backend said during
//! a step, one answer for each request of the batch.

use crate::kv_model::{AllocState, SeqId};
use crate::request::Request;
use crate::sched_model::{Answer, Entry, SchedState};
use vstd::multiset::Multiset;
use vstd::prelude::*;

verus! {

impl Request {
    /// The tokens that the request may still get.
    pub open spec fn remaining(self) -> nat {
        if self.done() {
            0
        } else {
            (self.max_new_tokens - self.generated) as nat
        }
    }

    /// The request wanted a token, and `next` is the request with it.
    pub open spec fn one_token_before(self, next: Request) -> bool {
        &&& !self.done()
        &&& next == (Request {
            generated: (self.generated + 1) as u32,
            first_token_at: next.first_token_at,
            ..self
        })
    }

    /// The request with the most tokens that it can get to.
    pub open spec fn at_peak(self) -> Request {
        Request {
            generated: if self.done() {
                self.generated
            } else {
                self.max_new_tokens
            },
            ..self
        }
    }

    /// The work in a list of requests: every token that may still come, and one
    /// for letting the request go.
    pub open spec fn work(rs: Seq<Request>) -> nat
        decreases rs.len(),
    {
        if rs.len() == 0 {
            0
        } else {
            Request::work(rs.drop_last()) + rs.last().remaining() + 1
        }
    }
}

impl SchedState {
    /// The work left in the batch and in the queue.
    pub open spec fn work_left(self) -> nat {
        Request::work(self.running) + Request::work(self.waiting)
    }

    /// The ids of the batch and of the queue, each as often as it occurs.
    pub open spec fn all_ids(self) -> Multiset<SeqId> {
        Request::ids(self.running).to_multiset().add(Request::ids(self.waiting).to_multiset())
    }

    /// Every id that the scheduler or its pool knows is below `next`.
    pub open spec fn ids_below(self, next: SeqId) -> bool {
        &&& forall|id: SeqId|
            Request::ids(self.running + self.waiting).contains(id) ==> id < next
        &&& forall|id: SeqId| #[trigger] self.alloc.tables.contains_key(id) ==> id < next
    }

    /// Every request in the batch and in the queue satisfies `p`.
    pub open spec fn all_held(self, p: spec_fn(Request) -> bool) -> bool {
        &&& forall|i: int| 0 <= i < self.waiting.len() ==> p(#[trigger] self.waiting[i])
        &&& forall|i: int| 0 <= i < self.running.len() ==> p(#[trigger] self.running[i])
    }

    /// Every request that the scheduler holds passed the prompt cap.
    pub open spec fn prompts_fit(self) -> bool {
        let cap = self.max_batch_tokens;
        self.all_held(|r: Request| r.prompt_tokens <= cap)
    }

    /// Every request that the scheduler holds could run to its last token alone:
    /// its prompt passed the cap, and a pool of `total` blocks can hold its longest
    /// context.
    pub open spec fn serviceable(self, total: nat) -> bool {
        let cap = self.max_batch_tokens;
        let block_size = self.block_size;
        self.all_held(
            |r: Request|
                r.prompt_tokens <= cap && AllocState::blocks_for(
                    r.at_peak().reserved_tokens(),
                    block_size,
                ) <= total,
        )
    }
}

/// First come, first served: the admitted requests are the first of the queue,
/// each of them fitted when its turn came, and the one left at the head did not.
pub proof fn law_admission_in_order(s: SchedState)
    ensures
        s.admissions() <= s.waiting.len(),
        s.admitted().running == s.running + s.waiting.take(s.admissions() as int),
        s.admitted().waiting == s.waiting.skip(s.admissions() as int),
        forall|j: nat| j < s.admissions() ==> #[trigger] s.fits(j),
        s.admissions() < s.waiting.len() ==> !s.fits(s.admissions()),
{
    crate::sched_lemmas::lemma_admit_count(s, 0);
}

/// Admission never takes the batch over `max_running_seqs`.
pub proof fn law_admission_respects_seq_cap(s: SchedState)
    ensures
        s.admissions() > 0 ==> s.admitted().running.len() <= s.max_running_seqs,
{
    crate::sched_lemmas::lemma_admit_count(s, 0);
    if s.admissions() > 0 {
        assert(s.fits((s.admissions() - 1) as nat));
    }
}

/// Admission holds the whole batch, prompt and generated tokens, under
/// `max_batch_tokens`, but for one request that outgrew the cap before it was
/// preempted: it runs alone.
pub proof fn law_admission_respects_token_cap(s: SchedState)
    ensures
        s.admissions() > 0 ==> {
            let batch = s.admitted().running;
            ||| Request::batch_tokens(batch) <= s.max_batch_tokens
            ||| batch.len() == 1 && batch[0].prompt_tokens <= s.max_batch_tokens
                && batch[0].generated > 0
        },
{
    crate::sched_lemmas::lemma_admit_count(s, 0);
    if s.admissions() > 0 {
        let k = (s.admissions() - 1) as nat;
        assert(s.fits(k));
        let batch = s.admitted().running;
        assert(batch.drop_last() =~= s.running + s.waiting.take(k as int));
        assert(batch.last() == s.waiting[k as int]);
        if k == 0 && s.running.len() == 0 {
            assert(batch.drop_last() =~= Seq::<Request>::empty());
        }
    }
}

/// Decoding adds at most one token for each request of the batch, so a batch goes
/// over the cap by what it decoded since the last admission and no more.
pub proof fn law_batch_grows_by_decoding(s: SchedState, answers: Seq<Answer>)
    requires
        answers.len() == s.admitted().running.len(),
    ensures
        Request::batch_tokens(s.stepped(answers).running) <= Request::batch_tokens(
            s.admitted().running,
        ) + s.admitted().running.len(),
{
    let t = s.admitted();
    lemma_decode_adds_tokens(t, answers);
    assert(t.running.take(answers.len() as int) =~= t.running);
}

proof fn lemma_decode_adds_tokens(s: SchedState, answers: Seq<Answer>)
    requires
        answers.len() <= s.running.len(),
    ensures
        Request::batch_tokens(Entry::requests(Entry::staying(s.decoded(answers).entries)))
            <= Request::batch_tokens(s.running.take(answers.len() as int)) + answers.len(),
    decreases answers.len(),
{
    let es = s.decoded(answers).entries;
    if answers.len() == 0 {
        reveal(Seq::filter);
        assert(Entry::requests(Entry::staying(es)) =~= Seq::<Request>::empty());
    } else {
        let fewer = answers.drop_last();
        let n = fewer.len() as int;
        lemma_decode_adds_tokens(s, fewer);
        let rest = s.decoded(fewer).entries;
        let last = es.last();
        assert(es =~= rest.push(last));
        crate::sched_lemmas::lemma_filter_push(rest, last, |e: Entry| e.outcome is Continued);
        let on = Entry::staying(rest);
        assert(Entry::requests(on.push(last)) =~= Entry::requests(on).push(last.request));
        assert(Entry::requests(on).push(last.request).drop_last() =~= Entry::requests(on));
        assert(s.running.take(n + 1).drop_last() =~= s.running.take(n));
        assert(s.running.take(n + 1).last() == s.running[n]);
    }
}

/// An admitted request holds KV blocks for its full context, what it generated
/// before a preemption included.
pub proof fn law_admission_reserves_full_context(s: SchedState, total: nat, j: nat, k: nat)
    requires
        s.wf(total),
        s.admits_cleanly(),
        j < k <= s.admissions(),
    ensures
        s.alloc_after(k).tables.contains_key(s.waiting[j as int].seq_id),
        s.alloc_after(k).tables[s.waiting[j as int].seq_id].len() == AllocState::blocks_for(
            s.waiting[j as int].reserved_tokens(),
            s.block_size,
        ),
    decreases k,
{
    crate::sched_lemmas::lemma_admit_count(s, 0);
    let i = (k - 1) as nat;
    crate::sched_lemmas::lemma_admitted_prefix_wf(s, total, i);
    if j < i {
        law_admission_reserves_full_context(s, total, j, i);
        assert(s.fits(i));
        assert(s.caps_allow(i));
    }
}

/// With unique ids, no request is considered for admission while its id has a
/// page table.
pub proof fn law_unique_ids_admit_cleanly(s: SchedState)
    requires
        s.unique_ids(),
    ensures
        s.admits_cleanly(),
{
    crate::sched_lemmas::lemma_admit_count(s, 0);
    assert forall|j: nat|
        j <= s.admissions() && j < s.waiting.len() && #[trigger] s.caps_allow(j) implies
        !s.alloc_after(j).tables.contains_key(s.waiting[j as int].seq_id) by {
        lemma_tables_of_prefix(s, j);
        let id = s.waiting[j as int].seq_id;
        if Request::ids(s.waiting.take(j as int)).contains(id) {
            let i = choose|i: int|
                0 <= i < j && Request::ids(s.waiting.take(j as int))[i] == id;
            let all = Request::ids(s.running + s.waiting);
            assert(all[s.running.len() + i] == id);
            assert(all[s.running.len() + j as int] == id);
        }
    }
}

proof fn lemma_tables_of_prefix(s: SchedState, j: nat)
    requires
        j <= s.waiting.len(),
    ensures
        forall|id: SeqId| #[trigger]
            s.alloc_after(j).tables.contains_key(id) ==> s.alloc.tables.contains_key(id)
                || Request::ids(s.waiting.take(j as int)).contains(id),
    decreases j,
{
    if j > 0 {
        let i = (j - 1) as nat;
        lemma_tables_of_prefix(s, i);
        let fewer = Request::ids(s.waiting.take(i as int));
        let more = Request::ids(s.waiting.take(j as int));
        let last = s.waiting[i as int].seq_id;
        assert(more =~= fewer.push(last));
        assert(more[i as int] == last);
        assert forall|id: SeqId| #[trigger]
            s.alloc_after(j).tables.contains_key(id) implies s.alloc.tables.contains_key(id)
            || more.contains(id) by {
            if fewer.contains(id) {
                let k = choose|k: int| 0 <= k < fewer.len() && fewer[k] == id;
                assert(more[k] == id);
            }
            assert(id == last || s.alloc_after(i).tables.contains_key(id));
        }
    }
}

/// A step advances every running request that still wants a token by exactly
/// one token and no other, and changes nothing else of a request but the time of
/// its first token, which once set stays.
pub proof fn law_one_token_each(s: SchedState, answers: Seq<Answer>, i: int)
    requires
        answers.len() <= s.running.len(),
        0 <= i < answers.len(),
    ensures
        s.decoded(answers).entries.len() == answers.len(),
        ({
            let before = s.running[i];
            let after = s.decoded(answers).entries[i].request;
            &&& before.done() ==> after == before
            &&& !before.done() ==> after == (Request {
                generated: (before.generated + 1) as u32,
                first_token_at: after.first_token_at,
                ..before
            })
            &&& after.generated == before.generated + (if before.done() {
                0int
            } else {
                1int
            })
            &&& !before.done() ==> after.first_token_at is Some
            &&& before.first_token_at is Some ==> after.first_token_at == before.first_token_at
        }),
    decreases answers.len(),
{
    let fewer = answers.drop_last();
    if i < fewer.len() {
        law_one_token_each(s, fewer, i);
        assert(s.decoded(answers).entries[i] == s.decoded(fewer).entries[i]);
    } else {
        lemma_entries_len(s, fewer);
    }
    lemma_entries_len(s, answers);
}

proof fn lemma_entries_len(s: SchedState, answers: Seq<Answer>)
    ensures
        s.decoded(answers).entries.len() == answers.len(),
    decreases answers.len(),
{
    if answers.len() > 0 {
        lemma_entries_len(s, answers.drop_last());
    }
}

/// A sequence that a step preempts is neither among those that ran nor among
/// those that finished.
pub proof fn law_preempted_neither_ran_nor_finished(
    s: SchedState,
    total: nat,
    answers: Seq<Answer>,
    id: SeqId,
)
    requires
        s.wf(total),
        s.admits_cleanly(),
        answers.len() == s.admitted().running.len(),
        Entry::ids(Entry::displaced(s.admitted().decoded(answers).entries)).contains(id),
    ensures
        !Entry::ids(Entry::served(s.admitted().decoded(answers).entries)).contains(id),
        !Entry::ids(Entry::ending(s.admitted().decoded(answers).entries)).contains(id),
{
    let t = s.admitted();
    let es = t.decoded(answers).entries;
    lemma_batch(s, total, answers);
    let is_displaced = |e: Entry| e.outcome is Preempted;
    crate::sched_lemmas::lemma_filter_ids_distinct(es, is_displaced);
    let i = choose|i: int| 0 <= i < Entry::ids(es).len() && Entry::ids(es)[i] == id;
    assert(es[i].request.seq_id == id);
    crate::sched_lemmas::lemma_id_tells_entry(es, is_displaced, i);
    crate::sched_lemmas::lemma_id_tells_entry(es, |e: Entry| e.outcome.ran(), i);
    crate::sched_lemmas::lemma_id_tells_entry(es, |e: Entry| e.outcome.ends(), i);
}

/// The token counts are reported for the sequences that ran, and for no others.
pub proof fn law_counts_cover_ran(es: Seq<Entry>, id: SeqId)
    ensures
        Entry::counts(es).contains_key(id) <==> Entry::ids(Entry::served(es)).contains(id),
    decreases es.len(),
{
    if es.len() == 0 {
        reveal(Seq::filter);
    } else {
        let rest = es.drop_last();
        let last = es.last();
        law_counts_cover_ran(rest, id);
        assert(es =~= rest.push(last));
        crate::sched_lemmas::lemma_push_entry(rest, last);
        let fewer = Entry::ids(Entry::served(rest));
        let more = fewer.push(last.request.seq_id);
        assert(more[fewer.len() as int] == last.request.seq_id);
        if fewer.contains(id) {
            let k = choose|k: int| 0 <= k < fewer.len() && fewer[k] == id;
            assert(more[k] == id);
        }
    }
}

/// The count reported for a sequence that ran is its token count after the step.
pub proof fn law_counts_are_token_counts(es: Seq<Entry>, i: int)
    requires
        Entry::ids(es).no_duplicates(),
        0 <= i < es.len(),
        es[i].outcome.ran(),
    ensures
        Entry::counts(es).contains_key(es[i].request.seq_id),
        Entry::counts(es)[es[i].request.seq_id] == es[i].request.generated,
    decreases es.len(),
{
    if i < es.len() - 1 {
        let rest = es.drop_last();
        assert(Entry::ids(rest) =~= Entry::ids(es).drop_last());
        law_counts_are_token_counts(rest, i);
        assert(Entry::ids(es)[i] != Entry::ids(es)[es.len() - 1]);
    }
}

/// The batch of a step after admission is well formed, and its entries carry
/// its ids.
pub proof fn lemma_batch(s: SchedState, total: nat, answers: Seq<Answer>)
    requires
        s.wf(total),
        s.admits_cleanly(),
        answers.len() == s.admitted().running.len(),
    ensures
        s.admitted().wf(total),
        s.admitted().decoded(answers).alloc.wf(total),
        s.admitted().decoded(answers).alloc.tables.dom() == s.admitted().alloc.tables.dom(),
        s.admitted().decoded(answers).entries.len() == answers.len(),
        Entry::ids(s.admitted().decoded(answers).entries) == Request::ids(s.admitted().running),
        Entry::ids(s.admitted().decoded(answers).entries).no_duplicates(),
        forall|i: int|
            0 <= i < answers.len() ==> s.admitted().decoded(answers).alloc.tables.contains_key(
                (#[trigger] s.admitted().decoded(answers).entries[i]).request.seq_id,
            ),
{
    let t = s.admitted();
    crate::sched_lemmas::lemma_admit_count(s, 0);
    crate::sched_lemmas::lemma_admitted_prefix_wf(s, total, s.admissions());
    crate::sched_lemmas::lemma_decoded(t, total, answers);
    let d = t.decoded(answers);
    assert(Entry::ids(d.entries) =~= Request::ids(t.running));
    assert forall|i: int| 0 <= i < answers.len() implies d.alloc.tables.contains_key(
        (#[trigger] d.entries[i]).request.seq_id,
    ) by {
        assert(t.alloc.tables.contains_key(t.running[i].seq_id));
        assert(d.alloc.tables.dom().contains(t.running[i].seq_id));
    }
}

/// Sorting entries by outcome loses none and invents none.
proof fn lemma_outcomes_partition(es: Seq<Entry>)
    ensures
        Entry::ids(es).to_multiset() == Entry::ids(Entry::ending(es)).to_multiset().add(
            Entry::ids(Entry::displaced(es)).to_multiset(),
        ).add(Entry::ids(Entry::staying(es)).to_multiset()),
    decreases es.len(),
{
    broadcast use vstd::seq_lib::group_to_multiset_ensures;

    if es.len() == 0 {
        reveal(Seq::filter);
        assert(Entry::ids(es) =~= Seq::<SeqId>::empty());
        assert(Entry::ids(Entry::ending(es)) =~= Seq::<SeqId>::empty());
        assert(Entry::ids(Entry::displaced(es)) =~= Seq::<SeqId>::empty());
        assert(Entry::ids(Entry::staying(es)) =~= Seq::<SeqId>::empty());
        assert(Seq::<SeqId>::empty().to_multiset().len() == 0);
        assert(Seq::<SeqId>::empty().to_multiset() =~= Multiset::empty());
    } else {
        let rest = es.drop_last();
        let last = es.last();
        let id = last.request.seq_id;
        lemma_outcomes_partition(rest);
        assert(es =~= rest.push(last));
        crate::sched_lemmas::lemma_push_entry(rest, last);
        crate::sched_lemmas::lemma_filter_push(rest, last, |e: Entry| e.outcome is Continued);
        let kept = Entry::staying(rest);
        assert(Entry::ids(kept.push(last)) =~= Entry::ids(kept).push(id));
        assert(Entry::ids(es) =~= Entry::ids(rest).push(id));
        assert(Entry::ids(es).to_multiset() =~= Entry::ids(Entry::ending(es)).to_multiset().add(
            Entry::ids(Entry::displaced(es)).to_multiset(),
        ).add(Entry::ids(Entry::staying(es)).to_multiset()));
    }
}

/// No request is lost or duplicated: what the scheduler held before a step is
/// what it holds after it and what the step reports as finished, so every
/// queued request leaves by finishing, once.
pub proof fn law_requests_conserved(s: SchedState, total: nat, answers: Seq<Answer>)
    requires
        s.wf(total),
        s.admits_cleanly(),
        answers.len() == s.admitted().running.len(),
    ensures
        s.all_ids() == s.stepped(answers).all_ids().add(
            Entry::ids(Entry::ending(s.admitted().decoded(answers).entries)).to_multiset(),
        ),
{
    let t = s.admitted();
    let u = s.stepped(answers);
    let es = t.decoded(answers).entries;
    let k = s.admissions() as int;
    crate::sched_lemmas::lemma_admit_count(s, 0);
    lemma_batch(s, total, answers);
    lemma_outcomes_partition(es);
    let first = Request::ids(s.waiting.take(k));
    let later = Request::ids(s.waiting.skip(k));
    assert(Request::ids(s.waiting) =~= first + later);
    assert(Request::ids(t.running) =~= Request::ids(s.running) + first);
    vstd::seq_lib::lemma_multiset_commutative(first, later);
    vstd::seq_lib::lemma_multiset_commutative(Request::ids(s.running), first);
    let back = Entry::ids(Entry::displaced(es));
    assert(Request::ids(u.waiting) =~= back + later);
    vstd::seq_lib::lemma_multiset_commutative(back, later);
    assert(Request::ids(u.running) == Entry::ids(Entry::staying(es)));
    assert(Entry::ids(es).to_multiset() == Request::ids(t.running).to_multiset());
    let ended = Entry::ids(Entry::ending(es)).to_multiset();
    assert(Request::ids(s.waiting).to_multiset() == first.to_multiset().add(later.to_multiset()));
    assert(Request::ids(u.waiting).to_multiset() == back.to_multiset().add(later.to_multiset()));
    assert(Request::ids(t.running).to_multiset() == Request::ids(s.running).to_multiset().add(
        first.to_multiset(),
    ));
    assert forall|id: SeqId| s.all_ids().count(id) == u.all_ids().add(ended).count(id) by {
        assert(Entry::ids(es).to_multiset().count(id) == ended.count(id) + back.to_multiset().count(
            id,
        ) + Entry::ids(Entry::staying(es)).to_multiset().count(id));
    }
    assert(s.all_ids() =~= u.all_ids().add(Entry::ids(Entry::ending(es)).to_multiset()));
}

/// Unique ids stay unique: a step neither repeats an id nor leaves a page table
/// behind for a request that waits.
pub proof fn law_step_keeps_unique_ids(s: SchedState, total: nat, answers: Seq<Answer>)
    requires
        s.wf(total),
        s.unique_ids(),
        answers.len() == s.admitted().running.len(),
    ensures
        s.stepped(answers).unique_ids(),
{
    broadcast use vstd::seq_lib::group_to_multiset_ensures;

    law_unique_ids_admit_cleanly(s);
    law_requests_conserved(s, total, answers);
    lemma_batch(s, total, answers);
    let t = s.admitted();
    let d = t.decoded(answers);
    let u = s.stepped(answers);
    let k = s.admissions() as int;
    crate::sched_lemmas::lemma_admit_count(s, 0);
    crate::sched_lemmas::lemma_retired_wf(t, total, d);
    crate::sched_lemmas::lemma_admitted_prefix_wf(s, total, s.admissions());
    let old_ids = Request::ids(s.running + s.waiting);
    let new_ids = Request::ids(u.running + u.waiting);
    assert(old_ids =~= Request::ids(s.running) + Request::ids(s.waiting));
    assert(new_ids =~= Request::ids(u.running) + Request::ids(u.waiting));
    vstd::seq_lib::lemma_multiset_commutative(Request::ids(s.running), Request::ids(s.waiting));
    vstd::seq_lib::lemma_multiset_commutative(Request::ids(u.running), Request::ids(u.waiting));
    old_ids.lemma_multiset_has_no_duplicates();
    assert forall|id: SeqId| new_ids.to_multiset().contains(id) implies
        new_ids.to_multiset().count(id) == 1 by {
        assert(new_ids.to_multiset().count(id) <= old_ids.to_multiset().count(id));
        assert(old_ids.to_multiset().contains(id));
    }
    new_ids.lemma_multiset_has_no_duplicates_conv();
    let back = Entry::ids(Entry::displaced(d.entries));
    assert forall|i: int| 0 <= i < u.waiting.len() implies !u.alloc.tables.contains_key(
        (#[trigger] u.waiting[i]).seq_id,
    ) by {
        let id = u.waiting[i].seq_id;
        if i < back.len() {
            assert(back[i] == id);
            assert(back.contains(id));
        } else {
            let j = k + i - back.len();
            assert(u.waiting[i] == s.waiting[j]);
            assert(!s.alloc.tables.contains_key(s.waiting[j].seq_id));
            if d.alloc.tables.contains_key(id) {
                assert(t.alloc.tables.dom().contains(id));
                assert(Request::ids(s.waiting.take(k)).contains(id));
                let m = choose|m: int|
                    0 <= m < k && Request::ids(s.waiting.take(k))[m] == id;
                assert(old_ids[s.running.len() + m] == id);
                assert(old_ids[s.running.len() + j] == id);
            }
        }
    }
}

/// Queueing a request with a new id keeps ids unique.
pub proof fn law_enqueue_keeps_unique_ids(s: SchedState, r: Request)
    requires
        s.unique_ids(),
        !Request::ids(s.running + s.waiting).contains(r.seq_id),
        !s.alloc.tables.contains_key(r.seq_id),
    ensures
        s.enqueued(r).unique_ids(),
{
    let t = s.enqueued(r);
    let old_ids = Request::ids(s.running + s.waiting);
    assert(Request::ids(t.running + t.waiting) =~= old_ids.push(r.seq_id));
    assert forall|i: int| 0 <= i < t.waiting.len() implies !t.alloc.tables.contains_key(
        (#[trigger] t.waiting[i]).seq_id,
    ) by {
        if i < s.waiting.len() {
            assert(t.waiting[i] == s.waiting[i]);
        }
    }
}

/// Ids from a counter are new: queueing a request under the next id keeps ids
/// unique, and the id after it is new again.
pub proof fn law_counted_ids_are_new(s: SchedState, r: Request)
    requires
        s.unique_ids(),
        s.ids_below(r.seq_id),
        r.seq_id < u64::MAX,
    ensures
        s.enqueued(r).unique_ids(),
        s.enqueued(r).ids_below((r.seq_id + 1) as SeqId),
{
    law_enqueue_keeps_unique_ids(s, r);
    let t = s.enqueued(r);
    let before = Request::ids(s.running + s.waiting);
    let after = Request::ids(t.running + t.waiting);
    assert(after =~= before.push(r.seq_id));
    assert forall|id: SeqId| after.contains(id) implies id < r.seq_id + 1 by {
        let i = choose|i: int| 0 <= i < after.len() && after[i] == id;
        if i < before.len() {
            assert(before[i] == id);
            assert(before.contains(id));
        }
    }
}

/// A step makes up no id.
pub proof fn law_step_keeps_ids_below(
    s: SchedState,
    total: nat,
    answers: Seq<Answer>,
    next: SeqId,
)
    requires
        s.wf(total),
        s.admits_cleanly(),
        s.ids_below(next),
        answers.len() == s.admitted().running.len(),
    ensures
        s.stepped(answers).ids_below(next),
{
    broadcast use vstd::seq_lib::group_to_multiset_ensures;

    law_requests_conserved(s, total, answers);
    lemma_batch(s, total, answers);
    let t = s.admitted();
    let d = t.decoded(answers);
    let u = s.stepped(answers);
    let k = s.admissions() as int;
    crate::sched_lemmas::lemma_admit_count(s, 0);
    crate::sched_lemmas::lemma_retired_wf(t, total, d);
    crate::sched_lemmas::lemma_admitted_prefix_wf(s, total, s.admissions());
    let before = Request::ids(s.running + s.waiting);
    let after = Request::ids(u.running + u.waiting);
    assert(before =~= Request::ids(s.running) + Request::ids(s.waiting));
    assert(after =~= Request::ids(u.running) + Request::ids(u.waiting));
    vstd::seq_lib::lemma_multiset_commutative(Request::ids(s.running), Request::ids(s.waiting));
    vstd::seq_lib::lemma_multiset_commutative(Request::ids(u.running), Request::ids(u.waiting));
    assert forall|id: SeqId| after.contains(id) implies id < next by {
        assert(after.to_multiset().count(id) <= before.to_multiset().count(id));
        assert(before.contains(id));
    }
    assert forall|id: SeqId| #[trigger] u.alloc.tables.contains_key(id) implies id < next by {
        assert(d.alloc.tables.contains_key(id));
        assert(t.alloc.tables.dom().contains(id));
        if Request::ids(s.waiting.take(k)).contains(id) {
            let i = choose|i: int| 0 <= i < k && Request::ids(s.waiting.take(k))[i] == id;
            assert(before[s.running.len() + i] == id);
            assert(before.contains(id));
        }
    }
}

/// A step leaves page tables for the running requests and for no others, if it
/// found none but theirs.
pub proof fn law_step_keeps_pool_exclusive(s: SchedState, total: nat, answers: Seq<Answer>)
    requires
        s.wf(total),
        s.admits_cleanly(),
        s.exclusive(),
        answers.len() == s.admitted().running.len(),
    ensures
        s.stepped(answers).exclusive(),
{
    let t = s.admitted();
    let d = t.decoded(answers);
    let es = d.entries;
    let u = s.stepped(answers);
    let k = s.admissions() as int;
    lemma_batch(s, total, answers);
    crate::sched_lemmas::lemma_admit_count(s, 0);
    crate::sched_lemmas::lemma_admitted_prefix_wf(s, total, s.admissions());
    crate::sched_lemmas::lemma_retired_wf(t, total, d);
    let stays = |e: Entry| e.outcome is Continued;
    assert forall|id: SeqId| u.alloc.tables.dom().contains(id) <==> Request::ids(
        u.running,
    ).to_set().contains(id) by {
        assert(d.alloc.tables.contains_key(id) <==> t.alloc.tables.dom().contains(id));
        assert(t.alloc.tables.contains_key(id) <==> s.alloc.tables.contains_key(id)
            || Request::ids(s.waiting.take(k)).contains(id));
        assert(s.alloc.tables.contains_key(id) <==> Request::ids(s.running).to_set().contains(id));
        let batch = Request::ids(t.running);
        assert(batch =~= Request::ids(s.running) + Request::ids(s.waiting.take(k)));
        assert(batch.contains(id) <==> Request::ids(s.running).contains(id) || Request::ids(
            s.waiting.take(k),
        ).contains(id)) by {
            lemma_concat_contains(Request::ids(s.running), Request::ids(s.waiting.take(k)), id);
        }
        if batch.contains(id) {
            let i = choose|i: int| 0 <= i < batch.len() && batch[i] == id;
            assert(Entry::ids(es)[i] == id);
            assert(es[i].request.seq_id == id);
            crate::sched_lemmas::lemma_id_tells_entry(es, stays, i);
            crate::sched_lemmas::lemma_id_tells_entry(es, |e: Entry| e.outcome is Preempted, i);
            crate::sched_lemmas::lemma_id_tells_entry(es, |e: Entry| e.outcome.ends(), i);
        }
        crate::sched_lemmas::lemma_filter_ids_distinct(es, stays);
        assert(Request::ids(u.running) == Entry::ids(es.filter(stays)));
    }
    assert(u.alloc.tables.dom() =~= Request::ids(u.running).to_set());
}

proof fn lemma_concat_contains<A>(a: Seq<A>, b: Seq<A>, x: A)
    ensures
        (a + b).contains(x) <==> a.contains(x) || b.contains(x),
{
    if a.contains(x) {
        let i = choose|i: int| 0 <= i < a.len() && a[i] == x;
        assert((a + b)[i] == x);
    }
    if b.contains(x) {
        let i = choose|i: int| 0 <= i < b.len() && b[i] == x;
        assert((a + b)[a.len() + i] == x);
    }
}

/// A drained scheduler has leaked nothing: once nothing waits and nothing runs,
/// the whole pool is free.
pub proof fn law_drained_pool_is_free(s: SchedState, total: nat)
    requires
        s.wf(total),
        total <= u32::MAX,
        s.exclusive(),
        s.idle(),
    ensures
        s.alloc.free.len() == total,
{
    assert(Request::ids(s.running).to_set() =~= Set::<SeqId>::empty());
    crate::kv_laws::law_all_free_without_sequences(s.alloc, total);
}

/// A step keeps what holds of every request and is not lost by one more token.
proof fn lemma_step_keeps_all_held(s: SchedState, answers: Seq<Answer>, p: spec_fn(Request) -> bool)
    requires
        s.all_held(p),
        answers.len() == s.admitted().running.len(),
        forall|r: Request, next: Request| #[trigger] r.one_token_before(next) && p(r) ==> p(next),
    ensures
        s.stepped(answers).all_held(p),
{
    let t = s.admitted();
    let es = t.decoded(answers).entries;
    let u = s.stepped(answers);
    crate::sched_lemmas::lemma_admit_count(s, 0);
    lemma_entries_len(t, answers);
    assert forall|i: int| 0 <= i < es.len() implies p((#[trigger] es[i]).request) by {
        law_one_token_each(t, answers, i);
        if i < s.running.len() {
            assert(t.running[i] == s.running[i]);
        } else {
            assert(t.running[i] == s.waiting[i - s.running.len()]);
        }
        let r = t.running[i];
        assert(p(r));
        if !r.done() {
            assert(r.one_token_before(es[i].request));
        }
    }
    let back = Entry::displaced(es);
    let on = Entry::staying(es);
    assert forall|i: int| 0 <= i < u.running.len() implies p(#[trigger] u.running[i]) by {
        assert(u.running[i] == on[i].request);
        assert(on.contains(on[i]));
        es.lemma_filter_contains_rev(|e: Entry| e.outcome is Continued, on[i]);
    }
    assert forall|i: int| 0 <= i < u.waiting.len() implies p(#[trigger] u.waiting[i]) by {
        if i < back.len() {
            assert(u.waiting[i] == back[i].request);
            assert(back.contains(back[i]));
            es.lemma_filter_contains_rev(|e: Entry| e.outcome is Preempted, back[i]);
        } else {
            assert(u.waiting[i] == s.waiting[s.admissions() + i - back.len()]);
        }
    }
}

/// What the prompt cap let in stays within it.
pub proof fn law_step_keeps_prompts_fit(s: SchedState, answers: Seq<Answer>)
    requires
        s.prompts_fit(),
        answers.len() == s.admitted().running.len(),
    ensures
        s.stepped(answers).prompts_fit(),
{
    let cap = s.max_batch_tokens;
    lemma_step_keeps_all_held(s, answers, |r: Request| r.prompt_tokens <= cap);
}

/// A request that is queued keeps the scheduler able to serve all it holds, if
/// the pool can hold its longest context.
pub proof fn law_enqueue_keeps_serviceable(s: SchedState, total: nat, r: Request)
    requires
        s.serviceable(total),
        r.prompt_tokens <= s.max_batch_tokens,
        AllocState::blocks_for(r.at_peak().reserved_tokens(), s.block_size) <= total,
    ensures
        s.enqueued(r).serviceable(total),
{
}

/// A request that could run alone to its last token still can after a step.
pub proof fn law_step_keeps_serviceable(s: SchedState, total: nat, answers: Seq<Answer>)
    requires
        s.serviceable(total),
        answers.len() == s.admitted().running.len(),
    ensures
        s.stepped(answers).serviceable(total),
{
    let cap = s.max_batch_tokens;
    let block_size = s.block_size;
    lemma_step_keeps_all_held(
        s,
        answers,
        |r: Request|
            r.prompt_tokens <= cap && AllocState::blocks_for(
                r.at_peak().reserved_tokens(),
                block_size,
            ) <= total,
    );
}

/// No later request is put ahead of an earlier one: the queue after a step keeps
/// the order in which its requests stood in line, first in the batch and then in
/// the queue, before it. Requests preempted together come back in order.
pub proof fn law_queue_keeps_order(s: SchedState, total: nat, answers: Seq<Answer>, i: int, j: int)
    requires
        s.wf(total),
        s.admits_cleanly(),
        answers.len() == s.admitted().running.len(),
        0 <= i < j < s.stepped(answers).waiting.len(),
    ensures
        exists|p: int, q: int|
            0 <= p < q < s.running.len() + s.waiting.len() && (#[trigger] Request::ids(
                s.running + s.waiting,
            )[p]) == s.stepped(answers).waiting[i].seq_id && (#[trigger] Request::ids(
                s.running + s.waiting,
            )[q]) == s.stepped(answers).waiting[j].seq_id,
{
    let t = s.admitted();
    let u = s.stepped(answers);
    let es = t.decoded(answers).entries;
    let is_displaced = |e: Entry| e.outcome is Preempted;
    let back = Entry::displaced(es);
    let line = Request::ids(s.running + s.waiting);
    let k = s.admissions() as int;
    let offset = s.running.len() + k - back.len();
    crate::sched_lemmas::lemma_admit_count(s, 0);
    lemma_batch(s, total, answers);
    assert forall|p: int| 0 <= p < es.len() implies line[p] == (
    #[trigger] es[p]).request.seq_id by {
        assert(Entry::ids(es)[p] == Request::ids(t.running)[p]);
    }
    if j < back.len() {
        crate::sched_lemmas::lemma_filter_order(es, is_displaced, i, j);
        let (p, q) = choose|p: int, q: int|
            0 <= p < q < es.len() && #[trigger] es[p] == back[i] && #[trigger] es[q] == back[j];
        assert(line[p] == u.waiting[i].seq_id);
        assert(line[q] == u.waiting[j].seq_id);
    } else if i < back.len() {
        assert(back.contains(back[i]));
        es.lemma_filter_contains_rev(is_displaced, back[i]);
        let p = choose|p: int| 0 <= p < es.len() && es[p] == back[i];
        assert(line[p] == u.waiting[i].seq_id);
        assert(line[offset + j] == u.waiting[j].seq_id);
    } else {
        assert(line[offset + i] == u.waiting[i].seq_id);
        assert(line[offset + j] == u.waiting[j].seq_id);
    }
}

/// The head of the queue is admitted when the batch is empty and its blocks are
/// free, however much it had generated before it was preempted.
pub proof fn law_head_enters_empty_batch(s: SchedState)
    requires
        s.running.len() == 0,
        s.max_running_seqs > 0,
        s.waiting.len() > 0,
        s.waiting[0].prompt_tokens <= s.max_batch_tokens,
        s.blocks_of(0) <= s.alloc.free.len(),
    ensures
        s.admissions() > 0,
{
    assert(s.running + s.waiting.take(0) =~= Seq::<Request>::empty());
    assert(s.fits(0));
    crate::sched_lemmas::lemma_admit_count(s, 1);
}

/// No request gets more tokens than it asked for.
pub proof fn law_tokens_within_request(s: SchedState, answers: Seq<Answer>, i: int)
    requires
        answers.len() <= s.running.len(),
        0 <= i < answers.len(),
        s.running[i].generated <= s.running[i].max_new_tokens,
    ensures
        ({
            let after = s.decoded(answers).entries[i].request;
            after.generated <= after.max_new_tokens
        }),
{
    law_one_token_each(s, answers, i);
}

proof fn lemma_work_concat(a: Seq<Request>, b: Seq<Request>)
    ensures
        Request::work(a + b) == Request::work(a) + Request::work(b),
    decreases b.len(),
{
    if b.len() == 0 {
        assert(a + b =~= a);
    } else {
        lemma_work_concat(a, b.drop_last());
        assert((a + b).drop_last() =~= a + b.drop_last());
    }
}

/// Decoding takes work from every request of the batch.
proof fn lemma_decode_does_work(s: SchedState, answers: Seq<Answer>)
    requires
        answers.len() <= s.running.len(),
    ensures
        ({
            let es = s.decoded(answers).entries;
            Request::work(Entry::requests(Entry::staying(es))) + Request::work(
                Entry::requests(Entry::displaced(es)),
            ) + answers.len() <= Request::work(s.running.take(answers.len() as int))
        }),
    decreases answers.len(),
{
    let es = s.decoded(answers).entries;
    if answers.len() == 0 {
        reveal(Seq::filter);
        assert(Entry::requests(Entry::staying(es)) =~= Seq::<Request>::empty());
        assert(Entry::requests(Entry::displaced(es)) =~= Seq::<Request>::empty());
        assert(s.running.take(0) =~= Seq::<Request>::empty());
    } else {
        let fewer = answers.drop_last();
        let n = fewer.len() as int;
        lemma_decode_does_work(s, fewer);
        let rest = s.decoded(fewer).entries;
        let last = es.last();
        assert(es =~= rest.push(last));
        crate::sched_lemmas::lemma_filter_push(rest, last, |e: Entry| e.outcome is Continued);
        crate::sched_lemmas::lemma_filter_push(rest, last, |e: Entry| e.outcome is Preempted);
        let on = Entry::staying(rest);
        let back = Entry::displaced(rest);
        assert(Entry::requests(on.push(last)) =~= Entry::requests(on).push(last.request));
        assert(Entry::requests(back.push(last)) =~= Entry::requests(back).push(last.request));
        assert(Entry::requests(on).push(last.request).drop_last() =~= Entry::requests(on));
        assert(Entry::requests(back).push(last.request).drop_last() =~= Entry::requests(back));
        assert(s.running.take(n + 1).drop_last() =~= s.running.take(n));
        assert(s.running.take(n + 1).last() == s.running[n]);
    }
}

/// Every step with a batch makes progress: the work left shrinks at least by the
/// size of the batch, so only so many steps can pass before nothing is left or
/// nothing can be admitted.
pub proof fn law_step_makes_progress(s: SchedState, answers: Seq<Answer>)
    requires
        answers.len() == s.admitted().running.len(),
    ensures
        s.stepped(answers).work_left() + s.admitted().running.len() <= s.work_left(),
{
    let t = s.admitted();
    let es = t.decoded(answers).entries;
    let k = s.admissions() as int;
    crate::sched_lemmas::lemma_admit_count(s, 0);
    lemma_decode_does_work(t, answers);
    assert(t.running.take(answers.len() as int) =~= t.running);
    lemma_work_concat(s.running, s.waiting.take(k));
    lemma_work_concat(s.waiting.take(k), s.waiting.skip(k));
    assert(s.waiting.take(k) + s.waiting.skip(k) =~= s.waiting);
    lemma_work_concat(Entry::requests(Entry::displaced(es)), t.waiting);
}

/// A scheduler with work is not stuck, unless the head of the queue has outgrown
/// the pool: the next step has a batch to run.
pub proof fn law_not_stuck(s: SchedState, total: nat)
    requires
        s.wf(total),
        total <= u32::MAX,
        s.exclusive(),
        s.max_running_seqs > 0,
        !s.idle(),
        s.prompts_fit(),
        s.waiting.len() > 0 ==> s.blocks_of(0) <= total,
    ensures
        s.admitted().running.len() > 0,
{
    crate::sched_lemmas::lemma_admit_count(s, 0);
    if s.running.len() == 0 {
        assert(Request::ids(s.running).to_set() =~= Set::<SeqId>::empty());
        crate::kv_laws::law_all_free_without_sequences(s.alloc, total);
        law_head_enters_empty_batch(s);
    }
}

/// A request that can run alone to its last token can be admitted alone at any
/// point before.
proof fn lemma_serviceable_head(s: SchedState, total: nat)
    requires
        s.serviceable(total),
        s.block_size > 0,
        s.waiting.len() > 0,
    ensures
        s.blocks_of(0) <= total,
{
    let r = s.waiting[0];
    let now = r.reserved_tokens();
    let peak = r.at_peak().reserved_tokens();
    let cap = |n: int| if n > u32::MAX { u32::MAX as int } else { n };
    vstd::arithmetic::div_mod::lemma_div_is_ordered(
        cap(now + s.block_size - 1),
        cap(peak + s.block_size - 1),
        s.block_size as int,
    );
}

/// Every load drains: once no more requests come, a scheduler whose requests can
/// each run alone is idle after as many steps as there is work left, whatever the
/// backend says.
pub proof fn law_drains_in_bounded_steps(s: SchedState, total: nat, ops: Seq<Op>)
    requires
        s.wf(total),
        total <= u32::MAX,
        s.unique_ids(),
        s.exclusive(),
        s.serviceable(total),
        s.block_size > 0,
        s.max_running_seqs > 0,
        s.sound_run(ops),
        forall|i: int| 0 <= i < ops.len() ==> (#[trigger] ops[i]) is Step,
    ensures
        s.after(ops).idle() || s.after(ops).work_left() + ops.len() <= s.work_left(),
        ops.len() >= s.work_left() ==> s.after(ops).idle(),
{
    lemma_drain(s, total, ops);
    lemma_no_work_is_idle(s.after(ops));
}

proof fn lemma_no_work_is_idle(s: SchedState)
    ensures
        s.work_left() == 0 <==> s.idle(),
{
}

proof fn lemma_drain(s: SchedState, total: nat, ops: Seq<Op>)
    requires
        s.wf(total),
        total <= u32::MAX,
        s.unique_ids(),
        s.exclusive(),
        s.serviceable(total),
        s.block_size > 0,
        s.max_running_seqs > 0,
        s.sound_run(ops),
        forall|i: int| 0 <= i < ops.len() ==> (#[trigger] ops[i]) is Step,
    ensures
        s.after(ops).wf(total),
        s.after(ops).unique_ids(),
        s.after(ops).exclusive(),
        s.after(ops).serviceable(total),
        s.after(ops).block_size == s.block_size,
        s.after(ops).max_running_seqs == s.max_running_seqs,
        s.after(ops).idle() || s.after(ops).work_left() + ops.len() <= s.work_left(),
    decreases ops.len(),
{
    if ops.len() > 0 {
        let rest = ops.drop_last();
        assert forall|i: int| 0 <= i < rest.len() implies (#[trigger] rest[i]) is Step by {
            assert(rest[i] == ops[i]);
        }
        lemma_drain(s, total, rest);
        let t = s.after(rest);
        assert(ops.last() == ops[ops.len() - 1]);
        let answers = ops.last()->Step_0;
        law_unique_ids_admit_cleanly(t);
        law_step_keeps_unique_ids(t, total, answers);
        law_step_keeps_pool_exclusive(t, total, answers);
        law_step_keeps_serviceable(t, total, answers);
        law_step_makes_progress(t, answers);
        lemma_batch(t, total, answers);
        crate::sched_lemmas::lemma_retired_wf(t.admitted(), total, t.admitted().decoded(answers));
        lemma_no_work_is_idle(t);
        lemma_no_work_is_idle(s.after(ops));
        if !t.idle() {
            if t.waiting.len() > 0 {
                lemma_serviceable_head(t, total);
            }
            law_not_stuck(t, total);
        }
    }
}

/// Sequences that the scheduler runs never share a block: a step keeps every
/// block in one page table at most.
pub proof fn law_step_keeps_blocks_unshared(s: SchedState, total: nat, answers: Seq<Answer>)
    requires
        s.wf(total),
        s.admits_cleanly(),
        s.alloc.unshared(),
        answers.len() == s.admitted().running.len(),
    ensures
        s.stepped(answers).alloc.unshared(),
{
    let t = s.admitted();
    let d = t.decoded(answers);
    let finished = Entry::ids(Entry::ending(d.entries));
    let preempted = Entry::ids(Entry::displaced(d.entries));
    crate::sched_lemmas::lemma_admit_count(s, 0);
    lemma_batch(s, total, answers);
    lemma_admission_unshared(s, total, s.admissions());
    lemma_decode_unshared(t, total, answers);
    lemma_freed_all_unshared(d.alloc, total, finished);
    crate::sched_lemmas::lemma_freed_all(d.alloc, total, finished);
    lemma_freed_all_unshared(d.alloc.freed_all(finished), total, preempted);
}

pub proof fn lemma_admission_unshared(s: SchedState, total: nat, j: nat)
    requires
        s.wf(total),
        s.admits_cleanly(),
        s.alloc.unshared(),
        j <= s.admissions(),
    ensures
        s.alloc_after(j).unshared(),
    decreases j,
{
    if j > 0 {
        let i = (j - 1) as nat;
        crate::sched_lemmas::lemma_admit_count(s, 0);
        crate::sched_lemmas::lemma_admitted_prefix_wf(s, total, i);
        lemma_admission_unshared(s, total, i);
        assert(s.fits(i));
        assert(s.caps_allow(i));
        crate::kv_laws::law_only_forks_share(
            s.alloc_after(i),
            total,
            s.waiting[i as int].seq_id,
            s.blocks_of(i as int),
        );
    }
}

pub proof fn lemma_decode_unshared(s: SchedState, total: nat, answers: Seq<Answer>)
    requires
        s.wf(total),
        s.alloc.unshared(),
        answers.len() <= s.running.len(),
    ensures
        s.decoded(answers).alloc.unshared(),
    decreases answers.len(),
{
    if answers.len() > 0 {
        let fewer = answers.drop_last();
        let d = s.decoded(fewer);
        let r = s.running[answers.len() - 1];
        lemma_decode_unshared(s, total, fewer);
        crate::sched_lemmas::lemma_decoded(s, total, fewer);
        assert(s.alloc.tables.contains_key(r.seq_id));
        assert(d.alloc.tables.dom().contains(r.seq_id));
        crate::kv_laws::law_only_forks_share(d.alloc, total, r.seq_id, 0);
    }
}

pub proof fn lemma_freed_all_unshared(a: AllocState, total: nat, gone: Seq<SeqId>)
    requires
        a.wf(total),
        a.unshared(),
    ensures
        a.freed_all(gone).unshared(),
    decreases gone.len(),
{
    if gone.len() > 0 {
        let rest = gone.drop_last();
        lemma_freed_all_unshared(a, total, rest);
        crate::sched_lemmas::lemma_freed_all(a, total, rest);
        crate::kv_laws::law_only_forks_share(a.freed_all(rest), total, gone.last(), 0);
    }
}

/// One thing done to a scheduler.
pub enum Op {
    /// A request handed in.
    Enqueue(Request),
    /// A decode step, with what the backend said.
    Step(Seq<Answer>),
}

impl SchedState {
    /// A scheduler over a fresh pool, with nothing to do.
    pub open spec fn fresh(
        max_batch_tokens: u32,
        max_running_seqs: usize,
        block_size: u32,
        total: nat,
    ) -> SchedState {
        SchedState {
            max_batch_tokens,
            max_running_seqs,
            block_size,
            alloc: AllocState::fresh(total),
            waiting: Seq::empty(),
            running: Seq::empty(),
        }
    }

    /// The state after a run of operations.
    pub open spec fn after(self, ops: Seq<Op>) -> SchedState
        decreases ops.len(),
    {
        if ops.len() == 0 {
            self
        } else {
            let s = self.after(ops.drop_last());
            match ops.last() {
                Op::Enqueue(r) => if r.prompt_tokens > s.max_batch_tokens {
                    s
                } else {
                    s.enqueued(r)
                },
                Op::Step(answers) => s.stepped(answers),
            }
        }
    }

    /// The ids of the requests that a run queued.
    pub open spec fn queued_by(self, ops: Seq<Op>) -> Multiset<SeqId>
        decreases ops.len(),
    {
        if ops.len() == 0 {
            Multiset::empty()
        } else {
            let before = self.queued_by(ops.drop_last());
            match ops.last() {
                Op::Enqueue(r) => if r.prompt_tokens > self.after(ops.drop_last()).max_batch_tokens {
                    before
                } else {
                    before.insert(r.seq_id)
                },
                Op::Step(_) => before,
            }
        }
    }

    /// The ids that a run reported as finished, each as often as it did.
    pub open spec fn finished_by(self, ops: Seq<Op>) -> Multiset<SeqId>
        decreases ops.len(),
    {
        if ops.len() == 0 {
            Multiset::empty()
        } else {
            let before = self.finished_by(ops.drop_last());
            match ops.last() {
                Op::Enqueue(_) => before,
                Op::Step(answers) => {
                    let t = self.after(ops.drop_last()).admitted();
                    before.add(Entry::ids(Entry::ending(t.decoded(answers).entries)).to_multiset())
                },
            }
        }
    }

    /// The run hands every request in under an id of its own, and each of its
    /// steps has one answer for each request of the batch.
    pub open spec fn sound_run(self, ops: Seq<Op>) -> bool
        decreases ops.len(),
    {
        ops.len() > 0 ==> {
            &&& self.sound_run(ops.drop_last())
            &&& match ops.last() {
                Op::Enqueue(r) => self.queued_by(ops.drop_last()).count(r.seq_id) == 0,
                Op::Step(answers) => answers.len() == self.after(
                    ops.drop_last(),
                ).admitted().running.len(),
            }
        }
    }
}

/// Every queued request finishes at most once, and none is lost: at any point of
/// a run, what was queued is what has finished and what the scheduler still
/// holds. The invariants that the other laws ask for hold throughout.
pub proof fn law_runs_keep_account(s: SchedState, total: nat, ops: Seq<Op>)
    requires
        s == SchedState::fresh(s.max_batch_tokens, s.max_running_seqs, s.block_size, total),
        total <= u32::MAX,
        s.sound_run(ops),
    ensures
        s.queued_by(ops) == s.after(ops).all_ids().add(s.finished_by(ops)),
        forall|id: SeqId| #[trigger] s.queued_by(ops).count(id) <= 1,
        forall|id: SeqId| #[trigger] s.finished_by(ops).count(id) <= 1,
        s.after(ops).wf(total),
        s.after(ops).unique_ids(),
        s.after(ops).admits_cleanly(),
        s.after(ops).exclusive(),
        s.after(ops).prompts_fit(),
        s.after(ops).alloc.unshared(),
    decreases ops.len(),
{
    broadcast use vstd::seq_lib::group_to_multiset_ensures;

    if ops.len() == 0 {
        crate::kv_model::lemma_fresh_wf(total);
        let none = Request::ids(Seq::<Request>::empty());
        assert(none =~= Seq::<SeqId>::empty());
        assert(none.to_multiset().len() == 0);
        assert(none.to_multiset() =~= Multiset::<SeqId>::empty());
        assert(s.queued_by(ops) =~= s.after(ops).all_ids().add(s.finished_by(ops)));
        assert(s.alloc.tables.dom() =~= Request::ids(s.running).to_set());
        assert(s.running + s.waiting =~= Seq::<Request>::empty());
        assert forall|b: crate::kv_model::BlockId| #[trigger] s.alloc.refs(b) <= 1 by {
            crate::kv_model::lemma_refs_zero(s.alloc, b);
        }
    } else {
        let rest = ops.drop_last();
        law_runs_keep_account(s, total, rest);
        let t = s.after(rest);
        let u = s.after(ops);
        match ops.last() {
            Op::Enqueue(r) => {
                if r.prompt_tokens <= t.max_batch_tokens {
                    lemma_enqueue_account(t, r, s.queued_by(rest), s.finished_by(rest));
                    assert(s.queued_by(ops) =~= u.all_ids().add(s.finished_by(ops)));
                }
            },
            Op::Step(answers) => {
                law_requests_conserved(t, total, answers);
                law_step_keeps_unique_ids(t, total, answers);
                law_step_keeps_pool_exclusive(t, total, answers);
                law_step_keeps_prompts_fit(t, answers);
                law_step_keeps_blocks_unshared(t, total, answers);
                lemma_batch(t, total, answers);
                crate::sched_lemmas::lemma_retired_wf(
                    t.admitted(),
                    total,
                    t.admitted().decoded(answers),
                );
                assert(s.queued_by(ops) =~= u.all_ids().add(s.finished_by(ops)));
            },
        }
        assert forall|id: SeqId| #[trigger] s.finished_by(ops).count(id) <= 1 by {
            assert(s.queued_by(ops).count(id) <= 1);
        }
    }
    law_unique_ids_admit_cleanly(s.after(ops));
}

proof fn lemma_enqueue_account(
    t: SchedState,
    r: Request,
    queued: Multiset<SeqId>,
    finished: Multiset<SeqId>,
)
    requires
        t.unique_ids(),
        t.exclusive(),
        t.prompts_fit(),
        queued == t.all_ids().add(finished),
        queued.count(r.seq_id) == 0,
        r.prompt_tokens <= t.max_batch_tokens,
    ensures
        t.enqueued(r).unique_ids(),
        t.enqueued(r).prompts_fit(),
        t.enqueued(r).all_ids() == t.all_ids().insert(r.seq_id),
{
    broadcast use vstd::seq_lib::group_to_multiset_ensures;

    let u = t.enqueued(r);
    assert(Request::ids(t.running).to_multiset().count(r.seq_id) == 0);
    assert(Request::ids(t.waiting).to_multiset().count(r.seq_id) == 0);
    assert(!Request::ids(t.running).contains(r.seq_id));
    assert(!Request::ids(t.waiting).contains(r.seq_id));
    assert(Request::ids(t.running + t.waiting) =~= Request::ids(t.running) + Request::ids(
        t.waiting,
    ));
    lemma_concat_contains(Request::ids(t.running), Request::ids(t.waiting), r.seq_id);
    assert(!Request::ids(t.running).to_set().contains(r.seq_id));
    assert(!t.alloc.tables.dom().contains(r.seq_id));
    law_enqueue_keeps_unique_ids(t, r);
    assert(Request::ids(u.waiting) =~= Request::ids(t.waiting).push(r.seq_id));
    assert(u.all_ids() =~= t.all_ids().insert(r.seq_id));
    assert forall|i: int| 0 <= i < u.waiting.len() implies (#[trigger] u.waiting[i]).prompt_tokens
        <= u.max_batch_tokens by {
        if i < t.waiting.len() {
            assert(u.waiting[i] == t.waiting[i]);
        }
    }
}

/// Draining leaks nothing: when a run has left nothing waiting and nothing
/// running, every request that it queued has finished exactly once and the whole
/// pool is free again.
pub proof fn law_drained_run(s: SchedState, total: nat, ops: Seq<Op>)
    requires
        s == SchedState::fresh(s.max_batch_tokens, s.max_running_seqs, s.block_size, total),
        total <= u32::MAX,
        s.sound_run(ops),
        s.after(ops).idle(),
    ensures
        s.finished_by(ops) == s.queued_by(ops),
        forall|id: SeqId| #[trigger] s.finished_by(ops).count(id) <= 1,
        s.after(ops).alloc.free.len() == total,
{
    broadcast use vstd::seq_lib::group_to_multiset_ensures;

    law_runs_keep_account(s, total, ops);
    let t = s.after(ops);
    law_drained_pool_is_free(t, total);
    assert(Request::ids(t.running).to_multiset().len() == 0);
    assert(Request::ids(t.waiting).to_multiset().len() == 0);
    assert(t.all_ids() =~= Multiset::<SeqId>::empty());
    assert(s.finished_by(ops) =~= s.queued_by(ops));
}

} // verus!
