//! Lemmas about the scheduler's model.

use crate::kv_model::{AllocState, SeqId};
use crate::request::Request;
use crate::sched_model::{Answer, Decoded, Entry, SchedState};
use vstd::prelude::*;

verus! {

/// Filtering a sequence that one element was pushed to.
pub proof fn lemma_filter_push<A>(s: Seq<A>, x: A, pred: spec_fn(A) -> bool)
    ensures
        s.push(x).filter(pred) == if pred(x) {
            s.filter(pred).push(x)
        } else {
            s.filter(pred)
        },
{
    reveal(Seq::filter);
    assert(s.push(x).drop_last() =~= s);
}

/// Filtering for what everything passes.
pub proof fn lemma_filter_all<A>(s: Seq<A>, pred: spec_fn(A) -> bool)
    requires
        forall|i: int| 0 <= i < s.len() ==> pred(#[trigger] s[i]),
    ensures
        s.filter(pred) == s,
    decreases s.len(),
{
    reveal(Seq::filter);
    if s.len() > 0 {
        let rest = s.drop_last();
        assert forall|i: int| 0 <= i < rest.len() implies pred(#[trigger] rest[i]) by {
            assert(rest[i] == s[i]);
        }
        lemma_filter_all(rest, pred);
        assert(pred(s[s.len() - 1]));
        assert(rest.push(s.last()) =~= s);
    }
}

/// Filters that agree on what is there keep the same.
pub proof fn lemma_filter_agree<A>(s: Seq<A>, p: spec_fn(A) -> bool, q: spec_fn(A) -> bool)
    requires
        forall|i: int| 0 <= i < s.len() ==> p(#[trigger] s[i]) == q(s[i]),
    ensures
        s.filter(p) == s.filter(q),
    decreases s.len(),
{
    reveal(Seq::filter);
    if s.len() > 0 {
        let rest = s.drop_last();
        assert forall|i: int| 0 <= i < rest.len() implies p(#[trigger] rest[i]) == q(rest[i]) by {
            assert(rest[i] == s[i]);
        }
        lemma_filter_agree(rest, p, q);
        assert(p(s[s.len() - 1]) == q(s[s.len() - 1]));
    }
}

/// Filtering keeps the order.
pub proof fn lemma_filter_order<A>(s: Seq<A>, pred: spec_fn(A) -> bool, i: int, j: int)
    requires
        0 <= i < j < s.filter(pred).len(),
    ensures
        exists|p: int, q: int|
            0 <= p < q < s.len() && #[trigger] s[p] == s.filter(pred)[i] && #[trigger] s[q]
                == s.filter(pred)[j],
    decreases s.len(),
{
    reveal(Seq::filter);
    let kept = s.filter(pred);
    let rest = s.drop_last();
    let before = rest.filter(pred);
    if j < before.len() {
        lemma_filter_order(rest, pred, i, j);
        let (p, q) = choose|p: int, q: int|
            0 <= p < q < rest.len() && #[trigger] rest[p] == before[i] && #[trigger] rest[q]
                == before[j];
        assert(s[p] == kept[i] && s[q] == kept[j]);
    } else {
        assert(before.contains(before[i]));
        rest.lemma_filter_contains_rev(pred, before[i]);
        let p = choose|p: int| 0 <= p < rest.len() && rest[p] == before[i];
        assert(s[p] == kept[i] && s[s.len() - 1] == kept[j]);
    }
}

/// What one more decoded request adds to the report.
pub proof fn lemma_push_entry(es: Seq<Entry>, e: Entry)
    ensures
        ({
            let more = es.push(e);
            let id = e.request.seq_id;
            &&& Entry::requests(more) == Entry::requests(es).push(
                e.request,
            )
            &&& Entry::ids(Entry::ending(more)) == if e.outcome.ends() {
                Entry::ids(Entry::ending(es)).push(id)
            } else {
                Entry::ids(Entry::ending(es))
            }
            &&& Entry::ids(Entry::served(more)) == if e.outcome.ran() {
                Entry::ids(Entry::served(es)).push(id)
            } else {
                Entry::ids(Entry::served(es))
            }
            &&& Entry::ids(Entry::displaced(more)) == if e.outcome is Preempted {
                Entry::ids(Entry::displaced(es)).push(id)
            } else {
                Entry::ids(Entry::displaced(es))
            }
            &&& Entry::counts(more) == if e.outcome.ran() {
                Entry::counts(es).insert(id, e.request.generated)
            } else {
                Entry::counts(es)
            }
        }),
{
    let more = es.push(e);
    lemma_filter_push(es, e, |e: Entry| e.outcome.ends());
    lemma_filter_push(es, e, |e: Entry| e.outcome.ran());
    lemma_filter_push(es, e, |e: Entry| e.outcome is Preempted);
    assert(more.drop_last() =~= es);
    assert(Entry::requests(more) =~= Entry::requests(es).push(e.request));
    assert forall|fs: Seq<Entry>| #[trigger]
        Entry::ids(fs.push(e)) == Entry::ids(fs).push(e.request.seq_id) by {
        assert(Entry::ids(fs.push(e)) =~= Entry::ids(fs).push(e.request.seq_id));
    }
}

/// What one more request of the batch adds to the calls of the backend.
pub proof fn lemma_calls_push(rs: Seq<Request>, answers: Seq<Answer>, answer: Answer)
    requires
        answers.len() < rs.len(),
    ensures
        ({
            let n = answers.len() as int;
            let before = SchedState::calls_of(rs.take(n), answers);
            SchedState::calls_of(rs.take(n + 1), answers.push(answer)) == if rs[n].done() {
                before
            } else {
                before.push((rs[n].seq_id, answer.eos))
            }
        }),
{
    let n = answers.len() as int;
    assert(rs.take(n + 1).drop_last() =~= rs.take(n));
    assert(answers.push(answer).take(n) =~= answers);
}

/// A filter on requests that agrees with a filter on the entries they come
/// from keeps the same requests.
pub proof fn lemma_filter_requests(
    es: Seq<Entry>,
    on_entry: spec_fn(Entry) -> bool,
    on_request: spec_fn(Request) -> bool,
)
    requires
        forall|i: int|
            0 <= i < es.len() ==> on_entry(#[trigger] es[i]) == on_request(es[i].request),
    ensures
        Entry::requests(es).filter(on_request) == Entry::requests(
            es.filter(on_entry),
        ),
    decreases es.len(),
{
    if es.len() == 0 {
        reveal(Seq::filter);
        assert(Entry::requests(es).filter(on_request)
            =~= Entry::requests(es.filter(on_entry)));
    } else {
        let rest = es.drop_last();
        assert forall|i: int| 0 <= i < rest.len() implies on_entry(#[trigger] rest[i])
            == on_request(rest[i].request) by {
            assert(rest[i] == es[i]);
        }
        lemma_filter_requests(rest, on_entry, on_request);
        lemma_filter_push(rest, es.last(), on_entry);
        lemma_filter_push(Entry::requests(rest), es.last().request, on_request);
        assert(es =~= rest.push(es.last()));
        assert(Entry::requests(es) =~= Entry::requests(rest).push(
            es.last().request,
        ));
        assert(es.last() == es[es.len() - 1]);
        let kept = rest.filter(on_entry);
        assert(Entry::requests(kept.push(es.last()))
            =~= Entry::requests(kept).push(es.last().request));
    }
}

/// With distinct ids, an entry satisfies a predicate exactly when its id is
/// among the ids of those that do.
pub proof fn lemma_id_tells_entry(es: Seq<Entry>, pred: spec_fn(Entry) -> bool, i: int)
    requires
        Entry::ids(es).no_duplicates(),
        0 <= i < es.len(),
    ensures
        Entry::ids(es.filter(pred)).contains(es[i].request.seq_id) == pred(es[i]),
{
    broadcast use vstd::seq_lib::group_filter_ensures;

    let kept = es.filter(pred);
    let id = es[i].request.seq_id;
    if pred(es[i]) {
        es.lemma_filter_contains(pred, i);
        let k = choose|k: int| 0 <= k < kept.len() && kept[k] == es[i];
        assert(Entry::ids(kept)[k] == id);
    }
    if Entry::ids(kept).contains(id) {
        let k = choose|k: int| 0 <= k < Entry::ids(kept).len() && Entry::ids(kept)[k] == id;
        assert(pred(kept[k]));
        assert(kept.contains(kept[k]));
        es.lemma_filter_contains_rev(pred, kept[k]);
        let j = choose|j: int| 0 <= j < es.len() && es[j] == kept[k];
        assert(Entry::ids(es)[j] == Entry::ids(es)[i]);
    }
}

/// Filtering twice is filtering once by both predicates.
pub proof fn lemma_filter_filter<A>(
    s: Seq<A>,
    p: spec_fn(A) -> bool,
    q: spec_fn(A) -> bool,
    both: spec_fn(A) -> bool,
)
    requires
        forall|x: A| #[trigger] both(x) == (p(x) && q(x)),
    ensures
        s.filter(p).filter(q) == s.filter(both),
    decreases s.len(),
{
    if s.len() == 0 {
        reveal(Seq::filter);
        assert(s.filter(p).filter(q) =~= s.filter(both));
    } else {
        let rest = s.drop_last();
        lemma_filter_filter(rest, p, q, both);
        assert(s =~= rest.push(s.last()));
        lemma_filter_push(rest, s.last(), p);
        lemma_filter_push(rest, s.last(), both);
        lemma_filter_push(rest.filter(p), s.last(), q);
        assert(both(s.last()) == (p(s.last()) && q(s.last())));
    }
}

/// Freeing several sequences keeps the pool well formed and drops exactly
/// their page tables.
pub proof fn lemma_freed_all(s: AllocState, total: nat, gone: Seq<SeqId>)
    requires
        s.wf(total),
    ensures
        s.freed_all(gone).wf(total),
        forall|id: SeqId| #[trigger]
            s.freed_all(gone).tables.contains_key(id) <==> s.tables.contains_key(id)
                && !gone.contains(id),
    decreases gone.len(),
{
    if gone.len() > 0 {
        let rest = gone.drop_last();
        lemma_freed_all(s, total, rest);
        crate::kv_model::lemma_freed_wf(s.freed_all(rest), total, gone.last());
        assert forall|id: SeqId| #[trigger]
            s.freed_all(gone).tables.contains_key(id) <==> s.tables.contains_key(id)
                && !gone.contains(id) by {
            assert(gone.contains(id) <==> rest.contains(id) || id == gone.last()) by {
                if gone.contains(id) {
                    let i = choose|i: int| 0 <= i < gone.len() && gone[i] == id;
                    if i < rest.len() {
                        assert(rest[i] == id);
                    }
                }
                if rest.contains(id) {
                    let i = choose|i: int| 0 <= i < rest.len() && rest[i] == id;
                    assert(gone[i] == id);
                }
                assert(gone[gone.len() - 1] == gone.last());
            }
            assert(s.freed_all(rest).tables.contains_key(id) <==> s.tables.contains_key(id)
                && !rest.contains(id));
        }
    }
}

/// Admission goes on from where it stands.
pub proof fn lemma_admit_count(s: SchedState, j: nat)
    requires
        j <= s.waiting.len(),
    ensures
        j <= s.admit_count(j) <= s.waiting.len(),
        forall|i: nat| j <= i < s.admit_count(j) ==> #[trigger] s.fits(i),
        s.admit_count(j) < s.waiting.len() ==> !s.fits(s.admit_count(j)),
    decreases s.waiting.len() - j,
{
    if j < s.waiting.len() && s.fits(j) {
        lemma_admit_count(s, j + 1);
    }
}

/// The state after the first `j` waiting requests are admitted is well formed.
pub proof fn lemma_admitted_prefix_wf(s: SchedState, total: nat, j: nat)
    requires
        s.wf(total),
        s.admits_cleanly(),
        j <= s.admissions(),
    ensures
        (SchedState {
            alloc: s.alloc_after(j),
            waiting: s.waiting.skip(j as int),
            running: s.running + s.waiting.take(j as int),
            ..s
        }).wf(total),
        forall|id: SeqId| #[trigger]
            s.alloc_after(j).tables.contains_key(id) <==> s.alloc.tables.contains_key(id)
                || Request::ids(s.waiting.take(j as int)).contains(id),
    decreases j,
{
    lemma_admit_count(s, 0);
    let here = s.running + s.waiting.take(j as int);
    if j == 0 {
        assert(here =~= s.running);
        assert(Request::ids(s.waiting.take(0)).len() == 0);
    } else {
        let i = (j - 1) as nat;
        lemma_admitted_prefix_wf(s, total, i);
        let before = s.running + s.waiting.take(i as int);
        let r = s.waiting[i as int];
        assert(s.fits(i));
        assert(s.caps_allow(i));
        crate::kv_model::lemma_allocated_wf(s.alloc_after(i), total, r.seq_id, s.blocks_of(i as int));
        assert(here =~= before.push(r));
        assert(s.waiting.take(j as int) =~= s.waiting.take(i as int).push(r));
        assert(Request::ids(here) =~= Request::ids(before).push(r.seq_id));
        let old_ids = Request::ids(s.waiting.take(i as int));
        assert(Request::ids(s.waiting.take(j as int)) =~= old_ids.push(r.seq_id));
        assert(!Request::ids(before).contains(r.seq_id)) by {
            if Request::ids(before).contains(r.seq_id) {
                let k = choose|k: int|
                    0 <= k < before.len() && Request::ids(before)[k] == r.seq_id;
                assert(s.alloc_after(i).tables.contains_key(before[k].seq_id));
            }
        }
        assert forall|k: int| 0 <= k < here.len() implies s.alloc_after(j).tables.contains_key(
            (#[trigger] here[k]).seq_id,
        ) by {
            if k < before.len() {
                assert(here[k] == before[k]);
                assert(s.alloc_after(i).tables.contains_key(before[k].seq_id));
            }
        }
        assert forall|id: SeqId| #[trigger]
            s.alloc_after(j).tables.contains_key(id) <==> s.alloc.tables.contains_key(id)
                || Request::ids(s.waiting.take(j as int)).contains(id) by {
            assert(s.alloc_after(i).tables.contains_key(id) <==> s.alloc.tables.contains_key(id)
                || old_ids.contains(id));
            assert(old_ids.push(r.seq_id)[old_ids.len() as int] == r.seq_id);
            if old_ids.contains(id) {
                let k = choose|k: int| 0 <= k < old_ids.len() && old_ids[k] == id;
                assert(old_ids.push(r.seq_id)[k] == id);
            }
        }
    }
}

/// Part-way through a decode step: as many entries as answers, the ids and the
/// registered sequences as before, and the pool well formed.
pub proof fn lemma_decoded(s: SchedState, total: nat, answers: Seq<Answer>)
    requires
        s.wf(total),
        answers.len() <= s.running.len(),
    ensures
        s.decoded(answers).alloc.wf(total),
        s.decoded(answers).alloc.tables.dom() == s.alloc.tables.dom(),
        s.decoded(answers).entries.len() == answers.len(),
        forall|i: int|
            0 <= i < answers.len() ==> (#[trigger] s.decoded(answers).entries[i]).request.seq_id
                == s.running[i].seq_id,
    decreases answers.len(),
{
    if answers.len() > 0 {
        let fewer = answers.drop_last();
        lemma_decoded(s, total, fewer);
        let d = s.decoded(fewer);
        let r = s.running[answers.len() - 1];
        let (alloc, entry) = Entry::decode(
            d.alloc,
            s.block_size,
            r,
            answers.last(),
        );
        assert(s.alloc.tables.contains_key(r.seq_id));
        assert(d.alloc.tables.dom().contains(r.seq_id));
        if alloc != d.alloc {
            crate::kv_model::lemma_grown_wf(d.alloc, total, r.seq_id);
            assert(alloc.tables.dom() =~= d.alloc.tables.dom());
        }
        assert forall|i: int| 0 <= i < answers.len() implies (
            #[trigger] s.decoded(answers).entries[i]).request.seq_id == s.running[i].seq_id by {
            if i < fewer.len() {
                assert(s.decoded(answers).entries[i] == d.entries[i]);
            }
        }
    }
}

/// Filtering entries leaves their ids distinct.
pub proof fn lemma_filter_ids_distinct(es: Seq<Entry>, pred: spec_fn(Entry) -> bool)
    requires
        Entry::ids(es).no_duplicates(),
    ensures
        Entry::ids(es.filter(pred)).no_duplicates(),
        forall|id: SeqId| #[trigger]
            Entry::ids(es.filter(pred)).contains(id) ==> Entry::ids(es).contains(id),
    decreases es.len(),
{
    if es.len() == 0 {
        reveal(Seq::filter);
    } else {
        let rest = es.drop_last();
        let last = es.last();
        assert(Entry::ids(rest) =~= Entry::ids(es).drop_last());
        lemma_filter_ids_distinct(rest, pred);
        lemma_filter_push(rest, last, pred);
        assert(es =~= rest.push(last));
        let kept = Entry::ids(rest.filter(pred));
        assert(Entry::ids(rest.filter(pred).push(last)) =~= kept.push(last.request.seq_id));
        assert(Entry::ids(es)[es.len() - 1] == last.request.seq_id);
        assert(!Entry::ids(rest).contains(last.request.seq_id));
        assert(!kept.contains(last.request.seq_id));
        assert forall|id: SeqId| #[trigger]
            Entry::ids(es.filter(pred)).contains(id) implies Entry::ids(es).contains(id) by {
            if Entry::ids(rest).contains(id) {
                let i = choose|i: int|
                    0 <= i < Entry::ids(rest).len() && Entry::ids(rest)[i] == id;
                assert(Entry::ids(es)[i] == id);
            }
            if kept.push(last.request.seq_id).contains(id) && id != last.request.seq_id {
                let i = choose|i: int|
                    0 <= i < kept.len() + 1 && kept.push(last.request.seq_id)[i] == id;
                assert(kept[i] == id);
                assert(kept.contains(id));
            }
        }
    }
}

/// Dropping the finished requests by id, then moving the preempted ones by id,
/// splits the batch by outcome.
pub proof fn lemma_split_by_outcome(es: Seq<Entry>)
    requires
        Entry::ids(es).no_duplicates(),
    ensures
        ({
            let finished = Entry::ids(Entry::ending(es));
            let preempted = Entry::ids(Entry::displaced(es));
            let rest = Entry::requests(es).filter(|r: Request| !finished.contains(r.seq_id));
            &&& rest.filter(|r: Request| preempted.contains(r.seq_id)) == Entry::requests(
                Entry::displaced(es),
            )
            &&& rest.filter(|r: Request| !preempted.contains(r.seq_id)) == Entry::requests(
                Entry::staying(es),
            )
        }),
{
    let finished = Entry::ids(Entry::ending(es));
    let preempted = Entry::ids(Entry::displaced(es));
    let ends = |e: Entry| e.outcome.ends();
    let goes_on = |e: Entry| !e.outcome.ends();
    let is_displaced = |e: Entry| e.outcome is Preempted;
    let not_displaced = |e: Entry| !(e.outcome is Preempted);
    let stays = |e: Entry| e.outcome is Continued;
    let rest = Entry::requests(es).filter(|r: Request| !finished.contains(r.seq_id));
    assert forall|i: int| 0 <= i < es.len() implies goes_on(#[trigger] es[i]) == !finished.contains(
        es[i].request.seq_id,
    ) by {
        lemma_id_tells_entry(es, ends, i);
    }
    lemma_filter_requests(es, goes_on, |r: Request| !finished.contains(r.seq_id));
    let on = es.filter(goes_on);
    assert forall|i: int| 0 <= i < on.len() implies is_displaced(#[trigger] on[i])
        == preempted.contains(on[i].request.seq_id) by {
        assert(on.contains(on[i]));
        es.lemma_filter_contains_rev(goes_on, on[i]);
        let j = choose|j: int| 0 <= j < es.len() && es[j] == on[i];
        lemma_id_tells_entry(es, is_displaced, j);
    }
    lemma_filter_requests(on, is_displaced, |r: Request| preempted.contains(r.seq_id));
    lemma_filter_requests(on, not_displaced, |r: Request| !preempted.contains(r.seq_id));
    lemma_filter_filter(es, goes_on, is_displaced, is_displaced);
    lemma_filter_filter(es, goes_on, not_displaced, stays);
}

/// Retiring the batch keeps the scheduler well formed.
pub proof fn lemma_retired_wf(s: SchedState, total: nat, d: Decoded)
    requires
        d.alloc.wf(total),
        Entry::ids(d.entries).no_duplicates(),
        forall|i: int|
            0 <= i < d.entries.len() ==> d.alloc.tables.contains_key(
                (#[trigger] d.entries[i]).request.seq_id,
            ),
    ensures
        s.retired(d).wf(total),
        forall|id: SeqId| #[trigger]
            s.retired(d).alloc.tables.contains_key(id) <==> d.alloc.tables.contains_key(id)
                && !Entry::ids(Entry::ending(d.entries)).contains(id) && !Entry::ids(
                Entry::displaced(d.entries),
            ).contains(id),
{
    let t = s.retired(d);
    let es = d.entries;
    let finished = Entry::ids(Entry::ending(es));
    let preempted = Entry::ids(Entry::displaced(es));
    let stays = |e: Entry| e.outcome is Continued;
    lemma_freed_all(d.alloc, total, finished);
    lemma_freed_all(d.alloc.freed_all(finished), total, preempted);
    lemma_filter_ids_distinct(es, stays);
    let on = es.filter(stays);
    assert forall|i: int| 0 <= i < t.running.len() implies t.alloc.tables.contains_key(
        (#[trigger] t.running[i]).seq_id,
    ) by {
        broadcast use vstd::seq_lib::group_filter_ensures;

        assert(t.running[i] == on[i].request);
        assert(stays(on[i]));
        assert(on.contains(on[i]));
        es.lemma_filter_contains_rev(stays, on[i]);
        let j = choose|j: int| 0 <= j < es.len() && es[j] == on[i];
        lemma_id_tells_entry(es, |e: Entry| e.outcome.ends(), j);
        lemma_id_tells_entry(es, |e: Entry| e.outcome is Preempted, j);
        assert(d.alloc.freed_all(finished).tables.contains_key(es[j].request.seq_id));
    }
}

} // verus!
