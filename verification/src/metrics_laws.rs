//! Laws of the metrics, told by what was recorded: what the figures are after any
//! run of records, and what a reader sees of the rolling window and of the
//! samples.

use crate::metrics::{MetricsState, Rate};
use vstd::prelude::*;

verus! {

/// One record.
pub enum Record {
    /// The lifetime clock started at this time.
    Start(u128),
    /// So many tokens at this time.
    Tokens(u128, u64),
    /// A finished request.
    Completion,
    /// A time to the first token.
    Ttft(u128),
}

impl Record {
    /// A new tracker after a run of records, as the contracts of
    /// [`crate::metrics::Metrics`] have it.
    pub open spec fn after(records: Seq<Record>) -> MetricsState
        decreases records.len(),
    {
        if records.len() == 0 {
            MetricsState::empty()
        } else {
            let before = Record::after(records.drop_last());
            match records.last() {
                Record::Start(now) => before.started(now),
                Record::Tokens(now, n) => before.with_tokens(now, n),
                Record::Completion => before.with_completion(),
                Record::Ttft(nanos) => before.with_ttft(nanos),
            }
        }
    }

    /// The tokens of a run of records.
    pub open spec fn tokens(records: Seq<Record>) -> int {
        records.fold_left(
            0int,
            |sum: int, r: Record|
                match r {
                    Record::Tokens(_, n) => sum + n,
                    _ => sum,
                },
        )
    }

    /// The finished requests of a run of records.
    pub open spec fn completions(records: Seq<Record>) -> int {
        records.fold_left(
            0int,
            |sum: int, r: Record|
                match r {
                    Record::Completion => sum + 1,
                    _ => sum,
                },
        )
    }

    /// The samples of a run of records, oldest first.
    pub open spec fn samples(records: Seq<Record>) -> Seq<u128> {
        records.fold_left(
            Seq::<u128>::empty(),
            |kept: Seq<u128>, r: Record|
                match r {
                    Record::Ttft(nanos) => kept.push(nanos),
                    _ => kept,
                },
        )
    }

    /// When the lifetime clock was started first.
    pub open spec fn first_start(records: Seq<Record>) -> Option<u128> {
        records.fold_left(
            None::<u128>,
            |first: Option<u128>, r: Record|
                match r {
                    Record::Start(now) => if first is Some {
                        first
                    } else {
                        Some(now)
                    },
                    _ => first,
                },
        )
    }
}

/// The figures count what was recorded: after any run of records, whatever their
/// order, the reported number of completions is the number of completions, the
/// reported number of tokens is the sum of the tokens, the lifetime runs from the
/// first start, and the samples are the latest 10000.
pub proof fn law_figures_count_the_records(records: Seq<Record>, now: u128)
    requires
        Record::completions(records) <= u64::MAX,
        Record::tokens(records) <= u64::MAX,
    ensures
        ({
            let s = Record::after(records);
            let all = Record::samples(records);
            &&& s.snapshot(now).requests_completed == Record::completions(records)
            &&& s.snapshot(now).tokens_generated == Record::tokens(records)
            &&& s.snapshot(now).tokens_per_sec.tokens == Record::tokens(records)
            &&& s.snapshot(now).tokens_per_sec.nanos == s.snapshot(now).elapsed
            &&& match Record::first_start(records) {
                Some(t) => s.snapshot(now).elapsed == if t <= now {
                    now - t
                } else {
                    0
                },
                None => s.snapshot(now).elapsed == 0,
            }
            &&& s.ttft == if all.len() <= 10_000 {
                all
            } else {
                all.skip(all.len() - 10_000)
            }
        }),
{
    lemma_figures(records);
}

proof fn lemma_figures(records: Seq<Record>)
    requires
        Record::completions(records) <= u64::MAX,
        Record::tokens(records) <= u64::MAX,
    ensures
        ({
            let s = Record::after(records);
            let all = Record::samples(records);
            &&& s.requests_completed == Record::completions(records)
            &&& s.tokens_generated == Record::tokens(records)
            &&& s.start == Record::first_start(records)
            &&& s.ttft == if all.len() <= 10_000 {
                all
            } else {
                all.skip(all.len() - 10_000)
            }
        }),
    decreases records.len(),
{
    if records.len() > 0 {
        let rest = records.drop_last();
        lemma_counts_grow(records);
        lemma_figures(rest);
        let all = Record::samples(rest);
        if let Record::Ttft(nanos) = records.last() {
            let more = all.push(nanos);
            assert(Record::samples(records) == more);
            let kept = if all.len() <= 10_000 {
                all
            } else {
                all.skip(all.len() - 10_000)
            };
            if all.len() >= 10_000 {
                assert(kept.skip(1).push(nanos) =~= more.skip(more.len() - 10_000));
            }
        }
    }
}

/// Counts only grow.
proof fn lemma_counts_grow(records: Seq<Record>)
    requires
        records.len() > 0,
    ensures
        Record::completions(records.drop_last()) <= Record::completions(records),
        Record::tokens(records.drop_last()) <= Record::tokens(records),
{
}

/// A record changes its own figure and no other: a completion adds one to the
/// completions, tokens add to the tokens and to the log, a sample goes to the
/// samples, and the clock is started once.
pub proof fn law_records_do_not_mix(s: MetricsState, now: u128, n: u64, nanos: u128)
    requires
        s.requests_completed < u64::MAX,
        s.tokens_generated + n <= u64::MAX,
    ensures
        ({
            let c = s.with_completion();
            &&& c.requests_completed == s.requests_completed + 1
            &&& c.tokens_generated == s.tokens_generated
            &&& c.ttft == s.ttft && c.start == s.start && c.log == s.log
        }),
        ({
            let t = s.with_tokens(now, n);
            &&& t.tokens_generated == s.tokens_generated + n
            &&& t.requests_completed == s.requests_completed
            &&& t.ttft == s.ttft && t.start == s.start
        }),
        ({
            let m = s.with_ttft(nanos);
            &&& m.requests_completed == s.requests_completed
            &&& m.tokens_generated == s.tokens_generated
            &&& m.start == s.start && m.log == s.log
            &&& m.ttft.len() > 0
            &&& m.ttft.last() == nanos
        }),
        ({
            let b = s.started(now);
            &&& b.start is Some
            &&& s.start is Some ==> b.start == s.start
            &&& s.start is None ==> b.start == Some(now)
            &&& b.requests_completed == s.requests_completed
            &&& b.tokens_generated == s.tokens_generated
            &&& b.ttft == s.ttft && b.log == s.log
        }),
{
}

/// The entries of a log are in the order in which they came.
pub open spec fn in_time_order(log: Seq<(u128, u64)>) -> bool {
    forall|a: int, b: int|
        0 <= a < b < log.len() ==> (#[trigger] log[a]).0 <= (#[trigger] log[b]).0
}

/// The entries of the last 60 seconds before `now`.
pub open spec fn last_minute(log: Seq<(u128, u64)>, now: u128) -> Seq<(u128, u64)> {
    log.filter(|e: (u128, u64)| e.0 + 60_000_000_000 >= now)
}

/// The tokens of a log.
pub open spec fn tokens_of(log: Seq<(u128, u64)>) -> int {
    log.fold_left(0int, |sum: int, e: (u128, u64)| sum + e.1)
}

proof fn lemma_tokens_of(log: Seq<(u128, u64)>)
    ensures
        tokens_of(log) == MetricsState::log_tokens(log),
    decreases log.len(),
{
    if log.len() > 0 {
        lemma_tokens_of(log.drop_last());
    }
}

proof fn lemma_recent_is_last_minute(log: Seq<(u128, u64)>, now: u128)
    requires
        in_time_order(log),
    ensures
        MetricsState::recent(log, now) == last_minute(log, now),
    decreases log.len(),
{
    let fresh = |e: (u128, u64)| e.0 + 60_000_000_000 >= now;
    if log.len() == 0 {
        reveal(Seq::filter);
        assert(MetricsState::recent(log, now) =~= last_minute(log, now));
    } else if log[0].0 + 60_000_000_000 < now {
        let rest = log.skip(1);
        assert forall|a: int, b: int| 0 <= a < b < rest.len() implies (#[trigger] rest[a]).0 <= (
        #[trigger] rest[b]).0 by {
            assert(rest[a] == log[a + 1] && rest[b] == log[b + 1]);
        }
        lemma_recent_is_last_minute(rest, now);
        let one = seq![log[0]];
        assert(log =~= one + rest);
        Seq::filter_distributes_over_add(one, rest, fresh);
        crate::loop_laws::lemma_filter_none(one, fresh);
        assert(Seq::<(u128, u64)>::empty() + rest.filter(fresh) =~= rest.filter(fresh));
        assert(last_minute(log, now) == last_minute(rest, now));
    } else {
        assert forall|i: int| 0 <= i < log.len() implies fresh(#[trigger] log[i]) by {
            if i > 0 {
                assert(log[0].0 <= log[i].0);
            }
        }
        crate::sched_lemmas::lemma_filter_all(log, fresh);
        assert(last_minute(log, now) == log);
    }
}

/// The rolling window is the last minute, no more and no less: recording tokens
/// keeps every entry of the last 60 seconds and drops every older one, and a
/// reader sees the tokens of the entries of the last 60 seconds, over the time from
/// the first to the last of them; nothing, if there are not two.
pub proof fn law_window_is_the_last_minute(s: MetricsState, now: u128, n: u64)
    requires
        s.wf(),
        in_time_order(s.log),
        forall|i: int| 0 <= i < s.log.len() ==> (#[trigger] s.log[i]).0 <= now,
    ensures
        s.with_tokens(now, n).log == last_minute(s.log.push((now, n)), now),
        ({
            let window = last_minute(s.log, now);
            &&& window.len() < 2 ==> s.snapshot(now).tokens_per_sec_rolling == (Rate {
                tokens: 0,
                nanos: 0,
            })
            &&& window.len() >= 2 ==> {
                &&& s.snapshot(now).tokens_per_sec_rolling.tokens == tokens_of(window)
                &&& s.snapshot(now).tokens_per_sec_rolling.nanos == window[window.len() - 1].0
                    - window[0].0
            }
        }),
{
    let more = s.log.push((now, n));
    assert(in_time_order(more));
    lemma_recent_is_last_minute(more, now);
    lemma_recent_is_last_minute(s.log, now);
    let window = last_minute(s.log, now);
    lemma_tokens_of(window);
    crate::metrics::lemma_recent_is_suffix(s.log, now);
    let k = choose|k: int|
        0 <= k <= s.log.len() && MetricsState::recent(s.log, now) == #[trigger] s.log.skip(k);
    crate::metrics::lemma_log_tokens_suffix(s.log, k);
    if window.len() >= 2 {
        assert(window[0] == s.log[k]);
        assert(window[window.len() - 1] == s.log[s.log.len() - 1]);
    }
}

/// A percentile of the samples is the sample at its place when they are put in
/// ascending order, where the place is that fraction of the way from the first to
/// the last, rounded to the nearest; of no samples it is 0. The reported ones are
/// the 50th and the 99th.
pub proof fn law_percentiles_are_samples_at_their_rank(s: MetricsState, now: u128)
    ensures
        s.ttft.len() == 0 ==> s.snapshot(now).ttft_p50 == 0 && s.snapshot(now).ttft_p99 == 0,
        s.ttft.len() > 0 ==> exists|sorted: Seq<u128>, i: int, j: int|
            {
                &&& #[trigger] sorted.to_multiset() == s.ttft.to_multiset()
                &&& forall|a: int, b: int|
                    0 <= a < b < sorted.len() ==> #[trigger] sorted[a] <= #[trigger] sorted[b]
                &&& 0 <= i < sorted.len() && 0 <= j < sorted.len()
                &&& -50 <= (sorted.len() - 1) * 50 - 100 * i < 50
                &&& -50 <= (sorted.len() - 1) * 99 - 100 * j < 50
                &&& s.snapshot(now).ttft_p50 == #[trigger] sorted[i]
                &&& s.snapshot(now).ttft_p99 == #[trigger] sorted[j]
            },
{
    let leq = |a: u128, b: u128| a <= b;
    let sorted = MetricsState::ascending(s.ttft);
    s.ttft.lemma_sort_by_ensures(leq);
    assert(sorted.to_multiset() == s.ttft.to_multiset());
    assert(sorted.len() == s.ttft.len()) by {
        broadcast use vstd::seq_lib::group_to_multiset_ensures;

        assert(sorted.to_multiset().len() == sorted.len());
        assert(s.ttft.to_multiset().len() == s.ttft.len());
    }
    if s.ttft.len() > 0 {
        let len = sorted.len();
        crate::metrics::lemma_rank_in_range(len, 50);
        crate::metrics::lemma_rank_in_range(len, 99);
        let i = MetricsState::rank(len, 50) as int;
        let j = MetricsState::rank(len, 99) as int;
        assert forall|a: int, b: int| 0 <= a < b < sorted.len() implies #[trigger] sorted[a]
            <= #[trigger] sorted[b] by {
            assert(leq(sorted[a], sorted[b]));
        }
        assert(s.snapshot(now).ttft_p50 == sorted[i] && s.snapshot(now).ttft_p99 == sorted[j]);
    }
}

/// The place of a percentile is that fraction of the way from the first to the
/// last sample, rounded to the nearest, halves up, and the percentile is the sample
/// there.
pub proof fn law_percentile_is_at_its_rank(sorted: Seq<u128>, pct: nat)
    requires
        pct <= 100,
    ensures
        sorted.len() == 0 ==> MetricsState::percentile_of(sorted, pct) == 0,
        sorted.len() > 0 ==> exists|i: int|
            {
                &&& 0 <= i < sorted.len()
                &&& -50 <= (sorted.len() - 1) * pct - 100 * i < 50
                &&& MetricsState::percentile_of(sorted, pct) == #[trigger] sorted[i]
            },
{
    if sorted.len() > 0 {
        crate::metrics::lemma_rank_in_range(sorted.len(), pct);
        let i = MetricsState::rank(sorted.len(), pct) as int;
        let x = (sorted.len() - 1) * pct;
        assert(x >= 0) by (nonlinear_arith)
            requires
                x == (sorted.len() - 1) * pct,
                sorted.len() > 0,
        ;
        assert(MetricsState::percentile_of(sorted, pct) == sorted[i]);
    }
}

} // verus!
