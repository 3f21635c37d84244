//! Minimal throughput and latency tracker: the decode tokens of the running
//! batch, over the lifetime and over a rolling window, and the time to the first
//! token (TTFT). Times are nanoseconds.

use std::collections::VecDeque;
use std::time::Instant;
use vstd::prelude::*;

verus! {

/// How many TTFT samples to keep. Older ones are dropped, so that memory stays
/// bounded.
pub const TTFT_WINDOW: usize = 10_000;

/// The rolling window for tokens per second, in nanoseconds: the last 60
/// seconds.
pub const ROLLING_WINDOW_NANOS: u128 = 60_000_000_000;

/// How long ago `origin` was, by `std::time::Instant::elapsed`, in nanoseconds.
/// Nothing is claimed of the result, which depends on when the call is made.
#[verifier::external_body]
fn nanos_since(origin: &Instant) -> u128 {
    origin.elapsed().as_nanos()
}

/// `now` is what the clock that counts from `origin` may read: a result that
/// [`nanos_since`] may give for it. Only a call shows this of a number.
pub closed spec fn clock_may_read(origin: Instant, now: u128) -> bool {
    call_ensures(nanos_since, (&origin,), now)
}

/// Calls a function on `origin`.
fn read_with<F: Fn(&Instant) -> u128>(clock: F, origin: &Instant) -> (now: u128)
    requires
        call_requires(clock, (origin,)),
    ensures
        call_ensures(clock, (origin,), now),
{
    clock(origin)
}

/// Reads the clock that counts from `origin`.
fn read_clock(origin: &Instant) -> (now: u128)
    ensures
        clock_may_read(*origin, now),
{
    read_with(nanos_since, origin)
}

/// Sorts samples with the standard library's slice sort: the vector ends up in
/// ascending order and holds what it held.
#[verifier::external_body]
fn sort_samples(v: &mut Vec<u128>)
    ensures
        forall|i: int, j: int| 0 <= i < j < final(v)@.len() ==> final(v)@[i] <= final(v)@[j],
        final(v)@.to_multiset() == old(v)@.to_multiset(),
{
    v.sort();
}

/// What a tracker has recorded.
#[verifier::ext_equal]
pub struct MetricsState {
    pub tokens_generated: u64,
    pub requests_completed: u64,
    /// The latest TTFT samples, oldest first.
    pub ttft: Seq<u128>,
    pub start: Option<u128>,
    /// When how many tokens came, oldest first.
    pub log: Seq<(u128, u64)>,
}

impl MetricsState {
    pub open spec fn empty() -> MetricsState {
        MetricsState {
            tokens_generated: 0,
            requests_completed: 0,
            ttft: Seq::empty(),
            start: None,
            log: Seq::empty(),
        }
    }

    /// The tokens of a log.
    pub open spec fn log_tokens(log: Seq<(u128, u64)>) -> nat
        decreases log.len(),
    {
        if log.len() == 0 {
            0
        } else {
            MetricsState::log_tokens(log.drop_last()) + log.last().1 as nat
        }
    }

    /// A log without the entries at its front that are older than the rolling
    /// window.
    pub open spec fn recent(log: Seq<(u128, u64)>, now: u128) -> Seq<(u128, u64)>
        decreases log.len(),
    {
        if log.len() > 0 && log[0].0 + ROLLING_WINDOW_NANOS < now {
            MetricsState::recent(log.skip(1), now)
        } else {
            log
        }
    }

    /// The sample buffer is within its bound, and the log counts no token that
    /// the total does not.
    pub open spec fn wf(self) -> bool {
        &&& self.ttft.len() <= TTFT_WINDOW
        &&& MetricsState::log_tokens(self.log) <= self.tokens_generated
    }

    pub open spec fn started(self, now: u128) -> MetricsState {
        MetricsState {
            start: if self.start is Some {
                self.start
            } else {
                Some(now)
            },
            ..self
        }
    }

    pub open spec fn with_tokens(self, now: u128, n: u64) -> MetricsState {
        MetricsState {
            tokens_generated: (self.tokens_generated + n) as u64,
            log: MetricsState::recent(self.log.push((now, n)), now),
            ..self
        }
    }

    pub open spec fn with_completion(self) -> MetricsState {
        MetricsState { requests_completed: (self.requests_completed + 1) as u64, ..self }
    }

    /// One more sample; of a full buffer the oldest goes.
    pub open spec fn with_ttft(self, nanos: u128) -> MetricsState {
        MetricsState {
            ttft: if self.ttft.len() < TTFT_WINDOW {
                self.ttft.push(nanos)
            } else {
                self.ttft.skip(1).push(nanos)
            },
            ..self
        }
    }

    /// The samples in ascending order.
    pub open spec fn ascending(samples: Seq<u128>) -> Seq<u128> {
        samples.sort_by(|a: u128, b: u128| a <= b)
    }

    /// The position of the `pct`-th percentile among `len` samples in order: the
    /// fraction of the last position, rounded to the nearest, halves up.
    pub open spec fn rank(len: nat, pct: nat) -> nat
        recommends
            len > 0,
    {
        (((len - 1) * pct + 50) / 100) as nat
    }

    /// The `pct`-th percentile of samples in ascending order, 0 of none.
    pub open spec fn percentile_of(sorted: Seq<u128>, pct: nat) -> u128 {
        if sorted.len() == 0 {
            0
        } else {
            sorted[MetricsState::rank(sorted.len(), pct) as int]
        }
    }

    /// What a reader at time `now` sees.
    pub open spec fn snapshot(self, now: u128) -> MetricsSnapshot {
        let elapsed = match self.start {
            Some(t) => span(t, now),
            None => 0u128,
        };
        let window = MetricsState::recent(self.log, now);
        let sorted = MetricsState::ascending(self.ttft);
        MetricsSnapshot {
            elapsed,
            tokens_generated: self.tokens_generated,
            requests_completed: self.requests_completed,
            tokens_per_sec: Rate { tokens: self.tokens_generated, nanos: elapsed },
            tokens_per_sec_rolling: if window.len() >= 2 {
                Rate {
                    tokens: MetricsState::log_tokens(window) as u64,
                    nanos: span(window[0].0, window.last().0),
                }
            } else {
                Rate { tokens: 0, nanos: 0 }
            },
            ttft_p50: MetricsState::percentile_of(sorted, 50),
            ttft_p99: MetricsState::percentile_of(sorted, 99),
        }
    }
}

/// The time from `from` to `to`, 0 if `to` comes first.
pub open spec fn span(from: u128, to: u128) -> u128 {
    if from <= to {
        (to - from) as u128
    } else {
        0
    }
}

/// A number of tokens over a span of time. Over no time it stands for a rate of
/// zero.
#[derive(Debug, PartialEq, Eq, Clone, Copy)]
pub struct Rate {
    pub tokens: u64,
    pub nanos: u128,
}

/// What the tracker reports.
#[derive(Debug, PartialEq, Eq, Clone, Copy)]
pub struct MetricsSnapshot {
    pub elapsed: u128,
    pub tokens_generated: u64,
    pub requests_completed: u64,
    /// Lifetime aggregate.
    pub tokens_per_sec: Rate,
    /// Over the rolling window: more useful than the lifetime aggregate when
    /// the server has been idle for any stretch.
    pub tokens_per_sec_rolling: Rate,
    pub ttft_p50: u128,
    pub ttft_p99: u128,
}

/// The tracker. Its clock counts from when it was made.
pub struct Metrics {
    tokens_generated: u64,
    requests_completed: u64,
    ttft_samples: VecDeque<u128>,
    start: Option<u128>,
    token_log: VecDeque<(u128, u64)>,
    origin: Instant,
}

impl View for Metrics {
    type V = MetricsState;

    closed spec fn view(&self) -> MetricsState {
        MetricsState {
            tokens_generated: self.tokens_generated,
            requests_completed: self.requests_completed,
            ttft: self.ttft_samples@,
            start: self.start,
            log: self.token_log@,
        }
    }
}

impl Default for Metrics {
    fn default() -> (m: Self)
        ensures
            m@ == MetricsState::empty(),
            m@.wf(),
            crate::request::clock_may_say(m.origin()),
    {
        Metrics::new()
    }
}

impl Metrics {
    /// When the tracker was made: its clock, which all its times are read from,
    /// counts from there.
    pub closed spec fn origin(&self) -> Instant {
        self.origin
    }

    /// A tracker with nothing recorded.
    pub fn new() -> (m: Self)
        ensures
            m@ == MetricsState::empty(),
            m@.wf(),
            crate::request::clock_may_say(m.origin()),
    {
        Metrics {
            tokens_generated: 0,
            requests_completed: 0,
            ttft_samples: VecDeque::new(),
            start: None,
            token_log: VecDeque::new(),
            origin: crate::request::read_now(),
        }
    }

    /// The tokens recorded so far.
    pub fn tokens_generated(&self) -> (n: u64)
        ensures
            n == self@.tokens_generated,
    {
        self.tokens_generated
    }

    /// The completions recorded so far.
    pub fn requests_completed(&self) -> (n: u64)
        ensures
            n == self@.requests_completed,
    {
        self.requests_completed
    }

    /// Start the lifetime clock, unless it runs.
    pub fn mark_start(&mut self)
        ensures
            final(self).origin() == old(self).origin(),
            exists|now: u128|
                clock_may_read(old(self).origin(), now) && final(self)@ == #[trigger] old(
                    self,
                )@.started(now),
    {
        let now = read_clock(&self.origin);
        self.mark_start_at(now);
    }

    /// Start the lifetime clock at `now`, unless it runs.
    pub fn mark_start_at(&mut self, now: u128)
        ensures
            final(self).origin() == old(self).origin(),
            final(self)@.start == if old(self)@.start is Some {
                old(self)@.start
            } else {
                Some(now)
            },
            final(self)@ == old(self)@.started(now),
    {
        if self.start.is_none() {
            self.start = Some(now);
        }
    }

    /// Count `n` tokens that came just now.
    pub fn record_tokens(&mut self, n: u64)
        requires
            old(self)@.wf(),
            old(self)@.tokens_generated + n <= u64::MAX,
        ensures
            final(self)@.wf(),
            final(self).origin() == old(self).origin(),
            final(self)@.tokens_generated == old(self)@.tokens_generated + n,
            exists|now: u128|
                clock_may_read(old(self).origin(), now) && final(self)@ == #[trigger] old(
                    self,
                )@.with_tokens(now, n),
    {
        let now = read_clock(&self.origin);
        self.record_tokens_at(now, n);
    }

    /// Count `n` tokens that came at `now`, and forget what the rolling window
    /// has left behind.
    pub fn record_tokens_at(&mut self, now: u128, n: u64)
        requires
            old(self)@.wf(),
            old(self)@.tokens_generated + n <= u64::MAX,
        ensures
            final(self)@.wf(),
            final(self).origin() == old(self).origin(),
            final(self)@.tokens_generated == old(self)@.tokens_generated + n,
            final(self)@ == old(self)@.with_tokens(now, n),
    {
        let ghost before = self@;
        self.tokens_generated = self.tokens_generated + n;
        self.token_log.push_back((now, n));
        let ghost whole = before.log.push((now, n));
        assert(whole.drop_last() =~= before.log);
        while self.token_log.len() > 0 && now >= ROLLING_WINDOW_NANOS && self.token_log[0].0 < now
            - ROLLING_WINDOW_NANOS
            invariant
                self.origin == old(self).origin,
                self@ == (MetricsState {
                    tokens_generated: (before.tokens_generated + n) as u64,
                    log: self.token_log@,
                    ..before
                }),
                MetricsState::recent(self.token_log@, now) == MetricsState::recent(whole, now),
                MetricsState::log_tokens(self.token_log@) <= self.tokens_generated,
            decreases self.token_log@.len(),
        {
            proof {
                lemma_log_tokens_skip(self.token_log@);
                assert(self.token_log@.skip(1) =~= self.token_log@.subrange(
                    1,
                    self.token_log@.len() as int,
                ));
            }
            self.token_log.pop_front();
        }
    }

    /// Count one finished request.
    pub fn record_completion(&mut self)
        requires
            old(self)@.requests_completed < u64::MAX,
        ensures
            final(self).origin() == old(self).origin(),
            final(self)@.requests_completed == old(self)@.requests_completed + 1,
            final(self)@ == old(self)@.with_completion(),
    {
        self.requests_completed = self.requests_completed + 1;
    }

    /// Keep a TTFT sample.
    pub fn record_ttft(&mut self, nanos: u128)
        requires
            old(self)@.wf(),
        ensures
            final(self)@.wf(),
            final(self).origin() == old(self).origin(),
            final(self)@.ttft.len() > 0 && final(self)@.ttft.last() == nanos,
            final(self)@ == old(self)@.with_ttft(nanos),
    {
        let ghost before = self@;
        if self.ttft_samples.len() >= TTFT_WINDOW {
            self.ttft_samples.pop_front();
        }
        self.ttft_samples.push_back(nanos);
        assert(self@.ttft =~= before.with_ttft(nanos).ttft);
    }

    /// The figures as of now.
    pub fn snapshot(&self) -> (s: MetricsSnapshot)
        requires
            self@.wf(),
        ensures
            s.requests_completed == self@.requests_completed,
            s.tokens_generated == self@.tokens_generated,
            exists|now: u128|
                clock_may_read(self.origin(), now) && s == #[trigger] self@.snapshot(now),
    {
        let now = read_clock(&self.origin);
        self.snapshot_at(now)
    }

    /// The figures as of `now`.
    pub fn snapshot_at(&self, now: u128) -> (s: MetricsSnapshot)
        requires
            self@.wf(),
        ensures
            s.requests_completed == self@.requests_completed,
            s.tokens_generated == self@.tokens_generated,
            s == self@.snapshot(now),
    {
        let elapsed = match self.start {
            Some(t) => now.saturating_sub(t),
            None => 0,
        };
        let tokens_per_sec = Rate { tokens: self.tokens_generated, nanos: elapsed };
        let from = self.window_start(now);
        let tokens_per_sec_rolling = if self.token_log.len() - from >= 2 {
            let last = self.token_log.len() - 1;
            Rate {
                tokens: self.window_tokens(from),
                nanos: self.token_log[last].0.saturating_sub(self.token_log[from].0),
            }
        } else {
            Rate { tokens: 0, nanos: 0 }
        };
        let mut samples: Vec<u128> = Vec::with_capacity(self.ttft_samples.len());
        let mut i: usize = 0;
        while i < self.ttft_samples.len()
            invariant
                i <= self.ttft_samples@.len(),
                samples@ == self.ttft_samples@.take(i as int),
            decreases self.ttft_samples@.len() - i,
        {
            samples.push(self.ttft_samples[i]);
            assert(samples@ =~= self.ttft_samples@.take(i + 1));
            i = i + 1;
        }
        assert(samples@ =~= self.ttft_samples@);
        let sorted = sorted_samples(samples);
        MetricsSnapshot {
            elapsed,
            tokens_generated: self.tokens_generated,
            requests_completed: self.requests_completed,
            tokens_per_sec,
            tokens_per_sec_rolling,
            ttft_p50: percentile(&sorted, 50),
            ttft_p99: percentile(&sorted, 99),
        }
    }

    /// Where the rolling window begins in the log, for a reader at `now`. What
    /// came before it is too old to count, whether or not anything was recorded
    /// since.
    fn window_start(&self, now: u128) -> (from: usize)
        ensures
            from <= self@.log.len(),
            self@.log.skip(from as int) == MetricsState::recent(self@.log, now),
    {
        let ghost log = self.token_log@;
        let mut from: usize = 0;
        assert(log.skip(0) =~= log);
        while from < self.token_log.len() && now >= ROLLING_WINDOW_NANOS && self.token_log[from].0
            < now - ROLLING_WINDOW_NANOS
            invariant
                from <= log.len(),
                log == self.token_log@,
                MetricsState::recent(log.skip(from as int), now) == MetricsState::recent(log, now),
            decreases log.len() - from,
        {
            assert(log.skip(from as int).skip(1) =~= log.skip(from + 1));
            from = from + 1;
        }
        from
    }

    /// The tokens of the log from position `from` on.
    fn window_tokens(&self, from: usize) -> (sum: u64)
        requires
            self@.wf(),
            from <= self@.log.len(),
        ensures
            sum == MetricsState::log_tokens(self@.log.skip(from as int)),
    {
        let ghost window = self.token_log@.skip(from as int);
        let mut sum: u64 = 0;
        let mut i: usize = from;
        proof {
            assert(window.take(0) =~= Seq::<(u128, u64)>::empty());
            lemma_log_tokens_suffix(self.token_log@, from as int);
        }
        while i < self.token_log.len()
            invariant
                from <= i <= self.token_log@.len(),
                window == self.token_log@.skip(from as int),
                MetricsState::log_tokens(window) <= u64::MAX,
                sum == MetricsState::log_tokens(window.take(i - from)),
            decreases self.token_log@.len() - i,
        {
            proof {
                assert(window.take(i - from + 1).drop_last() =~= window.take(i - from));
                lemma_log_tokens_prefix(window, i - from + 1);
            }
            sum = sum + self.token_log[i].1;
            i = i + 1;
        }
        assert(window.take(i - from) =~= window);
        sum
    }
}

impl MetricsSnapshot {
    /// The median TTFT in whole milliseconds.
    pub fn ttft_p50_ms(&self) -> (ms: u128)
        ensures
            ms == self.ttft_p50 / 1_000_000,
    {
        self.ttft_p50 / 1_000_000
    }

    /// The 99th percentile TTFT in whole milliseconds.
    pub fn ttft_p99_ms(&self) -> (ms: u128)
        ensures
            ms == self.ttft_p99 / 1_000_000,
    {
        self.ttft_p99 / 1_000_000
    }
}

/// Samples in ascending order.
pub fn sorted_samples(samples: Vec<u128>) -> (sorted: Vec<u128>)
    ensures
        sorted@ == MetricsState::ascending(samples@),
{
    let mut sorted = samples;
    sort_samples(&mut sorted);
    proof {
        let leq = |a: u128, b: u128| a <= b;
        samples@.lemma_sort_by_ensures(leq);
        vstd::seq_lib::lemma_sorted_unique(sorted@, MetricsState::ascending(samples@), leq);
    }
    sorted
}

/// The `pct`-th percentile of samples in ascending order, 0 of none.
pub fn percentile(sorted: &Vec<u128>, pct: u32) -> (r: u128)
    requires
        pct <= 100,
    ensures
        r == MetricsState::percentile_of(sorted@, pct as nat),
{
    if sorted.len() == 0 {
        return 0;
    }
    let last = sorted.len() - 1;
    proof {
        lemma_rank_in_range(sorted@.len(), pct as nat);
        assert(last * pct <= last * 100) by (nonlinear_arith)
            requires
                pct <= 100,
        ;
    }
    let rank = (last as u128 * pct as u128 + 50) / 100;
    sorted[rank as usize]
}

/// A percentile's rank is a position.
pub proof fn lemma_rank_in_range(len: nat, pct: nat)
    requires
        len > 0,
        pct <= 100,
    ensures
        MetricsState::rank(len, pct) < len,
{
    assert((len - 1) * pct <= (len - 1) * 100) by (nonlinear_arith)
        requires
            len > 0,
            pct <= 100,
    ;
}

proof fn lemma_log_tokens_skip(log: Seq<(u128, u64)>)
    requires
        log.len() > 0,
    ensures
        MetricsState::log_tokens(log) == log[0].1 + MetricsState::log_tokens(log.skip(1)),
    decreases log.len(),
{
    if log.len() == 1 {
        assert(log.drop_last() =~= Seq::<(u128, u64)>::empty());
        assert(log.skip(1) =~= Seq::<(u128, u64)>::empty());
    } else {
        lemma_log_tokens_skip(log.drop_last());
        assert(log.drop_last().skip(1) =~= log.skip(1).drop_last());
    }
}

proof fn lemma_log_tokens_prefix(log: Seq<(u128, u64)>, k: int)
    requires
        0 <= k <= log.len(),
    ensures
        MetricsState::log_tokens(log.take(k)) <= MetricsState::log_tokens(log),
    decreases log.len() - k,
{
    if k == log.len() {
        assert(log.take(k) =~= log);
    } else {
        lemma_log_tokens_prefix(log, k + 1);
        assert(log.take(k + 1).drop_last() =~= log.take(k));
    }
}

pub proof fn lemma_log_tokens_suffix(log: Seq<(u128, u64)>, k: int)
    requires
        0 <= k <= log.len(),
    ensures
        MetricsState::log_tokens(log.skip(k)) <= MetricsState::log_tokens(log),
    decreases k,
{
    if k == 0 {
        assert(log.skip(k) =~= log);
    } else {
        lemma_log_tokens_suffix(log, k - 1);
        lemma_log_tokens_skip(log.skip(k - 1));
        assert(log.skip(k - 1).skip(1) =~= log.skip(k));
    }
}

/// The rolling window holds recent counts only: if tokens were recorded in the
/// order they came, none that is left is older than the window.
pub proof fn law_window_is_recent(s: MetricsState, now: u128, n: u64, i: int)
    requires
        forall|a: int, b: int|
            0 <= a < b < s.log.len() ==> (#[trigger] s.log[a]).0 <= (#[trigger] s.log[b]).0,
        forall|a: int| 0 <= a < s.log.len() ==> (#[trigger] s.log[a]).0 <= now,
        0 <= i < s.with_tokens(now, n).log.len(),
    ensures
        now - s.with_tokens(now, n).log[i].0 <= ROLLING_WINDOW_NANOS,
{
    lemma_recent_of_ordered(s.log.push((now, n)), now, i);
}

proof fn lemma_recent_of_ordered(log: Seq<(u128, u64)>, now: u128, i: int)
    requires
        forall|a: int, b: int|
            0 <= a < b < log.len() ==> (#[trigger] log[a]).0 <= (#[trigger] log[b]).0,
        0 <= i < MetricsState::recent(log, now).len(),
    ensures
        now - MetricsState::recent(log, now)[i].0 <= ROLLING_WINDOW_NANOS,
    decreases log.len(),
{
    if log.len() > 0 && log[0].0 + ROLLING_WINDOW_NANOS < now {
        lemma_recent_of_ordered(log.skip(1), now, i);
    } else if i > 0 {
        assert(log[0].0 <= log[i].0);
    }
}

/// What was recorded just now is always in the rolling window.
pub proof fn law_window_keeps_latest(s: MetricsState, now: u128, n: u64)
    ensures
        s.with_tokens(now, n).log.len() > 0,
        s.with_tokens(now, n).log.last() == (now, n),
{
    lemma_recent_keeps_last(s.log.push((now, n)), now);
}

proof fn lemma_recent_keeps_last(log: Seq<(u128, u64)>, now: u128)
    requires
        log.len() > 0,
        log.last().0 == now,
    ensures
        MetricsState::recent(log, now).len() > 0,
        MetricsState::recent(log, now).last() == log.last(),
    decreases log.len(),
{
    if log[0].0 + ROLLING_WINDOW_NANOS < now {
        lemma_recent_keeps_last(log.skip(1), now);
    }
}

/// A tracker that recorded no token reports a rate of zero, over its lifetime
/// and over the window.
pub proof fn law_idle_rates_are_zero(s: MetricsState, now: u128)
    requires
        s.wf(),
        s.tokens_generated == 0,
    ensures
        s.snapshot(now).tokens_per_sec.tokens == 0,
        s.snapshot(now).tokens_per_sec_rolling.tokens == 0,
{
    lemma_recent_is_suffix(s.log, now);
    let k = choose|k: int|
        0 <= k <= s.log.len() && MetricsState::recent(s.log, now) == #[trigger] s.log.skip(k);
    lemma_log_tokens_suffix(s.log, k);
}

/// The rolling rate is never stale: once everything recorded is older than the
/// window, it is zero.
pub proof fn law_rolling_rate_not_stale(s: MetricsState, now: u128)
    requires
        forall|i: int|
            0 <= i < s.log.len() ==> (#[trigger] s.log[i]).0 + ROLLING_WINDOW_NANOS < now,
    ensures
        s.snapshot(now).tokens_per_sec_rolling == (Rate { tokens: 0, nanos: 0 }),
{
    lemma_recent_of_old(s.log, now);
}

proof fn lemma_recent_of_old(log: Seq<(u128, u64)>, now: u128)
    requires
        forall|i: int|
            0 <= i < log.len() ==> (#[trigger] log[i]).0 + ROLLING_WINDOW_NANOS < now,
    ensures
        MetricsState::recent(log, now).len() == 0,
    decreases log.len(),
{
    if log.len() > 0 {
        lemma_recent_of_old(log.skip(1), now);
    }
}

pub proof fn lemma_recent_is_suffix(log: Seq<(u128, u64)>, now: u128)
    ensures
        exists|k: int|
            0 <= k <= log.len() && MetricsState::recent(log, now) == #[trigger] log.skip(k),
    decreases log.len(),
{
    if log.len() > 0 && log[0].0 + ROLLING_WINDOW_NANOS < now {
        lemma_recent_is_suffix(log.skip(1), now);
        let k = choose|k: int|
            0 <= k <= log.len() - 1 && MetricsState::recent(log.skip(1), now)
                == #[trigger] log.skip(1).skip(k);
        assert(log.skip(1).skip(k) =~= log.skip(k + 1));
    } else {
        assert(log.skip(0) =~= log);
    }
}

/// Of the same samples, a higher percentile is no lower: the median TTFT is at
/// most the 99th percentile.
pub proof fn law_percentiles_ordered(samples: Seq<u128>, low: nat, high: nat)
    requires
        low <= high <= 100,
    ensures
        MetricsState::percentile_of(MetricsState::ascending(samples), low)
            <= MetricsState::percentile_of(MetricsState::ascending(samples), high),
{
    let leq = |a: u128, b: u128| a <= b;
    let sorted = MetricsState::ascending(samples);
    samples.lemma_sort_by_ensures(leq);
    if sorted.len() > 0 {
        let len = sorted.len();
        lemma_rank_in_range(len, low);
        lemma_rank_in_range(len, high);
        let i = MetricsState::rank(len, low) as int;
        let j = MetricsState::rank(len, high) as int;
        assert((len - 1) * low <= (len - 1) * high) by (nonlinear_arith)
            requires
                len > 0,
                low <= high,
        ;
        if i < j {
            assert(leq(sorted[i], sorted[j]));
        }
    }
}

} // verus!
