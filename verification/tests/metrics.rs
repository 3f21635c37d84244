use iron_batch::metrics::{percentile, sorted_samples, Metrics, Rate, TTFT_WINDOW};

const SEC: u128 = 1_000_000_000;

fn per_sec(rate: Rate) -> f64 {
    if rate.nanos == 0 {
        0.0
    } else {
        rate.tokens as f64 / (rate.nanos as f64 / 1e9)
    }
}

/// Verify the rolling tok/s metric doesn't report stale numbers by checking
/// that it stays at 0 when no tokens have been recorded.
#[test]
fn metrics_rolling_toks_zero_on_idle() {
    let mut m = Metrics::new();
    m.mark_start();
    let snap = m.snapshot();
    assert_eq!(per_sec(snap.tokens_per_sec_rolling), 0.0);
    assert_eq!(per_sec(snap.tokens_per_sec), 0.0);
}

#[test]
fn empty_tracker_reports_nothing() {
    let snap = Metrics::default().snapshot_at(5 * SEC);
    assert_eq!(snap.elapsed, 0);
    assert_eq!(snap.tokens_generated, 0);
    assert_eq!(snap.requests_completed, 0);
    assert_eq!(snap.ttft_p50, 0);
    assert_eq!(snap.ttft_p99, 0);
    assert_eq!(snap.tokens_per_sec_rolling, Rate { tokens: 0, nanos: 0 });
}

#[test]
fn lifetime_rate_is_tokens_over_elapsed() {
    let mut m = Metrics::new();
    m.mark_start_at(2 * SEC);
    m.mark_start_at(9 * SEC); // already running
    m.record_tokens_at(3 * SEC, 30);
    m.record_tokens_at(4 * SEC, 10);
    m.record_completion();
    let snap = m.snapshot_at(12 * SEC);
    assert_eq!(snap.elapsed, 10 * SEC);
    assert_eq!(snap.tokens_generated, 40);
    assert_eq!(m.tokens_generated(), 40);
    assert_eq!(snap.requests_completed, 1);
    assert_eq!(m.requests_completed(), 1);
    assert_eq!(per_sec(snap.tokens_per_sec), 4.0);
    // both entries are in the window: 40 tokens in one second
    assert_eq!(per_sec(snap.tokens_per_sec_rolling), 40.0);
}

#[test]
fn window_forgets_what_is_older_than_a_minute() {
    let mut m = Metrics::new();
    m.record_tokens_at(0, 1000);
    m.record_tokens_at(10 * SEC, 10);
    m.record_tokens_at(60 * SEC, 20);
    // exactly 60 s old is still in
    assert_eq!(
        m.snapshot_at(60 * SEC).tokens_per_sec_rolling,
        Rate { tokens: 1030, nanos: 60 * SEC }
    );
    m.record_tokens_at(60 * SEC + 1, 30);
    assert_eq!(
        m.snapshot_at(60 * SEC + 1).tokens_per_sec_rolling,
        Rate { tokens: 60, nanos: 50 * SEC + 1 }
    );
    assert_eq!(m.tokens_generated(), 1060);
}

#[test]
fn rolling_rate_is_not_stale_after_an_idle_stretch() {
    let mut m = Metrics::new();
    m.record_tokens_at(SEC, 100);
    m.record_tokens_at(2 * SEC, 100);
    assert_eq!(per_sec(m.snapshot_at(3 * SEC).tokens_per_sec_rolling), 200.0);
    assert_eq!(per_sec(m.snapshot_at(600 * SEC).tokens_per_sec_rolling), 0.0);
}

#[test]
fn single_entry_has_no_rolling_rate() {
    let mut m = Metrics::new();
    m.record_tokens_at(SEC, 100);
    assert_eq!(m.snapshot_at(SEC).tokens_per_sec_rolling, Rate { tokens: 0, nanos: 0 });
}

#[test]
fn clock_driven_calls_record() {
    let mut m = Metrics::new();
    m.mark_start();
    m.record_tokens(5);
    m.record_tokens(7);
    let snap = m.snapshot();
    assert_eq!(snap.tokens_generated, 12);
    assert_eq!(snap.tokens_per_sec.tokens, 12);
    assert_eq!(snap.tokens_per_sec_rolling.tokens, 12);
    assert!(snap.tokens_per_sec_rolling.nanos <= snap.elapsed);
}

#[test]
fn percentiles_of_recorded_samples() {
    let mut m = Metrics::new();
    for ms in [30u128, 10, 20, 50, 40] {
        m.record_ttft(ms * 1_000_000 + 999_999);
    }
    let snap = m.snapshot_at(0);
    assert_eq!(snap.ttft_p50, 30_999_999);
    assert_eq!(snap.ttft_p99, 50_999_999);
    assert_eq!(snap.ttft_p50_ms(), 30);
    assert_eq!(snap.ttft_p99_ms(), 50);
    assert!(snap.ttft_p50 <= snap.ttft_p99);
}

#[test]
fn ttft_window_drops_the_oldest() {
    let mut m = Metrics::new();
    m.record_ttft(7); // pushed out by the last of the following
    for _ in 0..TTFT_WINDOW {
        m.record_ttft(100);
    }
    let snap = m.snapshot_at(0);
    assert_eq!(snap.ttft_p50, 100);
    let mut sorted: Vec<u128> = Vec::new();
    for _ in 0..TTFT_WINDOW {
        sorted.push(100);
    }
    assert_eq!(percentile(&sorted, 0), 100);
}

#[test]
fn samples_are_sorted() {
    assert_eq!(sorted_samples(vec![3, 1, 2, 1]), vec![1, 1, 2, 3]);
    assert_eq!(sorted_samples(vec![]), Vec::<u128>::new());
}

#[test]
fn percentile_of_none_is_zero() {
    assert_eq!(percentile(&vec![], 50), 0);
    assert_eq!(percentile(&vec![4], 99), 4);
    assert_eq!(percentile(&vec![4, 8], 50), 8); // a half rounds up
    assert_eq!(percentile(&vec![4, 8, 9], 100), 9);
}

/// The rank agrees with rounding the fraction of the last position in floating
/// point, for every number of samples that is kept.
#[test]
fn percentile_rank_rounds_to_nearest() {
    let mut sorted: Vec<u128> = Vec::new();
    for len in 1..(TTFT_WINDOW + 1) {
        sorted.push((len - 1) as u128);
        for (pct, p) in [(50u32, 0.50f64), (99, 0.99)] {
            let idx = ((len as f64 - 1.0) * p).round() as usize;
            assert_eq!(percentile(&sorted, pct), idx as u128);
        }
    }
}
