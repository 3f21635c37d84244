use iron_batch::backend::{
    Advance, BatchRequest, BatchResponse, MockBackend, RealBackend, BATCH_SIZE, HISTORY_CAP,
};

fn answer(token_ids: Vec<u32>, eos: bool) -> Option<BatchResponse> {
    Some(BatchResponse { token_ids, eos })
}

fn refill_of(a: Advance) -> BatchRequest {
    match a {
        Advance::Refill(r) => r,
        Advance::Served(_) => panic!("expected a refill"),
    }
}

#[test]
fn mock_draws_follow_xorshift() {
    let mut b = MockBackend::new();
    let mut x: u64 = 5 ^ 0x9E3779B97F4A7C15;
    for _ in 0..4 {
        x ^= x << 13;
        x ^= x >> 7;
        x ^= x << 17;
        assert_eq!(b.next_rand(&5), x);
    }
}

#[test]
fn mock_draw_values() {
    let mut b = MockBackend::new();
    // the one id whose seed is zero is stuck there
    assert_eq!(b.next_rand(&0x9E3779B97F4A7C15), 0);
    assert_eq!(b.next_rand(&0x9E3779B97F4A7C15), 0);
    // a seed of 1: 1 -> 0x2001 -> 0x2041 -> 0x40822041
    assert_eq!(b.next_rand(&(1 ^ 0x9E3779B97F4A7C15)), 0x4082_2041);
}

#[test]
fn mock_sequences_are_independent_and_forgettable() {
    let mut b = MockBackend::new();
    let first = b.next_rand(&1);
    let other = b.next_rand(&2);
    assert_ne!(first, other);
    assert_ne!(b.next_rand(&1), first);
    b.free_seq(&1);
    assert_eq!(b.next_rand(&1), first);
}

#[test]
fn mock_draws_do_not_depend_on_other_sequences() {
    let mut alone = MockBackend::new();
    let mut busy = MockBackend::new();
    for k in 0..20u64 {
        busy.next_rand(&(k + 2));
        busy.free_seq(&(k + 1000));
        assert_eq!(alone.next_rand(&1), busy.next_rand(&1));
    }
    alone.free_seq(&1);
    assert_eq!(alone.next_rand(&1), MockBackend::new().next_rand(&1));
}

#[test]
fn mock_lets_the_draw_decide() {
    let mut draws = MockBackend::new();
    let mut mock = MockBackend::new();
    for _ in 0..20 {
        let draw = draws.next_rand(&7);
        assert!(mock.advance_token(&7, |x| x == draw));
        assert_eq!(draws.next_rand(&7) % 2 == 0, mock.advance_token(&7, |x| x % 2 == 0));
    }
}

#[test]
fn url_is_under_the_endpoint() {
    let b = RealBackend::new("http://host:1".to_string(), vec![]);
    assert_eq!(b.refill_url(), "http://host:1/generate_batch");
}

#[test]
fn tokens_are_fetched_in_batches_and_served_in_order() {
    let mut b = RealBackend::new(String::new(), vec![7, 8]);
    let r = refill_of(b.advance_token(&1));
    assert_eq!(r.token_ids, vec![7, 8]);
    assert_eq!(r.num_tokens, BATCH_SIZE);
    assert_eq!(BATCH_SIZE, 16);
    assert!(!b.refill(&1, answer(vec![10, 11, 12], false))); // serves 10
    assert_eq!(b.advance_token(&1), Advance::Served(false)); // 11
    assert_eq!(b.advance_token(&1), Advance::Served(false)); // 12
    let r = refill_of(b.advance_token(&1));
    assert_eq!(r.token_ids, vec![7, 8, 10, 11, 12]);
}

#[test]
fn end_comes_with_the_last_token_and_stays() {
    let mut b = RealBackend::new(String::new(), vec![]);
    refill_of(b.advance_token(&1));
    assert!(!b.refill(&1, answer(vec![10, 11], true)));
    assert_eq!(b.advance_token(&1), Advance::Served(true));
    assert_eq!(b.advance_token(&1), Advance::Served(true));
    b.free_seq(&1);
    refill_of(b.advance_token(&1));
}

#[test]
fn single_token_batch_that_ends() {
    let mut b = RealBackend::new(String::new(), vec![]);
    refill_of(b.advance_token(&1));
    assert!(b.refill(&1, answer(vec![10], true)));
}

#[test]
fn empty_batch_serves_nothing() {
    let mut b = RealBackend::new(String::new(), vec![]);
    refill_of(b.advance_token(&1));
    assert!(!b.refill(&1, answer(vec![], false)));
    refill_of(b.advance_token(&1));
    assert!(!b.refill(&1, answer(vec![], true)));
    assert_eq!(b.advance_token(&1), Advance::Served(true));
}

#[test]
fn failed_fetch_ends_the_sequence() {
    let mut b = RealBackend::new(String::new(), vec![3]);
    refill_of(b.advance_token(&1));
    assert!(b.refill(&1, None));
    // nothing was buffered: the next call fetches again
    assert_eq!(refill_of(b.advance_token(&1)).token_ids, vec![3]);
}

#[test]
fn history_is_a_sliding_window() {
    let mut b = RealBackend::new(String::new(), vec![]);
    refill_of(b.advance_token(&1));
    let all: Vec<u32> = (0..600).collect();
    b.refill(&1, answer(all.clone(), false));
    for _ in 0..599 {
        assert_eq!(b.advance_token(&1), Advance::Served(false));
    }
    let r = refill_of(b.advance_token(&1));
    assert_eq!(r.token_ids.len(), HISTORY_CAP);
    assert_eq!(r.token_ids, all[600 - HISTORY_CAP..].to_vec());
}

#[test]
fn long_prompt_is_sent_up_to_the_cap() {
    let prompt: Vec<u32> = (0..1000).collect();
    let mut b = RealBackend::new(String::new(), prompt);
    let r = refill_of(b.advance_token(&1));
    assert_eq!(r.token_ids, (488..1000).collect::<Vec<u32>>());
}
