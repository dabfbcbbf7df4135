use sovereign_os::p2c_balance::{initial_state, next_rand, sample_pair};
use sovereign_os::pagerank::out_edges;
use sovereign_os::repetition_penalty::counts;
use sovereign_os::retry::{after_failure, attempts_allowed, fnv1a_words, should_retry, RetryStep};

#[test]
fn counts_tallies_each_token() {
    let m = counts(&[3, 1, 3, 3, 0]);
    assert_eq!(m.len(), 3);
    assert_eq!(m.get(&3), Some(&3));
    assert_eq!(m.get(&1), Some(&1));
    assert_eq!(m.get(&0), Some(&1));
    assert_eq!(m.get(&2), None);
    assert!(counts(&[]).is_empty());
    assert_eq!(sovereign_os::repetition_penalty::SCHEMA_VERSION, "1.0.0");
}

#[test]
fn fnv1a_words_hashes_little_endian_bytes() {
    assert_eq!(fnv1a_words(&[]), 0xcbf2_9ce4_8422_2325);
    assert_eq!(fnv1a_words(&[0]), 0xa8c7_f832_281a_39c5);
    assert_eq!(fnv1a_words(&[3, 42]), 0xb1a5_fe96_57c6_f54c);
    assert_ne!(fnv1a_words(&[3, 42]), fnv1a_words(&[42, 3]));
    assert_eq!(sovereign_os::retry::SCHEMA_VERSION, "1.0.0");
}

#[test]
fn p2c_sample_pair_draws_two_distinct_backends() {
    let s = initial_state(6);
    assert_eq!(s, 7);
    assert_eq!(next_rand(s), (0x9e37_79b9_7f4a_7c1c, 0x63cb_e1e4_5932_0dd7));
    assert_eq!(sample_pair(s, 5), (0x3c6e_f372_fe94_f831, 2, 0));
    let mut st = s;
    for _ in 0..200 {
        let (ns, a, b) = sample_pair(st, 2);
        assert!(a < 2 && b < 2 && a != b);
        st = ns;
    }
}

#[test]
fn pagerank_out_edges_ignore_out_of_range() {
    let out = out_edges(3, &[(0, 1), (1, 2), (0, 2), (2, 0), (5, 1), (1, 9), (0, 1)]);
    assert_eq!(out, vec![vec![1, 2, 1], vec![2], vec![0]]);
    assert!(out_edges(0, &[(0, 0)]).is_empty());
    assert_eq!(sovereign_os::pagerank::SCHEMA_VERSION, "1.0.0");
}

#[test]
fn should_retry_respects_max_attempts() {
    assert!(should_retry(3, 1));
    assert!(should_retry(3, 2));
    assert!(!should_retry(3, 3));
}

#[test]
fn a_failing_operation_runs_every_allowed_attempt() {
    assert_eq!(attempts_allowed(0), 1);
    assert_eq!(attempts_allowed(4), 4);
    let max = attempts_allowed(3);
    let mut attempt = 1;
    let mut retries = Vec::new();
    while let RetryStep::RetryAfter { retry_index, next_attempt } = after_failure(max, attempt) {
        retries.push(retry_index);
        attempt = next_attempt;
    }
    assert_eq!(attempt, 3);
    assert_eq!(retries, vec![0, 1]);
    assert_eq!(after_failure(1, 1), RetryStep::GiveUp);
}
