use sovereign_os::reservoir::Reservoir;
use std::collections::HashMap;

#[test]
fn keeps_all_when_fewer_than_k() {
    let mut r = Reservoir::new(5, 1);
    r.extend((1..=3).collect());
    assert_eq!(r.samples().len(), 3);
    assert_eq!(r.seen(), 3);
    let mut got = r.into_samples();
    got.sort();
    assert_eq!(got, vec![1, 2, 3]);
}

#[test]
fn keeps_exactly_k_when_equal() {
    let mut r = Reservoir::new(3, 7);
    r.extend((1..=3).collect());
    let mut got = r.into_samples();
    got.sort();
    assert_eq!(got, vec![1, 2, 3]);
}

#[test]
fn caps_at_k_for_a_long_stream() {
    let mut r = Reservoir::new(4, 42);
    r.extend((0..1000).collect());
    assert_eq!(r.samples().len(), 4);
    assert_eq!(r.seen(), 1000);
    assert!(r.samples().iter().all(|&x| (0..1000).contains(&x)));
}

#[test]
fn is_deterministic_for_a_seed() {
    let mut a = Reservoir::new(5, 99);
    let mut b = Reservoir::new(5, 99);
    a.extend((0..500).collect());
    b.extend((0..500).collect());
    assert_eq!(a.samples(), b.samples());
}

#[test]
fn different_seeds_differ() {
    let mut a = Reservoir::new(5, 1);
    let mut b = Reservoir::new(5, 2);
    a.extend((0..500).collect());
    b.extend((0..500).collect());
    assert_ne!(a.samples(), b.samples());
}

#[test]
fn sampling_is_roughly_uniform() {
    let n = 20usize;
    let k = 4usize;
    let trials = 4000usize;
    let mut counts: HashMap<usize, usize> = HashMap::new();
    for seed in 0..trials as u64 {
        let mut r = Reservoir::new(k, seed.wrapping_mul(0x9E37_79B9));
        r.extend((0..n).collect());
        for &x in r.samples() {
            *counts.entry(x).or_insert(0) += 1;
        }
    }
    let expected = (trials * k) as f64 / n as f64;
    for i in 0..n {
        let c = *counts.get(&i).unwrap_or(&0) as f64;
        assert!((c - expected).abs() / expected < 0.25, "item {i}: count {c} vs expected {expected}");
    }
}

#[test]
fn first_k_items_fill_the_reservoir_in_order() {
    let mut r = Reservoir::new(4, 123);
    for x in [7, 8, 9, 10] {
        r.offer(x);
    }
    assert_eq!(r.samples(), &[7, 8, 9, 10]);
    assert_eq!(r.capacity(), 4);
}

#[test]
fn offer_and_extend_agree() {
    let mut a = Reservoir::new(3, 5);
    let mut b = Reservoir::new(3, 5);
    a.extend((0..50).collect());
    for x in 0..50 {
        b.offer(x);
    }
    assert_eq!(a.samples(), b.samples());
    assert_eq!(a.seen(), b.seen());
}
