use sovereign_os::prompt_compress::total_key_of;
use sovereign_os::rendezvous_hash::{hash, NodeSet};
use std::collections::HashMap;

fn add(r: &mut NodeSet, id: &str, weight: f64) {
    let weight = if weight.is_finite() && weight > 0.0 { weight } else { 1.0 };
    r.add_node(id.to_string(), weight.to_bits());
}

fn ring(ids: &[&str]) -> NodeSet {
    let mut r = NodeSet::new();
    for &id in ids {
        add(&mut r, id, 1.0);
    }
    r
}

fn score_keys(r: &NodeSet, key: &[u8]) -> Vec<i64> {
    r.entries()
        .iter()
        .map(|(id, w)| {
            let h = hash(id, key);
            let u = ((h >> 11) as f64 + 1.0) / ((1u64 << 53) as f64 + 1.0);
            total_key_of((f64::from_bits(*w) / -u.ln()).to_bits())
        })
        .collect()
}

fn select_str(r: &NodeSet, key: &str) -> Option<String> {
    r.select(&score_keys(r, key.as_bytes()))
}

#[test]
fn empty_selects_none() {
    let r = NodeSet::new();
    assert!(r.select(&score_keys(&r, b"key")).is_none());
}

#[test]
fn single_node_always_selected() {
    let r = ring(&["a"]);
    for k in ["x", "y", "z"] {
        assert_eq!(select_str(&r, k).as_deref(), Some("a"));
    }
}

#[test]
fn selection_is_deterministic() {
    let r = ring(&["a", "b", "c", "d"]);
    let first = select_str(&r, "hello").unwrap();
    for _ in 0..5 {
        assert_eq!(select_str(&r, "hello").as_deref(), Some(first.as_str()));
    }
}

#[test]
fn distribution_is_roughly_even() {
    let r = ring(&["a", "b", "c", "d", "e"]);
    let mut counts: HashMap<String, u32> = HashMap::new();
    for i in 0..50_000u32 {
        let key = format!("key{i}");
        *counts.entry(select_str(&r, &key).unwrap()).or_insert(0) += 1;
    }
    let expected = 50_000.0 / 5.0;
    for (node, &c) in &counts {
        let dev = (c as f64 - expected).abs() / expected;
        assert!(dev < 0.1, "node {node} got {c}, dev {dev}");
    }
}

#[test]
fn weights_bias_distribution() {
    let mut r = NodeSet::new();
    add(&mut r, "small", 1.0);
    add(&mut r, "big", 4.0);
    let mut big = 0u32;
    let mut small = 0u32;
    for i in 0..50_000u32 {
        match select_str(&r, &format!("k{i}")).unwrap().as_str() {
            "big" => big += 1,
            _ => small += 1,
        }
    }
    let ratio = big as f64 / small as f64;
    assert!((3.0..5.0).contains(&ratio), "ratio {ratio} (big {big} small {small})");
}

#[test]
fn removing_a_node_only_moves_its_keys() {
    let r = ring(&["a", "b", "c", "d", "e"]);
    let keys: Vec<String> = (0..20_000).map(|i| format!("key{i}")).collect();
    let before: HashMap<&str, String> = keys.iter().map(|k| (k.as_str(), select_str(&r, k).unwrap())).collect();

    let mut r2 = ring(&["a", "b", "c", "d", "e"]);
    assert!(r2.remove_node("c"));

    for k in &keys {
        let new = select_str(&r2, k).unwrap();
        let old = &before[k.as_str()];
        if old == "c" {
            assert_ne!(new, "c");
        } else {
            assert_eq!(&new, old, "key {k} moved unexpectedly");
        }
    }
}

#[test]
fn adding_a_node_only_steals_a_fair_share() {
    let r = ring(&["a", "b", "c", "d"]);
    let keys: Vec<String> = (0..20_000).map(|i| format!("k{i}")).collect();
    let before: HashMap<&str, String> = keys.iter().map(|k| (k.as_str(), select_str(&r, k).unwrap())).collect();

    let mut r2 = ring(&["a", "b", "c", "d"]);
    add(&mut r2, "e", 1.0);

    let mut moved = 0;
    for k in &keys {
        let new = select_str(&r2, k).unwrap();
        if new != before[k.as_str()] {
            moved += 1;
            assert_eq!(new, "e", "key {k} moved to a node other than the new one");
        }
    }
    let frac = moved as f64 / keys.len() as f64;
    assert!((0.12..0.28).contains(&frac), "moved fraction {frac}");
}

#[test]
fn update_weight_in_place() {
    let mut r = NodeSet::new();
    add(&mut r, "a", 1.0);
    add(&mut r, "a", 5.0);
    assert_eq!(r.len(), 1);
    assert_eq!(r.entries(), vec![("a".to_string(), 5.0f64.to_bits())]);
}

#[test]
fn node_set_keeps_order_and_removes_by_id() {
    let mut r = ring(&["x", "y", "z"]);
    assert_eq!(r.nodes(), vec!["x".to_string(), "y".to_string(), "z".to_string()]);
    assert!(!r.remove_node("w"));
    assert!(r.remove_node("y"));
    assert!(!r.remove_node("y"));
    assert_eq!(r.nodes(), vec!["x".to_string(), "z".to_string()]);
    assert!(!r.is_empty());
}

#[test]
fn ties_go_to_the_smaller_id() {
    let r = ring(&["b", "a", "c"]);
    assert_eq!(r.select(&[7, 7, 3]).as_deref(), Some("a"));
    assert_eq!(r.select(&[7, 2, 9]).as_deref(), Some("c"));
}

#[test]
fn select_k_orders_and_is_consistent_with_select() {
    let r = ring(&["a", "b", "c", "d", "e"]);
    let keys = score_keys(&r, b"some-key");
    let top = r.select_k(&keys, 3);
    assert_eq!(top.len(), 3);
    assert_eq!(Some(top[0].clone()), r.select(&keys));
    let set: std::collections::HashSet<_> = top.iter().collect();
    assert_eq!(set.len(), 3);
}

#[test]
fn preference_list_follows_score_keys() {
    let r = ring(&["b", "a", "c", "d"]);
    assert_eq!(r.select_k(&[5, 5, 9, 1], 10), vec!["c", "a", "b", "d"]);
    assert_eq!(r.select_k(&[5, 5, 9, 1], 0), Vec::<String>::new());
    assert_eq!(r.select_k(&[5, 5, 9, 1], 2), vec!["c", "a"]);
}
