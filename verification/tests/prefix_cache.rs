use sovereign_os::prefix_cache::{PrefixCache, SCHEMA_VERSION};

#[test]
fn insert_and_exact_get() {
    let mut c: PrefixCache<&str> = PrefixCache::new();
    c.insert(&[1, 2, 3], "block_a");
    assert!(c.contains(&[1, 2, 3]));
    assert_eq!(c.get(&[1, 2, 3]), Some(&"block_a"));
    assert!(!c.contains(&[1, 2]));
    assert_eq!(c.len(), 1);
}

#[test]
fn longest_prefix_reuses_shared_tokens() {
    let mut c: PrefixCache<usize> = PrefixCache::new();
    c.insert(&[10, 20, 30, 40], 100);
    let m = c.longest_prefix_match(&[10, 20, 30, 99, 99]);
    assert_eq!(m.matched_len, 3);
    assert_eq!(m.checkpoint_len, 0);
}

#[test]
fn checkpoint_at_intermediate_stored_node() {
    let mut c: PrefixCache<&str> = PrefixCache::new();
    c.insert(&[1, 2], "after_two");
    c.insert(&[1, 2, 3, 4], "after_four");
    let m = c.longest_prefix_match(&[1, 2, 3, 9]);
    assert_eq!(m.matched_len, 3);
    assert_eq!(m.checkpoint_len, 2);
    assert_eq!(m.value, Some(&"after_two"));
}

#[test]
fn full_match_returns_deepest_checkpoint() {
    let mut c: PrefixCache<&str> = PrefixCache::new();
    c.insert(&[1, 2, 3], "exact");
    let m = c.longest_prefix_match(&[1, 2, 3]);
    assert_eq!(m.matched_len, 3);
    assert_eq!(m.checkpoint_len, 3);
    assert_eq!(m.value, Some(&"exact"));
}

#[test]
fn shared_storage_across_prefixes() {
    let mut c: PrefixCache<u32> = PrefixCache::new();
    c.insert(&[1, 2, 3, 4, 5], 1);
    let before = c.node_count();
    c.insert(&[1, 2, 3, 4, 9], 2);
    assert_eq!(c.node_count(), before + 1);
    assert_eq!(c.len(), 2);
}

#[test]
fn no_match_for_disjoint_prefix() {
    let mut c: PrefixCache<&str> = PrefixCache::new();
    c.insert(&[1, 2, 3], "x");
    let m = c.longest_prefix_match(&[9, 9, 9]);
    assert_eq!(m.matched_len, 0);
    assert_eq!(m.value, None);
}

#[test]
fn reinsert_replaces_value() {
    let mut c: PrefixCache<&str> = PrefixCache::new();
    c.insert(&[1], "old");
    c.insert(&[1], "new");
    assert_eq!(c.get(&[1]), Some(&"new"));
    assert_eq!(c.len(), 1);
}

#[test]
fn empty_cache_and_query() {
    let c: PrefixCache<&str> = PrefixCache::new();
    assert!(c.is_empty());
    let m = c.longest_prefix_match(&[1, 2, 3]);
    assert_eq!(m.matched_len, 0);
    assert!(m.value.is_none());
}

#[test]
fn prefix_cache_root_value_is_the_shallowest_checkpoint() {
    let mut c: PrefixCache<u32> = PrefixCache::new();
    c.insert(&[], 7);
    c.insert(&[5, 6], 8);
    let m = c.longest_prefix_match(&[5, 9]);
    assert_eq!(m.matched_len, 1);
    assert_eq!(m.checkpoint_len, 0);
    assert_eq!(m.value, Some(&7));
    assert!(c.contains(&[]));
    assert_eq!(c.len(), 2);
}

#[test]
fn prefix_cache_node_count_counts_distinct_prefixes() {
    let mut c: PrefixCache<u32> = PrefixCache::default();
    assert_eq!(c.node_count(), 1);
    c.insert(&[1, 2, 3], 1);
    assert_eq!(c.node_count(), 4);
    c.insert(&[1, 2], 2);
    assert_eq!(c.node_count(), 4);
    c.insert(&[4], 3);
    assert_eq!(c.node_count(), 5);
    assert_eq!(c.get(&[1, 2]), Some(&2));
    assert_eq!(c.get(&[1]), None);
    assert!(!c.contains(&[1, 2, 3, 4]));
}

#[test]
fn prefix_cache_inserted_sequence_is_fully_matched() {
    let mut c: PrefixCache<u32> = PrefixCache::new();
    c.insert(&[3, 1, 4, 1, 5], 9);
    let m = c.longest_prefix_match(&[3, 1, 4, 1, 5]);
    assert_eq!(m.matched_len, 5);
    assert_eq!(m.checkpoint_len, 5);
    assert_eq!(m.value, Some(&9));
    assert_eq!(SCHEMA_VERSION, "1.0.0");
}

#[test]
fn a_clone_holds_the_same_sequences() {
    let mut c: PrefixCache<u32> = PrefixCache::new();
    c.insert(&[1, 2, 3], 7);
    c.insert(&[1, 4], 9);
    let d = c.clone();
    c.insert(&[5], 1);
    assert_eq!(d.len(), 2);
    assert_eq!(d.get(&[1, 2, 3]), Some(&7));
    assert_eq!(d.get(&[1, 4]), Some(&9));
    assert!(!d.contains(&[5]));
    assert_eq!(d.node_count(), 5);
}
