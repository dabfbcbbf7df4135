use sovereign_os::rerank::{rerank, RerankHit, SCHEMA_VERSION};

fn cands(pairs: &[(&str, &str)]) -> Vec<(String, String)> {
    pairs
        .iter()
        .map(|(i, t)| (i.to_string(), t.to_string()))
        .collect()
}

fn coverage(h: &RerankHit) -> f64 {
    h.covered as f64 / h.query_terms as f64
}

#[test]
fn coverage_beats_raw_frequency() {
    let c = cands(&[
        ("a", "rust rust rust rust rust"),
        ("b", "rust ownership and memory safety"),
    ]);
    let r = rerank("rust ownership memory", &c, 5);
    assert_eq!(r[0].id, "b");
    assert!((coverage(&r[0]) - 1.0).abs() < 1e-9);
    assert!(coverage(&r[1]) < coverage(&r[0]));
}

#[test]
fn zero_coverage_is_dropped() {
    let c = cands(&[("a", "tomato basil pasta"), ("b", "rust memory")]);
    let r = rerank("rust ownership memory", &c, 5);
    assert_eq!(r.len(), 1);
    assert_eq!(r[0].id, "b");
}

#[test]
fn ties_break_by_matches_then_id() {
    let c = cands(&[("z", "rust"), ("a", "rust rust rust")]);
    let r = rerank("rust", &c, 5);
    assert_eq!(r[0].id, "a");
    assert_eq!(r[1].id, "z");
}

#[test]
fn equal_coverage_and_matches_break_by_id() {
    let c = cands(&[("b", "rust"), ("a", "rust")]);
    let r = rerank("rust", &c, 5);
    assert_eq!(r[0].id, "a");
}

#[test]
fn empty_query_returns_nothing() {
    let c = cands(&[("a", "rust")]);
    assert!(rerank("", &c, 5).is_empty());
}

#[test]
fn coverage_is_fractional() {
    let c = cands(&[("a", "rust ownership")]);
    let r = rerank("rust ownership memory", &c, 5);
    assert!((coverage(&r[0]) - 2.0 / 3.0).abs() < 1e-9);
}

#[test]
fn rerank_counts_terms_and_matches_exactly() {
    let c = cands(&[("d1", "Rust, rust; OWNERSHIP!"), ("d2", "memory rust")]);
    let r = rerank("rust ownership rust memory", &c, 5);
    assert_eq!(r.len(), 2);
    assert_eq!(r[0].id, "d1");
    assert_eq!((r[0].covered, r[0].query_terms, r[0].matches), (2, 3, 3));
    assert_eq!(r[1].id, "d2");
    assert_eq!((r[1].covered, r[1].query_terms, r[1].matches), (2, 3, 2));
    assert_eq!(r[0].text, "Rust, rust; OWNERSHIP!");
    assert!(rerank("rust", &c, 0).is_empty());
    assert_eq!(SCHEMA_VERSION, "1.0.0");
}
