use sovereign_os::retrieval::{augment_prompt, augment_with, rerank_pool, token_counts, DocStore, Deduped, KeyphraseQuery, Reranked, Retriever};
use sovereign_os::text::zero_padded;

fn store() -> DocStore {
    let mut s = DocStore::new();
    s.add("rust", "Rust is a systems programming language focused on safety.");
    s.add("python", "Python is a high-level interpreted language.");
    s.add("ownership", "Ownership in Rust governs memory without a garbage collector.");
    s
}

#[test]
fn retrieves_by_term_overlap() {
    let s = store();
    let hits = s.retrieve("rust ownership memory", 3);
    assert!(!hits.is_empty());
    assert_eq!(hits[0].id, "ownership");
    assert!(hits.iter().all(|h| h.score > 0));
}

#[test]
fn lib_top_k_limits_results() {
    let s = store();
    let hits = s.retrieve("language", 1);
    assert_eq!(hits.len(), 1);
    let c: Vec<(String, String)> = [
        ("a", "rust ownership memory"),
        ("b", "rust ownership"),
        ("c", "memory"),
    ]
    .iter()
    .map(|(i, t)| (i.to_string(), t.to_string()))
    .collect();
    assert_eq!(sovereign_os::rerank::rerank("rust ownership memory", &c, 2).len(), 2);
}

#[test]
fn no_overlap_returns_nothing() {
    let s = store();
    assert!(s.retrieve("quantum biology zebra", 5).is_empty());
}

#[test]
fn ties_break_by_id() {
    let mut s = DocStore::new();
    s.add("b", "apple");
    s.add("a", "apple");
    let hits = s.retrieve("apple", 5);
    assert_eq!(hits.len(), 2);
    assert_eq!(hits[0].id, "a");
    assert_eq!(hits[1].id, "b");
}

#[test]
fn score_counts_term_frequency() {
    let mut s = DocStore::new();
    s.add("once", "rust");
    s.add("thrice", "rust rust rust");
    let hits = s.retrieve("rust", 2);
    assert_eq!(hits[0].id, "thrice");
    assert_eq!(hits[0].score, 3);
}

#[test]
fn repeated_query_terms_count_once() {
    let mut s = DocStore::new();
    s.add("d", "Rust, rust! RUST");
    let hits = s.retrieve("rust RUST rust", 5);
    assert_eq!(hits.len(), 1);
    assert_eq!(hits[0].score, 3);
}

#[test]
fn raw_overlap_ties_break_toward_the_smaller_id() {
    let mut s = DocStore::new();
    s.add("filler1", "common");
    s.add("filler2", "common");
    s.add("a", "common common");
    s.add("b", "common rare");
    let raw = s.retrieve("common rare", 2);
    assert_eq!(raw[0].score, raw[1].score);
    assert_eq!(raw[0].id, "a");
    assert_eq!(s.len(), 4);
    assert!(!s.is_empty());
}

#[test]
fn store_as_retriever_returns_texts() {
    let s = store();
    let ctx = s.retrieve_context("rust ownership memory", 2);
    assert_eq!(ctx[0], "Ownership in Rust governs memory without a garbage collector.");
    assert_eq!(ctx.len(), 2);
}

#[test]
fn augment_prompt_prepends_context() {
    let s = store();
    let out = augment_prompt(&s, "What governs memory in Rust?", 1);
    assert_eq!(
        out,
        "Context:\n- Ownership in Rust governs memory without a garbage collector.\n\nWhat governs memory in Rust?"
    );
    let empty = DocStore::new();
    assert_eq!(augment_prompt(&empty, "hi", 3), "hi");
}

#[test]
fn augment_with_lists_every_hit() {
    let hits = vec!["a".to_string(), "b".to_string()];
    assert_eq!(augment_with(&hits, "q"), "Context:\n- a\n- b\n\nq");
    assert_eq!(augment_with(&Vec::new(), "q"), "q");
}

#[test]
fn decorator_pool_sizes() {
    let r = Reranked::with_defaults(store());
    assert_eq!(r.pool_size(3), 20);
    assert_eq!(r.pool_size(10), 40);
    assert_eq!(r.pool_size(usize::MAX), usize::MAX);
    let r0 = Reranked::new(store(), 0, 0);
    assert_eq!(r0.pool_size(5), 5);
    let d = Deduped::with_defaults(store());
    assert_eq!(d.pool_size(6), 24);
    let d1 = Deduped::new(store(), 2, 30, 3, 0);
    assert_eq!(d1.pool_size(6), 30);
    let _k = KeyphraseQuery::with_defaults(store());
    let _k0 = KeyphraseQuery::new(store(), 0);
}

#[test]
fn rerank_reorders_a_recall_pool_for_precision() {
    let mut s = DocStore::new();
    s.add("spam", "rust rust rust rust rust rust");
    s.add("good", "rust ownership governs memory safety");
    let raw = s.retrieve_context("rust ownership memory", 2);
    assert_eq!(raw[0], "rust rust rust rust rust rust");
    let rr = Reranked::new(s, 4, 20);
    let out = rr.retrieve_context("rust ownership memory", 2);
    assert_eq!(out[0], "rust ownership governs memory safety");
}

#[test]
fn rerank_falls_back_when_coverage_empties_the_pool() {
    struct Fixed;
    impl Retriever for Fixed {
        fn retrieve_context(&self, _q: &str, k: usize) -> Vec<String> {
            vec!["alpha".to_string(), "bravo".to_string()]
                .into_iter()
                .take(k.max(1))
                .collect()
        }
    }
    let rr = Reranked::with_defaults(Fixed);
    let out = rr.retrieve_context("zzz nonexistent terms", 2);
    assert_eq!(out, vec!["alpha".to_string(), "bravo".to_string()]);
}

#[test]
fn rerank_zero_k_is_empty() {
    let mut s = DocStore::new();
    s.add("a", "rust ownership");
    let rr = Reranked::with_defaults(s);
    assert!(rr.retrieve_context("rust", 0).is_empty());
}

#[test]
fn rerank_pool_keys_ties_by_pool_position() {
    let pool: Vec<String> = (0..12).map(|i| format!("rust doc{i}")).collect();
    let out = rerank_pool("rust", &pool, 3);
    assert_eq!(out, vec!["rust doc0".to_string(), "rust doc1".to_string(), "rust doc2".to_string()]);
    let none = rerank_pool("zzz", &pool, 2);
    assert_eq!(none, vec!["rust doc0".to_string(), "rust doc1".to_string()]);
    assert_eq!(zero_padded(42, 6), "000042");
    assert_eq!(zero_padded(1234567, 6), "1234567");
}

#[test]
fn token_counts_lists_distinct_tokens_with_counts() {
    let c = token_counts("Rust, rust and RUST; ownership and safety");
    assert_eq!(
        c,
        vec![
            ("rust".to_string(), 3),
            ("and".to_string(), 2),
            ("ownership".to_string(), 1),
            ("safety".to_string(), 1),
        ]
    );
    assert!(token_counts("  ,; ").is_empty());
}

#[test]
fn bm25_counts_give_document_frequencies_lengths_and_term_counts() {
    let mut s = DocStore::new();
    s.add("filler1", "common");
    s.add("filler2", "common");
    s.add("a", "common common");
    s.add("b", "common rare");
    let c = s.bm25_counts("Common rare COMMON");
    assert_eq!(c.terms, vec!["common".to_string(), "rare".to_string()]);
    assert_eq!(c.doc_freq, vec![4, 1]);
    assert_eq!(c.docs.len(), 4);
    assert_eq!(c.docs[2].id, "a");
    assert_eq!(c.docs[2].len, 2);
    assert_eq!(c.docs[2].tf, vec![2, 0]);
    assert_eq!(c.docs[3].text, "common rare");
    assert_eq!(c.docs[3].tf, vec![1, 1]);
}

#[test]
fn bm25_counts_on_an_empty_store_or_unknown_terms() {
    let c = DocStore::new().bm25_counts("anything");
    assert!(c.docs.is_empty());
    assert_eq!(c.doc_freq, vec![0]);
    let s = store();
    let c = s.bm25_counts("zzz nonexistent");
    assert_eq!(c.doc_freq, vec![0, 0]);
    assert!(c.docs.iter().all(|d| d.tf == vec![0, 0]));
    assert_eq!(c.docs[1].len, 7);
}
