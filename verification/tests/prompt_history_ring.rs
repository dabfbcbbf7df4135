use sovereign_os::prompt_compress::{compress, keep_top_k};
use sovereign_os::prompt_history_ring::{HistoryError, PromptHistoryRing, MAX_ENTRIES};

#[test]
fn empty_ring_validates() {
    PromptHistoryRing::new().validate().unwrap();
}

#[test]
fn push_appends() {
    let mut r = PromptHistoryRing::new();
    r.push("hello").unwrap();
    r.push("world").unwrap();
    assert_eq!(r.len(), 2);
}

#[test]
fn consecutive_duplicates_deduped() {
    let mut r = PromptHistoryRing::new();
    r.push("a").unwrap();
    r.push("a").unwrap();
    r.push("a").unwrap();
    assert_eq!(r.len(), 1);
}

#[test]
fn non_consecutive_duplicates_kept() {
    let mut r = PromptHistoryRing::new();
    r.push("a").unwrap();
    r.push("b").unwrap();
    r.push("a").unwrap();
    assert_eq!(r.len(), 3);
}

#[test]
fn empty_push_rejected() {
    let mut r = PromptHistoryRing::new();
    assert!(matches!(r.push("").unwrap_err(), HistoryError::EmptyEntry));
}

#[test]
fn prev_walks_backward() {
    let mut r = PromptHistoryRing::new();
    r.push("a").unwrap();
    r.push("b").unwrap();
    r.push("c").unwrap();
    assert_eq!(r.prev(), Some("c"));
    assert_eq!(r.prev(), Some("b"));
    assert_eq!(r.prev(), Some("a"));
    assert_eq!(r.prev(), Some("a"));
}

#[test]
fn next_walks_forward() {
    let mut r = PromptHistoryRing::new();
    r.push("a").unwrap();
    r.push("b").unwrap();
    r.push("c").unwrap();
    r.prev();
    r.prev();
    r.prev();
    assert_eq!(r.next(), Some("b"));
    assert_eq!(r.next(), Some("c"));
    assert_eq!(r.next(), None);
}

#[test]
fn prev_on_empty_returns_none() {
    let mut r = PromptHistoryRing::new();
    assert_eq!(r.prev(), None);
}

#[test]
fn push_resets_cursor() {
    let mut r = PromptHistoryRing::new();
    r.push("a").unwrap();
    r.push("b").unwrap();
    r.prev();
    r.push("c").unwrap();
    assert_eq!(r.prev(), Some("c"));
}

#[test]
fn overflow_drops_oldest() {
    let mut r = PromptHistoryRing::new();
    for i in 0..(MAX_ENTRIES + 5) {
        r.push(&format!("p{i}")).unwrap();
    }
    assert_eq!(r.len(), MAX_ENTRIES);
    assert_eq!(r.entries[0], "p5");
}

#[test]
fn next_undoes_prev() {
    let mut r = PromptHistoryRing::new();
    for p in ["a", "b", "c", "d"] {
        r.push(p).unwrap();
    }
    r.prev();
    r.prev();
    assert_eq!(r.cursor, Some(2));
    assert_eq!(r.prev(), Some("b"));
    assert_eq!(r.next(), Some("c"));
    assert_eq!(r.cursor, Some(2));
}

#[test]
fn next_at_the_end_stays_there() {
    let mut r = PromptHistoryRing::new();
    r.push("a").unwrap();
    assert_eq!(r.next(), None);
    assert_eq!(r.cursor, None);
    assert_eq!(r.prev(), Some("a"));
    assert_eq!(r.next(), None);
    assert_eq!(r.cursor, None);
}

#[test]
fn duplicate_push_keeps_the_cursor() {
    let mut r = PromptHistoryRing::new();
    r.push("a").unwrap();
    r.push("b").unwrap();
    r.prev();
    r.push("b").unwrap();
    assert_eq!(r.cursor, Some(1));
    r.reset_cursor();
    assert_eq!(r.cursor, None);
    assert!(!r.is_empty());
}

#[test]
fn empty_entry_fails_validation() {
    let mut r = PromptHistoryRing::new();
    r.push("x").unwrap();
    r.entries.push(String::new());
    assert!(matches!(r.validate(), Err(HistoryError::EmptyEntry)));
}

#[test]
fn compress_applies_selection() {
    let tokens = ["the", "quick", "brown", "fox"];
    let kept = compress(&tokens, &[0, 2, 3]);
    assert_eq!(kept, vec!["the", "brown", "fox"]);
}

#[test]
fn compress_skips_indices_past_the_end_and_keeps_order() {
    let tokens = [10u32, 20, 30];
    assert_eq!(compress(&tokens, &[2, 7, 0, 2]), vec![30, 10, 30]);
    assert!(compress::<u32>(&[], &[0, 1]).is_empty());
}

fn lp_bits(lp: &[f64]) -> Vec<u64> {
    lp.iter().map(|v| v.to_bits()).collect()
}

#[test]
fn budget_interface() {
    let lp = [-1.0, -2.0, -3.0, -4.0, -5.0];
    let keep = sovereign_os::prompt_compress::select_to_budget(&lp_bits(&lp), 2, false);
    assert_eq!(keep.len(), 2);
    assert_eq!(keep, vec![3, 4]);
}

#[test]
fn keep_top_k_keeps_most_surprising_and_anchors() {
    assert_eq!(keep_top_k(&lp_bits(&[-0.05, -4.0, -0.05, -5.0]), 2, false), vec![1, 3]);
    assert_eq!(keep_top_k(&lp_bits(&[-0.1, -2.0, -0.5, -3.0]), 4, false), vec![0, 1, 2, 3]);
    assert!(keep_top_k(&lp_bits(&[-0.1, -2.0, -0.5]), 0, false).is_empty());
    assert_eq!(keep_top_k(&lp_bits(&[-0.01, -5.0, -4.0, -0.01]), 2, true), vec![0, 3]);
    assert_eq!(keep_top_k(&lp_bits(&[-0.01, -5.0, -4.0, -0.01]), 3, true), vec![0, 1, 3]);
    assert_eq!(keep_top_k(&lp_bits(&[-1.0, -1.0, -1.0]), 2, false), vec![0, 1]);
    assert_eq!(keep_top_k(&lp_bits(&[0.0, -0.0, f64::NAN, -f64::NAN]), 2, false), vec![1, 3]);
    assert_eq!(keep_top_k(&lp_bits(&[-0.02, -4.0, -3.5, -0.05, -0.02, -4.2]), 3, false), vec![1, 2, 5]);
    assert!(keep_top_k(&[], 3, true).is_empty());
    assert_eq!(keep_top_k(&lp_bits(&[-7.0]), 0, true), vec![0]);
}

#[test]
fn prev_from_one_past_the_newest_steps_onto_it() {
    let mut r = PromptHistoryRing::new();
    r.push("a").unwrap();
    r.push("b").unwrap();
    r.cursor = Some(2);
    assert_eq!(r.prev(), Some("b"));
    assert_eq!(r.cursor, Some(1));
}

#[test]
fn next_from_any_cursor_past_the_end_returns_none() {
    let mut r = PromptHistoryRing::new();
    r.push("a").unwrap();
    r.cursor = Some(usize::MAX);
    assert_eq!(r.next(), None);
    assert_eq!(r.cursor, None);
    let mut empty = PromptHistoryRing::new();
    empty.cursor = Some(3);
    assert_eq!(empty.next(), None);
    assert_eq!(empty.cursor, None);
}
