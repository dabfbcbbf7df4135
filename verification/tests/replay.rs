use sovereign_os::replay_bookmark_set::{Bookmark, BookmarkError, BookmarkSet, ColorTag};
use sovereign_os::replay_ledger::{entry_hash, Entry, LedgerError, ReplayLedger};
use sovereign_os::replay_playback_rate::{
    check_states, help_text, neighbour, rate_label, speed_label, PlaybackError, PlaybackRate,
    PlaybackRateState, SCHEMA_VERSION,
};

fn filled() -> ReplayLedger {
    let mut l = ReplayLedger::new();
    l.append("boot");
    l.append("route task-1");
    l.append("commit task-1");
    l
}

#[test]
fn append_assigns_contiguous_seqs() {
    let l = filled();
    assert_eq!(l.len(), 3);
    assert_eq!(l.get(0).unwrap().payload, "boot");
    assert_eq!(l.get(2).unwrap().seq, 2);
    assert_eq!(l.get(0).unwrap().prev_hash, 0);
}

#[test]
fn chain_links_each_entry() {
    let l = filled();
    assert_eq!(l.get(1).unwrap().prev_hash, l.get(0).unwrap().hash);
    assert_eq!(l.get(2).unwrap().prev_hash, l.get(1).unwrap().hash);
    assert_eq!(l.head_hash(), l.get(2).unwrap().hash);
}

#[test]
fn clean_ledger_verifies() {
    assert!(filled().verify().is_ok());
}

#[test]
fn tampered_payload_is_detected() {
    let mut entries = filled().entries().to_vec();
    entries[1].payload = "route task-EVIL".to_string();
    let tampered = ReplayLedger::from_entries(entries);
    assert_eq!(tampered.verify().unwrap_err(), LedgerError::Tampered { seq: 1 });
}

#[test]
fn rehashed_tamper_still_breaks_the_chain() {
    let mut entries = filled().entries().to_vec();
    entries[1].payload = "route task-EVIL".to_string();
    entries[1].hash = entry_hash(entries[1].seq, entries[1].prev_hash, &entries[1].payload);
    let tampered = ReplayLedger::from_entries(entries);
    assert_eq!(tampered.verify().unwrap_err(), LedgerError::Tampered { seq: 2 });
}

#[test]
fn non_contiguous_seq_rejected() {
    let entries = vec![Entry {
        seq: 5,
        payload: "x".into(),
        prev_hash: 0,
        hash: entry_hash(5, 0, "x"),
    }];
    let l = ReplayLedger::from_entries(entries);
    assert!(matches!(l.verify().unwrap_err(), LedgerError::NonContiguous { .. }));
}

#[test]
fn replay_from_window() {
    let l = filled();
    assert_eq!(l.replay_from(1).len(), 2);
    assert_eq!(l.replay_from(1)[0].payload, "route task-1");
    assert_eq!(l.replay_from(99).len(), 0);
}

#[test]
fn entry_hash_is_fnv1a_of_seq_prev_and_payload() {
    // FNV-1a 64 over 0u64 LE, 0u64 LE, then "boot"
    assert_eq!(entry_hash(0, 0, "boot"), 0x1ac9_5ceb_cddd_0b95_u64);
    let l = filled();
    assert_eq!(l.get(0).unwrap().hash, entry_hash(0, 0, "boot"));
}

#[test]
fn non_contiguous_reports_index_and_seqs() {
    let mut entries = filled().entries().to_vec();
    entries[2].seq = 7;
    let l = ReplayLedger::from_entries(entries);
    assert_eq!(l.verify(), Err(LedgerError::NonContiguous { index: 2, expected: 2, got: 7 }));
}

#[test]
fn empty_ledger_has_zero_head_and_verifies() {
    let l = ReplayLedger::new();
    assert!(l.is_empty());
    assert_eq!(l.head_hash(), 0);
    assert!(l.get(0).is_none());
    assert!(l.verify().is_ok());
}

#[test]
fn appending_keeps_a_valid_chain_valid() {
    let mut l = filled();
    for i in 0..20 {
        let seq = l.append(&format!("event {i}"));
        assert_eq!(seq, 3 + i);
        assert!(l.verify().is_ok());
    }
}

fn bm(label: &str, idx: u32) -> Bookmark {
    Bookmark {
        label: label.into(),
        thread_id: "th-1".into(),
        turn_index: idx,
        color: ColorTag::Blue,
        note: String::new(),
    }
}

#[test]
fn empty_set_validates() {
    BookmarkSet::new().validate().unwrap();
}

#[test]
fn add_and_lookup() {
    let mut s = BookmarkSet::new();
    s.add(bm("start", 0), "th-1", 3).unwrap();
    s.add(bm("end", 2), "th-1", 3).unwrap();
    assert!(s.get("start").is_some());
    assert!(s.get("end").is_some());
    assert!(s.get("middle").is_none());
    s.validate().unwrap();
}

#[test]
fn out_of_range_rejected() {
    let mut s = BookmarkSet::new();
    match s.add(bm("bad", 99), "th-1", 3).unwrap_err() {
        BookmarkError::OutOfRange { label, idx, total } => {
            assert_eq!(label, "bad");
            assert_eq!(idx, 99);
            assert_eq!(total, 3);
        }
        other => panic!("unexpected: {other:?}"),
    }
    assert!(s.bookmarks.is_empty());
}

#[test]
fn duplicate_label_rejected() {
    let mut s = BookmarkSet::new();
    s.add(bm("x", 0), "th-1", 3).unwrap();
    let err = s.add(bm("x", 1), "th-1", 3).unwrap_err();
    assert!(matches!(err, BookmarkError::DuplicateLabel(_)));
}

#[test]
fn empty_label_rejected() {
    let mut s = BookmarkSet::new();
    let err = s.add(bm("", 0), "th-1", 3).unwrap_err();
    assert!(matches!(err, BookmarkError::EmptyLabel));
}

#[test]
fn other_threads_are_not_range_checked() {
    let mut s = BookmarkSet::new();
    let mut b = bm("elsewhere", 500);
    b.thread_id = "th-2".into();
    s.add(b, "th-1", 3).unwrap();
    let mut no_thread = bm("t", 0);
    no_thread.thread_id = String::new();
    assert!(matches!(s.add(no_thread, "th-1", 3), Err(BookmarkError::EmptyThreadId(l)) if l == "t"));
}

#[test]
fn for_thread_sorts_by_turn_index() {
    let mut s = BookmarkSet::new();
    s.add(bm("c", 2), "th-1", 3).unwrap();
    s.add(bm("a", 0), "th-1", 3).unwrap();
    s.add(bm("b", 1), "th-1", 3).unwrap();
    let v = s.for_thread("th-1");
    let labels: Vec<&str> = v.iter().map(|b| b.label.as_str()).collect();
    assert_eq!(labels, vec!["a", "b", "c"]);
}

#[test]
fn for_thread_filters_by_thread_id() {
    let mut s = BookmarkSet::new();
    s.add(bm("x", 0), "th-1", 3).unwrap();
    s.bookmarks.push(Bookmark {
        label: "other".into(),
        thread_id: "th-other".into(),
        turn_index: 100,
        color: ColorTag::Red,
        note: String::new(),
    });
    assert_eq!(s.for_thread("th-1").len(), 1);
    assert_eq!(s.for_thread("th-other").len(), 1);
}

#[test]
fn validate_reports_the_first_faulty_bookmark() {
    let mut s = BookmarkSet::new();
    s.bookmarks.push(bm("a", 0));
    s.bookmarks.push(bm("a", 1));
    assert!(matches!(s.validate(), Err(BookmarkError::DuplicateLabel(l)) if l == "a"));
}

#[test]
fn default_is_normal() {
    assert_eq!(PlaybackRateState::default_state().rate, PlaybackRate::Normal);
}

#[test]
fn faster_walks_up() {
    let mut s = PlaybackRateState::default_state();
    s.faster().unwrap();
    assert_eq!(s.rate, PlaybackRate::Double);
    s.faster().unwrap();
    s.faster().unwrap();
    assert_eq!(s.rate, PlaybackRate::Octuple);
    assert!(s.faster().is_err());
}

#[test]
fn slower_walks_down() {
    let mut s = PlaybackRateState::default_state();
    s.slower().unwrap();
    s.slower().unwrap();
    assert_eq!(s.rate, PlaybackRate::Quarter);
    assert!(s.slower().is_err());
}

#[test]
fn reset_returns_to_normal() {
    let mut s = PlaybackRateState::default_state();
    s.faster().unwrap();
    s.reset();
    assert_eq!(s.rate, PlaybackRate::Normal);
}

#[test]
fn at_bound_names_the_rate() {
    let mut s = PlaybackRateState { schema_version: SCHEMA_VERSION.to_string(), rate: PlaybackRate::Octuple };
    assert_eq!(s.faster(), Err(PlaybackError::AtBound(PlaybackRate::Octuple)));
    assert_eq!(s.rate, PlaybackRate::Octuple);
}

#[test]
fn faster_then_slower_returns() {
    for r in PlaybackRate::ALL {
        if let Some(f) = r.faster() {
            assert_eq!(f.slower(), Some(r));
        }
        if let Some(s) = r.slower() {
            assert_eq!(s.faster(), Some(r));
        }
    }
}

#[test]
fn speed_label_is_clean() {
    assert_eq!(speed_label(PlaybackRate::Quarter), "0.25x");
    assert_eq!(speed_label(PlaybackRate::Half), "0.5x");
    assert_eq!(speed_label(PlaybackRate::Normal), "1x");
    assert_eq!(speed_label(PlaybackRate::Octuple), "8x");
}

#[test]
fn labels_and_neighbours() {
    assert_eq!(rate_label(PlaybackRate::Quadruple), "quadruple");
    assert_eq!(neighbour(PlaybackRate::Double.faster()), "quadruple (4x)");
    assert_eq!(neighbour(PlaybackRate::Double.slower()), "normal (1x)");
    assert_eq!(neighbour(PlaybackRate::Octuple.faster()), "— (at bound)");
    assert!(help_text().contains("--check FILE"));
}

fn state_from_json(v: &serde_json::Value) -> Option<PlaybackRateState> {
    let rate = match v.get("rate")?.as_str()? {
        "quarter" => PlaybackRate::Quarter,
        "half" => PlaybackRate::Half,
        "normal" => PlaybackRate::Normal,
        "double" => PlaybackRate::Double,
        "quadruple" => PlaybackRate::Quadruple,
        "octuple" => PlaybackRate::Octuple,
        _ => return None,
    };
    Some(PlaybackRateState { schema_version: v.get("schema_version")?.as_str()?.to_string(), rate })
}

fn parse_states(json: &str) -> Result<Vec<PlaybackRateState>, String> {
    let v: serde_json::Value = serde_json::from_str(json).map_err(|e| e.to_string())?;
    match v.as_array() {
        Some(items) => items.iter().map(|i| state_from_json(i).ok_or_else(|| "bad state".to_string())).collect(),
        None => state_from_json(&v).map(|s| vec![s]).ok_or_else(|| "bad state".to_string()),
    }
}

#[test]
fn check_rejects_schema_drift() {
    let json = r#"{"schema_version":"9.9.9","rate":"double"}"#;
    let outcomes = check_states(&parse_states(json).unwrap());
    assert_eq!(outcomes.len(), 1);
    assert_eq!(outcomes[0].label, "double");
    assert!(matches!(outcomes[0].result, Err(PlaybackError::SchemaMismatch)));
}

#[test]
fn check_reports_invalid_json_as_error() {
    assert!(parse_states("not json").is_err());
}

#[test]
fn check_accepts_valid_states() {
    let json = r#"[{"schema_version":"1.0.0","rate":"normal"},{"schema_version":"1.0.0","rate":"octuple"}]"#;
    let outcomes = check_states(&parse_states(json).unwrap());
    assert_eq!(outcomes.len(), 2);
    assert_eq!(outcomes[1].label, "octuple");
    assert_eq!(outcomes[1].speed, "8x");
    assert!(outcomes.iter().all(|o| o.result.is_ok()));
}
