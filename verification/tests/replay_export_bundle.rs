use sovereign_os::execution_mode::ExecutionMode;
use sovereign_os::replay_bookmark_set::{Bookmark, BookmarkSet, ColorTag};
use sovereign_os::replay_cursor::{ReplayCursor, TurnRole};
use sovereign_os::replay_export_bundle::{example_bundle, ConversationThread, ExportBundle, ExportError};

fn thread() -> ConversationThread {
    let mut t = ConversationThread::new("th-1", "t");
    t.append(TurnRole::Operator);
    t
}

fn cursor(thread_id: &str) -> ReplayCursor {
    ReplayCursor::open(thread_id, 1, ExecutionMode::Replay).unwrap()
}

#[test]
fn ok_bundle_validates() {
    let bundle = ExportBundle::build(thread(), cursor("th-1"), BookmarkSet::new(), "t", "op");
    bundle.validate().unwrap();
}

#[test]
fn cursor_thread_mismatch_caught() {
    let bundle = ExportBundle::build(thread(), cursor("th-other"), BookmarkSet::new(), "t", "op");
    match bundle.validate().unwrap_err() {
        ExportError::CursorThreadMismatch { cursor, thread } => {
            assert_eq!(cursor, "th-other");
            assert_eq!(thread, "th-1");
        }
        other => panic!("unexpected: {other:?}"),
    }
}

#[test]
fn bookmark_thread_mismatch_caught() {
    let mut bookmarks = BookmarkSet::new();
    bookmarks.bookmarks.push(Bookmark {
        label: "wrong".into(),
        thread_id: "th-other".into(),
        turn_index: 0,
        color: ColorTag::Blue,
        note: String::new(),
    });
    let bundle = ExportBundle::build(thread(), cursor("th-1"), bookmarks, "t", "op");
    assert!(matches!(bundle.validate().unwrap_err(), ExportError::BookmarkThreadMismatch { .. }));
}

#[test]
fn missing_exporter_caught() {
    let bundle = ExportBundle::build(thread(), cursor("th-1"), BookmarkSet::new(), "t", "");
    assert!(matches!(bundle.validate().unwrap_err(), ExportError::MissingExporter));
}

#[test]
fn export_bundle_reports_the_first_foreign_bookmark() {
    let mut bookmarks = BookmarkSet::new();
    for (label, th) in [("a", "th-1"), ("b", "th-2"), ("c", "th-3")] {
        bookmarks.bookmarks.push(Bookmark {
            label: label.into(),
            thread_id: th.into(),
            turn_index: 0,
            color: ColorTag::Red,
            note: String::new(),
        });
    }
    let bundle = ExportBundle::build(thread(), cursor("th-1"), bookmarks, "t", "op");
    assert_eq!(
        bundle.validate().unwrap_err(),
        ExportError::BookmarkThreadMismatch {
            label: "b".into(),
            thread: "th-2".into(),
            bundle_thread: "th-1".into(),
        }
    );
    assert_eq!(bundle.thread.turns.len(), 1);
}

#[test]
fn example_bundle_validates() {
    example_bundle().validate().unwrap();
}

#[test]
fn tampered_cursor_thread_id_is_rejected() {
    let mut bundle = example_bundle();
    bundle.cursor.thread_id = "th-someone-elses".into();
    assert!(bundle.validate().is_err());
}

#[test]
fn tampered_bookmark_thread_id_is_rejected() {
    let mut bundle = example_bundle();
    bundle.bookmarks.bookmarks[0].thread_id = "th-someone-elses".into();
    assert!(bundle.validate().is_err());
}

#[test]
fn example_bundle_holds_the_demo_session() {
    let b = example_bundle();
    assert_eq!(b.thread.thread_id, "th-demo-42");
    assert_eq!(b.thread.turns, vec![TurnRole::Operator, TurnRole::Model, TurnRole::Tool, TurnRole::Model]);
    assert_eq!(b.cursor.thread_id, "th-demo-42");
    assert_eq!(b.cursor.total_turns, 4);
    assert_eq!(b.bookmarks.bookmarks.len(), 2);
    assert_eq!(b.bookmarks.bookmarks[0].label, "symptom");
    assert_eq!(b.bookmarks.bookmarks[0].color, ColorTag::Red);
    assert_eq!(b.bookmarks.bookmarks[1].turn_index, 3);
    assert_eq!(b.exported_by, "op:MS003:demo-fingerprint");
}
