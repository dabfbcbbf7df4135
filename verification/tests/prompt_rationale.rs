use sovereign_os::execution_mode::ExecutionMode;
use sovereign_os::profile_bundles::BundleName;
use sovereign_os::prompt_rationale::{Rationale, RationaleError};
use sovereign_os::provider_catalog::ProviderId;
use sovereign_os::replay_bookmark_set::BookmarkSet;
use sovereign_os::replay_cursor::ReplayCursor;
use sovereign_os::replay_export_bundle::{ConversationThread, ExportBundle, ExportError};

#[derive(Debug, Clone, Copy, PartialEq, Eq)]
enum DoctrineTag {
    NotEveryPrompt,
    AgentRequirement,
}

fn r() -> Rationale<DoctrineTag> {
    Rationale::build(
        "tr-1",
        ProviderId::LocalOllama,
        "greet",
        BundleName::Careful,
        ExecutionMode::Execute,
        DoctrineTag::NotEveryPrompt,
        "operator typed at command palette",
        "2026-05-19T03:00:00Z",
    )
}

#[test]
fn ok_rationale_validates() {
    r().validate().unwrap();
    assert_eq!(r().primary_doctrine, DoctrineTag::NotEveryPrompt);
}

#[test]
fn missing_trace_id_caught() {
    let mut x = r();
    x.trace_id = String::new();
    assert!(matches!(x.validate().unwrap_err(), RationaleError::MissingTraceId));
}

#[test]
fn missing_reason_caught() {
    let mut x = r();
    x.reason = String::new();
    assert!(matches!(x.validate().unwrap_err(), RationaleError::MissingReason));
}

#[test]
fn lib_missing_timestamp_caught() {
    let mut x = r();
    x.at = String::new();
    assert!(matches!(x.validate().unwrap_err(), RationaleError::MissingTimestamp));

    let cursor = ReplayCursor::open("th-1", 1, ExecutionMode::Replay).unwrap();
    let bundle = ExportBundle::build(ConversationThread::new("th-1", "t"), cursor, BookmarkSet::new(), "", "op");
    assert!(matches!(bundle.validate().unwrap_err(), ExportError::MissingTimestamp));
}

#[test]
fn used_template_flag() {
    let r1 = r();
    assert!(r1.used_template());
    let r2 = Rationale::build("tr-2", ProviderId::Mock, "", BundleName::Private,
        ExecutionMode::Plan, DoctrineTag::AgentRequirement, "ad-hoc", "t");
    assert!(!r2.used_template());
}
