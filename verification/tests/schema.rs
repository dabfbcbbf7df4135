use sovereign_os::profile_bundles::{BundleCatalog, BundleError};
use sovereign_os::rendezvous_hash::hash;
use sovereign_os::prompt_history_ring::{HistoryError, PromptHistoryRing};
use sovereign_os::provider_catalog::{ProviderCatalog, ProviderError};
use sovereign_os::replay_bookmark_set::{BookmarkError, BookmarkSet};
use sovereign_os::replay_playback_rate::{PlaybackError, PlaybackRateState};
use sovereign_os::prompt_templates::{TemplateError, TemplateRegistry};
use sovereign_os::prompt_rationale::{Rationale, RationaleError};
use sovereign_os::execution_mode::ExecutionMode;
use sovereign_os::pressure_sensors::{validate_snapshot, PressureAxis, PressureError, ReadingBits};
use sovereign_os::replay_cursor::ReplayCursor;
use sovereign_os::replay_export_bundle::{ConversationThread, ExportBundle, ExportError};
use sovereign_os::profile_bundles::BundleName;
use sovereign_os::provider_catalog::ProviderId;
use sovereign_os::policy_questions::{
    AnswerOutcome, PolicyAnswerSet, PolicyQuestion, PolicyQuestionError, QuestionAnswer,
    SCHEMA_VERSION as POLICY_SCHEMA,
};

#[test]
fn lib_schema_version_is_set() {
    assert_eq!(sovereign_os::p2c_balance::SCHEMA_VERSION, "1.0.0");
    assert_eq!(sovereign_os::rendezvous_hash::SCHEMA_VERSION, "1.0.0");
}

#[test]
fn lib_schema_drift_rejected() {
    let mut s = PolicyAnswerSet {
        schema_version: POLICY_SCHEMA.into(),
        answers: PolicyQuestion::all()
            .into_iter()
            .map(|q| QuestionAnswer {
                question: q,
                answer: AnswerOutcome::Yes,
                reason: String::new(),
                trace_id: String::new(),
            })
            .collect(),
    };
    s.schema_version = "9.9.9".into();
    assert!(matches!(s.validate().unwrap_err(), PolicyQuestionError::SchemaMismatch { .. }));

    let mut c = BundleCatalog::empty_canonical();
    c.schema_version = "9.9.9".into();
    assert!(matches!(c.validate().unwrap_err(), BundleError::SchemaMismatch));

    let mut r = PromptHistoryRing::new();
    r.schema_version = "9.9.9".into();
    assert!(matches!(r.validate().unwrap_err(), HistoryError::SchemaMismatch));

    let mut p = ProviderCatalog::canonical();
    p.schema_version = "9.9.9".into();
    assert!(matches!(p.validate().unwrap_err(), ProviderError::SchemaMismatch));

    let mut b = BookmarkSet::new();
    b.schema_version = "9.9.9".into();
    assert!(matches!(b.validate().unwrap_err(), BookmarkError::SchemaMismatch));

    let mut st = PlaybackRateState::default_state();
    st.schema_version = "9.9.9".into();
    assert!(matches!(st.validate().unwrap_err(), PlaybackError::SchemaMismatch));

    let mut tr = TemplateRegistry::new();
    tr.schema_version = "9.9.9".into();
    assert!(matches!(tr.validate().unwrap_err(), TemplateError::SchemaMismatch));

    let mut ra = Rationale::build("tr-1", ProviderId::LocalOllama, "greet", BundleName::Careful,
        ExecutionMode::Execute, 0u8, "operator typed at command palette", "2026-05-19T03:00:00Z");
    ra.schema_version = "9.9.9".into();
    assert!(matches!(ra.validate().unwrap_err(), RationaleError::SchemaMismatch));

    let cursor = ReplayCursor::open("th-1", 1, ExecutionMode::Replay).unwrap();
    let mut eb = ExportBundle::build(ConversationThread::new("th-1", "t"), cursor, BookmarkSet::new(), "t", "op");
    eb.schema_version = "9.9.9".into();
    assert!(matches!(eb.validate().unwrap_err(), ExportError::SchemaMismatch));

    let readings: Vec<ReadingBits> = [
        PressureAxis::Cpu,
        PressureAxis::Memory,
        PressureAxis::Io,
        PressureAxis::Gpu,
        PressureAxis::HumanAttention,
        PressureAxis::Cost,
    ]
    .into_iter()
    .map(|a| ReadingBits { axis: a, value_bits: 0 })
    .collect();
    assert!(matches!(validate_snapshot("9.9.9", &readings).unwrap_err(), PressureError::SchemaMismatch { .. }));
}

#[test]
fn lib_count_invalid_caught() {
    let mut c = BundleCatalog::empty_canonical();
    c.bundles.pop();
    assert!(matches!(c.validate().unwrap_err(), BundleError::CountInvalid(3)));

    let mut p = ProviderCatalog::canonical();
    p.entries.pop();
    assert!(matches!(p.validate().unwrap_err(), ProviderError::CountInvalid(5)));
}

#[test]
fn rendezvous_hash_separates_node_and_key() {
    assert_eq!(hash("node-a", b"key"), hash("node-a", b"key"));
    assert_ne!(hash("ab", b"c"), hash("a", b"bc"));
    assert_ne!(hash("node-a", b"key"), hash("node-b", b"key"));
    assert_eq!(hash("a", b"b"), 0x5125_c00a_eea4_4e00);
}
