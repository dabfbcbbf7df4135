use sovereign_os::policy_input::{
    ApprovalState, PolicyInput, PolicyQuestion as InputQuestion, RiskLevel, SensitivityClass,
    SideEffectClass,
};
use sovereign_os::policy_questions::{
    assert_doctrines_intact, AnswerOutcome, PolicyAnswerSet, PolicyQuestion, PolicyQuestionError,
    QuestionAnswer, DOCTRINE_AGENT_REQUIREMENT, DOCTRINE_THAT_IS_SOVEREIGNTY, SCHEMA_VERSION,
};
use std::collections::HashSet;

fn ssh_config_read(intent: &str, approval: ApprovalState) -> PolicyInput {
    PolicyInput {
        subject: "agent:scout".into(),
        action: "read".into(),
        resource: "~/.ssh/config".into(),
        intent: intent.into(),
        profile: "inference-ready".into(),
        risk: RiskLevel::High,
        model_provider: "local:oracle".into(),
        context_sensitivity: SensitivityClass::Private,
        side_effect_class: SideEffectClass::ReadOnly,
        user_approval: approval,
    }
}

#[test]
fn seven_questions_and_nine_sensitivity_classes() {
    assert_eq!(InputQuestion::ALL.len(), 7);
    assert_eq!(InputQuestion::ALL.iter().collect::<HashSet<_>>().len(), 7);
    assert_eq!(SensitivityClass::ALL.len(), 9);
    assert_eq!(SensitivityClass::ALL.iter().collect::<HashSet<_>>().len(), 9);
}

#[test]
fn input_carries_intent_so_same_triple_differs() {
    let a = ssh_config_read("summarize my files", ApprovalState::NotRequested);
    let b = ssh_config_read("debug ssh connection failure", ApprovalState::Granted);
    assert_eq!((&a.subject, &a.action, &a.resource), (&b.subject, &b.action, &b.resource));
    assert_ne!(a.intent, b.intent);
    assert_ne!(a.user_approval, b.user_approval);
}

fn answer(q: PolicyQuestion, a: AnswerOutcome) -> QuestionAnswer {
    QuestionAnswer {
        question: q,
        answer: a,
        reason: format!("test reason for {q:?}"),
        trace_id: format!("trace-{}", q.position()),
    }
}

fn all_yes_set() -> PolicyAnswerSet {
    PolicyAnswerSet {
        schema_version: SCHEMA_VERSION.into(),
        answers: PolicyQuestion::all()
            .into_iter()
            .map(|q| answer(q, AnswerOutcome::Yes))
            .collect(),
    }
}

#[test]
fn seven_questions_positioned_1_to_7() {
    for (q, p) in [
        (PolicyQuestion::ModelSeesContext, 1),
        (PolicyQuestion::AgentUsesTool, 2),
        (PolicyQuestion::WorkflowCallsCloud, 3),
        (PolicyQuestion::SandboxAccessesNetwork, 4),
        (PolicyQuestion::MemoryWriteAllowed, 5),
        (PolicyQuestion::ActionMutatesFiles, 6),
        (PolicyQuestion::ResultCommitted, 7),
    ] {
        assert_eq!(q.position(), p);
    }
}

#[test]
fn seven_questions_text_verbatim() {
    assert_eq!(PolicyQuestion::ModelSeesContext.text(), "Can this model see this context?");
    assert_eq!(PolicyQuestion::AgentUsesTool.text(), "Can this agent use this tool?");
    assert_eq!(PolicyQuestion::WorkflowCallsCloud.text(), "Can this workflow call cloud?");
    assert_eq!(PolicyQuestion::SandboxAccessesNetwork.text(), "Can this sandbox access network?");
    assert_eq!(PolicyQuestion::MemoryWriteAllowed.text(), "Can this memory be written?");
    assert_eq!(PolicyQuestion::ActionMutatesFiles.text(), "Can this action mutate files?");
    assert_eq!(PolicyQuestion::ResultCommitted.text(), "Can this result be committed?");
}

#[test]
fn all_returns_7_in_canonical_order() {
    let a = PolicyQuestion::all();
    assert_eq!(a.len(), 7);
    for (i, q) in a.iter().enumerate() {
        assert_eq!(q.position(), (i + 1) as u8);
    }
}

#[test]
fn all_yes_set_validates() {
    all_yes_set().validate().unwrap();
}

#[test]
fn answer_count_invalid_rejected() {
    let mut s = all_yes_set();
    s.answers.pop();
    assert!(matches!(s.validate().unwrap_err(), PolicyQuestionError::AnswerCountInvalid(6)));
}

#[test]
fn missing_question_caught_when_replaced() {
    let mut s = all_yes_set();
    s.answers[0] = answer(PolicyQuestion::AgentUsesTool, AnswerOutcome::Yes);
    let err = s.validate().unwrap_err();
    assert!(matches!(
        err,
        PolicyQuestionError::QuestionMissing(PolicyQuestion::ModelSeesContext)
            | PolicyQuestionError::DuplicateQuestion(PolicyQuestion::AgentUsesTool)
    ));
}

#[test]
fn missing_question_is_reported_before_the_duplicate() {
    let mut s = all_yes_set();
    s.answers[0] = answer(PolicyQuestion::AgentUsesTool, AnswerOutcome::Yes);
    assert!(matches!(
        s.validate().unwrap_err(),
        PolicyQuestionError::QuestionMissing(PolicyQuestion::ModelSeesContext)
    ));
}

#[test]
fn schema_mismatch_reports_both_versions() {
    let mut s = all_yes_set();
    s.schema_version = "2.0.0".into();
    match s.validate().unwrap_err() {
        PolicyQuestionError::SchemaMismatch { expected, actual } => {
            assert_eq!(expected, "1.0.0");
            assert_eq!(actual, "2.0.0");
        }
        other => panic!("unexpected: {other:?}"),
    }
}

#[test]
fn all_yes_returns_true_when_all_yes() {
    let s = all_yes_set();
    assert!(s.all_yes());
    assert!(!s.any_no());
    assert!(!s.any_ask());
}

#[test]
fn any_no_detects_one_no() {
    let mut s = all_yes_set();
    s.answers[2].answer = AnswerOutcome::No;
    assert!(!s.all_yes());
    assert!(s.any_no());
    let refused = s.refused_questions();
    assert_eq!(refused, vec![PolicyQuestion::WorkflowCallsCloud]);
}

#[test]
fn any_ask_detects_one_ask() {
    let mut s = all_yes_set();
    s.answers[5].answer = AnswerOutcome::Ask;
    assert!(!s.all_yes());
    assert!(s.any_ask());
    assert!(!s.any_no());
}

#[test]
fn refused_questions_keep_answer_order() {
    let mut s = all_yes_set();
    s.answers[6].answer = AnswerOutcome::No;
    s.answers[1].answer = AnswerOutcome::No;
    assert_eq!(
        s.refused_questions(),
        vec![PolicyQuestion::AgentUsesTool, PolicyQuestion::ResultCommitted]
    );
}

#[test]
fn doctrines_verbatim() {
    assert_eq!(
        DOCTRINE_AGENT_REQUIREMENT,
        "Can subject do action on object for this intent under this profile?"
    );
    assert_eq!(DOCTRINE_THAT_IS_SOVEREIGNTY, "That is sovereignty");
    assert_doctrines_intact(DOCTRINE_AGENT_REQUIREMENT, DOCTRINE_THAT_IS_SOVEREIGNTY).unwrap();
}

#[test]
fn doctrine_tamper_caught() {
    let err = assert_doctrines_intact("WRONG", DOCTRINE_THAT_IS_SOVEREIGNTY).unwrap_err();
    assert!(matches!(err, PolicyQuestionError::DoctrineTampered { .. }));
    let err2 = assert_doctrines_intact(DOCTRINE_AGENT_REQUIREMENT, "WRONG").unwrap_err();
    assert!(matches!(err2, PolicyQuestionError::DoctrineTampered { .. }));
}

#[test]
fn tampered_doctrine_names_the_expected_text() {
    match assert_doctrines_intact(DOCTRINE_AGENT_REQUIREMENT, "x").unwrap_err() {
        PolicyQuestionError::DoctrineTampered { expected } => {
            assert_eq!(expected, "That is sovereignty")
        }
        other => panic!("unexpected: {other:?}"),
    }
}
