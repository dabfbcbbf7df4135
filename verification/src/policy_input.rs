//! The Policy Fabric decision contract: the questions a policy engine
//! answers, the fields of its input and the memory-sensitivity vocabulary.
//! The policy itself lives in the engine, not here.
use vstd::prelude::*;

verus! {

/// The policy decisions the fabric answers.
#[derive(Debug, Clone, Copy, PartialEq, Eq, Hash, Structural)]
pub enum PolicyQuestion {
    /// Can this model see this context?
    ModelSeesContext,
    /// Can this agent use this tool?
    AgentUsesTool,
    /// Can this workflow call cloud?
    WorkflowCallsCloud,
    /// Can this sandbox access network?
    SandboxAccessesNetwork,
    /// Can this memory be written?
    MemoryWrite,
    /// Can this action mutate files?
    FileMutation,
    /// Can this result be committed?
    ResultCommit,
}

impl PolicyQuestion {
    /// Every question, in canonical order.
    pub const ALL: [PolicyQuestion; 7] = [
        PolicyQuestion::ModelSeesContext,
        PolicyQuestion::AgentUsesTool,
        PolicyQuestion::WorkflowCallsCloud,
        PolicyQuestion::SandboxAccessesNetwork,
        PolicyQuestion::MemoryWrite,
        PolicyQuestion::FileMutation,
        PolicyQuestion::ResultCommit,
    ];
}

/// The memory sensitivity classes: memory is not neutral.
#[derive(Debug, Clone, Copy, PartialEq, Eq, Hash, Structural)]
pub enum SensitivityClass {
    /// private
    Private,
    /// project-local
    ProjectLocal,
    /// cloud-forbidden
    CloudForbidden,
    /// time-limited
    TimeLimited,
    /// user-only
    UserOnly,
    /// quarantined
    Quarantined,
    /// verified
    Verified,
    /// derived
    Derived,
    /// raw
    Raw,
}

impl SensitivityClass {
    /// Every sensitivity class, in canonical order.
    pub const ALL: [SensitivityClass; 9] = [
        SensitivityClass::Private,
        SensitivityClass::ProjectLocal,
        SensitivityClass::CloudForbidden,
        SensitivityClass::TimeLimited,
        SensitivityClass::UserOnly,
        SensitivityClass::Quarantined,
        SensitivityClass::Verified,
        SensitivityClass::Derived,
        SensitivityClass::Raw,
    ];
}

/// Risk level for the action.
#[derive(Debug, Clone, Copy, PartialEq, Eq, Hash, Structural)]
pub enum RiskLevel {
    /// Low risk.
    Low,
    /// Medium risk.
    Medium,
    /// High risk.
    High,
    /// Critical risk.
    Critical,
}

/// The side-effect class of an action (its blast radius if it goes wrong).
#[derive(Debug, Clone, Copy, PartialEq, Eq, Hash, Structural)]
pub enum SideEffectClass {
    /// No side effects (pure read/compute).
    NoEffect,
    /// Reads only.
    ReadOnly,
    /// Writes files.
    FileWrite,
    /// Makes a network call.
    NetworkCall,
    /// Irreversible / destructive.
    Destructive,
}

/// User approval state for the action.
#[derive(Debug, Clone, Copy, PartialEq, Eq, Hash, Structural)]
pub enum ApprovalState {
    /// No approval requested (default).
    NotRequested,
    /// Approval requested, awaiting the human gate.
    Pending,
    /// Granted by the user.
    Granted,
    /// Denied by the user.
    Denied,
}

/// The intent-based policy input. Unlike classic authorization it carries
/// `intent`, `profile` and `user_approval`: the same (subject, action,
/// resource) can be denied for one intent and allowed for another.
#[derive(Debug, Clone, PartialEq, Eq)]
pub struct PolicyInput {
    /// Subject (who or what acts).
    pub subject: String,
    /// Action.
    pub action: String,
    /// Resource (the object).
    pub resource: String,
    /// Intent (why: the agent-specific dimension).
    pub intent: String,
    /// Profile in effect.
    pub profile: String,
    /// Risk level.
    pub risk: RiskLevel,
    /// Model / provider doing the work.
    pub model_provider: String,
    /// Context sensitivity of the resource.
    pub context_sensitivity: SensitivityClass,
    /// Side-effect class of the action.
    pub side_effect_class: SideEffectClass,
    /// User approval state.
    pub user_approval: ApprovalState,
}

} // verus!
