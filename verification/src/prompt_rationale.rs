//! Per-dispatch explanation envelope: each model dispatch carries a
//! `Rationale` recording which provider, template, bundle, mode and
//! doctrine drove the decision.
//!
//! The doctrine tag is carried as it is given, of whatever type the caller
//! uses for doctrine tags; nothing here reads it.
use crate::execution_mode::ExecutionMode;
use crate::profile_bundles::BundleName;
use crate::provider_catalog::ProviderId;
use crate::text::{is_empty_str, owned, str_eq};
use vstd::prelude::*;

verus! {

/// Schema version.
pub const SCHEMA_VERSION: &'static str = "1.0.0";

/// One rationale entry.
#[derive(Debug, Clone, PartialEq, Eq)]
pub struct Rationale<D> {
    /// Schema version.
    pub schema_version: String,
    /// Trace id of the dispatch.
    pub trace_id: String,
    /// Provider routed to.
    pub provider: ProviderId,
    /// Template name used (empty when ad-hoc prompt).
    pub template_name: String,
    /// Bundle at dispatch.
    pub bundle: BundleName,
    /// Mode at dispatch.
    pub mode: ExecutionMode,
    /// Driving doctrine.
    pub primary_doctrine: D,
    /// Short operator-readable reason.
    pub reason: String,
    /// ISO-8601 UTC.
    pub at: String,
}

/// Errors.
#[derive(Debug, Clone, Copy, PartialEq, Eq, Structural)]
pub enum RationaleError {
    /// Schema drift.
    SchemaMismatch,
    /// Empty trace_id.
    MissingTraceId,
    /// Empty reason.
    MissingReason,
    /// Empty timestamp.
    MissingTimestamp,
}

/// What is wrong with a rationale, checked in this order: schema, trace id,
/// reason, timestamp.
pub open spec fn rationale_check<D>(r: Rationale<D>) -> Option<RationaleError> {
    if r.schema_version@ != SCHEMA_VERSION@ {
        Some(RationaleError::SchemaMismatch)
    } else if r.trace_id@.len() == 0 {
        Some(RationaleError::MissingTraceId)
    } else if r.reason@.len() == 0 {
        Some(RationaleError::MissingReason)
    } else if r.at@.len() == 0 {
        Some(RationaleError::MissingTimestamp)
    } else {
        None
    }
}

impl<D> Rationale<D> {
    /// Build a rationale.
    pub fn build(
        trace_id: &str,
        provider: ProviderId,
        template_name: &str,
        bundle: BundleName,
        mode: ExecutionMode,
        primary_doctrine: D,
        reason: &str,
        at: &str,
    ) -> (r: Self)
        ensures
            r.schema_version@ == SCHEMA_VERSION@,
            r.trace_id@ == trace_id@,
            r.provider == provider,
            r.template_name@ == template_name@,
            r.bundle == bundle,
            r.mode == mode,
            r.primary_doctrine == primary_doctrine,
            r.reason@ == reason@,
            r.at@ == at@,
    {
        Rationale {
            schema_version: owned(SCHEMA_VERSION),
            trace_id: owned(trace_id),
            provider,
            template_name: owned(template_name),
            bundle,
            mode,
            primary_doctrine,
            reason: owned(reason),
            at: owned(at),
        }
    }

    /// Validate.
    pub fn validate(&self) -> (r: Result<(), RationaleError>)
        ensures
            match rationale_check(*self) {
                Some(e) => r == Err::<(), RationaleError>(e),
                None => r is Ok,
            },
    {
        if !str_eq(self.schema_version.as_str(), SCHEMA_VERSION) {
            return Err(RationaleError::SchemaMismatch);
        }
        if is_empty_str(self.trace_id.as_str()) {
            return Err(RationaleError::MissingTraceId);
        }
        if is_empty_str(self.reason.as_str()) {
            return Err(RationaleError::MissingReason);
        }
        if is_empty_str(self.at.as_str()) {
            return Err(RationaleError::MissingTimestamp);
        }
        Ok(())
    }

    /// True if this rationale used a template (vs an ad-hoc prompt).
    pub fn used_template(&self) -> (r: bool)
        ensures
            r == (self.template_name@.len() > 0),
    {
        !is_empty_str(self.template_name.as_str())
    }
}

} // verus!
