//! The execution modes the cockpit gates behaviour on.
use vstd::prelude::*;

verus! {

/// An execution mode of the cockpit.
#[derive(Debug, Clone, Copy, PartialEq, Eq, Hash, Structural)]
pub enum ExecutionMode {
    /// Planning: proposals only.
    Plan,
    /// Executing: actions are carried out.
    Execute,
    /// Replaying a recorded session.
    Replay,
}

} // verus!
