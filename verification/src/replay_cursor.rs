//! A turn-walking cursor for replay sessions.
//!
//! A `ReplayCursor` walks the turns of a conversation thread under the
//! `Replay` execution mode: `step` advances one turn, `pause` and `resume`
//! hold and release it, `jump_to` seeks, and an optional breakpoint role
//! pauses the cursor before any turn of that role.
//!
//! The cursor reads of a thread only its id, its number of turns and the
//! role of each turn; `step` answers with the index of the turn it played.
use crate::execution_mode::ExecutionMode;
use crate::text::{owned, str_eq};
use vstd::prelude::*;

verus! {

/// Schema version.
pub const SCHEMA_VERSION: &'static str = "1.0.0";

/// Who produced a turn of a conversation.
#[derive(Debug, Clone, Copy, PartialEq, Eq, Hash, Structural)]
pub enum TurnRole {
    /// The operator.
    Operator,
    /// The model.
    Model,
    /// A tool.
    Tool,
}

/// Playback state.
#[derive(Debug, Clone, Copy, PartialEq, Eq, Hash, Structural)]
pub enum PlaybackState {
    /// Cursor not started.
    Idle,
    /// Currently advancing.
    Running,
    /// Paused on breakpoint or manual pause.
    Paused,
    /// All turns consumed.
    Finished,
}

/// The cursor.
#[derive(Debug, Clone, PartialEq, Eq)]
pub struct ReplayCursor {
    /// Schema version.
    pub schema_version: String,
    /// Thread id this cursor walks.
    pub thread_id: String,
    /// Total turns in the thread.
    pub total_turns: u32,
    /// Next turn index to play (0..=total_turns).
    pub next_index: u32,
    /// Current playback state.
    pub state: PlaybackState,
    /// Optional breakpoint role: pause before any turn of this role.
    pub breakpoint_role: Option<TurnRole>,
    /// Mode the cursor is operating under (must be Replay to advance).
    pub mode: ExecutionMode,
    /// Skip the next breakpoint check (set by `resume()` so we advance past).
    pub skip_next_breakpoint: bool,
}

/// Errors.
#[derive(Debug, Clone, PartialEq, Eq)]
pub enum CursorError {
    /// Schema drift.
    SchemaMismatch,
    /// Cursor's thread_id doesn't match the supplied thread.
    ThreadMismatch {
        /// cursor.
        cursor: String,
        /// thread.
        thread: String,
    },
    /// Cursor's total_turns doesn't match thread.
    CountMismatch {
        /// cursor.
        cursor: u32,
        /// thread.
        thread: u32,
    },
    /// Operation requires Replay mode.
    NotReplayMode(ExecutionMode),
    /// Jump out of bounds.
    JumpOutOfBounds {
        /// idx.
        idx: u32,
        /// total.
        total: u32,
    },
    /// Cursor finished: no more turns.
    Finished,
    /// Cursor paused: call resume() first.
    Paused,
}

/// The abstract value of an error.
pub ghost enum CursorFault {
    /// Schema drift.
    SchemaMismatch,
    /// Thread id mismatch (cursor's, thread's).
    ThreadMismatch(Seq<char>, Seq<char>),
    /// Turn count mismatch (cursor's, thread's).
    CountMismatch(u32, u32),
    /// Not in Replay mode.
    NotReplayMode(ExecutionMode),
    /// Jump out of bounds (index, total).
    JumpOutOfBounds(u32, u32),
    /// Finished.
    Finished,
    /// Paused.
    Paused,
}

impl View for CursorError {
    type V = CursorFault;

    open spec fn view(&self) -> CursorFault {
        match self {
            CursorError::SchemaMismatch => CursorFault::SchemaMismatch,
            CursorError::ThreadMismatch { cursor, thread } => CursorFault::ThreadMismatch(
                cursor@,
                thread@,
            ),
            CursorError::CountMismatch { cursor, thread } => CursorFault::CountMismatch(
                *cursor,
                *thread,
            ),
            CursorError::NotReplayMode(m) => CursorFault::NotReplayMode(*m),
            CursorError::JumpOutOfBounds { idx, total } => CursorFault::JumpOutOfBounds(
                *idx,
                *total,
            ),
            CursorError::Finished => CursorFault::Finished,
            CursorError::Paused => CursorFault::Paused,
        }
    }
}

/// Why a cursor does not fit the thread `thread_id` of `n` turns, checked
/// in this order: schema, thread id, turn count.
pub open spec fn cursor_check(c: ReplayCursor, thread_id: Seq<char>, n: nat) -> Option<CursorFault> {
    if c.schema_version@ != SCHEMA_VERSION@ {
        Some(CursorFault::SchemaMismatch)
    } else if c.thread_id@ != thread_id {
        Some(CursorFault::ThreadMismatch(c.thread_id@, thread_id))
    } else if c.total_turns as nat != n {
        Some(CursorFault::CountMismatch(c.total_turns, n as u32))
    } else {
        None
    }
}

/// The cursor's position and state agree: it never points past the end, and
/// a finished cursor is at the end.
pub open spec fn consistent(c: ReplayCursor) -> bool {
    &&& c.next_index <= c.total_turns
    &&& c.state == PlaybackState::Finished ==> c.next_index == c.total_turns
}

/// `b` is `a` with only its position, state and breakpoint skip changed.
pub open spec fn same_session(a: ReplayCursor, b: ReplayCursor) -> bool {
    &&& b.schema_version == a.schema_version
    &&& b.thread_id == a.thread_id
    &&& b.total_turns == a.total_turns
    &&& b.breakpoint_role == a.breakpoint_role
    &&& b.mode == a.mode
}

/// What `step` does to cursor `a` over the thread `thread_id` with turn
/// roles `roles`, ending at `b` with answer `r`.
pub open spec fn step_spec(
    a: ReplayCursor,
    b: ReplayCursor,
    thread_id: Seq<char>,
    roles: Seq<TurnRole>,
    r: Result<Option<usize>, CursorError>,
) -> bool {
    match cursor_check(a, thread_id, roles.len()) {
        Some(f) => b == a && (r matches Err(e) && e@ == f),
        None => if a.mode != ExecutionMode::Replay {
            b == a && (r matches Err(e) && e@ == CursorFault::NotReplayMode(a.mode))
        } else if a.state == PlaybackState::Paused {
            b == a && (r matches Err(e) && e@ == CursorFault::Paused)
        } else if a.state == PlaybackState::Finished || a.next_index >= a.total_turns {
            b == a && r == Ok::<Option<usize>, CursorError>(None)
        } else if a.breakpoint_role == Some(roles[a.next_index as int])
            && !a.skip_next_breakpoint {
            &&& same_session(a, b)
            &&& b.next_index == a.next_index
            &&& b.skip_next_breakpoint == a.skip_next_breakpoint
            &&& b.state == PlaybackState::Paused
            &&& r matches Err(e) && e@ == CursorFault::Paused
        } else {
            &&& same_session(a, b)
            &&& b.next_index == a.next_index + 1
            &&& !b.skip_next_breakpoint
            &&& b.state == if a.next_index + 1 == a.total_turns {
                PlaybackState::Finished
            } else {
                PlaybackState::Running
            }
            &&& r == Ok::<Option<usize>, CursorError>(Some(a.next_index as usize))
        },
    }
}

impl ReplayCursor {
    /// Open a cursor over the thread `thread_id` of `turn_count` turns under
    /// `mode`, which must be `Replay`. The turn count is kept as a `u32`.
    pub fn open(thread_id: &str, turn_count: usize, mode: ExecutionMode) -> (r: Result<
        Self,
        CursorError,
    >)
        ensures
            mode != ExecutionMode::Replay ==> (r matches Err(e) && e@
                == CursorFault::NotReplayMode(mode)),
            mode == ExecutionMode::Replay ==> (r matches Ok(c) && {
                &&& c.schema_version@ == SCHEMA_VERSION@
                &&& c.thread_id@ == thread_id@
                &&& c.total_turns == turn_count as u32
                &&& c.next_index == 0
                &&& c.state == PlaybackState::Idle
                &&& c.breakpoint_role is None
                &&& c.mode == mode
                &&& !c.skip_next_breakpoint
                &&& consistent(c)
            }),
    {
        if mode != ExecutionMode::Replay {
            return Err(CursorError::NotReplayMode(mode));
        }
        Ok(ReplayCursor {
            schema_version: owned(SCHEMA_VERSION),
            thread_id: owned(thread_id),
            total_turns: turn_count as u32,
            next_index: 0,
            state: PlaybackState::Idle,
            breakpoint_role: None,
            mode,
            skip_next_breakpoint: false,
        })
    }

    /// Set the breakpoint role.
    pub fn with_breakpoint(self, role: TurnRole) -> (r: Self)
        ensures
            r == (ReplayCursor { breakpoint_role: Some(role), ..self }),
    {
        let mut c = self;
        c.breakpoint_role = Some(role);
        c
    }

    /// Pause a running cursor.
    pub fn pause(&mut self)
        ensures
            *final(self) == if old(self).state == PlaybackState::Running {
                ReplayCursor { state: PlaybackState::Paused, ..*old(self) }
            } else {
                *old(self)
            },
            consistent(*old(self)) ==> consistent(*final(self)),
    {
        if self.state == PlaybackState::Running {
            self.state = PlaybackState::Paused;
        }
    }

    /// Resume a paused cursor. The next `step()` will not re-arm the
    /// breakpoint on the turn that caused the pause.
    pub fn resume(&mut self)
        ensures
            *final(self) == if old(self).state == PlaybackState::Paused {
                ReplayCursor {
                    state: PlaybackState::Running,
                    skip_next_breakpoint: true,
                    ..*old(self)
                }
            } else {
                *old(self)
            },
            consistent(*old(self)) ==> consistent(*final(self)),
    {
        if self.state == PlaybackState::Paused {
            self.state = PlaybackState::Running;
            self.skip_next_breakpoint = true;
        }
    }

    /// Step one turn forward over the thread `thread_id` whose turns have the
    /// roles `roles`: the index of the turn played, or `None` at the end.
    /// Pauses, with `Paused`, before a turn of the breakpoint role.
    pub fn step(&mut self, thread_id: &str, roles: &[TurnRole]) -> (r: Result<
        Option<usize>,
        CursorError,
    >)
        ensures
            step_spec(*old(self), *final(self), thread_id@, roles@, r),
            consistent(*old(self)) ==> consistent(*final(self)),
    {
        match self.validate(thread_id, roles.len()) {
            Err(e) => {
                return Err(e);
            },
            Ok(()) => {},
        }
        if self.mode != ExecutionMode::Replay {
            return Err(CursorError::NotReplayMode(self.mode));
        }
        if self.state == PlaybackState::Paused {
            return Err(CursorError::Paused);
        }
        if self.state == PlaybackState::Finished || self.next_index >= self.total_turns {
            return Ok(None);
        }
        let idx = self.next_index as usize;
        let role = roles[idx];
        match self.breakpoint_role {
            Some(bp) => {
                if role == bp && !self.skip_next_breakpoint {
                    self.state = PlaybackState::Paused;
                    return Err(CursorError::Paused);
                }
            },
            None => {},
        }
        self.skip_next_breakpoint = false;
        self.state = PlaybackState::Running;
        self.next_index = self.next_index + 1;
        if self.next_index == self.total_turns {
            self.state = PlaybackState::Finished;
        }
        Ok(Some(idx))
    }

    /// Seek to an arbitrary index.
    pub fn jump_to(&mut self, idx: u32) -> (r: Result<(), CursorError>)
        ensures
            idx > old(self).total_turns ==> *final(self) == *old(self) && (r matches Err(e) && e@
                == CursorFault::JumpOutOfBounds(idx, old(self).total_turns)),
            idx <= old(self).total_turns ==> r is Ok && *final(self) == (ReplayCursor {
                next_index: idx,
                state: if idx == old(self).total_turns {
                    PlaybackState::Finished
                } else {
                    PlaybackState::Running
                },
                ..*old(self)
            }),
            consistent(*old(self)) ==> consistent(*final(self)),
    {
        if idx > self.total_turns {
            return Err(CursorError::JumpOutOfBounds { idx, total: self.total_turns });
        }
        self.next_index = idx;
        self.state = if idx == self.total_turns {
            PlaybackState::Finished
        } else {
            PlaybackState::Running
        };
        Ok(())
    }

    /// True if the cursor is at the end.
    pub fn is_finished(&self) -> (r: bool)
        ensures
            r == (self.state == PlaybackState::Finished || self.next_index >= self.total_turns),
    {
        self.state == PlaybackState::Finished || self.next_index >= self.total_turns
    }

    /// Validate that the cursor fits the thread `thread_id` of `turn_count`
    /// turns.
    pub fn validate(&self, thread_id: &str, turn_count: usize) -> (r: Result<(), CursorError>)
        ensures
            match cursor_check(*self, thread_id@, turn_count as nat) {
                Some(f) => r matches Err(e) && e@ == f,
                None => r is Ok,
            },
    {
        if !str_eq(self.schema_version.as_str(), SCHEMA_VERSION) {
            return Err(CursorError::SchemaMismatch);
        }
        if !str_eq(self.thread_id.as_str(), thread_id) {
            return Err(
                CursorError::ThreadMismatch { cursor: self.thread_id.clone(), thread: owned(thread_id) },
            );
        }
        if self.total_turns as usize != turn_count {
            return Err(
                CursorError::CountMismatch { cursor: self.total_turns, thread: turn_count as u32 },
            );
        }
        Ok(())
    }
}

} // verus!
