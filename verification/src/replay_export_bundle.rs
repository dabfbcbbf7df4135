//! An exportable replay session bundle: a conversation thread, a replay
//! cursor and a bookmark set in one envelope, cross-validated so that the
//! cursor and every bookmark reference the bundled thread by id.
use crate::execution_mode::ExecutionMode;
use crate::replay_bookmark_set::{labelled, Bookmark, BookmarkSet, ColorTag};
use crate::replay_cursor::{ReplayCursor, TurnRole};
use crate::text::{is_empty_str, owned, str_eq};
use vstd::prelude::*;

verus! {

/// Schema version.
pub const SCHEMA_VERSION: &'static str = "1.0.0";

/// The parts of a conversation thread a replay bundle carries: its id, when
/// it was created, and the role of each turn in order.
#[derive(Debug, Clone, PartialEq, Eq)]
pub struct ConversationThread {
    /// The thread's id.
    pub thread_id: String,
    /// ISO-8601 UTC creation time.
    pub created_at: String,
    /// The role of each turn, in order.
    pub turns: Vec<TurnRole>,
}

impl ConversationThread {
    /// An empty thread.
    pub fn new(thread_id: &str, created_at: &str) -> (r: Self)
        ensures
            r.thread_id@ == thread_id@,
            r.created_at@ == created_at@,
            r.turns@.len() == 0,
    {
        ConversationThread { thread_id: owned(thread_id), created_at: owned(created_at), turns: Vec::new() }
    }

    /// Append a turn with role `role`.
    pub fn append(&mut self, role: TurnRole)
        ensures
            final(self).thread_id == old(self).thread_id,
            final(self).created_at == old(self).created_at,
            final(self).turns@ == old(self).turns@.push(role),
    {
        self.turns.push(role);
    }
}

/// Export bundle envelope.
#[derive(Debug, Clone, PartialEq, Eq)]
pub struct ExportBundle {
    /// Schema version.
    pub schema_version: String,
    /// Thread.
    pub thread: ConversationThread,
    /// Cursor.
    pub cursor: ReplayCursor,
    /// Bookmarks.
    pub bookmarks: BookmarkSet,
    /// ISO-8601 UTC export time.
    pub exported_at: String,
    /// Fingerprint of the exporting operator.
    pub exported_by: String,
}

/// Errors.
#[derive(Debug, Clone, PartialEq, Eq)]
pub enum ExportError {
    /// Schema drift.
    SchemaMismatch,
    /// exported_at empty.
    MissingTimestamp,
    /// exported_by empty.
    MissingExporter,
    /// Cursor thread_id != bundled thread.
    CursorThreadMismatch {
        /// cursor.
        cursor: String,
        /// thread.
        thread: String,
    },
    /// Bookmark references another thread.
    BookmarkThreadMismatch {
        /// label.
        label: String,
        /// thread.
        thread: String,
        /// bundle_thread.
        bundle_thread: String,
    },
}

/// The abstract value of an error.
pub ghost enum ExportFault {
    /// Schema drift.
    SchemaMismatch,
    /// exported_at empty.
    MissingTimestamp,
    /// exported_by empty.
    MissingExporter,
    /// Cursor thread id, bundled thread id.
    CursorThreadMismatch(Seq<char>, Seq<char>),
    /// Bookmark label, its thread id, bundled thread id.
    BookmarkThreadMismatch(Seq<char>, Seq<char>, Seq<char>),
}

impl View for ExportError {
    type V = ExportFault;

    open spec fn view(&self) -> ExportFault {
        match self {
            ExportError::SchemaMismatch => ExportFault::SchemaMismatch,
            ExportError::MissingTimestamp => ExportFault::MissingTimestamp,
            ExportError::MissingExporter => ExportFault::MissingExporter,
            ExportError::CursorThreadMismatch { cursor, thread } => ExportFault::CursorThreadMismatch(
                cursor@,
                thread@,
            ),
            ExportError::BookmarkThreadMismatch { label, thread, bundle_thread } =>
                ExportFault::BookmarkThreadMismatch(label@, thread@, bundle_thread@),
        }
    }
}

/// The first bookmark of `bs` on a thread other than `thread_id`.
pub open spec fn first_foreign(bs: Seq<Bookmark>, thread_id: Seq<char>) -> Option<Bookmark>
    decreases bs.len(),
{
    if bs.len() == 0 {
        None
    } else if bs[0].thread_id@ != thread_id {
        Some(bs[0])
    } else {
        first_foreign(bs.drop_first(), thread_id)
    }
}

/// What is wrong with bundle `b` whose thread has id `thread_id`, checked in
/// this order: schema, export time, exporter, cursor thread, bookmarks.
pub open spec fn export_check(b: ExportBundle, thread_id: Seq<char>) -> Option<ExportFault> {
    if b.schema_version@ != SCHEMA_VERSION@ {
        Some(ExportFault::SchemaMismatch)
    } else if b.exported_at@.len() == 0 {
        Some(ExportFault::MissingTimestamp)
    } else if b.exported_by@.len() == 0 {
        Some(ExportFault::MissingExporter)
    } else if b.cursor.thread_id@ != thread_id {
        Some(ExportFault::CursorThreadMismatch(b.cursor.thread_id@, thread_id))
    } else {
        match first_foreign(b.bookmarks.bookmarks@, thread_id) {
            Some(bm) => Some(ExportFault::BookmarkThreadMismatch(bm.label@, bm.thread_id@, thread_id)),
            None => None,
        }
    }
}

impl ExportBundle {
    /// Build.
    pub fn build(thread: ConversationThread, cursor: ReplayCursor, bookmarks: BookmarkSet, at: &str, by: &str) -> (r:
        Self)
        ensures
            r.schema_version@ == SCHEMA_VERSION@,
            r.thread == thread,
            r.cursor == cursor,
            r.bookmarks == bookmarks,
            r.exported_at@ == at@,
            r.exported_by@ == by@,
    {
        ExportBundle {
            schema_version: owned(SCHEMA_VERSION),
            thread,
            cursor,
            bookmarks,
            exported_at: owned(at),
            exported_by: owned(by),
        }
    }

    /// Validate the bundle: schema, export time and exporter, then that the
    /// cursor and every bookmark reference the bundled thread.
    pub fn validate(&self) -> (r: Result<(), ExportError>)
        ensures
            match export_check(*self, self.thread.thread_id@) {
                Some(f) => r matches Err(e) && e@ == f,
                None => r is Ok,
            },
    {
        let thread_id = self.thread.thread_id.as_str();
        if !str_eq(self.schema_version.as_str(), SCHEMA_VERSION) {
            return Err(ExportError::SchemaMismatch);
        }
        if is_empty_str(self.exported_at.as_str()) {
            return Err(ExportError::MissingTimestamp);
        }
        if is_empty_str(self.exported_by.as_str()) {
            return Err(ExportError::MissingExporter);
        }
        if !str_eq(self.cursor.thread_id.as_str(), thread_id) {
            return Err(
                ExportError::CursorThreadMismatch {
                    cursor: self.cursor.thread_id.clone(),
                    thread: owned(thread_id),
                },
            );
        }
        let bs = &self.bookmarks.bookmarks;
        let mut i: usize = 0;
        proof {
            assert(bs@.skip(0) =~= bs@);
        }
        while i < bs.len()
            invariant
                i <= bs@.len(),
                bs@ == self.bookmarks.bookmarks@,
                self.schema_version@ == SCHEMA_VERSION@,
                self.exported_at@.len() > 0,
                self.exported_by@.len() > 0,
                self.cursor.thread_id@ == thread_id@,
                thread_id@ == self.thread.thread_id@,
                first_foreign(bs@, thread_id@) == first_foreign(bs@.skip(i as int), thread_id@),
            decreases bs@.len() - i,
        {
            proof {
                assert(bs@.skip(i as int).drop_first() =~= bs@.skip(i + 1));
            }
            if !str_eq(bs[i].thread_id.as_str(), thread_id) {
                proof {
                    assert(bs@.skip(i as int)[0] == bs@[i as int]);
                }
                return Err(
                    ExportError::BookmarkThreadMismatch {
                        label: bs[i].label.clone(),
                        thread: bs[i].thread_id.clone(),
                        bundle_thread: owned(thread_id),
                    },
                );
            }
            i += 1;
        }
        Ok(())
    }
}

/// A small, internally consistent bundle: a four-turn debug thread, a replay
/// cursor opened over it, and two bookmarks that reference it by id. It
/// passes validation.
pub fn example_bundle() -> (r: ExportBundle)
    ensures
        export_check(r, r.thread.thread_id@) is None,
        r.thread.thread_id@ == "th-demo-42"@,
        r.thread.turns@ == seq![TurnRole::Operator, TurnRole::Model, TurnRole::Tool, TurnRole::Model],
        r.cursor.thread_id@ == r.thread.thread_id@,
        r.cursor.total_turns == 4,
        r.cursor.next_index == 0,
        r.bookmarks.bookmarks@.len() == 2,
        r.bookmarks.bookmarks@[0].label@ == "symptom"@,
        r.bookmarks.bookmarks@[0].turn_index == 0,
        r.bookmarks.bookmarks@[1].label@ == "root-cause"@,
        r.bookmarks.bookmarks@[1].turn_index == 3,
        r.exported_at@ == "2026-05-19T03:05:00Z"@,
        r.exported_by@ == "op:MS003:demo-fingerprint"@,
{
    proof {
        reveal_strlit("th-demo-42");
        reveal_strlit("symptom");
        reveal_strlit("root-cause");
        reveal_strlit("2026-05-19T03:05:00Z");
        reveal_strlit("op:MS003:demo-fingerprint");
    }
    let mut thread = ConversationThread::new("th-demo-42", "2026-05-19T03:00:00Z");
    thread.append(TurnRole::Operator);
    thread.append(TurnRole::Model);
    thread.append(TurnRole::Tool);
    thread.append(TurnRole::Model);
    let cursor = ReplayCursor::open(thread.thread_id.as_str(), thread.turns.len(), ExecutionMode::Replay).unwrap();
    let turns: u32 = 4;
    let mut bookmarks = BookmarkSet::new();
    let first = Bookmark {
        label: owned("symptom"),
        thread_id: owned(thread.thread_id.as_str()),
        turn_index: 0,
        color: ColorTag::Red,
        note: owned("operator's original question"),
    };
    bookmarks.add(first, thread.thread_id.as_str(), turns).unwrap();
    let second = Bookmark {
        label: owned("root-cause"),
        thread_id: owned(thread.thread_id.as_str()),
        turn_index: 3,
        color: ColorTag::Green,
        note: owned("snapshot intact — safe rollback point"),
    };
    proof {
        assert(!labelled(bookmarks.bookmarks@, bookmarks.bookmarks@.len() as int, second.label@)) by {
            if labelled(bookmarks.bookmarks@, bookmarks.bookmarks@.len() as int, second.label@) {
                assert(bookmarks.bookmarks@[0].label@.len() != second.label@.len());
            }
        }
    }
    bookmarks.add(second, thread.thread_id.as_str(), turns).unwrap();
    let r = ExportBundle::build(thread, cursor, bookmarks, "2026-05-19T03:05:00Z", "op:MS003:demo-fingerprint");
    proof {
        let bs = r.bookmarks.bookmarks@;
        let tid = r.thread.thread_id@;
        assert(bs[0].thread_id@ == tid);
        assert(bs[1].thread_id@ == tid);
        assert(bs.drop_first()[0] == bs[1]);
        assert(bs.drop_first().drop_first() =~= Seq::<Bookmark>::empty());
        assert(first_foreign(bs.drop_first().drop_first(), tid) is None);
        assert(first_foreign(bs.drop_first(), tid) is None);
        assert(first_foreign(bs, tid) is None);
    }
    r
}

} // verus!
