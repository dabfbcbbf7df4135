//! An operator prompt-recall buffer: a bounded FIFO of recent prompts.
//! `push` drops a prompt equal to the most recent one; `prev` and `next`
//! walk a cursor for up/down recall.
use crate::text::str_eq;
use vstd::prelude::*;

verus! {

/// Schema version.
pub const SCHEMA_VERSION: &'static str = "1.0.0";

/// Maximum entries retained.
pub const MAX_ENTRIES: usize = 500;

/// The history ring.
#[derive(Debug, Clone, PartialEq, Eq)]
pub struct PromptHistoryRing {
    /// Schema version.
    pub schema_version: String,
    /// Prompts, oldest first.
    pub entries: Vec<String>,
    /// Current cursor position for recall (`None` = at the end).
    pub cursor: Option<usize>,
}

/// Errors.
#[derive(Debug, Clone, Copy, PartialEq, Eq, Structural)]
pub enum HistoryError {
    /// Schema drift.
    SchemaMismatch,
    /// Empty entry.
    EmptyEntry,
}

/// The views of a list of strings.
pub open spec fn texts(v: Seq<String>) -> Seq<Seq<char>> {
    v.map_values(|s: String| s@)
}

/// `es` with `p` appended, keeping only the newest `MAX_ENTRIES`.
pub open spec fn appended(es: Seq<Seq<char>>, p: Seq<char>) -> Seq<Seq<char>> {
    let a = es.push(p);
    if a.len() > MAX_ENTRIES {
        a.skip(a.len() - MAX_ENTRIES)
    } else {
        a
    }
}

/// The cursor after stepping back over `n` entries: to the newest from the
/// end, one older otherwise, staying on the oldest.
pub open spec fn cursor_after_prev(n: nat, cursor: Option<usize>) -> Option<usize> {
    if n == 0 {
        cursor
    } else {
        match cursor {
            None => Some((n - 1) as usize),
            Some(c) => if c == 0 {
                Some(0usize)
            } else {
                Some((c - 1) as usize)
            },
        }
    }
}

/// The cursor after stepping forward over `n` entries: one newer, or off the
/// end.
pub open spec fn cursor_after_next(n: nat, cursor: Option<usize>) -> Option<usize> {
    match cursor {
        None => None,
        Some(c) => if c + 1 >= n {
            None
        } else {
            Some((c + 1) as usize)
        },
    }
}

impl PromptHistoryRing {
    /// A cursor that `prev` and `next` can move without leaving the entries:
    /// at the end, or on an entry.
    pub open spec fn cursor_ok(&self) -> bool {
        match self.cursor {
            None => true,
            Some(c) => c < self.entries@.len(),
        }
    }

    /// A cursor from which `prev` can step back: with no entries any cursor,
    /// else at the end or at most one past the newest entry.
    pub open spec fn cursor_in_reach(&self) -> bool {
        self.entries@.len() > 0 ==> match self.cursor {
            None => true,
            Some(c) => c <= self.entries@.len(),
        }
    }

    /// A new, empty ring.
    pub fn new() -> (r: Self)
        ensures
            r.schema_version@ == SCHEMA_VERSION@,
            r.entries@.len() == 0,
            r.cursor is None,
    {
        PromptHistoryRing { schema_version: SCHEMA_VERSION.to_owned(), entries: Vec::new(), cursor: None }
    }

    /// Add a prompt, unless it is empty (an error) or equal to the most
    /// recent entry (nothing changes). Adding resets the cursor and drops the
    /// oldest entries beyond `MAX_ENTRIES`.
    pub fn push(&mut self, prompt: &str) -> (r: Result<(), HistoryError>)
        ensures
            final(self).schema_version == old(self).schema_version,
            prompt@.len() == 0 ==> r == Err::<(), HistoryError>(HistoryError::EmptyEntry)
                && final(self).entries == old(self).entries && final(self).cursor == old(self).cursor,
            prompt@.len() > 0 && old(self).entries@.len() > 0 && old(self).entries@.last()@
                == prompt@ ==> r is Ok && final(self).entries == old(self).entries
                && final(self).cursor == old(self).cursor,
            prompt@.len() > 0 && !(old(self).entries@.len() > 0 && old(self).entries@.last()@
                == prompt@) ==> r is Ok && texts(final(self).entries@) == appended(
                texts(old(self).entries@),
                prompt@,
            ) && final(self).cursor is None,
    {
        if prompt.is_empty() {
            return Err(HistoryError::EmptyEntry);
        }
        let n = self.entries.len();
        if n > 0 && str_eq(self.entries[n - 1].as_str(), prompt) {
            return Ok(());
        }
        let ghost a = texts(self.entries@).push(prompt@);
        self.entries.push(prompt.to_owned());
        proof {
            assert(texts(self.entries@) =~= a);
            assert(a.skip(0) =~= a);
        }
        let ghost mut dropped: int = 0;
        let ghost sv = self.schema_version;
        while self.entries.len() > MAX_ENTRIES
            invariant
                self.schema_version == sv,
                0 <= dropped,
                dropped > 0 ==> self.entries@.len() >= MAX_ENTRIES,
                dropped + self.entries@.len() == a.len(),
                texts(self.entries@) == a.skip(dropped),
            decreases self.entries@.len(),
        {
            let ghost before = self.entries@;
            self.entries.remove(0);
            proof {
                assert(self.entries@ =~= before.skip(1));
                assert(texts(self.entries@) =~= texts(before).skip(1));
                assert(a.skip(dropped).skip(1) =~= a.skip(dropped + 1));
                dropped = dropped + 1;
            }
        }
        proof {
            if a.len() > MAX_ENTRIES {
                assert(dropped == a.len() - MAX_ENTRIES);
            } else {
                assert(dropped == 0);
            }
        }
        self.cursor = None;
        Ok(())
    }

    /// Move the cursor to the previous (older) entry and return its text; on
    /// the oldest entry it stays there. `None` when there are no entries.
    pub fn prev(&mut self) -> (r: Option<&str>)
        requires
            old(self).cursor_in_reach(),
        ensures
            final(self).schema_version == old(self).schema_version,
            final(self).entries == old(self).entries,
            final(self).cursor == cursor_after_prev(old(self).entries@.len(), old(self).cursor),
            old(self).entries@.len() > 0 ==> final(self).cursor_ok(),
            old(self).entries@.len() == 0 ==> r is None,
            old(self).entries@.len() > 0 ==> (r matches Some(s) && s@ == old(
                self,
            ).entries@[final(self).cursor->0 as int]@),
    {
        let n = self.entries.len();
        if n == 0 {
            return None;
        }
        let new_cursor = match self.cursor {
            None => n - 1,
            Some(c) => if c == 0 {
                0
            } else {
                c - 1
            },
        };
        self.cursor = Some(new_cursor);
        Some(self.entries[new_cursor].as_str())
    }

    /// Move the cursor to the next (newer) entry and return its text; `None`
    /// (and the cursor at the end) when it walks off the end or was there.
    pub fn next(&mut self) -> (r: Option<&str>)
        ensures
            final(self).schema_version == old(self).schema_version,
            final(self).entries == old(self).entries,
            final(self).cursor == cursor_after_next(old(self).entries@.len(), old(self).cursor),
            final(self).cursor_ok(),
            final(self).cursor is None ==> r is None,
            final(self).cursor matches Some(c) ==> (r matches Some(s) && s@ == old(
                self,
            ).entries@[c as int]@),
    {
        let cur = match self.cursor {
            None => {
                return None;
            },
            Some(c) => c,
        };
        let n = self.entries.len();
        if n == 0 || cur >= n - 1 {
            self.cursor = None;
            return None;
        }
        self.cursor = Some(cur + 1);
        Some(self.entries[cur + 1].as_str())
    }

    /// Reset the cursor to "at the end".
    pub fn reset_cursor(&mut self)
        ensures
            final(self).schema_version == old(self).schema_version,
            final(self).entries == old(self).entries,
            final(self).cursor is None,
    {
        self.cursor = None;
    }

    /// Number of entries.
    pub fn len(&self) -> (n: usize)
        ensures
            n == self.entries@.len(),
    {
        self.entries.len()
    }

    /// Whether there are no entries.
    pub fn is_empty(&self) -> (r: bool)
        ensures
            r == (self.entries@.len() == 0),
    {
        self.entries.len() == 0
    }

    /// Validate: the schema version, and no empty entry.
    pub fn validate(&self) -> (r: Result<(), HistoryError>)
        ensures
            self.schema_version@ != SCHEMA_VERSION@ ==> r == Err::<(), HistoryError>(
                HistoryError::SchemaMismatch,
            ),
            self.schema_version@ == SCHEMA_VERSION@ && (exists|i: int|
                0 <= i < self.entries@.len() && (#[trigger] self.entries@[i])@.len() == 0) ==> r
                == Err::<(), HistoryError>(HistoryError::EmptyEntry),
            self.schema_version@ == SCHEMA_VERSION@ && (forall|i: int|
                0 <= i < self.entries@.len() ==> (#[trigger] self.entries@[i])@.len() > 0) ==> r
                is Ok,
    {
        if !str_eq(self.schema_version.as_str(), SCHEMA_VERSION) {
            return Err(HistoryError::SchemaMismatch);
        }
        let mut i: usize = 0;
        while i < self.entries.len()
            invariant
                i <= self.entries@.len(),
                self.schema_version@ == SCHEMA_VERSION@,
                forall|j: int| 0 <= j < i ==> (#[trigger] self.entries@[j])@.len() > 0,
            decreases self.entries@.len() - i,
        {
            if self.entries[i].as_str().is_empty() {
                return Err(HistoryError::EmptyEntry);
            }
            i += 1;
        }
        Ok(())
    }
}

impl Default for PromptHistoryRing {
    fn default() -> (r: Self)
        ensures
            r.schema_version@ == SCHEMA_VERSION@,
            r.entries@.len() == 0,
            r.cursor is None,
    {
        Self::new()
    }
}

/// Stepping forward undoes a step back from any entry but the oldest: the
/// cursor returns to where it was.
pub proof fn law_next_undoes_prev(n: nat, c: usize)
    requires
        0 < c < n,
    ensures
        cursor_after_next(n, cursor_after_prev(n, Some(c))) == Some(c),
{
}

/// Stepping back from the end and then forward returns to the end.
pub proof fn law_prev_then_next_from_end(n: nat)
    requires
        n > 0,
        n <= usize::MAX,
    ensures
        cursor_after_next(n, cursor_after_prev(n, None)) is None,
{
}

/// The ring never grows beyond `MAX_ENTRIES` once within it.
pub proof fn law_bounded(es: Seq<Seq<char>>, p: Seq<char>)
    requires
        es.len() <= MAX_ENTRIES,
    ensures
        appended(es, p).len() <= MAX_ENTRIES,
        appended(es, p).last() == p,
{
}

} // verus!
