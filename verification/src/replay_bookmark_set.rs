//! Operator-named anchor points in a replay: each bookmark references a turn
//! of a conversation thread by (thread id, turn index).
use crate::text::str_eq;
use vstd::prelude::*;

verus! {

/// Schema version.
pub const SCHEMA_VERSION: &'static str = "1.0.0";

/// Color tags for visual grouping.
#[derive(Debug, Clone, Copy, PartialEq, Eq, Hash, Structural)]
pub enum ColorTag {
    /// Red: error / regression marker.
    Red,
    /// Orange: caution.
    Orange,
    /// Yellow: review.
    Yellow,
    /// Green: known-good.
    Green,
    /// Blue: note.
    Blue,
    /// Purple: pinned highlight.
    Purple,
}

/// One bookmark.
#[derive(Debug, Clone, PartialEq, Eq)]
pub struct Bookmark {
    /// Operator label (non-empty).
    pub label: String,
    /// Thread id.
    pub thread_id: String,
    /// Turn index within the thread.
    pub turn_index: u32,
    /// Color tag.
    pub color: ColorTag,
    /// Operator note.
    pub note: String,
}

/// The bookmark set.
#[derive(Debug, Clone, PartialEq, Eq)]
pub struct BookmarkSet {
    /// Schema version.
    pub schema_version: String,
    /// Bookmarks.
    pub bookmarks: Vec<Bookmark>,
}

/// Errors.
#[derive(Debug)]
pub enum BookmarkError {
    /// Schema drift.
    SchemaMismatch,
    /// Empty label.
    EmptyLabel,
    /// Empty thread id (the bookmark's label).
    EmptyThreadId(String),
    /// Duplicate label.
    DuplicateLabel(String),
    /// Turn index out of range for the supplied thread.
    OutOfRange {
        /// Label.
        label: String,
        /// Index.
        idx: u32,
        /// Turn count.
        total: u32,
    },
}

/// Some bookmark of `bs` before index `end` is labelled `label`.
pub open spec fn labelled(bs: Seq<Bookmark>, end: int, label: Seq<char>) -> bool {
    exists|j: int| 0 <= j < end && (#[trigger] bs[j]).label@ == label
}

/// What is wrong with bookmark `i` given those before it: an empty label, an
/// empty thread id, or a label used before.
pub open spec fn bookmark_fault(bs: Seq<Bookmark>, i: int) -> Option<BookmarkError> {
    if bs[i].label@.len() == 0 {
        Some(BookmarkError::EmptyLabel)
    } else if bs[i].thread_id@.len() == 0 {
        Some(BookmarkError::EmptyThreadId(bs[i].label))
    } else if labelled(bs, i, bs[i].label@) {
        Some(BookmarkError::DuplicateLabel(bs[i].label))
    } else {
        None
    }
}

/// The fault of the first faulty bookmark from index `from` on.
pub open spec fn first_fault(bs: Seq<Bookmark>, from: int) -> Option<BookmarkError>
    decreases bs.len() - from,
{
    if from < 0 || from >= bs.len() {
        None
    } else {
        match bookmark_fault(bs, from) {
            Some(e) => Some(e),
            None => first_fault(bs, from + 1),
        }
    }
}

/// The bookmarks of `bs` on thread `thread_id`, in set order.
pub open spec fn on_thread(bs: Seq<Bookmark>, thread_id: Seq<char>) -> Seq<Bookmark>
    decreases bs.len(),
{
    if bs.len() == 0 {
        Seq::empty()
    } else {
        on_thread(bs.drop_last(), thread_id) + if bs.last().thread_id@ == thread_id {
            seq![bs.last()]
        } else {
            Seq::empty()
        }
    }
}

/// Where `x` goes in `t`, sorted by turn index: after every bookmark with a
/// turn index not above its own.
pub open spec fn turn_insert_pos(t: Seq<Bookmark>, x: Bookmark) -> int
    decreases t.len(),
{
    if t.len() == 0 {
        0
    } else if x.turn_index < t.last().turn_index {
        turn_insert_pos(t.drop_last(), x)
    } else {
        t.len() as int
    }
}

/// `s` stably sorted by turn index.
pub open spec fn by_turn(s: Seq<Bookmark>) -> Seq<Bookmark>
    decreases s.len(),
{
    if s.len() == 0 {
        s
    } else {
        let t = by_turn(s.drop_last());
        t.insert(turn_insert_pos(t, s.last()), s.last())
    }
}

proof fn lemma_turn_insert_pos(t: Seq<Bookmark>, x: Bookmark)
    ensures
        0 <= turn_insert_pos(t, x) <= t.len(),
    decreases t.len(),
{
    if t.len() > 0 {
        lemma_turn_insert_pos(t.drop_last(), x);
    }
}

/// The index of the first bookmark of `bs` labelled `label` (the length if
/// none).
pub open spec fn index_of(bs: Seq<Bookmark>, label: Seq<char>) -> int
    decreases bs.len(),
{
    if bs.len() == 0 {
        0
    } else if index_of(bs.drop_last(), label) < bs.len() - 1 {
        index_of(bs.drop_last(), label)
    } else if bs.last().label@ == label {
        bs.len() - 1
    } else {
        bs.len() as int
    }
}

proof fn lemma_index_of(bs: Seq<Bookmark>, label: Seq<char>)
    ensures
        0 <= index_of(bs, label) <= bs.len(),
        index_of(bs, label) < bs.len() ==> bs[index_of(bs, label)].label@ == label,
        forall|j: int| 0 <= j < index_of(bs, label) ==> (#[trigger] bs[j]).label@ != label,
    decreases bs.len(),
{
    if bs.len() > 0 {
        lemma_index_of(bs.drop_last(), label);
        if index_of(bs.drop_last(), label) < bs.len() - 1 {
            assert(bs.drop_last()[index_of(bs.drop_last(), label)] == bs[index_of(bs, label)]);
        }
        assert forall|j: int| 0 <= j < index_of(bs, label) implies (#[trigger] bs[j]).label@
            != label by {
            if j < bs.len() - 1 {
                assert(bs.drop_last()[j] == bs[j]);
            }
        }
    }
}

/// The index of the first bookmark before `end` labelled `label` (`end` if
/// none).
fn find_label(bs: &Vec<Bookmark>, end: usize, label: &str) -> (r: usize)
    requires
        end <= bs@.len(),
    ensures
        r <= end,
        r < end ==> bs@[r as int].label@ == label@,
        forall|j: int| 0 <= j < r ==> (#[trigger] bs@[j]).label@ != label@,
{
    let mut i: usize = 0;
    while i < end
        invariant
            i <= end <= bs@.len(),
            forall|j: int| 0 <= j < i ==> (#[trigger] bs@[j]).label@ != label@,
        decreases end - i,
    {
        if str_eq(bs[i].label.as_str(), label) {
            return i;
        }
        i += 1;
    }
    end
}

impl BookmarkSet {
    /// A new, empty set.
    pub fn new() -> (r: Self)
        ensures
            r.schema_version@ == SCHEMA_VERSION@,
            r.bookmarks@.len() == 0,
    {
        BookmarkSet { schema_version: SCHEMA_VERSION.to_owned(), bookmarks: Vec::new() }
    }

    /// Add a bookmark, checked against the thread `thread_id` holding
    /// `turn_count` turns: its label and thread id must be non-empty, its
    /// label new, and, on that thread, its turn index below the turn count.
    pub fn add(&mut self, b: Bookmark, thread_id: &str, turn_count: u32) -> (r: Result<
        (),
        BookmarkError,
    >)
        ensures
            final(self).schema_version == old(self).schema_version,
            b.label@.len() == 0 ==> (r matches Err(BookmarkError::EmptyLabel)),
            b.label@.len() > 0 && b.thread_id@.len() == 0 ==> (r matches Err(
                BookmarkError::EmptyThreadId(l),
            ) && l@ == b.label@),
            b.label@.len() > 0 && b.thread_id@.len() > 0 && labelled(
                old(self).bookmarks@,
                old(self).bookmarks@.len() as int,
                b.label@,
            ) ==> (r matches Err(BookmarkError::DuplicateLabel(l)) && l@ == b.label@),
            b.label@.len() > 0 && b.thread_id@.len() > 0 && !labelled(
                old(self).bookmarks@,
                old(self).bookmarks@.len() as int,
                b.label@,
            ) && b.thread_id@ == thread_id@ && b.turn_index >= turn_count ==> (r matches Err(
                BookmarkError::OutOfRange { label, idx, total },
            ) && label@ == b.label@ && idx == b.turn_index && total == turn_count),
            b.label@.len() > 0 && b.thread_id@.len() > 0 && !labelled(
                old(self).bookmarks@,
                old(self).bookmarks@.len() as int,
                b.label@,
            ) && !(b.thread_id@ == thread_id@ && b.turn_index >= turn_count) ==> r is Ok
                && final(self).bookmarks@ == old(self).bookmarks@.push(b),
            r is Err ==> final(self).bookmarks == old(self).bookmarks,
    {
        if b.label.as_str().is_empty() {
            return Err(BookmarkError::EmptyLabel);
        }
        if b.thread_id.as_str().is_empty() {
            return Err(BookmarkError::EmptyThreadId(b.label));
        }
        let n = self.bookmarks.len();
        let at = find_label(&self.bookmarks, n, b.label.as_str());
        if at < n {
            return Err(BookmarkError::DuplicateLabel(b.label));
        }
        if str_eq(b.thread_id.as_str(), thread_id) && b.turn_index >= turn_count {
            return Err(BookmarkError::OutOfRange { label: b.label, idx: b.turn_index, total: turn_count });
        }
        self.bookmarks.push(b);
        Ok(())
    }

    /// The first bookmark labelled `label`.
    pub fn get(&self, label: &str) -> (r: Option<&Bookmark>)
        ensures
            index_of(self.bookmarks@, label@) < self.bookmarks@.len() ==> r == Some(
                &self.bookmarks@[index_of(self.bookmarks@, label@)],
            ),
            index_of(self.bookmarks@, label@) == self.bookmarks@.len() ==> r is None,
    {
        let n = self.bookmarks.len();
        let at = find_label(&self.bookmarks, n, label);
        proof {
            lemma_index_of(self.bookmarks@, label@);
            lemma_index_unique(self.bookmarks@, label@, at as int);
        }
        if at < n {
            Some(&self.bookmarks[at])
        } else {
            None
        }
    }

    /// The bookmarks of thread `thread_id`, ordered by turn index (ties in
    /// set order).
    pub fn for_thread(&self, thread_id: &str) -> (r: Vec<&Bookmark>)
        ensures
            r@.map_values(|b: &Bookmark| *b) == by_turn(on_thread(self.bookmarks@, thread_id@)),
    {
        let mut picked: Vec<&Bookmark> = Vec::new();
        let mut i: usize = 0;
        while i < self.bookmarks.len()
            invariant
                i <= self.bookmarks@.len(),
                picked@.map_values(|b: &Bookmark| *b) == on_thread(
                    self.bookmarks@.take(i as int),
                    thread_id@,
                ),
            decreases self.bookmarks@.len() - i,
        {
            let b = &self.bookmarks[i];
            let ghost before = picked@;
            proof {
                assert(self.bookmarks@.take(i + 1).drop_last() =~= self.bookmarks@.take(i as int));
                assert(self.bookmarks@.take(i + 1).last() == *b);
            }
            if str_eq(b.thread_id.as_str(), thread_id) {
                picked.push(b);
                proof {
                    assert(picked@.map_values(|b: &Bookmark| *b) =~= before.map_values(
                        |b: &Bookmark| *b,
                    ).push(*b));
                }
            }
            i += 1;
        }
        proof {
            assert(self.bookmarks@.take(self.bookmarks@.len() as int) =~= self.bookmarks@);
        }
        let ghost all = picked@.map_values(|b: &Bookmark| *b);
        let n = picked.len();
        let mut sorted: Vec<&Bookmark> = Vec::new();
        let mut k: usize = 0;
        proof {
            assert(all.take(0) =~= Seq::<Bookmark>::empty());
            assert(sorted@.map_values(|b: &Bookmark| *b) =~= Seq::<Bookmark>::empty());
        }
        while k < n
            invariant
                n == picked@.len(),
                all == picked@.map_values(|b: &Bookmark| *b),
                k <= n,
                sorted@.map_values(|b: &Bookmark| *b) == by_turn(all.take(k as int)),
            decreases n - k,
        {
            let x = picked[k];
            let ghost hs = sorted@.map_values(|b: &Bookmark| *b);
            let mut p = sorted.len();
            proof {
                assert(hs.take(p as int) =~= hs);
            }
            while p > 0 && x.turn_index < sorted[p - 1].turn_index
                invariant
                    p <= sorted@.len(),
                    hs == sorted@.map_values(|b: &Bookmark| *b),
                    turn_insert_pos(hs.take(p as int), *x) == turn_insert_pos(hs, *x),
                decreases p,
            {
                proof {
                    assert(hs.take(p as int).drop_last() =~= hs.take(p - 1));
                    assert(hs.take(p as int).last() == *sorted@[p - 1]);
                }
                p -= 1;
            }
            proof {
                if p > 0 {
                    assert(hs.take(p as int).last() == *sorted@[p - 1]);
                }
                assert(*x == all[k as int]);
                assert(all.take(k + 1).drop_last() =~= all.take(k as int));
                lemma_turn_insert_pos(hs, *x);
            }
            sorted.insert(p, x);
            proof {
                assert(sorted@.map_values(|b: &Bookmark| *b) =~= hs.insert(p as int, *x));
            }
            k += 1;
        }
        proof {
            assert(all.take(n as int) =~= all);
        }
        sorted
    }

    /// Validate the shape (without a thread): the schema version, then for
    /// each bookmark in order a non-empty label, a non-empty thread id and a
    /// label not used before.
    pub fn validate(&self) -> (r: Result<(), BookmarkError>)
        ensures
            self.schema_version@ != SCHEMA_VERSION@ ==> (r matches Err(BookmarkError::SchemaMismatch)),
            self.schema_version@ == SCHEMA_VERSION@ ==> match first_fault(self.bookmarks@, 0) {
                None => r is Ok,
                Some(BookmarkError::EmptyLabel) => r matches Err(BookmarkError::EmptyLabel),
                Some(BookmarkError::EmptyThreadId(l)) => r matches Err(BookmarkError::EmptyThreadId(m))
                    && m@ == l@,
                Some(BookmarkError::DuplicateLabel(l)) => r matches Err(BookmarkError::DuplicateLabel(m))
                    && m@ == l@,
                Some(_) => false,
            },
    {
        if !str_eq(self.schema_version.as_str(), SCHEMA_VERSION) {
            return Err(BookmarkError::SchemaMismatch);
        }
        let mut i: usize = 0;
        while i < self.bookmarks.len()
            invariant
                i <= self.bookmarks@.len(),
                self.schema_version@ == SCHEMA_VERSION@,
                first_fault(self.bookmarks@, 0) == first_fault(self.bookmarks@, i as int),
            decreases self.bookmarks@.len() - i,
        {
            let b = &self.bookmarks[i];
            if b.label.as_str().is_empty() {
                return Err(BookmarkError::EmptyLabel);
            }
            if b.thread_id.as_str().is_empty() {
                return Err(BookmarkError::EmptyThreadId(b.label.clone()));
            }
            let at = find_label(&self.bookmarks, i, b.label.as_str());
            if at < i {
                return Err(BookmarkError::DuplicateLabel(b.label.clone()));
            }
            i += 1;
        }
        Ok(())
    }
}

proof fn lemma_index_unique(bs: Seq<Bookmark>, label: Seq<char>, at: int)
    requires
        0 <= at <= bs.len(),
        at < bs.len() ==> bs[at].label@ == label,
        forall|j: int| 0 <= j < at ==> (#[trigger] bs[j]).label@ != label,
        0 <= index_of(bs, label) <= bs.len(),
        index_of(bs, label) < bs.len() ==> bs[index_of(bs, label)].label@ == label,
        forall|j: int| 0 <= j < index_of(bs, label) ==> (#[trigger] bs[j]).label@ != label,
    ensures
        index_of(bs, label) == at,
{
    if index_of(bs, label) < at {
        assert(bs[index_of(bs, label)].label@ != label);
    }
    if at < index_of(bs, label) {
        assert(bs[at].label@ != label);
    }
}

impl Default for BookmarkSet {
    fn default() -> (r: Self)
        ensures
            r.schema_version@ == SCHEMA_VERSION@,
            r.bookmarks@.len() == 0,
    {
        Self::new()
    }
}

proof fn lemma_push_fault(bs: Seq<Bookmark>, b: Bookmark, from: int)
    requires
        0 <= from <= bs.len(),
        first_fault(bs, from) is None,
        b.label@.len() > 0,
        b.thread_id@.len() > 0,
        !labelled(bs, bs.len() as int, b.label@),
    ensures
        first_fault(bs.push(b), from) is None,
    decreases bs.len() - from,
{
    let t = bs.push(b);
    if from < bs.len() {
        assert(t[from] == bs[from]);
        assert(labelled(t, from, t[from].label@) == labelled(bs, from, bs[from].label@)) by {
            if labelled(t, from, t[from].label@) {
                let j = choose|j: int| 0 <= j < from && (#[trigger] t[j]).label@ == t[from].label@;
                assert(bs[j] == t[j]);
            }
            if labelled(bs, from, bs[from].label@) {
                let j = choose|j: int| 0 <= j < from && (#[trigger] bs[j]).label@ == bs[from].label@;
                assert(bs[j] == t[j]);
            }
        }
        lemma_push_fault(bs, b, from + 1);
    } else {
        assert(t[from] == b);
        assert(!labelled(t, from, b.label@)) by {
            if labelled(t, from, b.label@) {
                let j = choose|j: int| 0 <= j < from && (#[trigger] t[j]).label@ == b.label@;
                assert(bs[j] == t[j]);
            }
        }
        assert(first_fault(t, from + 1) is None);
    }
}

/// Adding a bookmark to a set that validates leaves a set that validates.
pub proof fn law_add_keeps_valid(bs: Seq<Bookmark>, b: Bookmark)
    requires
        first_fault(bs, 0) is None,
        b.label@.len() > 0,
        b.thread_id@.len() > 0,
        !labelled(bs, bs.len() as int, b.label@),
    ensures
        first_fault(bs.push(b), 0) is None,
{
    lemma_first_fault_suffix(bs, 0);
    lemma_push_fault(bs, b, 0);
}

proof fn lemma_first_fault_suffix(bs: Seq<Bookmark>, from: int)
    requires
        0 <= from <= bs.len(),
        first_fault(bs, 0) is None,
    ensures
        first_fault(bs, from) is None,
    decreases from,
{
    if from > 0 {
        lemma_first_fault_suffix(bs, from - 1);
    }
}


proof fn lemma_turn_insert_pos_order(t: Seq<Bookmark>, x: Bookmark)
    ensures
        forall|k: int| turn_insert_pos(t, x) <= k < t.len() ==> x.turn_index < (#[trigger] t[k]).turn_index,
        turn_insert_pos(t, x) > 0 ==> t[turn_insert_pos(t, x) - 1].turn_index <= x.turn_index,
    decreases t.len(),
{
    if t.len() > 0 && x.turn_index < t.last().turn_index {
        lemma_turn_insert_pos_order(t.drop_last(), x);
        lemma_turn_insert_pos(t.drop_last(), x);
        assert forall|k: int| turn_insert_pos(t, x) <= k < t.len() implies x.turn_index < (#[trigger] t[k]).turn_index by {
            if k < t.len() - 1 {
                assert(t[k] == t.drop_last()[k]);
            }
        }
        if turn_insert_pos(t, x) > 0 {
            assert(t[turn_insert_pos(t, x) - 1] == t.drop_last()[turn_insert_pos(t, x) - 1]);
        }
    }
}

/// Sorting by turn index orders the bookmarks, no later one with a smaller
/// turn index than an earlier one, and keeps exactly the same bookmarks.
pub proof fn law_by_turn_sorts_and_keeps(s: Seq<Bookmark>)
    ensures
        forall|i: int, j: int|
            0 <= i < j < by_turn(s).len() ==> (#[trigger] by_turn(s)[i]).turn_index <= (#[trigger] by_turn(s)[j]).turn_index,
        by_turn(s).to_multiset() == s.to_multiset(),
    decreases s.len(),
{
    broadcast use vstd::seq_lib::group_to_multiset_ensures;

    if s.len() == 0 {
    } else {
        let t = by_turn(s.drop_last());
        let x = s.last();
        law_by_turn_sorts_and_keeps(s.drop_last());
        lemma_turn_insert_pos(t, x);
        lemma_turn_insert_pos_order(t, x);
        let p = turn_insert_pos(t, x);
        let u = t.insert(p, x);
        assert forall|i: int, j: int| 0 <= i < j < u.len() implies (#[trigger] u[i]).turn_index <= (#[trigger] u[j]).turn_index by {
            if j < p {
                assert(u[i] == t[i] && u[j] == t[j]);
            } else if j == p {
                assert(u[i] == t[i]);
                assert(t[i].turn_index <= t[p - 1].turn_index);
            } else if i < p {
                assert(u[i] == t[i] && u[j] == t[j - 1]);
            } else if i == p {
                assert(u[j] == t[j - 1]);
            } else {
                assert(u[i] == t[i - 1] && u[j] == t[j - 1]);
            }
        }
        vstd::seq_lib::to_multiset_insert(t, p, x);
        assert(s =~= s.drop_last().push(x));
        vstd::seq_lib::to_multiset_build(s.drop_last(), x);
    }
}

/// The bookmarks of a thread are exactly those of the set whose thread id
/// is that thread's, in set order.
pub proof fn law_on_thread_is_the_thread_filter(bs: Seq<Bookmark>, thread_id: Seq<char>)
    ensures
        on_thread(bs, thread_id) == bs.filter(|b: Bookmark| b.thread_id@ == thread_id),
    decreases bs.len(),
{
    reveal(Seq::filter);
    if bs.len() > 0 {
        law_on_thread_is_the_thread_filter(bs.drop_last(), thread_id);
    }
}

} // verus!
