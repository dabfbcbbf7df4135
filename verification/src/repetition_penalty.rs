//! Token occurrence counts over a generated history, the integer core of
//! the repetition, frequency and presence penalties.
use std::collections::HashMap;
use vstd::prelude::*;

verus! {

broadcast use vstd::std_specs::hash::group_hash_axioms;

/// Schema version of the repetition-penalty surface.
pub const SCHEMA_VERSION: &'static str = "1.0.0";

/// How often `t` occurs in `h`.
pub open spec fn occurrences(h: Seq<usize>, t: usize) -> nat
    decreases h.len(),
{
    if h.len() == 0 {
        0
    } else {
        occurrences(h.drop_last(), t) + if h.last() == t {
            1nat
        } else {
            0nat
        }
    }
}

proof fn lemma_occurrences(h: Seq<usize>, t: usize)
    ensures
        occurrences(h, t) <= h.len(),
        (occurrences(h, t) > 0) == h.contains(t),
    decreases h.len(),
{
    if h.len() > 0 {
        lemma_occurrences(h.drop_last(), t);
        if h.drop_last().contains(t) {
            let j = choose|j: int| 0 <= j < h.drop_last().len() && h.drop_last()[j] == t;
            assert(h[j] == t);
        }
        if h.contains(t) && h.last() != t {
            let j = choose|j: int| 0 <= j < h.len() && h[j] == t;
            assert(h.drop_last()[j] == t);
        }
    }
}

/// Per-token occurrence counts over the generated `history`: exactly the
/// tokens that occur, each with its number of occurrences.
pub fn counts(history: &[usize]) -> (m: HashMap<usize, u32>)
    requires
        history@.len() <= u32::MAX,
    ensures
        forall|t: usize| #[trigger] m@.contains_key(t) == history@.contains(t),
        forall|t: usize| #[trigger] m@.contains_key(t) ==> m@[t] == occurrences(history@, t),
{
    let mut m: HashMap<usize, u32> = HashMap::new();
    let mut i: usize = 0;
    while i < history.len()
        invariant
            i <= history@.len(),
            history@.len() <= u32::MAX,
            forall|t: usize| #[trigger]
                m@.contains_key(t) == (occurrences(history@.take(i as int), t) > 0),
            forall|t: usize| #[trigger]
                m@.contains_key(t) ==> m@[t] == occurrences(history@.take(i as int), t),
        decreases history@.len() - i,
    {
        let t = history[i];
        proof {
            assert(history@.take(i + 1).drop_last() =~= history@.take(i as int));
            assert(history@.take(i + 1).last() == t);
            lemma_occurrences(history@.take(i as int), t);
        }
        let c: u32 = match m.get(&t) {
            Some(c) => *c,
            None => 0,
        };
        m.insert(t, c + 1);
        i += 1;
    }
    proof {
        assert(history@.take(history@.len() as int) =~= history@);
        assert forall|t: usize| #[trigger] m@.contains_key(t) == history@.contains(t) by {
            lemma_occurrences(history@, t);
        }
    }
    m
}

} // verus!
