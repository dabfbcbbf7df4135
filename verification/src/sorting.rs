//! Facts about sequences sorted by a strict ordering, shared by the ranking
//! modules.
use vstd::prelude::*;

verus! {

/// No element of `s` ranks strictly before an earlier one.
pub open spec fn sorted_by<A>(s: Seq<A>, before: spec_fn(A, A) -> bool) -> bool {
    forall|i: int, j: int| 0 <= i < j < s.len() ==> !before(s[j], s[i])
}

/// Inserting `x` into sorted `t` at `p`, after everything not ranking after
/// it and before everything ranking after it, keeps `t` sorted.
pub proof fn lemma_insert_sorted<A>(t: Seq<A>, x: A, p: int, before: spec_fn(A, A) -> bool)
    requires
        sorted_by(t, before),
        0 <= p <= t.len(),
        forall|k: int| p <= k < t.len() ==> before(x, #[trigger] t[k]),
        p > 0 ==> !before(x, t[p - 1]),
        forall|a: A, b: A| #[trigger] before(a, b) ==> !before(b, a),
        forall|a: A, b: A, c: A| #![trigger before(a, b), before(b, c)]
            !before(a, b) && !before(b, c) ==> !before(a, c),
    ensures
        sorted_by(t.insert(p, x), before),
{
    let u = t.insert(p, x);
    assert forall|i: int, j: int| 0 <= i < j < u.len() implies !before(u[j], u[i]) by {
        if j < p {
            assert(u[i] == t[i] && u[j] == t[j]);
        } else if j == p {
            assert(u[i] == t[i]);
            if i < p - 1 {
                assert(!before(t[p - 1], t[i]));
                assert(!before(x, t[p - 1]));
            }
        } else if i == p {
            assert(u[j] == t[j - 1]);
            assert(before(x, t[j - 1]));
        } else if i < p {
            assert(u[i] == t[i] && u[j] == t[j - 1]);
        } else {
            assert(u[i] == t[i - 1] && u[j] == t[j - 1]);
        }
    }
}

} // verus!
