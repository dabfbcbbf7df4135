//! Walks through an automaton's state graph, and the facts about them that the
//! Thompson construction and the set-of-states simulation rest on.
//!
//! A walk reads a string: an epsilon edge reads nothing, a transition reads one
//! character its matcher accepts. A walk may leave only from states inside a
//! window `lo..hi` other than a `stop` state, which lets a fragment of the graph
//! be reasoned about on its own while edges are added around it.
use crate::regex_nfa::NfaState;
use vstd::prelude::*;

verus! {

/// A walk from `x` to `y` reading `s` in at most `n` steps, leaving only from
/// states in `lo..hi` other than `stop`.
pub open spec fn walk(
    g: Seq<NfaState>,
    lo: int,
    hi: int,
    stop: int,
    x: int,
    y: int,
    s: Seq<char>,
    n: nat,
) -> bool
    decreases n,
{
    if x == y && s.len() == 0 {
        true
    } else if n == 0 || !(lo <= x < hi) || x == stop || !(0 <= x < g.len()) {
        false
    } else {
        (exists|j: int|
            #![trigger g[x].epsilon[j]]
            0 <= j < g[x].epsilon.len() && walk(g, lo, hi, stop, g[x].epsilon[j] as int, y, s, (n - 1) as nat))
            || (s.len() > 0 && exists|j: int|
            #![trigger g[x].transitions[j]]
            0 <= j < g[x].transitions.len() && g[x].transitions[j].0.accepts(s[0]) && walk(
                g,
                lo,
                hi,
                stop,
                g[x].transitions[j].1 as int,
                y,
                s.skip(1),
                (n - 1) as nat,
            ))
    }
}

/// Every edge leaving a state of `lo..hi` other than `ex` stays in `lo..hi`.
pub open spec fn closed_range(g: Seq<NfaState>, lo: int, hi: int, ex: int) -> bool {
    &&& forall|x: int, j: int|
        lo <= x < hi && x != ex && 0 <= j < g[x].epsilon.len() ==> lo <= #[trigger] g[x].epsilon[j] < hi
    &&& forall|x: int, j: int|
        lo <= x < hi && x != ex && 0 <= j < g[x].transitions.len() ==> lo
            <= #[trigger] g[x].transitions[j].1 < hi
}

/// Two states have the same edges.
pub open spec fn same_edges(a: NfaState, b: NfaState) -> bool {
    a.epsilon == b.epsilon && a.transitions == b.transitions
}

/// `g2` has state `z`, with the edges `g` gives it.
pub open spec fn same_at(g: Seq<NfaState>, g2: Seq<NfaState>, z: int) -> bool {
    z < g2.len() && same_edges(g[z], g2[z])
}

/// `g2` has the edges of `g` at every state of `lo..hi` other than `stop`.
pub open spec fn agree_on(g: Seq<NfaState>, g2: Seq<NfaState>, lo: int, hi: int, stop: int) -> bool {
    forall|z: int| lo <= z < hi && z != stop && 0 <= z < g.len() ==> #[trigger] same_at(g, g2, z)
}

/// The strings read by walks from `start` to `acc` inside `lo..hi` that leave
/// `acc` never.
pub open spec fn frag_reads(g: Seq<NfaState>, lo: int, hi: int, start: int, acc: int, s: Seq<char>) -> bool {
    exists|n: nat| #[trigger] walk(g, lo, hi, acc, start, acc, s, n)
}

/// A walk may take more steps than it needs.
pub proof fn lemma_walk_fuel(
    g: Seq<NfaState>,
    lo: int,
    hi: int,
    stop: int,
    x: int,
    y: int,
    s: Seq<char>,
    n: nat,
    m: nat,
)
    requires
        walk(g, lo, hi, stop, x, y, s, n),
        n <= m,
    ensures
        walk(g, lo, hi, stop, x, y, s, m),
    decreases n,
{
    if x == y && s.len() == 0 {
    } else if exists|j: int|
        #![trigger g[x].epsilon[j]]
        0 <= j < g[x].epsilon.len() && walk(g, lo, hi, stop, g[x].epsilon[j] as int, y, s, (n - 1) as nat) {
        let j = choose|j: int|
            #![trigger g[x].epsilon[j]]
            0 <= j < g[x].epsilon.len() && walk(g, lo, hi, stop, g[x].epsilon[j] as int, y, s, (n - 1) as nat);
        lemma_walk_fuel(g, lo, hi, stop, g[x].epsilon[j] as int, y, s, (n - 1) as nat, (m - 1) as nat);
    } else {
        let j = choose|j: int|
            #![trigger g[x].transitions[j]]
            0 <= j < g[x].transitions.len() && g[x].transitions[j].0.accepts(s[0]) && walk(
                g,
                lo,
                hi,
                stop,
                g[x].transitions[j].1 as int,
                y,
                s.skip(1),
                (n - 1) as nat,
            );
        lemma_walk_fuel(g, lo, hi, stop, g[x].transitions[j].1 as int, y, s.skip(1), (n - 1) as nat, (m - 1) as nat);
    }
}

/// A walk stays a walk in a wider window whose stop state it never left from.
pub proof fn lemma_walk_widen(
    g: Seq<NfaState>,
    lo: int,
    hi: int,
    stop: int,
    lo2: int,
    hi2: int,
    stop2: int,
    x: int,
    y: int,
    s: Seq<char>,
    n: nat,
)
    requires
        walk(g, lo, hi, stop, x, y, s, n),
        lo2 <= lo,
        hi <= hi2,
        stop2 == stop || !(lo <= stop2 < hi),
    ensures
        walk(g, lo2, hi2, stop2, x, y, s, n),
    decreases n,
{
    if x == y && s.len() == 0 {
    } else if exists|j: int|
        #![trigger g[x].epsilon[j]]
        0 <= j < g[x].epsilon.len() && walk(g, lo, hi, stop, g[x].epsilon[j] as int, y, s, (n - 1) as nat) {
        let j = choose|j: int|
            #![trigger g[x].epsilon[j]]
            0 <= j < g[x].epsilon.len() && walk(g, lo, hi, stop, g[x].epsilon[j] as int, y, s, (n - 1) as nat);
        lemma_walk_widen(g, lo, hi, stop, lo2, hi2, stop2, g[x].epsilon[j] as int, y, s, (n - 1) as nat);
    } else {
        let j = choose|j: int|
            #![trigger g[x].transitions[j]]
            0 <= j < g[x].transitions.len() && g[x].transitions[j].0.accepts(s[0]) && walk(
                g,
                lo,
                hi,
                stop,
                g[x].transitions[j].1 as int,
                y,
                s.skip(1),
                (n - 1) as nat,
            );
        lemma_walk_widen(g, lo, hi, stop, lo2, hi2, stop2, g[x].transitions[j].1 as int, y, s.skip(1), (n - 1) as nat);
    }
}

/// A walk only depends on the edges of the states it leaves from.
pub proof fn lemma_walk_frame(
    g: Seq<NfaState>,
    g2: Seq<NfaState>,
    lo: int,
    hi: int,
    stop: int,
    x: int,
    y: int,
    s: Seq<char>,
    n: nat,
)
    requires
        walk(g, lo, hi, stop, x, y, s, n),
        agree_on(g, g2, lo, hi, stop),
    ensures
        walk(g2, lo, hi, stop, x, y, s, n),
    decreases n,
{
    if x == y && s.len() == 0 {
    } else {
        assert(same_at(g, g2, x));
        if exists|j: int|
            #![trigger g[x].epsilon[j]]
            0 <= j < g[x].epsilon.len() && walk(g, lo, hi, stop, g[x].epsilon[j] as int, y, s, (n - 1) as nat) {
            let j = choose|j: int|
                #![trigger g[x].epsilon[j]]
                0 <= j < g[x].epsilon.len() && walk(g, lo, hi, stop, g[x].epsilon[j] as int, y, s, (n - 1) as nat);
            lemma_walk_frame(g, g2, lo, hi, stop, g[x].epsilon[j] as int, y, s, (n - 1) as nat);
            assert(g2[x].epsilon[j] == g[x].epsilon[j]);
        } else {
            let j = choose|j: int|
                #![trigger g[x].transitions[j]]
                0 <= j < g[x].transitions.len() && g[x].transitions[j].0.accepts(s[0]) && walk(
                    g,
                    lo,
                    hi,
                    stop,
                    g[x].transitions[j].1 as int,
                    y,
                    s.skip(1),
                    (n - 1) as nat,
                );
            lemma_walk_frame(g, g2, lo, hi, stop, g[x].transitions[j].1 as int, y, s.skip(1), (n - 1) as nat);
            assert(g2[x].transitions[j] == g[x].transitions[j]);
        }
    }
}

/// Two walks meeting at a state join into one.
pub proof fn lemma_walk_append(
    g: Seq<NfaState>,
    lo: int,
    hi: int,
    stop: int,
    x: int,
    y: int,
    z: int,
    s1: Seq<char>,
    s2: Seq<char>,
    n1: nat,
    n2: nat,
)
    requires
        walk(g, lo, hi, stop, x, y, s1, n1),
        walk(g, lo, hi, stop, y, z, s2, n2),
    ensures
        walk(g, lo, hi, stop, x, z, s1 + s2, n1 + n2),
    decreases n1,
{
    if x == y && s1.len() == 0 {
        assert(s1 + s2 =~= s2);
        lemma_walk_fuel(g, lo, hi, stop, y, z, s2, n2, n1 + n2);
    } else if exists|j: int|
        #![trigger g[x].epsilon[j]]
        0 <= j < g[x].epsilon.len() && walk(g, lo, hi, stop, g[x].epsilon[j] as int, y, s1, (n1 - 1) as nat) {
        let j = choose|j: int|
            #![trigger g[x].epsilon[j]]
            0 <= j < g[x].epsilon.len() && walk(g, lo, hi, stop, g[x].epsilon[j] as int, y, s1, (n1 - 1) as nat);
        lemma_walk_append(g, lo, hi, stop, g[x].epsilon[j] as int, y, z, s1, s2, (n1 - 1) as nat, n2);
        assert(((n1 + n2) - 1) as nat == ((n1 - 1) as nat + n2) as nat);
        if x == z && (s1 + s2).len() == 0 {
        } else {
            assert(walk(g, lo, hi, stop, g[x].epsilon[j] as int, z, s1 + s2, ((n1 + n2) - 1) as nat));
        }
    } else {
        let j = choose|j: int|
            #![trigger g[x].transitions[j]]
            0 <= j < g[x].transitions.len() && g[x].transitions[j].0.accepts(s1[0]) && walk(
                g,
                lo,
                hi,
                stop,
                g[x].transitions[j].1 as int,
                y,
                s1.skip(1),
                (n1 - 1) as nat,
            );
        lemma_walk_append(g, lo, hi, stop, g[x].transitions[j].1 as int, y, z, s1.skip(1), s2, (n1 - 1) as nat, n2);
        assert((s1 + s2).skip(1) =~= s1.skip(1) + s2);
        assert((s1 + s2)[0] == s1[0]);
        assert(((n1 + n2) - 1) as nat == ((n1 - 1) as nat + n2) as nat);
        assert(walk(g, lo, hi, stop, g[x].transitions[j].1 as int, z, (s1 + s2).skip(1), ((n1 + n2) - 1) as nat));
    }
}

/// A walk out of a stop state (or out of the window) is empty.
pub proof fn lemma_walk_from_stop(
    g: Seq<NfaState>,
    lo: int,
    hi: int,
    stop: int,
    x: int,
    y: int,
    s: Seq<char>,
    n: nat,
)
    requires
        walk(g, lo, hi, stop, x, y, s, n),
        x == stop || !(lo <= x < hi),
    ensures
        x == y,
        s.len() == 0,
{
}

/// A walk that starts inside a closed window `a..b` and ends outside it passes
/// through the window's exit `ex`: it splits into a walk inside the window up to
/// `ex` and a walk on from `ex`.
pub proof fn lemma_walk_exit(
    g: Seq<NfaState>,
    lo: int,
    hi: int,
    stop: int,
    a: int,
    b: int,
    ex: int,
    x: int,
    z: int,
    s: Seq<char>,
    n: nat,
) -> (k: int)
    requires
        walk(g, lo, hi, stop, x, z, s, n),
        a <= x < b,
        !(a <= z < b),
        a <= ex < b,
        closed_range(g, a, b, ex),
    ensures
        0 <= k <= s.len(),
        walk(g, a, b, ex, x, ex, s.take(k), n),
        walk(g, lo, hi, stop, ex, z, s.skip(k), n),
    decreases n,
{
    if x == ex {
        assert(s.take(0) =~= Seq::<char>::empty());
        assert(s.skip(0) =~= s);
        0
    } else if exists|j: int|
        #![trigger g[x].epsilon[j]]
        0 <= j < g[x].epsilon.len() && walk(g, lo, hi, stop, g[x].epsilon[j] as int, z, s, (n - 1) as nat) {
        let j = choose|j: int|
            #![trigger g[x].epsilon[j]]
            0 <= j < g[x].epsilon.len() && walk(g, lo, hi, stop, g[x].epsilon[j] as int, z, s, (n - 1) as nat);
        let e = g[x].epsilon[j] as int;
        assert(a <= e < b);
        let k = lemma_walk_exit(g, lo, hi, stop, a, b, ex, e, z, s, (n - 1) as nat);
        lemma_walk_fuel(g, lo, hi, stop, ex, z, s.skip(k), (n - 1) as nat, n);
        if x == ex && s.take(k).len() == 0 {
        } else {
            assert(walk(g, a, b, ex, g[x].epsilon[j] as int, ex, s.take(k), (n - 1) as nat));
        }
        k
    } else {
        let j = choose|j: int|
            #![trigger g[x].transitions[j]]
            0 <= j < g[x].transitions.len() && g[x].transitions[j].0.accepts(s[0]) && walk(
                g,
                lo,
                hi,
                stop,
                g[x].transitions[j].1 as int,
                z,
                s.skip(1),
                (n - 1) as nat,
            );
        let t = g[x].transitions[j].1 as int;
        assert(a <= t < b);
        let k1 = lemma_walk_exit(g, lo, hi, stop, a, b, ex, t, z, s.skip(1), (n - 1) as nat);
        let k = k1 + 1;
        assert(s.take(k).skip(1) =~= s.skip(1).take(k1));
        assert(s.take(k)[0] == s[0]);
        assert(s.skip(k) =~= s.skip(1).skip(k1));
        lemma_walk_fuel(g, lo, hi, stop, ex, z, s.skip(k), (n - 1) as nat, n);
        assert(walk(g, a, b, ex, g[x].transitions[j].1 as int, ex, s.take(k).skip(1), (n - 1) as nat));
        k
    }
}

/// A walk that starts inside a window closed around its stop state stays in it.
pub proof fn lemma_walk_stay(
    g: Seq<NfaState>,
    lo: int,
    hi: int,
    stop: int,
    a: int,
    b: int,
    x: int,
    z: int,
    s: Seq<char>,
    n: nat,
)
    requires
        walk(g, lo, hi, stop, x, z, s, n),
        a <= x < b,
        closed_range(g, a, b, stop),
    ensures
        walk(g, a, b, stop, x, z, s, n),
    decreases n,
{
    if x == z && s.len() == 0 {
    } else if exists|j: int|
        #![trigger g[x].epsilon[j]]
        0 <= j < g[x].epsilon.len() && walk(g, lo, hi, stop, g[x].epsilon[j] as int, z, s, (n - 1) as nat) {
        let j = choose|j: int|
            #![trigger g[x].epsilon[j]]
            0 <= j < g[x].epsilon.len() && walk(g, lo, hi, stop, g[x].epsilon[j] as int, z, s, (n - 1) as nat);
        assert(a <= g[x].epsilon[j] < b);
        lemma_walk_stay(g, lo, hi, stop, a, b, g[x].epsilon[j] as int, z, s, (n - 1) as nat);
    } else {
        let j = choose|j: int|
            #![trigger g[x].transitions[j]]
            0 <= j < g[x].transitions.len() && g[x].transitions[j].0.accepts(s[0]) && walk(
                g,
                lo,
                hi,
                stop,
                g[x].transitions[j].1 as int,
                z,
                s.skip(1),
                (n - 1) as nat,
            );
        assert(a <= g[x].transitions[j].1 < b);
        lemma_walk_stay(g, lo, hi, stop, a, b, g[x].transitions[j].1 as int, z, s.skip(1), (n - 1) as nat);
    }
}

} // verus!
