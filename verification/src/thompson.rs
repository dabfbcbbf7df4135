//! Why the Thompson construction is right: each fragment of the state graph,
//! read between its start and its accept state, matches exactly the strings
//! of the pattern piece it was built for.
use crate::nfa_walk::{
    agree_on, closed_range, frag_reads, lemma_walk_append, lemma_walk_exit, lemma_walk_frame, lemma_walk_fuel,
    lemma_walk_from_stop, lemma_walk_stay, lemma_walk_widen, same_at, walk,
};
use crate::regex_nfa::{MatcherV, Nfa, NfaState};
use crate::regex_syntax::{lang, star_lang, Re};
use vstd::prelude::*;

verus! {

/// The fragment `lo..hi` of `g`, entered at `start` and left at `acc`, stands
/// for `re`: its edges stay inside it (but for those of `acc`), and the walks
/// from `start` to `acc` inside it read exactly the strings `re` matches.
pub open spec fn frag_ok(g: Seq<NfaState>, lo: int, hi: int, start: int, acc: int, re: Re) -> bool {
    &&& 0 <= lo <= start < hi
    &&& lo <= acc < hi
    &&& hi <= g.len()
    &&& closed_range(g, lo, hi, acc)
    &&& forall|s: Seq<char>|
        #![trigger frag_reads(g, lo, hi, start, acc, s)]
        #![trigger lang(re, s)]
        frag_reads(g, lo, hi, start, acc, s) <==> lang(re, s)
}

/// State `x` has exactly the epsilon edges `eps`, in this order, and no
/// transitions.
pub open spec fn only_eps(g: Seq<NfaState>, x: int, eps: Seq<int>) -> bool {
    &&& 0 <= x < g.len()
    &&& g[x].epsilon.len() == eps.len()
    &&& forall|i: int| 0 <= i < eps.len() ==> #[trigger] g[x].epsilon[i] == eps[i]
    &&& g[x].transitions.len() == 0
}

/// A fragment keeps its meaning when only edges outside it, or those of its
/// accept state, change.
pub proof fn lemma_frag_frame(g: Seq<NfaState>, g2: Seq<NfaState>, lo: int, hi: int, start: int, acc: int, re: Re)
    requires
        frag_ok(g, lo, hi, start, acc, re),
        agree_on(g, g2, lo, hi, acc),
        hi <= g2.len(),
    ensures
        frag_ok(g2, lo, hi, start, acc, re),
{
    assert forall|x: int, j: int| lo <= x < hi && x != acc && 0 <= j < g2[x].epsilon.len() implies lo
        <= #[trigger] g2[x].epsilon[j] < hi by {
        assert(same_at(g, g2, x));
        assert(g[x].epsilon[j] == g2[x].epsilon[j]);
    }
    assert forall|x: int, j: int| lo <= x < hi && x != acc && 0 <= j < g2[x].transitions.len() implies lo
        <= #[trigger] g2[x].transitions[j].1 < hi by {
        assert(same_at(g, g2, x));
        assert(g[x].transitions[j] == g2[x].transitions[j]);
    }
    assert(agree_on(g2, g, lo, hi, acc)) by {
        assert forall|z: int| lo <= z < hi && z != acc && 0 <= z < g2.len() implies #[trigger] same_at(g2, g, z) by {
            assert(same_at(g, g2, z));
        }
    }
    assert forall|s: Seq<char>| #[trigger] frag_reads(g2, lo, hi, start, acc, s) <==> lang(re, s) by {
        if frag_reads(g2, lo, hi, start, acc, s) {
            let n = choose|n: nat| #[trigger] walk(g2, lo, hi, acc, start, acc, s, n);
            lemma_walk_frame(g2, g, lo, hi, acc, start, acc, s, n);
            assert(frag_reads(g, lo, hi, start, acc, s));
        }
        if lang(re, s) {
            assert(frag_reads(g, lo, hi, start, acc, s));
            let n = choose|n: nat| #[trigger] walk(g, lo, hi, acc, start, acc, s, n);
            lemma_walk_frame(g, g2, lo, hi, acc, start, acc, s, n);
            assert(frag_reads(g2, lo, hi, start, acc, s));
        }
    }
}

/// A single state is a fragment for the empty pattern.
pub proof fn lemma_frag_empty(g: Seq<NfaState>, x: int)
    requires
        0 <= x < g.len(),
    ensures
        frag_ok(g, x, x + 1, x, x, Re::Empty),
{
    assert forall|s: Seq<char>| #[trigger] frag_reads(g, x, x + 1, x, x, s) <==> lang(Re::Empty, s) by {
        if frag_reads(g, x, x + 1, x, x, s) {
            let n = choose|n: nat| #[trigger] walk(g, x, x + 1, x, x, x, s, n);
            lemma_walk_from_stop(g, x, x + 1, x, x, x, s, n);
        }
        if lang(Re::Empty, s) {
            assert(walk(g, x, x + 1, x, x, x, s, 0));
        }
    }
}

/// A state with one transition to the next state is a fragment for the
/// transition's matcher.
pub proof fn lemma_frag_atom(g: Seq<NfaState>, x: int, m: MatcherV)
    requires
        0 <= x,
        x + 1 < g.len(),
        g[x].epsilon.len() == 0,
        g[x].transitions.len() == 1,
        g[x].transitions[0].0 == m,
        g[x].transitions[0].1 == x + 1,
    ensures
        frag_ok(g, x, x + 2, x, x + 1, Re::Atom(m)),
{
    assert forall|s: Seq<char>| #[trigger] frag_reads(g, x, x + 2, x, x + 1, s) <==> lang(Re::Atom(m), s) by {
        if frag_reads(g, x, x + 2, x, x + 1, s) {
            let n = choose|n: nat| #[trigger] walk(g, x, x + 2, x + 1, x, x + 1, s, n);
            assert(s.len() > 0 && exists|j: int|
                #![trigger g[x].transitions[j]]
                0 <= j < g[x].transitions.len() && g[x].transitions[j].0.accepts(s[0]) && walk(
                    g,
                    x,
                    x + 2,
                    x + 1,
                    g[x].transitions[j].1 as int,
                    x + 1,
                    s.skip(1),
                    (n - 1) as nat,
                ));
            let j = choose|j: int|
                #![trigger g[x].transitions[j]]
                0 <= j < g[x].transitions.len() && g[x].transitions[j].0.accepts(s[0]) && walk(
                    g,
                    x,
                    x + 2,
                    x + 1,
                    g[x].transitions[j].1 as int,
                    x + 1,
                    s.skip(1),
                    (n - 1) as nat,
                );
            lemma_walk_from_stop(g, x, x + 2, x + 1, x + 1, x + 1, s.skip(1), (n - 1) as nat);
        }
        if lang(Re::Atom(m), s) {
            assert(walk(g, x, x + 2, x + 1, x + 1, x + 1, s.skip(1), 0));
            assert(walk(g, x, x + 2, x + 1, g[x].transitions[0].1 as int, x + 1, s.skip(1), 0));
            assert(walk(g, x, x + 2, x + 1, x, x + 1, s, 1));
            assert(frag_reads(g, x, x + 2, x, x + 1, s));
        }
    }
}

/// One epsilon step from `x` to its `j`-th epsilon target.
proof fn lemma_eps_step(g: Seq<NfaState>, lo: int, hi: int, stop: int, x: int, j: int)
    requires
        lo <= x < hi,
        x != stop,
        0 <= x < g.len(),
        0 <= j < g[x].epsilon.len(),
    ensures
        walk(g, lo, hi, stop, x, g[x].epsilon[j] as int, Seq::<char>::empty(), 1),
{
    assert(walk(g, lo, hi, stop, g[x].epsilon[j] as int, g[x].epsilon[j] as int, Seq::<char>::empty(), 0));
}

/// The fragment `a` followed by the fragment `b`, joined by an epsilon edge
/// from the accept state of `a` to the start of `b`.
pub proof fn lemma_frag_cat(
    g: Seq<NfaState>,
    lo: int,
    m: int,
    hi: int,
    as_: int,
    aa: int,
    ra: Re,
    bs: int,
    ba: int,
    rb: Re,
)
    requires
        frag_ok(g, lo, m, as_, aa, ra),
        frag_ok(g, m, hi, bs, ba, rb),
        only_eps(g, aa, seq![bs]),
    ensures
        frag_ok(g, lo, hi, as_, ba, Re::Cat(Box::new(ra), Box::new(rb))),
{
    let re = Re::Cat(Box::new(ra), Box::new(rb));
    assert(g[aa].epsilon[0] == seq![bs][0]);
    assert forall|s: Seq<char>| #[trigger] frag_reads(g, lo, hi, as_, ba, s) <==> lang(re, s) by {
        if frag_reads(g, lo, hi, as_, ba, s) {
            let n = choose|n: nat| #[trigger] walk(g, lo, hi, ba, as_, ba, s, n);
            let k = lemma_walk_exit(g, lo, hi, ba, lo, m, aa, as_, ba, s, n);
            assert(frag_reads(g, lo, m, as_, aa, s.take(k)));
            let j = choose|j: int|
                #![trigger g[aa].epsilon[j]]
                0 <= j < g[aa].epsilon.len() && walk(g, lo, hi, ba, g[aa].epsilon[j] as int, ba, s.skip(k), (n - 1) as nat);
            lemma_walk_stay(g, lo, hi, ba, m, hi, bs, ba, s.skip(k), (n - 1) as nat);
            assert(frag_reads(g, m, hi, bs, ba, s.skip(k)));
            assert(lang(ra, s.take(k)) && lang(rb, s.skip(k)));
        }
        if lang(re, s) {
            let k = choose|k: int| 0 <= k <= s.len() && lang(ra, s.take(k)) && lang(rb, s.skip(k));
            assert(lang(ra, s.take(k)));
            assert(frag_reads(g, lo, m, as_, aa, s.take(k)));
            assert(frag_reads(g, m, hi, bs, ba, s.skip(k)));
            let n1 = choose|n: nat| #[trigger] walk(g, lo, m, aa, as_, aa, s.take(k), n);
            let n2 = choose|n: nat| #[trigger] walk(g, m, hi, ba, bs, ba, s.skip(k), n);
            lemma_walk_widen(g, lo, m, aa, lo, hi, ba, as_, aa, s.take(k), n1);
            lemma_walk_widen(g, m, hi, ba, lo, hi, ba, bs, ba, s.skip(k), n2);
            lemma_eps_step(g, lo, hi, ba, aa, 0);
            lemma_walk_append(g, lo, hi, ba, aa, bs, ba, Seq::<char>::empty(), s.skip(k), 1, n2);
            assert(Seq::<char>::empty() + s.skip(k) =~= s.skip(k));
            lemma_walk_append(g, lo, hi, ba, as_, aa, ba, s.take(k), s.skip(k), n1, 1 + n2);
            assert(s.take(k) + s.skip(k) =~= s);
            assert(frag_reads(g, lo, hi, as_, ba, s));
        }
    }
}

/// Either of two fragments, entered through a new state `h` with epsilon
/// edges to both starts and left through a new state `h + 1` that both accept
/// states reach by an epsilon edge.
pub proof fn lemma_frag_alt(
    g: Seq<NfaState>,
    lo: int,
    m: int,
    h: int,
    ls: int,
    la: int,
    rl: Re,
    rs: int,
    ra: int,
    rr: Re,
)
    requires
        frag_ok(g, lo, m, ls, la, rl),
        frag_ok(g, m, h, rs, ra, rr),
        only_eps(g, h, seq![ls, rs]),
        only_eps(g, la, seq![h + 1]),
        only_eps(g, ra, seq![h + 1]),
        h + 1 < g.len(),
    ensures
        frag_ok(g, lo, h + 2, h, h + 1, Re::Alt(Box::new(rl), Box::new(rr))),
{
    let re = Re::Alt(Box::new(rl), Box::new(rr));
    let f = h + 1;
    assert(g[h].epsilon[0] == seq![ls, rs][0]);
    assert(g[h].epsilon[1] == seq![ls, rs][1]);
    assert(g[la].epsilon[0] == seq![f][0]);
    assert(g[ra].epsilon[0] == seq![f][0]);
    assert forall|s: Seq<char>| #[trigger] frag_reads(g, lo, h + 2, h, f, s) <==> lang(re, s) by {
        if frag_reads(g, lo, h + 2, h, f, s) {
            let n = choose|n: nat| #[trigger] walk(g, lo, h + 2, f, h, f, s, n);
            let j = choose|j: int|
                #![trigger g[h].epsilon[j]]
                0 <= j < g[h].epsilon.len() && walk(g, lo, h + 2, f, g[h].epsilon[j] as int, f, s, (n - 1) as nat);
            if j == 0 {
                let k = lemma_walk_exit(g, lo, h + 2, f, lo, m, la, ls, f, s, (n - 1) as nat);
                assert(frag_reads(g, lo, m, ls, la, s.take(k)));
                let j2 = choose|j2: int|
                    #![trigger g[la].epsilon[j2]]
                    0 <= j2 < g[la].epsilon.len() && walk(g, lo, h + 2, f, g[la].epsilon[j2] as int, f, s.skip(k), (n - 1 - 1) as nat);
                lemma_walk_from_stop(g, lo, h + 2, f, f, f, s.skip(k), (n - 1 - 1) as nat);
                assert(s.take(k) =~= s);
            } else {
                let k = lemma_walk_exit(g, lo, h + 2, f, m, h, ra, rs, f, s, (n - 1) as nat);
                assert(frag_reads(g, m, h, rs, ra, s.take(k)));
                let j2 = choose|j2: int|
                    #![trigger g[ra].epsilon[j2]]
                    0 <= j2 < g[ra].epsilon.len() && walk(g, lo, h + 2, f, g[ra].epsilon[j2] as int, f, s.skip(k), (n - 1 - 1) as nat);
                lemma_walk_from_stop(g, lo, h + 2, f, f, f, s.skip(k), (n - 1 - 1) as nat);
                assert(s.take(k) =~= s);
            }
        }
        if lang(re, s) {
            let (bs, ba, blo, bhi, j) = if lang(rl, s) { (ls, la, lo, m, 0int) } else { (rs, ra, m, h, 1int) };
            assert(frag_reads(g, blo, bhi, bs, ba, s));
            let n1 = choose|n: nat| #[trigger] walk(g, blo, bhi, ba, bs, ba, s, n);
            lemma_walk_widen(g, blo, bhi, ba, lo, h + 2, f, bs, ba, s, n1);
            lemma_eps_step(g, lo, h + 2, f, h, j);
            lemma_eps_step(g, lo, h + 2, f, ba, 0);
            lemma_walk_append(g, lo, h + 2, f, bs, ba, f, s, Seq::<char>::empty(), n1, 1);
            assert(s + Seq::<char>::empty() =~= s);
            lemma_walk_append(g, lo, h + 2, f, h, bs, f, Seq::<char>::empty(), s, 1, n1 + 1);
            assert(Seq::<char>::empty() + s =~= s);
            assert(frag_reads(g, lo, h + 2, h, f, s));
        }
    }
}

/// From the accept state `aa` of a repeated fragment, whose epsilon edges go
/// back to its start `as_` and on to `fin`, walks to `fin` read exactly the
/// strings made of zero or more non-empty pieces the fragment matches.
proof fn lemma_loop_reads(g: Seq<NfaState>, lo: int, m: int, hi: int, as_: int, aa: int, ra: Re, fin: int, t: Seq<char>) -> (n: nat)
    requires
        frag_ok(g, lo, m, as_, aa, ra),
        only_eps(g, aa, seq![as_, fin]),
        m <= fin < hi,
        hi <= g.len(),
        star_lang(ra, t),
    ensures
        walk(g, lo, hi, fin, aa, fin, t, n),
    decreases t.len(),
{
    assert(g[aa].epsilon[0] == seq![as_, fin][0]);
    assert(g[aa].epsilon[1] == seq![as_, fin][1]);
    if t.len() == 0 {
        lemma_eps_step(g, lo, hi, fin, aa, 1);
        assert(t =~= Seq::<char>::empty());
        1
    } else {
        let k = choose|k: int| 1 <= k <= t.len() && lang(ra, t.take(k)) && star_lang(ra, t.skip(k));
        assert(frag_reads(g, lo, m, as_, aa, t.take(k)));
        let n1 = choose|n: nat| #[trigger] walk(g, lo, m, aa, as_, aa, t.take(k), n);
        lemma_walk_widen(g, lo, m, aa, lo, hi, fin, as_, aa, t.take(k), n1);
        let n2 = lemma_loop_reads(g, lo, m, hi, as_, aa, ra, fin, t.skip(k));
        lemma_eps_step(g, lo, hi, fin, aa, 0);
        lemma_walk_append(g, lo, hi, fin, as_, aa, fin, t.take(k), t.skip(k), n1, n2);
        assert(t.take(k) + t.skip(k) =~= t);
        assert(walk(g, lo, hi, fin, as_, fin, t, n1 + n2));
        lemma_walk_append(g, lo, hi, fin, aa, as_, fin, Seq::<char>::empty(), t, 1, n1 + n2);
        assert(Seq::<char>::empty() + t =~= t);
        assert(walk(g, lo, hi, fin, aa, fin, t, 1 + (n1 + n2)));
        1 + n1 + n2
    }
}

/// The converse of `lemma_loop_reads`.
proof fn lemma_loop_lang(g: Seq<NfaState>, lo: int, m: int, hi: int, as_: int, aa: int, ra: Re, fin: int, t: Seq<char>, n: nat)
    requires
        frag_ok(g, lo, m, as_, aa, ra),
        only_eps(g, aa, seq![as_, fin]),
        m <= fin < hi,
        hi <= g.len(),
        walk(g, lo, hi, fin, aa, fin, t, n),
    ensures
        star_lang(ra, t),
    decreases n,
{
    assert(g[aa].epsilon[0] == seq![as_, fin][0]);
    assert(g[aa].epsilon[1] == seq![as_, fin][1]);
    assert(exists|j: int|
        #![trigger g[aa].epsilon[j]]
        0 <= j < g[aa].epsilon.len() && walk(g, lo, hi, fin, g[aa].epsilon[j] as int, fin, t, (n - 1) as nat));
    let j = choose|j: int|
        #![trigger g[aa].epsilon[j]]
        0 <= j < g[aa].epsilon.len() && walk(g, lo, hi, fin, g[aa].epsilon[j] as int, fin, t, (n - 1) as nat);
    if j == 1 {
        lemma_walk_from_stop(g, lo, hi, fin, fin, fin, t, (n - 1) as nat);
        assert(t.len() == 0);
        assert(star_lang(ra, t));
    } else {
        let k = lemma_walk_exit(g, lo, hi, fin, lo, m, aa, as_, fin, t, (n - 1) as nat);
        assert(frag_reads(g, lo, m, as_, aa, t.take(k)));
        lemma_loop_lang(g, lo, m, hi, as_, aa, ra, fin, t.skip(k), (n - 1) as nat);
        if k == 0 {
            assert(t.skip(0) =~= t);
            assert(star_lang(ra, t));
        } else {
            assert(lang(ra, t.take(k)) && star_lang(ra, t.skip(k)));
            assert(star_lang(ra, t));
        }
    }
}

/// Zero or more repetitions of a fragment: a new entry `m` with epsilon edges
/// to the fragment's start and to the new exit `m + 1`, and the fragment's
/// accept state looping back to its start or on to the exit.
pub proof fn lemma_frag_star(g: Seq<NfaState>, lo: int, m: int, as_: int, aa: int, ra: Re)
    requires
        frag_ok(g, lo, m, as_, aa, ra),
        only_eps(g, m, seq![as_, m + 1]),
        only_eps(g, aa, seq![as_, m + 1]),
        m + 1 < g.len(),
    ensures
        frag_ok(g, lo, m + 2, m, m + 1, Re::Star(Box::new(ra))),
{
    let re = Re::Star(Box::new(ra));
    let f = m + 1;
    assert(g[m].epsilon[0] == seq![as_, f][0]);
    assert(g[m].epsilon[1] == seq![as_, f][1]);
    assert(g[aa].epsilon[0] == seq![as_, f][0]);
    assert(g[aa].epsilon[1] == seq![as_, f][1]);
    assert forall|s: Seq<char>| #[trigger] frag_reads(g, lo, m + 2, m, f, s) <==> lang(re, s) by {
        if frag_reads(g, lo, m + 2, m, f, s) {
            let n = choose|n: nat| #[trigger] walk(g, lo, m + 2, f, m, f, s, n);
            let j = choose|j: int|
                #![trigger g[m].epsilon[j]]
                0 <= j < g[m].epsilon.len() && walk(g, lo, m + 2, f, g[m].epsilon[j] as int, f, s, (n - 1) as nat);
            if j == 1 {
                lemma_walk_from_stop(g, lo, m + 2, f, f, f, s, (n - 1) as nat);
                assert(star_lang(ra, s));
            } else {
                let k = lemma_walk_exit(g, lo, m + 2, f, lo, m, aa, as_, f, s, (n - 1) as nat);
                assert(frag_reads(g, lo, m, as_, aa, s.take(k)));
                lemma_loop_lang(g, lo, m, m + 2, as_, aa, ra, f, s.skip(k), (n - 1) as nat);
                if k == 0 {
                    assert(s.skip(0) =~= s);
                } else {
                    assert(lang(ra, s.take(k)) && star_lang(ra, s.skip(k)));
                    assert(star_lang(ra, s));
                }
            }
        }
        if lang(re, s) {
            if s.len() == 0 {
                lemma_eps_step(g, lo, m + 2, f, m, 1);
                assert(s =~= Seq::<char>::empty());
            } else {
                assert(star_lang(ra, s));
                let k = choose|k: int| 1 <= k <= s.len() && lang(ra, s.take(k)) && star_lang(ra, s.skip(k));
                assert(frag_reads(g, lo, m, as_, aa, s.take(k)));
                let n1 = choose|n: nat| #[trigger] walk(g, lo, m, aa, as_, aa, s.take(k), n);
                lemma_walk_widen(g, lo, m, aa, lo, m + 2, f, as_, aa, s.take(k), n1);
                let n2 = lemma_loop_reads(g, lo, m, m + 2, as_, aa, ra, f, s.skip(k));
                lemma_walk_append(g, lo, m + 2, f, as_, aa, f, s.take(k), s.skip(k), n1, n2);
                assert(s.take(k) + s.skip(k) =~= s);
                lemma_eps_step(g, lo, m + 2, f, m, 0);
                lemma_walk_append(g, lo, m + 2, f, m, as_, f, Seq::<char>::empty(), s, 1, n1 + n2);
                assert(Seq::<char>::empty() + s =~= s);
            }
            assert(frag_reads(g, lo, m + 2, m, f, s));
        }
    }
}

/// One or more repetitions of a fragment: its accept state loops back to its
/// start or goes on to the new exit `m`.
pub proof fn lemma_frag_plus(g: Seq<NfaState>, lo: int, m: int, as_: int, aa: int, ra: Re)
    requires
        frag_ok(g, lo, m, as_, aa, ra),
        only_eps(g, aa, seq![as_, m]),
        m < g.len(),
    ensures
        frag_ok(g, lo, m + 1, as_, m, Re::Plus(Box::new(ra))),
{
    let re = Re::Plus(Box::new(ra));
    assert(g[aa].epsilon[0] == seq![as_, m][0]);
    assert(g[aa].epsilon[1] == seq![as_, m][1]);
    assert forall|s: Seq<char>| #[trigger] frag_reads(g, lo, m + 1, as_, m, s) <==> lang(re, s) by {
        if frag_reads(g, lo, m + 1, as_, m, s) {
            let n = choose|n: nat| #[trigger] walk(g, lo, m + 1, m, as_, m, s, n);
            let k = lemma_walk_exit(g, lo, m + 1, m, lo, m, aa, as_, m, s, n);
            assert(frag_reads(g, lo, m, as_, aa, s.take(k)));
            lemma_loop_lang(g, lo, m, m + 1, as_, aa, ra, m, s.skip(k), n);
            assert(lang(ra, s.take(k)) && star_lang(ra, s.skip(k)));
        }
        if lang(re, s) {
            let k = choose|k: int| 0 <= k <= s.len() && lang(ra, s.take(k)) && star_lang(ra, s.skip(k));
            assert(frag_reads(g, lo, m, as_, aa, s.take(k)));
            let n1 = choose|n: nat| #[trigger] walk(g, lo, m, aa, as_, aa, s.take(k), n);
            lemma_walk_widen(g, lo, m, aa, lo, m + 1, m, as_, aa, s.take(k), n1);
            let n2 = lemma_loop_reads(g, lo, m, m + 1, as_, aa, ra, m, s.skip(k));
            lemma_walk_append(g, lo, m + 1, m, as_, aa, m, s.take(k), s.skip(k), n1, n2);
            assert(s.take(k) + s.skip(k) =~= s);
            assert(frag_reads(g, lo, m + 1, as_, m, s));
        }
    }
}

/// Zero or one occurrence of a fragment: a new entry `m` with epsilon edges to
/// the fragment's start and to the new exit `m + 1`, which the fragment's
/// accept state also reaches.
pub proof fn lemma_frag_opt(g: Seq<NfaState>, lo: int, m: int, as_: int, aa: int, ra: Re)
    requires
        frag_ok(g, lo, m, as_, aa, ra),
        only_eps(g, m, seq![as_, m + 1]),
        only_eps(g, aa, seq![m + 1]),
        m + 1 < g.len(),
    ensures
        frag_ok(g, lo, m + 2, m, m + 1, Re::Opt(Box::new(ra))),
{
    let re = Re::Opt(Box::new(ra));
    let f = m + 1;
    assert(g[m].epsilon[0] == seq![as_, f][0]);
    assert(g[m].epsilon[1] == seq![as_, f][1]);
    assert(g[aa].epsilon[0] == seq![f][0]);
    assert forall|s: Seq<char>| #[trigger] frag_reads(g, lo, m + 2, m, f, s) <==> lang(re, s) by {
        if frag_reads(g, lo, m + 2, m, f, s) {
            let n = choose|n: nat| #[trigger] walk(g, lo, m + 2, f, m, f, s, n);
            let j = choose|j: int|
                #![trigger g[m].epsilon[j]]
                0 <= j < g[m].epsilon.len() && walk(g, lo, m + 2, f, g[m].epsilon[j] as int, f, s, (n - 1) as nat);
            if j == 1 {
                lemma_walk_from_stop(g, lo, m + 2, f, f, f, s, (n - 1) as nat);
            } else {
                let k = lemma_walk_exit(g, lo, m + 2, f, lo, m, aa, as_, f, s, (n - 1) as nat);
                assert(frag_reads(g, lo, m, as_, aa, s.take(k)));
                let j2 = choose|j2: int|
                    #![trigger g[aa].epsilon[j2]]
                    0 <= j2 < g[aa].epsilon.len() && walk(g, lo, m + 2, f, g[aa].epsilon[j2] as int, f, s.skip(k), (n - 1 - 1) as nat);
                lemma_walk_from_stop(g, lo, m + 2, f, f, f, s.skip(k), (n - 1 - 1) as nat);
                assert(s.take(k) =~= s);
            }
        }
        if lang(re, s) {
            if s.len() == 0 {
                lemma_eps_step(g, lo, m + 2, f, m, 1);
                assert(s =~= Seq::<char>::empty());
            } else {
                assert(frag_reads(g, lo, m, as_, aa, s));
                let n1 = choose|n: nat| #[trigger] walk(g, lo, m, aa, as_, aa, s, n);
                lemma_walk_widen(g, lo, m, aa, lo, m + 2, f, as_, aa, s, n1);
                lemma_eps_step(g, lo, m + 2, f, aa, 0);
                lemma_walk_append(g, lo, m + 2, f, as_, aa, f, s, Seq::<char>::empty(), n1, 1);
                assert(s + Seq::<char>::empty() =~= s);
                lemma_eps_step(g, lo, m + 2, f, m, 0);
                lemma_walk_append(g, lo, m + 2, f, m, as_, f, Seq::<char>::empty(), s, 1, n1 + 1);
                assert(Seq::<char>::empty() + s =~= s);
            }
            assert(frag_reads(g, lo, m + 2, m, f, s));
        }
    }
}

/// An epsilon path is a walk that reads nothing.
proof fn lemma_path_walk(nfa: Nfa, p: Seq<usize>, i: int)
    requires
        nfa.eps_path(p),
        0 <= i < p.len(),
    ensures
        walk(nfa.states, 0, nfa.states.len() as int, nfa.states.len() as int, p[i] as int, p.last() as int, Seq::<char>::empty(), (p.len() - 1 - i) as nat),
    decreases p.len() - i,
{
    let g = nfa.states;
    let nn = g.len() as int;
    if i < p.len() - 1 {
        lemma_path_walk(nfa, p, i + 1);
        assert(nfa.eps(p[i]).contains(p[i + 1]));
        let x = p[i] as int;
        let j = choose|j: int| 0 <= j < g[x].epsilon.len() && g[x].epsilon[j] == p[i + 1];
        assert(p[i] < nn);
        assert(walk(g, 0, nn, nn, g[x].epsilon[j] as int, p.last() as int, Seq::<char>::empty(), (p.len() - 1 - (i + 1)) as nat));
    }
}

/// A walk that reads nothing follows an epsilon path.
proof fn lemma_walk_path(nfa: Nfa, x: int, t: int, n: nat) -> (p: Seq<usize>)
    requires
        nfa.wf(),
        nfa.states.len() <= usize::MAX,
        0 <= x < nfa.states.len(),
        walk(nfa.states, 0, nfa.states.len() as int, nfa.states.len() as int, x, t, Seq::<char>::empty(), n),
    ensures
        nfa.eps_path(p),
        p[0] == x,
        p.last() == t,
    decreases n,
{
    let g = nfa.states;
    let nn = g.len() as int;
    if x == t {
        seq![x as usize]
    } else {
        let j = choose|j: int|
            #![trigger g[x].epsilon[j]]
            0 <= j < g[x].epsilon.len() && walk(g, 0, nn, nn, g[x].epsilon[j] as int, t, Seq::<char>::empty(), (n - 1) as nat);
        let e = g[x].epsilon[j];
        assert(e < nn);
        let q = lemma_walk_path(nfa, e as int, t, (n - 1) as nat);
        let p = seq![x as usize] + q;
        assert(p[1] == q[0]);
        assert forall|i: int| 0 <= i < p.len() implies (#[trigger] p[i]) < nfa.states.len() by {
            if i > 0 {
                assert(p[i] == q[i - 1]);
            }
        }
        assert forall|i: int| 0 <= i < p.len() - 1 implies nfa.eps(#[trigger] p[i]).contains(p[i + 1]) by {
            if i > 0 {
                assert(p[i] == q[i - 1] && p[i + 1] == q[i]);
            } else {
                assert(nfa.eps(p[0])[j] == e);
            }
        }
        assert(p.last() == q.last());
        p
    }
}

/// A walk reading `s` followed by `c` ends with a transition reading `c` and
/// then epsilon edges.
proof fn lemma_walk_split_last(nfa: Nfa, x: int, t: int, s: Seq<char>, c: char, n: nat) -> (r: (int, int))
    requires
        walk(nfa.states, 0, nfa.states.len() as int, nfa.states.len() as int, x, t, s.push(c), n),
    ensures
        0 <= r.0 < nfa.states.len(),
        0 <= r.1 < nfa.states[r.0].transitions.len(),
        nfa.states[r.0].transitions[r.1].0.accepts(c),
        walk(nfa.states, 0, nfa.states.len() as int, nfa.states.len() as int, x, r.0, s, n),
        walk(nfa.states, 0, nfa.states.len() as int, nfa.states.len() as int, nfa.states[r.0].transitions[r.1].1 as int, t, Seq::<char>::empty(), n),
    decreases n,
{
    let g = nfa.states;
    let nn = g.len() as int;
    let sc = s.push(c);
    if exists|j: int|
        #![trigger g[x].epsilon[j]]
        0 <= j < g[x].epsilon.len() && walk(g, 0, nn, nn, g[x].epsilon[j] as int, t, sc, (n - 1) as nat) {
        let j = choose|j: int|
            #![trigger g[x].epsilon[j]]
            0 <= j < g[x].epsilon.len() && walk(g, 0, nn, nn, g[x].epsilon[j] as int, t, sc, (n - 1) as nat);
        let r = lemma_walk_split_last(nfa, g[x].epsilon[j] as int, t, s, c, (n - 1) as nat);
        lemma_walk_fuel(g, 0, nn, nn, g[r.0].transitions[r.1].1 as int, t, Seq::<char>::empty(), (n - 1) as nat, n);
        if x == r.0 && s.len() == 0 {
        } else {
            assert(walk(g, 0, nn, nn, g[x].epsilon[j] as int, r.0, s, (n - 1) as nat));
        }
        r
    } else {
        let j = choose|j: int|
            #![trigger g[x].transitions[j]]
            0 <= j < g[x].transitions.len() && g[x].transitions[j].0.accepts(sc[0]) && walk(
                g,
                0,
                nn,
                nn,
                g[x].transitions[j].1 as int,
                t,
                sc.skip(1),
                (n - 1) as nat,
            );
        if s.len() == 0 {
            assert(sc.skip(1) =~= Seq::<char>::empty());
            lemma_walk_fuel(g, 0, nn, nn, g[x].transitions[j].1 as int, t, Seq::<char>::empty(), (n - 1) as nat, n);
            (x, j)
        } else {
            assert(sc.skip(1) =~= s.skip(1).push(c));
            let r = lemma_walk_split_last(nfa, g[x].transitions[j].1 as int, t, s.skip(1), c, (n - 1) as nat);
            lemma_walk_fuel(g, 0, nn, nn, g[r.0].transitions[r.1].1 as int, t, Seq::<char>::empty(), (n - 1) as nat, n);
            assert(sc[0] == s[0]);
            assert(walk(g, 0, nn, nn, g[x].transitions[j].1 as int, r.0, s.skip(1), (n - 1) as nat));
            r
        }
    }
}

/// The live set after reading `text` holds exactly the states that walks from
/// the start state reading `text` reach.
pub proof fn lemma_run_walks(nfa: Nfa, text: Seq<char>, t: usize)
    requires
        nfa.wf(),
        nfa.states.len() <= usize::MAX,
    ensures
        nfa.run(nfa.start_set(), text).contains(t) <==> exists|n: nat|
            #[trigger] walk(nfa.states, 0, nfa.states.len() as int, nfa.states.len() as int, nfa.start as int, t as int, text, n),
    decreases text.len(),
{
    let g = nfa.states;
    let nn = g.len() as int;
    let x = nfa.start as int;
    if text.len() == 0 {
        if nfa.run(nfa.start_set(), text).contains(t) {
            let p = choose|p: Seq<usize>| #[trigger] nfa.eps_path(p) && set![nfa.start].contains(p[0]) && p.last() == t;
            lemma_path_walk(nfa, p, 0);
            assert(text =~= Seq::<char>::empty());
            assert(walk(g, 0, nn, nn, x, t as int, text, (p.len() - 1) as nat));
        }
        if exists|n: nat| #[trigger] walk(g, 0, nn, nn, x, t as int, text, n) {
            let n = choose|n: nat| #[trigger] walk(g, 0, nn, nn, x, t as int, text, n);
            assert(text =~= Seq::<char>::empty());
            let p = lemma_walk_path(nfa, x, t as int, n);
            assert(nfa.eps_path(p) && set![nfa.start].contains(p[0]) && p.last() == t);
        }
    } else {
        let s = text.drop_last();
        let c = text.last();
        assert(s.push(c) =~= text);
        let prev = nfa.run(nfa.start_set(), s);
        if nfa.run(nfa.start_set(), text).contains(t) {
            let mv = nfa.moves(prev, c);
            let p = choose|p: Seq<usize>| #[trigger] nfa.eps_path(p) && mv.contains(p[0]) && p.last() == t;
            let (u, j) = choose|u: usize, j: int|
                #![trigger prev.contains(u), nfa.states[u as int].transitions[j]]
                prev.contains(u) && u < nfa.states.len() && 0 <= j < nfa.states[u as int].transitions.len()
                    && nfa.states[u as int].transitions[j].0.accepts(c) && nfa.states[u as int].transitions[j].1 == p[0];
            lemma_run_walks(nfa, s, u);
            let n1 = choose|n: nat| #[trigger] walk(g, 0, nn, nn, x, u as int, s, n);
            lemma_path_walk(nfa, p, 0);
            let n2 = (p.len() - 1) as nat;
            assert(seq![c].skip(1) =~= Seq::<char>::empty());
            assert(walk(g, 0, nn, nn, g[u as int].transitions[j].1 as int, t as int, seq![c].skip(1), n2));
            assert(walk(g, 0, nn, nn, u as int, t as int, seq![c], n2 + 1));
            lemma_walk_append(g, 0, nn, nn, x, u as int, t as int, s, seq![c], n1, n2 + 1);
            assert(s + seq![c] =~= text);
            assert(walk(g, 0, nn, nn, x, t as int, text, n1 + n2 + 1));
        }
        if exists|n: nat| #[trigger] walk(g, 0, nn, nn, x, t as int, text, n) {
            let n = choose|n: nat| #[trigger] walk(g, 0, nn, nn, x, t as int, text, n);
            let (u, j) = lemma_walk_split_last(nfa, x, t as int, s, c, n);
            lemma_run_walks(nfa, s, u as usize);
            assert(prev.contains(u as usize));
            let v = g[u].transitions[j].1;
            assert(v < nn);
            assert((u as usize) as int == u);
            assert(g[(u as usize) as int].transitions[j] == g[u].transitions[j]);
            assert(nfa.moves(prev, c).contains(v));
            let p = lemma_walk_path(nfa, v as int, t as int, n);
            assert(nfa.eps_path(p) && nfa.moves(prev, c).contains(p[0]) && p.last() == t);
            assert(nfa.closure_of(nfa.moves(prev, c)).contains(t));
        }
    }
}

/// A walk ending at a state without edges never left from it before.
proof fn lemma_walk_restop(g: Seq<NfaState>, lo: int, hi: int, stop: int, x: int, y: int, s: Seq<char>, n: nat)
    requires
        walk(g, lo, hi, stop, x, y, s, n),
        only_eps(g, y, Seq::<int>::empty()),
    ensures
        walk(g, lo, hi, y, x, y, s, n),
    decreases n,
{
    if x == y && s.len() == 0 {
    } else if exists|j: int|
        #![trigger g[x].epsilon[j]]
        0 <= j < g[x].epsilon.len() && walk(g, lo, hi, stop, g[x].epsilon[j] as int, y, s, (n - 1) as nat) {
        let j = choose|j: int|
            #![trigger g[x].epsilon[j]]
            0 <= j < g[x].epsilon.len() && walk(g, lo, hi, stop, g[x].epsilon[j] as int, y, s, (n - 1) as nat);
        lemma_walk_restop(g, lo, hi, stop, g[x].epsilon[j] as int, y, s, (n - 1) as nat);
    } else {
        let j = choose|j: int|
            #![trigger g[x].transitions[j]]
            0 <= j < g[x].transitions.len() && g[x].transitions[j].0.accepts(s[0]) && walk(
                g,
                lo,
                hi,
                stop,
                g[x].transitions[j].1 as int,
                y,
                s.skip(1),
                (n - 1) as nat,
            );
        lemma_walk_restop(g, lo, hi, stop, g[x].transitions[j].1 as int, y, s.skip(1), (n - 1) as nat);
    }
}

/// When the accept state `acc` is the only final state and has no edges, the
/// automaton accepts exactly the strings read by walks from its start to `acc`.
pub proof fn lemma_accepts_iff_reads(nfa: Nfa, acc: int, text: Seq<char>)
    requires
        nfa.wf(),
        nfa.states.len() <= usize::MAX,
        only_eps(nfa.states, acc, Seq::<int>::empty()),
        forall|q: int| 0 <= q < nfa.states.len() ==> (#[trigger] nfa.states[q].accept <==> q == acc),
    ensures
        nfa.accepts_text(text) <==> frag_reads(
            nfa.states,
            0,
            nfa.states.len() as int,
            nfa.start as int,
            acc,
            text,
        ),
{
    let g = nfa.states;
    let nn = g.len() as int;
    let run = nfa.run(nfa.start_set(), text);
    if nfa.accepts_text(text) {
        let q = choose|q: usize| run.contains(q) && q < nfa.states.len() && #[trigger] nfa.states[q as int].accept;
        assert(q == acc);
        lemma_run_walks(nfa, text, q);
        let n = choose|n: nat| #[trigger] walk(g, 0, nn, nn, nfa.start as int, q as int, text, n);
        lemma_walk_restop(g, 0, nn, nn, nfa.start as int, acc, text, n);
        assert(frag_reads(g, 0, nn, nfa.start as int, acc, text));
    }
    if frag_reads(g, 0, nn, nfa.start as int, acc, text) {
        let n = choose|n: nat| #[trigger] walk(g, 0, nn, acc, nfa.start as int, acc, text, n);
        lemma_walk_widen(g, 0, nn, acc, 0, nn, nn, nfa.start as int, acc, text, n);
        let q = acc as usize;
        lemma_run_walks(nfa, text, q);
        assert(walk(g, 0, nn, nn, nfa.start as int, q as int, text, n));
        assert(run.contains(q) && q < nfa.states.len() && nfa.states[q as int].accept);
    }
}

} // verus!
