//! A regular-expression engine that can be stepped one character at a time.
//!
//! The pattern is compiled (Thompson construction) into an NFA whose states
//! carry epsilon edges and character transitions; the NFA is simulated as a
//! set of live states. `step` advances every live state by one character,
//! `can_consume` asks whether a character keeps a state alive, and
//! `is_accepting` whether the input so far is a full match.
use crate::nfa_walk::{agree_on, same_at};
use crate::regex_syntax::{
    at_concat_end, class_ranges_of, lang, p_alt, p_alt_rest, p_atom, p_class, p_class_items, p_concat,
    p_concat_rest, p_escape, p_repeat, parse_pattern, Re,
};
use crate::text::chars_of;
use crate::thompson::{
    frag_ok, lemma_accepts_iff_reads, lemma_frag_alt, lemma_frag_atom, lemma_frag_cat, lemma_frag_empty,
    lemma_frag_frame, lemma_frag_opt, lemma_frag_plus, lemma_frag_star, only_eps,
};
use std::collections::BTreeSet;
use vstd::prelude::*;

verus! {

/// Schema version of the regex-nfa surface.
pub const SCHEMA_VERSION: &'static str = "1.0.0";

/// Errors compiling a pattern.
#[derive(Debug, Clone, Copy, PartialEq, Eq, Structural)]
pub enum RegexError {
    /// The pattern ended unexpectedly (e.g. an open group or class).
    UnexpectedEnd,
    /// An unbalanced or unexpected character at a position.
    Unexpected {
        /// The offending character.
        ch: char,
        /// Character position.
        pos: usize,
    },
    /// A repetition operator had nothing to repeat.
    NothingToRepeat(usize),
}

/// What a transition matches.
#[derive(Debug)]
pub enum Matcher {
    /// A specific character.
    Char(char),
    /// Any character (`.`).
    Any,
    /// A character class: inclusive ranges plus a negation flag.
    Class { ranges: Vec<(char, char)>, negated: bool },
}

/// The abstract form of a transition matcher.
pub enum MatcherV {
    /// A specific character.
    Char(char),
    /// Any character.
    Any,
    /// Inclusive character ranges, possibly negated.
    Class { ranges: Seq<(char, char)>, negated: bool },
}

impl MatcherV {
    /// Whether the matcher accepts `c`.
    pub open spec fn accepts(self, c: char) -> bool {
        match self {
            MatcherV::Char(x) => x == c,
            MatcherV::Any => true,
            MatcherV::Class { ranges, negated } => (exists|i: int|
                0 <= i < ranges.len() && ranges[i].0 <= c && c <= #[trigger] ranges[i].1) != negated,
        }
    }
}

impl View for Matcher {
    type V = MatcherV;

    closed spec fn view(&self) -> MatcherV {
        match self {
            Matcher::Char(x) => MatcherV::Char(*x),
            Matcher::Any => MatcherV::Any,
            Matcher::Class { ranges, negated } => MatcherV::Class { ranges: ranges@, negated: *negated },
        }
    }
}

impl Matcher {
    fn matches(&self, c: char) -> (r: bool)
        ensures
            r == self@.accepts(c),
    {
        match self {
            Matcher::Char(x) => *x == c,
            Matcher::Any => true,
            Matcher::Class { ranges, negated } => {
                let mut inside = false;
                let mut i: usize = 0;
                while i < ranges.len()
                    invariant
                        i <= ranges@.len(),
                        inside == (exists|j: int|
                            0 <= j < i && ranges@[j].0 <= c && c <= #[trigger] ranges@[j].1),
                    decreases ranges@.len() - i,
                {
                    let (lo, hi) = ranges[i];
                    if c >= lo && c <= hi {
                        inside = true;
                    }
                    i += 1;
                }
                assert(self@ == MatcherV::Class { ranges: ranges@, negated: *negated });
                assert(inside == (exists|j: int| 0 <= j < ranges@.len() && ranges@[j].0 <= c && c <= #[trigger] ranges@[j].1));
                let res = inside != *negated;
                assert(res == self@.accepts(c));
                return res;
            },
        }
    }
}

/// An NFA state: epsilon targets plus matched transitions.
#[derive(Debug)]
pub struct State {
    epsilon: Vec<usize>,
    transitions: Vec<(Matcher, usize)>,
    accept: bool,
}

/// A compiled regular expression as a Thompson NFA.
#[derive(Debug)]
pub struct Regex {
    states: Vec<State>,
    start: usize,
}

/// A set of live NFA states.
#[derive(Debug)]
pub(crate) struct StateSet {
    members: Vec<bool>,
}

/// The members of a membership vector.
pub open spec fn members_of(v: Seq<bool>) -> Set<usize> {
    Set::new(|i: usize| i < v.len() && v[i as int])
}

impl View for StateSet {
    type V = Set<usize>;

    closed spec fn view(&self) -> Set<usize> {
        members_of(self.members@)
    }
}

impl StateSet {
    /// The number of states the set ranges over.
    pub(crate) closed spec fn span(&self) -> nat {
        self.members@.len()
    }
}

/// Number of `true` entries.
pub open spec fn count_true(v: Seq<bool>) -> nat
    decreases v.len(),
{
    if v.len() == 0 {
        0
    } else {
        count_true(v.drop_last()) + if v.last() {
            1nat
        } else {
            0nat
        }
    }
}

proof fn lemma_count_true_le(v: Seq<bool>)
    ensures
        count_true(v) <= v.len(),
    decreases v.len(),
{
    if v.len() > 0 {
        lemma_count_true_le(v.drop_last());
    }
}

proof fn lemma_count_true_update(v: Seq<bool>, i: int)
    requires
        0 <= i < v.len(),
        !v[i],
    ensures
        count_true(v.update(i, true)) == count_true(v) + 1,
    decreases v.len(),
{
    let w = v.update(i, true);
    if i == v.len() - 1 {
        assert(w.drop_last() =~= v.drop_last());
    } else {
        assert(w.drop_last() =~= v.drop_last().update(i, true));
        lemma_count_true_update(v.drop_last(), i);
    }
}

impl StateSet {
    /// Whether no state is live.
    pub(crate) fn is_empty(&self) -> (r: bool)
        ensures
            r == (self@ == Set::<usize>::empty()),
    {
        let mut i: usize = 0;
        while i < self.members.len()
            invariant
                i <= self.members@.len(),
                forall|j: int| 0 <= j < i ==> !self.members@[j],
            decreases self.members@.len() - i,
        {
            if self.members[i] {
                assert(self@.contains(i));
                return false;
            }
            i += 1;
        }
        assert(self@ =~= Set::<usize>::empty());
        true
    }

    /// A copy of the set.
    pub(crate) fn duplicate(&self) -> (r: StateSet)
        ensures
            r@ == self@,
            r.span() == self.span(),
    {
        let mut members: Vec<bool> = Vec::new();
        let mut i: usize = 0;
        while i < self.members.len()
            invariant
                i <= self.members@.len(),
                members@ == self.members@.take(i as int),
            decreases self.members@.len() - i,
        {
            members.push(self.members[i]);
            i += 1;
            assert(members@ =~= self.members@.take(i as int));
        }
        assert(members@ =~= self.members@);
        StateSet { members }
    }
}

/// The abstract form of an NFA state.
pub struct NfaState {
    /// Epsilon targets.
    pub epsilon: Seq<usize>,
    /// Character transitions: matcher and target.
    pub transitions: Seq<(MatcherV, usize)>,
    /// Whether the state is final.
    pub accept: bool,
}

/// The abstract form of a compiled pattern: its states and start state.
pub struct Nfa {
    /// The states, by index.
    pub states: Seq<NfaState>,
    /// The start state.
    pub start: usize,
}

impl View for State {
    type V = NfaState;

    closed spec fn view(&self) -> NfaState {
        NfaState {
            epsilon: self.epsilon@,
            transitions: self.transitions@.map_values(|t: (Matcher, usize)| (t.0@, t.1)),
            accept: self.accept,
        }
    }
}

impl View for Regex {
    type V = Nfa;

    closed spec fn view(&self) -> Nfa {
        Nfa { states: self.states@.map_values(|s: State| s@), start: self.start }
    }
}

impl Nfa {
    /// Epsilon targets of state `s`.
    pub open spec fn eps(self, s: usize) -> Seq<usize> {
        self.states[s as int].epsilon
    }

    /// Every state index the automaton mentions is in range.
    pub open spec fn wf(self) -> bool {
        &&& self.start < self.states.len()
        &&& forall|s: int, j: int|
            0 <= s < self.states.len() && 0 <= j < self.states[s].epsilon.len()
                ==> #[trigger] self.states[s].epsilon[j] < self.states.len()
        &&& forall|s: int, j: int|
            0 <= s < self.states.len() && 0 <= j < self.states[s].transitions.len()
                ==> #[trigger] self.states[s].transitions[j].1 < self.states.len()
    }

    /// `p` is a path along epsilon edges.
    pub open spec fn eps_path(self, p: Seq<usize>) -> bool {
        &&& p.len() > 0
        &&& forall|i: int| 0 <= i < p.len() ==> (#[trigger] p[i]) < self.states.len()
        &&& forall|i: int| 0 <= i < p.len() - 1 ==> self.eps(#[trigger] p[i]).contains(p[i + 1])
    }

    /// The epsilon-closure of `set`: every state reachable from a member of
    /// `set` along epsilon edges (including the members themselves).
    pub open spec fn closure_of(self, set: Set<usize>) -> Set<usize> {
        Set::new(
            |t: usize|
                exists|p: Seq<usize>| #[trigger] self.eps_path(p) && set.contains(p[0]) && p.last() == t,
        )
    }

    /// The targets of the transitions out of `set` that accept `c`.
    pub open spec fn moves(self, set: Set<usize>, c: char) -> Set<usize> {
        Set::new(
            |t: usize|
                exists|s: usize, j: int|
                    #![trigger set.contains(s), self.states[s as int].transitions[j]]
                    set.contains(s) && s < self.states.len() && 0 <= j
                        < self.states[s as int].transitions.len()
                        && self.states[s as int].transitions[j].0.accepts(c)
                        && self.states[s as int].transitions[j].1 == t,
        )
    }

    /// The live set after consuming `c` from `set`.
    pub open spec fn step_of(self, set: Set<usize>, c: char) -> Set<usize> {
        self.closure_of(self.moves(set, c))
    }

    /// The initial live set.
    pub open spec fn start_set(self) -> Set<usize> {
        self.closure_of(set![self.start])
    }

    /// The live set after consuming `text` from `set`.
    pub open spec fn run(self, set: Set<usize>, text: Seq<char>) -> Set<usize>
        decreases text.len(),
    {
        if text.len() == 0 {
            set
        } else {
            self.step_of(self.run(set, text.drop_last()), text.last())
        }
    }

    /// Some member of `set` is an accepting state.
    pub open spec fn accepting(self, set: Set<usize>) -> bool {
        exists|s: usize| set.contains(s) && s < self.states.len() && #[trigger] self.states[s as int].accept
    }

    /// Some state of `set` has a transition accepting `c`.
    pub open spec fn consumes(self, set: Set<usize>, c: char) -> bool {
        exists|s: usize, j: int|
            #![trigger set.contains(s), self.states[s as int].transitions[j]]
            set.contains(s) && s < self.states.len() && 0 <= j < self.states[s as int].transitions.len()
                && self.states[s as int].transitions[j].0.accepts(c)
    }

    /// The automaton accepts exactly `text`.
    pub open spec fn accepts_text(self, text: Seq<char>) -> bool {
        self.accepting(self.run(self.start_set(), text))
    }

    /// Every character of `text` keeps a state alive.
    pub open spec fn viable_prefix(self, text: Seq<char>) -> bool {
        self.run(self.start_set(), text) != Set::<usize>::empty()
    }

    /// The live set of an unanchored search: the start closure is re-seeded
    /// after every character.
    pub open spec fn step_unanchored_of(self, set: Set<usize>, c: char) -> Set<usize> {
        self.step_of(set, c).union(self.start_set())
    }

    /// The live set of an unanchored search after consuming `text`.
    pub open spec fn run_unanchored(self, set: Set<usize>, text: Seq<char>) -> Set<usize>
        decreases text.len(),
    {
        if text.len() == 0 {
            set
        } else {
            self.step_unanchored_of(self.run_unanchored(set, text.drop_last()), text.last())
        }
    }

    /// Some substring of `text` is accepted: a match ends after some prefix.
    pub open spec fn accepts_somewhere(self, text: Seq<char>) -> bool {
        exists|k: int|
            0 <= k <= text.len() && #[trigger] self.accepting(
                self.run_unanchored(self.start_set(), text.take(k)),
            )
    }
}

/// The closure of a set is closed under epsilon edges.
proof fn lemma_closure_closed(nfa: Nfa, set: Set<usize>, s: usize, e: usize)
    requires
        nfa.wf(),
        nfa.closure_of(set).contains(s),
        nfa.eps(s).contains(e),
    ensures
        nfa.closure_of(set).contains(e),
{
    let p = choose|p: Seq<usize>| #[trigger] nfa.eps_path(p) && set.contains(p[0]) && p.last() == s;
    let q = p.push(e);
    let j = choose|j: int| 0 <= j < nfa.eps(s).len() && nfa.eps(s)[j] == e;
    assert(p[p.len() - 1] < nfa.states.len());
    assert(nfa.states[s as int].epsilon[j] < nfa.states.len());
    assert forall|i: int| 0 <= i < q.len() - 1 implies nfa.eps(#[trigger] q[i]).contains(q[i + 1]) by {
        if i < p.len() - 1 {
            assert(q[i] == p[i] && q[i + 1] == p[i + 1]);
        }
    }
    assert(nfa.eps_path(q));
}

/// Members of the set belong to its closure.
proof fn lemma_closure_contains(nfa: Nfa, set: Set<usize>, s: usize)
    requires
        set.contains(s),
        s < nfa.states.len(),
    ensures
        nfa.closure_of(set).contains(s),
{
    let p = seq![s];
    assert(nfa.eps_path(p));
}

/// A superset of `set` closed under epsilon edges contains its closure.
proof fn lemma_closure_least(nfa: Nfa, set: Set<usize>, r: Set<usize>, t: usize)
    requires
        set.subset_of(r),
        forall|x: usize, e: usize| r.contains(x) && #[trigger] nfa.eps(x).contains(e) ==> r.contains(e),
        nfa.closure_of(set).contains(t),
    ensures
        r.contains(t),
{
    let p = choose|p: Seq<usize>| #[trigger] nfa.eps_path(p) && set.contains(p[0]) && p.last() == t;
    lemma_path_in(nfa, p, r, (p.len() - 1) as nat);
}

proof fn lemma_path_in(nfa: Nfa, p: Seq<usize>, r: Set<usize>, k: nat)
    requires
        nfa.eps_path(p),
        r.contains(p[0]),
        k < p.len(),
        forall|x: usize, e: usize| r.contains(x) && #[trigger] nfa.eps(x).contains(e) ==> r.contains(e),
    ensures
        r.contains(p[k as int]),
    decreases k,
{
    if k > 0 {
        lemma_path_in(nfa, p, r, (k - 1) as nat);
        assert(nfa.eps(p[k - 1]).contains(p[k as int]));
    }
}

/// The closure of the empty set is empty.
proof fn lemma_closure_empty(nfa: Nfa)
    ensures
        nfa.closure_of(Set::<usize>::empty()) == Set::<usize>::empty(),
{
    assert forall|t: usize| !nfa.closure_of(Set::<usize>::empty()).contains(t) by {
        if nfa.closure_of(Set::<usize>::empty()).contains(t) {
            let p = choose|p: Seq<usize>|
                #[trigger] nfa.eps_path(p) && Set::<usize>::empty().contains(p[0]) && p.last() == t;
        }
    }
    assert(nfa.closure_of(Set::<usize>::empty()) =~= Set::<usize>::empty());
}

/// Once the live set is empty it stays empty.
proof fn lemma_run_empty(nfa: Nfa, set: Set<usize>, text: Seq<char>, i: int, j: int)
    requires
        0 <= i <= j <= text.len(),
        nfa.run(set, text.take(i)) == Set::<usize>::empty(),
    ensures
        nfa.run(set, text.take(j)) == Set::<usize>::empty(),
    decreases j - i,
{
    if j > i {
        lemma_run_empty(nfa, set, text, i, j - 1);
        assert(text.take(j).drop_last() =~= text.take(j - 1));
        assert(nfa.moves(Set::<usize>::empty(), text[j - 1]) =~= Set::<usize>::empty());
        lemma_closure_empty(nfa);
    }
}

impl Nfa {
    /// The targets of transitions accepting `c` out of members of `set`,
    /// considering states below `i` and the first `j` transitions of state `i`.
    pub open spec fn moves_upto(self, set: Set<usize>, c: char, i: int, j: int) -> Set<usize> {
        Set::new(
            |t: usize|
                exists|s: usize, k: int|
                    #![trigger set.contains(s), self.states[s as int].transitions[k]]
                    set.contains(s) && s < self.states.len() && (s < i || (s == i && k < j)) && 0 <= k
                        < self.states[s as int].transitions.len()
                        && self.states[s as int].transitions[k].0.accepts(c)
                        && self.states[s as int].transitions[k].1 == t,
        )
    }
}

impl Regex {
    /// Compile `pattern`. The whole pattern must match (anchored at both ends)
    /// for [`is_match`](Self::is_match); the empty pattern matches only the
    /// empty string.
    pub fn new(pattern: &str) -> (r: Result<Self, RegexError>)
        requires
            4 * pattern@.len() + 16 <= usize::MAX,
        ensures
            match r {
                Ok(re) => {
                    &&& re.wf()
                    &&& parse_pattern(pattern@) matches Ok(tree)
                    &&& forall|text: Seq<char>| #[trigger] re@.accepts_text(text) <==> lang(tree, text)
                },
                Err(e) => parse_pattern(pattern@) == Err::<Re, RegexError>(e),
            },
    {
        let chars = chars_of(pattern);
        let mut p = Parser { chars, pos: 0, states: Vec::new() };
        proof {
            assert(p.nstates() =~= Seq::<NfaState>::empty());
        }
        let frag = if p.chars.len() == 0 {
            // the empty pattern matches the empty string
            let s = p.new_state();
            proof {
                lemma_frag_empty(p.nstates(), s as int);
            }
            Frag { start: s, accept: s, re: Ghost(Re::Empty) }
        } else {
            let f = match p.parse_alt() {
                Ok(f) => f,
                Err(e) => {
                    return Err(e);
                },
            };
            if p.pos != p.chars.len() {
                return Err(RegexError::Unexpected { ch: p.chars[p.pos], pos: p.pos });
            }
            f
        };
        let ghost before = p.nstates();
        let ghost tree = frag.re@;
        p.states[frag.accept].accept = true;
        let ghost nfa = Nfa { states: p.states@.map_values(|s: State| s@), start: frag.start };
        proof {
            let ns = nfa.states;
            let acc = frag.accept as int;
            assert(ns.len() == before.len());
            assert forall|s: int| 0 <= s < ns.len() implies ns[s].epsilon == before[s].epsilon
                && ns[s].transitions == before[s].transitions by {}
            assert(ns[acc].accept);
            assert forall|s: int| 0 <= s < ns.len() && s != acc implies !ns[s].accept by {
                assert(!before[s].accept);
                assert(ns[s] == before[s]);
            }
            assert forall|s: int, j: int|
                0 <= s < ns.len() && 0 <= j < ns[s].epsilon.len() implies #[trigger] ns[s].epsilon[j] < ns.len() by {
                assert(before[s].epsilon[j] < before.len());
            }
            assert forall|s: int, j: int|
                0 <= s < ns.len() && 0 <= j < ns[s].transitions.len() implies #[trigger] ns[s].transitions[j].1 < ns.len() by {
                assert(before[s].transitions[j].1 < before.len());
            }
            assert(agree_on(before, ns, 0, ns.len() as int, acc)) by {
                assert forall|z: int| 0 <= z < ns.len() && z != acc && 0 <= z < before.len() implies #[trigger] same_at(before, ns, z) by {}
            }
            lemma_frag_frame(before, ns, 0, ns.len() as int, nfa.start as int, acc, tree);
            assert(only_eps(ns, acc, Seq::empty()));
            assert forall|text: Seq<char>| #[trigger] nfa.accepts_text(text) <==> lang(tree, text) by {
                lemma_accepts_iff_reads(nfa, acc, text);
            }
        }
        let re = Regex { states: p.states, start: frag.start };
        assert(re@ == nfa);
        Ok(re)
    }

    /// The automaton is well formed (every mentioned state exists). Every
    /// compiled regex is.
    #[verifier::type_invariant]
    pub open spec fn wf(&self) -> bool {
        self@.wf()
    }

    /// `set` ranges over exactly this automaton's states.
    pub(crate) open spec fn fits(&self, set: &StateSet) -> bool {
        set.span() == self@.states.len() && set@.subset_of(Set::new(|s: usize| s < self@.states.len()))
    }

    /// The epsilon-closure of a set of states.
    fn closure(&self, set: StateSet) -> (r: StateSet)
        requires
            self.wf(),
            self.fits(&set),
        ensures
            r@ == self@.closure_of(set@),
            self.fits(&r),
    {
        let ghost nfa = self@;
        let ghost init = set@;
        let n = self.states.len();
        let mut out = set.members;
        let mut stack: Vec<usize> = Vec::new();
        let mut i: usize = 0;
        while i < n
            invariant
                i <= n,
                n == nfa.states.len(),
                out@.len() == n,
                members_of(out@) == init,
                forall|k: int| 0 <= k < stack@.len() ==> (#[trigger] stack@[k]) < n && out@[stack@[k] as int],
                forall|x: usize| x < i && out@[x as int] ==> stack@.contains(x),
            decreases n - i,
        {
            let ghost pre = stack@;
            if out[i] {
                stack.push(i);
            }
            i += 1;
            proof {
                assert forall|x: usize| x < i && out@[x as int] implies stack@.contains(x) by {
                    if x == i - 1 {
                        assert(stack@[stack@.len() - 1] == x);
                    } else {
                        let k = choose|k: int| 0 <= k < pre.len() && pre[k] == x;
                        assert(stack@[k] == x);
                    }
                }
            }
        }
        proof {
            lemma_count_true_le(out@);
            assert forall|x: usize| init.contains(x) implies nfa.closure_of(init).contains(x) by {
                lemma_closure_contains(nfa, init, x);
            }
        }
        while stack.len() > 0
            invariant
                n == nfa.states.len(),
                nfa == self@,
                nfa.wf(),
                out@.len() == n,
                count_true(out@) <= n,
                init.subset_of(members_of(out@)),
                members_of(out@).subset_of(nfa.closure_of(init)),
                forall|k: int| 0 <= k < stack@.len() ==> (#[trigger] stack@[k]) < n && out@[stack@[k] as int],
                forall|x: usize|
                    x < n && #[trigger] out@[x as int] ==> stack@.contains(x) || (forall|e: usize|
                        #[trigger] nfa.eps(x).contains(e) ==> e < n && out@[e as int]),
            decreases 2 * (n - count_true(out@)) + stack@.len(),
        {
            let ghost pre = stack@;
            let s = match stack.pop() {
                Some(s) => s,
                None => {
                    assert(false);
                    0
                },
            };
            proof {
                assert forall|x: usize|
                    x < n && x != s && #[trigger] out@[x as int] implies stack@.contains(x) || (forall|e: usize|
                        #[trigger] nfa.eps(x).contains(e) ==> e < n && out@[e as int]) by {
                    if pre.contains(x) {
                        let k = choose|k: int| 0 <= k < pre.len() && pre[k] == x;
                        assert(k != pre.len() - 1);
                        assert(stack@[k] == x);
                    }
                }
            }
            let ghost c0 = count_true(out@);
            let ghost l0 = stack@.len();
            let eps = &self.states[s].epsilon;
            assert(eps@ == nfa.eps(s));
            let mut j: usize = 0;
            while j < eps.len()
                invariant
                    j <= eps@.len(),
                    eps@ == nfa.eps(s),
                    s < n,
                    out@[s as int],
                    n == nfa.states.len(),
                    nfa == self@,
                    nfa.wf(),
                    out@.len() == n,
                    count_true(out@) <= n,
                    count_true(out@) >= c0,
                    stack@.len() == l0 + (count_true(out@) - c0),
                    init.subset_of(members_of(out@)),
                    members_of(out@).subset_of(nfa.closure_of(init)),
                    forall|k: int| 0 <= k < stack@.len() ==> (#[trigger] stack@[k]) < n && out@[stack@[k] as int],
                    forall|x: usize|
                        x < n && x != s && #[trigger] out@[x as int] ==> stack@.contains(x) || (forall|e: usize|
                            #[trigger] nfa.eps(x).contains(e) ==> e < n && out@[e as int]),
                    forall|k: int| 0 <= k < j ==> out@[(#[trigger] eps@[k]) as int],
                decreases eps@.len() - j,
            {
                let e = eps[j];
                proof {
                    assert(nfa.states[s as int].epsilon[j as int] < n);
                    assert(members_of(out@).contains(s));
                    assert(nfa.eps(s).contains(e));
                    lemma_closure_closed(nfa, init, s, e);
                }
                if !out[e] {
                    let ghost before = out@;
                    let ghost before_stack = stack@;
                    out.set(e, true);
                    stack.push(e);
                    proof {
                        lemma_count_true_update(before, e as int);
                        lemma_count_true_le(out@);
                        assert forall|x: usize|
                            x < n && x != s && #[trigger] out@[x as int] implies stack@.contains(x) || (forall|
                                f: usize,
                            | #[trigger] nfa.eps(x).contains(f) ==> f < n && out@[f as int]) by {
                            if x == e {
                                assert(stack@[stack@.len() - 1] == e);
                            } else {
                                assert(before[x as int]);
                                if before_stack.contains(x) {
                                    let k = choose|k: int| 0 <= k < before_stack.len() && before_stack[k] == x;
                                    assert(stack@[k] == x);
                                }
                            }
                        }
                        assert(members_of(out@) =~= members_of(before).insert(e));
                    }
                }
                j += 1;
            }
            proof {
                assert forall|x: usize|
                    x < n && #[trigger] out@[x as int] implies stack@.contains(x) || (forall|e: usize|
                        #[trigger] nfa.eps(x).contains(e) ==> e < n && out@[e as int]) by {
                    if x == s {
                        assert forall|e: usize| #[trigger] nfa.eps(x).contains(e) implies e < n && out@[e as int] by {
                            let k = choose|k: int| 0 <= k < eps@.len() && eps@[k] == e;
                            assert(nfa.states[s as int].epsilon[k] < n);
                        }
                    }
                }
            }
        }
        proof {
            let r = members_of(out@);
            assert forall|x: usize, e: usize| r.contains(x) && #[trigger] nfa.eps(x).contains(e) implies r.contains(e) by {
                assert(out@[x as int]);
            }
            assert forall|t: usize| nfa.closure_of(init).contains(t) implies r.contains(t) by {
                lemma_closure_least(nfa, init, r, t);
            }
            assert(r =~= nfa.closure_of(init));
        }
        let r = StateSet { members: out };
        r
    }

    /// The initial live-state set (epsilon-closure of the start state).
    pub(crate) fn start_live(&self) -> (r: StateSet)
        ensures
            r@ == self@.start_set(),
            self.fits(&r),
    {
        proof {
            use_type_invariant(self);
        }
        let n = self.states.len();
        let mut members: Vec<bool> = Vec::new();
        let mut i: usize = 0;
        while i < n
            invariant
                i <= n,
                members@ == Seq::new(i as nat, |k: int| k == self.start),
            decreases n - i,
        {
            members.push(i == self.start);
            i += 1;
            assert(members@ =~= Seq::new(i as nat, |k: int| k == self.start));
        }
        let seed = StateSet { members };
        assert(seed@ =~= set![self.start]);
        self.closure(seed)
    }

    /// Advance every live state in `set` by `c`. The result is empty if `c`
    /// cannot be consumed (a dead end).
    pub(crate) fn step_live(&self, set: &StateSet, c: char) -> (r: StateSet)
        requires
            self.fits(set),
        ensures
            r@ == self@.step_of(set@, c),
            self.fits(&r),
    {
        proof {
            use_type_invariant(self);
        }
        let ghost nfa = self@;
        let n = self.states.len();
        let mut next: Vec<bool> = Vec::new();
        let mut i: usize = 0;
        while i < n
            invariant
                i <= n,
                next@ == Seq::new(i as nat, |k: int| false),
            decreases n - i,
        {
            next.push(false);
            i += 1;
            assert(next@ =~= Seq::new(i as nat, |k: int| false));
        }
        assert(members_of(next@) =~= nfa.moves_upto(set@, c, 0, 0));
        let mut s: usize = 0;
        while s < n
            invariant
                s <= n,
                n == nfa.states.len(),
                nfa == self@,
                nfa.wf(),
                set.span() == n,
                next@.len() == n,
                members_of(next@) == nfa.moves_upto(set@, c, s as int, 0),
            decreases n - s,
        {
            if set.members[s] {
                let trans = &self.states[s].transitions;
                let mut j: usize = 0;
                while j < trans.len()
                    invariant
                        j <= trans@.len(),
                        s < n,
                        set@.contains(s),
                        n == nfa.states.len(),
                        nfa == self@,
                        nfa.wf(),
                        trans@.len() == nfa.states[s as int].transitions.len(),
                        forall|k: int| 0 <= k < trans@.len() ==> (#[trigger] trans@[k]).0@ == nfa.states[s as int].transitions[k].0
                            && trans@[k].1 == nfa.states[s as int].transitions[k].1,
                        next@.len() == n,
                        members_of(next@) == nfa.moves_upto(set@, c, s as int, j as int),
                    decreases trans@.len() - j,
                {
                    let m = &trans[j].0;
                    let t = trans[j].1;
                    assert(nfa.states[s as int].transitions[j as int].1 < n);
                    let ok = m.matches(c);
                    let ghost before = next@;
                    if ok {
                        next.set(t, true);
                    }
                    j += 1;
                    proof {
                        let want = nfa.moves_upto(set@, c, s as int, j as int);
                        assert forall|x: usize| members_of(next@).contains(x) <==> want.contains(x) by {
                            if want.contains(x) {
                                let (ss, k) = choose|ss: usize, k: int|
                                    #![trigger set@.contains(ss), nfa.states[ss as int].transitions[k]]
                                    set@.contains(ss) && ss < nfa.states.len() && (ss < s || (ss == s && k < j)) && 0 <= k
                                        < nfa.states[ss as int].transitions.len()
                                        && nfa.states[ss as int].transitions[k].0.accepts(c)
                                        && nfa.states[ss as int].transitions[k].1 == x;
                                if !(ss == s && k == j - 1) {
                                    assert(nfa.moves_upto(set@, c, s as int, j - 1).contains(x));
                                }
                            }
                            if members_of(next@).contains(x) && !(ok && x == t) {
                                assert(members_of(before).contains(x));
                                let (ss, k) = choose|ss: usize, k: int|
                                    #![trigger set@.contains(ss), nfa.states[ss as int].transitions[k]]
                                    set@.contains(ss) && ss < nfa.states.len() && (ss < s || (ss == s && k < j - 1)) && 0 <= k
                                        < nfa.states[ss as int].transitions.len()
                                        && nfa.states[ss as int].transitions[k].0.accepts(c)
                                        && nfa.states[ss as int].transitions[k].1 == x;
                                assert(want.contains(x));
                            }
                            if ok && x == t {
                                assert(set@.contains(s) && nfa.states[s as int].transitions[j - 1].1 == x);
                                assert(want.contains(x));
                            }
                        }
                        assert(members_of(next@) =~= want);
                    }
                }
                proof {
                    assert(members_of(next@) =~= nfa.moves_upto(set@, c, s as int + 1, 0)) by {
                        assert forall|x: usize| nfa.moves_upto(set@, c, s as int, j as int).contains(x)
                            <==> nfa.moves_upto(set@, c, s as int + 1, 0).contains(x) by {
                            if nfa.moves_upto(set@, c, s as int + 1, 0).contains(x) {
                                let (ss, k) = choose|ss: usize, k: int|
                                    #![trigger set@.contains(ss), nfa.states[ss as int].transitions[k]]
                                    set@.contains(ss) && ss < nfa.states.len() && (ss < s + 1 || (ss == s + 1 && k < 0)) && 0 <= k
                                        < nfa.states[ss as int].transitions.len()
                                        && nfa.states[ss as int].transitions[k].0.accepts(c)
                                        && nfa.states[ss as int].transitions[k].1 == x;
                            }
                        }
                    }
                }
            } else {
                proof {
                    assert(!set@.contains(s));
                    assert(members_of(next@) =~= nfa.moves_upto(set@, c, s as int + 1, 0)) by {
                        assert forall|x: usize| nfa.moves_upto(set@, c, s as int, 0).contains(x)
                            <==> nfa.moves_upto(set@, c, s as int + 1, 0).contains(x) by {
                            if nfa.moves_upto(set@, c, s as int + 1, 0).contains(x) {
                                let (ss, k) = choose|ss: usize, k: int|
                                    #![trigger set@.contains(ss), nfa.states[ss as int].transitions[k]]
                                    set@.contains(ss) && ss < nfa.states.len() && (ss < s + 1 || (ss == s + 1 && k < 0)) && 0 <= k
                                        < nfa.states[ss as int].transitions.len()
                                        && nfa.states[ss as int].transitions[k].0.accepts(c)
                                        && nfa.states[ss as int].transitions[k].1 == x;
                            }
                        }
                    }
                }
            }
            s += 1;
        }
        proof {
            assert forall|x: usize| nfa.moves_upto(set@, c, n as int, 0).contains(x) <==> nfa.moves(set@, c).contains(x) by {
                if nfa.moves(set@, c).contains(x) {
                    let (ss, k) = choose|ss: usize, k: int|
                        #![trigger set@.contains(ss), nfa.states[ss as int].transitions[k]]
                        set@.contains(ss) && ss < nfa.states.len() && 0 <= k < nfa.states[ss as int].transitions.len()
                            && nfa.states[ss as int].transitions[k].0.accepts(c)
                            && nfa.states[ss as int].transitions[k].1 == x;
                    assert(nfa.moves_upto(set@, c, n as int, 0).contains(x));
                }
            }
            assert(members_of(next@) =~= nfa.moves(set@, c));
            assert forall|x: usize| members_of(next@).contains(x) implies x < n by {}
        }
        self.closure(StateSet { members: next })
    }

    /// Whether `c` keeps at least one state alive from `set`: the pattern still
    /// permits `c` as the next character.
    fn can_consume_live(&self, set: &StateSet, c: char) -> (r: bool)
        requires
            self.fits(set),
        ensures
            r == self@.consumes(set@, c),
    {
        proof {
            use_type_invariant(self);
        }
        let ghost nfa = self@;
        let n = self.states.len();
        let mut s: usize = 0;
        while s < n
            invariant
                s <= n,
                n == nfa.states.len(),
                nfa == self@,
                set.span() == n,
                forall|ss: usize, k: int|
                    #![trigger set@.contains(ss), nfa.states[ss as int].transitions[k]]
                    set@.contains(ss) && ss < s && 0 <= k < nfa.states[ss as int].transitions.len()
                        ==> !nfa.states[ss as int].transitions[k].0.accepts(c),
            decreases n - s,
        {
            if set.members[s] {
                let trans = &self.states[s].transitions;
                let mut j: usize = 0;
                while j < trans.len()
                    invariant
                        j <= trans@.len(),
                        s < n,
                        n == nfa.states.len(),
                        nfa == self@,
                        set@.contains(s),
                        trans@.len() == nfa.states[s as int].transitions.len(),
                        forall|k: int| 0 <= k < trans@.len() ==> (#[trigger] trans@[k]).0@
                            == nfa.states[s as int].transitions[k].0,
                        forall|k: int| 0 <= k < j ==> !nfa.states[s as int].transitions[k].0.accepts(c),
                    decreases trans@.len() - j,
                {
                    if trans[j].0.matches(c) {
                        assert(set@.contains(s) && nfa.states[s as int].transitions[j as int].0.accepts(c));
                        return true;
                    }
                    j += 1;
                }
            }
            s += 1;
        }
        false
    }

    /// Whether any state in `set` is accepting (the input so far is a full match).
    fn is_accepting_live(&self, set: &StateSet) -> (r: bool)
        requires
            self.fits(set),
        ensures
            r == self@.accepting(set@),
    {
        let n = self.states.len();
        let mut s: usize = 0;
        while s < n
            invariant
                s <= n,
                n == self@.states.len(),
                set.span() == n,
                forall|ss: usize| set@.contains(ss) && ss < s ==> !#[trigger] self@.states[ss as int].accept,
            decreases n - s,
        {
            if set.members[s] && self.states[s].accept {
                assert(set@.contains(s) && self@.states[s as int].accept);
                return true;
            }
            s += 1;
        }
        false
    }

    /// Whether `text` matches the whole pattern.
    pub fn is_match(&self, text: &str) -> (r: bool)
        ensures
            r == self@.accepts_text(text@),
    {
        proof {
            use_type_invariant(self);
        }
        let chars = chars_of(text);
        let mut set = self.start_live();
        let mut i: usize = 0;
        while i < chars.len()
            invariant
                i <= chars@.len(),
                chars@ == text@,
                self.wf(),
                self.fits(&set),
                set@ == self@.run(self@.start_set(), chars@.take(i as int)),
            decreases chars@.len() - i,
        {
            let c = chars[i];
            set = self.step_live(&set, c);
            i += 1;
            assert(chars@.take(i as int).drop_last() =~= chars@.take(i - 1));
            if set.is_empty() {
                proof {
                    lemma_run_empty(self@, self@.start_set(), chars@, i as int, chars@.len() as int);
                    assert(chars@.take(chars@.len() as int) =~= chars@);
                }
                return false;
            }
        }
        assert(chars@.take(chars@.len() as int) =~= chars@);
        self.is_accepting_live(&set)
    }

    /// Whether `text` is a viable prefix of some matching string: every
    /// character was consumable, even if the text is not yet a full match.
    pub fn is_prefix(&self, text: &str) -> (r: bool)
        ensures
            r == self@.viable_prefix(text@),
    {
        proof {
            use_type_invariant(self);
        }
        let chars = chars_of(text);
        let mut set = self.start_live();
        proof {
            lemma_closure_contains(self@, set![self@.start], self@.start);
        }
        let mut i: usize = 0;
        while i < chars.len()
            invariant
                i <= chars@.len(),
                chars@ == text@,
                self.wf(),
                self.fits(&set),
                set@ == self@.run(self@.start_set(), chars@.take(i as int)),
                set@ != Set::<usize>::empty(),
            decreases chars@.len() - i,
        {
            let c = chars[i];
            set = self.step_live(&set, c);
            i += 1;
            assert(chars@.take(i as int).drop_last() =~= chars@.take(i - 1));
            if set.is_empty() {
                proof {
                    lemma_run_empty(self@, self@.start_set(), chars@, i as int, chars@.len() as int);
                    assert(chars@.take(chars@.len() as int) =~= chars@);
                }
                return false;
            }
        }
        assert(chars@.take(chars@.len() as int) =~= chars@);
        true
    }

    /// Advance an unanchored search by `c`: step every live state and re-seed
    /// the start closure, so a match may begin at this position.
    fn step_unanchored_live(&self, set: &StateSet, c: char) -> (r: StateSet)
        requires
            self.fits(set),
        ensures
            r@ == self@.step_unanchored_of(set@, c),
            self.fits(&r),
    {
        proof {
            use_type_invariant(self);
        }
        let next = self.step_live(set, c);
        let st = self.start_live();
        let n = self.states.len();
        let mut members = next.members;
        let mut i: usize = 0;
        while i < n
            invariant
                i <= n,
                n == self@.states.len(),
                members@.len() == n,
                st.span() == n,
                forall|k: int| 0 <= k < n ==> members@[k] == (next.members@[k] || (k < i && st.members@[k])),
            decreases n - i,
        {
            if st.members[i] {
                members.set(i, true);
            }
            i += 1;
        }
        let r = StateSet { members };
        assert(r@ =~= next@.union(st@));
        r
    }

    /// Whether the pattern matches any substring of `text` (unanchored).
    pub fn matches_anywhere(&self, text: &str) -> (r: bool)
        ensures
            r == self@.accepts_somewhere(text@),
    {
        proof {
            use_type_invariant(self);
        }
        let ghost nfa = self@;
        let chars = chars_of(text);
        let mut set = self.start_live();
        assert(chars@.take(0) =~= Seq::<char>::empty());
        if self.is_accepting_live(&set) {
            assert(nfa.accepting(nfa.run_unanchored(nfa.start_set(), chars@.take(0))));
            return true;
        }
        let mut i: usize = 0;
        while i < chars.len()
            invariant
                i <= chars@.len(),
                chars@ == text@,
                nfa == self@,
                self.wf(),
                self.fits(&set),
                set@ == nfa.run_unanchored(nfa.start_set(), chars@.take(i as int)),
                forall|k: int| 0 <= k <= i ==> !#[trigger] nfa.accepting(
                    nfa.run_unanchored(nfa.start_set(), chars@.take(k)),
                ),
            decreases chars@.len() - i,
        {
            let c = chars[i];
            set = self.step_unanchored_live(&set, c);
            i += 1;
            assert(chars@.take(i as int).drop_last() =~= chars@.take(i - 1));
            if self.is_accepting_live(&set) {
                assert(nfa.accepting(nfa.run_unanchored(nfa.start_set(), chars@.take(i as int))));
                return true;
            }
        }
        assert(chars@.take(chars@.len() as int) =~= chars@);
        false
    }

}

/// `usize` keys obey the ordering laws that ordered sets rely on.
proof fn lemma_usize_keys_ordered()
    ensures
        vstd::laws_cmp::obeys_cmp::<usize>(),
{
    broadcast use vstd::laws_cmp::group_laws_cmp;

}

impl Regex {
    /// `set` names only states of this automaton.
    pub open spec fn holds(&self, set: Set<usize>) -> bool {
        set.subset_of(Set::new(|s: usize| s < self@.states.len()))
    }

    /// The live set named by `set`, as a membership vector.
    fn live_of(&self, set: &BTreeSet<usize>) -> (r: StateSet)
        requires
            self.holds(set@),
        ensures
            r@ == set@,
            self.fits(&r),
    {
        broadcast use vstd::std_specs::btree::group_btree_axioms;

        proof {
            lemma_usize_keys_ordered();
        }

        let n = self.states.len();
        let mut members: Vec<bool> = Vec::new();
        let mut i: usize = 0;
        while i < n
            invariant
                i <= n,
                n == self@.states.len(),
                members@.len() == i,
                forall|k: int| 0 <= k < i ==> members@[k] == set@.contains(k as usize),
            decreases n - i,
        {
            let b = set.contains(&i);
            members.push(b);
            i += 1;
        }
        let r = StateSet { members };
        assert(r@ =~= set@);
        r
    }

    /// The states of a live set, as an ordered set.
    fn set_of(&self, live: &StateSet) -> (r: BTreeSet<usize>)
        requires
            self.fits(live),
        ensures
            r@ == live@,
            self.holds(r@),
    {
        broadcast use vstd::std_specs::btree::group_btree_axioms;

        proof {
            lemma_usize_keys_ordered();
        }

        let n = self.states.len();
        let mut r: BTreeSet<usize> = BTreeSet::new();
        let mut i: usize = 0;
        while i < n
            invariant
                i <= n,
                n == self@.states.len(),
                live.span() == n,
                r@ == live@.filter(|k: usize| k < i),
            decreases n - i,
        {
            if live.members[i] {
                r.insert(i);
            }
            i += 1;
            assert(r@ =~= live@.filter(|k: usize| k < i));
        }
        assert(r@ =~= live@);
        r
    }

    /// The initial live-state set (epsilon-closure of the start state).
    pub fn start(&self) -> (r: BTreeSet<usize>)
        ensures
            r@ == self@.start_set(),
            self.holds(r@),
    {
        let live = self.start_live();
        self.set_of(&live)
    }

    /// Advance every live state in `set` by `c`. The result is empty if `c`
    /// cannot be consumed (a dead end).
    pub fn step(&self, set: &BTreeSet<usize>, c: char) -> (r: BTreeSet<usize>)
        requires
            self.holds(set@),
        ensures
            r@ == self@.step_of(set@, c),
            self.holds(r@),
    {
        proof {
            use_type_invariant(self);
        }
        let live = self.live_of(set);
        let next = self.step_live(&live, c);
        self.set_of(&next)
    }

    /// Whether `c` keeps at least one state alive from `set`: the pattern still
    /// permits `c` as the next character.
    pub fn can_consume(&self, set: &BTreeSet<usize>, c: char) -> (r: bool)
        requires
            self.holds(set@),
        ensures
            r == self@.consumes(set@, c),
    {
        let live = self.live_of(set);
        self.can_consume_live(&live, c)
    }

    /// Whether any state in `set` is accepting (the input so far is a full match).
    pub fn is_accepting(&self, set: &BTreeSet<usize>) -> (r: bool)
        requires
            self.holds(set@),
        ensures
            r == self@.accepting(set@),
    {
        let live = self.live_of(set);
        self.is_accepting_live(&live)
    }

    /// The initial live set for an unanchored (substring) search.
    pub fn start_unanchored(&self) -> (r: BTreeSet<usize>)
        ensures
            r@ == self@.start_set(),
            self.holds(r@),
    {
        self.start()
    }

    /// Advance an unanchored search by `c`: step every live state and re-seed
    /// the start closure, so a match may begin at this position.
    pub fn step_unanchored(&self, set: &BTreeSet<usize>, c: char) -> (r: BTreeSet<usize>)
        requires
            self.holds(set@),
        ensures
            r@ == self@.step_unanchored_of(set@, c),
            self.holds(r@),
    {
        proof {
            use_type_invariant(self);
        }
        let live = self.live_of(set);
        let next = self.step_unanchored_live(&live, c);
        self.set_of(&next)
    }
}

/// A piece of the automaton under construction: its entry and exit states and
/// the pattern piece it stands for.
struct Frag {
    start: usize,
    accept: usize,
    re: Ghost<Re>,
}

impl Frag {
    /// In `g` the states `lo..hi` form this piece, and its exit has no edges yet.
    spec fn good(self, g: Seq<NfaState>, lo: int, hi: int) -> bool {
        &&& frag_ok(g, lo, hi, self.start as int, self.accept as int, self.re@)
        &&& only_eps(g, self.accept as int, Seq::empty())
    }
}

/// A state with no edges that is not final.
pub open spec fn blank_state() -> NfaState {
    NfaState { epsilon: Seq::empty(), transitions: Seq::empty(), accept: false }
}

/// `st` with one more epsilon edge, to `to`.
pub open spec fn with_eps(st: NfaState, to: usize) -> NfaState {
    NfaState { epsilon: st.epsilon.push(to), transitions: st.transitions, accept: st.accept }
}

/// A piece good in `g0` stays good in `g1` when `g1` keeps the edges of the
/// first `l` states, which hold the piece.
proof fn lemma_keep_frag(g0: Seq<NfaState>, g1: Seq<NfaState>, f: Frag, lo: int, hi: int, l: int)
    requires
        f.good(g0, lo, hi),
        agree_on(g0, g1, 0, l, -1),
        hi <= l,
        l <= g1.len(),
    ensures
        f.good(g1, lo, hi),
{
    assert(agree_on(g0, g1, lo, hi, f.accept as int)) by {
        assert forall|z: int| lo <= z < hi && z != f.accept && 0 <= z < g0.len() implies #[trigger] same_at(g0, g1, z) by {
            assert(same_at(g0, g1, z));
        }
    }
    lemma_frag_frame(g0, g1, lo, hi, f.start as int, f.accept as int, f.re@);
    assert(same_at(g0, g1, f.accept as int));
}

/// Keeping the first `l0` states' edges, then the first `l1 >= l0`, keeps the
/// first `l0`.
proof fn lemma_agree_trans(g0: Seq<NfaState>, g1: Seq<NfaState>, g2: Seq<NfaState>, l0: int, l1: int)
    requires
        agree_on(g0, g1, 0, l0, -1),
        agree_on(g1, g2, 0, l1, -1),
        l0 <= l1,
    ensures
        agree_on(g0, g2, 0, l0, -1),
{
    assert forall|z: int| 0 <= z < l0 && z != -1 && 0 <= z < g0.len() implies #[trigger] same_at(g0, g2, z) by {
        assert(same_at(g0, g1, z));
        assert(z < g1.len());
        assert(0 <= z < l1 && z != -1 && 0 <= z < g1.len());
        assert(same_at(g1, g2, z));
    }
}

/// Recursive-descent parser building the automaton's pieces directly.
struct Parser {
    chars: Vec<char>,
    pos: usize,
    states: Vec<State>,
}

/// Every epsilon and transition target of `states` is a state.
pub open spec fn targets_in_range(states: Seq<NfaState>) -> bool {
    &&& forall|s: int, j: int|
        0 <= s < states.len() && 0 <= j < states[s].epsilon.len() ==> #[trigger] states[s].epsilon[j]
            < states.len()
    &&& forall|s: int, j: int|
        0 <= s < states.len() && 0 <= j < states[s].transitions.len()
            ==> #[trigger] states[s].transitions[j].1 < states.len()
}

impl Parser {
    spec fn nstates(&self) -> Seq<NfaState> {
        self.states@.map_values(|s: State| s@)
    }

    spec fn pwf(&self) -> bool {
        &&& self.pos <= self.chars@.len()
        &&& self.chars@.len() <= usize::MAX
        &&& targets_in_range(self.nstates())
        &&& forall|i: int| 0 <= i < self.nstates().len() ==> !(#[trigger] self.nstates()[i]).accept
    }

    /// Parsing went forward from `old`: same pattern, position not behind, and
    /// the states that were there keep their edges.
    spec fn grows(&self, old: &Parser) -> bool {
        &&& self.pwf()
        &&& self.chars@ == old.chars@
        &&& self.pos >= old.pos
        &&& self.states@.len() >= old.states@.len()
        &&& agree_on(old.nstates(), self.nstates(), 0, old.states@.len() as int, -1)
    }

    /// A rule started in `old` returned `r` where the grammar gives `g`: the
    /// same error, or a piece for the same tree spanning the states added,
    /// with the position where the grammar stops.
    spec fn yields(&self, old: &Parser, r: Result<Frag, RegexError>, g: Result<(Re, int), RegexError>) -> bool {
        match r {
            Ok(f) => g == Ok::<(Re, int), RegexError>((f.re@, self.pos as int)) && f.good(
                self.nstates(),
                old.states@.len() as int,
                self.states@.len() as int,
            ),
            Err(e) => g == Err::<(Re, int), RegexError>(e),
        }
    }

    fn new_state(&mut self) -> (id: usize)
        requires
            old(self).pwf(),
            old(self).states@.len() < usize::MAX,
        ensures
            final(self).grows(old(self)),
            final(self).pos == old(self).pos,
            id == old(self).states@.len(),
            final(self).states@.len() == old(self).states@.len() + 1,
            final(self).nstates() == old(self).nstates().push(blank_state()),
    {
        let id = self.states.len();
        self.states.push(State { epsilon: Vec::new(), transitions: Vec::new(), accept: false });
        proof {
            let ns = self.nstates();
            let os = old(self).nstates();
            assert(ns[id as int].transitions =~= Seq::<(MatcherV, usize)>::empty());
            assert(ns[id as int].epsilon =~= Seq::<usize>::empty());
            assert(ns =~= os.push(blank_state()));
            assert forall|s: int, j: int| 0 <= s < ns.len() && 0 <= j < ns[s].epsilon.len() implies #[trigger] ns[s].epsilon[j]
                < ns.len() by {
                assert(ns[s] == os[s]);
            }
            assert forall|s: int, j: int| 0 <= s < ns.len() && 0 <= j < ns[s].transitions.len() implies #[trigger] ns[s].transitions[j].1
                < ns.len() by {
                assert(ns[s] == os[s]);
                assert(os[s].transitions[j].1 < os.len());
            }
            assert forall|z: int| 0 <= z < os.len() && z != -1 && 0 <= z < os.len() implies #[trigger] same_at(os, ns, z) by {
                assert(ns[z] == os[z]);
            }
        }
        id
    }

    fn add_eps(&mut self, from: usize, to: usize)
        requires
            old(self).pwf(),
            from < old(self).states@.len(),
            to < old(self).states@.len(),
        ensures
            final(self).pwf(),
            final(self).chars@ == old(self).chars@,
            final(self).pos == old(self).pos,
            final(self).states@.len() == old(self).states@.len(),
            final(self).nstates() == old(self).nstates().update(from as int, with_eps(old(self).nstates()[from as int], to)),
    {
        self.states[from].epsilon.push(to);
        proof {
            let ns = self.nstates();
            let os = old(self).nstates();
            assert(ns =~= os.update(from as int, with_eps(os[from as int], to)));
            assert forall|s: int, j: int| 0 <= s < ns.len() && 0 <= j < ns[s].epsilon.len() implies #[trigger] ns[s].epsilon[j]
                < ns.len() by {
                if s != from {
                    assert(ns[s] == os[s]);
                } else if j < os[s].epsilon.len() {
                    assert(ns[s].epsilon[j] == os[s].epsilon[j]);
                }
            }
            assert forall|s: int, j: int| 0 <= s < ns.len() && 0 <= j < ns[s].transitions.len() implies #[trigger] ns[s].transitions[j].1
                < ns.len() by {
                assert(ns[s].transitions == os[s].transitions);
                assert(os[s].transitions[j].1 < os.len());
            }
            assert forall|i: int| 0 <= i < ns.len() implies !(#[trigger] ns[i]).accept by {
                assert(!os[i].accept);
            }
        }
    }

    fn peek(&self) -> (r: Option<char>)
        ensures
            r == (if self.pos < self.chars@.len() {
                Some(self.chars@[self.pos as int])
            } else {
                None
            }),
    {
        if self.pos < self.chars.len() {
            Some(self.chars[self.pos])
        } else {
            None
        }
    }

    /// Whether the next character is `ch`.
    fn peek_is(&self, ch: char) -> (r: bool)
        ensures
            r == (self.pos < self.chars@.len() && self.chars@[self.pos as int] == ch),
    {
        if self.pos < self.chars.len() {
            let c = self.chars[self.pos];
            c == ch
        } else {
            false
        }
    }

    /// Whether the next character ends a concatenation (end, `|` or `)`).
    fn at_concat_end(&self) -> (r: bool)
        ensures
            r == at_concat_end(self.chars@, self.pos as int),
    {
        self.pos >= self.chars.len() || self.peek_is('|') || self.peek_is(')')
    }

    /// Build a one-transition piece for `m`.
    fn matcher_frag(&mut self, m: Matcher) -> (f: Frag)
        requires
            old(self).pwf(),
            old(self).states@.len() + 2 < usize::MAX,
        ensures
            final(self).grows(old(self)),
            final(self).pos == old(self).pos,
            final(self).states@.len() == old(self).states@.len() + 2,
            f.re@ == Re::Atom(m@),
            f.good(final(self).nstates(), old(self).states@.len() as int, final(self).states@.len() as int),
    {
        let ghost mv = m@;
        let start = self.new_state();
        let accept = self.new_state();
        let ghost mid = self.nstates();
        let ghost tr0 = self.states@[start as int].transitions@;
        let ghost pair = (m, accept);
        proof {
            assert(mid[start as int] == blank_state());
            assert(tr0.map_values(|t: (Matcher, usize)| (t.0@, t.1)) == mid[start as int].transitions);
            assert(tr0.len() == 0);
        }
        self.states[start].transitions.push((m, accept));
        proof {
            let ns = self.nstates();
            let os = old(self).nstates();
            assert(self.states@[start as int].transitions@ =~= tr0.push(pair));
            assert(ns[start as int].transitions =~= seq![(mv, accept)]);
            assert forall|s: int| 0 <= s < ns.len() && s != start implies ns[s] == mid[s] by {}
            assert forall|s: int, j: int| 0 <= s < ns.len() && 0 <= j < ns[s].epsilon.len() implies #[trigger] ns[s].epsilon[j]
                < ns.len() by {
                assert(ns[s].epsilon == mid[s].epsilon);
            }
            assert forall|s: int, j: int| 0 <= s < ns.len() && 0 <= j < ns[s].transitions.len() implies #[trigger] ns[s].transitions[j].1
                < ns.len() by {
                if s != start {
                    assert(ns[s] == mid[s]);
                } else if j < mid[s].transitions.len() {
                    assert(ns[s].transitions[j] == mid[s].transitions[j]);
                }
            }
            assert forall|i: int| 0 <= i < ns.len() implies !(#[trigger] ns[i]).accept by {
                assert(!mid[i].accept);
            }
            assert forall|z: int| 0 <= z < os.len() && z != -1 && 0 <= z < os.len() implies #[trigger] same_at(os, ns, z) by {
                assert(ns[z] == mid[z]);
                assert(same_at(os, mid, z));
            }
            lemma_frag_atom(ns, start as int, mv);
            assert(ns[accept as int] == mid[accept as int]);
        }
        Frag { start, accept, re: Ghost(Re::Atom(mv)) }
    }

    /// States plus four per unread character: what parsing may still add.
    spec fn budget(&self) -> int {
        self.states@.len() + 4 * (self.chars@.len() - self.pos)
    }

    /// alt := concat ('|' concat)*
    fn parse_alt(&mut self) -> (r: Result<Frag, RegexError>)
        requires
            old(self).pwf(),
            old(self).budget() + 8 <= usize::MAX,
        ensures
            final(self).grows(old(self)),
            final(self).budget() <= old(self).budget() + 1,
            final(self).yields(old(self), r, p_alt(old(self).chars@, old(self).pos as int)),
        decreases old(self).chars@.len() - old(self).pos, 3nat,
    {
        let ghost cs = self.chars@;
        let ghost lo = self.states@.len() as int;
        let mut left = self.parse_concat()?;
        while self.peek_is('|')
            invariant
                old(self).budget() + 8 <= usize::MAX,
                self.grows(old(self)),
                self.budget() <= old(self).budget() + 1,
                cs == old(self).chars@,
                lo == old(self).states@.len(),
                left.good(self.nstates(), lo, self.states@.len() as int),
                p_alt(cs, old(self).pos as int) == p_alt_rest(cs, left.re@, self.pos as int),
            decreases self.chars@.len() - self.pos,
        {
            let ghost g0 = self.nstates();
            let ghost m = self.states@.len() as int;
            self.pos += 1;
            let right = match self.parse_concat() {
                Ok(f) => f,
                Err(e) => {
                    proof {
                        lemma_agree_trans(old(self).nstates(), g0, self.nstates(), lo, m);
                    }
                    return Err(e);
                },
            };
            let ghost g1 = self.nstates();
            let ghost h = g1.len() as int;
            let start = self.new_state();
            let accept = self.new_state();
            self.add_eps(start, left.start);
            self.add_eps(start, right.start);
            self.add_eps(left.accept, accept);
            self.add_eps(right.accept, accept);
            proof {
                let g = self.nstates();
                let (ls, la, rs, ra) = (left.start as int, left.accept as int, right.start as int, right.accept as int);
                lemma_keep_frag(g0, g1, left, lo, m, m);
                assert forall|z: int| 0 <= z < h && z != la && z != ra implies g[z] == g1[z] by {}
                assert(agree_on(g1, g, lo, m, la)) by {
                    assert forall|z: int| lo <= z < m && z != la && 0 <= z < g1.len() implies #[trigger] same_at(g1, g, z) by {
                        assert(g[z] == g1[z]);
                    }
                }
                lemma_frag_frame(g1, g, lo, m, ls, la, left.re@);
                assert(agree_on(g1, g, m, h, ra)) by {
                    assert forall|z: int| m <= z < h && z != ra && 0 <= z < g1.len() implies #[trigger] same_at(g1, g, z) by {
                        assert(g[z] == g1[z]);
                    }
                }
                lemma_frag_frame(g1, g, m, h, rs, ra, right.re@);
                assert(g[h].epsilon =~= seq![left.start, right.start]);
                assert(g[la].epsilon =~= seq![accept]);
                assert(g[ra].epsilon =~= seq![accept]);
                assert(only_eps(g, h, seq![ls, rs]));
                assert(only_eps(g, la, seq![h + 1]));
                assert(only_eps(g, ra, seq![h + 1]));
                lemma_frag_alt(g, lo, m, h, ls, la, left.re@, rs, ra, right.re@);
                assert(only_eps(g, h + 1, Seq::empty()));
                assert forall|z: int| 0 <= z < lo && z != -1 && 0 <= z < old(self).nstates().len() implies #[trigger] same_at(old(self).nstates(), g, z) by {
                    assert(same_at(old(self).nstates(), g0, z));
                    assert(same_at(g0, g1, z));
                    assert(g[z] == g1[z]);
                }
            }
            left = Frag { start, accept, re: Ghost(Re::Alt(Box::new(left.re@), Box::new(right.re@))) };
        }
        Ok(left)
    }

    /// concat := repeat*
    fn parse_concat(&mut self) -> (r: Result<Frag, RegexError>)
        requires
            old(self).pwf(),
            old(self).budget() + 8 <= usize::MAX,
        ensures
            final(self).grows(old(self)),
            final(self).budget() <= old(self).budget() + 1,
            final(self).yields(old(self), r, p_concat(old(self).chars@, old(self).pos as int)),
        decreases old(self).chars@.len() - old(self).pos, 2nat,
    {
        let ghost cs = self.chars@;
        let ghost lo = self.states@.len() as int;
        // an empty concatenation (e.g. before '|' or ')') matches empty.
        if self.at_concat_end() {
            let s = self.new_state();
            proof {
                lemma_frag_empty(self.nstates(), s as int);
            }
            return Ok(Frag { start: s, accept: s, re: Ghost(Re::Empty) });
        }
        let mut frag = self.parse_repeat()?;
        while !self.at_concat_end()
            invariant
                old(self).budget() + 8 <= usize::MAX,
                self.grows(old(self)),
                self.budget() <= old(self).budget() - 2,
                cs == old(self).chars@,
                lo == old(self).states@.len(),
                frag.good(self.nstates(), lo, self.states@.len() as int),
                p_concat(cs, old(self).pos as int) == p_concat_rest(cs, frag.re@, self.pos as int),
            decreases self.chars@.len() - self.pos,
        {
            let ghost g0 = self.nstates();
            let ghost m = self.states@.len() as int;
            let next = match self.parse_repeat() {
                Ok(f) => f,
                Err(e) => {
                    proof {
                        lemma_agree_trans(old(self).nstates(), g0, self.nstates(), lo, m);
                    }
                    return Err(e);
                },
            };
            let ghost g1 = self.nstates();
            let ghost h = g1.len() as int;
            self.add_eps(frag.accept, next.start);
            proof {
                let g = self.nstates();
                let (fs, fa, ns, na) = (frag.start as int, frag.accept as int, next.start as int, next.accept as int);
                lemma_keep_frag(g0, g1, frag, lo, m, m);
                assert forall|z: int| 0 <= z < h && z != fa implies g[z] == g1[z] by {}
                assert(agree_on(g1, g, lo, m, fa)) by {
                    assert forall|z: int| lo <= z < m && z != fa && 0 <= z < g1.len() implies #[trigger] same_at(g1, g, z) by {
                        assert(g[z] == g1[z]);
                    }
                }
                lemma_frag_frame(g1, g, lo, m, fs, fa, frag.re@);
                assert(agree_on(g1, g, m, h, na)) by {
                    assert forall|z: int| m <= z < h && z != na && 0 <= z < g1.len() implies #[trigger] same_at(g1, g, z) by {
                        assert(g[z] == g1[z]);
                    }
                }
                lemma_frag_frame(g1, g, m, h, ns, na, next.re@);
                assert(g[fa].epsilon =~= seq![next.start]);
                assert(only_eps(g, fa, seq![ns]));
                lemma_frag_cat(g, lo, m, h, fs, fa, frag.re@, ns, na, next.re@);
                assert(g[na] == g1[na]);
                assert forall|z: int| 0 <= z < lo && z != -1 && 0 <= z < old(self).nstates().len() implies #[trigger] same_at(old(self).nstates(), g, z) by {
                    assert(same_at(old(self).nstates(), g0, z));
                    assert(same_at(g0, g1, z));
                    assert(g[z] == g1[z]);
                }
            }
            frag = Frag {
                start: frag.start,
                accept: next.accept,
                re: Ghost(Re::Cat(Box::new(frag.re@), Box::new(next.re@))),
            };
        }
        Ok(frag)
    }

    /// repeat := atom ('*' | '+' | '?')?
    fn parse_repeat(&mut self) -> (r: Result<Frag, RegexError>)
        requires
            old(self).pwf(),
            old(self).budget() + 8 <= usize::MAX,
        ensures
            final(self).grows(old(self)),
            final(self).budget() <= old(self).budget() + 1,
            final(self).yields(old(self), r, p_repeat(old(self).chars@, old(self).pos as int)),
            r is Ok ==> final(self).pos > old(self).pos && final(self).budget() <= old(self).budget() - 2,
        decreases old(self).chars@.len() - old(self).pos, 1nat,
    {
        let ghost lo = self.states@.len() as int;
        let atom = self.parse_atom()?;
        let ghost g1 = self.nstates();
        let ghost m = g1.len() as int;
        let ghost (as_, aa) = (atom.start as int, atom.accept as int);
        if self.peek_is('*') {
            self.pos += 1;
            let start = self.new_state();
            let accept = self.new_state();
            self.add_eps(start, atom.start);
            self.add_eps(start, accept);
            self.add_eps(atom.accept, atom.start);
            self.add_eps(atom.accept, accept);
            proof {
                let g = self.nstates();
                assert forall|z: int| 0 <= z < m && z != aa implies g[z] == g1[z] by {}
                assert(agree_on(g1, g, lo, m, aa)) by {
                    assert forall|z: int| lo <= z < m && z != aa && 0 <= z < g1.len() implies #[trigger] same_at(g1, g, z) by {
                        assert(g[z] == g1[z]);
                    }
                }
                lemma_frag_frame(g1, g, lo, m, as_, aa, atom.re@);
                assert(g[m].epsilon =~= seq![atom.start, accept]);
                assert(g[aa].epsilon =~= seq![atom.start, accept]);
                assert(only_eps(g, m, seq![as_, m + 1]));
                assert(only_eps(g, aa, seq![as_, m + 1]));
                lemma_frag_star(g, lo, m, as_, aa, atom.re@);
                assert(only_eps(g, m + 1, Seq::empty()));
                assert forall|z: int| 0 <= z < lo && z != -1 && 0 <= z < old(self).nstates().len() implies #[trigger] same_at(old(self).nstates(), g, z) by {
                    assert(same_at(old(self).nstates(), g1, z));
                    assert(g[z] == g1[z]);
                }
            }
            Ok(Frag { start, accept, re: Ghost(Re::Star(Box::new(atom.re@))) })
        } else if self.peek_is('+') {
            self.pos += 1;
            let accept = self.new_state();
            self.add_eps(atom.accept, atom.start);
            self.add_eps(atom.accept, accept);
            proof {
                let g = self.nstates();
                assert forall|z: int| 0 <= z < m && z != aa implies g[z] == g1[z] by {}
                assert(agree_on(g1, g, lo, m, aa)) by {
                    assert forall|z: int| lo <= z < m && z != aa && 0 <= z < g1.len() implies #[trigger] same_at(g1, g, z) by {
                        assert(g[z] == g1[z]);
                    }
                }
                lemma_frag_frame(g1, g, lo, m, as_, aa, atom.re@);
                assert(g[aa].epsilon =~= seq![atom.start, accept]);
                assert(only_eps(g, aa, seq![as_, m]));
                lemma_frag_plus(g, lo, m, as_, aa, atom.re@);
                assert(only_eps(g, m, Seq::empty()));
                assert forall|z: int| 0 <= z < lo && z != -1 && 0 <= z < old(self).nstates().len() implies #[trigger] same_at(old(self).nstates(), g, z) by {
                    assert(same_at(old(self).nstates(), g1, z));
                    assert(g[z] == g1[z]);
                }
            }
            Ok(Frag { start: atom.start, accept, re: Ghost(Re::Plus(Box::new(atom.re@))) })
        } else if self.peek_is('?') {
            self.pos += 1;
            let start = self.new_state();
            let accept = self.new_state();
            self.add_eps(start, atom.start);
            self.add_eps(start, accept);
            self.add_eps(atom.accept, accept);
            proof {
                let g = self.nstates();
                assert forall|z: int| 0 <= z < m && z != aa implies g[z] == g1[z] by {}
                assert(agree_on(g1, g, lo, m, aa)) by {
                    assert forall|z: int| lo <= z < m && z != aa && 0 <= z < g1.len() implies #[trigger] same_at(g1, g, z) by {
                        assert(g[z] == g1[z]);
                    }
                }
                lemma_frag_frame(g1, g, lo, m, as_, aa, atom.re@);
                assert(g[m].epsilon =~= seq![atom.start, accept]);
                assert(g[aa].epsilon =~= seq![accept]);
                assert(only_eps(g, m, seq![as_, m + 1]));
                assert(only_eps(g, aa, seq![m + 1]));
                lemma_frag_opt(g, lo, m, as_, aa, atom.re@);
                assert(only_eps(g, m + 1, Seq::empty()));
                assert forall|z: int| 0 <= z < lo && z != -1 && 0 <= z < old(self).nstates().len() implies #[trigger] same_at(old(self).nstates(), g, z) by {
                    assert(same_at(old(self).nstates(), g1, z));
                    assert(g[z] == g1[z]);
                }
            }
            Ok(Frag { start, accept, re: Ghost(Re::Opt(Box::new(atom.re@))) })
        } else {
            Ok(atom)
        }
    }

    /// atom := '(' alt ')' | '[' class ']' | '.' | escape | literal
    fn parse_atom(&mut self) -> (r: Result<Frag, RegexError>)
        requires
            old(self).pwf(),
            old(self).budget() + 8 <= usize::MAX,
        ensures
            final(self).grows(old(self)),
            final(self).budget() <= old(self).budget() + 1,
            final(self).yields(old(self), r, p_atom(old(self).chars@, old(self).pos as int)),
            r is Ok ==> final(self).pos > old(self).pos && final(self).budget() <= old(self).budget() - 2,
        decreases old(self).chars@.len() - old(self).pos, 0nat,
    {
        match self.peek() {
            None => Err(RegexError::UnexpectedEnd),
            Some(c) => {
                if c == '(' {
                    self.pos += 1;
                    let inner = self.parse_alt()?;
                    if !self.peek_is(')') {
                        return Err(RegexError::UnexpectedEnd);
                    }
                    self.pos += 1;
                    Ok(inner)
                } else if c == ')' || c == '|' || c == '*' || c == '+' || c == '?' {
                    Err(RegexError::NothingToRepeat(self.pos))
                } else if c == '[' {
                    self.pos += 1;
                    self.parse_class()
                } else if c == '.' {
                    self.pos += 1;
                    Ok(self.matcher_frag(Matcher::Any))
                } else if c == '\\' {
                    self.pos += 1;
                    let m = self.parse_escape()?;
                    Ok(self.matcher_frag(m))
                } else {
                    self.pos += 1;
                    Ok(self.matcher_frag(Matcher::Char(c)))
                }
            },
        }
    }

    /// Parse an escape sequence after a consumed backslash into a matcher.
    fn parse_escape(&mut self) -> (r: Result<Matcher, RegexError>)
        requires
            old(self).pwf(),
        ensures
            final(self).grows(old(self)),
            final(self).states == old(self).states,
            r is Ok ==> final(self).pos == old(self).pos + 1,
            r is Err ==> final(self).pos == old(self).pos,
            match r {
                Ok(m) => p_escape(old(self).chars@, old(self).pos as int) == Ok::<MatcherV, RegexError>(m@),
                Err(e) => p_escape(old(self).chars@, old(self).pos as int) == Err::<MatcherV, RegexError>(e),
            },
    {
        let c = match self.peek() {
            Some(c) => c,
            None => {
                return Err(RegexError::UnexpectedEnd);
            },
        };
        self.pos += 1;
        let m = if c == 'd' {
            let v = vec![('0', '9')];
            assert(v@ =~= seq![('0', '9')]);
            Matcher::Class { ranges: v, negated: false }
        } else if c == 'w' {
            let v = vec![('a', 'z'), ('A', 'Z'), ('0', '9'), ('_', '_')];
            assert(v@ =~= seq![('a', 'z'), ('A', 'Z'), ('0', '9'), ('_', '_')]);
            Matcher::Class { ranges: v, negated: false }
        } else if c == 's' {
            let v = vec![(' ', ' '), ('\t', '\t'), ('\n', '\n'), ('\r', '\r')];
            assert(v@ =~= seq![(' ', ' '), ('\t', '\t'), ('\n', '\n'), ('\r', '\r')]);
            Matcher::Class { ranges: v, negated: false }
        } else if c == 'n' {
            Matcher::Char('\n')
        } else if c == 't' {
            Matcher::Char('\t')
        } else if c == 'r' {
            Matcher::Char('\r')
        } else {
            // an escaped metacharacter (\., \[, \\ ...)
            Matcher::Char(c)
        };
        Ok(m)
    }

    /// Parse the body of a character class after the consumed '['.
    fn parse_class(&mut self) -> (r: Result<Frag, RegexError>)
        requires
            old(self).pwf(),
            old(self).budget() + 8 <= usize::MAX,
            old(self).pos >= 1,
        ensures
            final(self).grows(old(self)),
            final(self).budget() <= old(self).budget() + 1,
            final(self).yields(old(self), r, p_class(old(self).chars@, old(self).pos as int)),
            r is Ok ==> final(self).pos > old(self).pos && final(self).budget() <= old(self).budget() - 2,
    {
        let ghost cs = self.chars@;
        let mut negated = false;
        if self.peek_is('^') {
            negated = true;
            self.pos += 1;
        }
        let mut ranges: Vec<(char, char)> = Vec::new();
        loop
            invariant_except_break
                self.grows(old(self)),
                self.states == old(self).states,
                self.budget() <= old(self).budget(),
                cs == old(self).chars@,
                p_class(cs, old(self).pos as int) == p_class_items(cs, self.pos as int, negated, ranges@),
            ensures
                self.grows(old(self)),
                self.states == old(self).states,
                self.pos > old(self).pos,
                self.budget() <= old(self).budget() - 4,
                p_class(cs, old(self).pos as int) == Ok::<(Re, int), RegexError>(
                    (Re::Atom(MatcherV::Class { ranges: ranges@, negated }), self.pos as int),
                ),
            decreases self.chars@.len() - self.pos,
        {
            match self.peek() {
                None => {
                    return Err(RegexError::UnexpectedEnd);
                },
                Some(lo) => {
                    if lo == ']' {
                        self.pos += 1;
                        break;
                    } else if lo == '\\' {
                        self.pos += 1;
                        // an escape inside a class contributes its matcher's ranges
                        let m = self.parse_escape()?;
                        let ghost mv = m@;
                        let ghost before = ranges@;
                        match m {
                            Matcher::Char(c) => ranges.push((c, c)),
                            Matcher::Class { ranges: rs, .. } => {
                                let mut k: usize = 0;
                                while k < rs.len()
                                    invariant
                                        k <= rs@.len(),
                                        ranges@ == before + rs@.take(k as int),
                                    decreases rs@.len() - k,
                                {
                                    ranges.push(rs[k]);
                                    k += 1;
                                    assert(rs@.take(k as int) =~= rs@.take(k - 1).push(rs@[k - 1]));
                                }
                                assert(rs@.take(rs@.len() as int) =~= rs@);
                            },
                            Matcher::Any => ranges.push(('\u{0}', '\u{10FFFF}')),
                        }
                        assert(ranges@ =~= before + class_ranges_of(mv));
                    } else {
                        self.pos += 1;
                        // range lo-hi?
                        let dash_range = self.peek_is('-') && !(self.pos + 1 < self.chars.len()
                            && self.chars[self.pos + 1] == ']');
                        if dash_range {
                            self.pos += 1;  // consume '-'
                            let hi = match self.peek() {
                                Some(h) => h,
                                None => {
                                    return Err(RegexError::UnexpectedEnd);
                                },
                            };
                            self.pos += 1;
                            ranges.push((lo, hi));
                        } else {
                            ranges.push((lo, lo));
                        }
                    }
                },
            }
        }
        let ghost rv = ranges@;
        let f = self.matcher_frag(Matcher::Class { ranges, negated });
        Ok(f)
    }
}

/// Closure is monotone.
proof fn lemma_closure_mono(nfa: Nfa, a: Set<usize>, b: Set<usize>)
    requires
        a.subset_of(b),
    ensures
        nfa.closure_of(a).subset_of(nfa.closure_of(b)),
{
    assert forall|t: usize| nfa.closure_of(a).contains(t) implies nfa.closure_of(b).contains(t) by {
        let p = choose|p: Seq<usize>| #[trigger] nfa.eps_path(p) && a.contains(p[0]) && p.last() == t;
        assert(nfa.eps_path(p) && b.contains(p[0]) && p.last() == t);
    }
}

/// Stepping is monotone in the live set: a larger set of live states steps to
/// a larger set.
pub proof fn law_step_monotone(nfa: Nfa, a: Set<usize>, b: Set<usize>, c: char)
    requires
        a.subset_of(b),
    ensures
        nfa.step_of(a, c).subset_of(nfa.step_of(b, c)),
{
    assert forall|t: usize| nfa.moves(a, c).contains(t) implies nfa.moves(b, c).contains(t) by {
        let (s, j) = choose|s: usize, j: int|
            #![trigger a.contains(s), nfa.states[s as int].transitions[j]]
            a.contains(s) && s < nfa.states.len() && 0 <= j < nfa.states[s as int].transitions.len()
                && nfa.states[s as int].transitions[j].0.accepts(c)
                && nfa.states[s as int].transitions[j].1 == t;
        assert(b.contains(s));
    }
    lemma_closure_mono(nfa, nfa.moves(a, c), nfa.moves(b, c));
}

proof fn lemma_run_within_unanchored(nfa: Nfa, text: Seq<char>)
    ensures
        nfa.run(nfa.start_set(), text).subset_of(nfa.run_unanchored(nfa.start_set(), text)),
    decreases text.len(),
{
    if text.len() > 0 {
        lemma_run_within_unanchored(nfa, text.drop_last());
        law_step_monotone(
            nfa,
            nfa.run(nfa.start_set(), text.drop_last()),
            nfa.run_unanchored(nfa.start_set(), text.drop_last()),
            text.last(),
        );
    }
}

/// A full match is a viable prefix: a matching text never dead-ends.
pub proof fn law_match_is_viable_prefix(nfa: Nfa, text: Seq<char>)
    requires
        nfa.accepts_text(text),
    ensures
        nfa.viable_prefix(text),
{
    let s = choose|s: usize|
        nfa.run(nfa.start_set(), text).contains(s) && s < nfa.states.len() && #[trigger] nfa.states[s as int].accept;
    assert(nfa.run(nfa.start_set(), text).contains(s));
}

/// The start state is live initially, so the initial set is never empty.
pub proof fn law_start_set_holds_start(nfa: Nfa)
    requires
        nfa.wf(),
    ensures
        nfa.start_set().contains(nfa.start),
        nfa.start_set() != Set::<usize>::empty(),
{
    lemma_closure_contains(nfa, set![nfa.start], nfa.start);
}

/// Running a text is monotone in the live set it starts from.
pub proof fn law_run_monotone(nfa: Nfa, a: Set<usize>, b: Set<usize>, text: Seq<char>)
    requires
        a.subset_of(b),
    ensures
        nfa.run(a, text).subset_of(nfa.run(b, text)),
    decreases text.len(),
{
    if text.len() > 0 {
        law_run_monotone(nfa, a, b, text.drop_last());
        law_step_monotone(nfa, nfa.run(a, text.drop_last()), nfa.run(b, text.drop_last()), text.last());
    }
}

/// The empty text is a viable prefix of every well-formed automaton.
pub proof fn law_empty_is_viable_prefix(nfa: Nfa)
    requires
        nfa.wf(),
    ensures
        nfa.viable_prefix(Seq::<char>::empty()),
{
    law_start_set_holds_start(nfa);
}

/// Viable prefixes are closed under taking prefixes: every prefix of a viable
/// prefix is viable.
pub proof fn law_viable_prefix_closed(nfa: Nfa, text: Seq<char>, k: int)
    requires
        0 <= k <= text.len(),
        nfa.viable_prefix(text),
    ensures
        nfa.viable_prefix(text.take(k)),
{
    if nfa.run(nfa.start_set(), text.take(k)) == Set::<usize>::empty() {
        lemma_run_empty(nfa, nfa.start_set(), text, k, text.len() as int);
        assert(text.take(text.len() as int) =~= text);
    }
}

/// An anchored match is also an unanchored one: the whole text is a
/// substring of itself.
pub proof fn law_match_implies_matches_anywhere(nfa: Nfa, text: Seq<char>)
    requires
        nfa.accepts_text(text),
    ensures
        nfa.accepts_somewhere(text),
{
    lemma_run_within_unanchored(nfa, text);
    let s = choose|s: usize|
        nfa.run(nfa.start_set(), text).contains(s) && s < nfa.states.len() && #[trigger] nfa.states[s as int].accept;
    assert(text.take(text.len() as int) =~= text);
    assert(nfa.run_unanchored(nfa.start_set(), text.take(text.len() as int)).contains(s));
    assert(nfa.accepting(nfa.run_unanchored(nfa.start_set(), text.take(text.len() as int))));
}

/// An unanchored step never empties the live set: the start state is
/// re-seeded after every character.
pub proof fn law_unanchored_step_keeps_start(nfa: Nfa, set: Set<usize>, c: char)
    requires
        nfa.wf(),
    ensures
        nfa.step_unanchored_of(set, c).contains(nfa.start),
{
    lemma_closure_contains(nfa, set![nfa.start], nfa.start);
}

/// `c` can be consumed exactly when stepping by `c` leaves a live state.
pub proof fn law_can_consume_iff_step_alive(nfa: Nfa, set: Set<usize>, c: char)
    requires
        nfa.wf(),
    ensures
        nfa.consumes(set, c) <==> nfa.step_of(set, c) != Set::<usize>::empty(),
{
    if nfa.consumes(set, c) {
        let (s, j) = choose|s: usize, j: int|
            #![trigger set.contains(s), nfa.states[s as int].transitions[j]]
            set.contains(s) && s < nfa.states.len() && 0 <= j < nfa.states[s as int].transitions.len()
                && nfa.states[s as int].transitions[j].0.accepts(c);
        let t = nfa.states[s as int].transitions[j].1;
        assert(nfa.moves(set, c).contains(t));
        assert(t < nfa.states.len());
        lemma_closure_contains(nfa, nfa.moves(set, c), t);
        assert(nfa.step_of(set, c).contains(t));
    } else {
        assert(nfa.moves(set, c) =~= Set::<usize>::empty()) by {
            assert forall|t: usize| !nfa.moves(set, c).contains(t) by {
                if nfa.moves(set, c).contains(t) {
                    let (s, j) = choose|s: usize, j: int|
                        #![trigger set.contains(s), nfa.states[s as int].transitions[j]]
                        set.contains(s) && s < nfa.states.len() && 0 <= j
                            < nfa.states[s as int].transitions.len()
                            && nfa.states[s as int].transitions[j].0.accepts(c)
                            && nfa.states[s as int].transitions[j].1 == t;
                }
            }
        }
        lemma_closure_empty(nfa);
    }
}

/// A state is live in an unanchored search after `t` exactly when an
/// anchored run over some suffix of `t` reaches it.
proof fn lemma_unanchored_suffix_runs(nfa: Nfa, t: Seq<char>, x: usize)
    ensures
        nfa.run_unanchored(nfa.start_set(), t).contains(x) <==> exists|i: int|
            0 <= i <= t.len() && #[trigger] nfa.run(nfa.start_set(), t.skip(i)).contains(x),
    decreases t.len(),
{
    let s0 = nfa.start_set();
    if t.len() == 0 {
        assert(t.skip(0) =~= t);
        if nfa.run_unanchored(s0, t).contains(x) {
            assert(nfa.run(s0, t.skip(0)).contains(x));
        }
    } else {
        let s = t.drop_last();
        let c = t.last();
        let us = nfa.run_unanchored(s0, s);
        let n = t.len() as int;
        assert(t.skip(n) =~= Seq::<char>::empty());
        if nfa.run_unanchored(s0, t).contains(x) {
            if s0.contains(x) {
                assert(nfa.run(s0, t.skip(n)).contains(x));
            } else {
                let mv = nfa.moves(us, c);
                let p = choose|p: Seq<usize>| #[trigger] nfa.eps_path(p) && mv.contains(p[0]) && p.last() == x;
                let (u, j) = choose|u: usize, j: int|
                    #![trigger us.contains(u), nfa.states[u as int].transitions[j]]
                    us.contains(u) && u < nfa.states.len() && 0 <= j < nfa.states[u as int].transitions.len()
                        && nfa.states[u as int].transitions[j].0.accepts(c) && nfa.states[u as int].transitions[j].1
                        == p[0];
                lemma_unanchored_suffix_runs(nfa, s, u);
                let i = choose|i: int| 0 <= i <= s.len() && #[trigger] nfa.run(s0, s.skip(i)).contains(u);
                let ri = nfa.run(s0, s.skip(i));
                assert(ri.contains(u));
                assert(nfa.moves(ri, c).contains(p[0]));
                assert(nfa.closure_of(nfa.moves(ri, c)).contains(x));
                let w = t.skip(i);
                assert(w.drop_last() =~= s.skip(i));
                assert(w.last() == c);
                assert(nfa.run(s0, w).contains(x));
            }
        }
        if exists|i: int| 0 <= i <= t.len() && #[trigger] nfa.run(s0, t.skip(i)).contains(x) {
            let i = choose|i: int| 0 <= i <= t.len() && #[trigger] nfa.run(s0, t.skip(i)).contains(x);
            if i == n {
                assert(s0.contains(x));
            } else {
                let w = t.skip(i);
                assert(w.drop_last() =~= s.skip(i));
                assert(w.last() == c);
                let ri = nfa.run(s0, s.skip(i));
                let mv = nfa.moves(ri, c);
                let p = choose|p: Seq<usize>| #[trigger] nfa.eps_path(p) && mv.contains(p[0]) && p.last() == x;
                let (u, j) = choose|u: usize, j: int|
                    #![trigger ri.contains(u), nfa.states[u as int].transitions[j]]
                    ri.contains(u) && u < nfa.states.len() && 0 <= j < nfa.states[u as int].transitions.len()
                        && nfa.states[u as int].transitions[j].0.accepts(c) && nfa.states[u as int].transitions[j].1
                        == p[0];
                lemma_unanchored_suffix_runs(nfa, s, u);
                assert(nfa.run(s0, s.skip(i)).contains(u));
                assert(us.contains(u));
                assert(nfa.moves(us, c).contains(p[0]));
                assert(nfa.closure_of(nfa.moves(us, c)).contains(x));
            }
        }
    }
}

/// The unanchored search succeeds exactly when some substring of the text
/// is accepted.
pub proof fn law_matches_anywhere_iff_substring_accepted(nfa: Nfa, text: Seq<char>)
    ensures
        nfa.accepts_somewhere(text) <==> exists|i: int, k: int|
            0 <= i <= k <= text.len() && #[trigger] nfa.accepts_text(text.subrange(i, k)),
{
    let s0 = nfa.start_set();
    if nfa.accepts_somewhere(text) {
        let k = choose|k: int| 0 <= k <= text.len() && #[trigger] nfa.accepting(nfa.run_unanchored(s0, text.take(k)));
        let u = nfa.run_unanchored(s0, text.take(k));
        let s = choose|s: usize| u.contains(s) && s < nfa.states.len() && #[trigger] nfa.states[s as int].accept;
        lemma_unanchored_suffix_runs(nfa, text.take(k), s);
        let i = choose|i: int| 0 <= i <= text.take(k).len() && #[trigger] nfa.run(s0, text.take(k).skip(i)).contains(s);
        assert(text.take(k).skip(i) =~= text.subrange(i, k));
        assert(nfa.run(s0, text.subrange(i, k)).contains(s));
        assert(nfa.accepts_text(text.subrange(i, k)));
    }
    if exists|i: int, k: int| 0 <= i <= k <= text.len() && #[trigger] nfa.accepts_text(text.subrange(i, k)) {
        let (i, k) = choose|i: int, k: int| 0 <= i <= k <= text.len() && #[trigger] nfa.accepts_text(text.subrange(i, k));
        let r = nfa.run(s0, text.subrange(i, k));
        let s = choose|s: usize| r.contains(s) && s < nfa.states.len() && #[trigger] nfa.states[s as int].accept;
        assert(text.take(k).skip(i) =~= text.subrange(i, k));
        assert(nfa.run(s0, text.take(k).skip(i)).contains(s));
        lemma_unanchored_suffix_runs(nfa, text.take(k), s);
        assert(nfa.run_unanchored(s0, text.take(k)).contains(s));
        assert(nfa.accepting(nfa.run_unanchored(s0, text.take(k))));
    }
}

} // verus!
