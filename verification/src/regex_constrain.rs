//! Regex-driven constrained decoding: which vocabulary tokens keep the
//! generated text on a path to a full match of a pattern.
use crate::regex_nfa::{law_start_set_holds_start, Nfa, Regex, RegexError};
use crate::regex_syntax::{lang, parse_pattern, Re};
use crate::text::chars_of;
use vstd::prelude::*;

verus! {

/// Schema version of the regex-constrain surface.
pub const SCHEMA_VERSION: &'static str = "1.0.0";

/// Consuming `a + b` from `set` is consuming `a`, then `b`.
pub proof fn lemma_run_concat(nfa: Nfa, set: Set<usize>, a: Seq<char>, b: Seq<char>)
    ensures
        nfa.run(set, a + b) == nfa.run(nfa.run(set, a), b),
    decreases b.len(),
{
    if b.len() == 0 {
        assert(a + b =~= a);
    } else {
        lemma_run_concat(nfa, set, a, b.drop_last());
        assert((a + b).drop_last() =~= a + b.drop_last());
        assert((a + b).last() == b.last());
    }
}

/// A dead live set stays dead.
pub proof fn lemma_run_from_empty(nfa: Nfa, b: Seq<char>)
    ensures
        nfa.run(Set::<usize>::empty(), b) == Set::<usize>::empty(),
    decreases b.len(),
{
    if b.len() > 0 {
        lemma_run_from_empty(nfa, b.drop_last());
        assert(nfa.moves(Set::<usize>::empty(), b.last()) =~= Set::<usize>::empty());
        assert forall|t: usize| !nfa.closure_of(Set::<usize>::empty()).contains(t) by {
            if nfa.closure_of(Set::<usize>::empty()).contains(t) {
                let p = choose|p: Seq<usize>|
                    #[trigger] nfa.eps_path(p) && Set::<usize>::empty().contains(p[0]) && p.last() == t;
            }
        }
        assert(nfa.closure_of(Set::<usize>::empty()) =~= Set::<usize>::empty());
    }
}

/// A regex-driven decoding constraint.
pub struct RegexConstraint {
    re: Regex,
}

impl RegexConstraint {
    /// The pattern's automaton.
    pub closed spec fn nfa(&self) -> Nfa {
        self.re@
    }

    /// Appending `token` to `generated` leaves the pattern viable.
    pub open spec fn viable(&self, generated: Seq<char>, token: Seq<char>) -> bool {
        self.nfa().viable_prefix(generated + token)
    }

    /// The ids below `n` whose tokens in `vocab` are viable after
    /// `generated`, in increasing order.
    pub open spec fn viable_ids(&self, generated: Seq<char>, vocab: Seq<&str>, n: nat) -> Seq<usize>
        decreases n,
    {
        if n == 0 {
            Seq::empty()
        } else {
            let rest = self.viable_ids(generated, vocab, (n - 1) as nat);
            if self.viable(generated, vocab[n - 1]@) {
                rest.push((n - 1) as usize)
            } else {
                rest
            }
        }
    }

    /// Compile `pattern` into a constraint.
    pub fn new(pattern: &str) -> (r: Result<Self, RegexError>)
        requires
            4 * pattern@.len() + 16 <= usize::MAX,
        ensures
            match r {
                Ok(c) => {
                    &&& parse_pattern(pattern@) matches Ok(tree)
                    &&& forall|text: Seq<char>| #[trigger] c.nfa().accepts_text(text) <==> lang(tree, text)
                },
                Err(e) => parse_pattern(pattern@) == Err::<Re, RegexError>(e),
            },
    {
        match Regex::new(pattern) {
            Ok(re) => Ok(RegexConstraint { re }),
            Err(e) => Err(e),
        }
    }

    /// Wrap an already-compiled regex.
    pub fn from_regex(re: Regex) -> (c: Self)
        ensures
            c.nfa() == re@,
    {
        RegexConstraint { re }
    }

    /// The underlying regex.
    pub fn regex(&self) -> (r: &Regex)
        ensures
            r@ == self.nfa(),
    {
        &self.re
    }

    /// Whether appending `token` to `generated` leaves the pattern viable:
    /// every character of both is consumable in turn. An empty token is always
    /// viable (it changes nothing).
    pub fn token_is_viable(&self, generated: &str, token: &str) -> (r: bool)
        ensures
            token@.len() == 0 ==> r,
            token@.len() > 0 ==> r == self.viable(generated@, token@),
    {
        proof {
            use_type_invariant(&self.re);
        }
        if crate::text::is_empty_str(token) {
            return true;
        }
        let ghost nfa = self.re@;
        let g = chars_of(generated);
        let t = chars_of(token);
        let mut set = self.re.start_live();
        proof {
            law_start_set_holds_start(nfa);
        }
        let mut i: usize = 0;
        while i < g.len()
            invariant
                i <= g@.len(),
                g@ == generated@,
                t@ == token@,
                token@.len() > 0,
                nfa == self.re@,
                self.re.wf(),
                self.re.fits(&set),
                set@ == nfa.run(nfa.start_set(), g@.take(i as int)),
                set@ != Set::<usize>::empty(),
            decreases g@.len() - i,
        {
            set = self.re.step_live(&set, g[i]);
            i += 1;
            assert(g@.take(i as int).drop_last() =~= g@.take(i - 1));
            if set.is_empty() {
                proof {
                    lemma_run_concat(nfa, nfa.start_set(), g@.take(i as int), g@.skip(i as int) + t@);
                    assert(g@.take(i as int) + (g@.skip(i as int) + t@) =~= g@ + t@);
                    lemma_run_from_empty(nfa, g@.skip(i as int) + t@);
                }
                return false;
            }
        }
        assert(g@.take(g@.len() as int) =~= g@);
        let mut j: usize = 0;
        while j < t.len()
            invariant
                j <= t@.len(),
                g@ == generated@,
                t@ == token@,
                token@.len() > 0,
                nfa == self.re@,
                self.re.wf(),
                self.re.fits(&set),
                set@ == nfa.run(nfa.start_set(), g@ + t@.take(j as int)),
                set@ != Set::<usize>::empty(),
            decreases t@.len() - j,
        {
            set = self.re.step_live(&set, t[j]);
            j += 1;
            assert((g@ + t@.take(j as int)).drop_last() =~= g@ + t@.take(j - 1));
            if set.is_empty() {
                proof {
                    lemma_run_concat(nfa, nfa.start_set(), g@ + t@.take(j as int), t@.skip(j as int));
                    assert(g@ + t@.take(j as int) + t@.skip(j as int) =~= g@ + t@);
                    lemma_run_from_empty(nfa, t@.skip(j as int));
                }
                return false;
            }
        }
        assert(t@.take(t@.len() as int) =~= t@);
        true
    }

    /// The indices into `vocab` of tokens that keep the pattern viable after
    /// `generated`, in increasing order. `vocab[i]` is the surface string of
    /// token id `i`.
    pub fn allowed_token_ids(&self, generated: &str, vocab: &[&str]) -> (r: Vec<usize>)
        ensures
            forall|k: int| 0 <= k < r@.len() ==> (#[trigger] r@[k]) < vocab@.len(),
            forall|a: int, b: int| 0 <= a < b < r@.len() ==> r@[a] < r@[b],
            forall|i: int| 0 <= i < vocab@.len() ==> (r@.contains(i as usize) <==> self.viable(
                generated@,
                vocab@[i]@,
            )),
            r@ == self.viable_ids(generated@, vocab@, vocab@.len()),
    {
        proof {
            use_type_invariant(&self.re);
        }
        let ghost nfa = self.re@;
        let g = chars_of(generated);
        let mut base = self.re.start_live();
        let mut i: usize = 0;
        while i < g.len()
            invariant
                i <= g@.len(),
                g@ == generated@,
                nfa == self.re@,
                self.re.wf(),
                self.re.fits(&base),
                base@ == nfa.run(nfa.start_set(), g@.take(i as int)),
            decreases g@.len() - i,
        {
            base = self.re.step_live(&base, g[i]);
            i += 1;
            assert(g@.take(i as int).drop_last() =~= g@.take(i - 1));
            if base.is_empty() {
                proof {
                    assert forall|v: int| 0 <= v < vocab@.len() implies !self.viable(generated@, vocab@[v]@) by {
                        let tok = vocab@[v]@;
                        lemma_run_concat(nfa, nfa.start_set(), g@.take(i as int), g@.skip(i as int) + tok);
                        assert(g@.take(i as int) + (g@.skip(i as int) + tok) =~= g@ + tok);
                        lemma_run_from_empty(nfa, g@.skip(i as int) + tok);
                    }
                    self.lemma_none_viable(generated@, vocab@, vocab@.len());
                }
                return Vec::new();
            }
        }
        assert(g@.take(g@.len() as int) =~= g@);
        let mut allowed: Vec<usize> = Vec::new();
        let mut id: usize = 0;
        while id < vocab.len()
            invariant
                id <= vocab@.len(),
                g@ == generated@,
                nfa == self.re@,
                self.re.wf(),
                self.re.fits(&base),
                base@ == nfa.run(nfa.start_set(), g@),
                forall|k: int| 0 <= k < allowed@.len() ==> (#[trigger] allowed@[k]) < id,
                forall|a: int, b: int| 0 <= a < b < allowed@.len() ==> allowed@[a] < allowed@[b],
                forall|v: int| 0 <= v < id ==> (allowed@.contains(v as usize) <==> self.viable(
                    generated@,
                    vocab@[v]@,
                )),
                allowed@ == self.viable_ids(generated@, vocab@, id as nat),
            decreases vocab@.len() - id,
        {
            let tok = chars_of(vocab[id]);
            let ghost tk = vocab@[id as int]@;
            assert(tok@ == tk);
            let ok = self.steps_alive(&base, &tok);
            proof {
                lemma_run_concat(nfa, nfa.start_set(), g@, tk);
            }
            let ghost before = allowed@;
            if ok {
                allowed.push(id);
            }
            id += 1;
            proof {
                assert forall|v: int| 0 <= v < id implies (allowed@.contains(v as usize) <==> self.viable(
                    generated@,
                    vocab@[v]@,
                )) by {
                    if v < id - 1 {
                        if allowed@.contains(v as usize) {
                            let k = choose|k: int| 0 <= k < allowed@.len() && allowed@[k] == v as usize;
                            if ok && k == allowed@.len() - 1 {
                            } else {
                                assert(before[k] == v as usize);
                            }
                        }
                        if before.contains(v as usize) {
                            let k = choose|k: int| 0 <= k < before.len() && before[k] == v as usize;
                            assert(allowed@[k] == v as usize);
                        }
                    } else {
                        if ok {
                            assert(allowed@[allowed@.len() - 1] == v as usize);
                        } else {
                            if allowed@.contains(v as usize) {
                                let k = choose|k: int| 0 <= k < allowed@.len() && allowed@[k] == v as usize;
                                assert(before[k] < id - 1);
                            }
                        }
                    }
                }
            }
        }
        allowed
    }

    proof fn lemma_none_viable(&self, generated: Seq<char>, vocab: Seq<&str>, n: nat)
        requires
            n <= vocab.len(),
            forall|v: int| 0 <= v < vocab.len() ==> !self.viable(generated, #[trigger] vocab[v]@),
        ensures
            self.viable_ids(generated, vocab, n) == Seq::<usize>::empty(),
        decreases n,
    {
        if n > 0 {
            self.lemma_none_viable(generated, vocab, (n - 1) as nat);
            assert(!self.viable(generated, vocab[n - 1]@));
        }
    }

    /// Whether stepping `chars` from `set` keeps a state alive throughout.
    fn steps_alive(&self, set: &crate::regex_nfa::StateSet, chars: &Vec<char>) -> (r: bool)
        requires
            self.re.wf(),
            self.re.fits(set),
        ensures
            r == (self.re@.run(set@, chars@) != Set::<usize>::empty()),
    {
        let ghost nfa = self.re@;
        let mut cur = set.duplicate();
        let mut j: usize = 0;
        while j < chars.len()
            invariant
                j <= chars@.len(),
                nfa == self.re@,
                self.re.wf(),
                self.re.fits(&cur),
                cur@ == nfa.run(set@, chars@.take(j as int)),
                cur@ != Set::<usize>::empty() || j == 0,
            decreases chars@.len() - j,
        {
            if j == 0 && cur.is_empty() {
                proof {
                    lemma_run_concat(nfa, set@, chars@.take(0), chars@);
                    assert(chars@.take(0) + chars@ =~= chars@);
                    assert(chars@.take(0) =~= Seq::<char>::empty());
                    lemma_run_from_empty(nfa, chars@);
                }
                return false;
            }
            cur = self.re.step_live(&cur, chars[j]);
            j += 1;
            assert(chars@.take(j as int).drop_last() =~= chars@.take(j - 1));
            if cur.is_empty() {
                proof {
                    lemma_run_concat(nfa, set@, chars@.take(j as int), chars@.skip(j as int));
                    assert(chars@.take(j as int) + chars@.skip(j as int) =~= chars@);
                    lemma_run_from_empty(nfa, chars@.skip(j as int));
                }
                return false;
            }
        }
        assert(chars@.take(chars@.len() as int) =~= chars@);
        !cur.is_empty()
    }

    /// Whether `generated` is itself a complete match (a caller may stop).
    pub fn is_satisfied(&self, generated: &str) -> (r: bool)
        ensures
            r == self.nfa().accepts_text(generated@),
    {
        proof {
            use_type_invariant(&self.re);
        }
        self.re.is_match(generated)
    }
}

} // verus!
