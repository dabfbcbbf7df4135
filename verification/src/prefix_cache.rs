//! A prefix cache: a trie over `u32` token ids mapping token sequences to
//! values, so a request can find the longest prefix that was already
//! processed and resume from the deepest stored point on it.
//!
//! The cache is modelled as a `Map<Seq<u32>, V>` of stored sequences. Its
//! nodes are exactly the prefixes of stored sequences (and the root), so
//! overlapping sequences share storage.
use vstd::prelude::*;

verus! {

broadcast use {vstd::std_specs::btree::group_btree_axioms, vstd::laws_cmp::group_laws_cmp};

/// Schema version of the prefix-cache surface.
pub const SCHEMA_VERSION: &'static str = "1.0.0";

/// A trie node over token ids.
#[derive(Debug, Clone)]
struct Node<V> {
    children: std::collections::BTreeMap<u32, usize>,
    /// The value stored at this node, when a sequence ends here.
    value: Option<V>,
}

/// The trie's storage; [`PrefixCache`] keeps it well formed.
struct Trie<V> {
    nodes: Vec<Node<V>>,
    /// Number of distinct stored sequences (nodes carrying a value).
    entries: usize,
    /// The token path leading to each node.
    paths: Ghost<Seq<Seq<u32>>>,
}

/// The outcome of a longest-prefix lookup.
#[derive(Debug, Clone, PartialEq, Eq)]
pub struct PrefixMatch<V> {
    /// How many leading tokens existed in the trie (the reusable prefix length).
    pub matched_len: usize,
    /// The token length at the deepest checkpoint (value-bearing node) reached.
    pub checkpoint_len: usize,
    /// The value at that checkpoint, to resume from.
    pub value: Option<V>,
}

/// The node reached from the root by following `s`, if every step exists.
spec fn reach<V>(ns: Seq<Node<V>>, s: Seq<u32>) -> Option<int>
    decreases s.len(),
{
    if s.len() == 0 {
        Some(0)
    } else {
        match reach(ns, s.drop_last()) {
            Some(n) => if 0 <= n < ns.len() && ns[n].children@.contains_key(s.last()) {
                Some(ns[n].children@[s.last()] as int)
            } else {
                None
            },
            None => None,
        }
    }
}

/// Whether `s` ends at a node that carries a value.
spec fn stored<V>(ns: Seq<Node<V>>, s: Seq<u32>) -> bool {
    match reach(ns, s) {
        Some(n) => 0 <= n < ns.len() && ns[n].value is Some,
        None => false,
    }
}

/// The map of stored sequences of a node array.
spec fn map_of<V>(ns: Seq<Node<V>>) -> Map<Seq<u32>, V> {
    Map::new(|s: Seq<u32>| stored(ns, s), |s: Seq<u32>| ns[reach(ns, s).unwrap()].value.unwrap())
}

/// Whether `p` is a path of the trie holding `m`: the root, or a prefix of
/// a stored sequence.
pub open spec fn in_trie<V>(m: Map<Seq<u32>, V>, p: Seq<u32>) -> bool {
    p.len() == 0 || exists|k: Seq<u32>| #[trigger] m.dom().contains(k) && p.is_prefix_of(k)
}

/// All paths of the trie holding `m`.
pub open spec fn trie_paths<V>(m: Map<Seq<u32>, V>) -> Set<Seq<u32>> {
    Set::new(|p: Seq<u32>| in_trie(m, p))
}

/// The largest `i <= n` such that the first `i` tokens of `q` are a path.
pub open spec fn longest_path<V>(m: Map<Seq<u32>, V>, q: Seq<u32>, n: nat) -> nat
    decreases n,
{
    if n == 0 {
        0
    } else if in_trie(m, q.take(n as int)) {
        n
    } else {
        longest_path(m, q, (n - 1) as nat)
    }
}

/// How many leading tokens of `q` the trie holding `m` already has.
pub open spec fn matched_len_of<V>(m: Map<Seq<u32>, V>, q: Seq<u32>) -> nat {
    longest_path(m, q, q.len())
}

/// The largest `i <= n` such that the first `i` tokens of `q` are stored,
/// or 0.
pub open spec fn deepest_stored<V>(m: Map<Seq<u32>, V>, q: Seq<u32>, n: nat) -> nat
    decreases n,
{
    if n == 0 {
        0
    } else if m.dom().contains(q.take(n as int)) {
        n
    } else {
        deepest_stored(m, q, (n - 1) as nat)
    }
}

/// The length of the deepest stored prefix of `q` within its matched part.
pub open spec fn checkpoint_len_of<V>(m: Map<Seq<u32>, V>, q: Seq<u32>) -> nat {
    deepest_stored(m, q, matched_len_of(m, q))
}

/// The value stored at the checkpoint of `q`, if any.
pub open spec fn checkpoint_value_of<V>(m: Map<Seq<u32>, V>, q: Seq<u32>) -> Option<V> {
    let c = q.take(checkpoint_len_of(m, q) as int);
    if m.dom().contains(c) {
        Some(m[c])
    } else {
        None
    }
}

impl<V> View for Trie<V> {
    type V = Map<Seq<u32>, V>;

    closed spec fn view(&self) -> Map<Seq<u32>, V> {
        map_of(self.nodes@)
    }
}

impl<V> Trie<V> {
    /// The cache's internal invariant: each node has a unique path from the
    /// root, every node lies on a stored sequence (or is the root), and the
    /// entry count is the number of stored sequences.
    spec fn wf(&self) -> bool {
        &&& shape(self.nodes@, self.paths@)
        &&& forall|n: int|
            0 <= n < self.nodes@.len() ==> in_trie(map_of(self.nodes@), #[trigger] self.paths@[n])
        &&& self.entries == map_of(self.nodes@).dom().len()
    }
}

impl<V> Node<V> {
    fn new() -> (r: Self)
        ensures
            r.children@ == Map::<u32, usize>::empty(),
            r.value is None,
    {
        Self { children: std::collections::BTreeMap::new(), value: None }
    }
}

impl<V> Trie<V> {
    /// An empty cache (with just the root).
    fn new() -> (r: Self)
        ensures
            r.wf(),
            r@ == Map::<Seq<u32>, V>::empty(),
    {
        let ghost root_paths = seq![Seq::<u32>::empty()];
        let r = Self { nodes: vec![Node::new()], entries: 0, paths: Ghost(root_paths) };
        proof {
            let ns = r.nodes@;
            assert forall|s: Seq<u32>| #[trigger] reach(ns, s) is Some implies s == r.paths@[0] by {
                if s.len() > 0 {
                    assert(!ns[0].children@.contains_key(s.last()));
                }
                assert(s =~= r.paths@[0]);
            }
            assert(reach(ns, r.paths@[0]) == Some(0int));
            assert(map_of(ns).dom() =~= Set::<Seq<u32>>::empty());
            assert(map_of(ns) =~= Map::<Seq<u32>, V>::empty());
            assert(shape(ns, r.paths@));
        }
        r
    }

    /// Number of stored sequences.
    fn len(&self) -> (r: usize)
        requires
            self.wf(),
        ensures
            r == self@.len(),
    {
        self.entries
    }

    /// Whether the cache holds no sequences.
    fn is_empty(&self) -> (r: bool)
        requires
            self.wf(),
        ensures
            r == (self@.len() == 0),
    {
        self.entries == 0
    }

    /// Number of trie nodes: one per distinct prefix of the stored sequences,
    /// the root included, so shared prefixes are stored once.
    fn node_count(&self) -> (r: usize)
        requires
            self.wf(),
        ensures
            r == trie_paths(self@).len(),
    {
        proof {
            lemma_paths_count(self.nodes@, self.paths@);
        }
        self.nodes.len()
    }

    /// Follows `tokens` from the root as far as the trie goes: the node
    /// reached and the number of tokens consumed.
    fn walk(&self, tokens: &[u32]) -> (r: (usize, usize))
        requires
            self.wf(),
        ensures
            r.1 <= tokens@.len(),
            reach(self.nodes@, tokens@.take(r.1 as int)) == Some(r.0 as int),
            r.1 < tokens@.len() ==> reach(self.nodes@, tokens@.take(r.1 + 1)) is None,
    {
        let mut cur: usize = 0;
        let mut matched: usize = 0;
        proof {
            assert(tokens@.take(0) =~= Seq::<u32>::empty());
        }
        while matched < tokens.len()
            invariant
                self.wf(),
                matched <= tokens@.len(),
                reach(self.nodes@, tokens@.take(matched as int)) == Some(cur as int),
            ensures
                matched <= tokens@.len(),
                reach(self.nodes@, tokens@.take(matched as int)) == Some(cur as int),
                matched < tokens@.len() ==> reach(self.nodes@, tokens@.take(matched + 1)) is None,
            decreases tokens@.len() - matched,
        {
            let t = tokens[matched];
            proof {
                lemma_take_step(tokens@, matched as int);
            }
            match self.nodes[cur].children.get(&t) {
                Some(next) => {
                    cur = *next;
                    matched = matched + 1;
                },
                None => {
                    break;
                },
            }
        }
        (cur, matched)
    }

    /// Insert `tokens` with `value`, creating shared trie nodes as needed.
    /// Re-inserting the same sequence replaces its value. Only the tokens
    /// past the longest prefix already in the trie get new nodes.
    fn insert(&mut self, tokens: &[u32], value: V)
        requires
            old(self).wf(),
        ensures
            final(self).wf(),
            final(self)@ == old(self)@.insert(tokens@, value),
            trie_paths(final(self)@).len() == trie_paths(old(self)@).len() + tokens@.len()
                - matched_len_of(old(self)@, tokens@),
    {
        let ghost old_ns = self.nodes@;
        let ghost old_ps = self.paths@;
        let ghost old_map = map_of(old_ns);
        let ghost m0 = matched_len_of(old_map, tokens@);
        proof {
            lemma_longest_path_props(old_map, tokens@, tokens@.len());
            lemma_grown_refl(old_ns, old_ps, tokens@);
            assert(tokens@.take(0) =~= Seq::<u32>::empty());
        }
        let mut cur: usize = 0;
        let mut i: usize = 0;
        while i < tokens.len()
            invariant
                i <= tokens@.len(),
                m0 <= tokens@.len(),
                in_trie(old_map, tokens@.take(m0 as int)),
                forall|j: int| m0 < j <= tokens@.len() ==> !in_trie(old_map, #[trigger] tokens@.take(j)),
                shape(old_ns, old_ps),
                forall|n: int| 0 <= n < old_ns.len() ==> in_trie(old_map, #[trigger] old_ps[n]),
                old_map == map_of(old_ns),
                shape(self.nodes@, self.paths@),
                grown(old_ns, old_ps, self.nodes@, self.paths@, tokens@),
                reach(self.nodes@, tokens@.take(i as int)) == Some(cur as int),
                self.nodes@.len() == old_ns.len() + (if i > m0 { i - m0 } else { 0 }),
                i <= m0 ==> self.nodes@ == old_ns && self.paths@ == old_ps,
                i > m0 ==> cur == self.nodes@.len() - 1 && self.nodes@[cur as int].children@
                    == Map::<u32, usize>::empty(),
                self.entries == old_map.dom().len(),
            decreases tokens@.len() - i,
        {
            let t = tokens[i];
            proof {
                lemma_take_step(tokens@, i as int);
            }
            let found = match self.nodes[cur].children.get(&t) {
                Some(n) => Some(*n),
                None => None,
            };
            match found {
                Some(next) => {
                    proof {
                        if i == m0 {
                            let n = next as int;
                            assert(reach(old_ns, tokens@.take(i + 1)) == Some(n));
                            assert(tokens@.take(i + 1) == old_ps[n]);
                        }
                    }
                    cur = next;
                },
                None => {
                    proof {
                        if i < m0 {
                            lemma_in_trie_take(old_map, tokens@, i + 1, m0 as int);
                            lemma_in_trie_reaches(old_ns, tokens@.take(i + 1));
                        }
                        assert(self.paths@[cur as int] == tokens@.take(i as int));
                        assert(tokens@.take(i + 1).is_prefix_of(tokens@));
                    }
                    let ghost ns0 = self.nodes@;
                    let ghost ps0 = self.paths@;
                    let next = self.nodes.len();
                    self.nodes.push(Node::new());
                    self.nodes[cur].children.insert(t, next);
                    proof {
                        assert(self.nodes@.len() == self.nodes.len());
                        lemma_grow_step(old_ns, old_ps, ns0, ps0, self.nodes@, cur as int, t, tokens@);
                    }
                    self.paths = Ghost(ps0.push(tokens@.take(i + 1)));
                    cur = next;
                },
            }
            i = i + 1;
        }
        proof {
            assert(tokens@.take(i as int) =~= tokens@);
        }
        let was_empty = self.nodes[cur].value.is_none();
        let ghost ns1 = self.nodes@;
        self.nodes[cur].value = Some(value);
        proof {
            assert(self.nodes@.len() == self.nodes.len());
            lemma_finish(old_ns, old_ps, ns1, self.nodes@, self.paths@, cur as int, tokens@, value);
        }
        if was_empty {
            self.entries = self.entries + 1;
        }
    }

    /// The longest prefix of `tokens` already in the cache: the number of
    /// matched tokens and the value of the deepest value-bearing node on that
    /// path (the checkpoint to resume from), if any. `matched_len` may exceed
    /// the last checkpoint when intermediate nodes carry no value.
    fn longest_prefix_match(&self, tokens: &[u32]) -> (r: PrefixMatch<&V>)
        requires
            self.wf(),
        ensures
            r.matched_len == matched_len_of(self@, tokens@),
            r.checkpoint_len == checkpoint_len_of(self@, tokens@),
            match r.value {
                Some(v) => checkpoint_value_of(self@, tokens@) == Some(*v),
                None => checkpoint_value_of(self@, tokens@) is None,
            },
    {
        let ghost m = self@;
        let ghost q = tokens@;
        let mut cur: usize = 0;
        let mut matched: usize = 0;
        let mut checkpoint_len: usize = 0;
        let mut checkpoint: Option<&V> = match &self.nodes[0].value {
            Some(v) => Some(v),
            None => None,
        };
        proof {
            assert(q.take(0) =~= Seq::<u32>::empty());
            lemma_stored_at(self.nodes@, q.take(0), 0);
        }
        while matched < tokens.len()
            invariant
                shape(self.nodes@, self.paths@),
                m == map_of(self.nodes@),
                q == tokens@,
                matched <= q.len(),
                reach(self.nodes@, q.take(matched as int)) == Some(cur as int),
                checkpoint_len <= matched,
                checkpoint_len > 0 ==> m.dom().contains(q.take(checkpoint_len as int)),
                match checkpoint {
                    Some(v) => m.dom().contains(q.take(checkpoint_len as int)) && m[q.take(
                        checkpoint_len as int,
                    )] == *v,
                    None => !m.dom().contains(q.take(checkpoint_len as int)),
                },
                forall|j: int| checkpoint_len < j <= matched ==> !m.dom().contains(#[trigger] q.take(j)),
            ensures
                matched <= q.len(),
                reach(self.nodes@, q.take(matched as int)) == Some(cur as int),
                matched < q.len() ==> reach(self.nodes@, q.take(matched + 1)) is None,
                checkpoint_len <= matched,
                checkpoint_len > 0 ==> m.dom().contains(q.take(checkpoint_len as int)),
                match checkpoint {
                    Some(v) => m.dom().contains(q.take(checkpoint_len as int)) && m[q.take(
                        checkpoint_len as int,
                    )] == *v,
                    None => !m.dom().contains(q.take(checkpoint_len as int)),
                },
                forall|j: int| checkpoint_len < j <= matched ==> !m.dom().contains(#[trigger] q.take(j)),
            decreases q.len() - matched,
        {
            let t = tokens[matched];
            proof {
                lemma_take_step(q, matched as int);
            }
            match self.nodes[cur].children.get(&t) {
                Some(next) => {
                    cur = *next;
                    matched = matched + 1;
                    proof {
                        lemma_stored_at(self.nodes@, q.take(matched as int), cur as int);
                    }
                    match &self.nodes[cur].value {
                        Some(v) => {
                            checkpoint = Some(v);
                            checkpoint_len = matched;
                        },
                        None => {},
                    }
                },
                None => {
                    break;
                },
            }
        }
        proof {
            let ns = self.nodes@;
            assert(q.take(matched as int) == self.paths@[cur as int]);
            if matched < q.len() && in_trie(m, q.take(matched + 1)) {
                lemma_in_trie_reaches(ns, q.take(matched + 1));
            }
            lemma_longest_path(m, q, matched as nat, q.len());
            lemma_deepest_stored(m, q, checkpoint_len as nat, matched as nat);
        }
        PrefixMatch { matched_len: matched, checkpoint_len, value: checkpoint }
    }

    /// Whether `tokens` is stored exactly.
    fn contains(&self, tokens: &[u32]) -> (r: bool)
        requires
            self.wf(),
        ensures
            r == self@.contains_key(tokens@),
    {
        let (node, matched) = self.walk(tokens);
        proof {
            if matched < tokens.len() {
                if reach(self.nodes@, tokens@) is Some {
                    lemma_reach_take(self.nodes@, tokens@, matched + 1);
                }
            } else {
                assert(tokens@.take(matched as int) =~= tokens@);
            }
        }
        matched == tokens.len() && self.nodes[node].value.is_some()
    }

    /// The value stored exactly at `tokens`, if any.
    fn get(&self, tokens: &[u32]) -> (r: Option<&V>)
        requires
            self.wf(),
        ensures
            r == if self@.contains_key(tokens@) {
                Some(&self@[tokens@])
            } else {
                None
            },
    {
        let (node, matched) = self.walk(tokens);
        proof {
            if matched < tokens.len() {
                if reach(self.nodes@, tokens@) is Some {
                    lemma_reach_take(self.nodes@, tokens@, matched + 1);
                }
            } else {
                assert(tokens@.take(matched as int) =~= tokens@);
            }
        }
        if matched == tokens.len() {
            match &self.nodes[node].value {
                Some(v) => Some(v),
                None => None,
            }
        } else {
            None
        }
    }
}

/// A radix/trie prefix cache mapping token sequences to values.
pub struct PrefixCache<V> {
    trie: Trie<V>,
}

impl<V> View for PrefixCache<V> {
    type V = Map<Seq<u32>, V>;

    closed spec fn view(&self) -> Map<Seq<u32>, V> {
        self.trie@
    }
}

impl<V> PrefixCache<V> {
    /// Every cache is well formed: each node has a unique path from the root,
    /// every node lies on a stored sequence (or is the root), and the entry
    /// count is the number of stored sequences.
    #[verifier::type_invariant]
    spec fn inv(&self) -> bool {
        self.trie.wf()
    }

    /// An empty cache (with just the root).
    pub fn new() -> (r: Self)
        ensures
            r@ == Map::<Seq<u32>, V>::empty(),
    {
        PrefixCache { trie: Trie::new() }
    }

    /// Number of stored sequences.
    pub fn len(&self) -> (r: usize)
        ensures
            r == self@.len(),
    {
        proof {
            use_type_invariant(self);
        }
        self.trie.len()
    }

    /// Whether the cache holds no sequences.
    pub fn is_empty(&self) -> (r: bool)
        ensures
            r == (self@.len() == 0),
    {
        proof {
            use_type_invariant(self);
        }
        self.trie.is_empty()
    }

    /// Number of trie nodes: one per distinct prefix of the stored sequences,
    /// the root included, so shared prefixes are stored once.
    pub fn node_count(&self) -> (r: usize)
        ensures
            r == trie_paths(self@).len(),
    {
        proof {
            use_type_invariant(self);
        }
        self.trie.node_count()
    }

    /// Insert `tokens` with `value`, creating shared trie nodes as needed.
    /// Re-inserting the same sequence replaces its value. Only the tokens
    /// past the longest prefix already in the trie get new nodes.
    pub fn insert(&mut self, tokens: &[u32], value: V)
        ensures
            final(self)@ == old(self)@.insert(tokens@, value),
            trie_paths(final(self)@).len() == trie_paths(old(self)@).len() + tokens@.len()
                - matched_len_of(old(self)@, tokens@),
    {
        proof {
            use_type_invariant(&*self);
        }
        let mut trie = Trie::new();
        std::mem::swap(&mut trie, &mut self.trie);
        trie.insert(tokens, value);
        self.trie = trie;
    }

    /// The longest prefix of `tokens` already in the cache: the number of
    /// matched tokens and the value of the deepest value-bearing node on that
    /// path (the checkpoint to resume from), if any. `matched_len` may exceed
    /// the last checkpoint when intermediate nodes carry no value.
    pub fn longest_prefix_match(&self, tokens: &[u32]) -> (r: PrefixMatch<&V>)
        ensures
            r.matched_len == matched_len_of(self@, tokens@),
            r.checkpoint_len == checkpoint_len_of(self@, tokens@),
            match r.value {
                Some(v) => checkpoint_value_of(self@, tokens@) == Some(*v),
                None => checkpoint_value_of(self@, tokens@) is None,
            },
    {
        proof {
            use_type_invariant(self);
        }
        self.trie.longest_prefix_match(tokens)
    }

    /// Whether `tokens` is stored exactly.
    pub fn contains(&self, tokens: &[u32]) -> (r: bool)
        ensures
            r == self@.contains_key(tokens@),
    {
        proof {
            use_type_invariant(self);
        }
        self.trie.contains(tokens)
    }

    /// The value stored exactly at `tokens`, if any.
    pub fn get(&self, tokens: &[u32]) -> (r: Option<&V>)
        ensures
            r == if self@.contains_key(tokens@) {
                Some(&self@[tokens@])
            } else {
                None
            },
    {
        proof {
            use_type_invariant(self);
        }
        self.trie.get(tokens)
    }
}

/// Following a path reads only the children maps: two node arrays with the
/// same children reach the same nodes.
proof fn lemma_reach_same_children<V>(a: Seq<Node<V>>, b: Seq<Node<V>>, s: Seq<u32>)
    requires
        a.len() == b.len(),
        forall|i: int| 0 <= i < a.len() ==> (#[trigger] a[i]).children@ == b[i].children@,
    ensures
        reach(a, s) == reach(b, s),
    decreases s.len(),
{
    if s.len() > 0 {
        lemma_reach_same_children(a, b, s.drop_last());
    }
}

impl<V: Clone> Trie<V> {
    /// A copy of the trie: the same nodes, each value cloned.
    fn duplicate(&self) -> (r: Self)
        requires
            self.wf(),
        ensures
            r.wf(),
            r@.dom() == self@.dom(),
    {
        let mut nodes: Vec<Node<V>> = Vec::new();
        let mut i: usize = 0;
        while i < self.nodes.len()
            invariant
                i <= self.nodes@.len(),
                nodes@.len() == i,
                forall|k: int| 0 <= k < i ==> (#[trigger] nodes@[k]).children@ == self.nodes@[k].children@
                    && (nodes@[k].value is Some <==> self.nodes@[k].value is Some),
            decreases self.nodes@.len() - i,
        {
            let n = &self.nodes[i];
            let value = match &n.value {
                Some(v) => Some(v.clone()),
                None => None,
            };
            nodes.push(Node { children: n.children.clone(), value });
            i += 1;
        }
        let r = Trie { nodes, entries: self.entries, paths: Ghost(self.paths@) };
        proof {
            let a = r.nodes@;
            let b = self.nodes@;
            assert forall|s: Seq<u32>| #[trigger] reach(a, s) == reach(b, s) by {
                lemma_reach_same_children(a, b, s);
            }
            assert(map_of(a).dom() =~= map_of(b).dom());
            assert forall|p: Seq<u32>| #[trigger] in_trie(map_of(a), p) == in_trie(map_of(b), p) by {}
        }
        r
    }
}

impl<V: Clone> Clone for PrefixCache<V> {
    /// A copy of the cache holding the same sequences, each value cloned.
    fn clone(&self) -> (r: Self)
        ensures
            r@.dom() == self@.dom(),
    {
        proof {
            use_type_invariant(self);
        }
        PrefixCache { trie: self.trie.duplicate() }
    }
}

impl<V> Default for PrefixCache<V> {
    /// An empty cache.
    fn default() -> (r: Self)
        ensures
            r@ == Map::<Seq<u32>, V>::empty(),
    {
        Self::new()
    }
}

/// A stored sequence is matched in full, and is its own checkpoint.
pub proof fn law_stored_sequence_fully_matched<V>(m: Map<Seq<u32>, V>, q: Seq<u32>)
    requires
        m.dom().contains(q),
    ensures
        matched_len_of(m, q) == q.len(),
        checkpoint_len_of(m, q) == q.len(),
        checkpoint_value_of(m, q) == Some(m[q]),
{
    assert(q.take(q.len() as int) =~= q);
    assert(q.is_prefix_of(q));
    assert(in_trie(m, q.take(q.len() as int)));
}

/// The checkpoint never lies beyond the matched prefix, which never exceeds
/// the query.
pub proof fn law_checkpoint_within_match<V>(m: Map<Seq<u32>, V>, q: Seq<u32>)
    ensures
        checkpoint_len_of(m, q) <= matched_len_of(m, q) <= q.len(),
{
    lemma_longest_path_props(m, q, q.len());
    lemma_deepest_stored_bound(m, q, matched_len_of(m, q));
}

proof fn lemma_deepest_stored_bound<V>(m: Map<Seq<u32>, V>, q: Seq<u32>, n: nat)
    ensures
        deepest_stored(m, q, n) <= n,
    decreases n,
{
    if n > 0 {
        lemma_deepest_stored_bound(m, q, (n - 1) as nat);
    }
}

/// Re-inserting a stored sequence does not change the number of sequences.
pub proof fn law_reinsert_keeps_count<V>(m: Map<Seq<u32>, V>, q: Seq<u32>, v: V)
    requires
        m.dom().finite(),
        m.dom().contains(q),
    ensures
        m.insert(q, v).len() == m.len(),
{
    assert(m.insert(q, v).dom() =~= m.dom());
}

/// Each node `n` has the unique path `ps[n]` from the root.
spec fn shape<V>(ns: Seq<Node<V>>, ps: Seq<Seq<u32>>) -> bool {
    &&& ns.len() == ps.len()
    &&& ns.len() >= 1
    &&& forall|n: int| 0 <= n < ns.len() ==> #[trigger] reach(ns, ps[n]) == Some(n)
    &&& forall|s: Seq<u32>| #[trigger]
        reach(ns, s) is Some ==> {
            let n = reach(ns, s).unwrap();
            0 <= n < ns.len() && s == ps[n]
        }
}

/// What the map says of a path that reaches node `n`.
proof fn lemma_stored_at<V>(ns: Seq<Node<V>>, s: Seq<u32>, n: int)
    requires
        reach(ns, s) == Some(n),
        0 <= n < ns.len(),
    ensures
        map_of(ns).dom().contains(s) == (ns[n].value is Some),
        map_of(ns).dom().contains(s) ==> map_of(ns)[s] == ns[n].value.unwrap(),
{
}

/// Every prefix of a reachable path is reachable.
proof fn lemma_reach_take<V>(ns: Seq<Node<V>>, s: Seq<u32>, i: int)
    requires
        reach(ns, s) is Some,
        0 <= i <= s.len(),
    ensures
        reach(ns, s.take(i)) is Some,
    decreases s.len(),
{
    if i == s.len() {
        assert(s.take(i) =~= s);
    } else {
        assert(s.drop_last().take(i) =~= s.take(i));
        lemma_reach_take(ns, s.drop_last(), i);
    }
}

/// One step down: the path `s.take(i + 1)` extends `s.take(i)` by `s[i]`.
proof fn lemma_take_step(s: Seq<u32>, i: int)
    requires
        0 <= i < s.len(),
    ensures
        s.take(i + 1).drop_last() == s.take(i),
        s.take(i + 1).last() == s[i],
        s.take(i + 1).len() == i + 1,
        s.take(i + 1) == s.take(i).push(s[i]),
{
    assert(s.take(i + 1).drop_last() =~= s.take(i));
    assert(s.take(i + 1) =~= s.take(i).push(s[i]));
}

/// A path of the trie is reachable in the node array.
proof fn lemma_in_trie_reaches<V>(ns: Seq<Node<V>>, p: Seq<u32>)
    requires
        in_trie(map_of(ns), p),
    ensures
        reach(ns, p) is Some,
{
    if p.len() != 0 {
        let k = choose|k: Seq<u32>| #[trigger] map_of(ns).dom().contains(k) && p.is_prefix_of(k);
        assert(stored(ns, k));
        lemma_reach_take(ns, k, p.len() as int);
        assert(k.take(p.len() as int) =~= p);
    }
}

/// Paths of the trie are closed under taking prefixes.
proof fn lemma_in_trie_take<V>(m: Map<Seq<u32>, V>, q: Seq<u32>, i: int, j: int)
    requires
        0 <= i <= j <= q.len(),
        in_trie(m, q.take(j)),
    ensures
        in_trie(m, q.take(i)),
{
    if i > 0 {
        let k = choose|k: Seq<u32>| #[trigger] m.dom().contains(k) && q.take(j).is_prefix_of(k);
        assert(q.take(i).is_prefix_of(k));
    }
}

/// `longest_path` is the first length whose extension leaves the trie.
proof fn lemma_longest_path<V>(m: Map<Seq<u32>, V>, q: Seq<u32>, i: nat, n: nat)
    requires
        i <= n <= q.len(),
        in_trie(m, q.take(i as int)),
        i < n ==> !in_trie(m, q.take(i + 1 as int)),
    ensures
        longest_path(m, q, n) == i,
    decreases n,
{
    if n > i {
        if in_trie(m, q.take(n as int)) {
            lemma_in_trie_take(m, q, i + 1 as int, n as int);
        }
        if n - 1 > i {
            lemma_longest_path(m, q, i, (n - 1) as nat);
        } else {
            assert(longest_path(m, q, (n - 1) as nat) == i);
        }
    }
}

/// `deepest_stored` is the last stored length at or below `n`.
proof fn lemma_deepest_stored<V>(m: Map<Seq<u32>, V>, q: Seq<u32>, c: nat, n: nat)
    requires
        c <= n,
        c > 0 ==> m.dom().contains(q.take(c as int)),
        forall|j: int| c < j <= n ==> !m.dom().contains(#[trigger] q.take(j)),
    ensures
        deepest_stored(m, q, n) == c,
    decreases n,
{
    if n > c {
        lemma_deepest_stored(m, q, c, (n - 1) as nat);
    }
}

/// `ns`/`ps` extend `old_ns`/`old_ps` by fresh value-less nodes on the path
/// of `tokens`, leaving every old node, value and path in place.
#[verifier::opaque]
spec fn grown<V>(
    old_ns: Seq<Node<V>>,
    old_ps: Seq<Seq<u32>>,
    ns: Seq<Node<V>>,
    ps: Seq<Seq<u32>>,
    tokens: Seq<u32>,
) -> bool {
    &&& ns.len() >= old_ns.len()
    &&& forall|n: int| 0 <= n < old_ns.len() ==> (#[trigger] ns[n]).value == old_ns[n].value
    &&& forall|n: int| old_ns.len() <= n < ns.len() ==> (#[trigger] ns[n]).value is None
    &&& forall|n: int| 0 <= n < old_ns.len() ==> #[trigger] ps[n] == old_ps[n]
    &&& forall|n: int| old_ns.len() <= n < ns.len() ==> (#[trigger] ps[n]).is_prefix_of(tokens)
    &&& forall|s: Seq<u32>| #[trigger] reach(old_ns, s) is Some ==> reach(ns, s) == reach(old_ns, s)
    &&& forall|s: Seq<u32>|
        reach(old_ns, s) is None && #[trigger] reach(ns, s) is Some ==> reach(ns, s).unwrap()
            >= old_ns.len()
}

proof fn lemma_grown_refl<V>(ns: Seq<Node<V>>, ps: Seq<Seq<u32>>, tokens: Seq<u32>)
    requires
        ns.len() == ps.len(),
    ensures
        grown(ns, ps, ns, ps, tokens),
{
    reveal(grown);
}

/// Adding the fresh node for the path `ps0[cur] + [t]` keeps the shape and
/// the growth relation.
proof fn lemma_grow_step<V>(
    old_ns: Seq<Node<V>>,
    old_ps: Seq<Seq<u32>>,
    ns0: Seq<Node<V>>,
    ps0: Seq<Seq<u32>>,
    ns: Seq<Node<V>>,
    cur: int,
    t: u32,
    tokens: Seq<u32>,
)
    requires
        shape(old_ns, old_ps),
        shape(ns0, ps0),
        grown(old_ns, old_ps, ns0, ps0, tokens),
        0 <= cur < ns0.len(),
        !ns0[cur].children@.contains_key(t),
        ps0[cur].push(t).is_prefix_of(tokens),
        ns.len() == ns0.len() + 1,
        ns.len() <= usize::MAX,
        forall|n: int| 0 <= n < ns0.len() && n != cur ==> #[trigger] ns[n] == ns0[n],
        ns[cur].children@ == ns0[cur].children@.insert(t, ns0.len() as usize),
        ns[cur].value == ns0[cur].value,
        ns[ns0.len() as int].children@ == Map::<u32, usize>::empty(),
        ns[ns0.len() as int].value is None,
    ensures
        shape(ns, ps0.push(ps0[cur].push(t))),
        grown(old_ns, old_ps, ns, ps0.push(ps0[cur].push(t)), tokens),
        reach(ns, ps0[cur].push(t)) == Some(ns0.len() as int),
{
    reveal(grown);
    let p1 = ps0[cur].push(t);
    let ps = ps0.push(p1);
    assert forall|s: Seq<u32>| #[trigger]
        reach(ns, s) == if s == p1 {
            Some(ns0.len() as int)
        } else {
            reach(ns0, s)
        } by {
        lemma_add_child(ns0, ns, ps0, cur, t, s);
    }
    assert(p1.drop_last() =~= ps0[cur]);
    assert(reach(ns0, ps0[cur]) == Some(cur));
    assert(reach(ns0, p1) is None);
    assert forall|n: int| 0 <= n < ns.len() implies #[trigger] reach(ns, ps[n]) == Some(n) by {
        if n < ns0.len() {
            assert(reach(ns0, ps0[n]) == Some(n));
        }
    }
    assert(shape(ns, ps));
}

/// Storing the value at the end of the path of `tokens` yields a
/// well-formed trie holding `tokens` in addition.
proof fn lemma_finish<V>(
    old_ns: Seq<Node<V>>,
    old_ps: Seq<Seq<u32>>,
    ns1: Seq<Node<V>>,
    ns2: Seq<Node<V>>,
    ps: Seq<Seq<u32>>,
    cur: int,
    tokens: Seq<u32>,
    value: V,
)
    requires
        shape(old_ns, old_ps),
        forall|n: int| 0 <= n < old_ns.len() ==> in_trie(map_of(old_ns), #[trigger] old_ps[n]),
        shape(ns1, ps),
        grown(old_ns, old_ps, ns1, ps, tokens),
        reach(ns1, tokens) == Some(cur),
        ns2.len() == ns1.len(),
        forall|n: int| 0 <= n < ns1.len() && n != cur ==> #[trigger] ns2[n] == ns1[n],
        ns2[cur].children@ == ns1[cur].children@,
        ns2[cur].value == Some(value),
    ensures
        shape(ns2, ps),
        forall|n: int| 0 <= n < ns2.len() ==> in_trie(map_of(ns2), #[trigger] ps[n]),
        map_of(ns2) == map_of(old_ns).insert(tokens, value),
        map_of(ns2).dom().len() == map_of(old_ns).dom().len() + if ns1[cur].value is None {
            1int
        } else {
            0int
        },
        map_of(ns2).dom().len() <= ns2.len(),
        trie_paths(map_of(ns2)).len() == ns2.len(),
        trie_paths(map_of(old_ns)).len() == old_ns.len(),
{
    reveal(grown);
    lemma_store(old_ns, old_ps, ns1, ns2, ps, cur, tokens, value);
    let old_map = map_of(old_ns);
    assert(shape(ns2, ps));
    assert forall|n: int| 0 <= n < ns2.len() implies in_trie(map_of(ns2), #[trigger] ps[n]) by {
        assert(map_of(ns2).dom().contains(tokens));
        if n < old_ns.len() {
            assert(in_trie(old_map, old_ps[n]));
            lemma_in_trie_mono(old_map, map_of(ns2), old_ps[n]);
        }
    }
    lemma_dom_in_paths(old_ns, old_ps);
    lemma_dom_in_paths(ns2, ps);
    lemma_paths_count(old_ns, old_ps);
    lemma_paths_count(ns2, ps);
    if ns1[cur].value is Some {
        assert(map_of(ns2).dom() =~= old_map.dom());
    }
}

/// Setting the value at the node of `tokens`, after the nodes on its path
/// were created, stores `tokens` and changes nothing else.
proof fn lemma_store<V>(
    old_ns: Seq<Node<V>>,
    old_ps: Seq<Seq<u32>>,
    ns1: Seq<Node<V>>,
    ns2: Seq<Node<V>>,
    ps: Seq<Seq<u32>>,
    cur: int,
    tokens: Seq<u32>,
    value: V,
)
    requires
        shape(old_ns, old_ps),
        shape(ns1, ps),
        reach(ns1, tokens) == Some(cur),
        ns1.len() >= old_ns.len(),
        forall|n: int| 0 <= n < old_ns.len() ==> (#[trigger] ns1[n]).value == old_ns[n].value,
        forall|n: int| old_ns.len() <= n < ns1.len() ==> (#[trigger] ns1[n]).value is None,
        forall|s: Seq<u32>| #[trigger]
            reach(old_ns, s) is Some ==> reach(ns1, s) == reach(old_ns, s),
        forall|s: Seq<u32>|
            reach(old_ns, s) is None && #[trigger] reach(ns1, s) is Some ==> reach(ns1, s).unwrap()
                >= old_ns.len(),
        ns2.len() == ns1.len(),
        forall|n: int| 0 <= n < ns1.len() && n != cur ==> #[trigger] ns2[n] == ns1[n],
        ns2[cur].children@ == ns1[cur].children@,
        ns2[cur].value == Some(value),
    ensures
        forall|s: Seq<u32>| #[trigger] reach(ns2, s) == reach(ns1, s),
        map_of(ns2) == map_of(old_ns).insert(tokens, value),
        (ns1[cur].value is None) == !map_of(old_ns).dom().contains(tokens),
{
    assert forall|s: Seq<u32>| #[trigger] reach(ns2, s) == reach(ns1, s) by {
        assert forall|n: int| 0 <= n < ns1.len() implies (#[trigger] ns2[n]).children@
            == ns1[n].children@ by {
            if n != cur {
                assert(ns2[n] == ns1[n]);
            }
        }
        lemma_same_children(ns1, ns2, s);
    }
    let m = map_of(old_ns).insert(tokens, value);
    assert(tokens == ps[cur]);
    assert forall|s: Seq<u32>| #[trigger]
        map_of(ns2).dom().contains(s) == m.dom().contains(s) && (map_of(ns2).dom().contains(s)
            ==> map_of(ns2)[s] == m[s]) by {
        assert(reach(ns2, s) == reach(ns1, s));
        match reach(ns1, s) {
            Some(n) => {
                assert(s == ps[n]);
                if n != cur {
                    assert(ns2[n] == ns1[n]);
                    if reach(old_ns, s) is Some {
                        assert(reach(old_ns, s) == Some(n));
                    }
                }
            },
            None => {
                if reach(old_ns, s) is Some {
                    assert(reach(ns1, s) is Some);
                }
            },
        }
    }
    assert(map_of(ns2) =~= m);
    if reach(old_ns, tokens) is Some {
        assert(reach(old_ns, tokens) == Some(cur));
    }
}

/// Reaching depends only on the children maps.
proof fn lemma_same_children<V>(ns: Seq<Node<V>>, ns2: Seq<Node<V>>, s: Seq<u32>)
    requires
        ns.len() == ns2.len(),
        forall|n: int| 0 <= n < ns.len() ==> (#[trigger] ns2[n]).children@ == ns[n].children@,
    ensures
        reach(ns2, s) == reach(ns, s),
    decreases s.len(),
{
    if s.len() > 0 {
        lemma_same_children(ns, ns2, s.drop_last());
    }
}

/// Adding a fresh child `t -> l` under `cur` makes exactly one more path
/// reachable.
proof fn lemma_add_child<V>(
    ns: Seq<Node<V>>,
    ns2: Seq<Node<V>>,
    ps: Seq<Seq<u32>>,
    cur: int,
    t: u32,
    s: Seq<u32>,
)
    requires
        shape(ns, ps),
        0 <= cur < ns.len(),
        !ns[cur].children@.contains_key(t),
        ns2.len() == ns.len() + 1,
        ns2.len() <= usize::MAX,
        forall|n: int|
            0 <= n < ns.len() && n != cur ==> (#[trigger] ns2[n]).children@ == ns[n].children@,
        ns2[cur].children@ == ns[cur].children@.insert(t, ns.len() as usize),
        ns2[ns.len() as int].children@ == Map::<u32, usize>::empty(),
    ensures
        reach(ns2, s) == if s == ps[cur].push(t) {
            Some(ns.len() as int)
        } else {
            reach(ns, s)
        },
    decreases s.len(),
{
    let p = ps[cur];
    let l = ns.len() as int;
    assert(reach(ns, p) == Some(cur));
    if s.len() > 0 {
        let q = s.drop_last();
        lemma_add_child(ns, ns2, ps, cur, t, q);
        assert(q != p.push(t) || s != p.push(t));
        if s == p.push(t) {
            assert(q =~= p);
            assert(reach(ns2, q) == Some(cur));
            assert(s.last() == t);
            assert(ns2[cur].children@.contains_key(t));
            assert(ns2[cur].children@[t] == l as usize);
            assert(reach(ns2, s) == Some(l));
        } else if q == p.push(t) {
            assert(p.push(t).drop_last() =~= p);
            assert(reach(ns, p.push(t)) is None);
            assert(reach(ns2, q) == Some(l));
            assert(reach(ns2, s) is None);
        } else {
            assert(reach(ns2, q) == reach(ns, q));
            match reach(ns, q) {
                Some(n) => {
                    assert(0 <= n < ns.len() && q == ps[n]);
                    if n == cur {
                        if s.last() == t {
                            assert(s =~= q.push(t));
                        }
                        assert(ns2[n].children@.contains_key(s.last()) == ns[n].children@.contains_key(s.last()));
                    } else {
                        assert(ns2[n].children@ == ns[n].children@);
                    }
                    assert(reach(ns2, s) == reach(ns, s));
                },
                None => {
                    assert(reach(ns2, s) == reach(ns, s));
                },
            }
        }
    }
}

/// The stored sequences of a well-shaped trie are among its paths.
proof fn lemma_dom_in_paths<V>(ns: Seq<Node<V>>, ps: Seq<Seq<u32>>)
    requires
        shape(ns, ps),
    ensures
        map_of(ns).dom().subset_of(ps.to_set()),
        map_of(ns).dom().finite(),
        map_of(ns).dom().len() <= ns.len(),
{
    assert forall|s: Seq<u32>| map_of(ns).dom().contains(s) implies ps.to_set().contains(s) by {
        assert(reach(ns, s) is Some);
        let n = reach(ns, s).unwrap();
        assert(ps[n] == s);
    }
    vstd::seq_lib::seq_to_set_is_finite(ps);
    vstd::set_lib::lemma_len_subset(map_of(ns).dom(), ps.to_set());
    ps.lemma_cardinality_of_set();
}

/// The paths of a well-formed trie are exactly its nodes' paths, each once.
proof fn lemma_paths_count<V>(ns: Seq<Node<V>>, ps: Seq<Seq<u32>>)
    requires
        shape(ns, ps),
        forall|n: int| 0 <= n < ns.len() ==> in_trie(map_of(ns), #[trigger] ps[n]),
    ensures
        trie_paths(map_of(ns)) == ps.to_set(),
        trie_paths(map_of(ns)).len() == ns.len(),
{
    assert forall|p: Seq<u32>| #[trigger] trie_paths(map_of(ns)).contains(p) <==> ps.to_set().contains(p) by {
        if in_trie(map_of(ns), p) {
            lemma_in_trie_reaches(ns, p);
            let n = reach(ns, p).unwrap();
            assert(ps[n] == p);
        }
        if ps.to_set().contains(p) {
            let n = choose|n: int| 0 <= n < ps.len() && ps[n] == p;
            assert(in_trie(map_of(ns), ps[n]));
        }
    }
    assert(trie_paths(map_of(ns)) =~= ps.to_set());
    assert forall|i: int, j: int| 0 <= i < ps.len() && 0 <= j < ps.len() && i != j implies ps[i] != ps[j] by {
        assert(reach(ns, ps[i]) == Some(i));
        assert(reach(ns, ps[j]) == Some(j));
    }
    assert(ps.no_duplicates());
    ps.unique_seq_to_set();
}

/// A larger map has at least the same paths.
proof fn lemma_in_trie_mono<V>(m1: Map<Seq<u32>, V>, m2: Map<Seq<u32>, V>, p: Seq<u32>)
    requires
        m1.dom().subset_of(m2.dom()),
        in_trie(m1, p),
    ensures
        in_trie(m2, p),
{
    if p.len() > 0 {
        let k = choose|k: Seq<u32>| #[trigger] m1.dom().contains(k) && p.is_prefix_of(k);
        assert(m2.dom().contains(k));
    }
}

/// `longest_path` finds a path, and nothing longer up to `n` is one.
proof fn lemma_longest_path_props<V>(m: Map<Seq<u32>, V>, q: Seq<u32>, n: nat)
    requires
        n <= q.len(),
    ensures
        longest_path(m, q, n) <= n,
        in_trie(m, q.take(longest_path(m, q, n) as int)),
        forall|j: int| longest_path(m, q, n) < j <= n ==> !in_trie(m, #[trigger] q.take(j)),
    decreases n,
{
    if n > 0 && !in_trie(m, q.take(n as int)) {
        lemma_longest_path_props(m, q, (n - 1) as nat);
    }
}

} // verus!
