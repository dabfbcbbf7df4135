//! The deterministic hash behind rendezvous (highest-random-weight) key
//! placement: every node is scored for a key from `hash(node, key)`, so the
//! same membership always maps a key the same way.
use crate::replay_ledger::{fnv_extend, fnv_from, fnv_step, FNV_OFFSET};
use crate::retrieval::{
    id_less, lemma_id_less_irreflexive, lemma_id_less_total, lemma_id_less_transitive, str_less,
};
use crate::text::{owned, str_eq};
use crate::reservoir::{mix, splitmix_mix, SPLITMIX_GAMMA};
use vstd::prelude::*;
use vstd::string::*;
use vstd::utf8::*;
use vstd::wrapping::u64_specs::wrapping_add;

verus! {

/// Schema version of the rendezvous-hash surface.
pub const SCHEMA_VERSION: &'static str = "1.0.0";

/// The hash of a (node, key) pair: FNV-1a over the node's bytes, a `0xFF`
/// separator (so ("ab", "c") and ("a", "bc") differ) and the key's bytes,
/// then the splitmix64 finalizer.
pub open spec fn node_key_hash(node: Seq<u8>, key: Seq<u8>) -> u64 {
    splitmix_mix(wrapping_add(fnv_from(fnv_step(fnv_from(FNV_OFFSET, node), 0xFF), key), SPLITMIX_GAMMA))
}

/// Hash node bytes then key bytes through FNV-1a and a splitmix64 finalizer.
pub fn hash(node: &str, key: &[u8]) -> (r: u64)
    ensures
        r == node_key_hash(encode_utf8(node@), key@),
{
    let h = fnv_extend(FNV_OFFSET, node.as_bytes());
    let h = (h ^ 0xFFu64).wrapping_mul(0x0000_0100_0000_01B3u64);
    let h = fnv_extend(h, key);
    mix(h.wrapping_add(SPLITMIX_GAMMA))
}

/// Some member of `v` has the id `id`.
pub open spec fn has_id(v: Seq<(Seq<char>, u64)>, id: Seq<char>) -> bool {
    exists|i: int| 0 <= i < v.len() && #[trigger] v[i].0 == id
}

/// The position of the member with id `id`.
pub open spec fn index_of(v: Seq<(Seq<char>, u64)>, id: Seq<char>) -> int {
    choose|i: int| 0 <= i < v.len() && #[trigger] v[i].0 == id
}

/// No two members share an id.
pub open spec fn unique_ids(v: Seq<(Seq<char>, u64)>) -> bool {
    forall|i: int, j: int| 0 <= i < v.len() && 0 <= j < v.len() && i != j ==> #[trigger] v[i].0 != #[trigger] v[j].0
}

/// The members after adding `id` with weight `w`: an existing member's weight
/// is replaced in place, a new id is appended.
pub open spec fn added(v: Seq<(Seq<char>, u64)>, id: Seq<char>, w: u64) -> Seq<(Seq<char>, u64)> {
    if has_id(v, id) {
        v.update(index_of(v, id), (id, w))
    } else {
        v.push((id, w))
    }
}

/// The members of a rendezvous node set: ids in insertion order, each with
/// the bit pattern of its capacity weight.
pub struct NodeSet {
    members: Vec<(String, u64)>,
}

impl View for NodeSet {
    type V = Seq<(Seq<char>, u64)>;

    closed spec fn view(&self) -> Seq<(Seq<char>, u64)> {
        self.members@.map_values(|p: (String, u64)| (p.0@, p.1))
    }
}

impl NodeSet {
    #[verifier::type_invariant]
    closed spec fn ids_unique(&self) -> bool {
        unique_ids(self@)
    }

    /// An empty node set.
    pub fn new() -> (r: Self)
        ensures
            r@ == Seq::<(Seq<char>, u64)>::empty(),
    {
        let r = NodeSet { members: Vec::new() };
        assert(r@ =~= Seq::<(Seq<char>, u64)>::empty());
        r
    }

    /// Number of nodes.
    pub fn len(&self) -> (r: usize)
        ensures
            r == self@.len(),
    {
        self.members.len()
    }

    /// Whether there are no nodes.
    pub fn is_empty(&self) -> (r: bool)
        ensures
            r == (self@.len() == 0),
    {
        self.members.len() == 0
    }

    /// The node ids, in insertion order; no id occurs twice.
    pub fn nodes(&self) -> (r: Vec<String>)
        ensures
            r@.len() == self@.len(),
            forall|i: int| 0 <= i < r@.len() ==> (#[trigger] r@[i])@ == self@[i].0,
            forall|i: int, j: int| 0 <= i < r@.len() && 0 <= j < r@.len() && i != j ==> (#[trigger] r@[i])@ != (#[trigger] r@[j])@,
    {
        proof {
            use_type_invariant(self);
        }
        let mut r: Vec<String> = Vec::new();
        let mut i: usize = 0;
        while i < self.members.len()
            invariant
                i <= self@.len(),
                self@.len() == self.members@.len(),
                r@.len() == i,
                forall|j: int| 0 <= j < i ==> (#[trigger] r@[j])@ == self@[j].0,
            decreases self.members@.len() - i,
        {
            r.push(owned(self.members[i].0.as_str()));
            i += 1;
        }
        proof {
            assert forall|i: int, j: int| 0 <= i < r@.len() && 0 <= j < r@.len() && i != j implies (#[trigger] r@[i])@ != (#[trigger] r@[j])@ by {
                assert(self@[i].0 != self@[j].0);
            }
        }
        r
    }

    /// The members with their weight bits, in insertion order.
    pub fn entries(&self) -> (r: Vec<(String, u64)>)
        ensures
            r@.len() == self@.len(),
            forall|i: int| 0 <= i < r@.len() ==> (#[trigger] r@[i]).0@ == self@[i].0 && r@[i].1 == self@[i].1,
    {
        let mut r: Vec<(String, u64)> = Vec::new();
        let mut i: usize = 0;
        while i < self.members.len()
            invariant
                i <= self@.len(),
                self@.len() == self.members@.len(),
                r@.len() == i,
                forall|j: int| 0 <= j < i ==> (#[trigger] r@[j]).0@ == self@[j].0 && r@[j].1 == self@[j].1,
            decreases self.members@.len() - i,
        {
            let w = self.members[i].1;
            r.push((owned(self.members[i].0.as_str()), w));
            i += 1;
        }
        r
    }

    /// Add a node with weight bits `weight_bits`, or replace the weight of the
    /// node already there under that id (keeping its place).
    pub fn add_node(&mut self, id: String, weight_bits: u64)
        ensures
            final(self)@ == added(old(self)@, id@, weight_bits),
    {
        proof {
            use_type_invariant(&*self);
        }
        let ghost v0 = self@;
        let mut m: Vec<(String, u64)> = Vec::new();
        std::mem::swap(&mut m, &mut self.members);
        let ghost idv = id@;
        let mut i: usize = 0;
        while i < m.len()
            invariant
                m@.map_values(|p: (String, u64)| (p.0@, p.1)) == v0,
                v0 == old(self)@,
                unique_ids(v0),
                idv == id@,
                i <= v0.len(),
                v0.len() == m@.len(),
                forall|j: int| 0 <= j < i ==> v0[j].0 != idv,
            decreases m@.len() - i,
        {
            if str_eq(m[i].0.as_str(), id.as_str()) {
                proof {
                    assert(v0[i as int].0 == idv);
                    assert(has_id(v0, idv));
                    let k = index_of(v0, idv);
                    assert(k == i);
                }
                m.set(i, (id, weight_bits));
                proof {
                    assert(m@.map_values(|p: (String, u64)| (p.0@, p.1)) =~= v0.update(i as int, (idv, weight_bits)));
                }
                self.members = m;
                return;
            }
            i += 1;
        }
        m.push((id, weight_bits));
        proof {
            assert(m@.map_values(|p: (String, u64)| (p.0@, p.1)) =~= v0.push((idv, weight_bits)));
            assert(!has_id(v0, idv));
        }
        self.members = m;
    }

    /// Remove a node by id; whether it was present. The others keep their
    /// order.
    pub fn remove_node(&mut self, id: &str) -> (r: bool)
        ensures
            r == has_id(old(self)@, id@),
            r ==> final(self)@ == old(self)@.remove(index_of(old(self)@, id@)),
            !r ==> final(self)@ == old(self)@,
            !has_id(final(self)@, id@),
    {
        proof {
            use_type_invariant(&*self);
        }
        let ghost v0 = self@;
        let mut m: Vec<(String, u64)> = Vec::new();
        std::mem::swap(&mut m, &mut self.members);
        let mut i: usize = 0;
        while i < m.len()
            invariant
                m@.map_values(|p: (String, u64)| (p.0@, p.1)) == v0,
                v0 == old(self)@,
                unique_ids(v0),
                i <= v0.len(),
                v0.len() == m@.len(),
                forall|j: int| 0 <= j < i ==> v0[j].0 != id@,
            decreases m@.len() - i,
        {
            if str_eq(m[i].0.as_str(), id) {
                proof {
                    assert(v0[i as int].0 == id@);
                    assert(has_id(v0, id@));
                    let k = index_of(v0, id@);
                    assert(k == i);
                }
                let _ = m.remove(i);
                let ghost nv = m@.map_values(|p: (String, u64)| (p.0@, p.1));
                proof {
                    assert(nv =~= v0.remove(i as int));
                    assert forall|j: int| 0 <= j < nv.len() implies #[trigger] nv[j].0 != id@ by {
                        if j < i {
                        } else {
                            assert(nv[j] == v0[j + 1]);
                        }
                    }
                    assert forall|a: int, b: int| 0 <= a < nv.len() && 0 <= b < nv.len() && a != b implies #[trigger] nv[a].0 != #[trigger] nv[b].0 by {
                        let a0 = if a < i { a } else { a + 1 };
                        let b0 = if b < i { b } else { b + 1 };
                        assert(nv[a] == v0[a0] && nv[b] == v0[b0]);
                    }
                }
                self.members = m;
                return true;
            }
            i += 1;
        }
        self.members = m;
        false
    }
}

/// For one key, member `x` (id and score key) wins over `y`: a higher score
/// key, or an equal one and a smaller id.
pub open spec fn wins(x: (Seq<char>, i64), y: (Seq<char>, i64)) -> bool {
    x.1 > y.1 || (x.1 == y.1 && id_less(x.0, y.0))
}

/// The position of the winner among scored members: the first member, then
/// each later one that wins over the best so far.
pub open spec fn winner_index(c: Seq<(Seq<char>, i64)>) -> int
    decreases c.len(),
{
    if c.len() <= 1 {
        0
    } else {
        let b = winner_index(c.drop_last());
        if wins(c.last(), c[b]) {
            c.len() - 1
        } else {
            b
        }
    }
}

/// The id a key is assigned to among scored members, if there are any.
pub open spec fn winner(c: Seq<(Seq<char>, i64)>) -> Option<Seq<char>> {
    if c.len() == 0 {
        None
    } else {
        Some(c[winner_index(c)].0)
    }
}

/// The members paired with score keys, by position.
pub open spec fn scored(v: Seq<(Seq<char>, u64)>, keys: Seq<i64>) -> Seq<(Seq<char>, i64)> {
    Seq::new(v.len(), |i: int| (v[i].0, keys[i]))
}

/// The members paired with the score keys a scoring rule gives them.
pub open spec fn scored_by(v: Seq<(Seq<char>, u64)>, f: spec_fn((Seq<char>, u64)) -> i64) -> Seq<(Seq<char>, i64)> {
    v.map_values(|p: (Seq<char>, u64)| (p.0, f(p)))
}

/// No two scored members share an id.
pub open spec fn distinct_ids(c: Seq<(Seq<char>, i64)>) -> bool {
    forall|i: int, j: int| 0 <= i < c.len() && 0 <= j < c.len() && i != j ==> #[trigger] c[i].0 != #[trigger] c[j].0
}

proof fn lemma_wins_transitive(x: (Seq<char>, i64), y: (Seq<char>, i64), z: (Seq<char>, i64))
    requires
        wins(x, y),
        wins(y, z),
    ensures
        wins(x, z),
{
    if x.1 == y.1 && y.1 == z.1 {
        lemma_id_less_transitive(x.0, y.0, z.0);
    }
}

proof fn lemma_wins_asymmetric(x: (Seq<char>, i64), y: (Seq<char>, i64))
    requires
        wins(x, y),
    ensures
        !wins(y, x),
{
    if x.1 == y.1 && id_less(y.0, x.0) {
        lemma_id_less_transitive(x.0, y.0, x.0);
        lemma_id_less_irreflexive(x.0);
    }
}

proof fn lemma_wins_total(x: (Seq<char>, i64), y: (Seq<char>, i64))
    requires
        x.0 != y.0,
    ensures
        wins(x, y) || wins(y, x),
{
    if x.1 == y.1 {
        lemma_id_less_total(x.0, y.0);
    }
}

/// The winner wins over every other member.
proof fn lemma_winner_wins(c: Seq<(Seq<char>, i64)>)
    requires
        c.len() > 0,
        distinct_ids(c),
    ensures
        0 <= winner_index(c) < c.len(),
        forall|j: int| 0 <= j < c.len() && j != winner_index(c) ==> wins(c[winner_index(c)], #[trigger] c[j]),
    decreases c.len(),
{
    if c.len() > 1 {
        let d = c.drop_last();
        assert(distinct_ids(d)) by {
            assert forall|i: int, j: int| 0 <= i < d.len() && 0 <= j < d.len() && i != j implies #[trigger] d[i].0 != #[trigger] d[j].0 by {
                assert(d[i] == c[i] && d[j] == c[j]);
            }
        }
        lemma_winner_wins(d);
        let b = winner_index(d);
        let l = c.len() - 1;
        assert(c[b] == d[b]);
        if wins(c.last(), c[b]) {
            assert forall|j: int| 0 <= j < c.len() && j != l implies wins(c[l], #[trigger] c[j]) by {
                if j != b {
                    assert(c[j] == d[j]);
                    lemma_wins_transitive(c[l], c[b], c[j]);
                }
            }
        } else {
            assert(c[l].0 != c[b].0);
            lemma_wins_total(c[l], c[b]);
            assert forall|j: int| 0 <= j < c.len() && j != b implies wins(c[b], #[trigger] c[j]) by {
                if j != l {
                    assert(c[j] == d[j]);
                }
            }
        }
    }
}

/// A member that wins over every other member is the winner.
proof fn lemma_winner_is(c: Seq<(Seq<char>, i64)>, k: int)
    requires
        distinct_ids(c),
        0 <= k < c.len(),
        forall|j: int| 0 <= j < c.len() && j != k ==> wins(c[k], #[trigger] c[j]),
    ensures
        winner(c) == Some(c[k].0),
{
    lemma_winner_wins(c);
    let w = winner_index(c);
    if w != k {
        assert(wins(c[k], c[w]));
        assert(wins(c[w], c[k]));
        lemma_wins_asymmetric(c[k], c[w]);
    }
}

proof fn lemma_scored_distinct(v: Seq<(Seq<char>, u64)>, f: spec_fn((Seq<char>, u64)) -> i64)
    requires
        unique_ids(v),
    ensures
        distinct_ids(scored_by(v, f)),
{
    let c = scored_by(v, f);
    assert forall|i: int, j: int| 0 <= i < c.len() && 0 <= j < c.len() && i != j implies #[trigger] c[i].0 != #[trigger] c[j].0 by {
        assert(v[i].0 != v[j].0);
    }
}

/// Removing a node moves only the keys it was assigned: for any key (any
/// scoring of the members that depends on each member alone), a key not
/// assigned to the removed node keeps its node.
pub proof fn law_removal_keeps_other_assignments(
    v: Seq<(Seq<char>, u64)>,
    f: spec_fn((Seq<char>, u64)) -> i64,
    id: Seq<char>,
)
    requires
        unique_ids(v),
        has_id(v, id),
        winner(scored_by(v, f)) != Some(id),
    ensures
        winner(scored_by(v.remove(index_of(v, id)), f)) == winner(scored_by(v, f)),
{
    let r = index_of(v, id);
    let c = scored_by(v, f);
    let v2 = v.remove(r);
    let c2 = scored_by(v2, f);
    lemma_scored_distinct(v, f);
    lemma_winner_wins(c);
    let w = winner_index(c);
    assert(w != r);
    let w2 = if w < r { w } else { w - 1 };
    assert(c2[w2] == c[w]);
    assert(distinct_ids(c2)) by {
        assert(unique_ids(v2)) by {
            assert forall|i: int, j: int| 0 <= i < v2.len() && 0 <= j < v2.len() && i != j implies #[trigger] v2[i].0 != #[trigger] v2[j].0 by {
                let i0 = if i < r { i } else { i + 1 };
                let j0 = if j < r { j } else { j + 1 };
                assert(v2[i] == v[i0] && v2[j] == v[j0]);
            }
        }
        lemma_scored_distinct(v2, f);
    }
    assert forall|j: int| 0 <= j < c2.len() && j != w2 implies wins(c2[w2], #[trigger] c2[j]) by {
        let j0 = if j < r { j } else { j + 1 };
        assert(c2[j] == c[j0]);
    }
    lemma_winner_is(c2, w2);
}

/// Adding a node moves only keys to it: for any key, the new assignment is
/// either the old one or the new node.
pub proof fn law_addition_only_takes_keys(
    v: Seq<(Seq<char>, u64)>,
    f: spec_fn((Seq<char>, u64)) -> i64,
    id: Seq<char>,
    w: u64,
)
    requires
        unique_ids(v),
        !has_id(v, id),
    ensures
        winner(scored_by(added(v, id, w), f)) == Some(id) || winner(scored_by(added(v, id, w), f))
            == winner(scored_by(v, f)),
{
    let v2 = added(v, id, w);
    assert(v2 == v.push((id, w)));
    let c = scored_by(v, f);
    let c2 = scored_by(v2, f);
    let n = v.len() as int;
    assert(unique_ids(v2)) by {
        assert forall|i: int, j: int| 0 <= i < v2.len() && 0 <= j < v2.len() && i != j implies #[trigger] v2[i].0 != #[trigger] v2[j].0 by {
            if i < n && j < n {
                assert(v2[i] == v[i] && v2[j] == v[j]);
            } else if i == n {
                assert(v2[j] == v[j]);
            } else {
                assert(v2[i] == v[i]);
            }
        }
    }
    lemma_scored_distinct(v2, f);
    assert(c2[n] == (id, f((id, w))));
    if n == 0 {
        assert forall|j: int| 0 <= j < c2.len() && j != n implies wins(c2[n], #[trigger] c2[j]) by {}
        lemma_winner_is(c2, n);
    } else {
        lemma_scored_distinct(v, f);
        lemma_winner_wins(c);
        let b = winner_index(c);
        assert(c2[b] == c[b]);
        assert(c[b].0 != id);
        if wins(c2[n], c2[b]) {
            assert forall|j: int| 0 <= j < c2.len() && j != n implies wins(c2[n], #[trigger] c2[j]) by {
                if j != b {
                    assert(c2[j] == c[j]);
                    lemma_wins_transitive(c2[n], c2[b], c2[j]);
                }
            }
            lemma_winner_is(c2, n);
        } else {
            lemma_wins_total(c2[n], c2[b]);
            assert forall|j: int| 0 <= j < c2.len() && j != b implies wins(c2[b], #[trigger] c2[j]) by {
                if j != n {
                    assert(c2[j] == c[j]);
                }
            }
            lemma_winner_is(c2, b);
        }
    }
}

impl NodeSet {
    /// The node a key is assigned to, given each member's score key for that
    /// key (by position, as `entries` lists them): the highest key, ties to the
    /// smaller id; `None` when the set is empty.
    pub fn select(&self, score_keys: &[i64]) -> (r: Option<String>)
        requires
            score_keys@.len() == self@.len(),
        ensures
            match r {
                Some(s) => winner(scored(self@, score_keys@)) == Some(s@),
                None => winner(scored(self@, score_keys@)) is None,
            },
    {
        let n = self.members.len();
        if n == 0 {
            return None;
        }
        let ghost c = scored(self@, score_keys@);
        let mut best: usize = 0;
        let mut i: usize = 1;
        while i < n
            invariant
                n == self@.len(),
                n == self.members@.len(),
                score_keys@.len() == n,
                c == scored(self@, score_keys@),
                1 <= i <= n,
                best == winner_index(c.take(i as int)),
                best < i,
            decreases n - i,
        {
            proof {
                assert(c.take(i + 1).drop_last() =~= c.take(i as int));
                assert(c.take(i + 1).last() == c[i as int]);
                assert(c.take(i + 1)[best as int] == c[best as int]);
            }
            let better = score_keys[i] > score_keys[best] || (score_keys[i] == score_keys[best] && str_less(
                &self.members[i].0,
                &self.members[best].0,
            ));
            if better {
                best = i;
            }
            i += 1;
        }
        proof {
            assert(c.take(n as int) =~= c);
        }
        Some(owned(self.members[best].0.as_str()))
    }
}

/// Ids and score keys paired by position.
pub open spec fn pairs(ids: Seq<String>, keys: Seq<i64>) -> Seq<(Seq<char>, i64)> {
    Seq::new(ids.len(), |i: int| (ids[i]@, keys[i]))
}

/// The preference list of the first `k` choices: the winner, then the
/// preference list of the others.
pub open spec fn preference(c: Seq<(Seq<char>, i64)>, k: nat) -> Seq<Seq<char>>
    decreases k,
{
    if k == 0 || c.len() == 0 {
        Seq::empty()
    } else {
        let w = winner_index(c);
        seq![c[w].0] + preference(c.remove(w), (k - 1) as nat)
    }
}

/// The position of the winner among paired ids and score keys.
fn winner_pos(ids: &Vec<String>, keys: &Vec<i64>) -> (r: usize)
    requires
        ids@.len() == keys@.len(),
        ids@.len() > 0,
    ensures
        r == winner_index(pairs(ids@, keys@)),
        r < ids@.len(),
{
    let n = ids.len();
    let ghost c = pairs(ids@, keys@);
    let mut best: usize = 0;
    let mut i: usize = 1;
    while i < n
        invariant
            n == ids@.len(),
            keys@.len() == n,
            c == pairs(ids@, keys@),
            1 <= i <= n,
            best == winner_index(c.take(i as int)),
            best < i,
        decreases n - i,
    {
        proof {
            assert(c.take(i + 1).drop_last() =~= c.take(i as int));
            assert(c.take(i + 1).last() == c[i as int]);
            assert(c.take(i + 1)[best as int] == c[best as int]);
        }
        let better = keys[i] > keys[best] || (keys[i] == keys[best] && str_less(&ids[i], &ids[best]));
        if better {
            best = i;
        }
        i += 1;
    }
    proof {
        assert(c.take(n as int) =~= c);
    }
    best
}

/// The preference list starts with the assigned node.
pub proof fn law_preference_starts_with_winner(c: Seq<(Seq<char>, i64)>, k: nat)
    requires
        k > 0,
        c.len() > 0,
    ensures
        winner(c) == Some(preference(c, k)[0]),
{
}

/// A preference list of distinct members holds `min(k, n)` distinct ids.
pub proof fn law_preference_distinct(c: Seq<(Seq<char>, i64)>, k: nat)
    requires
        distinct_ids(c),
    ensures
        preference(c, k).len() == (if k < c.len() {
            k
        } else {
            c.len()
        }),
        preference(c, k).no_duplicates(),
        forall|i: int|
            0 <= i < preference(c, k).len() ==> exists|j: int| 0 <= j < c.len() && #[trigger] c[j].0 == #[trigger] preference(c, k)[i],
    decreases k,
{
    if k > 0 && c.len() > 0 {
        lemma_winner_wins(c);
        let w = winner_index(c);
        let d = c.remove(w);
        assert(distinct_ids(d)) by {
            assert forall|i: int, j: int| 0 <= i < d.len() && 0 <= j < d.len() && i != j implies #[trigger] d[i].0 != #[trigger] d[j].0 by {
                let i0 = if i < w { i } else { i + 1 };
                let j0 = if j < w { j } else { j + 1 };
                assert(d[i] == c[i0] && d[j] == c[j0]);
            }
        }
        law_preference_distinct(d, (k - 1) as nat);
        let p = preference(c, k);
        let q = preference(d, (k - 1) as nat);
        assert(p == seq![c[w].0] + q);
        assert forall|i: int| 0 <= i < p.len() implies exists|j: int| 0 <= j < c.len() && #[trigger] c[j].0 == #[trigger] p[i] by {
            if i == 0 {
                assert(c[w].0 == p[0]);
            } else {
                assert(p[i] == q[i - 1]);
                let j = choose|j: int| 0 <= j < d.len() && #[trigger] d[j].0 == q[i - 1];
                let j0 = if j < w { j } else { j + 1 };
                assert(c[j0] == d[j]);
            }
        }
        assert forall|a: int, b: int| 0 <= a < p.len() && 0 <= b < p.len() && a != b implies p[a] != p[b] by {
            if a > 0 && b > 0 {
                assert(p[a] == q[a - 1] && p[b] == q[b - 1]);
            } else {
                let x = if a == 0 { b } else { a };
                assert(p[x] == q[x - 1]);
                let j = choose|j: int| 0 <= j < d.len() && #[trigger] d[j].0 == q[x - 1];
                let j0 = if j < w { j } else { j + 1 };
                assert(c[j0] == d[j]);
                assert(j0 != w);
            }
        }
    }
}

impl NodeSet {
    /// The top `k` nodes for a key, best first, given each member's score key
    /// (by position, as `entries` lists them): a stable preference list for
    /// replication and failover.
    pub fn select_k(&self, score_keys: &[i64], k: usize) -> (r: Vec<String>)
        requires
            score_keys@.len() == self@.len(),
        ensures
            r@.map_values(|s: String| s@) == preference(scored(self@, score_keys@), k as nat),
    {
        let ghost c = scored(self@, score_keys@);
        let mut ids: Vec<String> = Vec::new();
        let mut keys: Vec<i64> = Vec::new();
        let mut i: usize = 0;
        while i < self.members.len()
            invariant
                i <= self@.len(),
                self@.len() == self.members@.len(),
                score_keys@.len() == self@.len(),
                c == scored(self@, score_keys@),
                ids@.len() == i,
                keys@.len() == i,
                pairs(ids@, keys@) =~= c.take(i as int),
            decreases self.members@.len() - i,
        {
            ids.push(owned(self.members[i].0.as_str()));
            keys.push(score_keys[i]);
            i += 1;
            proof {
                assert(pairs(ids@, keys@) =~= c.take(i as int));
            }
        }
        proof {
            assert(c.take(i as int) =~= c);
        }
        let mut out: Vec<String> = Vec::new();
        while out.len() < k && ids.len() > 0
            invariant
                ids@.len() == keys@.len(),
                out@.len() <= k,
                out@.map_values(|s: String| s@) + preference(pairs(ids@, keys@), (k - out@.len()) as nat)
                    == preference(c, k as nat),
            decreases ids@.len(),
        {
            let w = winner_pos(&ids, &keys);
            let ghost before = pairs(ids@, keys@);
            let ghost m = (k - out@.len()) as nat;
            let ghost prev = out@.map_values(|s: String| s@);
            let id = ids.remove(w);
            let _ = keys.remove(w);
            proof {
                assert(pairs(ids@, keys@) =~= before.remove(w as int));
                assert(preference(before, m) == seq![before[w as int].0] + preference(before.remove(w as int), (m - 1) as nat));
                assert(before[w as int].0 == id@);
            }
            out.push(id);
            proof {
                assert(out@.map_values(|s: String| s@) =~= prev.push(id@));
                assert(prev.push(id@) + preference(pairs(ids@, keys@), (m - 1) as nat) =~= prev + (seq![id@]
                    + preference(before.remove(w as int), (m - 1) as nat)));
            }
        }
        proof {
            let rest = preference(pairs(ids@, keys@), (k - out@.len()) as nat);
            assert(rest =~= Seq::<Seq<char>>::empty());
            assert(out@.map_values(|s: String| s@) + rest =~= out@.map_values(|s: String| s@));
        }
        out
    }
}

} // verus!
