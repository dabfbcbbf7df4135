//! Coverage-based reranking of retrieved passages: candidates are rescored
//! by how many of the query's distinct terms they contain, with the total
//! number of query-term matches as the tiebreak, then the id. Candidates
//! sharing no query term are dropped.
//!
//! A hit records `covered` and `query_terms`; its coverage is the fraction
//! `covered / query_terms`. All hits of one query share `query_terms`, so
//! ordering by coverage is ordering by `covered`.
use crate::retrieval::{
    contains_str, id_less, lemma_id_less_irreflexive, lemma_id_less_total,
    lemma_id_less_transitive, str_less, tokens, tokens_of, unique_of, unique_tokens, views,
};
use crate::sorting::{lemma_insert_sorted, sorted_by};
use vstd::prelude::*;

verus! {

/// Schema version of the rerank surface.
pub const SCHEMA_VERSION: &'static str = "1.0.0";

/// A reranked candidate.
#[derive(Debug, Clone, PartialEq, Eq)]
pub struct RerankHit {
    /// The candidate's id.
    pub id: String,
    /// The candidate text.
    pub text: String,
    /// How many distinct query terms the text contains.
    pub covered: usize,
    /// How many distinct terms the query has.
    pub query_terms: usize,
    /// Total query-term matches in the text (the tiebreak).
    pub matches: usize,
}

/// The abstract value of a reranked candidate.
pub ghost struct Scored {
    /// The candidate's id.
    pub id: Seq<char>,
    /// The candidate text.
    pub text: Seq<char>,
    /// Distinct query terms covered.
    pub covered: nat,
    /// Distinct query terms in all.
    pub query_terms: nat,
    /// Query-term matches.
    pub matches: nat,
}

impl View for RerankHit {
    type V = Scored;

    open spec fn view(&self) -> Scored {
        Scored {
            id: self.id@,
            text: self.text@,
            covered: self.covered as nat,
            query_terms: self.query_terms as nat,
            matches: self.matches as nat,
        }
    }
}

/// Views of reranked candidates.
pub open spec fn scored_views(v: Seq<RerankHit>) -> Seq<Scored> {
    v.map_values(|h: RerankHit| h@)
}

/// Views of `(id, text)` candidates.
pub open spec fn candidate_views(v: Seq<(String, String)>) -> Seq<(Seq<char>, Seq<char>)> {
    v.map_values(|c: (String, String)| (c.0@, c.1@))
}

/// How many terms of `q` occur among the tokens `ts`.
pub open spec fn covered_of(q: Seq<Seq<char>>, ts: Seq<Seq<char>>) -> nat
    decreases q.len(),
{
    if q.len() == 0 {
        0
    } else {
        covered_of(q.drop_last(), ts) + if ts.contains(q.last()) {
            1nat
        } else {
            0nat
        }
    }
}

/// How many of the tokens `ts` are terms of `q`.
pub open spec fn matches_of(q: Seq<Seq<char>>, ts: Seq<Seq<char>>) -> nat
    decreases ts.len(),
{
    if ts.len() == 0 {
        0
    } else {
        matches_of(q, ts.drop_last()) + if q.contains(ts.last()) {
            1nat
        } else {
            0nat
        }
    }
}

/// `x` ranks strictly before `y`: more coverage, then more matches, then a
/// smaller id.
pub open spec fn scored_before(x: Scored, y: Scored) -> bool {
    x.covered > y.covered || (x.covered == y.covered && (x.matches > y.matches || (x.matches
        == y.matches && id_less(x.id, y.id))))
}

/// Where `x` goes in the sorted `t`: after every entry that does not rank
/// strictly after it.
pub open spec fn scored_insert_pos(t: Seq<Scored>, x: Scored) -> int
    decreases t.len(),
{
    if t.len() == 0 {
        0
    } else if scored_before(x, t.last()) {
        scored_insert_pos(t.drop_last(), x)
    } else {
        t.len() as int
    }
}

/// `s` stably sorted by `scored_before`.
pub open spec fn scored_sort(s: Seq<Scored>) -> Seq<Scored>
    decreases s.len(),
{
    if s.len() == 0 {
        s
    } else {
        let t = scored_sort(s.drop_last());
        t.insert(scored_insert_pos(t, s.last()), s.last())
    }
}

/// The candidates covering at least one term of `q`, scored, in candidate
/// order.
pub open spec fn scored_of(cands: Seq<(Seq<char>, Seq<char>)>, q: Seq<Seq<char>>) -> Seq<Scored>
    decreases cands.len(),
{
    if cands.len() == 0 {
        Seq::empty()
    } else {
        let c = cands.last();
        let ts = tokens_of(c.1);
        let cov = covered_of(q, ts);
        scored_of(cands.drop_last(), q) + if cov > 0 {
            seq![
                Scored {
                    id: c.0,
                    text: c.1,
                    covered: cov,
                    query_terms: q.len(),
                    matches: matches_of(q, ts),
                },
            ]
        } else {
            Seq::empty()
        }
    }
}

/// The answer of `rerank`: nothing for a query without terms; otherwise the
/// covering candidates, sorted, at most `k` of them.
pub open spec fn reranked(query: Seq<char>, cands: Seq<(Seq<char>, Seq<char>)>, k: nat) -> Seq<
    Scored,
> {
    let q = unique_of(tokens_of(query));
    if q.len() == 0 {
        Seq::empty()
    } else {
        let r = scored_sort(scored_of(cands, q));
        if k < r.len() {
            r.take(k as int)
        } else {
            r
        }
    }
}

proof fn lemma_covered_bound(q: Seq<Seq<char>>, ts: Seq<Seq<char>>)
    ensures
        covered_of(q, ts) <= q.len(),
    decreases q.len(),
{
    if q.len() > 0 {
        lemma_covered_bound(q.drop_last(), ts);
    }
}

proof fn lemma_scored_insert_pos(t: Seq<Scored>, x: Scored)
    ensures
        0 <= scored_insert_pos(t, x) <= t.len(),
    decreases t.len(),
{
    if t.len() > 0 {
        lemma_scored_insert_pos(t.drop_last(), x);
    }
}

/// How many terms of `q` occur among `ts`.
fn covered_count(q: &Vec<String>, ts: &Vec<String>) -> (n: usize)
    ensures
        n == covered_of(views(q@), views(ts@)),
        n <= q@.len(),
{
    let ghost qv = views(q@);
    let mut n: usize = 0;
    let mut i: usize = 0;
    while i < q.len()
        invariant
            qv == views(q@),
            i <= q@.len(),
            n == covered_of(qv.take(i as int), views(ts@)),
            n <= i,
        decreases q@.len() - i,
    {
        proof {
            assert(qv.take(i + 1).drop_last() =~= qv.take(i as int));
            assert(qv.take(i + 1).last() == q@[i as int]@);
        }
        if contains_str(ts, &q[i]) {
            n += 1;
        }
        i += 1;
    }
    proof {
        assert(qv.take(q@.len() as int) =~= qv);
    }
    n
}

/// How many of `ts` are terms of `q`.
fn match_count(q: &Vec<String>, ts: &Vec<String>) -> (n: usize)
    ensures
        n == matches_of(views(q@), views(ts@)),
{
    let ghost tv = views(ts@);
    let mut n: usize = 0;
    let mut i: usize = 0;
    while i < ts.len()
        invariant
            tv == views(ts@),
            i <= ts@.len(),
            n == matches_of(views(q@), tv.take(i as int)),
            n <= i,
        decreases ts@.len() - i,
    {
        proof {
            assert(tv.take(i + 1).drop_last() =~= tv.take(i as int));
            assert(tv.take(i + 1).last() == ts@[i as int]@);
        }
        if contains_str(q, &ts[i]) {
            n += 1;
        }
        i += 1;
    }
    proof {
        assert(tv.take(ts@.len() as int) =~= tv);
    }
    n
}

fn ranks_before(x: &RerankHit, y: &RerankHit) -> (r: bool)
    ensures
        r == scored_before(x@, y@),
{
    x.covered > y.covered || (x.covered == y.covered && (x.matches > y.matches || (x.matches
        == y.matches && str_less(&x.id, &y.id))))
}

/// Stable insertion sort by coverage, matches, then id.
fn sort_hits(v: Vec<RerankHit>) -> (r: Vec<RerankHit>)
    ensures
        scored_views(r@) == scored_sort(scored_views(v@)),
{
    let ghost all = scored_views(v@);
    let mut src = v;
    let mut rev: Vec<RerankHit> = Vec::new();
    while src.len() > 0
        invariant
            src@.len() + rev@.len() == all.len(),
            forall|j: int| 0 <= j < src@.len() ==> (#[trigger] src@[j])@ == all[j],
            forall|j: int| 0 <= j < rev@.len() ==> (#[trigger] rev@[j])@ == all[all.len() - 1 - j],
        decreases src@.len(),
    {
        let x = src.pop().unwrap();
        rev.push(x);
    }
    let n = rev.len();
    let mut sorted: Vec<RerankHit> = Vec::new();
    let mut k: usize = 0;
    proof {
        assert(all.take(0) =~= Seq::<Scored>::empty());
    }
    while k < n
        invariant
            n == all.len(),
            k <= n,
            rev@.len() == n - k,
            forall|j: int| 0 <= j < rev@.len() ==> (#[trigger] rev@[j])@ == all[n - 1 - j],
            scored_views(sorted@) == scored_sort(all.take(k as int)),
        decreases n - k,
    {
        let x = rev.pop().unwrap();
        let ghost hs = scored_views(sorted@);
        let mut p = sorted.len();
        proof {
            assert(hs.take(p as int) =~= hs);
        }
        while p > 0 && ranks_before(&x, &sorted[p - 1])
            invariant
                p <= sorted@.len(),
                hs == scored_views(sorted@),
                scored_insert_pos(hs.take(p as int), x@) == scored_insert_pos(hs, x@),
            decreases p,
        {
            proof {
                assert(hs.take(p as int).drop_last() =~= hs.take(p - 1));
                assert(hs.take(p as int).last() == sorted@[p - 1]@);
            }
            p -= 1;
        }
        proof {
            if p > 0 {
                assert(hs.take(p as int).last() == sorted@[p - 1]@);
            }
            assert(x@ == all[k as int]);
            assert(all.take(k + 1).drop_last() =~= all.take(k as int));
            lemma_scored_insert_pos(hs, x@);
        }
        let ghost xv = x@;
        sorted.insert(p, x);
        proof {
            assert(scored_views(sorted@) =~= hs.insert(p as int, xv));
        }
        k += 1;
    }
    proof {
        assert(all.take(n as int) =~= all);
    }
    sorted
}

/// Rerank `candidates` (`(id, text)` pairs) for `query` by coverage,
/// returning the top `top_k`. Candidates covering no query term are dropped;
/// ties in coverage break by total match count, then by id ascending.
pub fn rerank(query: &str, candidates: &[(String, String)], top_k: usize) -> (r: Vec<RerankHit>)
    ensures
        scored_views(r@) == reranked(query@, candidate_views(candidates@), top_k as nat),
{
    let q = unique_tokens(query);
    if q.len() == 0 {
        return Vec::new();
    }
    let ghost qv = views(q@);
    let ghost cv = candidate_views(candidates@);
    let mut hits: Vec<RerankHit> = Vec::new();
    let mut i: usize = 0;
    proof {
        assert(cv.take(0) =~= Seq::<(Seq<char>, Seq<char>)>::empty());
    }
    while i < candidates.len()
        invariant
            qv == views(q@),
            qv == unique_of(tokens_of(query@)),
            cv == candidate_views(candidates@),
            i <= candidates@.len(),
            scored_views(hits@) == scored_of(cv.take(i as int), qv),
        decreases candidates@.len() - i,
    {
        let ts = tokens(candidates[i].1.as_str());
        let covered = covered_count(&q, &ts);
        proof {
            assert(cv.take(i + 1).drop_last() =~= cv.take(i as int));
            assert(cv.take(i + 1).last() == (candidates@[i as int].0@, candidates@[i as int].1@));
        }
        if covered > 0 {
            let matches = match_count(&q, &ts);
            let hit = RerankHit {
                id: candidates[i].0.clone(),
                text: candidates[i].1.clone(),
                covered,
                query_terms: q.len(),
                matches,
            };
            let ghost before = hits@;
            hits.push(hit);
            proof {
                assert(scored_views(hits@) =~= scored_views(before).push(hit@));
            }
        } else {
            proof {
                assert(scored_of(cv.take(i + 1), qv) =~= scored_of(cv.take(i as int), qv));
            }
        }
        i += 1;
    }
    proof {
        assert(cv.take(candidates@.len() as int) =~= cv);
    }
    let mut sorted = sort_hits(hits);
    let ghost all = scored_views(sorted@);
    sorted.truncate(top_k);
    proof {
        if (top_k as nat) < all.len() {
            assert(scored_views(sorted@) =~= all.take(top_k as int));
        } else {
            assert(scored_views(sorted@) =~= all);
        }
    }
    sorted
}

/// The rerank order as a relation.
pub open spec fn rerank_order() -> spec_fn(Scored, Scored) -> bool {
    |x: Scored, y: Scored| scored_before(x, y)
}

/// The rerank order is a strict weak order.
proof fn lemma_rerank_order()
    ensures
        forall|a: Scored, b: Scored| #[trigger] rerank_order()(a, b) ==> !rerank_order()(b, a),
        forall|a: Scored, b: Scored, c: Scored| #![trigger rerank_order()(a, b), rerank_order()(b, c)]
            !rerank_order()(a, b) && !rerank_order()(b, c) ==> !rerank_order()(a, c),
{
    assert forall|a: Scored, b: Scored| #[trigger] rerank_order()(a, b) implies !rerank_order()(
        b,
        a,
    ) by {
        if a.covered == b.covered && a.matches == b.matches && id_less(a.id, b.id) && id_less(
            b.id,
            a.id,
        ) {
            lemma_id_less_transitive(a.id, b.id, a.id);
            lemma_id_less_irreflexive(a.id);
        }
    }
    assert forall|a: Scored, b: Scored, c: Scored| #![trigger rerank_order()(a, b), rerank_order()(b, c)]
        !rerank_order()(a, b) && !rerank_order()(b, c) implies !rerank_order()(a, c) by {
        if scored_before(a, c) && !scored_before(a, b) && !scored_before(b, c) {
            assert(a.covered == b.covered && b.covered == c.covered);
            assert(a.matches == b.matches && b.matches == c.matches);
            if a.id != b.id {
                lemma_id_less_total(a.id, b.id);
            }
            if b.id != c.id {
                lemma_id_less_total(b.id, c.id);
            }
            if a.id == b.id && b.id == c.id {
                lemma_id_less_irreflexive(a.id);
            } else if a.id == b.id {
                lemma_id_less_transitive(a.id, c.id, b.id);
                lemma_id_less_irreflexive(a.id);
            } else if b.id == c.id {
                lemma_id_less_transitive(a.id, c.id, a.id);
                lemma_id_less_irreflexive(a.id);
            } else {
                lemma_id_less_transitive(c.id, b.id, a.id);
                lemma_id_less_transitive(a.id, c.id, a.id);
                lemma_id_less_irreflexive(a.id);
            }
        }
    }
}

/// Everything from the insertion point on ranks after `x`; the entry just
/// before it does not.
proof fn lemma_scored_insert_pos_order(t: Seq<Scored>, x: Scored)
    ensures
        forall|k: int| scored_insert_pos(t, x) <= k < t.len() ==> scored_before(x, #[trigger] t[k]),
        scored_insert_pos(t, x) > 0 ==> !scored_before(x, t[scored_insert_pos(t, x) - 1]),
    decreases t.len(),
{
    if t.len() > 0 && scored_before(x, t.last()) {
        lemma_scored_insert_pos_order(t.drop_last(), x);
        lemma_scored_insert_pos(t.drop_last(), x);
        assert forall|k: int| scored_insert_pos(t, x) <= k < t.len() implies scored_before(
            x,
            #[trigger] t[k],
        ) by {
            if k < t.len() - 1 {
                assert(t[k] == t.drop_last()[k]);
            }
        }
    }
}

proof fn lemma_scored_sort_sorted(s: Seq<Scored>)
    ensures
        sorted_by(scored_sort(s), rerank_order()),
    decreases s.len(),
{
    if s.len() > 0 {
        let t = scored_sort(s.drop_last());
        lemma_scored_sort_sorted(s.drop_last());
        lemma_scored_insert_pos(t, s.last());
        lemma_scored_insert_pos_order(t, s.last());
        lemma_rerank_order();
        lemma_insert_sorted(t, s.last(), scored_insert_pos(t, s.last()), rerank_order());
    }
}

/// Every hit of `scored_of` covers at least one query term.
proof fn lemma_scored_of_covers(cands: Seq<(Seq<char>, Seq<char>)>, q: Seq<Seq<char>>)
    ensures
        forall|i: int| 0 <= i < scored_of(cands, q).len() ==> (#[trigger] scored_of(cands, q)[i]).covered > 0,
    decreases cands.len(),
{
    if cands.len() > 0 {
        lemma_scored_of_covers(cands.drop_last(), q);
        let pre = scored_of(cands.drop_last(), q);
        assert forall|i: int| 0 <= i < scored_of(cands, q).len() implies (#[trigger] scored_of(
            cands,
            q,
        )[i]).covered > 0 by {
            if i < pre.len() {
                assert(scored_of(cands, q)[i] == pre[i]);
            }
        }
    }
}

/// `scored_sort` keeps the multiset of entries.
proof fn lemma_scored_sort_perm(s: Seq<Scored>)
    ensures
        scored_sort(s).to_multiset() == s.to_multiset(),
    decreases s.len(),
{
    broadcast use vstd::seq_lib::group_to_multiset_ensures;

    if s.len() > 0 {
        let t = scored_sort(s.drop_last());
        lemma_scored_sort_perm(s.drop_last());
        lemma_scored_insert_pos(t, s.last());
        t.insert_ensures(scored_insert_pos(t, s.last()), s.last());
        assert(s =~= s.drop_last().push(s.last()));
    }
}

/// A rerank answer is in rerank order (more coverage first, then more
/// matches, then smaller ids), has at most `k` hits, and each hit covers at
/// least one query term.
pub proof fn law_reranked_in_order(query: Seq<char>, cands: Seq<(Seq<char>, Seq<char>)>, k: nat)
    ensures
        sorted_by(reranked(query, cands, k), rerank_order()),
        reranked(query, cands, k).len() <= k,
        forall|i: int|
            0 <= i < reranked(query, cands, k).len() ==> (#[trigger] reranked(query, cands, k)[i]).covered
                > 0,
{
    broadcast use vstd::seq_lib::group_to_multiset_ensures;

    let q = unique_of(tokens_of(query));
    if q.len() > 0 {
        let s = scored_of(cands, q);
        let r = scored_sort(s);
        lemma_scored_sort_sorted(s);
        lemma_scored_of_covers(cands, q);
        lemma_scored_sort_perm(s);
        assert forall|i: int| 0 <= i < r.len() implies (#[trigger] r[i]).covered > 0 by {
            assert(r.contains(r[i]));
            assert(s.to_multiset().count(r[i]) > 0);
            let j = choose|j: int| 0 <= j < s.len() && s[j] == r[i];
            assert(s[j].covered > 0);
        }
        if k < r.len() {
            assert forall|i: int, j: int| 0 <= i < j < r.take(k as int).len() implies !rerank_order()(
                r.take(k as int)[j],
                r.take(k as int)[i],
            ) by {
                assert(r.take(k as int)[i] == r[i] && r.take(k as int)[j] == r[j]);
            }
            assert forall|i: int| 0 <= i < r.take(k as int).len() implies (#[trigger] r.take(
                k as int,
            )[i]).covered > 0 by {
                assert(r.take(k as int)[i] == r[i]);
            }
        }
    }
}

} // verus!
