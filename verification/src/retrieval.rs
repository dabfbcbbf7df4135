//! Lexical retrieval to ground an agent: a `DocStore` holds documents and
//! ranks them against a query by term overlap (for each distinct query term,
//! how often it appears in a document), returning the top-k. Ties break by
//! document id, so retrieval is reproducible.
use crate::rerank::{candidate_views, rerank, reranked, scored_views, Scored};
use crate::sorting::{lemma_insert_sorted, sorted_by};
use crate::text::{ascii_digit, ascii_letter, ascii_lower, ascii_text, chars_of, padded_spec, zero_padded};
use vstd::prelude::*;
use vstd::string::*;

verus! {

/// Schema version of the retrieval surface.
pub const SCHEMA_VERSION: &'static str = "1.0.0";

// ---------------------------------------------------------------------------
// Tokens.

/// Whether `c` is alphanumeric in Unicode's sense (`char::is_alphanumeric`).
pub uninterp spec fn char_alphanumeric(c: char) -> bool;

/// The Unicode lowercase of `s` (`str::to_lowercase`).
pub uninterp spec fn lowercase_of(s: Seq<char>) -> Seq<char>;

/// `char::is_alphanumeric`: its result is named by `char_alphanumeric`; on
/// an ASCII character it holds exactly of the letters and digits.
#[verifier::external_body]
fn is_alphanumeric(c: char) -> (r: bool)
    ensures
        r == char_alphanumeric(c),
        c < '\u{80}' ==> (r <==> ascii_letter(c) || ascii_digit(c)),
{
    c.is_alphanumeric()
}

/// `str::to_lowercase`: its result is named by `lowercase_of`; an ASCII
/// string maps character by character to its ASCII lowercase.
#[verifier::external_body]
fn to_lowercase(s: &str) -> (r: String)
    ensures
        r@ == lowercase_of(s@),
        (forall|i: int| 0 <= i < s@.len() ==> #[trigger] s@[i] < '\u{80}') ==> r@ == s@.map_values(
            |c: char| ascii_lower(c),
        ),
{
    s.to_lowercase()
}

/// The finished words of `cs` and the run of alphanumeric characters still
/// open at its end.
pub open spec fn word_runs(cs: Seq<char>) -> (Seq<Seq<char>>, Seq<char>)
    decreases cs.len(),
{
    if cs.len() == 0 {
        (Seq::empty(), Seq::empty())
    } else {
        let (done, cur) = word_runs(cs.drop_last());
        if char_alphanumeric(cs.last()) {
            (done, cur.push(cs.last()))
        } else if cur.len() > 0 {
            (done.push(cur), Seq::empty())
        } else {
            (done, cur)
        }
    }
}

/// The maximal non-empty runs of alphanumeric characters of `cs`.
pub open spec fn words_of(cs: Seq<char>) -> Seq<Seq<char>> {
    let (done, cur) = word_runs(cs);
    if cur.len() > 0 {
        done.push(cur)
    } else {
        done
    }
}

/// The lowercased alphanumeric word tokens of `cs`.
pub open spec fn tokens_of(cs: Seq<char>) -> Seq<Seq<char>> {
    words_of(cs).map_values(|w: Seq<char>| lowercase_of(w))
}

/// An ASCII letter or digit.
pub open spec fn ascii_alnum(c: char) -> bool {
    ascii_letter(c) || ascii_digit(c)
}

/// [`word_runs`] over ASCII text: runs of ASCII letters and digits.
pub open spec fn ascii_word_runs(cs: Seq<char>) -> (Seq<Seq<char>>, Seq<char>)
    decreases cs.len(),
{
    if cs.len() == 0 {
        (Seq::empty(), Seq::empty())
    } else {
        let (done, cur) = ascii_word_runs(cs.drop_last());
        if ascii_alnum(cs.last()) {
            (done, cur.push(cs.last()))
        } else if cur.len() > 0 {
            (done.push(cur), Seq::empty())
        } else {
            (done, cur)
        }
    }
}

/// The tokens of ASCII text: its maximal runs of ASCII letters and digits,
/// each with its letters lowercased.
pub open spec fn ascii_tokens_of(cs: Seq<char>) -> Seq<Seq<char>> {
    let (done, cur) = ascii_word_runs(cs);
    let words = if cur.len() > 0 {
        done.push(cur)
    } else {
        done
    };
    words.map_values(|w: Seq<char>| w.map_values(|c: char| ascii_lower(c)))
}

proof fn lemma_ascii_word_runs(cs: Seq<char>)
    requires
        forall|k: int| 0 <= k < cs.len() ==> (char_alphanumeric(#[trigger] cs[k]) <==> ascii_alnum(cs[k])),
    ensures
        word_runs(cs) == ascii_word_runs(cs),
    decreases cs.len(),
{
    if cs.len() > 0 {
        assert(char_alphanumeric(cs[cs.len() - 1]) <==> ascii_alnum(cs[cs.len() - 1]));
        lemma_ascii_word_runs(cs.drop_last());
    }
}

/// `ts` without repeats, each kept at its first occurrence.
pub open spec fn unique_of(ts: Seq<Seq<char>>) -> Seq<Seq<char>>
    decreases ts.len(),
{
    if ts.len() == 0 {
        ts
    } else {
        let u = unique_of(ts.drop_last());
        if u.contains(ts.last()) {
            u
        } else {
            u.push(ts.last())
        }
    }
}

/// Number of occurrences of `t` in `ts`.
pub open spec fn count_in(ts: Seq<Seq<char>>, t: Seq<char>) -> nat
    decreases ts.len(),
{
    if ts.len() == 0 {
        0
    } else {
        count_in(ts.drop_last(), t) + if ts.last() == t {
            1nat
        } else {
            0nat
        }
    }
}

/// The term-overlap score: for each query term, how often it occurs among
/// the document tokens `ts`, summed.
pub open spec fn score_of(q: Seq<Seq<char>>, ts: Seq<Seq<char>>) -> nat
    decreases q.len(),
{
    if q.len() == 0 {
        0
    } else {
        score_of(q.drop_last(), ts) + count_in(ts, q.last())
    }
}

/// Views of a vector of strings.
pub open spec fn views(v: Seq<String>) -> Seq<Seq<char>> {
    v.map_values(|s: String| s@)
}

proof fn lemma_word_runs_len(cs: Seq<char>)
    ensures
        word_runs(cs).0.len() + word_runs(cs).1.len() <= cs.len(),
    decreases cs.len(),
{
    if cs.len() > 0 {
        lemma_word_runs_len(cs.drop_last());
    }
}

/// The lowercased alphanumeric word tokens of `text`.
pub(crate) fn tokens(text: &str) -> (r: Vec<String>)
    ensures
        views(r@) == tokens_of(text@),
        ascii_text(text@) ==> tokens_of(text@) == ascii_tokens_of(text@),
{
    let cs = chars_of(text);
    let mut out: Vec<String> = Vec::new();
    let mut start: usize = 0;
    let mut i: usize = 0;
    while i < cs.len()
        invariant
            cs@ == text@,
            start <= i <= cs@.len(),
            views(out@) == word_runs(cs@.take(i as int)).0.map_values(|w: Seq<char>| lowercase_of(w)),
            word_runs(cs@.take(i as int)).1 == cs@.subrange(start as int, i as int),
            forall|k: int| 0 <= k < i && #[trigger] cs@[k] < '\u{80}' ==> (char_alphanumeric(cs@[k]) <==> ascii_alnum(cs@[k])),
            ascii_text(text@) ==> forall|j: int| 0 <= j < word_runs(cs@.take(i as int)).0.len() ==> lowercase_of(
                #[trigger] word_runs(cs@.take(i as int)).0[j],
            ) == word_runs(cs@.take(i as int)).0[j].map_values(|c: char| ascii_lower(c)),
        decreases cs@.len() - i,
    {
        let c = cs[i];
        let ghost pre = cs@.take(i as int);
        proof {
            assert(cs@.take(i + 1).drop_last() =~= pre);
            assert(cs@.take(i + 1).last() == c);
        }
        if is_alphanumeric(c) {
            proof {
                assert(cs@.subrange(start as int, i + 1) =~= cs@.subrange(start as int, i as int).push(c));
            }
        } else {
            if start < i {
                let w = text.substring_char(start, i);
                let lw = to_lowercase(w);
                let ghost before = out@;
                out.push(lw);
                proof {
                    assert(views(out@) =~= views(before).push(lowercase_of(w@)));
                    assert(word_runs(cs@.take(i + 1)).0 =~= word_runs(pre).0.push(word_runs(pre).1));
                    assert(word_runs(cs@.take(i + 1)).0.map_values(|w: Seq<char>| lowercase_of(w))
                        =~= word_runs(pre).0.map_values(|w: Seq<char>| lowercase_of(w)).push(
                        lowercase_of(word_runs(pre).1),
                    ));
                }
            }
            start = i + 1;
            proof {
                assert(cs@.subrange(start as int, i + 1) =~= Seq::<char>::empty());
            }
        }
        i += 1;
    }
    proof {
        assert(cs@.take(cs@.len() as int) =~= cs@);
    }
    if start < cs.len() {
        let w = text.substring_char(start, cs.len());
        let lw = to_lowercase(w);
        let ghost before = out@;
        out.push(lw);
        proof {
            assert(views(out@) =~= views(before).push(lowercase_of(w@)));
            assert(tokens_of(text@) =~= word_runs(cs@).0.push(word_runs(cs@).1).map_values(
                |w: Seq<char>| lowercase_of(w),
            ));
            assert(word_runs(cs@).0.push(word_runs(cs@).1).map_values(|w: Seq<char>| lowercase_of(w))
                =~= word_runs(cs@).0.map_values(|w: Seq<char>| lowercase_of(w)).push(
                lowercase_of(word_runs(cs@).1),
            ));
            if ascii_text(text@) {
                assert forall|k: int| 0 <= k < w@.len() implies #[trigger] w@[k] < '\u{80}' by {
                    assert(w@[k] == cs@[start + k]);
                }
            }
        }
    }
    proof {
        if ascii_text(text@) {
            let (done, cur) = word_runs(cs@);
            assert forall|k: int| 0 <= k < cs@.len() implies (char_alphanumeric(#[trigger] cs@[k]) <==> ascii_alnum(cs@[k])) by {
                assert(text@[k] < '\u{80}');
            }
            lemma_ascii_word_runs(cs@);
            let words = words_of(cs@);
            assert forall|j: int| 0 <= j < words.len() implies lowercase_of(#[trigger] words[j]) == words[j].map_values(
                |c: char| ascii_lower(c),
            ) by {
                if j < done.len() {
                    assert(words[j] == done[j]);
                }
            }
            assert(tokens_of(text@) =~= ascii_tokens_of(text@));
        }
    }
    out
}

/// Whether `v` holds the string `t`.
pub(crate) fn contains_str(v: &Vec<String>, t: &String) -> (r: bool)
    ensures
        r == views(v@).contains(t@),
{
    let mut i: usize = 0;
    while i < v.len()
        invariant
            i <= v@.len(),
            forall|j: int| 0 <= j < i ==> v@[j]@ != t@,
        decreases v@.len() - i,
    {
        if v[i] == *t {
            proof {
                assert(views(v@)[i as int] == t@);
            }
            return true;
        }
        i += 1;
    }
    proof {
        if views(v@).contains(t@) {
            let j = choose|j: int| 0 <= j < views(v@).len() && views(v@)[j] == t@;
            assert(v@[j]@ == t@);
        }
    }
    false
}

/// Distinct tokens of `text`, in order of first occurrence.
pub(crate) fn unique_tokens(text: &str) -> (r: Vec<String>)
    ensures
        views(r@) == unique_of(tokens_of(text@)),
        ascii_text(text@) ==> tokens_of(text@) == ascii_tokens_of(text@),
{
    let ts = tokens(text);
    let ghost all = views(ts@);
    let mut out: Vec<String> = Vec::new();
    let mut i: usize = 0;
    while i < ts.len()
        invariant
            all == views(ts@),
            i <= ts@.len(),
            views(out@) == unique_of(all.take(i as int)),
        decreases ts@.len() - i,
    {
        proof {
            assert(all.take(i + 1).drop_last() =~= all.take(i as int));
            assert(all.take(i + 1).last() == ts@[i as int]@);
        }
        if !contains_str(&out, &ts[i]) {
            let t = ts[i].clone();
            let ghost before = out@;
            out.push(t);
            proof {
                assert(views(out@) =~= views(before).push(ts@[i as int]@));
            }
        }
        i += 1;
    }
    proof {
        assert(all.take(ts@.len() as int) =~= all);
    }
    out
}

/// Per-token counts of a document: each distinct token, in order of first
/// occurrence, with how often it occurs.
pub fn token_counts(text: &str) -> (r: Vec<(String, u32)>)
    requires
        text@.len() <= u32::MAX,
    ensures
        ascii_text(text@) ==> tokens_of(text@) == ascii_tokens_of(text@),
        r@.len() == unique_of(tokens_of(text@)).len(),
        forall|i: int|
            0 <= i < r@.len() ==> (#[trigger] r@[i]).0@ == unique_of(tokens_of(text@))[i]
                && r@[i].1 == count_in(tokens_of(text@), r@[i].0@),
{
    let ts = tokens(text);
    let u = unique_tokens(text);
    proof {
        lemma_tokens_len(text@);
    }
    let mut out: Vec<(String, u32)> = Vec::new();
    let mut i: usize = 0;
    while i < u.len()
        invariant
            views(ts@) == tokens_of(text@),
            views(u@) == unique_of(tokens_of(text@)),
            ts@.len() <= u32::MAX,
            i <= u@.len(),
            out@.len() == i,
            forall|j: int|
                0 <= j < i ==> (#[trigger] out@[j]).0@ == views(u@)[j] && out@[j].1 == count_in(
                    tokens_of(text@),
                    out@[j].0@,
                ),
        decreases u@.len() - i,
    {
        let n = count_str(&ts, &u[i]);
        let t = u[i].clone();
        proof {
            assert(views(u@)[i as int] == u@[i as int]@);
        }
        out.push((t, n as u32));
        i += 1;
    }
    out
}

/// Occurrences of `t` among `ts`.
pub(crate) fn count_str(ts: &Vec<String>, t: &String) -> (n: usize)
    ensures
        n == count_in(views(ts@), t@),
        n <= ts@.len(),
{
    let ghost all = views(ts@);
    let mut n: usize = 0;
    let mut i: usize = 0;
    while i < ts.len()
        invariant
            all == views(ts@),
            i <= ts@.len(),
            n == count_in(all.take(i as int), t@),
            n <= i,
        decreases ts@.len() - i,
    {
        proof {
            assert(all.take(i + 1).drop_last() =~= all.take(i as int));
            assert(all.take(i + 1).last() == ts@[i as int]@);
        }
        if ts[i] == *t {
            n += 1;
        }
        i += 1;
    }
    proof {
        assert(all.take(ts@.len() as int) =~= all);
    }
    n
}

/// No element of `s` occurs twice.
pub open spec fn no_dups(s: Seq<Seq<char>>) -> bool {
    forall|i: int, j: int| 0 <= i < j < s.len() ==> s[i] != s[j]
}

proof fn lemma_unique_no_dups(ts: Seq<Seq<char>>)
    ensures
        no_dups(unique_of(ts)),
    decreases ts.len(),
{
    if ts.len() > 0 {
        lemma_unique_no_dups(ts.drop_last());
    }
}

proof fn lemma_count_push(q: Seq<Seq<char>>, ts: Seq<Seq<char>>, x: Seq<char>)
    ensures
        score_of(q, ts.push(x)) == score_of(q, ts) + count_in(q, x),
    decreases q.len(),
{
    if q.len() > 0 {
        lemma_count_push(q.drop_last(), ts, x);
        assert(ts.push(x).drop_last() =~= ts);
    }
}

proof fn lemma_count_absent(q: Seq<Seq<char>>, x: Seq<char>)
    requires
        !q.contains(x),
    ensures
        count_in(q, x) == 0,
    decreases q.len(),
{
    if q.len() > 0 {
        assert(!q.drop_last().contains(x)) by {
            if q.drop_last().contains(x) {
                let j = choose|j: int| 0 <= j < q.drop_last().len() && q.drop_last()[j] == x;
                assert(q[j] == x);
            }
        }
        lemma_count_absent(q.drop_last(), x);
    }
}

proof fn lemma_count_distinct(q: Seq<Seq<char>>, x: Seq<char>)
    requires
        no_dups(q),
    ensures
        count_in(q, x) <= 1,
    decreases q.len(),
{
    if q.len() > 0 {
        let p = q.drop_last();
        if q.last() == x {
            assert(!p.contains(x)) by {
                if p.contains(x) {
                    let j = choose|j: int| 0 <= j < p.len() && p[j] == x;
                    assert(q[j] == q[q.len() - 1]);
                }
            }
            lemma_count_absent(p, x);
        } else {
            lemma_count_distinct(p, x);
        }
    }
}

proof fn lemma_score_empty(q: Seq<Seq<char>>)
    ensures
        score_of(q, Seq::empty()) == 0,
    decreases q.len(),
{
    if q.len() > 0 {
        lemma_score_empty(q.drop_last());
    }
}

/// With distinct query terms the score never exceeds the number of tokens.
proof fn lemma_score_bound(q: Seq<Seq<char>>, ts: Seq<Seq<char>>)
    requires
        no_dups(q),
    ensures
        score_of(q, ts) <= ts.len(),
    decreases ts.len(),
{
    if ts.len() == 0 {
        lemma_score_empty(q);
        assert(ts =~= Seq::<Seq<char>>::empty());
    } else {
        lemma_score_bound(q, ts.drop_last());
        lemma_count_push(q, ts.drop_last(), ts.last());
        lemma_count_distinct(q, ts.last());
        assert(ts.drop_last().push(ts.last()) =~= ts);
    }
}

// ---------------------------------------------------------------------------
// Documents and ranking.

/// A stored document.
#[derive(Debug, Clone, PartialEq, Eq)]
pub struct Document {
    /// Stable identifier.
    pub id: String,
    /// Document text.
    pub text: String,
}

/// A document with its retrieval score.
#[derive(Debug, Clone, PartialEq)]
pub struct ScoredDoc {
    /// The document's id.
    pub id: String,
    /// The document's text.
    pub text: String,
    /// Term-overlap score against the query (higher = more relevant).
    pub score: u32,
}

/// The abstract value of a scored document.
pub ghost struct Hit {
    /// The document's id.
    pub id: Seq<char>,
    /// The document's text.
    pub text: Seq<char>,
    /// Its score.
    pub score: nat,
}

impl View for ScoredDoc {
    type V = Hit;

    open spec fn view(&self) -> Hit {
        Hit { id: self.id@, text: self.text@, score: self.score as nat }
    }
}

/// Views of scored documents.
pub open spec fn hit_views(v: Seq<ScoredDoc>) -> Seq<Hit> {
    v.map_values(|d: ScoredDoc| d@)
}

/// `a` comes before `b` in code-point order, which is the byte order of their
/// UTF-8 encodings.
pub open spec fn id_less(a: Seq<char>, b: Seq<char>) -> bool
    decreases a.len(),
{
    if a.len() == 0 {
        b.len() > 0
    } else if b.len() == 0 {
        false
    } else if a[0] != b[0] {
        (a[0] as u32) < (b[0] as u32)
    } else {
        id_less(a.drop_first(), b.drop_first())
    }
}

/// `x` ranks strictly before `y`: a higher score, or an equal score and a
/// smaller id.
pub open spec fn hit_before(x: Hit, y: Hit) -> bool {
    x.score > y.score || (x.score == y.score && id_less(x.id, y.id))
}

/// Where `x` goes in the ranked `t`: after every hit that does not rank
/// strictly after it.
pub open spec fn hit_insert_pos(t: Seq<Hit>, x: Hit) -> int
    decreases t.len(),
{
    if t.len() == 0 {
        0
    } else if hit_before(x, t.last()) {
        hit_insert_pos(t.drop_last(), x)
    } else {
        t.len() as int
    }
}

/// `s` stably sorted by score descending, then id ascending.
pub open spec fn rank_sort(s: Seq<Hit>) -> Seq<Hit>
    decreases s.len(),
{
    if s.len() == 0 {
        s
    } else {
        let t = rank_sort(s.drop_last());
        t.insert(hit_insert_pos(t, s.last()), s.last())
    }
}

/// The documents of `docs` (id, text) with a positive score against the
/// query terms `q`, in store order.
pub open spec fn hits_of(docs: Seq<(Seq<char>, Seq<char>)>, q: Seq<Seq<char>>) -> Seq<Hit>
    decreases docs.len(),
{
    if docs.len() == 0 {
        Seq::empty()
    } else {
        let d = docs.last();
        let s = score_of(q, tokens_of(d.1));
        hits_of(docs.drop_last(), q) + if s > 0 {
            seq![Hit { id: d.0, text: d.1, score: s }]
        } else {
            Seq::empty()
        }
    }
}

/// The answer to a query: the documents with a positive score against its
/// distinct terms, ranked, at most `k` of them.
pub open spec fn ranked(docs: Seq<(Seq<char>, Seq<char>)>, query: Seq<char>, k: nat) -> Seq<Hit> {
    let r = rank_sort(hits_of(docs, unique_of(tokens_of(query))));
    if k < r.len() {
        r.take(k as int)
    } else {
        r
    }
}

proof fn lemma_hit_insert_pos(t: Seq<Hit>, x: Hit)
    ensures
        0 <= hit_insert_pos(t, x) <= t.len(),
    decreases t.len(),
{
    if t.len() > 0 {
        lemma_hit_insert_pos(t.drop_last(), x);
    }
}

/// `id_less` never relates an id to itself.
pub proof fn lemma_id_less_irreflexive(a: Seq<char>)
    ensures
        !id_less(a, a),
    decreases a.len(),
{
    if a.len() > 0 {
        lemma_id_less_irreflexive(a.drop_first());
    }
}

/// `id_less` is transitive.
pub proof fn lemma_id_less_transitive(a: Seq<char>, b: Seq<char>, c: Seq<char>)
    requires
        id_less(a, b),
        id_less(b, c),
    ensures
        id_less(a, c),
    decreases a.len(),
{
    if a.len() > 0 && a[0] == b[0] && b[0] == c[0] {
        lemma_id_less_transitive(a.drop_first(), b.drop_first(), c.drop_first());
    }
}

/// Of two different ids, one is `id_less` than the other.
pub proof fn lemma_id_less_total(a: Seq<char>, b: Seq<char>)
    requires
        a != b,
    ensures
        id_less(a, b) || id_less(b, a),
    decreases a.len(),
{
    if a.len() > 0 && b.len() > 0 && a[0] == b[0] {
        assert(a =~= seq![a[0]] + a.drop_first());
        assert(b =~= seq![b[0]] + b.drop_first());
        lemma_id_less_total(a.drop_first(), b.drop_first());
    } else if a.len() == 0 && b.len() == 0 {
        assert(a =~= b);
    } else if a.len() > 0 && b.len() > 0 {
        vstd::utf8::char_u32_cast(a[0], a[0] as u32);
        vstd::utf8::char_u32_cast(b[0], b[0] as u32);
    }
}

/// The ranking order as a relation.
pub open spec fn rank_order() -> spec_fn(Hit, Hit) -> bool {
    |x: Hit, y: Hit| hit_before(x, y)
}

/// The ranking order is a strict weak order.
proof fn lemma_rank_order()
    ensures
        forall|a: Hit, b: Hit| #[trigger] rank_order()(a, b) ==> !rank_order()(b, a),
        forall|a: Hit, b: Hit, c: Hit| #![trigger rank_order()(a, b), rank_order()(b, c)]
            !rank_order()(a, b) && !rank_order()(b, c) ==> !rank_order()(a, c),
{
    assert forall|a: Hit, b: Hit| #[trigger] rank_order()(a, b) implies !rank_order()(b, a) by {
        if a.score == b.score && id_less(a.id, b.id) && id_less(b.id, a.id) {
            lemma_id_less_transitive(a.id, b.id, a.id);
            lemma_id_less_irreflexive(a.id);
        }
    }
    assert forall|a: Hit, b: Hit, c: Hit| #![trigger rank_order()(a, b), rank_order()(b, c)]
        !rank_order()(a, b) && !rank_order()(b, c) implies !rank_order()(a, c) by {
        if hit_before(a, c) && !hit_before(a, b) && !hit_before(b, c) {
            assert(a.score == b.score && b.score == c.score);
            if a.id != b.id {
                lemma_id_less_total(a.id, b.id);
            }
            if b.id != c.id {
                lemma_id_less_total(b.id, c.id);
            }
            if a.id == b.id && b.id == c.id {
                lemma_id_less_irreflexive(a.id);
            } else if a.id == b.id {
                lemma_id_less_transitive(a.id, c.id, b.id);
                lemma_id_less_irreflexive(a.id);
            } else if b.id == c.id {
                lemma_id_less_transitive(a.id, c.id, a.id);
                lemma_id_less_irreflexive(a.id);
            } else {
                lemma_id_less_transitive(c.id, b.id, a.id);
                lemma_id_less_transitive(a.id, c.id, a.id);
                lemma_id_less_irreflexive(a.id);
            }
        }
    }
}

/// Everything from the insertion point on ranks after `x`; the entry just
/// before it does not.
proof fn lemma_hit_insert_pos_order(t: Seq<Hit>, x: Hit)
    ensures
        forall|k: int| hit_insert_pos(t, x) <= k < t.len() ==> hit_before(x, #[trigger] t[k]),
        hit_insert_pos(t, x) > 0 ==> !hit_before(x, t[hit_insert_pos(t, x) - 1]),
    decreases t.len(),
{
    if t.len() > 0 && hit_before(x, t.last()) {
        lemma_hit_insert_pos_order(t.drop_last(), x);
        lemma_hit_insert_pos(t.drop_last(), x);
        assert forall|k: int| hit_insert_pos(t, x) <= k < t.len() implies hit_before(x, #[trigger] t[k]) by {
            if k < t.len() - 1 {
                assert(t[k] == t.drop_last()[k]);
            }
        }
    }
}

/// `rank_sort` sorts by the ranking order.
proof fn lemma_rank_sort_sorted(s: Seq<Hit>)
    ensures
        sorted_by(rank_sort(s), rank_order()),
    decreases s.len(),
{
    if s.len() > 0 {
        let t = rank_sort(s.drop_last());
        lemma_rank_sort_sorted(s.drop_last());
        lemma_hit_insert_pos(t, s.last());
        lemma_hit_insert_pos_order(t, s.last());
        lemma_rank_order();
        lemma_insert_sorted(t, s.last(), hit_insert_pos(t, s.last()), rank_order());
    }
}

/// A query's answer is in rank order: scores never increase along it, and
/// equal scores come in ascending id order.
pub proof fn law_ranked_in_rank_order(docs: Seq<(Seq<char>, Seq<char>)>, query: Seq<char>, k: nat)
    ensures
        sorted_by(ranked(docs, query, k), rank_order()),
{
    let r = rank_sort(hits_of(docs, unique_of(tokens_of(query))));
    lemma_rank_sort_sorted(hits_of(docs, unique_of(tokens_of(query))));
    if k < r.len() {
        assert forall|i: int, j: int| 0 <= i < j < r.take(k as int).len() implies !rank_order()(
            r.take(k as int)[j],
            r.take(k as int)[i],
        ) by {
            assert(r.take(k as int)[i] == r[i] && r.take(k as int)[j] == r[j]);
        }
    }
}

proof fn lemma_rank_sort_members(s: Seq<Hit>)
    ensures
        rank_sort(s).len() == s.len(),
        forall|k: int| 0 <= k < rank_sort(s).len() ==> s.contains(#[trigger] rank_sort(s)[k]),
        forall|k: int| 0 <= k < s.len() ==> rank_sort(s).contains(#[trigger] s[k]),
    decreases s.len(),
{
    if s.len() > 0 {
        let t = rank_sort(s.drop_last());
        lemma_rank_sort_members(s.drop_last());
        lemma_hit_insert_pos(t, s.last());
        let p = hit_insert_pos(t, s.last());
        assert forall|k: int| 0 <= k < s.len() implies rank_sort(s).contains(#[trigger] s[k]) by {
            if k == s.len() - 1 {
                assert(rank_sort(s)[p] == s.last());
            } else {
                assert(s.drop_last()[k] == s[k]);
                let m = choose|m: int| 0 <= m < t.len() && t[m] == s[k];
                if m < p {
                    assert(rank_sort(s)[m] == s[k]);
                } else {
                    assert(rank_sort(s)[m + 1] == s[k]);
                }
            }
        }
        assert forall|k: int| 0 <= k < rank_sort(s).len() implies s.contains(#[trigger] rank_sort(s)[k]) by {
            if k < p {
                assert(rank_sort(s)[k] == t[k]);
                assert(s.drop_last().contains(t[k]));
            } else if k == p {
                assert(rank_sort(s)[k] == s.last());
                assert(s[s.len() - 1] == s.last());
            } else {
                assert(rank_sort(s)[k] == t[k - 1]);
                assert(s.drop_last().contains(t[k - 1]));
            }
        }
    }
}

proof fn lemma_hits_of_members(docs: Seq<(Seq<char>, Seq<char>)>, q: Seq<Seq<char>>)
    ensures
        forall|h: Hit| #[trigger] hits_of(docs, q).contains(h) ==> {
            &&& h.score > 0
            &&& h.score == score_of(q, tokens_of(h.text))
            &&& docs.contains((h.id, h.text))
        },
        forall|i: int| 0 <= i < docs.len() && score_of(q, tokens_of(#[trigger] docs[i].1)) > 0
            ==> hits_of(docs, q).contains(Hit { id: docs[i].0, text: docs[i].1, score: score_of(q, tokens_of(docs[i].1)) }),
    decreases docs.len(),
{
    if docs.len() > 0 {
        lemma_hits_of_members(docs.drop_last(), q);
        assert forall|i: int| 0 <= i < docs.len() && score_of(q, tokens_of(#[trigger] docs[i].1)) > 0
            implies hits_of(docs, q).contains(Hit { id: docs[i].0, text: docs[i].1, score: score_of(q, tokens_of(docs[i].1)) }) by {
            let h = Hit { id: docs[i].0, text: docs[i].1, score: score_of(q, tokens_of(docs[i].1)) };
            let rest = hits_of(docs.drop_last(), q);
            if i < docs.len() - 1 {
                assert(docs.drop_last()[i] == docs[i]);
                let m = choose|m: int| 0 <= m < rest.len() && rest[m] == h;
                assert(hits_of(docs, q)[m] == h);
            } else {
                assert(hits_of(docs, q)[rest.len() as int] == h);
            }
        }
        let d = docs.last();
        let sc = score_of(q, tokens_of(d.1));
        let rest = hits_of(docs.drop_last(), q);
        let tail = if sc > 0 {
            seq![Hit { id: d.0, text: d.1, score: sc }]
        } else {
            Seq::<Hit>::empty()
        };
        assert forall|h: Hit| #[trigger] hits_of(docs, q).contains(h) implies {
            &&& h.score > 0
            &&& h.score == score_of(q, tokens_of(h.text))
            &&& docs.contains((h.id, h.text))
        } by {
            let j = choose|j: int| 0 <= j < hits_of(docs, q).len() && hits_of(docs, q)[j] == h;
            if j < rest.len() {
                assert(rest[j] == h);
                assert(rest.contains(h));
                let i = choose|i: int| 0 <= i < docs.drop_last().len() && docs.drop_last()[i] == (h.id, h.text);
                assert(docs[i] == (h.id, h.text));
            } else {
                assert(tail[j - rest.len()] == h);
                assert(docs[docs.len() - 1] == d);
            }
        }
    }
}

/// Every document a query returns matches it: its score is positive and is
/// the number of occurrences of the query's distinct terms among its tokens,
/// and it is one of the stored documents. As many come back as match, up to
/// `k`; when no more than `k` match, every matching document comes back.
pub proof fn law_ranked_hits_are_matching_documents(
    docs: Seq<(Seq<char>, Seq<char>)>,
    query: Seq<char>,
    k: nat,
)
    ensures
        ranked(docs, query, k).len() <= k,
        forall|j: int|
            0 <= j < ranked(docs, query, k).len() ==> {
                let h = #[trigger] ranked(docs, query, k)[j];
                &&& h.score > 0
                &&& h.score == score_of(unique_of(tokens_of(query)), tokens_of(h.text))
                &&& docs.contains((h.id, h.text))
            },
        ranked(docs, query, k).len() == if k < hits_of(docs, unique_of(tokens_of(query))).len() {
            k as int
        } else {
            hits_of(docs, unique_of(tokens_of(query))).len() as int
        },
        hits_of(docs, unique_of(tokens_of(query))).len() <= k ==> forall|i: int|
            0 <= i < docs.len() && score_of(unique_of(tokens_of(query)), tokens_of(#[trigger] docs[i].1)) > 0
                ==> ranked(docs, query, k).contains(
                Hit {
                    id: docs[i].0,
                    text: docs[i].1,
                    score: score_of(unique_of(tokens_of(query)), tokens_of(docs[i].1)),
                },
            ),
{
    let q = unique_of(tokens_of(query));
    let hs = hits_of(docs, q);
    let r = rank_sort(hs);
    lemma_rank_sort_members(hs);
    lemma_hits_of_members(docs, q);
    assert forall|j: int| 0 <= j < ranked(docs, query, k).len() implies {
        let h = #[trigger] ranked(docs, query, k)[j];
        &&& h.score > 0
        &&& h.score == score_of(q, tokens_of(h.text))
        &&& docs.contains((h.id, h.text))
    } by {
        assert(ranked(docs, query, k)[j] == r[j]);
        assert(hs.contains(r[j]));
    }
    if hs.len() <= k {
        assert forall|i: int|
            0 <= i < docs.len() && score_of(q, tokens_of(#[trigger] docs[i].1)) > 0 implies ranked(docs, query, k).contains(
            Hit { id: docs[i].0, text: docs[i].1, score: score_of(q, tokens_of(docs[i].1)) },
        ) by {
            let h = Hit { id: docs[i].0, text: docs[i].1, score: score_of(q, tokens_of(docs[i].1)) };
            let m = choose|m: int| 0 <= m < hs.len() && hs[m] == h;
            assert(r.contains(hs[m]));
        }
    }
}

/// Whether `a` comes before `b` in code-point order.
pub(crate) fn str_less(a: &String, b: &String) -> (r: bool)
    ensures
        r == id_less(a@, b@),
{
    let x = chars_of(a.as_str());
    let y = chars_of(b.as_str());
    let mut i: usize = 0;
    assert(a@.skip(0) =~= a@);
    assert(b@.skip(0) =~= b@);
    while i < x.len() && i < y.len() && x[i] == y[i]
        invariant
            x@ == a@,
            y@ == b@,
            i <= x@.len(),
            i <= y@.len(),
            id_less(a@, b@) == id_less(a@.skip(i as int), b@.skip(i as int)),
        decreases x@.len() - i,
    {
        proof {
            assert(a@.skip(i as int).drop_first() =~= a@.skip(i + 1));
            assert(b@.skip(i as int).drop_first() =~= b@.skip(i + 1));
        }
        i += 1;
    }
    if i == x.len() {
        i < y.len()
    } else if i == y.len() {
        false
    } else {
        (x[i] as u32) < (y[i] as u32)
    }
}

fn ranks_before(x: &ScoredDoc, y: &ScoredDoc) -> (r: bool)
    ensures
        r == hit_before(x@, y@),
{
    x.score > y.score || (x.score == y.score && str_less(&x.id, &y.id))
}

/// Stable insertion sort by score descending, then id ascending.
fn rank(v: Vec<ScoredDoc>) -> (r: Vec<ScoredDoc>)
    ensures
        hit_views(r@) == rank_sort(hit_views(v@)),
{
    let ghost all = hit_views(v@);
    let mut src = v;
    let mut rev: Vec<ScoredDoc> = Vec::new();
    while src.len() > 0
        invariant
            src@.len() + rev@.len() == all.len(),
            forall|j: int| 0 <= j < src@.len() ==> (#[trigger] src@[j])@ == all[j],
            forall|j: int| 0 <= j < rev@.len() ==> (#[trigger] rev@[j])@ == all[all.len() - 1 - j],
        decreases src@.len(),
    {
        let x = src.pop().unwrap();
        rev.push(x);
    }
    let n = rev.len();
    let mut sorted: Vec<ScoredDoc> = Vec::new();
    let mut k: usize = 0;
    proof {
        assert(all.take(0) =~= Seq::<Hit>::empty());
    }
    while k < n
        invariant
            n == all.len(),
            k <= n,
            rev@.len() == n - k,
            forall|j: int| 0 <= j < rev@.len() ==> (#[trigger] rev@[j])@ == all[n - 1 - j],
            hit_views(sorted@) == rank_sort(all.take(k as int)),
        decreases n - k,
    {
        let x = rev.pop().unwrap();
        let ghost hs = hit_views(sorted@);
        let mut p = sorted.len();
        proof {
            assert(hs.take(p as int) =~= hs);
        }
        while p > 0 && ranks_before(&x, &sorted[p - 1])
            invariant
                p <= sorted@.len(),
                hs == hit_views(sorted@),
                hit_insert_pos(hs.take(p as int), x@) == hit_insert_pos(hs, x@),
            decreases p,
        {
            proof {
                assert(hs.take(p as int).drop_last() =~= hs.take(p - 1));
                assert(hs.take(p as int).last() == sorted@[p - 1]@);
            }
            p -= 1;
        }
        proof {
            if p > 0 {
                assert(hs.take(p as int).last() == sorted@[p - 1]@);
            }
            assert(x@ == all[k as int]);
            assert(all.take(k + 1).drop_last() =~= all.take(k as int));
            lemma_hit_insert_pos(hs, x@);
        }
        let ghost xv = x@;
        sorted.insert(p, x);
        proof {
            assert(hit_views(sorted@) =~= hs.insert(p as int, xv));
        }
        k += 1;
    }
    proof {
        assert(all.take(n as int) =~= all);
    }
    sorted
}

/// Anything that can return the texts of the top-`k` documents for a query.
pub trait Retriever {
    /// The texts of the top-`k` documents most relevant to `query`.
    fn retrieve_context(&self, query: &str, k: usize) -> Vec<String>;
}

/// A lexical document store.
#[derive(Debug, Clone, PartialEq)]
pub struct DocStore {
    docs: Vec<Document>,
}

impl View for DocStore {
    type V = Seq<(Seq<char>, Seq<char>)>;

    closed spec fn view(&self) -> Seq<(Seq<char>, Seq<char>)> {
        self.docs@.map_values(|d: Document| (d.id@, d.text@))
    }
}

impl Default for DocStore {
    fn default() -> (r: Self)
        ensures
            r@ == Seq::<(Seq<char>, Seq<char>)>::empty(),
    {
        DocStore::new()
    }
}

impl DocStore {
    /// An empty store.
    pub fn new() -> (r: Self)
        ensures
            r@ == Seq::<(Seq<char>, Seq<char>)>::empty(),
    {
        let r = DocStore { docs: Vec::new() };
        assert(r@ =~= Seq::<(Seq<char>, Seq<char>)>::empty());
        r
    }

    /// Add a document (later additions with the same id are kept as
    /// duplicates; callers control ids).
    pub fn add(&mut self, id: &str, text: &str)
        ensures
            final(self)@ == old(self)@.push((id@, text@)),
    {
        self.docs.push(Document { id: id.to_owned(), text: text.to_owned() });
        assert(self@ =~= old(self)@.push((id@, text@)));
    }

    /// Number of documents.
    pub fn len(&self) -> (n: usize)
        ensures
            n == self@.len(),
    {
        self.docs.len()
    }

    /// Whether the store is empty.
    pub fn is_empty(&self) -> (r: bool)
        ensures
            r == (self@.len() == 0),
    {
        self.docs.len() == 0
    }

    /// Retrieve the top-`k` documents for `query` by term overlap. Documents
    /// with zero overlap are excluded. Ties (equal score) break by id
    /// ascending.
    pub fn retrieve(&self, query: &str, k: usize) -> (r: Vec<ScoredDoc>)
        requires
            forall|i: int| 0 <= i < self@.len() ==> (#[trigger] self@[i]).1.len() <= u32::MAX,
        ensures
            hit_views(r@) == ranked(self@, query@, k as nat),
            ascii_text(query@) ==> tokens_of(query@) == ascii_tokens_of(query@),
            forall|j: int| 0 <= j < self@.len() && ascii_text(#[trigger] self@[j].1) ==> tokens_of(self@[j].1) == ascii_tokens_of(self@[j].1),
    {
        let q_terms = unique_tokens(query);
        let ghost q = views(q_terms@);
        proof {
            lemma_unique_no_dups(tokens_of(query@));
        }
        let mut scored: Vec<ScoredDoc> = Vec::new();
        let mut i: usize = 0;
        proof {
            assert(self@.take(0) =~= Seq::<(Seq<char>, Seq<char>)>::empty());
        }
        while i < self.docs.len()
            invariant
                q == views(q_terms@),
                no_dups(q),
                q == unique_of(tokens_of(query@)),
                i <= self.docs@.len(),
                self@ == self.docs@.map_values(|d: Document| (d.id@, d.text@)),
                forall|j: int| 0 <= j < self@.len() ==> (#[trigger] self@[j]).1.len() <= u32::MAX,
                hit_views(scored@) == hits_of(self@.take(i as int), q),
                ascii_text(query@) ==> tokens_of(query@) == ascii_tokens_of(query@),
                forall|j: int| 0 <= j < i && ascii_text(#[trigger] self@[j].1) ==> tokens_of(self@[j].1) == ascii_tokens_of(self@[j].1),
            decreases self.docs@.len() - i,
        {
            let d = &self.docs[i];
            let dt = tokens(d.text.as_str());
            let ghost ts = views(dt@);
            let mut score: u32 = 0;
            let mut t: usize = 0;
            proof {
                assert(self@[i as int] == (d.id@, d.text@));
                lemma_tokens_len(d.text@);
                lemma_score_bound(q, ts);
            }
            while t < q_terms.len()
                invariant
                    q == views(q_terms@),
                    no_dups(q),
                    ts == views(dt@),
                    score_of(q, ts) <= u32::MAX,
                    t <= q_terms@.len(),
                    score == score_of(q.take(t as int), ts),
                decreases q_terms@.len() - t,
            {
                let c = count_str(&dt, &q_terms[t]);
                proof {
                    assert(q.take(t + 1).drop_last() =~= q.take(t as int));
                    assert(q.take(t + 1).last() == q_terms@[t as int]@);
                    lemma_score_prefix(q, ts, t + 1);
                }
                score = score + c as u32;
                t += 1;
            }
            proof {
                assert(q.take(q.len() as int) =~= q);
                assert(self@.take(i + 1).drop_last() =~= self@.take(i as int));
                assert(self@.take(i + 1).last() == self@[i as int]);
            }
            if score > 0 {
                let ghost before = scored@;
                scored.push(ScoredDoc { id: d.id.clone(), text: d.text.clone(), score });
                proof {
                    assert(hit_views(scored@) =~= hit_views(before).push(
                        Hit { id: d.id@, text: d.text@, score: score as nat },
                    ));
                }
            }
            i += 1;
        }
        proof {
            assert(self@.take(self@.len() as int) =~= self@);
        }
        let mut sorted = rank(scored);
        let ghost full = hit_views(sorted@);
        sorted.truncate(k);
        proof {
            if (k as nat) < full.len() {
                assert(hit_views(sorted@) =~= full.take(k as int));
            } else {
                assert(hit_views(sorted@) =~= full);
            }
        }
        sorted
    }
}

/// The integer inputs of a BM25 ranking for one stored document.
#[derive(Debug, Clone, PartialEq, Eq)]
pub struct Bm25DocCounts {
    /// The document's id.
    pub id: String,
    /// The document's text.
    pub text: String,
    /// How many tokens the document has.
    pub len: usize,
    /// Occurrences of each query term in the document, in query-term order.
    pub tf: Vec<usize>,
}

/// The integer inputs of a BM25 ranking: the distinct query terms, how many
/// documents hold each, and every document's length and term counts.
#[derive(Debug, Clone, PartialEq, Eq)]
pub struct Bm25Counts {
    /// Distinct query terms, in order of first occurrence.
    pub terms: Vec<String>,
    /// For each term, the number of documents that contain it.
    pub doc_freq: Vec<usize>,
    /// Per document, in store order.
    pub docs: Vec<Bm25DocCounts>,
}

/// The texts of stored documents.
pub open spec fn doc_texts(docs: Seq<(Seq<char>, Seq<char>)>) -> Seq<Seq<char>> {
    docs.map_values(|d: (Seq<char>, Seq<char>)| d.1)
}

/// How many of `texts` contain the token `t`.
pub open spec fn doc_freq_of(texts: Seq<Seq<char>>, t: Seq<char>) -> nat
    decreases texts.len(),
{
    if texts.len() == 0 {
        0
    } else {
        doc_freq_of(texts.drop_last(), t) + if count_in(tokens_of(texts.last()), t) > 0 {
            1nat
        } else {
            0nat
        }
    }
}

impl Bm25Counts {
    /// `self` holds exactly the BM25 inputs of `docs` for `query`.
    pub open spec fn counts_of(&self, docs: Seq<(Seq<char>, Seq<char>)>, query: Seq<char>) -> bool {
        &&& views(self.terms@) == unique_of(tokens_of(query))
        &&& self.doc_freq@.len() == self.terms@.len()
        &&& forall|j: int| 0 <= j < self.terms@.len() ==> #[trigger] self.doc_freq@[j]
            == doc_freq_of(doc_texts(docs), self.terms@[j]@)
        &&& self.docs@.len() == docs.len()
        &&& forall|i: int| 0 <= i < docs.len() ==> (#[trigger] self.docs@[i]).counts_of(docs[i], self.terms@)
    }
}

impl Bm25DocCounts {
    /// `self` holds the length and term counts of `doc` for `terms`.
    pub open spec fn counts_of(&self, doc: (Seq<char>, Seq<char>), terms: Seq<String>) -> bool {
        &&& self.id@ == doc.0
        &&& self.text@ == doc.1
        &&& self.len == tokens_of(doc.1).len()
        &&& self.tf@.len() == terms.len()
        &&& forall|j: int| 0 <= j < terms.len() ==> #[trigger] self.tf@[j] == count_in(tokens_of(doc.1), terms[j]@)
    }
}

impl DocStore {
    /// The integer part of a BM25 ranking of the store for `query`: the
    /// distinct query terms, their document frequencies, and each document's
    /// token count and term frequencies. The weighting itself is floating
    /// point and is applied to these counts by the caller.
    pub fn bm25_counts(&self, query: &str) -> (r: Bm25Counts)
        ensures
            r.counts_of(self@, query@),
            ascii_text(query@) ==> tokens_of(query@) == ascii_tokens_of(query@),
            forall|j: int| 0 <= j < self@.len() && ascii_text(#[trigger] self@[j].1) ==> tokens_of(self@[j].1) == ascii_tokens_of(self@[j].1),
    {
        let terms = unique_tokens(query);
        let mut docs: Vec<Bm25DocCounts> = Vec::new();
        let mut i: usize = 0;
        while i < self.docs.len()
            invariant
                views(terms@) == unique_of(tokens_of(query@)),
                i <= self.docs@.len(),
                self@ == self.docs@.map_values(|d: Document| (d.id@, d.text@)),
                docs@.len() == i,
                forall|k: int| 0 <= k < i ==> (#[trigger] docs@[k]).counts_of(self@[k], terms@),
                ascii_text(query@) ==> tokens_of(query@) == ascii_tokens_of(query@),
                forall|j: int| 0 <= j < i && ascii_text(#[trigger] self@[j].1) ==> tokens_of(self@[j].1) == ascii_tokens_of(self@[j].1),
            decreases self.docs@.len() - i,
        {
            let d = &self.docs[i];
            let dt = tokens(d.text.as_str());
            let mut tf: Vec<usize> = Vec::new();
            let mut t: usize = 0;
            while t < terms.len()
                invariant
                    views(dt@) == tokens_of(d.text@),
                    t <= terms@.len(),
                    tf@.len() == t,
                    forall|j: int| 0 <= j < t ==> #[trigger] tf@[j] == count_in(tokens_of(d.text@), terms@[j]@),
                decreases terms@.len() - t,
            {
                let c = count_str(&dt, &terms[t]);
                tf.push(c);
                t += 1;
            }
            proof {
                assert(self@[i as int] == (d.id@, d.text@));
            }
            docs.push(Bm25DocCounts { id: d.id.clone(), text: d.text.clone(), len: dt.len(), tf });
            i += 1;
        }
        let ghost texts = doc_texts(self@);
        let mut doc_freq: Vec<usize> = Vec::new();
        let mut t: usize = 0;
        while t < terms.len()
            invariant
                texts == doc_texts(self@),
                docs@.len() == self@.len(),
                forall|k: int| 0 <= k < self@.len() ==> (#[trigger] docs@[k]).counts_of(self@[k], terms@),
                t <= terms@.len(),
                doc_freq@.len() == t,
                forall|j: int| 0 <= j < t ==> #[trigger] doc_freq@[j] == doc_freq_of(texts, terms@[j]@),
            decreases terms@.len() - t,
        {
            let mut df: usize = 0;
            let mut k: usize = 0;
            while k < docs.len()
                invariant
                    texts == doc_texts(self@),
                    docs@.len() == self@.len(),
                    forall|m: int| 0 <= m < self@.len() ==> (#[trigger] docs@[m]).counts_of(self@[m], terms@),
                    t < terms@.len(),
                    k <= docs@.len(),
                    df <= k,
                    df == doc_freq_of(texts.take(k as int), terms@[t as int]@),
                decreases docs@.len() - k,
            {
                proof {
                    assert(texts.take(k + 1).drop_last() =~= texts.take(k as int));
                    assert(texts.take(k + 1).last() == self@[k as int].1);
                    assert(docs@[k as int].counts_of(self@[k as int], terms@));
                }
                if docs[k].tf[t] > 0 {
                    df += 1;
                }
                k += 1;
            }
            proof {
                assert(texts.take(docs@.len() as int) =~= texts);
            }
            doc_freq.push(df);
            t += 1;
        }
        let r = Bm25Counts { terms, doc_freq, docs };
        r
    }
}

proof fn lemma_tokens_len(cs: Seq<char>)
    ensures
        tokens_of(cs).len() <= cs.len(),
{
    lemma_word_runs_len(cs);
}

proof fn lemma_score_prefix(q: Seq<Seq<char>>, ts: Seq<Seq<char>>, t: int)
    requires
        0 <= t <= q.len(),
    ensures
        score_of(q.take(t), ts) <= score_of(q, ts),
    decreases q.len() - t,
{
    if t < q.len() {
        lemma_score_prefix(q.drop_last(), ts, t);
        assert(q.drop_last().take(t) =~= q.take(t));
    } else {
        assert(q.take(t) =~= q);
    }
}

/// The texts of `hs`.
pub open spec fn texts_of(hs: Seq<Hit>) -> Seq<Seq<char>> {
    hs.map_values(|h: Hit| h.text)
}

impl Retriever for DocStore {
    /// The texts of the ranked documents; nothing for a store holding a text
    /// too long for its score to fit a `u32`.
    fn retrieve_context(&self, query: &str, k: usize) -> (r: Vec<String>)
        ensures
            self.fits() ==> views(r@) == texts_of(ranked(self@, query@, k as nat)),
            !self.fits() ==> r@.len() == 0,
    {
        let mut out: Vec<String> = Vec::new();
        if self.fits_scores() {
            let hits = self.retrieve(query, k);
            let mut i: usize = 0;
            while i < hits.len()
                invariant
                    i <= hits@.len(),
                    views(out@) == texts_of(hit_views(hits@)).take(i as int),
                decreases hits@.len() - i,
            {
                let ghost before = out@;
                let t = hits[i].text.clone();
                out.push(t);
                proof {
                    assert(texts_of(hit_views(hits@))[i as int] == hits@[i as int].text@);
                    assert(views(out@) =~= views(before).push(t@));
                }
                i += 1;
                proof {
                    assert(views(out@) =~= texts_of(hit_views(hits@)).take(i as int));
                }
            }
            proof {
                assert(texts_of(hit_views(hits@)).take(hits@.len() as int) =~= texts_of(hit_views(hits@)));
            }
        }
        out
    }
}

impl DocStore {
    /// Every document is short enough for its score to fit a `u32`.
    pub open spec fn fits(&self) -> bool {
        forall|i: int| 0 <= i < self@.len() ==> (#[trigger] self@[i]).1.len() <= u32::MAX
    }

    /// Whether every document is short enough for its score to fit a `u32`.
    pub fn fits_scores(&self) -> (r: bool)
        ensures
            r == self.fits(),
    {
        let mut i: usize = 0;
        while i < self.docs.len()
            invariant
                i <= self.docs@.len(),
                self@ == self.docs@.map_values(|d: Document| (d.id@, d.text@)),
                forall|j: int| 0 <= j < i ==> (#[trigger] self@[j]).1.len() <= u32::MAX,
            decreases self.docs@.len() - i,
        {
            let n = self.docs[i].text.as_str().unicode_len();
            if n > 4294967295 {
                proof {
                    assert(self@[i as int].1 == self.docs@[i as int].text@);
                }
                return false;
            }
            i += 1;
        }
        true
    }
}

// ---------------------------------------------------------------------------
// Prompt augmentation.

/// The lines of a `Context:` block for `hits`: each as `- hit` on a line of
/// its own.
pub open spec fn context_lines(hits: Seq<Seq<char>>) -> Seq<char>
    decreases hits.len(),
{
    if hits.len() == 0 {
        Seq::empty()
    } else {
        context_lines(hits.drop_last()) + "- "@ + hits.last() + "\n"@
    }
}

/// `prompt` grounded in `hits`: unchanged when there are none, otherwise
/// preceded by a `Context:` block listing them and a blank line.
pub open spec fn augmented(hits: Seq<Seq<char>>, prompt: Seq<char>) -> Seq<char> {
    if hits.len() == 0 {
        prompt
    } else {
        "Context:\n"@ + context_lines(hits) + "\n"@ + prompt
    }
}

/// Build the grounded prompt from retrieved `hits`.
pub fn augment_with(hits: &Vec<String>, prompt: &str) -> (r: String)
    ensures
        r@ == augmented(views(hits@), prompt@),
{
    if hits.len() == 0 {
        return prompt.to_owned();
    }
    let mut out = "Context:\n".to_owned();
    let ghost head = out@;
    let mut i: usize = 0;
    proof {
        assert(views(hits@).take(0) =~= Seq::<Seq<char>>::empty());
        assert(out@ =~= head + context_lines(views(hits@).take(0)));
    }
    while i < hits.len()
        invariant
            i <= hits@.len(),
            head == "Context:\n"@,
            out@ == head + context_lines(views(hits@).take(i as int)),
        decreases hits@.len() - i,
    {
        out.append("- ");
        out.append(hits[i].as_str());
        out.append("\n");
        proof {
            let hs = views(hits@);
            assert(hs.take(i + 1).drop_last() =~= hs.take(i as int));
            assert(hs.take(i + 1).last() == hits@[i as int]@);
        }
        i += 1;
    }
    out.append("\n");
    out.append(prompt);
    proof {
        assert(views(hits@).take(hits@.len() as int) =~= views(hits@));
    }
    out
}

/// Build the context-augmented prompt: prepend the top-`k` retrieved
/// documents as a `Context:` block, returning `prompt` unchanged when nothing
/// is retrieved.
pub fn augment_prompt<R: Retriever>(retriever: &R, prompt: &str, top_k: usize) -> (r: String)
    ensures
        exists|hits: Vec<String>|
            call_ensures(R::retrieve_context, (retriever, prompt, top_k), hits) && r@ == augmented(
                views(hits@),
                prompt@,
            ),
{
    let hits = retriever.retrieve_context(prompt, top_k);
    augment_with(&hits, prompt)
}

// ---------------------------------------------------------------------------
// Retriever decorators (their configuration).

/// `max(k · factor, floor)`, the product saturating.
pub open spec fn pool_size_of(k: nat, factor: nat, floor: nat) -> nat {
    let p = if k * factor > usize::MAX {
        usize::MAX as nat
    } else {
        k * factor
    };
    if p > floor {
        p
    } else {
        floor
    }
}

fn pool(k: usize, factor: usize, floor: usize) -> (r: usize)
    ensures
        r == pool_size_of(k as nat, factor as nat, floor as nat),
{
    let p = match k.checked_mul(factor) {
        Some(p) => p,
        None => usize::MAX,
    };
    if p > floor {
        p
    } else {
        floor
    }
}

/// Reranks a wider candidate pool from an inner retriever down to `k`.
#[derive(Debug, Clone)]
pub struct Reranked<R: Retriever> {
    inner: R,
    /// How many candidates to pull before reranking, as a multiple of `k`.
    pool_factor: usize,
    /// A floor on the candidate pool so small `k` still reranks a real pool.
    min_pool: usize,
}

impl<R: Retriever> Reranked<R> {
    /// The pool multiple and floor.
    pub closed spec fn config(&self) -> (nat, nat) {
        (self.pool_factor as nat, self.min_pool as nat)
    }

    /// The wrapped retriever.
    pub closed spec fn inner_retriever(&self) -> &R {
        &self.inner
    }

    /// Wrap `inner`, retrieving `max(k · pool_factor, min_pool)` candidates
    /// and reranking them down to `k`. `pool_factor` is clamped to at least 1.
    pub fn new(inner: R, pool_factor: usize, min_pool: usize) -> (r: Self)
        ensures
            r.config() == (if pool_factor >= 1 {
                pool_factor as nat
            } else {
                1nat
            }, min_pool as nat),
    {
        Reranked { inner, pool_factor: if pool_factor >= 1 { pool_factor } else { 1 }, min_pool }
    }

    /// Wrap `inner` with the defaults `pool_factor = 4`, `min_pool = 20`.
    pub fn with_defaults(inner: R) -> (r: Self)
        ensures
            r.config() == (4nat, 20nat),
    {
        Self::new(inner, 4, 20)
    }

    /// The candidate-pool size for a requested `k`.
    pub fn pool_size(&self, k: usize) -> (r: usize)
        ensures
            r == pool_size_of(k as nat, self.config().0, self.config().1),
    {
        pool(k, self.pool_factor, self.min_pool)
    }
}

/// The pool passages as rerank candidates, each keyed by its position
/// zero-padded to six digits.
pub open spec fn pool_candidates(pool: Seq<Seq<char>>) -> Seq<(Seq<char>, Seq<char>)> {
    Seq::new(pool.len(), |i: int| (padded_spec(i as nat, 6), pool[i]))
}

/// The passages of `pool` reranked for `query`, at most `k`; when no passage
/// shares a term with the query, the first `k` of the pool as it came.
pub open spec fn reranked_pool(query: Seq<char>, pool: Seq<Seq<char>>, k: nat) -> Seq<Seq<char>> {
    let r = reranked(query, pool_candidates(pool), k);
    if r.len() == 0 {
        if k < pool.len() {
            pool.take(k as int)
        } else {
            pool
        }
    } else {
        r.map_values(|h: Scored| h.text)
    }
}

/// Rerank a retrieved `pool` for `query` down to `k` passages, falling back
/// to the pool's own first `k` when reranking keeps nothing.
pub fn rerank_pool(query: &str, pool: &Vec<String>, k: usize) -> (r: Vec<String>)
    ensures
        views(r@) == reranked_pool(query@, views(pool@), k as nat),
{
    let ghost pv = views(pool@);
    let mut candidates: Vec<(String, String)> = Vec::new();
    let mut i: usize = 0;
    while i < pool.len()
        invariant
            pv == views(pool@),
            i <= pool@.len(),
            candidate_views(candidates@) == pool_candidates(pv).take(i as int),
        decreases pool@.len() - i,
    {
        let id = zero_padded(i as u64, 6);
        let ghost before = candidates@;
        let text = pool[i].clone();
        let ghost c = (id@, text@);
        candidates.push((id, text));
        proof {
            assert(candidate_views(candidates@) =~= candidate_views(before).push(c));
            assert(c == pool_candidates(pv)[i as int]);
            assert(candidate_views(candidates@) =~= pool_candidates(pv).take(i + 1));
        }
        i += 1;
    }
    proof {
        assert(pool_candidates(pv).take(pool@.len() as int) =~= pool_candidates(pv));
    }
    let hits = rerank(query, candidates.as_slice(), k);
    let ghost hv = scored_views(hits@);
    if hits.len() == 0 {
        let mut out: Vec<String> = Vec::new();
        let mut j: usize = 0;
        while j < k && j < pool.len()
            invariant
                pv == views(pool@),
                j <= k,
                j <= pool@.len(),
                views(out@) == pv.take(j as int),
            decreases pool@.len() - j,
        {
            let ghost before = out@;
            out.push(pool[j].clone());
            proof {
                assert(views(out@) =~= views(before).push(pv[j as int]));
                assert(views(out@) =~= pv.take(j + 1));
            }
            j += 1;
        }
        proof {
            if (k as nat) >= pv.len() {
                assert(pv.take(j as int) =~= pv);
            }
        }
        out
    } else {
        let mut out: Vec<String> = Vec::new();
        let mut j: usize = 0;
        while j < hits.len()
            invariant
                hv == scored_views(hits@),
                j <= hits@.len(),
                views(out@) == hv.take(j as int).map_values(|h: Scored| h.text),
            decreases hits@.len() - j,
        {
            let ghost before = out@;
            out.push(hits[j].text.clone());
            proof {
                assert(views(out@) =~= views(before).push(hv[j as int].text));
                assert(views(out@) =~= hv.take(j + 1).map_values(|h: Scored| h.text));
            }
            j += 1;
        }
        proof {
            assert(hv.take(hits@.len() as int) =~= hv);
        }
        out
    }
}

impl<R: Retriever> Retriever for Reranked<R> {
    /// Pull `pool_size(k)` candidates from the inner retriever and rerank them
    /// with `rerank_pool`.
    fn retrieve_context(&self, query: &str, k: usize) -> (r: Vec<String>)
        ensures
            k == 0 ==> r@.len() == 0,
            k > 0 ==> exists|pool: Vec<String>|
                call_ensures(
                    R::retrieve_context,
                    (self.inner_retriever(), query, pool_size_of(k as nat, self.config().0, self.config().1) as usize),
                    pool,
                ) && reranked_pool(query@, views(pool@), k as nat) == views(r@),
    {
        if k == 0 {
            return Vec::new();
        }
        let pool = self.inner.retrieve_context(query, self.pool_size(k));
        let r = rerank_pool(query, &pool, k);
        proof {
            assert(reranked_pool(query@, views(pool@), k as nat) == views(r@));
        }
        r
    }
}

/// Drops near-duplicate passages from a wider pool of an inner retriever.
#[derive(Debug, Clone)]
pub struct Deduped<R: Retriever> {
    inner: R,
    /// How many candidates to pull before deduping, as a multiple of `k`.
    pool_factor: usize,
    /// A floor on the candidate pool so small `k` still dedups a real pool.
    min_pool: usize,
    /// Passages whose fingerprints differ by at most this many bits are
    /// treated as duplicates.
    max_hamming: u32,
    /// Shingle size (consecutive-word windows) for the fingerprint.
    shingle_k: usize,
}

impl<R: Retriever> Deduped<R> {
    /// The pool multiple, pool floor, Hamming bound and shingle size.
    pub closed spec fn config(&self) -> (nat, nat, nat, nat) {
        (self.pool_factor as nat, self.min_pool as nat, self.max_hamming as nat, self.shingle_k as nat)
    }

    /// Wrap `inner`, pulling `max(k · pool_factor, min_pool)` candidates and
    /// keeping the first `k` whose fingerprints are pairwise more than
    /// `max_hamming` bits apart. `pool_factor` and `shingle_k` are clamped to
    /// at least 1.
    pub fn new(inner: R, pool_factor: usize, min_pool: usize, max_hamming: u32, shingle_k: usize) -> (r:
        Self)
        ensures
            r.config() == (if pool_factor >= 1 {
                pool_factor as nat
            } else {
                1nat
            }, min_pool as nat, max_hamming as nat, if shingle_k >= 1 {
                shingle_k as nat
            } else {
                1nat
            }),
    {
        Deduped {
            inner,
            pool_factor: if pool_factor >= 1 { pool_factor } else { 1 },
            min_pool,
            max_hamming,
            shingle_k: if shingle_k >= 1 { shingle_k } else { 1 },
        }
    }

    /// Wrap `inner` with the defaults `pool_factor = 4`, `min_pool = 20`,
    /// `max_hamming = 3`, `shingle_k = 2`.
    pub fn with_defaults(inner: R) -> (r: Self)
        ensures
            r.config() == (4nat, 20nat, 3nat, 2nat),
    {
        Self::new(inner, 4, 20, 3, 2)
    }

    /// The candidate-pool size for a requested `k`.
    pub fn pool_size(&self, k: usize) -> (r: usize)
        ensures
            r == pool_size_of(k as nat, self.config().0, self.config().1),
    {
        pool(k, self.pool_factor, self.min_pool)
    }
}

/// Distills a query to its top keyphrases before delegating to an inner
/// retriever.
#[derive(Debug, Clone)]
pub struct KeyphraseQuery<R: Retriever> {
    inner: R,
    /// How many keyphrases to keep when distilling the query.
    top_phrases: usize,
}

impl<R: Retriever> KeyphraseQuery<R> {
    /// How many keyphrases are kept.
    pub closed spec fn phrases(&self) -> nat {
        self.top_phrases as nat
    }

    /// Wrap `inner`, distilling each query to its top `top_phrases`
    /// keyphrases (clamped to at least 1) before retrieval.
    pub fn new(inner: R, top_phrases: usize) -> (r: Self)
        ensures
            r.phrases() == if top_phrases >= 1 {
                top_phrases as nat
            } else {
                1nat
            },
    {
        KeyphraseQuery { inner, top_phrases: if top_phrases >= 1 { top_phrases } else { 1 } }
    }

    /// Wrap `inner` keeping the top 5 keyphrases.
    pub fn with_defaults(inner: R) -> (r: Self)
        ensures
            r.phrases() == 5,
    {
        Self::new(inner, 5)
    }
}

} // verus!
