//! Prompt compression by token informativeness: keeping the most surprising
//! tokens (lowest log-probability), optionally always keeping the first and
//! last, and applying a selection to a token slice.
//!
//! Log-probabilities are `f64` values; the selection reads them by their
//! IEEE-754 bits and orders them exactly as `f64::total_cmp` does, whose
//! documented key is the bits as a signed integer with the magnitude bits
//! flipped for negative values.
use vstd::prelude::*;

verus! {

/// Schema version of the prompt-compress surface.
pub const SCHEMA_VERSION: &'static str = "1.0.0";

/// The indices of `keep` that fall inside a sequence of `n` tokens, in order.
pub open spec fn in_range(keep: Seq<usize>, n: nat) -> Seq<usize>
    decreases keep.len(),
{
    if keep.len() == 0 {
        Seq::empty()
    } else {
        in_range(keep.drop_last(), n) + if keep.last() < n {
            seq![keep.last()]
        } else {
            Seq::empty()
        }
    }
}

/// Apply a selection of indices to a token slice, returning (clones of) the
/// kept tokens; indices past the end are skipped.
pub fn compress<T: Clone>(tokens: &[T], keep_indices: &[usize]) -> (r: Vec<T>)
    ensures
        r@.len() == in_range(keep_indices@, tokens@.len()).len(),
        forall|j: int|
            0 <= j < r@.len() ==> cloned::<T>(
                tokens@[in_range(keep_indices@, tokens@.len())[j] as int],
                #[trigger] r@[j],
            ),
{
    let mut out: Vec<T> = Vec::new();
    let mut k: usize = 0;
    while k < keep_indices.len()
        invariant
            k <= keep_indices@.len(),
            out@.len() == in_range(keep_indices@.take(k as int), tokens@.len()).len(),
            forall|j: int|
                0 <= j < out@.len() ==> cloned::<T>(
                    tokens@[in_range(keep_indices@.take(k as int), tokens@.len())[j] as int],
                    #[trigger] out@[j],
                ),
        decreases keep_indices@.len() - k,
    {
        let i = keep_indices[k];
        proof {
            assert(keep_indices@.take(k + 1).drop_last() =~= keep_indices@.take(k as int));
            assert(keep_indices@.take(k + 1).last() == i);
        }
        if i < tokens.len() {
            let t = tokens[i].clone();
            out.push(t);
        }
        k += 1;
    }
    proof {
        assert(keep_indices@.take(keep_indices@.len() as int) =~= keep_indices@);
    }
    out
}

/// The key by which `f64::total_cmp` orders the value with bits `b`.
pub open spec fn total_key(b: u64) -> i64 {
    let x = b as i64;
    x ^ ((((x >> 63u64) as u64) >> 1u64) as i64)
}

/// The key by which `f64::total_cmp` orders the value with bits `b`.
pub fn total_key_of(b: u64) -> (r: i64)
    ensures
        r == total_key(b),
{
    let x = b as i64;
    x ^ ((((x >> 63u64) as u64) >> 1u64) as i64)
}

/// Token `j` is more informative than token `i`: a smaller log-probability
/// in total order, ties to the earlier index.
pub open spec fn ranks_before(bits: Seq<u64>, j: int, i: int) -> bool {
    total_key(bits[j]) < total_key(bits[i]) || (total_key(bits[j]) == total_key(bits[i]) && j < i)
}

/// Whether index `i` of `n` tokens is an anchor (first or last) when anchors
/// are kept.
pub open spec fn is_anchor(i: int, n: int, keep_anchors: bool) -> bool {
    keep_anchors && (i == 0 || i == n - 1)
}

/// The number of anchors among `n` tokens.
pub open spec fn anchor_count(n: int, keep_anchors: bool) -> int {
    if !keep_anchors || n == 0 {
        0
    } else if n == 1 {
        1
    } else {
        2
    }
}

/// How many non-anchor tokens below `m` rank before token `i`.
pub open spec fn rank_among(bits: Seq<u64>, keep_anchors: bool, i: int, m: int) -> nat
    decreases m,
{
    if m <= 0 {
        0
    } else {
        rank_among(bits, keep_anchors, i, m - 1) + if !is_anchor(m - 1, bits.len() as int, keep_anchors)
            && ranks_before(bits, m - 1, i) {
            1nat
        } else {
            0nat
        }
    }
}

/// Whether `keep_top_k` keeps token `i`: everything when `k` covers all
/// tokens; otherwise the anchors and the `k - anchors` most informative
/// other tokens.
pub open spec fn kept(bits: Seq<u64>, k: nat, keep_anchors: bool, i: int) -> bool {
    let n = bits.len() as int;
    ||| k >= n
    ||| is_anchor(i, n, keep_anchors)
    ||| rank_among(bits, keep_anchors, i, n) < k - anchor_count(n, keep_anchors)
}

/// The kept indices below `m`, ascending.
pub open spec fn kept_below(bits: Seq<u64>, k: nat, keep_anchors: bool, m: int) -> Seq<usize>
    decreases m,
{
    if m <= 0 {
        Seq::empty()
    } else {
        kept_below(bits, k, keep_anchors, m - 1) + if kept(bits, k, keep_anchors, m - 1) {
            seq![(m - 1) as usize]
        } else {
            Seq::empty()
        }
    }
}

proof fn lemma_rank_bound(bits: Seq<u64>, keep_anchors: bool, i: int, m: int)
    ensures
        rank_among(bits, keep_anchors, i, m) <= if m > 0 {
            m
        } else {
            0
        },
    decreases m,
{
    if m > 0 {
        lemma_rank_bound(bits, keep_anchors, i, m - 1);
    }
}

/// Keep the `k` most informative tokens (lowest log-probability, whose
/// `f64` bits are `logprob_bits`), plus the first and last if
/// `keep_anchors`, as ascending indices.
pub fn keep_top_k(logprob_bits: &[u64], k: usize, keep_anchors: bool) -> (r: Vec<usize>)
    ensures
        r@ == kept_below(logprob_bits@, k as nat, keep_anchors, logprob_bits@.len() as int),
{
    let ghost bits = logprob_bits@;
    let n = logprob_bits.len();
    let anchors: usize = if !keep_anchors || n == 0 {
        0
    } else if n == 1 {
        1
    } else {
        2
    };
    let mut out: Vec<usize> = Vec::new();
    let mut i: usize = 0;
    while i < n
        invariant
            bits == logprob_bits@,
            n == bits.len(),
            anchors == anchor_count(n as int, keep_anchors),
            i <= n,
            out@ == kept_below(bits, k as nat, keep_anchors, i as int),
        decreases n - i,
    {
        let anchor = keep_anchors && (i == 0 || i == n - 1);
        let keep = if k >= n || anchor {
            true
        } else {
            let ki = total_key_of(logprob_bits[i]);
            let mut rank: usize = 0;
            let mut j: usize = 0;
            while j < n
                invariant
                    bits == logprob_bits@,
                    n == bits.len(),
                    i < n,
                    j <= n,
                    ki == total_key(bits[i as int]),
                    rank == rank_among(bits, keep_anchors, i as int, j as int),
                    rank <= j,
                decreases n - j,
            {
                let kj = total_key_of(logprob_bits[j]);
                if !(keep_anchors && (j == 0 || j == n - 1)) && (kj < ki || (kj == ki && j < i)) {
                    rank += 1;
                }
                j += 1;
            }
            k >= anchors && rank < k - anchors
        };
        if keep {
            out.push(i);
        }
        i += 1;
    }
    out
}

/// Keep as many informative tokens as fit within `budget` (anchors count
/// toward the budget), as ascending indices.
pub fn select_to_budget(logprob_bits: &[u64], budget: usize, keep_anchors: bool) -> (r: Vec<
    usize,
>)
    ensures
        r@ == kept_below(
            logprob_bits@,
            if budget < logprob_bits@.len() {
                budget as nat
            } else {
                logprob_bits@.len()
            },
            keep_anchors,
            logprob_bits@.len() as int,
        ),
{
    let n = logprob_bits.len();
    let k = if budget < n {
        budget
    } else {
        n
    };
    keep_top_k(logprob_bits, k, keep_anchors)
}

} // verus!
