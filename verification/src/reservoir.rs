//! Uniform sampling from an unbounded stream (Vitter's Algorithm R): the
//! `i`-th item (0-based) replaces a random slot of a size-`k` reservoir with
//! probability `k/(i+1)`.
//!
//! Randomness comes from a seeded splitmix64 generator held in the sampler,
//! so the same seed and stream always yield the same sample.
use vstd::prelude::*;
use vstd::wrapping::u64_specs::{wrapping_add, wrapping_mul};

verus! {

/// Schema version of the reservoir surface.
pub const SCHEMA_VERSION: &'static str = "1.0.0";

/// The splitmix64 increment.
pub const SPLITMIX_GAMMA: u64 = 0x9E37_79B9_7F4A_7C15;

/// The first splitmix64 mixing multiplier.
pub const SPLITMIX_M1: u64 = 0xBF58_476D_1CE4_E5B9;

/// The second splitmix64 mixing multiplier.
pub const SPLITMIX_M2: u64 = 0x94D0_49BB_1331_11EB;

/// The splitmix64 output for the (already advanced) state `s`.
pub open spec fn splitmix_mix(s: u64) -> u64 {
    let z1 = wrapping_mul(s ^ (s >> 30u64), SPLITMIX_M1);
    let z2 = wrapping_mul(z1 ^ (z1 >> 27u64), SPLITMIX_M2);
    z2 ^ (z2 >> 31u64)
}

/// The splitmix64 output function.
pub(crate) fn mix(s: u64) -> (z: u64)
    ensures
        z == splitmix_mix(s),
{
    let mut z = s;
    z = (z ^ (z >> 30u64)).wrapping_mul(SPLITMIX_M1);
    z = (z ^ (z >> 27u64)).wrapping_mul(SPLITMIX_M2);
    z ^ (z >> 31u64)
}

/// The abstract state of a reservoir.
pub ghost struct ReservoirState<T> {
    /// Capacity.
    pub k: nat,
    /// Items offered so far.
    pub seen: nat,
    /// The current sample.
    pub samples: Seq<T>,
    /// The generator state.
    pub rng: u64,
}

/// The state after offering `item`: kept while the reservoir is not full;
/// afterwards it replaces slot `j` when the next random number modulo
/// `seen + 1` is a slot `j < k`.
pub open spec fn offered<T>(st: ReservoirState<T>, item: T) -> ReservoirState<T> {
    if st.samples.len() < st.k {
        ReservoirState { seen: st.seen + 1, samples: st.samples.push(item), ..st }
    } else {
        let rng = wrapping_add(st.rng, SPLITMIX_GAMMA);
        let j = splitmix_mix(rng) as nat % (st.seen + 1);
        ReservoirState {
            seen: st.seen + 1,
            samples: if j < st.k {
                st.samples.update(j as int, item)
            } else {
                st.samples
            },
            rng,
            ..st
        }
    }
}

/// The state after offering each of `items` in order.
pub open spec fn offered_all<T>(st: ReservoirState<T>, items: Seq<T>) -> ReservoirState<T>
    decreases items.len(),
{
    if items.len() == 0 {
        st
    } else {
        offered(offered_all(st, items.drop_last()), items.last())
    }
}

/// A fresh reservoir of capacity `k` seeded with `seed`.
pub open spec fn fresh<T>(k: nat, seed: u64) -> ReservoirState<T> {
    ReservoirState { k, seen: 0, samples: Seq::empty(), rng: seed }
}

/// A reservoir sampler holding up to `k` items.
#[derive(Debug, Clone)]
pub struct Reservoir<T> {
    k: usize,
    seen: usize,
    samples: Vec<T>,
    rng: u64,
}

impl<T> View for Reservoir<T> {
    type V = ReservoirState<T>;

    closed spec fn view(&self) -> ReservoirState<T> {
        ReservoirState { k: self.k as nat, seen: self.seen as nat, samples: self.samples@, rng: self.rng }
    }
}

impl<T> Reservoir<T> {
    /// The reservoir's invariant: a positive capacity, never exceeded, and
    /// the sample holds every item until the reservoir is full.
    pub open spec fn wf(&self) -> bool {
        &&& self@.k > 0
        &&& self@.samples.len() <= self@.k
        &&& self@.samples.len() == if self@.seen < self@.k {
            self@.seen
        } else {
            self@.k
        }
        &&& self@.seen <= usize::MAX
    }

    /// A reservoir of capacity `k` seeded with `seed`. `k` must be positive.
    pub fn new(k: usize, seed: u64) -> (r: Self)
        requires
            k > 0,
        ensures
            r.wf(),
            r@ == fresh::<T>(k as nat, seed),
    {
        Reservoir { k, seen: 0, samples: Vec::new(), rng: seed }
    }

    /// Reservoir capacity.
    pub fn capacity(&self) -> (r: usize)
        ensures
            r == self@.k,
    {
        self.k
    }

    /// Total items offered so far.
    pub fn seen(&self) -> (r: usize)
        ensures
            r == self@.seen,
    {
        self.seen
    }

    /// The current sample.
    pub fn samples(&self) -> (r: &[T])
        ensures
            r@ == self@.samples,
    {
        self.samples.as_slice()
    }

    /// Consume and return the sample.
    pub fn into_samples(self) -> (r: Vec<T>)
        ensures
            r@ == self@.samples,
    {
        self.samples
    }

    /// splitmix64: advance the state and return its mixed output.
    fn next_u64(&mut self) -> (z: u64)
        ensures
            final(self)@ == (ReservoirState { rng: wrapping_add(old(self)@.rng, SPLITMIX_GAMMA), ..old(self)@ }),
            z == splitmix_mix(final(self)@.rng),
    {
        self.rng = self.rng.wrapping_add(SPLITMIX_GAMMA);
        mix(self.rng)
    }

    /// Offer `item` to the reservoir. While fewer than `k` items have been
    /// offered it is always kept; afterwards it replaces a random slot with
    /// probability `k/(seen+1)`.
    pub fn offer(&mut self, item: T)
        requires
            old(self).wf(),
            old(self)@.seen < usize::MAX,
        ensures
            final(self).wf(),
            final(self)@ == offered(old(self)@, item),
    {
        if self.samples.len() < self.k {
            self.samples.push(item);
        } else {
            let r = self.next_u64();
            let j = (r % (self.seen as u64 + 1)) as usize;
            if j < self.k {
                self.samples.set(j, item);
            }
        }
        self.seen += 1;
    }

    /// Offer every item of `items`, in order.
    pub fn extend(&mut self, items: Vec<T>)
        requires
            old(self).wf(),
            old(self)@.seen + items@.len() <= usize::MAX,
        ensures
            final(self).wf(),
            final(self)@ == offered_all(old(self)@, items@),
    {
        let ghost start = self@;
        let ghost all = items@;
        let mut rest = items;
        proof {
            assert(all.take(0) =~= Seq::<T>::empty());
        }
        let mut i: usize = 0;
        let n = rest.len();
        // offer from the front by moving the items out in reverse first
        let mut rev: Vec<T> = Vec::new();
        while rest.len() > 0
            invariant
                rest@.len() + rev@.len() == all.len(),
                forall|j: int| 0 <= j < rest@.len() ==> rest@[j] == all[j],
                forall|j: int|
                    0 <= j < rev@.len() ==> rev@[j] == all[all.len() - 1 - j],
            decreases rest@.len(),
        {
            let x = rest.pop().unwrap();
            rev.push(x);
        }
        while i < n
            invariant
                n == all.len(),
                i <= n,
                rev@.len() == n - i,
                forall|j: int| 0 <= j < rev@.len() ==> rev@[j] == all[n - 1 - j],
                self.wf(),
                self@ == offered_all(start, all.take(i as int)),
                start.seen + n <= usize::MAX,
                self@.seen == start.seen + i,
            decreases n - i,
        {
            let x = rev.pop().unwrap();
            proof {
                assert(x == all[i as int]);
                assert(all.take(i + 1).drop_last() =~= all.take(i as int));
                lemma_offered_all_seen(start, all.take(i as int));
            }
            self.offer(x);
            i += 1;
        }
        proof {
            assert(all.take(n as int) =~= all);
        }
    }
}

proof fn lemma_offered_all_seen<T>(st: ReservoirState<T>, items: Seq<T>)
    ensures
        offered_all(st, items).seen == st.seen + items.len(),
        offered_all(st, items).k == st.k,
    decreases items.len(),
{
    if items.len() > 0 {
        lemma_offered_all_seen(st, items.drop_last());
    }
}

/// While no more than `k` items have been offered to a fresh reservoir, its
/// sample is exactly those items, in order.
pub proof fn law_keeps_all_until_full<T>(k: nat, seed: u64, items: Seq<T>)
    requires
        items.len() <= k,
    ensures
        offered_all(fresh::<T>(k, seed), items).samples == items,
        offered_all(fresh::<T>(k, seed), items).seen == items.len(),
    decreases items.len(),
{
    if items.len() > 0 {
        law_keeps_all_until_full(k, seed, items.drop_last());
        lemma_offered_all_seen(fresh::<T>(k, seed), items.drop_last());
        assert(items.drop_last().push(items.last()) =~= items);
    }
}

/// The sample of a fresh reservoir never holds more than `k` items, and
/// holds exactly `k` once `k` items have been offered.
pub proof fn law_sample_size<T>(k: nat, seed: u64, items: Seq<T>)
    ensures
        offered_all(fresh::<T>(k, seed), items).samples.len() == if items.len() < k {
            items.len()
        } else {
            k
        },
    decreases items.len(),
{
    if items.len() > 0 {
        law_sample_size(k, seed, items.drop_last());
        lemma_offered_all_seen(fresh::<T>(k, seed), items.drop_last());
        let before = offered_all(fresh::<T>(k, seed), items.drop_last());
        let after = offered(before, items.last());
        if before.samples.len() < k {
            assert(after.samples.len() == before.samples.len() + 1);
        } else {
            assert(after.samples.len() == before.samples.len());
        }
    }
}

/// Every item in the sample of a fresh reservoir came from the stream.
pub proof fn law_samples_come_from_stream<T>(k: nat, seed: u64, items: Seq<T>)
    ensures
        forall|x: T|
            #[trigger] offered_all(fresh::<T>(k, seed), items).samples.contains(x) ==> items.contains(x),
    decreases items.len(),
{
    if items.len() > 0 {
        let before = offered_all(fresh::<T>(k, seed), items.drop_last());
        law_samples_come_from_stream(k, seed, items.drop_last());
        lemma_offered_all_seen(fresh::<T>(k, seed), items.drop_last());
        let after = offered(before, items.last());
        assert forall|x: T| after.samples.contains(x) implies items.contains(x) by {
            let p = choose|p: int| 0 <= p < after.samples.len() && after.samples[p] == x;
            if x == items.last() {
                assert(items[items.len() - 1] == x);
            } else {
                if before.samples.len() < k {
                    assert(after.samples == before.samples.push(items.last()));
                    assert(p < before.samples.len());
                } else {
                    let rng = wrapping_add(before.rng, SPLITMIX_GAMMA);
                    let j = splitmix_mix(rng) as nat % (before.seen + 1);
                    if j < k {
                        assert(after.samples == before.samples.update(j as int, items.last()));
                        assert(p != j);
                    } else {
                        assert(after.samples == before.samples);
                    }
                }
                assert(before.samples[p] == x);
                assert(before.samples.contains(x));
                assert(items.drop_last().contains(x));
                let q = choose|q: int| 0 <= q < items.drop_last().len() && items.drop_last()[q] == x;
                assert(items.drop_last()[q] == items[q]);
                assert(items[q] == x);
            }
        }
    }
}

} // verus!
