//! A paged key/value-cache block allocator with copy-on-write prefix sharing.
//!
//! The cache memory is carved into fixed-size blocks. Each sequence owns a page
//! table (its blocks in logical order) and a token length; blocks are pulled
//! from a free pool as a sequence grows and shared between a sequence and its
//! forks by reference counting.
use std::collections::HashMap;
use vstd::prelude::*;

verus! {

/// Schema version of the paged-kv surface.
pub const SCHEMA_VERSION: &'static str = "1.0.0";

broadcast use vstd::std_specs::hash::group_hash_axioms;

/// Errors from the allocator.
#[derive(Debug, Clone, PartialEq, Eq, Structural)]
pub enum PagedKvError {
    /// No free blocks remain to satisfy an allocation.
    OutOfMemory {
        /// Blocks requested.
        needed: usize,
        /// Blocks available.
        free: usize,
    },
    /// The referenced sequence id is unknown.
    UnknownSequence(usize),
    /// A token position was out of the sequence's range.
    OutOfRange {
        /// Requested position.
        pos: usize,
        /// Sequence length.
        len: usize,
    },
}

/// Per-sequence state: its physical blocks (in logical order) and token length.
#[derive(Debug)]
struct Sequence {
    blocks: Vec<usize>,
    len: usize,
}

/// The abstract state of one sequence.
pub struct SeqState {
    /// Physical blocks in logical order.
    pub blocks: Seq<usize>,
    /// Token length.
    pub len: nat,
}

/// The abstract state of the allocator.
pub struct KvState {
    /// Token slots per block.
    pub block_size: nat,
    /// Reference count of every physical block (0 = free).
    pub refcounts: Seq<u32>,
    /// The free pool; allocation takes from its end.
    pub free: Seq<usize>,
    /// The live sequences by id.
    pub seqs: Map<usize, SeqState>,
    /// The id the next created sequence receives.
    pub next_id: nat,
}

/// Blocks needed to hold `len` tokens in blocks of `bs` slots (rounded up).
pub open spec fn blocks_needed_spec(len: nat, bs: nat) -> nat {
    if len % bs == 0 { len / bs } else { len / bs + 1 }
}

/// The live sequences whose page table holds block `b`.
pub open spec fn holders(seqs: Map<usize, SeqState>, b: usize) -> Set<usize> {
    seqs.dom().filter(|s: usize| seqs[s].blocks.contains(b))
}


impl KvState {
    /// Allocator invariant: the free pool is exactly the blocks of refcount
    /// zero (without repeats); every page table covers its length with
    /// distinct in-range blocks; and every refcount is the number of live
    /// sequences holding the block.
    pub open spec fn wf(self) -> bool {
        &&& self.block_size > 0
        &&& self.free.no_duplicates()
        &&& forall|i: int| 0 <= i < self.free.len() ==> {
            &&& (#[trigger] self.free[i]) < self.refcounts.len()
            &&& self.refcounts[self.free[i] as int] == 0
        }
        &&& forall|b: usize| b < self.refcounts.len() && #[trigger] self.refcounts[b as int] == 0
            ==> self.free.contains(b)
        &&& self.seqs.dom().finite()
        &&& forall|s: usize| #[trigger] self.seqs.contains_key(s) ==> {
            &&& s < self.next_id
            &&& self.seqs[s].blocks.no_duplicates()
            &&& self.seqs[s].blocks.len() == blocks_needed_spec(self.seqs[s].len, self.block_size)
            &&& forall|i: int| 0 <= i < self.seqs[s].blocks.len()
                ==> (#[trigger] self.seqs[s].blocks[i]) < self.refcounts.len()
        }
        &&& forall|b: usize| b < self.refcounts.len() ==>
            (#[trigger] self.refcounts[b as int]) == holders(self.seqs, b).len()
    }

    /// Whether appending to sequence `seq` must first copy its shared,
    /// partially filled last block.
    pub open spec fn cow_needed(self, seq: usize) -> bool {
        let s = self.seqs[seq];
        &&& s.blocks.len() > 0
        &&& s.len % self.block_size != 0
        &&& self.refcounts[s.blocks.last() as int] > 1
    }

    /// The state after the copy-on-write step of an append to `seq` (identity
    /// when no copy is needed): the last block is replaced by the block at the
    /// end of the free pool, which takes refcount 1, and the shared block
    /// loses one reference.
    pub open spec fn after_cow(self, seq: usize) -> KvState {
        if self.cow_needed(seq) {
            let s = self.seqs[seq];
            let last = s.blocks.last();
            let fresh = self.free.last();
            KvState {
                block_size: self.block_size,
                refcounts: self.refcounts.update(last as int, (self.refcounts[last as int] - 1) as u32)
                    .update(fresh as int, 1),
                free: self.free.drop_last(),
                seqs: self.seqs.insert(seq, SeqState {
                    blocks: s.blocks.update(s.blocks.len() - 1, fresh),
                    len: s.len,
                }),
                next_id: self.next_id,
            }
        } else {
            self
        }
    }

    /// Blocks that growing `seq` to `new_len` tokens must newly allocate.
    pub open spec fn extra_blocks(self, seq: usize, new_len: nat) -> nat {
        let need = blocks_needed_spec(new_len, self.block_size);
        let have = self.seqs[seq].blocks.len();
        if need > have { (need - have) as nat } else { 0 }
    }

    /// The state after growing `seq` to `new_len` tokens by taking `extra`
    /// blocks from the end of the free pool (last one first), each with
    /// refcount 1.
    pub open spec fn grown(self, seq: usize, new_len: nat, extra: nat) -> KvState {
        let cut = self.free.len() - extra;
        let taken = self.free.subrange(cut, self.free.len() as int).reverse();
        KvState {
            block_size: self.block_size,
            refcounts: Seq::new(
                self.refcounts.len(),
                |b: int| if taken.contains(b as usize) { 1u32 } else { self.refcounts[b] },
            ),
            free: self.free.take(cut),
            seqs: self.seqs.insert(seq, SeqState {
                blocks: self.seqs[seq].blocks + taken,
                len: new_len,
            }),
            next_id: self.next_id,
        }
    }
}

impl KvState {
    /// The state after forking `seq`: a new sequence under the next id shares
    /// its page table, and each shared block gains one reference.
    pub open spec fn forked(self, seq: usize) -> KvState {
        let blocks = self.seqs[seq].blocks;
        KvState {
            block_size: self.block_size,
            refcounts: Seq::new(
                self.refcounts.len(),
                |b: int| if blocks.contains(b as usize) {
                    (self.refcounts[b] + 1) as u32
                } else {
                    self.refcounts[b]
                },
            ),
            free: self.free,
            seqs: self.seqs.insert(self.next_id as usize, self.seqs[seq]),
            next_id: self.next_id + 1,
        }
    }

    /// The state after freeing `seq`: each of its blocks loses one reference,
    /// and those that were held only by `seq` are appended to the free pool
    /// in page-table order.
    pub open spec fn released(self, seq: usize) -> KvState {
        let blocks = self.seqs[seq].blocks;
        let rc = self.refcounts;
        KvState {
            block_size: self.block_size,
            refcounts: Seq::new(
                rc.len(),
                |b: int| if blocks.contains(b as usize) { (rc[b] - 1) as u32 } else { rc[b] },
            ),
            free: self.free + blocks.filter(|b: usize| rc[b as int] == 1),
            seqs: self.seqs.remove(seq),
            next_id: self.next_id,
        }
    }
}

/// The allocator's storage; [`PagedKvCache`] keeps it well formed.
#[derive(Debug)]
struct KvCore {
    block_size: usize,
    /// reference count per physical block (0 = free).
    refcounts: Vec<u32>,
    free: Vec<usize>,
    sequences: HashMap<usize, Sequence>,
    next_seq_id: usize,
}

impl View for KvCore {
    type V = KvState;

    closed spec fn view(&self) -> KvState {
        KvState {
            block_size: self.block_size as nat,
            refcounts: self.refcounts@,
            free: self.free@,
            seqs: self.sequences@.map_values(
                |s: Sequence| SeqState { blocks: s.blocks@, len: s.len as nat },
            ),
            next_id: self.next_seq_id as nat,
        }
    }
}

proof fn lemma_blocks_needed_mono(a: nat, b: nat, bs: nat)
    requires
        bs > 0,
        a <= b,
    ensures
        blocks_needed_spec(a, bs) <= blocks_needed_spec(b, bs),
{
    assert(a / bs <= b / bs) by (nonlinear_arith)
        requires
            bs > 0,
            a <= b,
    ;
    if a % bs != 0 && b % bs == 0 {
        assert(a / bs < b / bs) by (nonlinear_arith)
            requires
                bs > 0,
                a <= b,
                a % bs != 0,
                b % bs == 0,
        {
            assert(a == bs * (a / bs) + a % bs);
            assert(b == bs * (b / bs));
            if a / bs >= b / bs {
                assert(bs * (a / bs) >= bs * (b / bs));
            }
        }
    }
}

proof fn lemma_pos_in_blocks(pos: nat, len: nat, bs: nat)
    requires
        bs > 0,
        pos < len,
    ensures
        pos / bs < blocks_needed_spec(len, bs),
        pos % bs < bs,
{
    lemma_blocks_needed_mono(pos + 1, len, bs);
    assert(pos / bs < blocks_needed_spec(pos + 1, bs)) by (nonlinear_arith)
        requires
            bs > 0,
    {
        assert(pos + 1 == bs * ((pos + 1) / bs) + (pos + 1) % bs);
        assert(pos == bs * (pos / bs) + pos % bs);
        if (pos + 1) % bs == 0 {
            assert((pos + 1) / bs > pos / bs);
        } else {
            assert((pos + 1) / bs >= pos / bs);
        }
    }
}

/// Holders of `b` after `seqs[k]` is set to `ns`.
proof fn lemma_holders_insert(seqs: Map<usize, SeqState>, k: usize, ns: SeqState, b: usize)
    requires
        seqs.dom().finite(),
    ensures
        holders(seqs.insert(k, ns), b).finite(),
        holders(seqs.insert(k, ns), b).len() + (if seqs.contains_key(k) && seqs[k].blocks.contains(b) {
            1int
        } else {
            0int
        }) == holders(seqs, b).len() + (if ns.blocks.contains(b) {
            1int
        } else {
            0int
        }),
{
    let h = holders(seqs, b);
    let m2 = seqs.insert(k, ns);
    let h2 = holders(m2, b);
    seqs.dom().lemma_len_filter(|s: usize| seqs[s].blocks.contains(b));
    assert(m2.dom().finite());
    m2.dom().lemma_len_filter(|s: usize| m2[s].blocks.contains(b));
    if ns.blocks.contains(b) {
        assert(h2 =~= h.insert(k));
    } else {
        assert(h2 =~= h.remove(k));
    }
}

/// Holders of `b` after `seqs[k]` is removed.
proof fn lemma_holders_remove(seqs: Map<usize, SeqState>, k: usize, b: usize)
    requires
        seqs.dom().finite(),
    ensures
        holders(seqs.remove(k), b).len() + (if seqs.contains_key(k) && seqs[k].blocks.contains(b) {
            1int
        } else {
            0int
        }) == holders(seqs, b).len(),
{
    let h = holders(seqs, b);
    let m2 = seqs.remove(k);
    seqs.dom().lemma_len_filter(|s: usize| seqs[s].blocks.contains(b));
    assert(holders(m2, b) =~= h.remove(k));
}

/// A block held by a live sequence has a positive refcount.
proof fn lemma_held_positive(st: KvState, s: usize, i: int)
    requires
        st.wf(),
        st.seqs.contains_key(s),
        0 <= i < st.seqs[s].blocks.len(),
    ensures
        st.refcounts[st.seqs[s].blocks[i] as int] >= 1,
        !st.free.contains(st.seqs[s].blocks[i]),
{
    let b = st.seqs[s].blocks[i];
    assert(st.seqs[s].blocks[i] < st.refcounts.len());
    let h = holders(st.seqs, b);
    st.seqs.dom().lemma_len_filter(|x: usize| st.seqs[x].blocks.contains(b));
    assert(h.contains(s));
    vstd::set_lib::lemma_set_empty_equivalency_len(h);
    assert(st.refcounts[b as int] == h.len());
    if st.free.contains(b) {
        let j = choose|j: int| 0 <= j < st.free.len() && st.free[j] == b;
        assert(st.refcounts[st.free[j] as int] == 0);
    }
}


/// The copy-on-write step keeps the allocator invariant.
proof fn lemma_after_cow_wf(st: KvState, seq: usize)
    requires
        st.wf(),
        st.seqs.contains_key(seq),
        st.cow_needed(seq),
        st.free.len() > 0,
    ensures
        st.after_cow(seq).wf(),
        st.after_cow(seq).seqs.dom() == st.seqs.dom(),
        st.after_cow(seq).seqs[seq].len == st.seqs[seq].len,
        st.after_cow(seq).seqs[seq].blocks.len() == st.seqs[seq].blocks.len(),
        st.after_cow(seq).free.len() == st.free.len() - 1,
{
    let s = st.seqs[seq];
    let n = s.blocks.len();
    let last = s.blocks.last();
    let fresh = st.free.last();
    let nt = st.after_cow(seq);
    let nb = s.blocks.update(n - 1, fresh);
    assert(st.free[st.free.len() - 1] == fresh);
    assert(st.refcounts[fresh as int] == 0);
    assert(s.blocks[n - 1] == last);
    assert(last < st.refcounts.len());
    assert(fresh != last);
    // fresh is held by nobody
    assert forall|x: usize, j: int| st.seqs.contains_key(x) && 0 <= j < st.seqs[x].blocks.len()
        implies st.seqs[x].blocks[j] != fresh by {
        lemma_held_positive(st, x, j);
    }
    assert(!s.blocks.contains(fresh));
    assert(!nb.contains(last)) by {
        if nb.contains(last) {
            let j = choose|j: int| 0 <= j < nb.len() && nb[j] == last;
            assert(j != n - 1);
            assert(s.blocks[j] == last);
        }
    }
    assert(nb.no_duplicates());
    assert forall|b: usize| b != last && b != fresh implies (nb.contains(b) <==> s.blocks.contains(b)) by {
        if nb.contains(b) {
            let j = choose|j: int| 0 <= j < nb.len() && nb[j] == b;
            assert(s.blocks[j] == b);
        }
        if s.blocks.contains(b) {
            let j = choose|j: int| 0 <= j < s.blocks.len() && s.blocks[j] == b;
            assert(nb[j] == b);
        }
    }
    assert(nb[n - 1] == fresh);
    // the free pool
    assert(nt.free.no_duplicates());
    assert forall|i: int| 0 <= i < nt.free.len() implies {
        &&& (#[trigger] nt.free[i]) < nt.refcounts.len()
        &&& nt.refcounts[nt.free[i] as int] == 0
    } by {
        assert(nt.free[i] == st.free[i]);
        assert(st.free[i] != fresh);
        assert(st.refcounts[st.free[i] as int] == 0);
        assert(st.free[i] != last);
    }
    assert forall|b: usize| b < nt.refcounts.len() && #[trigger] nt.refcounts[b as int] == 0
        implies nt.free.contains(b) by {
        assert(b != fresh);
        assert(b != last);
        assert(st.refcounts[b as int] == 0);
        assert(st.free.contains(b));
        let j = choose|j: int| 0 <= j < st.free.len() && st.free[j] == b;
        assert(j != st.free.len() - 1);
        assert(nt.free[j] == b);
    }
    assert forall|x: usize| #[trigger] nt.seqs.contains_key(x) implies {
        &&& x < nt.next_id
        &&& nt.seqs[x].blocks.no_duplicates()
        &&& nt.seqs[x].blocks.len() == blocks_needed_spec(nt.seqs[x].len, nt.block_size)
        &&& forall|i: int| 0 <= i < nt.seqs[x].blocks.len()
            ==> (#[trigger] nt.seqs[x].blocks[i]) < nt.refcounts.len()
    } by {
        if x != seq {
            assert(nt.seqs[x] == st.seqs[x]);
        }
    }
    assert forall|b: usize| b < nt.refcounts.len() implies
        (#[trigger] nt.refcounts[b as int]) == holders(nt.seqs, b).len() by {
        lemma_holders_insert(st.seqs, seq, SeqState { blocks: nb, len: s.len }, b);
    }
    assert(nt.seqs.dom() =~= st.seqs.dom());
}

/// Growing a sequence with blocks from the free pool keeps the invariant.
proof fn lemma_grown_wf(st: KvState, seq: usize, new_len: nat, extra: nat)
    requires
        st.wf(),
        st.seqs.contains_key(seq),
        new_len >= st.seqs[seq].len,
        extra == st.extra_blocks(seq, new_len),
        extra <= st.free.len(),
    ensures
        st.grown(seq, new_len, extra).wf(),
{
    let s = st.seqs[seq];
    let cut = st.free.len() - extra;
    let taken = st.free.subrange(cut, st.free.len() as int).reverse();
    let nt = st.grown(seq, new_len, extra);
    let nb = s.blocks + taken;
    lemma_blocks_needed_mono(s.len, new_len, st.block_size);
    assert(nb.len() == blocks_needed_spec(new_len, st.block_size));
    assert forall|j: int| 0 <= j < taken.len() implies #[trigger] taken[j] == st.free[st.free.len() - 1 - j]
        && st.refcounts[taken[j] as int] == 0 && taken[j] < st.refcounts.len() by {
        assert(taken[j] == st.free[st.free.len() - 1 - j]);
    }
    assert forall|b: usize| taken.contains(b) implies st.free.contains(b) && st.refcounts[b as int] == 0
        && !(exists|k: int| 0 <= k < cut && st.free[k] == b) by {
        let j = choose|j: int| 0 <= j < taken.len() && taken[j] == b;
        assert(st.free[st.free.len() - 1 - j] == b);
    }
    assert(taken.no_duplicates()) by {
        assert forall|i: int, j: int| 0 <= i < taken.len() && 0 <= j < taken.len() && i != j
            implies taken[i] != taken[j] by {
            assert(taken[i] == st.free[st.free.len() - 1 - i]);
            assert(taken[j] == st.free[st.free.len() - 1 - j]);
        }
    }
    assert forall|x: usize, j: int| st.seqs.contains_key(x) && 0 <= j < st.seqs[x].blocks.len()
        implies !taken.contains(#[trigger] st.seqs[x].blocks[j]) by {
        lemma_held_positive(st, x, j);
    }
    assert(nb.no_duplicates()) by {
        assert forall|i: int, j: int| 0 <= i < nb.len() && 0 <= j < nb.len() && i != j
            implies nb[i] != nb[j] by {
            if i < s.blocks.len() && j >= s.blocks.len() {
                assert(taken.contains(nb[j]));
                assert(!taken.contains(s.blocks[i]));
            }
            if j < s.blocks.len() && i >= s.blocks.len() {
                assert(taken.contains(nb[i]));
                assert(!taken.contains(s.blocks[j]));
            }
        }
    }
    assert forall|b: usize| (nb.contains(b) <==> (s.blocks.contains(b) || taken.contains(b))) by {
        if nb.contains(b) {
            let j = choose|j: int| 0 <= j < nb.len() && nb[j] == b;
            if j < s.blocks.len() {
                assert(s.blocks[j] == b);
            } else {
                assert(taken[j - s.blocks.len()] == b);
            }
        }
        if s.blocks.contains(b) {
            let j = choose|j: int| 0 <= j < s.blocks.len() && s.blocks[j] == b;
            assert(nb[j] == b);
        }
        if taken.contains(b) {
            let j = choose|j: int| 0 <= j < taken.len() && taken[j] == b;
            assert(nb[s.blocks.len() + j] == b);
        }
    }
    assert(nt.free.no_duplicates());
    assert forall|i: int| 0 <= i < nt.free.len() implies {
        &&& (#[trigger] nt.free[i]) < nt.refcounts.len()
        &&& nt.refcounts[nt.free[i] as int] == 0
    } by {
        assert(nt.free[i] == st.free[i]);
        if taken.contains(st.free[i]) {
            let j = choose|j: int| 0 <= j < taken.len() && taken[j] == st.free[i];
            assert(st.free[st.free.len() - 1 - j] == st.free[i]);
        }
    }
    assert forall|b: usize| b < nt.refcounts.len() && #[trigger] nt.refcounts[b as int] == 0
        implies nt.free.contains(b) by {
        assert(!taken.contains(b));
        assert(st.refcounts[b as int] == 0);
        let j = choose|j: int| 0 <= j < st.free.len() && st.free[j] == b;
        if j >= cut {
            assert(taken[st.free.len() - 1 - j] == b);
        }
        assert(nt.free[j] == b);
    }
    assert forall|x: usize| #[trigger] nt.seqs.contains_key(x) implies {
        &&& x < nt.next_id
        &&& nt.seqs[x].blocks.no_duplicates()
        &&& nt.seqs[x].blocks.len() == blocks_needed_spec(nt.seqs[x].len, nt.block_size)
        &&& forall|i: int| 0 <= i < nt.seqs[x].blocks.len()
            ==> (#[trigger] nt.seqs[x].blocks[i]) < nt.refcounts.len()
    } by {
        if x != seq {
            assert(nt.seqs[x] == st.seqs[x]);
        } else {
            assert forall|i: int| 0 <= i < nb.len() implies (#[trigger] nb[i]) < nt.refcounts.len() by {
                if i >= s.blocks.len() {
                    assert(taken[i - s.blocks.len()] == nb[i]);
                }
            }
        }
    }
    assert forall|b: usize| b < nt.refcounts.len() implies
        (#[trigger] nt.refcounts[b as int]) == holders(nt.seqs, b).len() by {
        lemma_holders_insert(st.seqs, seq, SeqState { blocks: nb, len: new_len }, b);
        if taken.contains(b) {
            assert(holders(st.seqs, b).len() == 0);
        }
    }
}

impl KvCore {
    /// The allocator invariant (see [`KvState::wf`]), and every sequence's
    /// token length fits in a `usize`.
    spec fn wf(&self) -> bool {
        &&& self@.wf()
        &&& forall|s: usize| #[trigger] self@.seqs.contains_key(s) ==> self@.seqs[s].len <= usize::MAX
    }

    /// A cache of `num_blocks` blocks, each holding `block_size` token slots.
    /// The free pool lists the blocks from the highest id down, so allocation
    /// hands out low ids first.
    fn new(num_blocks: usize, block_size: usize) -> (c: Self)
        requires
            block_size > 0,
        ensures
            c.wf(),
            c@.block_size == block_size,
            c@.refcounts == Seq::new(num_blocks as nat, |i: int| 0u32),
            c@.free == Seq::new(num_blocks as nat, |i: int| (num_blocks - 1 - i) as usize),
            c@.seqs == Map::<usize, SeqState>::empty(),
            c@.next_id == 0,
    {
        let mut refcounts: Vec<u32> = Vec::new();
        let mut free: Vec<usize> = Vec::new();
        let mut i: usize = 0;
        while i < num_blocks
            invariant
                i <= num_blocks,
                refcounts@ == Seq::new(i as nat, |j: int| 0u32),
                free@ == Seq::new(i as nat, |j: int| (num_blocks - 1 - j) as usize),
            decreases num_blocks - i,
        {
            refcounts.push(0);
            free.push(num_blocks - 1 - i);
            i += 1;
            assert(refcounts@ =~= Seq::new(i as nat, |j: int| 0u32));
            assert(free@ =~= Seq::new(i as nat, |j: int| (num_blocks - 1 - j) as usize));
        }
        let c = KvCore {
            block_size,
            refcounts,
            free,
            sequences: HashMap::new(),
            next_seq_id: 0,
        };
        proof {
            let st = c@;
            assert(st.seqs =~= Map::<usize, SeqState>::empty());
            assert forall|b: usize| b < st.refcounts.len() implies
                (#[trigger] st.refcounts[b as int]) == holders(st.seqs, b).len() by {
                assert(holders(st.seqs, b) =~= Set::<usize>::empty());
            }
            assert forall|b: usize| b < st.refcounts.len() && #[trigger] st.refcounts[b as int] == 0
                implies st.free.contains(b) by {
                assert(st.free[num_blocks - 1 - b] == b);
            }
        }
        c
    }

    /// The block size (token slots per block).
    fn block_size(&self) -> (r: usize)
        ensures
            r == self@.block_size,
    {
        self.block_size
    }

    /// The number of currently-free blocks.
    fn num_free_blocks(&self) -> (r: usize)
        ensures
            r == self@.free.len(),
    {
        self.free.len()
    }

    /// The total number of blocks.
    fn total_blocks(&self) -> (r: usize)
        ensures
            r == self@.refcounts.len(),
    {
        self.refcounts.len()
    }

    /// Create a new, empty sequence and return its id.
    fn new_sequence(&mut self) -> (id: usize)
        requires
            old(self).wf(),
            old(self)@.next_id < usize::MAX,
        ensures
            final(self).wf(),
            id == old(self)@.next_id,
            final(self)@.seqs == old(self)@.seqs.insert(id, SeqState { blocks: Seq::empty(), len: 0 }),
            final(self)@.next_id == old(self)@.next_id + 1,
            final(self)@.free == old(self)@.free,
            final(self)@.refcounts == old(self)@.refcounts,
            final(self)@.block_size == old(self)@.block_size,
    {
        let ghost st = self@;
        let id = self.next_seq_id;
        self.next_seq_id += 1;
        self.sequences.insert(id, Sequence { blocks: Vec::new(), len: 0 });
        proof {
            let ns = SeqState { blocks: Seq::<usize>::empty(), len: 0 };
            assert(self@.seqs =~= st.seqs.insert(id, ns));
            assert(!st.seqs.contains_key(id));
            assert forall|b: usize| b < self@.refcounts.len() implies
                (#[trigger] self@.refcounts[b as int]) == holders(self@.seqs, b).len() by {
                lemma_holders_insert(st.seqs, id, ns, b);
                assert(!ns.blocks.contains(b));
                assert(st.refcounts[b as int] == holders(st.seqs, b).len());
            }
            assert(blocks_needed_spec(0, st.block_size) == 0) by (nonlinear_arith)
                requires st.block_size > 0;
            let nt = self@;
            assert forall|b: usize| b < nt.refcounts.len() && #[trigger] nt.refcounts[b as int] == 0
                implies nt.free.contains(b) by {
                assert(st.refcounts[b as int] == 0);
            }
            assert forall|x: usize| #[trigger] nt.seqs.contains_key(x) implies {
                &&& x < nt.next_id
                &&& nt.seqs[x].blocks.no_duplicates()
                &&& nt.seqs[x].blocks.len() == blocks_needed_spec(nt.seqs[x].len, nt.block_size)
                &&& forall|i: int| 0 <= i < nt.seqs[x].blocks.len()
                    ==> (#[trigger] nt.seqs[x].blocks[i]) < nt.refcounts.len()
            } by {
                if x != id {
                    assert(nt.seqs[x] == st.seqs[x]);
                }
            }
        }
        id
    }

    /// The token length of a sequence.
    fn sequence_len(&self, seq: usize) -> (r: Option<usize>)
        ensures
            r == (if self@.seqs.contains_key(seq) {
                Some(self@.seqs[seq].len as usize)
            } else {
                None
            }),
    {
        match self.sequences.get(&seq) {
            Some(s) => Some(s.len),
            None => None,
        }
    }

    /// How many blocks would be needed to hold `len` tokens.
    fn blocks_needed(&self, len: usize) -> (r: usize)
        requires
            self.block_size > 0,
        ensures
            r == blocks_needed_spec(len as nat, self.block_size as nat),
    {
        if len % self.block_size == 0 {
            len / self.block_size
        } else {
            proof {
                assert(len / self.block_size < len) by (nonlinear_arith)
                    requires self.block_size > 0, len % self.block_size != 0;
            }
            len / self.block_size + 1
        }
    }

    /// Take the block at the end of the free pool and give it refcount 1.
    fn pop_free(&mut self) -> (r: Option<usize>)
        requires
            forall|i: int| 0 <= i < old(self).free@.len() ==> (#[trigger] old(self).free@[i])
                < old(self).refcounts@.len(),
        ensures
            final(self).block_size == old(self).block_size,
            final(self).sequences == old(self).sequences,
            final(self).next_seq_id == old(self).next_seq_id,
            old(self).free@.len() == 0 ==> r is None && final(self).free@ == old(self).free@
                && final(self).refcounts@ == old(self).refcounts@,
            old(self).free@.len() > 0 ==> {
                &&& r == Some(old(self).free@.last())
                &&& final(self).free@ == old(self).free@.drop_last()
                &&& final(self).refcounts@ == old(self).refcounts@.update(old(self).free@.last() as int, 1)
            },
    {
        match self.free.pop() {
            None => None,
            Some(b) => {
                self.refcounts.set(b, 1);
                Some(b)
            },
        }
    }

    /// Append `count` tokens to `seq`, allocating blocks as needed. A shared,
    /// partially filled last block is first replaced by a private copy
    /// (copy-on-write), so a fork's growth never writes into its parent's
    /// block. Running out of blocks is an error; a copy made before the
    /// shortage was detected is kept.
    fn append(&mut self, seq: usize, count: usize) -> (r: Result<(), PagedKvError>)
        requires
            old(self).wf(),
            old(self)@.seqs.contains_key(seq) ==> old(self)@.seqs[seq].len + count <= usize::MAX,
        ensures
            final(self).wf(),
            !old(self)@.seqs.contains_key(seq) ==> r == Err::<(), PagedKvError>(
                PagedKvError::UnknownSequence(seq),
            ) && final(self)@ == old(self)@,
            old(self)@.seqs.contains_key(seq) ==> {
                let mid = old(self)@.after_cow(seq);
                let new_len = (old(self)@.seqs[seq].len + count) as nat;
                let extra = mid.extra_blocks(seq, new_len);
                if old(self)@.cow_needed(seq) && old(self)@.free.len() == 0 {
                    &&& r == Err::<(), PagedKvError>(PagedKvError::OutOfMemory { needed: 1, free: 0 })
                    &&& final(self)@ == old(self)@
                } else if extra > mid.free.len() {
                    &&& r == Err::<(), PagedKvError>(
                        PagedKvError::OutOfMemory { needed: extra as usize, free: mid.free.len() as usize },
                    )
                    &&& final(self)@ == mid
                } else {
                    &&& r == Ok::<(), PagedKvError>(())
                    &&& final(self)@ == mid.grown(seq, new_len, extra)
                }
            },
    {
        let ghost st = self@;
        if !self.sequences.contains_key(&seq) {
            return Err(PagedKvError::UnknownSequence(seq));
        }
        let removed = self.sequences.remove(&seq);
        let mut s = match removed {
            Some(s) => s,
            None => {
                assert(false);
                return Err(PagedKvError::UnknownSequence(seq));
            },
        };
        proof {
            assert(self.sequences@ == old(self).sequences@.remove(seq));
            assert(s == old(self).sequences@[seq]);
        }
        let ghost sblocks = s.blocks@;
        assert(sblocks == st.seqs[seq].blocks);
        let cur_len = s.len;
        let new_len = cur_len + count;
        let have = s.blocks.len();
        let need = self.blocks_needed(new_len);
        let ghost mid = st.after_cow(seq);
        if have > 0 && cur_len % self.block_size != 0 {
            let last = s.blocks[have - 1];
            assert(last == sblocks.last());
            assert(st.wf());
            assert(st.seqs.contains_key(seq));
            assert(0 <= have - 1 < st.seqs[seq].blocks.len());
            assert(st.seqs[seq].blocks[have - 1] < st.refcounts.len());
            if self.refcounts[last] > 1 {
                assert(st.cow_needed(seq));
                match self.pop_free() {
                    None => {
                        self.sequences.insert(seq, s);
                        proof {
                            assert(self.sequences@ =~= old(self).sequences@);
                            assert(self@.seqs =~= st.seqs);
                        }
                        return Err(PagedKvError::OutOfMemory { needed: 1, free: self.free.len() });
                    },
                    Some(fresh) => {
                        proof {
                            assert(fresh != last) by {
                                assert(st.free[st.free.len() - 1] == fresh);
                            }
                        }
                        let rc_last = self.refcounts[last];
                        self.refcounts.set(last, rc_last - 1);
                        s.blocks.set(have - 1, fresh);
                        proof {
                            lemma_after_cow_wf(st, seq);
                            assert(self.refcounts@ =~= mid.refcounts);
                            assert(self.free@ =~= mid.free);
                            assert(s.blocks@ =~= mid.seqs[seq].blocks);
                        }
                    },
                }
            } else {
                assert(!st.cow_needed(seq));
            }
        } else {
            assert(!st.cow_needed(seq));
        }
        // Here the free pool and refcounts are those of `mid`, and `s` holds mid's page table.
        assert(self.refcounts@ == mid.refcounts);
        assert(self.free@ == mid.free);
        assert(s.blocks@ == mid.seqs[seq].blocks);
        assert(s.len == mid.seqs[seq].len);
        proof {
            if st.cow_needed(seq) {
                lemma_after_cow_wf(st, seq);
            }
            lemma_blocks_needed_mono(cur_len as nat, new_len as nat, st.block_size);
        }
        let extra = if need > have { need - have } else { 0 };
        assert(extra == mid.extra_blocks(seq, new_len as nat));
        if extra > self.free.len() {
            let nfree = self.free.len();
            self.sequences.insert(seq, s);
            proof {
                assert(self@.seqs =~= mid.seqs);
                assert(self@.refcounts =~= mid.refcounts);
                assert(self@.free =~= mid.free);
            }
            return Err(PagedKvError::OutOfMemory { needed: extra, free: nfree });
        }
        let ghost mfree = mid.free;
        let ghost mrc = mid.refcounts;
        let ghost mblocks = s.blocks@;
        let ghost flen = mfree.len();
        let total = self.refcounts.len();
        let mut i: usize = 0;
        while i < extra
            invariant
                i <= extra,
                extra <= flen,
                flen == mfree.len(),
                mid.wf(),
                mfree == mid.free,
                mrc == mid.refcounts,
                mrc.len() == total as nat,
                self.free@ == mfree.take(flen - i),
                s.blocks@ == mblocks + mfree.subrange(flen - i, flen as int).reverse(),
                self.refcounts@ == Seq::new(
                    mrc.len(),
                    |b: int| if mfree.subrange(flen - i, flen as int).reverse().contains(b as usize) {
                        1u32
                    } else {
                        mrc[b]
                    },
                ),
                self.block_size == old(self).block_size,
                self.next_seq_id == old(self).next_seq_id,
                self.sequences@ == old(self).sequences@.remove(seq),
            decreases extra - i,
        {
            proof {
                assert forall|j: int| 0 <= j < self.free@.len() implies (#[trigger] self.free@[j])
                    < self.refcounts@.len() by {
                    assert(self.free@[j] == mfree[j]);
                }
            }
            let ghost before_rc = self.refcounts@;
            let ghost before_taken = mfree.subrange(flen - i, flen as int).reverse();
            let popped = self.pop_free();
            let b = match popped {
                Some(b) => b,
                None => {
                    assert(false);
                    0
                },
            };
            s.blocks.push(b);
            i += 1;
            proof {
                let taken = mfree.subrange(flen - i, flen as int).reverse();
                assert(b == mfree[flen - i]);
                assert(taken =~= before_taken.push(b));
                assert(self.free@ =~= mfree.take(flen - i));
                assert(s.blocks@ =~= mblocks + taken);
                assert(self.refcounts@ =~= Seq::new(
                    mrc.len(),
                    |x: int| if taken.contains(x as usize) { 1u32 } else { mrc[x] },
                )) by {
                    assert forall|x: int| 0 <= x < mrc.len() implies self.refcounts@[x]
                        == (if taken.contains(x as usize) { 1u32 } else { mrc[x] }) by {
                        if x == b as int {
                            assert(taken[taken.len() - 1] == b);
                        } else {
                            if taken.contains(x as usize) {
                                let j = choose|j: int| 0 <= j < taken.len() && taken[j] == x as usize;
                                assert(j < before_taken.len());
                                assert(before_taken[j] == x as usize);
                            }
                            if before_taken.contains(x as usize) {
                                let j = choose|j: int| 0 <= j < before_taken.len() && before_taken[j] == x as usize;
                                assert(taken[j] == x as usize);
                            }
                        }
                    }
                }
            }
        }
        s.len = new_len;
        self.sequences.insert(seq, s);
        proof {
            lemma_grown_wf(mid, seq, new_len as nat, extra as nat);
            let g = mid.grown(seq, new_len as nat, extra as nat);
            assert(self@.free =~= g.free);
            assert(self@.refcounts =~= g.refcounts);
            assert(self@.seqs =~= g.seqs) by {
                assert(mid.seqs.dom() == st.seqs.dom()) by {
                    if st.cow_needed(seq) {
                        lemma_after_cow_wf(st, seq);
                    }
                }
                assert(self@.seqs[seq] == g.seqs[seq]);
            }
        }
        Ok(())
    }


    /// Fork `seq` into a new sequence that shares its blocks copy-on-write and
    /// return the new id. Every shared block gains one reference; no block is
    /// allocated.
    fn fork(&mut self, seq: usize) -> (r: Result<usize, PagedKvError>)
        requires
            old(self).wf(),
            old(self)@.next_id < usize::MAX,
            old(self)@.seqs.contains_key(seq) ==> forall|i: int|
                0 <= i < old(self)@.seqs[seq].blocks.len() ==> old(self)@.refcounts[#[trigger] old(
                    self,
                )@.seqs[seq].blocks[i] as int] < u32::MAX,
        ensures
            final(self).wf(),
            !old(self)@.seqs.contains_key(seq) ==> r == Err::<usize, PagedKvError>(
                PagedKvError::UnknownSequence(seq),
            ) && final(self)@ == old(self)@,
            old(self)@.seqs.contains_key(seq) ==> {
                &&& r == Ok::<usize, PagedKvError>(old(self)@.next_id as usize)
                &&& final(self)@ == old(self)@.forked(seq)
            },
    {
        let ghost st = self@;
        let (blocks, len) = match self.sequences.get(&seq) {
            None => {
                return Err(PagedKvError::UnknownSequence(seq));
            },
            Some(p) => {
                let mut copy: Vec<usize> = Vec::new();
                let mut j: usize = 0;
                while j < p.blocks.len()
                    invariant
                        j <= p.blocks@.len(),
                        copy@ == p.blocks@.take(j as int),
                    decreases p.blocks@.len() - j,
                {
                    copy.push(p.blocks[j]);
                    j += 1;
                    assert(copy@ =~= p.blocks@.take(j as int));
                }
                assert(copy@ =~= p.blocks@);
                (copy, p.len)
            },
        };
        assert(blocks@ == st.seqs[seq].blocks);
        assert(len == st.seqs[seq].len);
        let ghost orc = self.refcounts@;
        let total = self.refcounts.len();
        let mut i: usize = 0;
        while i < blocks.len()
            invariant
                i <= blocks@.len(),
                st.wf(),
                st.seqs.contains_key(seq),
                blocks@ == st.seqs[seq].blocks,
                orc == st.refcounts,
                orc.len() == total as nat,
                forall|k: int| 0 <= k < blocks@.len() ==> orc[#[trigger] blocks@[k] as int] < u32::MAX,
                self.refcounts@ == Seq::new(
                    orc.len(),
                    |b: int| if blocks@.take(i as int).contains(b as usize) {
                        (orc[b] + 1) as u32
                    } else {
                        orc[b]
                    },
                ),
                self.free@ == st.free,
                self.sequences@ == old(self).sequences@,
                self.block_size == old(self).block_size,
                self.next_seq_id == old(self).next_seq_id,
            decreases blocks@.len() - i,
        {
            let b = blocks[i];
            proof {
                assert(st.seqs[seq].blocks[i as int] < st.refcounts.len());
                assert(!blocks@.take(i as int).contains(b)) by {
                    if blocks@.take(i as int).contains(b) {
                        let k = choose|k: int| 0 <= k < i && blocks@.take(i as int)[k] == b;
                        assert(blocks@[k] == blocks@[i as int]);
                    }
                }
                assert(orc[blocks@[i as int] as int] < u32::MAX);
            }
            let v = self.refcounts[b];
            self.refcounts.set(b, v + 1);
            i += 1;
            proof {
                let t = blocks@.take(i as int);
                assert(t =~= blocks@.take(i - 1).push(b));
                assert(self.refcounts@ =~= Seq::new(
                    orc.len(),
                    |x: int| if t.contains(x as usize) { (orc[x] + 1) as u32 } else { orc[x] },
                )) by {
                    assert forall|x: int| 0 <= x < orc.len() implies self.refcounts@[x] == (if t.contains(
                        x as usize,
                    ) {
                        (orc[x] + 1) as u32
                    } else {
                        orc[x]
                    }) by {
                        let t0 = blocks@.take(i - 1);
                        if x != b as int {
                            if t.contains(x as usize) {
                                let k = choose|k: int| 0 <= k < t.len() && t[k] == x as usize;
                                assert(k < t0.len());
                                assert(t0[k] == x as usize);
                            }
                            if t0.contains(x as usize) {
                                let k = choose|k: int| 0 <= k < t0.len() && t0[k] == x as usize;
                                assert(t[k] == x as usize);
                            }
                        } else {
                            assert(t[t.len() - 1] == b);
                        }
                    }
                }
            }
        }
        assert(blocks@.take(blocks@.len() as int) =~= blocks@);
        let id = self.next_seq_id;
        self.next_seq_id += 1;
        self.sequences.insert(id, Sequence { blocks, len });
        proof {
            let ps = st.seqs[seq];
            let nt = self@;
            assert(!st.seqs.contains_key(id));
            assert(nt.seqs =~= st.seqs.insert(id, ps));
            assert forall|b: usize| b < nt.refcounts.len() implies
                (#[trigger] nt.refcounts[b as int]) == holders(nt.seqs, b).len() by {
                lemma_holders_insert(st.seqs, id, ps, b);
                assert(st.refcounts[b as int] == holders(st.seqs, b).len());
            }
            assert forall|k: int| 0 <= k < nt.free.len() implies {
                &&& (#[trigger] nt.free[k]) < nt.refcounts.len()
                &&& nt.refcounts[nt.free[k] as int] == 0
            } by {
                let fb = st.free[k];
                assert(st.refcounts[fb as int] == 0);
                if ps.blocks.contains(fb) {
                    let j = choose|j: int| 0 <= j < ps.blocks.len() && ps.blocks[j] == fb;
                    lemma_held_positive(st, seq, j);
                }
            }
            assert forall|b: usize| b < nt.refcounts.len() && #[trigger] nt.refcounts[b as int] == 0
                implies nt.free.contains(b) by {
                if !ps.blocks.contains(b) {
                    assert(st.refcounts[b as int] == 0);
                }
            }
            assert forall|x: usize| #[trigger] nt.seqs.contains_key(x) implies {
                &&& x < nt.next_id
                &&& nt.seqs[x].blocks.no_duplicates()
                &&& nt.seqs[x].blocks.len() == blocks_needed_spec(nt.seqs[x].len, nt.block_size)
                &&& forall|i: int| 0 <= i < nt.seqs[x].blocks.len()
                    ==> (#[trigger] nt.seqs[x].blocks[i]) < nt.refcounts.len()
            } by {
                if x != id {
                    assert(nt.seqs[x] == st.seqs[x]);
                }
            }
        }
        Ok(id)
    }


    /// Free a sequence: every block it holds loses one reference, and the
    /// blocks whose count reaches zero return to the free pool (in page-table
    /// order).
    fn free(&mut self, seq: usize) -> (r: Result<(), PagedKvError>)
        requires
            old(self).wf(),
        ensures
            final(self).wf(),
            !old(self)@.seqs.contains_key(seq) ==> r == Err::<(), PagedKvError>(
                PagedKvError::UnknownSequence(seq),
            ) && final(self)@ == old(self)@,
            old(self)@.seqs.contains_key(seq) ==> {
                &&& r == Ok::<(), PagedKvError>(())
                &&& final(self)@ == old(self)@.released(seq)
            },
    {
        let ghost st = self@;
        if !self.sequences.contains_key(&seq) {
            return Err(PagedKvError::UnknownSequence(seq));
        }
        let removed = self.sequences.remove(&seq);
        let s = match removed {
            Some(s) => s,
            None => {
                assert(false);
                return Err(PagedKvError::UnknownSequence(seq));
            },
        };
        assert(s.blocks@ == st.seqs[seq].blocks);
        let ghost blocks = s.blocks@;
        let ghost orc = st.refcounts;
        let ghost pred = |b: usize| orc[b as int] == 1;
        let total = self.refcounts.len();
        let mut i: usize = 0;
        while i < s.blocks.len()
            invariant
                i <= blocks.len(),
                st.wf(),
                st.seqs.contains_key(seq),
                blocks == st.seqs[seq].blocks,
                s.blocks@ == blocks,
                orc == st.refcounts,
                orc.len() == total as nat,
                pred == (|b: usize| orc[b as int] == 1),
                self.refcounts@ == Seq::new(
                    orc.len(),
                    |b: int| if blocks.take(i as int).contains(b as usize) {
                        (orc[b] - 1) as u32
                    } else {
                        orc[b]
                    },
                ),
                self.free@ == st.free + blocks.take(i as int).filter(pred),
                self.sequences@ == old(self).sequences@.remove(seq),
                self.block_size == old(self).block_size,
                self.next_seq_id == old(self).next_seq_id,
            decreases blocks.len() - i,
        {
            let b = s.blocks[i];
            proof {
                lemma_held_positive(st, seq, i as int);
                assert(!blocks.take(i as int).contains(b)) by {
                    if blocks.take(i as int).contains(b) {
                        let k = choose|k: int| 0 <= k < i && blocks.take(i as int)[k] == b;
                        assert(blocks[k] == blocks[i as int]);
                    }
                }
            }
            let v = self.refcounts[b];
            self.refcounts.set(b, v - 1);
            if v - 1 == 0 {
                self.free.push(b);
            }
            i += 1;
            proof {
                let t = blocks.take(i as int);
                let t0 = blocks.take(i - 1);
                assert(t =~= t0.push(b));
                t0.lemma_filter_push(b, pred);
                assert(self.free@ =~= st.free + t.filter(pred));
                assert(self.refcounts@ =~= Seq::new(
                    orc.len(),
                    |x: int| if t.contains(x as usize) { (orc[x] - 1) as u32 } else { orc[x] },
                )) by {
                    assert forall|x: int| 0 <= x < orc.len() implies self.refcounts@[x] == (if t.contains(
                        x as usize,
                    ) {
                        (orc[x] - 1) as u32
                    } else {
                        orc[x]
                    }) by {
                        if x != b as int {
                            if t.contains(x as usize) {
                                let k = choose|k: int| 0 <= k < t.len() && t[k] == x as usize;
                                assert(k < t0.len());
                                assert(t0[k] == x as usize);
                            }
                            if t0.contains(x as usize) {
                                let k = choose|k: int| 0 <= k < t0.len() && t0[k] == x as usize;
                                assert(t[k] == x as usize);
                            }
                        } else {
                            assert(t[t.len() - 1] == b);
                        }
                    }
                }
            }
        }
        proof {
            assert(blocks.take(blocks.len() as int) =~= blocks);
            let nt = self@;
            let rel = blocks.filter(pred);
            assert(nt.seqs =~= st.seqs.remove(seq));
            assert forall|b: usize| b < nt.refcounts.len() implies
                (#[trigger] nt.refcounts[b as int]) == holders(nt.seqs, b).len() by {
                lemma_holders_remove(st.seqs, seq, b);
                assert(st.refcounts[b as int] == holders(st.seqs, b).len());
            }
            assert forall|b: usize| rel.contains(b) <==> (blocks.contains(b) && orc[b as int] == 1) by {
                if blocks.contains(b) && orc[b as int] == 1 {
                    let j = choose|j: int| 0 <= j < blocks.len() && blocks[j] == b;
                    blocks.lemma_filter_contains(pred, j);
                }
                if rel.contains(b) {
                    blocks.lemma_filter_contains_rev(pred, b);
                }
            }
            // the released blocks are distinct and were not free before
            assert forall|j: int| 0 <= j < blocks.len() implies !st.free.contains(#[trigger] blocks[j]) by {
                lemma_held_positive(st, seq, j);
            }
            assert(rel.no_duplicates()) by {
                assert forall|a: int, c: int| 0 <= a < rel.len() && 0 <= c < rel.len() && a != c
                    implies rel[a] != rel[c] by {
                    blocks.filter_lemma(pred);
                    let ia = choose|k: int| 0 <= k < blocks.len() && blocks[k] == rel[a];
                    // filter of a duplicate-free sequence is duplicate-free
                    lemma_filter_no_dup(blocks, pred);
                }
            }
            assert(nt.free.no_duplicates()) by {
                assert forall|a: int, c: int| 0 <= a < nt.free.len() && 0 <= c < nt.free.len() && a != c
                    implies nt.free[a] != nt.free[c] by {
                    if a < st.free.len() && c >= st.free.len() {
                        assert(rel.contains(nt.free[c]));
                        assert(st.free.contains(nt.free[a]));
                    }
                    if c < st.free.len() && a >= st.free.len() {
                        assert(rel.contains(nt.free[a]));
                        assert(st.free.contains(nt.free[c]));
                    }
                }
            }
            assert forall|k: int| 0 <= k < nt.free.len() implies {
                &&& (#[trigger] nt.free[k]) < nt.refcounts.len()
                &&& nt.refcounts[nt.free[k] as int] == 0
            } by {
                if k < st.free.len() {
                    let fb = st.free[k];
                    assert(st.refcounts[fb as int] == 0);
                    if blocks.contains(fb) {
                        let j = choose|j: int| 0 <= j < blocks.len() && blocks[j] == fb;
                        lemma_held_positive(st, seq, j);
                    }
                } else {
                    let fb = nt.free[k];
                    assert(rel.contains(fb));
                    let j = choose|j: int| 0 <= j < blocks.len() && blocks[j] == fb;
                    assert(st.seqs[seq].blocks[j] < st.refcounts.len());
                }
            }
            assert forall|b: usize| b < nt.refcounts.len() && #[trigger] nt.refcounts[b as int] == 0
                implies nt.free.contains(b) by {
                if blocks.contains(b) {
                    assert(orc[b as int] == 1);
                    assert(rel.contains(b));
                    let j = choose|j: int| 0 <= j < rel.len() && rel[j] == b;
                    assert(nt.free[st.free.len() + j] == b);
                } else {
                    assert(st.refcounts[b as int] == 0);
                    let j = choose|j: int| 0 <= j < st.free.len() && st.free[j] == b;
                    assert(nt.free[j] == b);
                }
            }
            assert forall|x: usize| #[trigger] nt.seqs.contains_key(x) implies {
                &&& x < nt.next_id
                &&& nt.seqs[x].blocks.no_duplicates()
                &&& nt.seqs[x].blocks.len() == blocks_needed_spec(nt.seqs[x].len, nt.block_size)
                &&& forall|i: int| 0 <= i < nt.seqs[x].blocks.len()
                    ==> (#[trigger] nt.seqs[x].blocks[i]) < nt.refcounts.len()
            } by {
                assert(nt.seqs[x] == st.seqs[x]);
            }
        }
        Ok(())
    }

    /// Resolve logical token position `pos` of `seq` to `(physical_block, offset)`.
    fn block_for(&self, seq: usize, pos: usize) -> (r: Result<(usize, usize), PagedKvError>)
        requires
            self.wf(),
        ensures
            !self@.seqs.contains_key(seq) ==> r == Err::<(usize, usize), PagedKvError>(
                PagedKvError::UnknownSequence(seq),
            ),
            self@.seqs.contains_key(seq) && pos >= self@.seqs[seq].len ==> r == Err::<
                (usize, usize),
                PagedKvError,
            >(PagedKvError::OutOfRange { pos, len: self@.seqs[seq].len as usize }),
            self@.seqs.contains_key(seq) && pos < self@.seqs[seq].len ==> r == Ok::<
                (usize, usize),
                PagedKvError,
            >(
                (
                    self@.seqs[seq].blocks[(pos as nat / self@.block_size) as int],
                    (pos as nat % self@.block_size) as usize,
                ),
            ),
    {
        match self.sequences.get(&seq) {
            None => Err(PagedKvError::UnknownSequence(seq)),
            Some(s) => {
                if pos >= s.len {
                    return Err(PagedKvError::OutOfRange { pos, len: s.len });
                }
                proof {
                    assert(self@.seqs.contains_key(seq));
                    lemma_pos_in_blocks(pos as nat, s.len as nat, self.block_size as nat);
                }
                let block_idx = pos / self.block_size;
                let offset = pos % self.block_size;
                Ok((s.blocks[block_idx], offset))
            },
        }
    }

    /// The physical blocks a sequence currently holds (logical order).
    fn blocks_of(&self, seq: usize) -> (r: Option<&[usize]>)
        ensures
            !self@.seqs.contains_key(seq) ==> r is None,
            self@.seqs.contains_key(seq) ==> r is Some && r->0@ == self@.seqs[seq].blocks,
    {
        match self.sequences.get(&seq) {
            None => None,
            Some(s) => Some(s.blocks.as_slice()),
        }
    }

}

/// Filtering a duplicate-free sequence keeps it duplicate-free.
proof fn lemma_filter_no_dup(s: Seq<usize>, p: spec_fn(usize) -> bool)
    requires
        s.no_duplicates(),
    ensures
        s.filter(p).no_duplicates(),
    decreases s.len(),
{
    reveal(Seq::filter);
    if s.len() > 0 {
        let init = s.drop_last();
        assert(init.no_duplicates());
        lemma_filter_no_dup(init, p);
        assert(s =~= init.push(s.last()));
        init.lemma_filter_push(s.last(), p);
        if p(s.last()) {
            assert(!init.contains(s.last()));
            if init.filter(p).contains(s.last()) {
                init.lemma_filter_contains_rev(p, s.last());
            }
        }
    }
}

/// A paged KV-cache allocator.
#[derive(Debug)]
pub struct PagedKvCache {
    core: KvCore,
}

impl View for PagedKvCache {
    type V = KvState;

    closed spec fn view(&self) -> KvState {
        self.core@
    }
}

impl PagedKvCache {
    /// Every cache is well formed: the allocator invariant holds and every
    /// sequence's token length fits in a `usize`.
    #[verifier::type_invariant]
    spec fn inv(&self) -> bool {
        self.core.wf()
    }

    /// A cache of `num_blocks` blocks, each holding `block_size` token slots.
    /// The free pool lists the blocks from the highest id down, so allocation
    /// hands out low ids first.
    pub fn new(num_blocks: usize, block_size: usize) -> (c: Self)
        requires
            block_size > 0,
        ensures
            c@.wf(),
            c@.block_size == block_size,
            c@.refcounts == Seq::new(num_blocks as nat, |i: int| 0u32),
            c@.free == Seq::new(num_blocks as nat, |i: int| (num_blocks - 1 - i) as usize),
            c@.seqs == Map::<usize, SeqState>::empty(),
            c@.next_id == 0,
    {
        PagedKvCache { core: KvCore::new(num_blocks, block_size) }
    }

    /// The block size (token slots per block).
    pub fn block_size(&self) -> (r: usize)
        ensures
            self@.wf(),
            r == self@.block_size,
    {
        proof {
            use_type_invariant(self);
        }
        self.core.block_size()
    }

    /// The number of currently-free blocks.
    pub fn num_free_blocks(&self) -> (r: usize)
        ensures
            self@.wf(),
            r == self@.free.len(),
    {
        proof {
            use_type_invariant(self);
        }
        self.core.num_free_blocks()
    }

    /// The total number of blocks.
    pub fn total_blocks(&self) -> (r: usize)
        ensures
            self@.wf(),
            r == self@.refcounts.len(),
    {
        proof {
            use_type_invariant(self);
        }
        self.core.total_blocks()
    }

    /// Create a new, empty sequence and return its id.
    pub fn new_sequence(&mut self) -> (id: usize)
        requires
            old(self)@.next_id < usize::MAX,
        ensures
            final(self)@.wf(),
            id == old(self)@.next_id,
            final(self)@.seqs == old(self)@.seqs.insert(id, SeqState { blocks: Seq::empty(), len: 0 }),
            final(self)@.next_id == old(self)@.next_id + 1,
            final(self)@.free == old(self)@.free,
            final(self)@.refcounts == old(self)@.refcounts,
            final(self)@.block_size == old(self)@.block_size,
    {
        proof {
            use_type_invariant(&*self);
        }
        let mut core = KvCore::new(0, 1);
        std::mem::swap(&mut core, &mut self.core);
        let r = core.new_sequence();
        self.core = core;
        r
    }

    /// The token length of a sequence.
    pub fn sequence_len(&self, seq: usize) -> (r: Option<usize>)
        ensures
            self@.wf(),
            !self@.seqs.contains_key(seq) ==> r is None,
            self@.seqs.contains_key(seq) ==> (r matches Some(l) && l == self@.seqs[seq].len),
    {
        proof {
            use_type_invariant(self);
        }
        self.core.sequence_len(seq)
    }

    /// Append `count` tokens to `seq`, allocating blocks as needed. A shared,
    /// partially filled last block is first replaced by a private copy
    /// (copy-on-write), so a fork's growth never writes into its parent's
    /// block. Running out of blocks is an error; a copy made before the
    /// shortage was detected is kept.
    pub fn append(&mut self, seq: usize, count: usize) -> (r: Result<(), PagedKvError>)
        requires
            old(self)@.seqs.contains_key(seq) ==> old(self)@.seqs[seq].len + count <= usize::MAX,
        ensures
            final(self)@.wf(),
            !old(self)@.seqs.contains_key(seq) ==> r == Err::<(), PagedKvError>(
                PagedKvError::UnknownSequence(seq),
            ) && final(self)@ == old(self)@,
            old(self)@.seqs.contains_key(seq) ==> {
                let mid = old(self)@.after_cow(seq);
                let new_len = (old(self)@.seqs[seq].len + count) as nat;
                let extra = mid.extra_blocks(seq, new_len);
                if old(self)@.cow_needed(seq) && old(self)@.free.len() == 0 {
                    &&& r == Err::<(), PagedKvError>(PagedKvError::OutOfMemory { needed: 1, free: 0 })
                    &&& final(self)@ == old(self)@
                } else if extra > mid.free.len() {
                    &&& r == Err::<(), PagedKvError>(
                        PagedKvError::OutOfMemory { needed: extra as usize, free: mid.free.len() as usize },
                    )
                    &&& final(self)@ == mid
                } else {
                    &&& r == Ok::<(), PagedKvError>(())
                    &&& final(self)@ == mid.grown(seq, new_len, extra)
                }
            },
    {
        proof {
            use_type_invariant(&*self);
        }
        let mut core = KvCore::new(0, 1);
        std::mem::swap(&mut core, &mut self.core);
        let r = core.append(seq, count);
        self.core = core;
        r
    }

    /// Fork `seq` into a new sequence that shares its blocks copy-on-write and
    /// return the new id. Every shared block gains one reference; no block is
    /// allocated.
    pub fn fork(&mut self, seq: usize) -> (r: Result<usize, PagedKvError>)
        requires
            old(self)@.next_id < usize::MAX,
            old(self)@.seqs.contains_key(seq) ==> forall|i: int|
                0 <= i < old(self)@.seqs[seq].blocks.len() ==> old(self)@.refcounts[#[trigger] old(
                    self,
                )@.seqs[seq].blocks[i] as int] < u32::MAX,
        ensures
            final(self)@.wf(),
            !old(self)@.seqs.contains_key(seq) ==> r == Err::<usize, PagedKvError>(
                PagedKvError::UnknownSequence(seq),
            ) && final(self)@ == old(self)@,
            old(self)@.seqs.contains_key(seq) ==> {
                &&& r == Ok::<usize, PagedKvError>(old(self)@.next_id as usize)
                &&& final(self)@ == old(self)@.forked(seq)
            },
    {
        proof {
            use_type_invariant(&*self);
        }
        let mut core = KvCore::new(0, 1);
        std::mem::swap(&mut core, &mut self.core);
        let r = core.fork(seq);
        self.core = core;
        r
    }

    /// Free a sequence: every block it holds loses one reference, and the
    /// blocks whose count reaches zero return to the free pool (in page-table
    /// order).
    pub fn free(&mut self, seq: usize) -> (r: Result<(), PagedKvError>)
        ensures
            final(self)@.wf(),
            !old(self)@.seqs.contains_key(seq) ==> r == Err::<(), PagedKvError>(
                PagedKvError::UnknownSequence(seq),
            ) && final(self)@ == old(self)@,
            old(self)@.seqs.contains_key(seq) ==> {
                &&& r == Ok::<(), PagedKvError>(())
                &&& final(self)@ == old(self)@.released(seq)
            },
    {
        proof {
            use_type_invariant(&*self);
        }
        let mut core = KvCore::new(0, 1);
        std::mem::swap(&mut core, &mut self.core);
        let r = core.free(seq);
        self.core = core;
        r
    }

    /// Resolve logical token position `pos` of `seq` to `(physical_block, offset)`.
    pub fn block_for(&self, seq: usize, pos: usize) -> (r: Result<(usize, usize), PagedKvError>)
        ensures
            self@.wf(),
            !self@.seqs.contains_key(seq) ==> r == Err::<(usize, usize), PagedKvError>(
                PagedKvError::UnknownSequence(seq),
            ),
            self@.seqs.contains_key(seq) && pos >= self@.seqs[seq].len ==> r == Err::<
                (usize, usize),
                PagedKvError,
            >(PagedKvError::OutOfRange { pos, len: self@.seqs[seq].len as usize }),
            self@.seqs.contains_key(seq) && pos < self@.seqs[seq].len ==> r == Ok::<
                (usize, usize),
                PagedKvError,
            >(
                (
                    self@.seqs[seq].blocks[(pos as nat / self@.block_size) as int],
                    (pos as nat % self@.block_size) as usize,
                ),
            ),
    {
        proof {
            use_type_invariant(self);
        }
        self.core.block_for(seq, pos)
    }

    /// The physical blocks a sequence currently holds (logical order).
    pub fn blocks_of(&self, seq: usize) -> (r: Option<&[usize]>)
        ensures
            self@.wf(),
            !self@.seqs.contains_key(seq) ==> r is None,
            self@.seqs.contains_key(seq) ==> r is Some && r->0@ == self@.seqs[seq].blocks,
    {
        proof {
            use_type_invariant(self);
        }
        self.core.blocks_of(seq)
    }
}

/// Freeing a fresh fork undoes it: the refcounts, the free pool and the live
/// sequences are again those from before the fork.
pub proof fn law_fork_then_free_restores(st: KvState, seq: usize)
    requires
        st.wf(),
        st.seqs.contains_key(seq),
        st.next_id < usize::MAX,
        st.refcounts.len() <= usize::MAX,
        forall|i: int| 0 <= i < st.seqs[seq].blocks.len() ==> st.refcounts[#[trigger] st.seqs[seq].blocks[i] as int]
            < u32::MAX,
    ensures
        st.forked(seq).released(st.next_id as usize).refcounts == st.refcounts,
        st.forked(seq).released(st.next_id as usize).free == st.free,
        st.forked(seq).released(st.next_id as usize).seqs == st.seqs,
{
    let f = st.forked(seq);
    let id = st.next_id as usize;
    let r = f.released(id);
    let blocks = st.seqs[seq].blocks;
    assert(!st.seqs.contains_key(id));
    assert(f.seqs[id] == st.seqs[seq]);
    assert(r.refcounts =~= st.refcounts) by {
        assert forall|b: int| 0 <= b < st.refcounts.len() implies r.refcounts[b] == st.refcounts[b] by {
            if blocks.contains(b as usize) {
                let j = choose|j: int| 0 <= j < blocks.len() && blocks[j] == b as usize;
                assert(st.refcounts[blocks[j] as int] < u32::MAX);
            }
        }
    }
    let pred = |b: usize| f.refcounts[b as int] == 1;
    assert forall|j: int| 0 <= j < blocks.len() implies !pred(#[trigger] blocks[j]) by {
        lemma_held_positive(st, seq, j);
        assert(st.seqs[seq].blocks[j] < st.refcounts.len());
        assert(blocks.contains(blocks[j]));
    }
    blocks.lemma_all_neg_filter_empty(pred);
    assert(r.free =~= st.free);
    assert(r.seqs =~= st.seqs);
}

/// Every allocator operation keeps the invariant; in particular a fork never
/// allocates and leaves the free pool untouched.
pub proof fn law_fork_allocates_nothing(st: KvState, seq: usize)
    requires
        st.wf(),
        st.seqs.contains_key(seq),
    ensures
        st.forked(seq).free == st.free,
        st.forked(seq).seqs[st.next_id as usize].blocks == st.seqs[seq].blocks,
{
}

/// An append that succeeds leaves `seq` with `count` more tokens, held in
/// exactly as many blocks as that length needs, and every other live sequence
/// as it was (a fork's growth never alters its parent).
pub proof fn law_append_grows_only_its_sequence(st: KvState, seq: usize, count: nat)
    requires
        st.wf(),
        st.seqs.contains_key(seq),
        !(st.cow_needed(seq) && st.free.len() == 0),
        st.after_cow(seq).extra_blocks(seq, st.seqs[seq].len + count) <= st.after_cow(seq).free.len(),
    ensures
        ({
            let mid = st.after_cow(seq);
            let new_len = st.seqs[seq].len + count;
            let nt = mid.grown(seq, new_len, mid.extra_blocks(seq, new_len));
            &&& nt.seqs.dom() == st.seqs.dom()
            &&& nt.seqs[seq].len == new_len
            &&& nt.seqs[seq].blocks.len() == blocks_needed_spec(new_len, st.block_size)
            &&& forall|x: usize| #[trigger] st.seqs.contains_key(x) && x != seq ==> nt.seqs[x] == st.seqs[x]
        }),
{
    let mid = st.after_cow(seq);
    let new_len = st.seqs[seq].len + count;
    lemma_blocks_needed_mono(st.seqs[seq].len, new_len, st.block_size);
    assert(mid.seqs[seq].blocks.len() == st.seqs[seq].blocks.len());
    assert(mid.seqs.dom() =~= st.seqs.dom());
    let nt = mid.grown(seq, new_len, mid.extra_blocks(seq, new_len));
    assert(nt.seqs.dom() =~= st.seqs.dom());
}

/// The copy-on-write step of an append, which an append that then runs out
/// of blocks keeps, changes no sequence's length or block count, and no other
/// sequence.
pub proof fn law_append_out_of_blocks_keeps_lengths(st: KvState, seq: usize)
    requires
        st.wf(),
        st.seqs.contains_key(seq),
    ensures
        ({
            let mid = st.after_cow(seq);
            &&& mid.seqs.dom() == st.seqs.dom()
            &&& mid.seqs[seq].len == st.seqs[seq].len
            &&& mid.seqs[seq].blocks.len() == st.seqs[seq].blocks.len()
            &&& forall|x: usize| #[trigger] st.seqs.contains_key(x) && x != seq ==> mid.seqs[x] == st.seqs[x]
        }),
{
    assert(st.after_cow(seq).seqs.dom() =~= st.seqs.dom());
}

/// The blocks some live sequence holds.
pub open spec fn blocks_in_use(st: KvState) -> Set<usize> {
    Set::new(
        |b: usize|
            b < st.refcounts.len() && exists|s: usize| #[trigger] st.seqs.contains_key(s) && st.seqs[s].blocks.contains(b),
    )
}

proof fn lemma_ids_below(k: usize)
    ensures
        Set::new(|b: usize| b < k).finite(),
        Set::new(|b: usize| b < k).len() == k,
    decreases k,
{
    if k == 0 {
        assert(Set::new(|b: usize| b < k) =~= Set::<usize>::empty());
    } else {
        lemma_ids_below((k - 1) as usize);
        assert(Set::new(|b: usize| b < k) =~= Set::new(|b: usize| b < (k - 1) as usize).insert((k - 1) as usize));
    }
}

/// Block accounting: the free pool lists, once each, exactly the blocks no
/// live sequence holds, so the free blocks number the total less those in
/// use.
pub proof fn law_free_blocks_are_the_unused_ones(st: KvState)
    requires
        st.wf(),
        st.refcounts.len() <= usize::MAX,
    ensures
        st.free.no_duplicates(),
        st.free.to_set() == Set::new(|b: usize| b < st.refcounts.len() && !blocks_in_use(st).contains(b)),
        blocks_in_use(st).finite(),
        st.free.len() == st.refcounts.len() - blocks_in_use(st).len(),
{
    let n = st.refcounts.len() as usize;
    let all = Set::new(|b: usize| b < n);
    let used = blocks_in_use(st);
    lemma_ids_below(n);
    assert forall|b: usize| b < n implies (#[trigger] used.contains(b) <==> st.refcounts[b as int] != 0) by {
        let h = holders(st.seqs, b);
        assert(h.finite());
        if used.contains(b) {
            let s = choose|s: usize| #[trigger] st.seqs.contains_key(s) && st.seqs[s].blocks.contains(b);
            assert(h.contains(s));
            assert(h.len() != 0);
        } else {
            assert(h =~= Set::<usize>::empty());
        }
    }
    assert forall|b: usize| #[trigger] st.free.to_set().contains(b) <==> (b < n && !used.contains(b)) by {
        if st.free.to_set().contains(b) {
            let i = choose|i: int| 0 <= i < st.free.len() && st.free[i] == b;
            assert(st.free[i] < st.refcounts.len());
        }
    }
    let free_set = Set::new(|b: usize| b < st.refcounts.len() && !blocks_in_use(st).contains(b));
    assert(st.free.to_set() =~= free_set);
    assert(used.subset_of(all));
    vstd::set_lib::lemma_len_subset(used, all);
    assert(free_set =~= all.difference(used));
    assert(all.intersect(used) =~= used);
    vstd::set_lib::lemma_set_difference_len(all, used);
    st.free.unique_seq_to_set();
}

} // verus!
