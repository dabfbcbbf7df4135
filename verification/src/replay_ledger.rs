//! An append-only, hash-chained replay ledger: every entry's hash folds in the
//! previous entry's hash, so altering a past entry breaks the chain from that
//! point on and `verify` pinpoints where.
//!
//! The hash is 64-bit FNV-1a: deterministic and tamper-evident, not
//! cryptographically tamper-proof.
use vstd::prelude::*;
use vstd::string::*;
use vstd::utf8::*;

verus! {

/// Schema version of the replay-ledger surface.
pub const SCHEMA_VERSION: &'static str = "1.0.0";

/// The FNV-1a 64-bit offset basis.
pub const FNV_OFFSET: u64 = 0xcbf2_9ce4_8422_2325;

/// The FNV-1a 64-bit prime.
pub const FNV_PRIME: u64 = 0x0000_0100_0000_01b3;

/// One FNV-1a round: xor in the byte, then multiply by the prime modulo 2^64.
pub open spec fn fnv_step(h: u64, x: u8) -> u64 {
    (((h ^ (x as u64)) as nat * FNV_PRIME as nat) % 0x1_0000_0000_0000_0000nat) as u64
}

/// FNV-1a over `bytes`, starting from the state `h`.
pub open spec fn fnv_from(h: u64, bytes: Seq<u8>) -> u64
    decreases bytes.len(),
{
    if bytes.len() == 0 {
        h
    } else {
        fnv_step(fnv_from(h, bytes.drop_last()), bytes.last())
    }
}

/// The 64-bit FNV-1a hash of `bytes`.
pub open spec fn fnv1a_spec(bytes: Seq<u8>) -> u64 {
    fnv_from(FNV_OFFSET, bytes)
}

/// The eight little-endian bytes of `x`.
pub open spec fn le_bytes(x: u64) -> Seq<u8> {
    seq![
        x as u8,
        (x >> 8u64) as u8,
        (x >> 16u64) as u8,
        (x >> 24u64) as u8,
        (x >> 32u64) as u8,
        (x >> 40u64) as u8,
        (x >> 48u64) as u8,
        (x >> 56u64) as u8,
    ]
}

/// An entry's hash: FNV-1a over `seq ‖ prev_hash ‖ payload`, the integers in
/// little-endian order and the payload as its UTF-8 bytes.
pub open spec fn entry_hash_spec(seq: u64, prev_hash: u64, payload: Seq<u8>) -> u64 {
    fnv1a_spec(le_bytes(seq) + le_bytes(prev_hash) + payload)
}

/// One chained log entry.
#[derive(Debug, Clone, PartialEq, Eq)]
pub struct Entry {
    /// Sequence number (0-based, contiguous).
    pub seq: u64,
    /// Opaque payload (event data).
    pub payload: String,
    /// Hash of the previous entry (`0` for the genesis entry).
    pub prev_hash: u64,
    /// This entry's hash = `fnv1a(seq ‖ prev_hash ‖ payload)`.
    pub hash: u64,
}

/// Ledger integrity errors.
#[derive(Debug, Clone, Copy, PartialEq, Eq, Structural)]
pub enum LedgerError {
    /// An entry's recomputed hash or prev-link did not match: tampering.
    Tampered {
        /// The first entry whose integrity failed.
        seq: u64,
    },
    /// Sequence numbers were not contiguous from 0.
    NonContiguous {
        /// Position in the entry vector.
        index: usize,
        /// Expected seq.
        expected: u64,
        /// Observed seq.
        got: u64,
    },
}

/// The hash that entry `i` must link to: the previous entry's hash, `0`
/// for the genesis entry.
pub open spec fn prev_of(es: Seq<Entry>, i: int) -> u64 {
    if i == 0 {
        0
    } else {
        es[i - 1].hash
    }
}

/// Entry `i` has the right sequence number, links to its predecessor and
/// carries its own hash.
pub open spec fn entry_ok(es: Seq<Entry>, i: int) -> bool {
    &&& es[i].seq == i
    &&& es[i].prev_hash == prev_of(es, i)
    &&& es[i].hash == entry_hash_spec(es[i].seq, es[i].prev_hash, encode_utf8(es[i].payload@))
}

/// Every entry of `es` is in order.
pub open spec fn chain_ok(es: Seq<Entry>) -> bool {
    forall|i: int| 0 <= i < es.len() ==> #[trigger] entry_ok(es, i)
}

/// The error `verify` reports for the faulty entry `i`.
pub open spec fn fault_at(es: Seq<Entry>, i: int) -> LedgerError {
    if es[i].seq != i {
        LedgerError::NonContiguous { index: i as usize, expected: i as u64, got: es[i].seq }
    } else {
        LedgerError::Tampered { seq: es[i].seq }
    }
}

/// FNV-1a over `bytes`, from the state `h`.
pub(crate) fn fnv_extend(h: u64, bytes: &[u8]) -> (r: u64)
    ensures
        r == fnv_from(h, bytes@),
{
    let mut h = h;
    let ghost h0 = h;
    let mut i: usize = 0;
    while i < bytes.len()
        invariant
            i <= bytes@.len(),
            h == fnv_from(h0, bytes@.take(i as int)),
        decreases bytes@.len() - i,
    {
        proof {
            assert(bytes@.take(i + 1).drop_last() =~= bytes@.take(i as int));
        }
        h = (h ^ (bytes[i] as u64)).wrapping_mul(FNV_PRIME);
        i += 1;
    }
    proof {
        assert(bytes@.take(bytes@.len() as int) =~= bytes@);
    }
    h
}

pub(crate) fn fnv1a(bytes: &[u8]) -> (h: u64)
    ensures
        h == fnv1a_spec(bytes@),
{
    fnv_extend(FNV_OFFSET, bytes)
}

pub(crate) fn push_le(buf: &mut Vec<u8>, x: u64)
    ensures
        final(buf)@ == old(buf)@ + le_bytes(x),
{
    buf.push(x as u8);
    buf.push((x >> 8u64) as u8);
    buf.push((x >> 16u64) as u8);
    buf.push((x >> 24u64) as u8);
    buf.push((x >> 32u64) as u8);
    buf.push((x >> 40u64) as u8);
    buf.push((x >> 48u64) as u8);
    buf.push((x >> 56u64) as u8);
    assert(buf@ =~= old(buf)@ + le_bytes(x));
}

/// Compute an entry's hash from its fields.
pub fn entry_hash(seq: u64, prev_hash: u64, payload: &str) -> (h: u64)
    ensures
        h == entry_hash_spec(seq, prev_hash, encode_utf8(payload@)),
{
    let mut buf: Vec<u8> = Vec::new();
    push_le(&mut buf, seq);
    push_le(&mut buf, prev_hash);
    let ghost head = buf@;
    let pb = payload.as_bytes();
    let mut i: usize = 0;
    while i < pb.len()
        invariant
            i <= pb@.len(),
            buf@ == head + pb@.take(i as int),
        decreases pb@.len() - i,
    {
        buf.push(pb[i]);
        i += 1;
        proof {
            assert(buf@ =~= head + pb@.take(i as int));
        }
    }
    proof {
        assert(pb@.take(pb@.len() as int) =~= pb@);
    }
    fnv1a(&buf)
}

/// An append-only, hash-chained replay ledger.
#[derive(Debug, Clone)]
pub struct ReplayLedger {
    entries: Vec<Entry>,
}

impl View for ReplayLedger {
    type V = Seq<Entry>;

    closed spec fn view(&self) -> Seq<Entry> {
        self.entries@
    }
}

impl Default for ReplayLedger {
    fn default() -> (r: Self)
        ensures
            r@ == Seq::<Entry>::empty(),
    {
        ReplayLedger { entries: Vec::new() }
    }
}

/// The chain tip: the last entry's hash, `0` for an empty ledger.
pub open spec fn head_of(es: Seq<Entry>) -> u64 {
    if es.len() == 0 {
        0
    } else {
        es.last().hash
    }
}

impl ReplayLedger {
    /// An empty ledger.
    pub fn new() -> (r: Self)
        ensures
            r@ == Seq::<Entry>::empty(),
    {
        ReplayLedger { entries: Vec::new() }
    }

    /// Append a payload; returns the new entry's sequence number. The new
    /// entry links to the old chain tip and carries its own hash, so a ledger
    /// whose chain verifies still verifies afterwards.
    pub fn append(&mut self, payload: &str) -> (seq: u64)
        requires
            old(self)@.len() < u64::MAX,
        ensures
            seq == old(self)@.len(),
            final(self)@.len() == old(self)@.len() + 1,
            final(self)@.take(old(self)@.len() as int) == old(self)@,
            final(self)@.last().seq == seq,
            final(self)@.last().payload@ == payload@,
            final(self)@.last().prev_hash == head_of(old(self)@),
            final(self)@.last().hash == entry_hash_spec(
                seq,
                head_of(old(self)@),
                encode_utf8(payload@),
            ),
            chain_ok(old(self)@) ==> chain_ok(final(self)@),
    {
        let seq = self.entries.len() as u64;
        let prev_hash = self.head_hash();
        let hash = entry_hash(seq, prev_hash, payload);
        let ghost before = self.entries@;
        self.entries.push(Entry { seq, payload: payload.to_owned(), prev_hash, hash });
        proof {
            assert(self.entries@.take(before.len() as int) =~= before);
            if chain_ok(before) {
                assert forall|i: int| 0 <= i < self.entries@.len() implies entry_ok(
                    self.entries@,
                    i,
                ) by {
                    if i < before.len() {
                        assert(entry_ok(before, i));
                        assert(self.entries@[i] == before[i]);
                        if i > 0 {
                            assert(self.entries@[i - 1] == before[i - 1]);
                        }
                    }
                }
            }
        }
        seq
    }

    /// Number of entries.
    pub fn len(&self) -> (n: usize)
        ensures
            n == self@.len(),
    {
        self.entries.len()
    }

    /// Whether the ledger is empty.
    pub fn is_empty(&self) -> (r: bool)
        ensures
            r == (self@.len() == 0),
    {
        self.entries.len() == 0
    }

    /// The head hash (chain tip), `0` for an empty ledger.
    pub fn head_hash(&self) -> (h: u64)
        ensures
            h == head_of(self@),
    {
        let n = self.entries.len();
        if n == 0 {
            0
        } else {
            self.entries[n - 1].hash
        }
    }

    /// Read an entry by sequence number.
    pub fn get(&self, seq: u64) -> (r: Option<&Entry>)
        ensures
            seq < self@.len() ==> r == Some(&self@[seq as int]),
            seq >= self@.len() ==> r is None,
    {
        if seq < self.entries.len() as u64 {
            Some(&self.entries[seq as usize])
        } else {
            None
        }
    }

    /// All entries from `seq` onward (replay window); empty past the end.
    pub fn replay_from(&self, seq: u64) -> (r: &[Entry])
        ensures
            seq < self@.len() ==> r@ == self@.subrange(seq as int, self@.len() as int),
            seq >= self@.len() ==> r@.len() == 0,
    {
        let n = self.entries.len();
        let start: usize = if seq < n as u64 {
            seq as usize
        } else {
            n
        };
        let (_, tail) = self.entries.as_slice().split_at(start);
        tail
    }

    /// Reconstruct a ledger from stored entries (e.g. loaded from disk).
    pub fn from_entries(entries: Vec<Entry>) -> (r: Self)
        ensures
            r@ == entries@,
    {
        ReplayLedger { entries }
    }

    /// Borrow the raw entries.
    pub fn entries(&self) -> (r: &[Entry])
        ensures
            r@ == self@,
    {
        self.entries.as_slice()
    }

    /// Verify the chain: contiguous seqs, correct prev-links, and each hash
    /// recomputes. On failure, reports the first faulty entry.
    pub fn verify(&self) -> (r: Result<(), LedgerError>)
        ensures
            r is Ok <==> chain_ok(self@),
            r is Err ==> exists|i: int|
                0 <= i < self@.len() && (forall|j: int| 0 <= j < i ==> entry_ok(self@, j)) && !entry_ok(
                    self@,
                    i,
                ) && r == Err::<(), LedgerError>(fault_at(self@, i)),
    {
        let mut expected_prev: u64 = 0;
        let mut i: usize = 0;
        while i < self.entries.len()
            invariant
                i <= self@.len(),
                self@ == self.entries@,
                forall|j: int| 0 <= j < i ==> entry_ok(self@, j),
                expected_prev == prev_of(self@, i as int),
            decreases self@.len() - i,
        {
            let e = &self.entries[i];
            if e.seq != i as u64 {
                proof {
                    assert(!entry_ok(self@, i as int));
                }
                return Err(LedgerError::NonContiguous { index: i, expected: i as u64, got: e.seq });
            }
            if e.prev_hash != expected_prev || e.hash != entry_hash(
                e.seq,
                e.prev_hash,
                e.payload.as_str(),
            ) {
                proof {
                    assert(!entry_ok(self@, i as int));
                }
                return Err(LedgerError::Tampered { seq: e.seq });
            }
            expected_prev = e.hash;
            i += 1;
        }
        Ok(())
    }
}

/// A ledger whose chain verifies still verifies after an append.
pub proof fn law_append_keeps_chain(before: Seq<Entry>, after: Seq<Entry>)
    requires
        chain_ok(before),
        after.len() == before.len() + 1,
        after.take(before.len() as int) == before,
        after.last().seq == before.len(),
        after.last().prev_hash == head_of(before),
        after.last().hash == entry_hash_spec(
            after.last().seq,
            after.last().prev_hash,
            encode_utf8(after.last().payload@),
        ),
    ensures
        chain_ok(after),
{
    assert forall|i: int| 0 <= i < after.len() implies entry_ok(after, i) by {
        if i < before.len() {
            assert(after[i] == after.take(before.len() as int)[i]);
            assert(entry_ok(before, i));
            if i > 0 {
                assert(after[i - 1] == after.take(before.len() as int)[i - 1]);
            }
        }
    }
}

/// Changing the payload of entry `i` of a verified chain, without rehashing,
/// is reported as tampering at `i`, unless the new payload happens to hash to
/// the same value.
pub proof fn law_payload_tamper_detected(es: Seq<Entry>, i: int, forged: Entry)
    requires
        chain_ok(es),
        0 <= i < es.len(),
        forged.seq == es[i].seq,
        forged.prev_hash == es[i].prev_hash,
        forged.hash == es[i].hash,
        entry_hash_spec(forged.seq, forged.prev_hash, encode_utf8(forged.payload@)) != es[i].hash,
    ensures
        !chain_ok(es.update(i, forged)),
        forall|j: int| 0 <= j < i ==> entry_ok(es.update(i, forged), j),
        !entry_ok(es.update(i, forged), i),
        fault_at(es.update(i, forged), i) == (LedgerError::Tampered { seq: i as u64 }),
{
    let t = es.update(i, forged);
    assert forall|j: int| 0 <= j < i implies entry_ok(t, j) by {
        assert(entry_ok(es, j));
    }
    assert(entry_ok(es, i));
    assert(!entry_ok(t, i));
}

/// Rehashing a forged entry `i` so that it checks by itself still breaks the
/// link from entry `i + 1`, which is reported as tampering there, as long as
/// the forged hash differs from the original one.
pub proof fn law_rehashed_tamper_breaks_next_link(es: Seq<Entry>, i: int, forged: Entry)
    requires
        chain_ok(es),
        0 <= i && i + 1 < es.len(),
        forged.seq == es[i].seq,
        forged.prev_hash == es[i].prev_hash,
        forged.hash == entry_hash_spec(forged.seq, forged.prev_hash, encode_utf8(forged.payload@)),
        forged.hash != es[i].hash,
    ensures
        forall|j: int| 0 <= j <= i ==> entry_ok(es.update(i, forged), j),
        !entry_ok(es.update(i, forged), i + 1),
        fault_at(es.update(i, forged), i + 1) == (LedgerError::Tampered { seq: (i + 1) as u64 }),
{
    let t = es.update(i, forged);
    assert forall|j: int| 0 <= j <= i implies entry_ok(t, j) by {
        assert(entry_ok(es, j));
    }
    assert(entry_ok(es, i + 1));
}

} // verus!
