//! PCIe discipline for the ProArt X870E-Creator board: the slot map, the
//! recommended layout and a validator that catches the lane-sharing trap
//! (populating `PCIEX16_2` and `M.2_2` together starves one of them), plus the
//! human-readable advisory built from them.
use vstd::prelude::*;
use vstd::string::*;

verus! {

/// A physical slot on the board.
#[derive(Debug, Clone, Copy, PartialEq, Eq, Hash, Structural)]
pub enum PcieSlot {
    /// PCIEX16_1: primary x16 (CPU, Gen 5).
    X16_1,
    /// PCIEX16_2: secondary (CPU, Gen 5); shares lanes with M.2_2.
    X16_2,
    /// M.2_1: CPU Gen 5 x4.
    M2_1,
    /// M.2_2: shares lanes with PCIEX16_2.
    M2_2,
    /// M.2_3: chipset.
    M2_3,
    /// M.2_4: chipset.
    M2_4,
}

/// A slot's electrical spec.
#[derive(Debug, Clone, Copy, PartialEq, Eq, Structural)]
pub struct SlotSpec {
    /// The slot.
    pub slot: PcieSlot,
    /// Maximum electrical lane width when not contended.
    pub max_lanes: u8,
    /// PCIe generation.
    pub pcie_gen: u8,
    /// The slot it contends with when both are populated, if any.
    pub shares_with: Option<PcieSlot>,
}

/// The six-slot map.
pub open spec fn slot_map_spec() -> Seq<SlotSpec> {
    seq![
        SlotSpec { slot: PcieSlot::X16_1, max_lanes: 16, pcie_gen: 5, shares_with: None },
        SlotSpec { slot: PcieSlot::X16_2, max_lanes: 8, pcie_gen: 5, shares_with: Some(PcieSlot::M2_2) },
        SlotSpec { slot: PcieSlot::M2_1, max_lanes: 4, pcie_gen: 5, shares_with: None },
        SlotSpec { slot: PcieSlot::M2_2, max_lanes: 4, pcie_gen: 5, shares_with: Some(PcieSlot::X16_2) },
        SlotSpec { slot: PcieSlot::M2_3, max_lanes: 4, pcie_gen: 4, shares_with: None },
        SlotSpec { slot: PcieSlot::M2_4, max_lanes: 4, pcie_gen: 4, shares_with: None },
    ]
}

/// The slot that `s` shares lanes with, if any.
pub open spec fn partner(s: PcieSlot) -> Option<PcieSlot> {
    match s {
        PcieSlot::X16_2 => Some(PcieSlot::M2_2),
        PcieSlot::M2_2 => Some(PcieSlot::X16_2),
        _ => None,
    }
}

/// The six-slot map. `PCIEX16_2` and `M.2_2` share lanes with each other.
pub fn slot_map() -> (r: [SlotSpec; 6])
    ensures
        r@ == slot_map_spec(),
{
    let r = [
        SlotSpec { slot: PcieSlot::X16_1, max_lanes: 16, pcie_gen: 5, shares_with: None },
        SlotSpec { slot: PcieSlot::X16_2, max_lanes: 8, pcie_gen: 5, shares_with: Some(PcieSlot::M2_2) },
        SlotSpec { slot: PcieSlot::M2_1, max_lanes: 4, pcie_gen: 5, shares_with: None },
        SlotSpec { slot: PcieSlot::M2_2, max_lanes: 4, pcie_gen: 5, shares_with: Some(PcieSlot::X16_2) },
        SlotSpec { slot: PcieSlot::M2_3, max_lanes: 4, pcie_gen: 4, shares_with: None },
        SlotSpec { slot: PcieSlot::M2_4, max_lanes: 4, pcie_gen: 4, shares_with: None },
    ];
    assert(r@ =~= slot_map_spec());
    r
}

/// One placement: a device in a slot.
#[derive(Debug, Clone, PartialEq, Eq)]
pub struct Placement {
    /// The slot used.
    pub slot: PcieSlot,
    /// What is plugged in (e.g. `"nvme-zfs-0"`).
    pub device: String,
}

/// The recommended layout: the two internal cards at x8/x8, the Blackwell
/// oracle in `PCIEX16_1` and the secondary in `PCIEX16_2`, `M.2_2` left empty
/// (it shares lanes with `PCIEX16_2`), NVMe on `M.2_1` and `M.2_3`, and the
/// 4090 scout on its OcuLink adapter in `M.2_4`.
pub open spec fn layout_spec() -> Seq<(PcieSlot, Seq<char>)> {
    seq![
        (PcieSlot::X16_1, "blackwell-oracle"@),
        (PcieSlot::X16_2, "rtx-5090-secondary"@),
        (PcieSlot::M2_1, "nvme-zfs-0"@),
        (PcieSlot::M2_3, "nvme-zfs-1"@),
        (PcieSlot::M2_4, "rocm-4090"@),
    ]
}

/// The (slot, device) pairs of a list of placements.
pub open spec fn pairs(ps: Seq<Placement>) -> Seq<(PcieSlot, Seq<char>)> {
    ps.map_values(|p: Placement| (p.slot, p.device@))
}

/// The recommended layout.
pub fn recommended_layout() -> (r: Vec<Placement>)
    ensures
        pairs(r@) == layout_spec(),
{
    let mut v: Vec<Placement> = Vec::new();
    v.push(Placement { slot: PcieSlot::X16_1, device: "blackwell-oracle".to_owned() });
    v.push(Placement { slot: PcieSlot::X16_2, device: "rtx-5090-secondary".to_owned() });
    v.push(Placement { slot: PcieSlot::M2_1, device: "nvme-zfs-0".to_owned() });
    v.push(Placement { slot: PcieSlot::M2_3, device: "nvme-zfs-1".to_owned() });
    v.push(Placement { slot: PcieSlot::M2_4, device: "rocm-4090".to_owned() });
    assert(pairs(v@) =~= layout_spec());
    v
}

/// Why a population is invalid.
#[derive(Debug, Clone, Copy, PartialEq, Eq, Structural)]
pub enum PcieError {
    /// Two mutually lane-sharing slots are both populated.
    LaneSharingConflict(PcieSlot, PcieSlot),
    /// The same slot was populated twice.
    DuplicateSlot(PcieSlot),
}

/// Some placement of `ps` before index `end` uses `s`.
pub open spec fn used_before(ps: Seq<PcieSlot>, end: int, s: PcieSlot) -> bool {
    exists|j: int| 0 <= j < end && ps[j] == s
}

/// The slot of the first placement (from `from` on) whose slot was used
/// before it.
pub open spec fn first_duplicate(ps: Seq<PcieSlot>, from: int) -> Option<PcieSlot>
    decreases ps.len() - from,
{
    if from < 0 || from >= ps.len() {
        None
    } else if used_before(ps, from, ps[from]) {
        Some(ps[from])
    } else {
        first_duplicate(ps, from + 1)
    }
}

/// The first placement (from `from` on) whose lane-sharing partner is also
/// populated, with that partner.
pub open spec fn first_conflict(ps: Seq<PcieSlot>, from: int) -> Option<(PcieSlot, PcieSlot)>
    decreases ps.len() - from,
{
    if from < 0 || from >= ps.len() {
        None
    } else if partner(ps[from]) is Some && ps.contains(partner(ps[from])->0) {
        Some((ps[from], partner(ps[from])->0))
    } else {
        first_conflict(ps, from + 1)
    }
}

/// The outcome of validating placements in the slots `ps`: the first
/// duplicate slot, else the first lane-sharing conflict, else success.
pub open spec fn validation(ps: Seq<PcieSlot>) -> Result<(), PcieError> {
    match first_duplicate(ps, 0) {
        Some(s) => Err(PcieError::DuplicateSlot(s)),
        None => match first_conflict(ps, 0) {
            Some((a, b)) => Err(PcieError::LaneSharingConflict(a, b)),
            None => Ok(()),
        },
    }
}

/// The slots of a list of placements.
pub open spec fn slots(ps: Seq<Placement>) -> Seq<PcieSlot> {
    ps.map_values(|p: Placement| p.slot)
}

fn partner_of(s: PcieSlot) -> (r: Option<PcieSlot>)
    ensures
        r == partner(s),
{
    let map = slot_map();
    let mut i: usize = 0;
    while i < 6
        invariant
            i <= 6,
            map@ == slot_map_spec(),
            forall|j: int| 0 <= j < i ==> map@[j].slot != s,
        decreases 6 - i,
    {
        if map[i].slot == s {
            return map[i].shares_with;
        }
        i += 1;
    }
    None
}

fn populated(ps: &[Placement], end: usize, s: PcieSlot) -> (r: bool)
    requires
        end <= ps@.len(),
    ensures
        r == used_before(slots(ps@), end as int, s),
{
    let mut j: usize = 0;
    while j < end
        invariant
            j <= end <= ps@.len(),
            forall|m: int| 0 <= m < j ==> slots(ps@)[m] != s,
        decreases end - j,
    {
        if ps[j].slot == s {
            proof {
                assert(slots(ps@)[j as int] == s);
            }
            return true;
        }
        j += 1;
    }
    false
}

/// Validate a set of placements against the lane-sharing rules: no slot
/// twice, and no lane-sharing pair with both members populated.
pub fn validate(placements: &[Placement]) -> (r: Result<(), PcieError>)
    ensures
        r == validation(slots(placements@)),
{
    let ghost ss = slots(placements@);
    let n = placements.len();
    let mut i: usize = 0;
    while i < n
        invariant
            n == placements@.len(),
            ss == slots(placements@),
            i <= n,
            first_duplicate(ss, 0) == first_duplicate(ss, i as int),
        decreases n - i,
    {
        let s = placements[i].slot;
        if populated(placements, i, s) {
            return Err(PcieError::DuplicateSlot(s));
        }
        i += 1;
    }
    let mut k: usize = 0;
    while k < n
        invariant
            n == placements@.len(),
            ss == slots(placements@),
            k <= n,
            first_duplicate(ss, 0) is None,
            first_conflict(ss, 0) == first_conflict(ss, k as int),
        decreases n - k,
    {
        let s = placements[k].slot;
        match partner_of(s) {
            Some(other) => {
                if populated(placements, n, other) {
                    proof {
                        let j = choose|j: int| 0 <= j < n && ss[j] == other;
                        assert(ss.contains(other));
                    }
                    return Err(PcieError::LaneSharingConflict(s, other));
                }
                proof {
                    if ss.contains(other) {
                        let j = choose|j: int| 0 <= j < ss.len() && ss[j] == other;
                        assert(used_before(ss, n as int, other));
                    }
                }
            },
            None => {},
        }
        k += 1;
    }
    Ok(())
}

/// Validate a proposed population: the same as `validate`.
pub fn check(placements: &[Placement]) -> (r: Result<(), PcieError>)
    ensures
        r == validation(slots(placements@)),
{
    validate(placements)
}

// ---------------------------------------------------------------------------
// The advisory.

/// The name a slot is shown by (its variant name).
pub open spec fn slot_name_spec(s: PcieSlot) -> Seq<char> {
    match s {
        PcieSlot::X16_1 => "X16_1"@,
        PcieSlot::X16_2 => "X16_2"@,
        PcieSlot::M2_1 => "M2_1"@,
        PcieSlot::M2_2 => "M2_2"@,
        PcieSlot::M2_3 => "M2_3"@,
        PcieSlot::M2_4 => "M2_4"@,
    }
}

/// The name a slot is shown by.
pub fn slot_name(s: PcieSlot) -> (r: &'static str)
    ensures
        r@ == slot_name_spec(s),
{
    match s {
        PcieSlot::X16_1 => "X16_1",
        PcieSlot::X16_2 => "X16_2",
        PcieSlot::M2_1 => "M2_1",
        PcieSlot::M2_2 => "M2_2",
        PcieSlot::M2_3 => "M2_3",
        PcieSlot::M2_4 => "M2_4",
    }
}

/// The message of an error.
pub open spec fn message_spec(e: PcieError) -> Seq<char> {
    match e {
        PcieError::LaneSharingConflict(a, b) => slot_name_spec(a) + " and "@ + slot_name_spec(b)
            + " share lanes; populating both starves one (E0027)"@,
        PcieError::DuplicateSlot(s) => "slot "@ + slot_name_spec(s) + " populated more than once"@,
    }
}

impl PcieError {
    /// The error's message.
    pub fn message(&self) -> (r: String)
        ensures
            r@ == message_spec(*self),
    {
        match *self {
            PcieError::LaneSharingConflict(a, b) => {
                let mut s = slot_name(a).to_owned();
                s.append(" and ");
                s.append(slot_name(b));
                s.append(" share lanes; populating both starves one (E0027)");
                s
            },
            PcieError::DuplicateSlot(x) => {
                let mut s = "slot ".to_owned();
                s.append(slot_name(x));
                s.append(" populated more than once");
                s
            },
        }
    }
}

/// The advisory's lines for the slot map: each slot, and the slot it shares
/// lanes with.
pub open spec fn slot_lines(specs: Seq<SlotSpec>) -> Seq<char>
    decreases specs.len(),
{
    if specs.len() == 0 {
        Seq::empty()
    } else {
        slot_lines(specs.drop_last()) + match specs.last().shares_with {
            Some(o) => "  "@ + slot_name_spec(specs.last().slot) + " — shares lanes with "@
                + slot_name_spec(o) + "\n"@,
            None => "  "@ + slot_name_spec(specs.last().slot) + "\n"@,
        }
    }
}

/// The advisory's lines for a layout: each slot and its device.
pub open spec fn layout_lines(ps: Seq<(PcieSlot, Seq<char>)>) -> Seq<char>
    decreases ps.len(),
{
    if ps.len() == 0 {
        Seq::empty()
    } else {
        layout_lines(ps.drop_last()) + "  "@ + slot_name_spec(ps.last().0) + " ← "@ + ps.last().1
            + "\n"@
    }
}

/// The advisory: the slot map (marking the lane-sharing pairs), the
/// recommended layout, and the outcome of validating it.
pub open spec fn advisory_spec() -> Seq<char> {
    "ProArt X870E-Creator PCIe layout advisory (E0027/E0028)\n\n"@
        + "Slots (lane-sharing pairs starve each other if both populated):\n"@ + slot_lines(
        slot_map_spec(),
    ) + "\nRecommended layout (E0028 — leaves M.2_2 empty to keep x8/x8):\n"@ + layout_lines(
        layout_spec(),
    ) + match validation(layout_spec().map_values(|p: (PcieSlot, Seq<char>)| p.0)) {
        Ok(()) => "\nvalidates: OK (no lane-sharing conflict)\n"@,
        Err(e) => "\nvalidates: FAILED — "@ + message_spec(e) + "\n"@,
    }
}

/// A human-readable advisory: the slot map (marking lane-sharing pairs),
/// the recommended layout, and the result of validating it.
pub fn recommended_advisory() -> (r: String)
    ensures
        r@ == advisory_spec(),
{
    let mut s = "ProArt X870E-Creator PCIe layout advisory (E0027/E0028)\n\n".to_owned();
    s.append("Slots (lane-sharing pairs starve each other if both populated):\n");
    let map = slot_map();
    let ghost head = s@;
    let mut i: usize = 0;
    proof {
        assert(slot_map_spec().take(0) =~= Seq::<SlotSpec>::empty());
        assert(s@ =~= head + slot_lines(slot_map_spec().take(0)));
    }
    while i < 6
        invariant
            i <= 6,
            map@ == slot_map_spec(),
            s@ == head + slot_lines(slot_map_spec().take(i as int)),
        decreases 6 - i,
    {
        let spec = map[i];
        s.append("  ");
        s.append(slot_name(spec.slot));
        match spec.shares_with {
            Some(other) => {
                s.append(" — shares lanes with ");
                s.append(slot_name(other));
                s.append("\n");
            },
            None => {
                s.append("\n");
            },
        }
        proof {
            assert(slot_map_spec().take(i + 1).drop_last() =~= slot_map_spec().take(i as int));
        }
        i += 1;
    }
    proof {
        assert(slot_map_spec().take(6) =~= slot_map_spec());
    }
    let layout = recommended_layout();
    s.append("\nRecommended layout (E0028 — leaves M.2_2 empty to keep x8/x8):\n");
    let ghost head2 = s@;
    let mut k: usize = 0;
    proof {
        assert(layout_spec().take(0) =~= Seq::<(PcieSlot, Seq<char>)>::empty());
        assert(s@ =~= head2 + layout_lines(layout_spec().take(0)));
    }
    while k < layout.len()
        invariant
            k <= layout@.len(),
            pairs(layout@) == layout_spec(),
            s@ == head2 + layout_lines(layout_spec().take(k as int)),
        decreases layout@.len() - k,
    {
        let p = &layout[k];
        s.append("  ");
        s.append(slot_name(p.slot));
        s.append(" ← ");
        s.append(p.device.as_str());
        s.append("\n");
        proof {
            assert(pairs(layout@)[k as int] == (p.slot, p.device@));
            assert(layout_spec().take(k + 1).drop_last() =~= layout_spec().take(k as int));
        }
        k += 1;
    }
    proof {
        assert(layout_spec().take(5) =~= layout_spec());
        assert(slots(layout@) =~= layout_spec().map_values(|p: (PcieSlot, Seq<char>)| p.0));
    }
    match validate(layout.as_slice()) {
        Ok(()) => {
            s.append("\nvalidates: OK (no lane-sharing conflict)\n");
        },
        Err(e) => {
            s.append("\nvalidates: FAILED — ");
            let m = e.message();
            s.append(m.as_str());
            s.append("\n");
        },
    }
    s
}

proof fn lemma_first_duplicate(ps: Seq<PcieSlot>, from: int)
    requires
        0 <= from,
    ensures
        first_duplicate(ps, from) is None <==> forall|i: int|
            from <= i < ps.len() ==> !used_before(ps, i, #[trigger] ps[i]),
    decreases ps.len() - from,
{
    if from < ps.len() {
        lemma_first_duplicate(ps, from + 1);
    }
}

proof fn lemma_first_conflict(ps: Seq<PcieSlot>, from: int)
    requires
        0 <= from,
    ensures
        first_conflict(ps, from) is None <==> forall|i: int|
            from <= i < ps.len() ==> !(partner(#[trigger] ps[i]) is Some && ps.contains(
                partner(ps[i])->0,
            )),
    decreases ps.len() - from,
{
    if from < ps.len() {
        lemma_first_conflict(ps, from + 1);
    }
}

/// A population is accepted exactly when no slot is populated twice and no
/// slot is populated together with its lane-sharing partner.
pub proof fn law_validation_accepts_exactly(ps: Seq<PcieSlot>)
    ensures
        validation(ps) is Ok <==> ps.no_duplicates() && forall|i: int|
            0 <= i < ps.len() ==> !(partner(#[trigger] ps[i]) is Some && ps.contains(
                partner(ps[i])->0,
            )),
{
    lemma_first_duplicate(ps, 0);
    lemma_first_conflict(ps, 0);
    if ps.no_duplicates() {
        assert forall|i: int| 0 <= i < ps.len() implies !used_before(ps, i, #[trigger] ps[i]) by {
            if used_before(ps, i, ps[i]) {
                let j = choose|j: int| 0 <= j < i && ps[j] == ps[i];
                assert(ps[j] == ps[i]);
            }
        }
    }
    if first_duplicate(ps, 0) is None {
        assert forall|i: int, j: int| 0 <= i < ps.len() && 0 <= j < ps.len() && i != j implies ps[i]
            != ps[j] by {
            if i < j {
                assert(!used_before(ps, j, ps[j]));
            } else {
                assert(!used_before(ps, i, ps[i]));
            }
        }
    }
}

proof fn lemma_first_conflict_at(ps: Seq<PcieSlot>, from: int, k: int)
    requires
        0 <= from <= k < ps.len(),
        partner(ps[k]) is Some,
        ps.contains(partner(ps[k])->0),
        forall|j: int| 0 <= j < k ==> partner(#[trigger] ps[j]) is None,
    ensures
        first_conflict(ps, from) == Some((ps[k], partner(ps[k])->0)),
    decreases k - from,
{
    if from < k {
        lemma_first_conflict_at(ps, from + 1, k);
    }
}

/// With no slot populated twice, a population of both lane-sharing slots is
/// refused with a conflict that names first whichever of the two comes first.
pub proof fn law_conflict_names_the_earlier_of_the_pair(ps: Seq<PcieSlot>, k: int)
    requires
        ps.no_duplicates(),
        0 <= k < ps.len(),
        ps[k] == PcieSlot::X16_2 || ps[k] == PcieSlot::M2_2,
        ps.contains(partner(ps[k])->0),
        forall|j: int| 0 <= j < k ==> #[trigger] ps[j] != PcieSlot::X16_2 && ps[j] != PcieSlot::M2_2,
    ensures
        validation(ps) == Err::<(), PcieError>(PcieError::LaneSharingConflict(ps[k], partner(ps[k])->0)),
{
    lemma_first_duplicate(ps, 0);
    assert forall|i: int| 0 <= i < ps.len() implies !used_before(ps, i, #[trigger] ps[i]) by {
        if used_before(ps, i, ps[i]) {
            let j = choose|j: int| 0 <= j < i && ps[j] == ps[i];
            assert(ps[j] == ps[i]);
        }
    }
    assert forall|j: int| 0 <= j < k implies partner(#[trigger] ps[j]) is None by {
        assert(ps[j] != PcieSlot::X16_2 && ps[j] != PcieSlot::M2_2);
    }
    lemma_first_conflict_at(ps, 0, k);
}

proof fn lemma_first_duplicate_at(ps: Seq<PcieSlot>, from: int, j: int)
    requires
        0 <= from <= j < ps.len(),
        used_before(ps, j, ps[j]),
        forall|a: int, b: int| 0 <= a < b < j ==> ps[a] != ps[b],
    ensures
        first_duplicate(ps, from) == Some(ps[j]),
    decreases j - from,
{
    if from < j {
        assert(!used_before(ps, from, ps[from])) by {
            if used_before(ps, from, ps[from]) {
                let a = choose|a: int| 0 <= a < from && ps[a] == ps[from];
                assert(ps[a] != ps[from]);
            }
        }
        lemma_first_duplicate_at(ps, from + 1, j);
    }
}

/// A population that repeats a slot is refused, naming the slot of the first
/// placement that repeats an earlier one.
pub proof fn law_duplicate_names_the_first_repeat(ps: Seq<PcieSlot>, j: int)
    requires
        0 <= j < ps.len(),
        exists|i: int| 0 <= i < j && ps[i] == ps[j],
        forall|a: int, b: int| 0 <= a < b < j ==> ps[a] != ps[b],
    ensures
        validation(ps) == Err::<(), PcieError>(PcieError::DuplicateSlot(ps[j])),
{
    lemma_first_duplicate_at(ps, 0, j);
}

} // verus!
