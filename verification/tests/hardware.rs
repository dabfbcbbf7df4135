use sovereign_os::pcie::{
    check, recommended_advisory, recommended_layout, slot_map, validate, PcieError, PcieSlot,
    Placement,
};
use sovereign_os::precision_profile::Tiers;
use sovereign_os::pressure_reactions::ReactionTrigger;
use sovereign_os::pressure_sensors::{
    assert_doctrine_intact, validate_snapshot, PressureAxis, PressureError, ReadingBits,
    DOCTRINE_PRESSURE_AS_SENSATION, SCHEMA_VERSION as PRESSURE_SCHEMA,
};

fn place(slot: PcieSlot, device: &str) -> Placement {
    Placement { slot, device: device.into() }
}

#[test]
fn slot_map_marks_the_lane_sharing_pair() {
    let map = slot_map();
    let x16_2 = map.iter().find(|s| s.slot == PcieSlot::X16_2).unwrap();
    let m2_2 = map.iter().find(|s| s.slot == PcieSlot::M2_2).unwrap();
    assert_eq!(x16_2.shares_with, Some(PcieSlot::M2_2));
    assert_eq!(m2_2.shares_with, Some(PcieSlot::X16_2));
}

#[test]
fn recommended_layout_is_conflict_free() {
    validate(&recommended_layout()).unwrap();
    let layout = recommended_layout();
    assert!(layout.iter().any(|p| p.slot == PcieSlot::X16_2));
    assert!(!layout.iter().any(|p| p.slot == PcieSlot::M2_2));
}

#[test]
fn lane_sharing_trap_is_detected() {
    let bad = vec![place(PcieSlot::X16_2, "rocm-4090"), place(PcieSlot::M2_2, "nvme-extra")];
    assert_eq!(validate(&bad), Err(PcieError::LaneSharingConflict(PcieSlot::X16_2, PcieSlot::M2_2)));
}

#[test]
fn either_slot_alone_is_fine() {
    validate(&[place(PcieSlot::X16_2, "gpu")]).unwrap();
    validate(&[place(PcieSlot::M2_2, "nvme")]).unwrap();
}

#[test]
fn duplicate_slot_is_rejected() {
    let dup = vec![place(PcieSlot::M2_1, "a"), place(PcieSlot::M2_1, "b")];
    assert_eq!(validate(&dup), Err(PcieError::DuplicateSlot(PcieSlot::M2_1)));
}

#[test]
fn check_catches_the_lane_sharing_trap() {
    let trap = vec![
        Placement { slot: PcieSlot::X16_2, device: "rocm-4090".into() },
        Placement { slot: PcieSlot::M2_2, device: "nvme-extra".into() },
    ];
    assert!(matches!(check(&trap), Err(PcieError::LaneSharingConflict(..))));
    assert!(check(&recommended_layout()).is_ok());
}

#[test]
fn conflict_is_reported_for_the_first_member_in_order() {
    let bad = vec![place(PcieSlot::M2_2, "nvme"), place(PcieSlot::X16_1, "gpu"), place(PcieSlot::X16_2, "gpu2")];
    assert_eq!(validate(&bad), Err(PcieError::LaneSharingConflict(PcieSlot::M2_2, PcieSlot::X16_2)));
    let both = vec![place(PcieSlot::X16_2, "a"), place(PcieSlot::M2_2, "b"), place(PcieSlot::X16_2, "c")];
    assert_eq!(validate(&both), Err(PcieError::DuplicateSlot(PcieSlot::X16_2)));
}

#[test]
fn error_messages_name_the_slots() {
    assert_eq!(
        PcieError::LaneSharingConflict(PcieSlot::X16_2, PcieSlot::M2_2).message(),
        "X16_2 and M2_2 share lanes; populating both starves one (E0027)"
    );
    assert_eq!(PcieError::DuplicateSlot(PcieSlot::M2_1).message(), "slot M2_1 populated more than once");
}

#[test]
fn advisory_lists_slots_layout_and_verdict() {
    let a = recommended_advisory();
    assert!(a.starts_with("ProArt X870E-Creator PCIe layout advisory (E0027/E0028)\n\n"));
    assert!(a.contains("  X16_2 — shares lanes with M2_2\n"));
    assert!(a.contains("  M2_2 — shares lanes with X16_2\n"));
    assert!(a.contains("  X16_1\n"));
    assert!(a.contains("  X16_2 ← rtx-5090-secondary\n"));
    assert!(a.contains("  X16_1 ← blackwell-oracle\n"));
    assert!(a.contains("  M2_4 ← rocm-4090\n"));
    assert!(a.ends_with("\nvalidates: OK (no lane-sharing conflict)\n"));
}

#[test]
fn six_axes_positioned_correctly() {
    for (a, p) in [
        (PressureAxis::Cpu, 1),
        (PressureAxis::Memory, 2),
        (PressureAxis::Io, 3),
        (PressureAxis::Gpu, 4),
        (PressureAxis::HumanAttention, 5),
        (PressureAxis::Cost, 6),
    ] {
        assert_eq!(a.position(), p);
    }
}

#[test]
fn sources_match_doctrine() {
    assert_eq!(PressureAxis::Cpu.source(), "psi");
    assert_eq!(PressureAxis::Memory.source(), "psi");
    assert_eq!(PressureAxis::Io.source(), "psi");
    assert_eq!(PressureAxis::Gpu.source(), "dcgm");
    assert_eq!(PressureAxis::HumanAttention.source(), "runtime");
    assert_eq!(PressureAxis::Cost.source(), "runtime");
}

#[test]
fn doctrine_verbatim() {
    assert_doctrine_intact(DOCTRINE_PRESSURE_AS_SENSATION).unwrap();
    assert!(matches!(assert_doctrine_intact("WRONG").unwrap_err(), PressureError::DoctrineTampered));
}

#[test]
fn trigger_actions_are_verbatim_e0431() {
    assert_eq!(
        ReactionTrigger::MemoryPressureHigh.actions(),
        ["hibernate branches", "shrink context", "evict low-value KV-cache"]
    );
    assert_eq!(
        ReactionTrigger::CpuPressureHigh.actions(),
        ["reduce branch width", "move reranking to 4090", "defer evals"]
    );
    assert_eq!(ReactionTrigger::Gpu4090Idle.actions(), ["widen scout speculation"]);
}

#[test]
fn remaining_trigger_actions() {
    assert_eq!(
        ReactionTrigger::IoPressureHigh.actions(),
        ["stop cold memory scans", "delay replay compaction", "prefer RAM-hot context"]
    );
    assert_eq!(ReactionTrigger::GpuOracleIdle.actions(), ["increase verification batch"]);
}

#[test]
fn tiers_any() {
    assert!(!Tiers::none().any());
    assert!(Tiers::all().any());
    assert!(!Tiers::default().any());
    let only_t2 = Tiers { t1_quant_dot: false, t2_bitwise_attn: true, t3_structure_kv: false };
    assert!(only_t2.any());
}

fn free_canonical_readings() -> Vec<ReadingBits> {
    [
        PressureAxis::Cpu,
        PressureAxis::Memory,
        PressureAxis::Io,
        PressureAxis::Gpu,
        PressureAxis::HumanAttention,
        PressureAxis::Cost,
    ]
    .into_iter()
    .map(|a| ReadingBits { axis: a, value_bits: 0.0f32.to_bits() })
    .collect()
}

#[test]
fn free_canonical_validates() {
    validate_snapshot(PRESSURE_SCHEMA, &free_canonical_readings()).unwrap();
}

#[test]
fn out_of_range_value_rejected() {
    let mut s = free_canonical_readings();
    s[0].value_bits = 1.5f32.to_bits();
    assert!(matches!(validate_snapshot(PRESSURE_SCHEMA, &s).unwrap_err(), PressureError::ValueOutOfRange { .. }));
    s[0].value_bits = (-0.1f32).to_bits();
    assert!(matches!(validate_snapshot(PRESSURE_SCHEMA, &s).unwrap_err(), PressureError::ValueOutOfRange { .. }));
    s[0].value_bits = f32::NAN.to_bits();
    assert!(matches!(validate_snapshot(PRESSURE_SCHEMA, &s).unwrap_err(), PressureError::ValueOutOfRange { .. }));
}

#[test]
fn reading_count_invalid_rejected() {
    let mut s = free_canonical_readings();
    s.pop();
    assert!(matches!(validate_snapshot(PRESSURE_SCHEMA, &s).unwrap_err(), PressureError::ReadingCountInvalid(5)));
}

#[test]
fn missing_axis_caught_when_replaced() {
    let mut s = free_canonical_readings();
    s[0] = ReadingBits { axis: PressureAxis::Memory, value_bits: 0.5f32.to_bits() };
    let err = validate_snapshot(PRESSURE_SCHEMA, &s).unwrap_err();
    assert!(matches!(err,
        PressureError::AxisMissing(PressureAxis::Cpu) | PressureError::DuplicateAxis(PressureAxis::Memory)
    ));
}

#[test]
fn snapshot_bits_cover_the_unit_interval_exactly() {
    for v in [0.0f32, -0.0, 1e-40, 0.25, 0.9, 1.0] {
        let mut s = free_canonical_readings();
        s[5].value_bits = v.to_bits();
        assert!(validate_snapshot(PRESSURE_SCHEMA, &s).is_ok(), "{v}");
    }
    for v in [1.000_000_1f32, -1e-40, f32::INFINITY, f32::NEG_INFINITY, -f32::NAN] {
        let mut s = free_canonical_readings();
        s[5].value_bits = v.to_bits();
        assert_eq!(
            validate_snapshot(PRESSURE_SCHEMA, &s).unwrap_err(),
            PressureError::ValueOutOfRange { axis: PressureAxis::Cost, value_bits: v.to_bits() }
        );
    }
    let mut s = free_canonical_readings();
    s[5].axis = PressureAxis::Cpu;
    assert_eq!(validate_snapshot(PRESSURE_SCHEMA, &s).unwrap_err(), PressureError::AxisMissing(PressureAxis::Cost));
}

#[test]
fn advisory_shows_the_recommended_layout_and_validates() {
    let a = recommended_advisory();
    assert!(a.contains("blackwell-oracle") && a.contains("rocm-4090"), "layout: {a}");
    assert!(a.contains("shares lanes with"), "must flag a lane-sharing pair: {a}");
    assert!(a.contains("validates: OK"), "recommended layout must validate: {a}");
}
