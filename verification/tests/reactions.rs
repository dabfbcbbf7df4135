use sovereign_os::pressure_reactions::{fired_triggers, ReactionTrigger, DEFAULT_IDLE_UTIL_PCT};

fn high(v: f32) -> bool {
    v >= 0.5
}

#[test]
fn quiet_system_fires_nothing() {
    let busy = Some(80u8);
    assert!(fired_triggers(high(0.1), high(0.1), high(0.1), busy, busy, DEFAULT_IDLE_UTIL_PCT).is_empty());
}

#[test]
fn pressure_rules_fire_in_canonical_order() {
    let busy = Some(80u8);
    assert_eq!(
        fired_triggers(high(0.9), high(0.1), high(0.1), busy, busy, DEFAULT_IDLE_UTIL_PCT),
        vec![ReactionTrigger::MemoryPressureHigh]
    );
    assert_eq!(
        fired_triggers(high(0.6), high(0.7), high(0.8), busy, busy, DEFAULT_IDLE_UTIL_PCT),
        vec![ReactionTrigger::MemoryPressureHigh, ReactionTrigger::IoPressureHigh, ReactionTrigger::CpuPressureHigh]
    );
}

#[test]
fn idle_rules_need_a_present_sampled_gpu() {
    assert_eq!(
        fired_triggers(false, false, false, Some(80), Some(5), DEFAULT_IDLE_UTIL_PCT),
        vec![ReactionTrigger::Gpu4090Idle]
    );
    assert_eq!(
        fired_triggers(false, false, false, Some(0), Some(0), DEFAULT_IDLE_UTIL_PCT),
        vec![ReactionTrigger::GpuOracleIdle, ReactionTrigger::Gpu4090Idle]
    );
    assert!(fired_triggers(false, false, false, None, None, DEFAULT_IDLE_UTIL_PCT).is_empty());
    assert_eq!(
        fired_triggers(true, false, true, Some(10), Some(11), DEFAULT_IDLE_UTIL_PCT),
        vec![ReactionTrigger::MemoryPressureHigh, ReactionTrigger::CpuPressureHigh, ReactionTrigger::GpuOracleIdle]
    );
}
