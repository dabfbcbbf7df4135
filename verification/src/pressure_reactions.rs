//! The five adaptive reactions: what the scheduler is prescribed to do when
//! memory, IO or CPU pressure is high, or when a present GPU sits idle.
use vstd::prelude::*;

verus! {

/// The five operator-named adaptive-reaction triggers.
#[derive(Debug, Clone, Copy, PartialEq, Eq, Hash, Structural)]
pub enum ReactionTrigger {
    /// Memory pressure crossed the "high" threshold.
    MemoryPressureHigh,
    /// IO pressure crossed the "high" threshold.
    IoPressureHigh,
    /// CPU pressure crossed the "high" threshold.
    CpuPressureHigh,
    /// The oracle GPU is idle and present.
    GpuOracleIdle,
    /// The scout GPU is idle and present.
    Gpu4090Idle,
}

impl ReactionTrigger {
    /// The actions prescribed for the trigger, verbatim.
    pub open spec fn actions_spec(self) -> Seq<Seq<char>> {
        match self {
            ReactionTrigger::MemoryPressureHigh => seq![
                "hibernate branches"@,
                "shrink context"@,
                "evict low-value KV-cache"@,
            ],
            ReactionTrigger::IoPressureHigh => seq![
                "stop cold memory scans"@,
                "delay replay compaction"@,
                "prefer RAM-hot context"@,
            ],
            ReactionTrigger::CpuPressureHigh => seq![
                "reduce branch width"@,
                "move reranking to 4090"@,
                "defer evals"@,
            ],
            ReactionTrigger::GpuOracleIdle => seq!["increase verification batch"@],
            ReactionTrigger::Gpu4090Idle => seq!["widen scout speculation"@],
        }
    }

    /// The verbatim adaptive actions prescribed for this trigger.
    pub fn actions(self) -> (r: Vec<&'static str>)
        ensures
            r@.map_values(|s: &str| s@) == self.actions_spec(),
    {
        let r = match self {
            ReactionTrigger::MemoryPressureHigh => vec![
                "hibernate branches",
                "shrink context",
                "evict low-value KV-cache",
            ],
            ReactionTrigger::IoPressureHigh => vec![
                "stop cold memory scans",
                "delay replay compaction",
                "prefer RAM-hot context",
            ],
            ReactionTrigger::CpuPressureHigh => vec![
                "reduce branch width",
                "move reranking to 4090",
                "defer evals",
            ],
            ReactionTrigger::GpuOracleIdle => vec!["increase verification batch"],
            ReactionTrigger::Gpu4090Idle => vec!["widen scout speculation"],
        };
        assert(r@.map_values(|s: &str| s@) =~= self.actions_spec());
        r
    }
}

/// `trigger` alone when `fires`, else nothing.
pub open spec fn when(fires: bool, trigger: ReactionTrigger) -> Seq<ReactionTrigger> {
    if fires {
        seq![trigger]
    } else {
        Seq::empty()
    }
}

/// A GPU is idle: it is present, sampled, and at or below the idle
/// utilization threshold.
pub open spec fn idle(util: Option<u8>, idle_util_pct: u8) -> bool {
    match util {
        Some(u) => u <= idle_util_pct,
        None => false,
    }
}

/// The triggers that fire, in canonical rule order: memory, io and cpu
/// pressure (each when its axis is high), then the oracle GPU and the scout
/// GPU idle rules.
pub open spec fn fired(
    memory_high: bool,
    io_high: bool,
    cpu_high: bool,
    oracle_util: Option<u8>,
    scout_util: Option<u8>,
    idle_util_pct: u8,
) -> Seq<ReactionTrigger> {
    when(memory_high, ReactionTrigger::MemoryPressureHigh) + when(io_high, ReactionTrigger::IoPressureHigh) + when(
        cpu_high,
        ReactionTrigger::CpuPressureHigh,
    ) + when(idle(oracle_util, idle_util_pct), ReactionTrigger::GpuOracleIdle) + when(
        idle(scout_util, idle_util_pct),
        ReactionTrigger::Gpu4090Idle,
    )
}

/// The reaction rules. Each pressure axis comes as whether it reached the
/// "high" threshold; each GPU as its sampled utilization percent when it is
/// present (declared with VRAM) and sampled, `None` otherwise, so an absent
/// GPU never fires an idle rule.
pub fn fired_triggers(
    memory_high: bool,
    io_high: bool,
    cpu_high: bool,
    oracle_util: Option<u8>,
    scout_util: Option<u8>,
    idle_util_pct: u8,
) -> (r: Vec<ReactionTrigger>)
    ensures
        r@ == fired(memory_high, io_high, cpu_high, oracle_util, scout_util, idle_util_pct),
{
    let mut out: Vec<ReactionTrigger> = Vec::new();
    if memory_high {
        out.push(ReactionTrigger::MemoryPressureHigh);
    }
    if io_high {
        out.push(ReactionTrigger::IoPressureHigh);
    }
    if cpu_high {
        out.push(ReactionTrigger::CpuPressureHigh);
    }
    if let Some(u) = oracle_util {
        if u <= idle_util_pct {
            out.push(ReactionTrigger::GpuOracleIdle);
        }
    }
    if let Some(u) = scout_util {
        if u <= idle_util_pct {
            out.push(ReactionTrigger::Gpu4090Idle);
        }
    }
    proof {
        assert(out@ =~= fired(memory_high, io_high, cpu_high, oracle_util, scout_util, idle_util_pct));
    }
    out
}

/// The default idle threshold: a present GPU at or below this utilization
/// percent is idle.
pub const DEFAULT_IDLE_UTIL_PCT: u8 = 10;

} // verus!
