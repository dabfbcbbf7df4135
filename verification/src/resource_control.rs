//! systemd resource-control profiles for the five operator-named service
//! boundaries, and the drop-in directives that turn a declared profile into
//! kernel-enforced cgroup v2 limits:
//! 1. `oracle.service`: high GPU priority, memory protected, no random shell;
//! 2. `scout.slice`: medium CPU/GPU, can be killed and restarted freely;
//! 3. `sandbox.slice`: strict memory / IO / network / time limits;
//! 4. `eval.slice`: low-priority background;
//! 5. `gateway.service`: protected, always on, small trusted surface.
use crate::text::{decimal, decimal_spec, str_eq};
use vstd::prelude::*;
use vstd::string::*;

verus! {

/// The systemd unit kind a profile applies to: resource-control directives
/// go in the `[Slice]` section for slices and `[Service]` for services.
#[derive(Debug, Clone, Copy, PartialEq, Eq, Structural)]
pub enum UnitKind {
    /// A `.service` unit.
    Service,
    /// A `.slice` unit (a cgroup grouping of units).
    Slice,
}

impl UnitKind {
    /// The section name.
    pub open spec fn section_spec(self) -> Seq<char> {
        match self {
            UnitKind::Service => "Service"@,
            UnitKind::Slice => "Slice"@,
        }
    }

    /// The systemd ini section resource-control directives go under.
    pub fn section(self) -> (r: &'static str)
        ensures
            r@ == self.section_spec(),
    {
        match self {
            UnitKind::Service => "Service",
            UnitKind::Slice => "Slice",
        }
    }
}

/// A resource-control profile: the systemd knobs that make a named boundary
/// kernel-enforced cgroup v2 limits.
#[derive(Debug, Clone, PartialEq, Eq)]
pub struct ResourceProfile {
    /// Unit name, e.g. `"oracle.service"`.
    pub unit: String,
    /// Service or slice.
    pub kind: UnitKind,
    /// `CPUWeight`: relative CPU share, 1..=10000 (100 = default).
    pub cpu_weight: u16,
    /// `IOWeight`: relative block-IO share, 1..=10000 (100 = default).
    pub io_weight: u16,
    /// `MemoryMax` cap in MiB; `None` = `infinity` (no hard cap).
    pub memory_max_mb: Option<u32>,
    /// `MemoryLow` soft guarantee in MiB (protection); `None` = unset.
    pub memory_low_mb: Option<u32>,
    /// `TasksMax` PID limit; `None` = unset.
    pub tasks_max: Option<u32>,
    /// `RuntimeMaxSec` wall-clock cap in seconds; `None` = unbounded.
    pub runtime_max_secs: Option<u32>,
    /// Operator intent: this boundary is always on (not freely killable).
    pub always_on: bool,
    /// Operator intent: this boundary may be killed and restarted freely.
    pub kill_restartable: bool,
    /// One-line rationale.
    pub rationale: String,
}

/// Errors validating a profile.
#[derive(Debug, Clone, PartialEq, Eq)]
pub enum ResourceError {
    /// A weight fell outside systemd's 1..=10000 range.
    WeightOutOfRange {
        /// `"CPUWeight"` or `"IOWeight"`.
        field: &'static str,
        /// The offending value.
        value: u16,
    },
    /// `always_on` and `kill_restartable` were both set: contradictory.
    KillPolicyContradiction,
    /// `MemoryLow` exceeds `MemoryMax` (a guarantee above the cap).
    MemoryLowAboveMax {
        /// Low MiB.
        low: u32,
        /// Max MiB.
        max: u32,
    },
    /// The config could not be parsed into a list of profiles.
    Parse(String),
    /// Two profiles in the set claim the same `unit` name.
    DuplicateUnit(String),
}

/// The abstract outcome of validating one profile.
pub ghost enum ProfileFault {
    /// `CPUWeight` out of range.
    Cpu(u16),
    /// `IOWeight` out of range.
    Io(u16),
    /// Always on and freely killable.
    KillPolicy,
    /// Memory guarantee above the cap.
    MemoryLow(u32, u32),
}

/// What is wrong with `p`, checked in order: the CPU weight, the IO weight,
/// the kill policy, the memory guarantee against the cap.
pub open spec fn profile_fault(p: ResourceProfile) -> Option<ProfileFault> {
    if !(1 <= p.cpu_weight <= 10000) {
        Some(ProfileFault::Cpu(p.cpu_weight))
    } else if !(1 <= p.io_weight <= 10000) {
        Some(ProfileFault::Io(p.io_weight))
    } else if p.always_on && p.kill_restartable {
        Some(ProfileFault::KillPolicy)
    } else if p.memory_low_mb is Some && p.memory_max_mb is Some && p.memory_low_mb->0
        > p.memory_max_mb->0 {
        Some(ProfileFault::MemoryLow(p.memory_low_mb->0, p.memory_max_mb->0))
    } else {
        None
    }
}

/// `e` reports the fault `f`.
pub open spec fn reports(e: ResourceError, f: ProfileFault) -> bool {
    match f {
        ProfileFault::Cpu(v) => e matches ResourceError::WeightOutOfRange { field, value } && field@
            == "CPUWeight"@ && value == v,
        ProfileFault::Io(v) => e matches ResourceError::WeightOutOfRange { field, value } && field@
            == "IOWeight"@ && value == v,
        ProfileFault::KillPolicy => e matches ResourceError::KillPolicyContradiction,
        ProfileFault::MemoryLow(l, m) => e matches ResourceError::MemoryLowAboveMax { low, max } && low
            == l && max == m,
    }
}

/// The drop-in line for an optional setting: `name=value` and the unit
/// suffix, or nothing when unset.
pub open spec fn optional_line(name: Seq<char>, v: Option<u32>, suffix: Seq<char>) -> Seq<char> {
    match v {
        Some(x) => name + "="@ + decimal_spec(x as nat) + suffix + "\n"@,
        None => Seq::empty(),
    }
}

/// The systemd drop-in of `p`: the rationale as a comment, the section, the
/// weights, `MemoryMax` (or `infinity`), then `MemoryLow`, `TasksMax` and
/// `RuntimeMaxSec` when set.
pub open spec fn dropin_spec(p: ResourceProfile) -> Seq<char> {
    "# "@ + p.rationale@ + "\n["@ + p.kind.section_spec() + "]\n"@ + "CPUWeight="@ + decimal_spec(
        p.cpu_weight as nat,
    ) + "\n"@ + "IOWeight="@ + decimal_spec(p.io_weight as nat) + "\n"@ + match p.memory_max_mb {
        Some(m) => "MemoryMax="@ + decimal_spec(m as nat) + "M\n"@,
        None => "MemoryMax=infinity\n"@,
    } + optional_line("MemoryLow"@, p.memory_low_mb, "M"@) + optional_line(
        "TasksMax"@,
        p.tasks_max,
        ""@,
    ) + optional_line("RuntimeMaxSec"@, p.runtime_max_secs, ""@)
}

fn append_optional(s: &mut String, name: &str, v: Option<u32>, suffix: &str)
    ensures
        final(s)@ == old(s)@ + optional_line(name@, v, suffix@),
{
    match v {
        Some(x) => {
            s.append(name);
            s.append("=");
            let d = decimal(x as u64);
            s.append(d.as_str());
            s.append(suffix);
            s.append("\n");
        },
        None => {
            assert(old(s)@ + Seq::<char>::empty() =~= old(s)@);
        },
    }
}

impl ResourceProfile {
    /// Validate the systemd-enforced invariants: both weights in 1..=10000,
    /// not both always-on and freely killable, and no memory guarantee above
    /// the cap.
    pub fn validate(&self) -> (r: Result<(), ResourceError>)
        ensures
            match profile_fault(*self) {
                None => r is Ok,
                Some(f) => r matches Err(e) && reports(e, f),
            },
    {
        if !(1 <= self.cpu_weight && self.cpu_weight <= 10000) {
            return Err(ResourceError::WeightOutOfRange { field: "CPUWeight", value: self.cpu_weight });
        }
        if !(1 <= self.io_weight && self.io_weight <= 10000) {
            return Err(ResourceError::WeightOutOfRange { field: "IOWeight", value: self.io_weight });
        }
        if self.always_on && self.kill_restartable {
            return Err(ResourceError::KillPolicyContradiction);
        }
        match (self.memory_low_mb, self.memory_max_mb) {
            (Some(low), Some(max)) => {
                if low > max {
                    return Err(ResourceError::MemoryLowAboveMax { low, max });
                }
            },
            _ => {},
        }
        Ok(())
    }

    /// Render the systemd resource-control drop-in for this profile: a
    /// complete drop-in body for
    /// `/etc/systemd/system/<unit>.d/50-sovereign-resource.conf`.
    pub fn to_systemd_dropin(&self) -> (r: String)
        ensures
            r@ == dropin_spec(*self),
    {
        let mut s = "# ".to_owned();
        s.append(self.rationale.as_str());
        s.append("\n[");
        s.append(self.kind.section());
        s.append("]\n");
        s.append("CPUWeight=");
        let c = decimal(self.cpu_weight as u64);
        s.append(c.as_str());
        s.append("\n");
        s.append("IOWeight=");
        let io = decimal(self.io_weight as u64);
        s.append(io.as_str());
        s.append("\n");
        match self.memory_max_mb {
            Some(m) => {
                s.append("MemoryMax=");
                let d = decimal(m as u64);
                s.append(d.as_str());
                s.append("M\n");
            },
            None => {
                s.append("MemoryMax=infinity\n");
            },
        }
        append_optional(&mut s, "MemoryLow", self.memory_low_mb, "M");
        append_optional(&mut s, "TasksMax", self.tasks_max, "");
        append_optional(&mut s, "RuntimeMaxSec", self.runtime_max_secs, "");
        s
    }
}

/// The abstract value of a profile.
pub ghost struct ProfileView {
    /// Unit.
    pub unit: Seq<char>,
    /// Kind.
    pub kind: UnitKind,
    /// CPU weight.
    pub cpu_weight: u16,
    /// IO weight.
    pub io_weight: u16,
    /// Memory cap.
    pub memory_max_mb: Option<u32>,
    /// Memory guarantee.
    pub memory_low_mb: Option<u32>,
    /// Task limit.
    pub tasks_max: Option<u32>,
    /// Runtime cap.
    pub runtime_max_secs: Option<u32>,
    /// Always on.
    pub always_on: bool,
    /// Freely killable.
    pub kill_restartable: bool,
    /// Rationale.
    pub rationale: Seq<char>,
}

impl View for ResourceProfile {
    type V = ProfileView;

    open spec fn view(&self) -> ProfileView {
        ProfileView {
            unit: self.unit@,
            kind: self.kind,
            cpu_weight: self.cpu_weight,
            io_weight: self.io_weight,
            memory_max_mb: self.memory_max_mb,
            memory_low_mb: self.memory_low_mb,
            tasks_max: self.tasks_max,
            runtime_max_secs: self.runtime_max_secs,
            always_on: self.always_on,
            kill_restartable: self.kill_restartable,
            rationale: self.rationale@,
        }
    }
}

/// The five canonical boundaries, in order.
pub open spec fn canonical_spec() -> Seq<ProfileView> {
    seq![
        ProfileView {
            unit: "oracle.service"@,
            kind: UnitKind::Service,
            cpu_weight: 1000,
            io_weight: 500,
            memory_max_mb: None,
            memory_low_mb: Some(8192),
            tasks_max: Some(64),
            runtime_max_secs: None,
            always_on: true,
            kill_restartable: false,
            rationale: "E0429 oracle.service: high GPU priority, memory protected, no random shell access"@,
        },
        ProfileView {
            unit: "scout.slice"@,
            kind: UnitKind::Slice,
            cpu_weight: 100,
            io_weight: 100,
            memory_max_mb: Some(16384),
            memory_low_mb: None,
            tasks_max: Some(256),
            runtime_max_secs: None,
            always_on: false,
            kill_restartable: true,
            rationale: "E0429 scout.slice: medium CPU-GPU, can be killed-restarted freely"@,
        },
        ProfileView {
            unit: "sandbox.slice"@,
            kind: UnitKind::Slice,
            cpu_weight: 50,
            io_weight: 20,
            memory_max_mb: Some(2048),
            memory_low_mb: None,
            tasks_max: Some(64),
            runtime_max_secs: Some(900),
            always_on: false,
            kill_restartable: true,
            rationale: "E0429 sandbox.slice: strict memory / IO / network / time limits"@,
        },
        ProfileView {
            unit: "eval.slice"@,
            kind: UnitKind::Slice,
            cpu_weight: 10,
            io_weight: 10,
            memory_max_mb: Some(8192),
            memory_low_mb: None,
            tasks_max: Some(128),
            runtime_max_secs: None,
            always_on: false,
            kill_restartable: true,
            rationale: "E0429 eval.slice: low priority background"@,
        },
        ProfileView {
            unit: "gateway.service"@,
            kind: UnitKind::Service,
            cpu_weight: 200,
            io_weight: 200,
            memory_max_mb: Some(1024),
            memory_low_mb: Some(256),
            tasks_max: Some(32),
            runtime_max_secs: None,
            always_on: true,
            kill_restartable: false,
            rationale: "E0429 gateway.service: protected always-on, small trusted surface"@,
        },
    ]
}

fn profile(
    unit: &str,
    kind: UnitKind,
    cpu_weight: u16,
    io_weight: u16,
    memory_max_mb: Option<u32>,
    memory_low_mb: Option<u32>,
    tasks_max: Option<u32>,
    runtime_max_secs: Option<u32>,
    always_on: bool,
    kill_restartable: bool,
    rationale: &str,
) -> (r: ResourceProfile)
    ensures
        r@ == (ProfileView {
            unit: unit@,
            kind,
            cpu_weight,
            io_weight,
            memory_max_mb,
            memory_low_mb,
            tasks_max,
            runtime_max_secs,
            always_on,
            kill_restartable,
            rationale: rationale@,
        }),
{
    ResourceProfile {
        unit: unit.to_owned(),
        kind,
        cpu_weight,
        io_weight,
        memory_max_mb,
        memory_low_mb,
        tasks_max,
        runtime_max_secs,
        always_on,
        kill_restartable,
        rationale: rationale.to_owned(),
    }
}

/// The five canonical service boundaries, in order. Weights follow the
/// operator's high / medium / low intent on systemd's 1..=10000 scale; the
/// caps are conservative starting points an operator tunes per host.
pub fn canonical_profiles() -> (r: Vec<ResourceProfile>)
    ensures
        r@.map_values(|p: ResourceProfile| p@) == canonical_spec(),
{
    let mut v: Vec<ResourceProfile> = Vec::new();
    v.push(
        profile(
            "oracle.service",
            UnitKind::Service,
            1000,
            500,
            None,
            Some(8192),
            Some(64),
            None,
            true,
            false,
            "E0429 oracle.service: high GPU priority, memory protected, no random shell access",
        ),
    );
    v.push(
        profile(
            "scout.slice",
            UnitKind::Slice,
            100,
            100,
            Some(16384),
            None,
            Some(256),
            None,
            false,
            true,
            "E0429 scout.slice: medium CPU-GPU, can be killed-restarted freely",
        ),
    );
    v.push(
        profile(
            "sandbox.slice",
            UnitKind::Slice,
            50,
            20,
            Some(2048),
            None,
            Some(64),
            Some(900),
            false,
            true,
            "E0429 sandbox.slice: strict memory / IO / network / time limits",
        ),
    );
    v.push(
        profile(
            "eval.slice",
            UnitKind::Slice,
            10,
            10,
            Some(8192),
            None,
            Some(128),
            None,
            false,
            true,
            "E0429 eval.slice: low priority background",
        ),
    );
    v.push(
        profile(
            "gateway.service",
            UnitKind::Service,
            200,
            200,
            Some(1024),
            Some(256),
            Some(32),
            None,
            true,
            false,
            "E0429 gateway.service: protected always-on, small trusted surface",
        ),
    );
    assert(v@.map_values(|p: ResourceProfile| p@) =~= canonical_spec());
    v
}

/// Some profile of `ps` before index `end` is for the unit `unit`.
pub open spec fn unit_before(ps: Seq<ResourceProfile>, end: int, unit: Seq<char>) -> bool {
    exists|j: int| 0 <= j < end && (#[trigger] ps[j]).unit@ == unit
}

/// Profile `i` is valid and its unit is not claimed by an earlier profile.
pub open spec fn profile_ok_at(ps: Seq<ResourceProfile>, i: int) -> bool {
    profile_fault(ps[i]) is None && !unit_before(ps, i, ps[i].unit@)
}

/// Validate a profile set: each profile valid and unit names unique (two
/// profiles for one unit would write conflicting drop-ins to the same file).
/// On failure, reports the first profile at fault, its own fault first.
pub fn validate_profiles(profiles: &[ResourceProfile]) -> (r: Result<(), ResourceError>)
    ensures
        r is Ok <==> forall|i: int| 0 <= i < profiles@.len() ==> profile_ok_at(profiles@, i),
        r is Err ==> exists|i: int|
            0 <= i < profiles@.len() && (forall|j: int| 0 <= j < i ==> profile_ok_at(profiles@, j))
                && !profile_ok_at(profiles@, i) && match profile_fault(profiles@[i]) {
                Some(f) => r matches Err(e) && reports(e, f),
                None => r matches Err(ResourceError::DuplicateUnit(u)) && u@ == profiles@[i].unit@,
            },
{
    let mut i: usize = 0;
    while i < profiles.len()
        invariant
            i <= profiles@.len(),
            forall|j: int| 0 <= j < i ==> profile_ok_at(profiles@, j),
        decreases profiles@.len() - i,
    {
        let p = &profiles[i];
        match p.validate() {
            Err(e) => {
                proof {
                    assert(!profile_ok_at(profiles@, i as int));
                }
                return Err(e);
            },
            Ok(()) => {},
        }
        let u = p.unit.as_str();
        let mut j: usize = 0;
        while j < i
            invariant
                j <= i < profiles@.len(),
                u@ == profiles@[i as int].unit@,
                profile_fault(profiles@[i as int]) is None,
                forall|m: int| 0 <= m < i ==> profile_ok_at(profiles@, m),
                forall|m: int| 0 <= m < j ==> (#[trigger] profiles@[m]).unit@ != u@,
            decreases i - j,
        {
            if str_eq(profiles[j].unit.as_str(), u) {
                proof {
                    assert(unit_before(profiles@, i as int, profiles@[i as int].unit@));
                    assert(!profile_ok_at(profiles@, i as int));
                }
                let uc = u.to_owned();
                assert(uc@ == profiles@[i as int].unit@);
                return Err(ResourceError::DuplicateUnit(uc));
            }
            j += 1;
        }
        i += 1;
    }
    Ok(())
}

} // verus!
