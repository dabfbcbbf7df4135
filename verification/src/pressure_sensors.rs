//! Pressure as sensation: the six axes a host feels pressure on, and where
//! each reading comes from (PSI for CPU, memory and IO; DCGM for the GPU;
//! the runtime for human attention and cost).
use crate::text::str_eq;
use vstd::prelude::*;

verus! {

/// Schema version.
pub const SCHEMA_VERSION: &'static str = "1.0.0";

/// The doctrine, verbatim.
pub const DOCTRINE_PRESSURE_AS_SENSATION: &'static str =
    "PSI gives system pressure. DCGM gives GPU pressure. The runtime gives cost and attention pressure.";

/// The six pressure axes.
#[derive(Debug, Clone, Copy, PartialEq, Eq, Hash, Structural)]
pub enum PressureAxis {
    /// CPU (PSI cpu).
    Cpu,
    /// Memory (PSI memory).
    Memory,
    /// IO (PSI io).
    Io,
    /// GPU (DCGM).
    Gpu,
    /// Human attention (runtime queue depth and operator availability).
    HumanAttention,
    /// Cost (runtime and cost ledger).
    Cost,
}

impl PressureAxis {
    /// The axis's canonical number, 1 to 6.
    pub open spec fn position_spec(self) -> u8 {
        match self {
            PressureAxis::Cpu => 1,
            PressureAxis::Memory => 2,
            PressureAxis::Io => 3,
            PressureAxis::Gpu => 4,
            PressureAxis::HumanAttention => 5,
            PressureAxis::Cost => 6,
        }
    }

    /// Where the axis's readings come from.
    pub open spec fn source_spec(self) -> Seq<char> {
        match self {
            PressureAxis::Cpu | PressureAxis::Memory | PressureAxis::Io => "psi"@,
            PressureAxis::Gpu => "dcgm"@,
            PressureAxis::HumanAttention | PressureAxis::Cost => "runtime"@,
        }
    }

    /// Canonical 1..6 position.
    pub fn position(self) -> (r: u8)
        ensures
            r == self.position_spec(),
    {
        match self {
            PressureAxis::Cpu => 1,
            PressureAxis::Memory => 2,
            PressureAxis::Io => 3,
            PressureAxis::Gpu => 4,
            PressureAxis::HumanAttention => 5,
            PressureAxis::Cost => 6,
        }
    }

    /// Source identifier (psi / dcgm / runtime).
    pub fn source(self) -> (r: &'static str)
        ensures
            r@ == self.source_spec(),
    {
        match self {
            PressureAxis::Cpu | PressureAxis::Memory | PressureAxis::Io => "psi",
            PressureAxis::Gpu => "dcgm",
            PressureAxis::HumanAttention | PressureAxis::Cost => "runtime",
        }
    }
}

/// Errors.
#[derive(Debug, Clone, PartialEq, Eq)]
pub enum PressureError {
    /// Schema drift.
    SchemaMismatch {
        /// Expected.
        expected: String,
        /// Observed.
        actual: String,
    },
    /// A reading outside 0.0..=1.0; the value is held as the bit pattern of
    /// the `f32` reading.
    ValueOutOfRange {
        /// Axis.
        axis: PressureAxis,
        /// The reading's `f32` bits.
        value_bits: u32,
    },
    /// Wrong number of readings.
    ReadingCountInvalid(usize),
    /// One axis missing from the readings.
    AxisMissing(PressureAxis),
    /// Duplicate axis.
    DuplicateAxis(PressureAxis),
    /// Doctrine tampered.
    DoctrineTampered,
}

/// Validate the doctrine constant.
pub fn assert_doctrine_intact(observed: &str) -> (r: Result<(), PressureError>)
    ensures
        observed@ == DOCTRINE_PRESSURE_AS_SENSATION@ ==> r is Ok,
        observed@ != DOCTRINE_PRESSURE_AS_SENSATION@ ==> r == Err::<(), PressureError>(
            PressureError::DoctrineTampered,
        ),
{
    if !str_eq(observed, DOCTRINE_PRESSURE_AS_SENSATION) {
        return Err(PressureError::DoctrineTampered);
    }
    Ok(())
}

/// The abstract value of an error.
pub ghost enum PressureFault {
    /// Schema drift (expected, observed).
    SchemaMismatch(Seq<char>, Seq<char>),
    /// A reading outside 0.0..=1.0 (axis, value bits).
    ValueOutOfRange(PressureAxis, u32),
    /// Wrong number of readings.
    ReadingCountInvalid(usize),
    /// One axis missing.
    AxisMissing(PressureAxis),
    /// Duplicate axis.
    DuplicateAxis(PressureAxis),
    /// Doctrine tampered.
    DoctrineTampered,
}

impl View for PressureError {
    type V = PressureFault;

    open spec fn view(&self) -> PressureFault {
        match self {
            PressureError::SchemaMismatch { expected, actual } => PressureFault::SchemaMismatch(
                expected@,
                actual@,
            ),
            PressureError::ValueOutOfRange { axis, value_bits } => PressureFault::ValueOutOfRange(
                *axis,
                *value_bits,
            ),
            PressureError::ReadingCountInvalid(n) => PressureFault::ReadingCountInvalid(*n),
            PressureError::AxisMissing(a) => PressureFault::AxisMissing(*a),
            PressureError::DuplicateAxis(a) => PressureFault::DuplicateAxis(*a),
            PressureError::DoctrineTampered => PressureFault::DoctrineTampered,
        }
    }
}

/// A reading as snapshot validation sees it: its axis and the IEEE-754 bits
/// of its `f32` value.
#[derive(Debug, Clone, Copy, PartialEq, Eq, Structural)]
pub struct ReadingBits {
    /// Axis.
    pub axis: PressureAxis,
    /// The reading's `f32` bits.
    pub value_bits: u32,
}

/// Whether the `f32` with bits `b` is a finite value in 0.0..=1.0: the bit
/// patterns from +0.0 up to 1.0 (`0x3F80_0000`), and -0.0 (`0x8000_0000`).
pub open spec fn unit_interval_bits(b: u32) -> bool {
    b <= 0x3F80_0000 || b == 0x8000_0000
}

/// The six axes in canonical order.
pub open spec fn canonical_axes() -> Seq<PressureAxis> {
    seq![
        PressureAxis::Cpu,
        PressureAxis::Memory,
        PressureAxis::Io,
        PressureAxis::Gpu,
        PressureAxis::HumanAttention,
        PressureAxis::Cost,
    ]
}

/// The axes of some readings.
pub open spec fn axes_of(rs: Seq<ReadingBits>) -> Seq<PressureAxis> {
    rs.map_values(|r: ReadingBits| r.axis)
}

/// The first reading of `rs` outside 0.0..=1.0.
pub open spec fn first_out_of_range(rs: Seq<ReadingBits>) -> Option<ReadingBits>
    decreases rs.len(),
{
    if rs.len() == 0 {
        None
    } else if !unit_interval_bits(rs[0].value_bits) {
        Some(rs[0])
    } else {
        first_out_of_range(rs.drop_first())
    }
}

/// The first axis of `want` that `have` lacks.
pub open spec fn first_absent(want: Seq<PressureAxis>, have: Seq<PressureAxis>) -> Option<
    PressureAxis,
>
    decreases want.len(),
{
    if want.len() == 0 {
        None
    } else if !have.contains(want[0]) {
        Some(want[0])
    } else {
        first_absent(want.drop_first(), have)
    }
}

/// The axis of the first entry of `xs` (from index `i` on) that repeats an
/// earlier one.
pub open spec fn first_repeat(xs: Seq<PressureAxis>, i: int) -> Option<PressureAxis>
    decreases xs.len() - i,
{
    if i < 0 || i >= xs.len() {
        None
    } else if xs.take(i).contains(xs[i]) {
        Some(xs[i])
    } else {
        first_repeat(xs, i + 1)
    }
}

/// What is wrong with a snapshot of schema `schema` and readings `rs`,
/// checked in this order: schema, count, ranges, missing axes, duplicates.
pub open spec fn snapshot_check(schema: Seq<char>, rs: Seq<ReadingBits>) -> Option<PressureFault> {
    if schema != SCHEMA_VERSION@ {
        Some(PressureFault::SchemaMismatch(SCHEMA_VERSION@, schema))
    } else if rs.len() != 6 {
        Some(PressureFault::ReadingCountInvalid(rs.len() as usize))
    } else {
        match first_out_of_range(rs) {
            Some(r) => Some(PressureFault::ValueOutOfRange(r.axis, r.value_bits)),
            None => match first_absent(canonical_axes(), axes_of(rs)) {
                Some(a) => Some(PressureFault::AxisMissing(a)),
                None => match first_repeat(axes_of(rs), 0) {
                    Some(a) => Some(PressureFault::DuplicateAxis(a)),
                    None => None,
                },
            },
        }
    }
}

fn has_axis(rs: &[ReadingBits], end: usize, a: PressureAxis) -> (r: bool)
    requires
        end <= rs@.len(),
    ensures
        r == axes_of(rs@).take(end as int).contains(a),
{
    let mut j: usize = 0;
    while j < end
        invariant
            j <= end <= rs@.len(),
            forall|m: int| 0 <= m < j ==> rs@[m].axis != a,
        decreases end - j,
    {
        if rs[j].axis == a {
            proof {
                assert(axes_of(rs@).take(end as int)[j as int] == a);
            }
            return true;
        }
        j += 1;
    }
    proof {
        if axes_of(rs@).take(end as int).contains(a) {
            let m = choose|m: int| 0 <= m < end && axes_of(rs@).take(end as int)[m] == a;
            assert(rs@[m].axis == a);
        }
    }
    false
}

/// Validate a snapshot of schema `schema_version` whose readings are
/// `readings`.
pub fn validate_snapshot(schema_version: &str, readings: &[ReadingBits]) -> (r: Result<
    (),
    PressureError,
>)
    ensures
        match snapshot_check(schema_version@, readings@) {
            Some(f) => r matches Err(e) && e@ == f,
            None => r is Ok,
        },
{
    if !str_eq(schema_version, SCHEMA_VERSION) {
        return Err(
            PressureError::SchemaMismatch {
                expected: SCHEMA_VERSION.to_owned(),
                actual: schema_version.to_owned(),
            },
        );
    }
    if readings.len() != 6 {
        return Err(PressureError::ReadingCountInvalid(readings.len()));
    }
    let ghost rs = readings@;
    let mut i: usize = 0;
    proof {
        assert(rs.skip(0) =~= rs);
    }
    while i < readings.len()
        invariant
            rs == readings@,
            rs.len() == 6,
            schema_version@ == SCHEMA_VERSION@,
            i <= rs.len(),
            first_out_of_range(rs) == first_out_of_range(rs.skip(i as int)),
        decreases rs.len() - i,
    {
        proof {
            assert(rs.skip(i as int).drop_first() =~= rs.skip(i + 1));
            assert(rs.skip(i as int)[0] == rs[i as int]);
        }
        let b = readings[i].value_bits;
        if !(b <= 0x3F80_0000u32 || b == 0x8000_0000u32) {
            return Err(PressureError::ValueOutOfRange { axis: readings[i].axis, value_bits: b });
        }
        i += 1;
    }
    let required: [PressureAxis; 6] = [
        PressureAxis::Cpu,
        PressureAxis::Memory,
        PressureAxis::Io,
        PressureAxis::Gpu,
        PressureAxis::HumanAttention,
        PressureAxis::Cost,
    ];
    proof {
        assert(required@ =~= canonical_axes());
        assert(axes_of(rs).take(6) =~= axes_of(rs));
        assert(canonical_axes().skip(0) =~= canonical_axes());
    }
    let mut k: usize = 0;
    while k < 6
        invariant
            rs == readings@,
            rs.len() == 6,
            schema_version@ == SCHEMA_VERSION@,
            required@ == canonical_axes(),
            k <= 6,
            first_out_of_range(rs) is None,
            first_absent(canonical_axes(), axes_of(rs)) == first_absent(
                canonical_axes().skip(k as int),
                axes_of(rs),
            ),
        decreases 6 - k,
    {
        proof {
            assert(canonical_axes().skip(k as int).drop_first() =~= canonical_axes().skip(k + 1));
            assert(axes_of(rs).take(6) =~= axes_of(rs));
        }
        if !has_axis(readings, 6, required[k]) {
            proof {
                assert(canonical_axes().skip(k as int)[0] == required@[k as int]);
            }
            return Err(PressureError::AxisMissing(required[k]));
        }
        k += 1;
    }
    let mut j: usize = 0;
    while j < 6
        invariant
            rs == readings@,
            rs.len() == 6,
            schema_version@ == SCHEMA_VERSION@,
            j <= 6,
            first_out_of_range(rs) is None,
            first_absent(canonical_axes(), axes_of(rs)) is None,
            first_repeat(axes_of(rs), 0) == first_repeat(axes_of(rs), j as int),
        decreases 6 - j,
    {
        proof {
            assert(axes_of(rs)[j as int] == rs[j as int].axis);
        }
        if has_axis(readings, j, readings[j].axis) {
            return Err(PressureError::DuplicateAxis(readings[j].axis));
        }
        j += 1;
    }
    Ok(())
}

} // verus!
