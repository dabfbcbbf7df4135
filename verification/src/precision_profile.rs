//! Declarative precision plans for a decoder stack: a default precision,
//! per-layer overrides, projections kept dense, and per-tier AVX-512
//! exploitation opt-in flags (advisory: a consumer lacking a tier falls back to
//! a portable path).
use std::collections::BTreeMap;
use vstd::prelude::*;
use vstd::std_specs::iter::IteratorSpec;
use vstd::string::*;

verus! {

/// Schema version of the precision-profile surface.
pub const SCHEMA_VERSION: &'static str = "1.0.0";

/// Per-tier AVX-512 opt-in flags.
#[derive(Debug, Clone, Copy, PartialEq, Eq, Structural)]
pub struct Tiers {
    /// T1: quantization and dot product (INT8 / BF16 dot products).
    pub t1_quant_dot: bool,
    /// T2: bitwise logic and attention masking.
    pub t2_bitwise_attn: bool,
    /// T3: structuring, pruning and KV-cache (permutes, shifts, compress/expand).
    pub t3_structure_kv: bool,
}

impl Tiers {
    /// All tiers off: the portable, opt-out baseline.
    pub fn none() -> (r: Tiers)
        ensures
            !r.t1_quant_dot && !r.t2_bitwise_attn && !r.t3_structure_kv,
    {
        Tiers { t1_quant_dot: false, t2_bitwise_attn: false, t3_structure_kv: false }
    }

    /// All tiers on: exploit every AVX-512 instruction tier available.
    pub fn all() -> (r: Tiers)
        ensures
            r.t1_quant_dot && r.t2_bitwise_attn && r.t3_structure_kv,
    {
        Tiers { t1_quant_dot: true, t2_bitwise_attn: true, t3_structure_kv: true }
    }

    /// Whether any tier is opted in.
    pub fn any(&self) -> (r: bool)
        ensures
            r == (self.t1_quant_dot || self.t2_bitwise_attn || self.t3_structure_kv),
    {
        self.t1_quant_dot || self.t2_bitwise_attn || self.t3_structure_kv
    }
}

impl Default for Tiers {
    fn default() -> (r: Self)
        ensures
            !r.t1_quant_dot && !r.t2_bitwise_attn && !r.t3_structure_kv,
    {
        Tiers::none()
    }
}

/// The numeric precision of a layer's weights.
#[derive(Debug, Clone, Copy, PartialEq, Eq, Structural)]
pub enum Precision {
    /// Dense 32-bit floats.
    F32,
    /// Ternary (1.58-bit) weights.
    Ternary,
    /// NVFP4 4-bit floats.
    Nvfp4,
    /// INT8 weights.
    Int8,
}

/// The short slug of a precision, used in profile names.
pub open spec fn slug_of(p: Precision) -> Seq<char> {
    match p {
        Precision::F32 => "f32"@,
        Precision::Ternary => "ternary"@,
        Precision::Nvfp4 => "nvfp4"@,
        Precision::Int8 => "int8"@,
    }
}

fn precision_slug(p: Precision) -> (r: &'static str)
    ensures
        r@ == slug_of(p),
{
    match p {
        Precision::F32 => "f32",
        Precision::Ternary => "ternary",
        Precision::Nvfp4 => "nvfp4",
        Precision::Int8 => "int8",
    }
}

/// A declarative precision plan for a decoder stack.
#[derive(Debug, Clone, PartialEq)]
pub struct PrecisionProfile {
    /// Human-readable name (a preset name, or an operator-authored label).
    pub name: String,
    /// Precision for any layer without an explicit per-layer override.
    pub default: Precision,
    /// Per-layer-index precision overrides (opt-in).
    pub layers: BTreeMap<usize, Precision>,
    /// Projection names kept dense (f32) even inside a quantized layer.
    pub high_precision: Vec<String>,
    /// Which AVX-512 instruction tiers the runtime may exploit.
    pub tiers: Tiers,
}

/// The precision layer `index` resolves to under a default and overrides:
/// its override if present, else the default.
pub open spec fn resolved(default: Precision, layers: Map<usize, Precision>, index: usize) -> Precision {
    if layers.contains_key(index) {
        layers[index]
    } else {
        default
    }
}

/// Some layer is quantized: the default, or an override, is not `F32`.
pub open spec fn quantizing(default: Precision, layers: Map<usize, Precision>) -> bool {
    default != Precision::F32 || exists|k: usize| layers.contains_key(k) && #[trigger] layers[k] != Precision::F32
}

/// The tier flags that go with a uniform precision: none for `F32`, all
/// otherwise.
pub open spec fn uniform_tiers(p: Precision, t: Tiers) -> bool {
    if p == Precision::F32 {
        !t.t1_quant_dot && !t.t2_bitwise_attn && !t.t3_structure_kv
    } else {
        t.t1_quant_dot && t.t2_bitwise_attn && t.t3_structure_kv
    }
}

/// A layer override wins: after opting layer `i` into `p`, layer `i`
/// resolves to `p` and every other layer resolves as before.
pub proof fn law_override_wins(default: Precision, layers: Map<usize, Precision>, i: usize, p: Precision, j: usize)
    ensures
        resolved(default, layers.insert(i, p), j) == (if j == i {
            p
        } else {
            resolved(default, layers, j)
        }),
{
}

impl PrecisionProfile {
    /// The safe default: every layer f32, all tiers off.
    pub fn all_f32() -> (r: Self)
        ensures
            r.name@ == "f32"@,
            r.default == Precision::F32,
            r.layers@ == Map::<usize, Precision>::empty(),
            r.high_precision@.len() == 0,
            !r.tiers.t1_quant_dot && !r.tiers.t2_bitwise_attn && !r.tiers.t3_structure_kv,
    {
        PrecisionProfile {
            name: String::from_str("f32"),
            default: Precision::F32,
            layers: BTreeMap::new(),
            high_precision: Vec::new(),
            tiers: Tiers::none(),
        }
    }

    /// Every layer at one precision, all tiers on when it is a quantized one.
    pub fn uniform(precision: Precision) -> (r: Self)
        ensures
            r.name@ == "uniform-"@ + slug_of(precision),
            r.default == precision,
            r.layers@ == Map::<usize, Precision>::empty(),
            r.high_precision@.len() == 0,
            uniform_tiers(precision, r.tiers),
    {
        let tiers = if precision == Precision::F32 {
            Tiers::none()
        } else {
            Tiers::all()
        };
        let mut name = String::from_str("uniform-");
        name.append(precision_slug(precision));
        PrecisionProfile { name, default: precision, layers: BTreeMap::new(), high_precision: Vec::new(), tiers }
    }

    /// Every layer ternary: the multiplication-free path.
    pub fn all_ternary() -> (r: Self)
        ensures
            r.name@ == "all-ternary"@,
            r.default == Precision::Ternary,
            r.layers@ == Map::<usize, Precision>::empty(),
            r.high_precision@.len() == 0,
            r.tiers.t1_quant_dot && r.tiers.t2_bitwise_attn && r.tiers.t3_structure_kv,
    {
        let u = Self::uniform(Precision::Ternary);
        PrecisionProfile { name: String::from_str("all-ternary"), ..u }
    }

    /// The INT8 hot path everywhere.
    pub fn int8_hot() -> (r: Self)
        ensures
            r.name@ == "int8-hot"@,
            r.default == Precision::Int8,
            r.layers@ == Map::<usize, Precision>::empty(),
            r.high_precision@.len() == 0,
            r.tiers.t1_quant_dot && r.tiers.t2_bitwise_attn && r.tiers.t3_structure_kv,
    {
        let u = Self::uniform(Precision::Int8);
        PrecisionProfile { name: String::from_str("int8-hot"), ..u }
    }

    /// A mixed stack: layer 0 f32, 1 ternary, 2 NVFP4, and INT8 from layer 3
    /// on (the default), all tiers on.
    pub fn mixed() -> (r: Self)
        ensures
            r.name@ == "mixed"@,
            r.default == Precision::Int8,
            r.layers@ == map![0usize => Precision::F32, 1usize => Precision::Ternary, 2usize => Precision::Nvfp4],
            r.high_precision@.len() == 0,
            r.tiers.t1_quant_dot && r.tiers.t2_bitwise_attn && r.tiers.t3_structure_kv,
    {
        let mut layers: BTreeMap<usize, Precision> = BTreeMap::new();
        layers.insert(0, Precision::F32);
        layers.insert(1, Precision::Ternary);
        layers.insert(2, Precision::Nvfp4);
        proof {
            assert(layers@ =~= map![0usize => Precision::F32, 1usize => Precision::Ternary, 2usize => Precision::Nvfp4]);
        }
        PrecisionProfile {
            name: String::from_str("mixed"),
            default: Precision::Int8,
            layers,
            high_precision: Vec::new(),
            tiers: Tiers::all(),
        }
    }

    /// Opt layer `index` into `precision`.
    pub fn with_layer(self, index: usize, precision: Precision) -> (r: Self)
        ensures
            r.layers@ == self.layers@.insert(index, precision),
            r.name@ == self.name@,
            r.default == self.default,
            r.high_precision@ == self.high_precision@,
            r.tiers == self.tiers,
    {
        let mut p = self;
        p.layers.insert(index, precision);
        p
    }

    /// Keep projection `name` dense even in a quantized layer.
    pub fn with_high_precision(self, name: String) -> (r: Self)
        ensures
            r.high_precision@ == self.high_precision@.push(name),
            r.layers@ == self.layers@,
            r.name@ == self.name@,
            r.default == self.default,
            r.tiers == self.tiers,
    {
        let mut p = self;
        p.high_precision.push(name);
        p
    }

    /// Set the AVX-512 tier flags.
    pub fn with_tiers(self, tiers: Tiers) -> (r: Self)
        ensures
            r.tiers == tiers,
            r.layers@ == self.layers@,
            r.name@ == self.name@,
            r.default == self.default,
            r.high_precision@ == self.high_precision@,
    {
        let mut p = self;
        p.tiers = tiers;
        p
    }

    /// The precision layer `index` resolves to: its override if present, else
    /// the profile default.
    pub fn resolve(&self, index: usize) -> (r: Precision)
        ensures
            r == resolved(self.default, self.layers@, index),
    {
        match self.layers.get(&index) {
            Some(p) => *p,
            None => self.default,
        }
    }

    /// The resolved precision of the first `count` layers, in order.
    pub fn plan(&self, count: usize) -> (r: Vec<Precision>)
        ensures
            r@.len() == count,
            forall|i: int| 0 <= i < count ==> #[trigger] r@[i] == resolved(self.default, self.layers@, i as usize),
    {
        let mut r: Vec<Precision> = Vec::new();
        let mut i: usize = 0;
        while i < count
            invariant
                i <= count,
                r@.len() == i,
                forall|j: int| 0 <= j < i ==> #[trigger] r@[j] == resolved(self.default, self.layers@, j as usize),
            decreases count - i,
        {
            r.push(self.resolve(i));
            i += 1;
        }
        r
    }

    /// Whether projection `name` is pinned to high precision.
    pub fn is_high_precision(&self, name: &str) -> (r: bool)
        ensures
            r == exists|i: int| 0 <= i < self.high_precision@.len() && (#[trigger] self.high_precision@[i])@ == name@,
    {
        let mut i: usize = 0;
        while i < self.high_precision.len()
            invariant
                i <= self.high_precision@.len(),
                forall|j: int| 0 <= j < i ==> (#[trigger] self.high_precision@[j])@ != name@,
            decreases self.high_precision@.len() - i,
        {
            if crate::text::str_eq(self.high_precision[i].as_str(), name) {
                return true;
            }
            i += 1;
        }
        false
    }

    /// The high-precision projection names, as string slices.
    pub fn high_precision_refs(&self) -> (r: Vec<&str>)
        ensures
            r@.len() == self.high_precision@.len(),
            forall|i: int| 0 <= i < r@.len() ==> (#[trigger] r@[i])@ == self.high_precision@[i]@,
    {
        let mut r: Vec<&str> = Vec::new();
        let mut i: usize = 0;
        while i < self.high_precision.len()
            invariant
                i <= self.high_precision@.len(),
                r@.len() == i,
                forall|j: int| 0 <= j < i ==> (#[trigger] r@[j])@ == self.high_precision@[j]@,
            decreases self.high_precision@.len() - i,
        {
            r.push(self.high_precision[i].as_str());
            i += 1;
        }
        r
    }

    /// Whether this profile quantizes anything: a non-f32 default or
    /// override.
    pub fn quantizes(&self) -> (r: bool)
        ensures
            r == quantizing(self.default, self.layers@),
    {
        if self.default != Precision::F32 {
            return true;
        }
        let vals = self.layers.values();
        proof {
            broadcast use vstd::std_specs::btree::group_btree_axioms;
            assert(exists|key_seq: Seq<usize>|
                {
                    &&& key_seq.to_set() == self.layers@.dom()
                    &&& IteratorSpec::remaining(&vals) == key_seq.map(|i: int, k: usize| &self.layers@[k])
                });
        }
        // the keys in the order their values come out
        let ghost key_seq = choose|key_seq: Seq<usize>|
            {
                &&& key_seq.to_set() == self.layers@.dom()
                &&& IteratorSpec::remaining(&vals) == key_seq.map(|i: int, k: usize| &self.layers@[k])
            };
        let ghost all = IteratorSpec::remaining(&vals);
        let ghost mut done: int = 0;
        let mut found = false;
        for p in it: vals
            invariant
                it.seq() == all,
                all == key_seq.map(|i: int, k: usize| &self.layers@[k]),
                key_seq.to_set() == self.layers@.dom(),
                done == it.index(),
                found == exists|j: int| 0 <= j < done && *all[j] != Precision::F32,
        {
            if *p != Precision::F32 {
                found = true;
            }
            proof {
                done = done + 1;
            }
        }
        proof {
            let m = self.layers@;
            assert(all.len() == key_seq.len());
            assert(done == all.len());
            if found {
                let j = choose|j: int| 0 <= j < all.len() && *all[j] != Precision::F32;
                assert(*all[j] == m[key_seq[j]]);
                assert(key_seq.to_set().contains(key_seq[j]));
                assert(m.contains_key(key_seq[j]) && m[key_seq[j]] != Precision::F32);
            }
            if quantizing(self.default, m) {
                let k = choose|k: usize| m.contains_key(k) && #[trigger] m[k] != Precision::F32;
                assert(key_seq.to_set().contains(k));
                let j = choose|j: int| 0 <= j < key_seq.len() && key_seq[j] == k;
                assert(*all[j] == m[key_seq[j]]);
            }
        }
        found
    }
}

impl Default for PrecisionProfile {
    fn default() -> (r: Self)
        ensures
            r.name@ == "f32"@,
            r.default == Precision::F32,
            r.layers@ == Map::<usize, Precision>::empty(),
            r.high_precision@.len() == 0,
            !r.tiers.t1_quant_dot && !r.tiers.t2_bitwise_attn && !r.tiers.t3_structure_kv,
    {
        Self::all_f32()
    }
}

} // verus!
