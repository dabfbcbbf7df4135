//! The four canonical profile bundles:
//! - private: local models, no network, no cloud, sandbox tools;
//! - careful: map first, spec required, tests required, oracle review;
//! - fast: scout first, shallow map, minimal verification;
//! - sovereign: user-visible gates, local memory, explicit external calls,
//!   replay always on.
use crate::text::str_eq;
use vstd::prelude::*;

verus! {

/// Schema version.
pub const SCHEMA_VERSION: &'static str = "1.0.0";

/// The four canonical profile bundle names.
#[derive(Debug, Clone, Copy, PartialEq, Eq, Hash, Structural)]
pub enum BundleName {
    /// private: local-only.
    Private,
    /// careful: gate-heavy.
    Careful,
    /// fast: speed-first.
    Fast,
    /// sovereign: user-visible and replay-always.
    Sovereign,
}

/// The bundles in canonical order.
pub open spec fn canonical_bundles() -> Seq<BundleName> {
    seq![BundleName::Private, BundleName::Careful, BundleName::Fast, BundleName::Sovereign]
}

impl BundleName {
    /// The bundle's canonical number, 1 to 4.
    pub open spec fn position_spec(self) -> u8 {
        match self {
            BundleName::Private => 1,
            BundleName::Careful => 2,
            BundleName::Fast => 3,
            BundleName::Sovereign => 4,
        }
    }

    /// The bundle's four features, verbatim (the fast bundle lists three and
    /// keeps the fourth slot empty).
    pub open spec fn features_spec(self) -> Seq<Seq<char>> {
        match self {
            BundleName::Private => seq![
                "local models"@,
                "no network"@,
                "no cloud"@,
                "sandbox tools"@,
            ],
            BundleName::Careful => seq![
                "map first"@,
                "spec required"@,
                "tests required"@,
                "oracle review"@,
            ],
            BundleName::Fast => seq!["scout first"@, "shallow map"@, "minimal verification"@, ""@],
            BundleName::Sovereign => seq![
                "user-visible gates"@,
                "local memory ownership"@,
                "explicit external calls"@,
                "replay always on"@,
            ],
        }
    }

    /// Canonical 1..4 position.
    pub fn position(self) -> (r: u8)
        ensures
            r == self.position_spec(),
    {
        match self {
            BundleName::Private => 1,
            BundleName::Careful => 2,
            BundleName::Fast => 3,
            BundleName::Sovereign => 4,
        }
    }

    /// The verbatim feature list.
    pub fn features(self) -> (r: [&'static str; 4])
        ensures
            r@.map_values(|s: &str| s@) == self.features_spec(),
    {
        let r = match self {
            BundleName::Private => ["local models", "no network", "no cloud", "sandbox tools"],
            BundleName::Careful => ["map first", "spec required", "tests required", "oracle review"],
            BundleName::Fast => ["scout first", "shallow map", "minimal verification", ""],
            BundleName::Sovereign => [
                "user-visible gates",
                "local memory ownership",
                "explicit external calls",
                "replay always on",
            ],
        };
        assert(r@.map_values(|s: &str| s@) =~= self.features_spec());
        r
    }
}

/// Per-bundle state record.
#[derive(Debug, Clone, PartialEq, Eq)]
pub struct BundleEntry {
    /// Bundle name.
    pub bundle: BundleName,
    /// Whether this bundle is selectable (the operator has not disabled it).
    pub selectable: bool,
    /// The four features in canonical order.
    pub features: Vec<String>,
}

/// The four-bundle catalog.
#[derive(Debug, Clone, PartialEq, Eq)]
pub struct BundleCatalog {
    /// Schema version.
    pub schema_version: String,
    /// The four bundles.
    pub bundles: Vec<BundleEntry>,
    /// Currently active bundle (must be one of the four).
    pub active: BundleName,
}

/// Errors.
#[derive(Debug, Clone, Copy, PartialEq, Eq, Structural)]
pub enum BundleError {
    /// Schema drift.
    SchemaMismatch,
    /// Bundle count other than four.
    CountInvalid(usize),
    /// Required bundle missing.
    BundleMissing(BundleName),
    /// Duplicate bundle.
    DuplicateBundle(BundleName),
    /// Active bundle is not selectable.
    ActiveNotSelectable(BundleName),
    /// Feature list does not match the canonical one.
    FeatureMismatch {
        /// Bundle.
        bundle: BundleName,
    },
}

/// The views of a list of strings.
pub open spec fn string_views(v: Seq<String>) -> Seq<Seq<char>> {
    v.map_values(|s: String| s@)
}

/// Some entry of `bs` is for bundle `b`.
pub open spec fn listed(bs: Seq<BundleEntry>, b: BundleName) -> bool {
    exists|i: int| 0 <= i < bs.len() && (#[trigger] bs[i]).bundle == b
}

/// The first canonical bundle from index `from` on that `bs` does not list.
pub open spec fn first_unlisted(bs: Seq<BundleEntry>, from: int) -> Option<BundleName>
    decreases 4 - from,
{
    if from < 0 || from >= 4 {
        None
    } else if !listed(bs, canonical_bundles()[from]) {
        Some(canonical_bundles()[from])
    } else {
        first_unlisted(bs, from + 1)
    }
}

/// What is wrong with entry `i` given those before it: a bundle listed
/// before, or a feature list other than the canonical one.
pub open spec fn entry_fault(bs: Seq<BundleEntry>, i: int) -> Option<BundleError> {
    if exists|j: int| 0 <= j < i && (#[trigger] bs[j]).bundle == bs[i].bundle {
        Some(BundleError::DuplicateBundle(bs[i].bundle))
    } else if string_views(bs[i].features@) != bs[i].bundle.features_spec() {
        Some(BundleError::FeatureMismatch { bundle: bs[i].bundle })
    } else {
        None
    }
}

/// The fault of the first faulty entry from index `from` on.
pub open spec fn first_entry_fault(bs: Seq<BundleEntry>, from: int) -> Option<BundleError>
    decreases bs.len() - from,
{
    if from < 0 || from >= bs.len() {
        None
    } else {
        match entry_fault(bs, from) {
            Some(e) => Some(e),
            None => first_entry_fault(bs, from + 1),
        }
    }
}

/// The index of the first entry of `bs` for bundle `b` (`bs.len()` if none).
pub open spec fn index_of(bs: Seq<BundleEntry>, b: BundleName) -> int
    decreases bs.len(),
{
    if bs.len() == 0 {
        0
    } else if index_of(bs.drop_last(), b) < bs.len() - 1 {
        index_of(bs.drop_last(), b)
    } else if bs.last().bundle == b {
        bs.len() - 1
    } else {
        bs.len() as int
    }
}

/// The outcome of validating a catalog: the schema, the count, the first
/// missing bundle, the first faulty entry, then whether the active bundle is
/// selectable.
pub open spec fn validation(c: BundleCatalog) -> Result<(), BundleError> {
    if c.schema_version@ != SCHEMA_VERSION@ {
        Err(BundleError::SchemaMismatch)
    } else if c.bundles@.len() != 4 {
        Err(BundleError::CountInvalid(c.bundles@.len() as usize))
    } else if let Some(b) = first_unlisted(c.bundles@, 0) {
        Err(BundleError::BundleMissing(b))
    } else if let Some(e) = first_entry_fault(c.bundles@, 0) {
        Err(e)
    } else if !c.bundles@[index_of(c.bundles@, c.active)].selectable {
        Err(BundleError::ActiveNotSelectable(c.active))
    } else {
        Ok(())
    }
}

proof fn lemma_index_of(bs: Seq<BundleEntry>, b: BundleName)
    ensures
        0 <= index_of(bs, b) <= bs.len(),
        index_of(bs, b) < bs.len() ==> bs[index_of(bs, b)].bundle == b,
        forall|j: int| 0 <= j < index_of(bs, b) ==> (#[trigger] bs[j]).bundle != b,
        listed(bs, b) <==> index_of(bs, b) < bs.len(),
    decreases bs.len(),
{
    if bs.len() > 0 {
        lemma_index_of(bs.drop_last(), b);
        if listed(bs, b) && index_of(bs, b) == bs.len() {
            let i = choose|i: int| 0 <= i < bs.len() && (#[trigger] bs[i]).bundle == b;
            assert(bs.drop_last()[i].bundle == b || i == bs.len() - 1);
        }
        if index_of(bs.drop_last(), b) < bs.len() - 1 {
            assert(bs.drop_last()[index_of(bs.drop_last(), b)] == bs[index_of(bs, b)]);
        }
        assert forall|j: int| 0 <= j < index_of(bs, b) implies (#[trigger] bs[j]).bundle != b by {
            if j < bs.len() - 1 {
                assert(bs.drop_last()[j] == bs[j]);
            }
        }
    }
}

/// The index of the first entry for `b` (the length if none).
fn find_bundle(bs: &Vec<BundleEntry>, b: BundleName) -> (r: usize)
    ensures
        r == index_of(bs@, b),
{
    let mut i: usize = 0;
    while i < bs.len()
        invariant
            i <= bs@.len(),
            forall|j: int| 0 <= j < i ==> (#[trigger] bs@[j]).bundle != b,
        decreases bs@.len() - i,
    {
        if bs[i].bundle == b {
            proof {
                lemma_index_of(bs@, b);
                lemma_index_of_first(bs@, b, i as int);
            }
            return i;
        }
        i += 1;
    }
    proof {
        lemma_index_of(bs@, b);
        if index_of(bs@, b) < bs@.len() {
            assert(bs@[index_of(bs@, b)].bundle == b);
        }
    }
    bs.len()
}

proof fn lemma_index_of_first(bs: Seq<BundleEntry>, b: BundleName, i: int)
    requires
        0 <= i < bs.len(),
        bs[i].bundle == b,
        forall|j: int| 0 <= j < i ==> (#[trigger] bs[j]).bundle != b,
    ensures
        index_of(bs, b) == i,
{
    lemma_index_of(bs, b);
}

/// Whether two string lists hold the same strings.
fn same_strings(a: &Vec<String>, b: &Vec<String>) -> (r: bool)
    ensures
        r == (string_views(a@) == string_views(b@)),
{
    if a.len() != b.len() {
        proof {
            assert(string_views(a@).len() != string_views(b@).len());
        }
        return false;
    }
    let mut i: usize = 0;
    while i < a.len()
        invariant
            a@.len() == b@.len(),
            i <= a@.len(),
            forall|j: int| 0 <= j < i ==> (#[trigger] a@[j])@ == b@[j]@,
        decreases a@.len() - i,
    {
        if a[i] != b[i] {
            proof {
                assert(string_views(a@)[i as int] != string_views(b@)[i as int]);
            }
            return false;
        }
        i += 1;
    }
    proof {
        assert(string_views(a@) =~= string_views(b@));
    }
    true
}

/// The canonical features of `b` as owned strings.
fn feature_strings(b: BundleName) -> (r: Vec<String>)
    ensures
        string_views(r@) == b.features_spec(),
{
    let f = b.features();
    let mut out: Vec<String> = Vec::new();
    let mut i: usize = 0;
    while i < 4
        invariant
            i <= 4,
            f@.map_values(|s: &str| s@) == b.features_spec(),
            string_views(out@) == b.features_spec().take(i as int),
        decreases 4 - i,
    {
        let s = f[i].to_owned();
        let ghost before = out@;
        out.push(s);
        proof {
            assert(f@.map_values(|s: &str| s@)[i as int] == f@[i as int]@);
            assert(string_views(out@) =~= string_views(before).push(s@));
            assert(b.features_spec().take(i + 1) =~= b.features_spec().take(i as int).push(
                b.features_spec()[i as int],
            ));
            assert(string_views(out@) =~= b.features_spec().take(i + 1));
        }
        i += 1;
    }
    proof {
        assert(b.features_spec().take(4) =~= b.features_spec());
    }
    out
}

impl BundleCatalog {
    /// The canonical catalog: all four bundles, selectable, with their
    /// canonical features, the private bundle active.
    pub fn empty_canonical() -> (r: Self)
        ensures
            r.schema_version@ == SCHEMA_VERSION@,
            r.active == BundleName::Private,
            r.bundles@.len() == 4,
            forall|i: int|
                #![trigger r.bundles@[i]]
                0 <= i < 4 ==> {
                    &&& r.bundles@[i].bundle == canonical_bundles()[i]
                    &&& r.bundles@[i].selectable
                    &&& string_views(r.bundles@[i].features@) == canonical_bundles()[i].features_spec()
                },
    {
        let names = [BundleName::Private, BundleName::Careful, BundleName::Fast, BundleName::Sovereign];
        let mut bundles: Vec<BundleEntry> = Vec::new();
        let mut i: usize = 0;
        while i < 4
            invariant
                i <= 4,
                names@ == canonical_bundles(),
                bundles@.len() == i,
                forall|j: int|
                    #![trigger bundles@[j]]
                    0 <= j < i ==> {
                        &&& bundles@[j].bundle == canonical_bundles()[j]
                        &&& bundles@[j].selectable
                        &&& string_views(bundles@[j].features@) == canonical_bundles()[j].features_spec()
                    },
            decreases 4 - i,
        {
            let b = names[i];
            bundles.push(BundleEntry { bundle: b, selectable: true, features: feature_strings(b) });
            i += 1;
        }
        BundleCatalog { schema_version: SCHEMA_VERSION.to_owned(), bundles, active: BundleName::Private }
    }

    /// Validate: the schema version, exactly four bundles, each canonical
    /// bundle listed once with its canonical features, and the active bundle
    /// selectable.
    pub fn validate(&self) -> (r: Result<(), BundleError>)
        ensures
            r == validation(*self),
    {
        if !str_eq(self.schema_version.as_str(), SCHEMA_VERSION) {
            return Err(BundleError::SchemaMismatch);
        }
        if self.bundles.len() != 4 {
            return Err(BundleError::CountInvalid(self.bundles.len()));
        }
        let required = [BundleName::Private, BundleName::Careful, BundleName::Fast, BundleName::Sovereign];
        let mut k: usize = 0;
        while k < 4
            invariant
                required@ == canonical_bundles(),
                self.schema_version@ == SCHEMA_VERSION@,
                self.bundles@.len() == 4,
                k <= 4,
                first_unlisted(self.bundles@, 0) == first_unlisted(self.bundles@, k as int),
            decreases 4 - k,
        {
            let b = required[k];
            let at = find_bundle(&self.bundles, b);
            proof {
                lemma_index_of(self.bundles@, b);
            }
            if at == self.bundles.len() {
                return Err(BundleError::BundleMissing(b));
            }
            k += 1;
        }
        let mut i: usize = 0;
        while i < self.bundles.len()
            invariant
                i <= self.bundles@.len(),
                self.schema_version@ == SCHEMA_VERSION@,
                self.bundles@.len() == 4,
                first_unlisted(self.bundles@, 0) is None,
                first_entry_fault(self.bundles@, 0) == first_entry_fault(self.bundles@, i as int),
            decreases self.bundles@.len() - i,
        {
            let e = &self.bundles[i];
            let first = find_bundle(&self.bundles, e.bundle);
            proof {
                lemma_index_of(self.bundles@, e.bundle);
                if exists|j: int| 0 <= j < i && (#[trigger] self.bundles@[j]).bundle == e.bundle {
                    let j = choose|j: int| 0 <= j < i && (#[trigger] self.bundles@[j]).bundle == e.bundle;
                    assert(first <= j);
                }
            }
            if first < i {
                proof {
                    assert(self.bundles@[first as int].bundle == e.bundle);
                }
                return Err(BundleError::DuplicateBundle(e.bundle));
            }
            let canonical = feature_strings(e.bundle);
            if !same_strings(&e.features, &canonical) {
                return Err(BundleError::FeatureMismatch { bundle: e.bundle });
            }
            i += 1;
        }
        let at = find_bundle(&self.bundles, self.active);
        proof {
            lemma_index_of(self.bundles@, self.active);
            lemma_all_listed(self.bundles@, self.active);
        }
        if !self.bundles[at].selectable {
            return Err(BundleError::ActiveNotSelectable(self.active));
        }
        Ok(())
    }

    /// Switch the active bundle to `target`, which must be listed and
    /// selectable.
    pub fn switch_active(&mut self, target: BundleName) -> (r: Result<(), BundleError>)
        ensures
            final(self).schema_version == old(self).schema_version,
            final(self).bundles == old(self).bundles,
            index_of(old(self).bundles@, target) == old(self).bundles@.len() ==> r == Err::<
                (),
                BundleError,
            >(BundleError::BundleMissing(target)) && final(self).active == old(self).active,
            index_of(old(self).bundles@, target) < old(self).bundles@.len() && !old(
                self,
            ).bundles@[index_of(old(self).bundles@, target)].selectable ==> r == Err::<
                (),
                BundleError,
            >(BundleError::ActiveNotSelectable(target)) && final(self).active == old(self).active,
            index_of(old(self).bundles@, target) < old(self).bundles@.len() && old(
                self,
            ).bundles@[index_of(old(self).bundles@, target)].selectable ==> r == Ok::<
                (),
                BundleError,
            >(()) && final(self).active == target,
    {
        let at = find_bundle(&self.bundles, target);
        proof {
            lemma_index_of(self.bundles@, target);
        }
        if at == self.bundles.len() {
            return Err(BundleError::BundleMissing(target));
        }
        if !self.bundles[at].selectable {
            return Err(BundleError::ActiveNotSelectable(target));
        }
        self.active = target;
        Ok(())
    }
}

/// Once every canonical bundle is listed, so is each bundle.
proof fn lemma_all_listed(bs: Seq<BundleEntry>, b: BundleName)
    requires
        first_unlisted(bs, 0) is None,
    ensures
        listed(bs, b),
{
    assert(first_unlisted(bs, 0) == first_unlisted(bs, 1));
    assert(first_unlisted(bs, 1) == first_unlisted(bs, 2));
    assert(first_unlisted(bs, 2) == first_unlisted(bs, 3));
    match b {
        BundleName::Private => assert(listed(bs, canonical_bundles()[0])),
        BundleName::Careful => assert(listed(bs, canonical_bundles()[1])),
        BundleName::Fast => assert(listed(bs, canonical_bundles()[2])),
        BundleName::Sovereign => assert(listed(bs, canonical_bundles()[3])),
    }
}

/// Switching a valid catalog to a bundle it accepts leaves it valid.
pub proof fn law_switch_keeps_valid(before: BundleCatalog, target: BundleName, after: BundleCatalog)
    requires
        validation(before) is Ok,
        index_of(before.bundles@, target) < before.bundles@.len(),
        before.bundles@[index_of(before.bundles@, target)].selectable,
        after.schema_version == before.schema_version,
        after.bundles == before.bundles,
        after.active == target,
    ensures
        validation(after) is Ok,
{
}

/// A catalog in the plain terms of its rules: the schema version, four
/// entries naming each bundle exactly once, each with its canonical features,
/// and the active bundle's entry selectable.
pub open spec fn catalog_ok(c: BundleCatalog) -> bool {
    let bs = c.bundles@;
    &&& c.schema_version@ == SCHEMA_VERSION@
    &&& bs.len() == 4
    &&& forall|b: BundleName| #[trigger] listed(bs, b)
    &&& forall|i: int, j: int| 0 <= i < j < bs.len() ==> bs[i].bundle != bs[j].bundle
    &&& forall|i: int| 0 <= i < bs.len() ==> string_views((#[trigger] bs[i]).features@) == bs[i].bundle.features_spec()
    &&& exists|i: int| 0 <= i < bs.len() && (#[trigger] bs[i]).bundle == c.active && bs[i].selectable
}

proof fn lemma_first_unlisted_none(bs: Seq<BundleEntry>, from: int)
    requires
        0 <= from <= 4,
    ensures
        first_unlisted(bs, from) is None <==> forall|k: int| from <= k < 4 ==> listed(bs, #[trigger] canonical_bundles()[k]),
    decreases 4 - from,
{
    if from < 4 {
        lemma_first_unlisted_none(bs, from + 1);
    }
}

proof fn lemma_first_entry_fault_none(bs: Seq<BundleEntry>, from: int)
    requires
        0 <= from <= bs.len(),
    ensures
        first_entry_fault(bs, from) is None <==> forall|i: int| from <= i < bs.len() ==> #[trigger] entry_fault(bs, i) is None,
    decreases bs.len() - from,
{
    if from < bs.len() {
        lemma_first_entry_fault_none(bs, from + 1);
    }
}

/// A catalog validates exactly when it meets its rules stated plainly: the
/// schema version, four entries naming each bundle exactly once with its
/// canonical features, and the active bundle selectable.
pub proof fn law_validation_ok_iff_rules_hold(c: BundleCatalog)
    ensures
        validation(c) is Ok <==> catalog_ok(c),
{
    let bs = c.bundles@;
    if c.schema_version@ == SCHEMA_VERSION@ && bs.len() == 4 {
        lemma_first_unlisted_none(bs, 0);
        lemma_first_entry_fault_none(bs, 0);
        lemma_index_of(bs, c.active);
        let all_listed = forall|b: BundleName| #[trigger] listed(bs, b);
        assert(first_unlisted(bs, 0) is None <==> all_listed) by {
            if first_unlisted(bs, 0) is None {
                assert forall|b: BundleName| #[trigger] listed(bs, b) by {
                    match b {
                        BundleName::Private => assert(listed(bs, canonical_bundles()[0])),
                        BundleName::Careful => assert(listed(bs, canonical_bundles()[1])),
                        BundleName::Fast => assert(listed(bs, canonical_bundles()[2])),
                        BundleName::Sovereign => assert(listed(bs, canonical_bundles()[3])),
                    }
                }
            }
            if all_listed {
                assert forall|k: int| 0 <= k < 4 implies listed(bs, #[trigger] canonical_bundles()[k]) by {
                    assert(listed(bs, canonical_bundles()[k]));
                }
            }
        }
        let no_faults = forall|i: int| 0 <= i < bs.len() ==> #[trigger] entry_fault(bs, i) is None;
        let rules = (forall|i: int, j: int| 0 <= i < j < bs.len() ==> bs[i].bundle != bs[j].bundle)
            && (forall|i: int| 0 <= i < bs.len() ==> string_views((#[trigger] bs[i]).features@) == bs[i].bundle.features_spec());
        assert(no_faults <==> rules) by {
            if no_faults {
                assert forall|i: int, j: int| 0 <= i < j < bs.len() implies bs[i].bundle != bs[j].bundle by {
                    assert(entry_fault(bs, j) is None);
                }
                assert forall|i: int| 0 <= i < bs.len() implies string_views((#[trigger] bs[i]).features@)
                    == bs[i].bundle.features_spec() by {
                    assert(entry_fault(bs, i) is None);
                }
            }
            if rules {
                assert forall|i: int| 0 <= i < bs.len() implies #[trigger] entry_fault(bs, i) is None by {
                    assert(string_views(bs[i].features@) == bs[i].bundle.features_spec());
                }
            }
        }
        if validation(c) is Ok {
            let i = index_of(bs, c.active);
            assert(listed(bs, c.active));
            assert(bs[i].bundle == c.active && bs[i].selectable);
        }
        if catalog_ok(c) {
            let i = choose|i: int| 0 <= i < bs.len() && (#[trigger] bs[i]).bundle == c.active && bs[i].selectable;
            let k = index_of(bs, c.active);
            assert(listed(bs, c.active));
            if k != i {
                assert(k < i);
            }
        }
    }
}

} // verus!
