//! Declared inference providers. Each entry declares its id, locality,
//! whether it needs an API key, the bundles it is offered in, its endpoint
//! and its status; a router picks among the entries that are online and
//! offered in the active bundle.
use crate::profile_bundles::BundleName;
use crate::text::str_eq;
use vstd::prelude::*;

verus! {

/// Schema version.
pub const SCHEMA_VERSION: &'static str = "1.0.0";

/// The six canonical provider ids.
#[derive(Debug, Clone, Copy, PartialEq, Eq, Hash, Structural)]
pub enum ProviderId {
    /// Local Ollama runtime.
    LocalOllama,
    /// Local vLLM runtime.
    LocalVllm,
    /// Cloud Anthropic.
    CloudAnthropic,
    /// Cloud OpenAI.
    CloudOpenai,
    /// Cloud Google.
    CloudGoogle,
    /// Mock provider (tests / canary).
    Mock,
}

/// Locality.
#[derive(Debug, Clone, Copy, PartialEq, Eq, Hash, Structural)]
pub enum Locality {
    /// On-host.
    Local,
    /// External network.
    Cloud,
    /// In-process / synthetic.
    Synthetic,
}

/// Status.
#[derive(Debug, Clone, Copy, PartialEq, Eq, Hash, Structural)]
pub enum Status {
    /// Reachable.
    Online,
    /// Configured but currently unreachable.
    Offline,
    /// Operator disabled.
    Disabled,
}

/// One provider record.
#[derive(Debug, Clone, PartialEq, Eq)]
pub struct ProviderEntry {
    /// Id.
    pub id: ProviderId,
    /// Operator-readable label.
    pub label: String,
    /// Endpoint URL or socket path.
    pub endpoint: String,
    /// Locality.
    pub locality: Locality,
    /// Requires API key.
    pub requires_api_key: bool,
    /// Bundles this provider is offered in.
    pub allowed_bundles: Vec<BundleName>,
    /// Current status.
    pub status: Status,
}

/// The catalog.
#[derive(Debug, Clone, PartialEq, Eq)]
pub struct ProviderCatalog {
    /// Schema version.
    pub schema_version: String,
    /// The six canonical entries.
    pub entries: Vec<ProviderEntry>,
}

/// Errors.
#[derive(Debug, Clone, Copy, PartialEq, Eq, Structural)]
pub enum ProviderError {
    /// Schema drift.
    SchemaMismatch,
    /// Entry count other than six.
    CountInvalid(usize),
    /// Missing canonical id.
    Missing(ProviderId),
    /// Endpoint empty.
    EmptyEndpoint(ProviderId),
    /// No allowed bundles.
    NoBundles(ProviderId),
    /// A cloud provider that does not require an API key.
    CloudWithoutKey(ProviderId),
}

/// The provider ids in canonical order.
pub open spec fn required_ids() -> Seq<ProviderId> {
    seq![
        ProviderId::LocalOllama,
        ProviderId::LocalVllm,
        ProviderId::CloudAnthropic,
        ProviderId::CloudOpenai,
        ProviderId::CloudGoogle,
        ProviderId::Mock,
    ]
}

/// The abstract value of a provider entry.
pub ghost struct ProviderView {
    /// Id.
    pub id: ProviderId,
    /// Label.
    pub label: Seq<char>,
    /// Endpoint.
    pub endpoint: Seq<char>,
    /// Locality.
    pub locality: Locality,
    /// Requires API key.
    pub requires_api_key: bool,
    /// Allowed bundles.
    pub allowed_bundles: Seq<BundleName>,
    /// Status.
    pub status: Status,
}

impl View for ProviderEntry {
    type V = ProviderView;

    open spec fn view(&self) -> ProviderView {
        ProviderView {
            id: self.id,
            label: self.label@,
            endpoint: self.endpoint@,
            locality: self.locality,
            requires_api_key: self.requires_api_key,
            allowed_bundles: self.allowed_bundles@,
            status: self.status,
        }
    }
}

/// The views of a list of entries.
pub open spec fn entry_views(es: Seq<ProviderEntry>) -> Seq<ProviderView> {
    es.map_values(|e: ProviderEntry| e@)
}

/// Every bundle.
pub open spec fn all_bundles() -> Seq<BundleName> {
    seq![BundleName::Private, BundleName::Careful, BundleName::Fast, BundleName::Sovereign]
}

/// Every bundle but the private one.
pub open spec fn shared_bundles() -> Seq<BundleName> {
    seq![BundleName::Careful, BundleName::Fast, BundleName::Sovereign]
}

/// The canonical entries.
pub open spec fn canonical_entries() -> Seq<ProviderView> {
    seq![
        ProviderView {
            id: ProviderId::LocalOllama,
            label: "Local Ollama"@,
            endpoint: "http://127.0.0.1:11434"@,
            locality: Locality::Local,
            requires_api_key: false,
            allowed_bundles: all_bundles(),
            status: Status::Offline,
        },
        ProviderView {
            id: ProviderId::LocalVllm,
            label: "Local vLLM"@,
            endpoint: "http://127.0.0.1:8000"@,
            locality: Locality::Local,
            requires_api_key: false,
            allowed_bundles: all_bundles(),
            status: Status::Offline,
        },
        ProviderView {
            id: ProviderId::CloudAnthropic,
            label: "Cloud Anthropic"@,
            endpoint: "https://api.anthropic.com"@,
            locality: Locality::Cloud,
            requires_api_key: true,
            allowed_bundles: shared_bundles(),
            status: Status::Offline,
        },
        ProviderView {
            id: ProviderId::CloudOpenai,
            label: "Cloud OpenAI"@,
            endpoint: "https://api.openai.com"@,
            locality: Locality::Cloud,
            requires_api_key: true,
            allowed_bundles: shared_bundles(),
            status: Status::Offline,
        },
        ProviderView {
            id: ProviderId::CloudGoogle,
            label: "Cloud Google"@,
            endpoint: "https://generativelanguage.googleapis.com"@,
            locality: Locality::Cloud,
            requires_api_key: true,
            allowed_bundles: shared_bundles(),
            status: Status::Offline,
        },
        ProviderView {
            id: ProviderId::Mock,
            label: "Mock"@,
            endpoint: "mock://"@,
            locality: Locality::Synthetic,
            requires_api_key: false,
            allowed_bundles: all_bundles(),
            status: Status::Online,
        },
    ]
}

/// Some entry of `es` has the id `id`.
pub open spec fn has_id(es: Seq<ProviderEntry>, id: ProviderId) -> bool {
    exists|i: int| 0 <= i < es.len() && (#[trigger] es[i]).id == id
}

/// The first canonical id from index `from` on that no entry has.
pub open spec fn first_missing(es: Seq<ProviderEntry>, from: int) -> Option<ProviderId>
    decreases 6 - from,
{
    if from < 0 || from >= 6 {
        None
    } else if !has_id(es, required_ids()[from]) {
        Some(required_ids()[from])
    } else {
        first_missing(es, from + 1)
    }
}

/// What is wrong with one entry: an empty endpoint, no bundles, or a cloud
/// provider without an API key.
pub open spec fn entry_fault(e: ProviderEntry) -> Option<ProviderError> {
    if e.endpoint@.len() == 0 {
        Some(ProviderError::EmptyEndpoint(e.id))
    } else if e.allowed_bundles@.len() == 0 {
        Some(ProviderError::NoBundles(e.id))
    } else if e.locality == Locality::Cloud && !e.requires_api_key {
        Some(ProviderError::CloudWithoutKey(e.id))
    } else {
        None
    }
}

/// The fault of the first faulty entry from index `from` on.
pub open spec fn first_entry_fault(es: Seq<ProviderEntry>, from: int) -> Option<ProviderError>
    decreases es.len() - from,
{
    if from < 0 || from >= es.len() {
        None
    } else {
        match entry_fault(es[from]) {
            Some(e) => Some(e),
            None => first_entry_fault(es, from + 1),
        }
    }
}

/// The outcome of validating a catalog with schema version `schema` and
/// entries `es`: the schema, the count, the first missing id, then the first
/// faulty entry.
pub open spec fn validation_of(schema: Seq<char>, es: Seq<ProviderEntry>) -> Result<(), ProviderError> {
    if schema != SCHEMA_VERSION@ {
        Err(ProviderError::SchemaMismatch)
    } else if es.len() != 6 {
        Err(ProviderError::CountInvalid(es.len() as usize))
    } else if let Some(id) = first_missing(es, 0) {
        Err(ProviderError::Missing(id))
    } else if let Some(e) = first_entry_fault(es, 0) {
        Err(e)
    } else {
        Ok(())
    }
}

/// The outcome of validating `c`.
pub open spec fn validation(c: ProviderCatalog) -> Result<(), ProviderError> {
    validation_of(c.schema_version@, c.entries@)
}

/// The index of the first entry with the id `id` (the length if none).
pub open spec fn index_of(es: Seq<ProviderEntry>, id: ProviderId) -> int
    decreases es.len(),
{
    if es.len() == 0 {
        0
    } else if index_of(es.drop_last(), id) < es.len() - 1 {
        index_of(es.drop_last(), id)
    } else if es.last().id == id {
        es.len() - 1
    } else {
        es.len() as int
    }
}

/// The entries that are online and offered in `bundle`, in order.
pub open spec fn eligible_of(es: Seq<ProviderEntry>, bundle: BundleName) -> Seq<ProviderEntry>
    decreases es.len(),
{
    if es.len() == 0 {
        Seq::empty()
    } else {
        let e = es.last();
        eligible_of(es.drop_last(), bundle) + if e.status == Status::Online && e.allowed_bundles@.contains(
            bundle,
        ) {
            seq![e]
        } else {
            Seq::empty()
        }
    }
}

proof fn lemma_index_of(es: Seq<ProviderEntry>, id: ProviderId)
    ensures
        0 <= index_of(es, id) <= es.len(),
        index_of(es, id) < es.len() ==> es[index_of(es, id)].id == id,
        forall|j: int| 0 <= j < index_of(es, id) ==> (#[trigger] es[j]).id != id,
    decreases es.len(),
{
    if es.len() > 0 {
        lemma_index_of(es.drop_last(), id);
        if index_of(es.drop_last(), id) < es.len() - 1 {
            assert(es.drop_last()[index_of(es.drop_last(), id)] == es[index_of(es, id)]);
        }
        assert forall|j: int| 0 <= j < index_of(es, id) implies (#[trigger] es[j]).id != id by {
            if j < es.len() - 1 {
                assert(es.drop_last()[j] == es[j]);
            }
        }
    }
}

proof fn lemma_index_of_first(es: Seq<ProviderEntry>, id: ProviderId, i: int)
    requires
        0 <= i < es.len(),
        es[i].id == id,
        forall|j: int| 0 <= j < i ==> (#[trigger] es[j]).id != id,
    ensures
        index_of(es, id) == i,
{
    lemma_index_of(es, id);
}

/// The index of the first entry with the id `id` (the length if none).
fn find_id(es: &Vec<ProviderEntry>, id: ProviderId) -> (r: usize)
    ensures
        r == index_of(es@, id),
        r < es@.len() <==> has_id(es@, id),
{
    let mut i: usize = 0;
    while i < es.len()
        invariant
            i <= es@.len(),
            forall|j: int| 0 <= j < i ==> (#[trigger] es@[j]).id != id,
        decreases es@.len() - i,
    {
        if es[i].id == id {
            proof {
                lemma_index_of_first(es@, id, i as int);
            }
            return i;
        }
        i += 1;
    }
    proof {
        lemma_index_of(es@, id);
    }
    es.len()
}

/// Whether `bs` holds `b`.
fn has_bundle(bs: &Vec<BundleName>, b: BundleName) -> (r: bool)
    ensures
        r == bs@.contains(b),
{
    let mut i: usize = 0;
    while i < bs.len()
        invariant
            i <= bs@.len(),
            forall|j: int| 0 <= j < i ==> bs@[j] != b,
        decreases bs@.len() - i,
    {
        if bs[i] == b {
            return true;
        }
        i += 1;
    }
    false
}

/// Every bundle, as a vector.
fn all_bundles_vec() -> (r: Vec<BundleName>)
    ensures
        r@ == all_bundles(),
{
    let r = vec![BundleName::Private, BundleName::Careful, BundleName::Fast, BundleName::Sovereign];
    assert(r@ =~= all_bundles());
    r
}

/// Every bundle but the private one, as a vector.
fn shared_bundles_vec() -> (r: Vec<BundleName>)
    ensures
        r@ == shared_bundles(),
{
    let r = vec![BundleName::Careful, BundleName::Fast, BundleName::Sovereign];
    assert(r@ =~= shared_bundles());
    r
}

fn entry(
    id: ProviderId,
    label: &str,
    endpoint: &str,
    locality: Locality,
    requires_api_key: bool,
    allowed_bundles: Vec<BundleName>,
    status: Status,
) -> (r: ProviderEntry)
    ensures
        r@ == (ProviderView {
            id,
            label: label@,
            endpoint: endpoint@,
            locality,
            requires_api_key,
            allowed_bundles: allowed_bundles@,
            status,
        }),
{
    ProviderEntry {
        id,
        label: label.to_owned(),
        endpoint: endpoint.to_owned(),
        locality,
        requires_api_key,
        allowed_bundles,
        status,
    }
}

impl ProviderCatalog {
    /// The canonical catalog: two local runtimes, three cloud providers
    /// (private bundle excluded, API key required) and the mock, all offline
    /// but the mock.
    pub fn canonical() -> (r: Self)
        ensures
            r.schema_version@ == SCHEMA_VERSION@,
            entry_views(r.entries@) == canonical_entries(),
    {
        let mut entries: Vec<ProviderEntry> = Vec::new();
        entries.push(
            entry(
                ProviderId::LocalOllama,
                "Local Ollama",
                "http://127.0.0.1:11434",
                Locality::Local,
                false,
                all_bundles_vec(),
                Status::Offline,
            ),
        );
        entries.push(
            entry(
                ProviderId::LocalVllm,
                "Local vLLM",
                "http://127.0.0.1:8000",
                Locality::Local,
                false,
                all_bundles_vec(),
                Status::Offline,
            ),
        );
        entries.push(
            entry(
                ProviderId::CloudAnthropic,
                "Cloud Anthropic",
                "https://api.anthropic.com",
                Locality::Cloud,
                true,
                shared_bundles_vec(),
                Status::Offline,
            ),
        );
        entries.push(
            entry(
                ProviderId::CloudOpenai,
                "Cloud OpenAI",
                "https://api.openai.com",
                Locality::Cloud,
                true,
                shared_bundles_vec(),
                Status::Offline,
            ),
        );
        entries.push(
            entry(
                ProviderId::CloudGoogle,
                "Cloud Google",
                "https://generativelanguage.googleapis.com",
                Locality::Cloud,
                true,
                shared_bundles_vec(),
                Status::Offline,
            ),
        );
        entries.push(
            entry(
                ProviderId::Mock,
                "Mock",
                "mock://",
                Locality::Synthetic,
                false,
                all_bundles_vec(),
                Status::Online,
            ),
        );
        assert(entry_views(entries@) =~= canonical_entries());
        ProviderCatalog { schema_version: SCHEMA_VERSION.to_owned(), entries }
    }

    /// Validate: the schema version, exactly six entries, every canonical id
    /// present, and each entry with an endpoint, at least one bundle, and an
    /// API key if it is a cloud provider.
    pub fn validate(&self) -> (r: Result<(), ProviderError>)
        ensures
            r == validation(*self),
    {
        if !str_eq(self.schema_version.as_str(), SCHEMA_VERSION) {
            return Err(ProviderError::SchemaMismatch);
        }
        if self.entries.len() != 6 {
            return Err(ProviderError::CountInvalid(self.entries.len()));
        }
        let required = [
            ProviderId::LocalOllama,
            ProviderId::LocalVllm,
            ProviderId::CloudAnthropic,
            ProviderId::CloudOpenai,
            ProviderId::CloudGoogle,
            ProviderId::Mock,
        ];
        assert(required@ =~= required_ids());
        let mut k: usize = 0;
        while k < 6
            invariant
                required@ == required_ids(),
                self.schema_version@ == SCHEMA_VERSION@,
                self.entries@.len() == 6,
                k <= 6,
                first_missing(self.entries@, 0) == first_missing(self.entries@, k as int),
            decreases 6 - k,
        {
            let id = required[k];
            if find_id(&self.entries, id) == self.entries.len() {
                return Err(ProviderError::Missing(id));
            }
            k += 1;
        }
        let mut i: usize = 0;
        while i < self.entries.len()
            invariant
                i <= self.entries@.len(),
                self.schema_version@ == SCHEMA_VERSION@,
                self.entries@.len() == 6,
                first_missing(self.entries@, 0) is None,
                first_entry_fault(self.entries@, 0) == first_entry_fault(self.entries@, i as int),
            decreases self.entries@.len() - i,
        {
            let e = &self.entries[i];
            if e.endpoint.as_str().is_empty() {
                return Err(ProviderError::EmptyEndpoint(e.id));
            }
            if e.allowed_bundles.len() == 0 {
                return Err(ProviderError::NoBundles(e.id));
            }
            if e.locality == Locality::Cloud && !e.requires_api_key {
                return Err(ProviderError::CloudWithoutKey(e.id));
            }
            i += 1;
        }
        Ok(())
    }

    /// The first entry with the id `id`.
    pub fn get(&self, id: ProviderId) -> (r: Option<&ProviderEntry>)
        ensures
            index_of(self.entries@, id) < self.entries@.len() ==> r == Some(
                &self.entries@[index_of(self.entries@, id)],
            ),
            index_of(self.entries@, id) == self.entries@.len() ==> r is None,
    {
        let at = find_id(&self.entries, id);
        proof {
            lemma_index_of(self.entries@, id);
        }
        if at < self.entries.len() {
            Some(&self.entries[at])
        } else {
            None
        }
    }

    /// Set the status of the first entry with the id `id`; returns whether
    /// there was one.
    pub fn set_status(&mut self, id: ProviderId, status: Status) -> (r: bool)
        ensures
            final(self).schema_version == old(self).schema_version,
            r == (index_of(old(self).entries@, id) < old(self).entries@.len()),
            r ==> final(self).entries@ == old(self).entries@.update(
                index_of(old(self).entries@, id),
                ProviderEntry { status, ..old(self).entries@[index_of(old(self).entries@, id)] },
            ),
            !r ==> final(self).entries@ == old(self).entries@,
    {
        let at = find_id(&self.entries, id);
        proof {
            lemma_index_of(self.entries@, id);
        }
        if at < self.entries.len() {
            self.entries[at].status = status;
            true
        } else {
            false
        }
    }

    /// The entries that are online and offered in `bundle`, in order.
    pub fn eligible(&self, bundle: BundleName) -> (r: Vec<&ProviderEntry>)
        ensures
            r@.map_values(|e: &ProviderEntry| *e) == eligible_of(self.entries@, bundle),
    {
        let mut out: Vec<&ProviderEntry> = Vec::new();
        let mut i: usize = 0;
        while i < self.entries.len()
            invariant
                i <= self.entries@.len(),
                out@.map_values(|e: &ProviderEntry| *e) == eligible_of(self.entries@.take(i as int), bundle),
            decreases self.entries@.len() - i,
        {
            let e = &self.entries[i];
            let ghost before = out@;
            proof {
                assert(self.entries@.take(i + 1).drop_last() =~= self.entries@.take(i as int));
                assert(self.entries@.take(i + 1).last() == *e);
            }
            if e.status == Status::Online && has_bundle(&e.allowed_bundles, bundle) {
                out.push(e);
                proof {
                    assert(out@.map_values(|e: &ProviderEntry| *e) =~= before.map_values(
                        |e: &ProviderEntry| *e,
                    ).push(*e));
                }
            }
            i += 1;
        }
        proof {
            assert(self.entries@.take(self.entries@.len() as int) =~= self.entries@);
        }
        out
    }
}

proof fn lemma_status_missing(es: Seq<ProviderEntry>, i: int, status: Status, from: int)
    requires
        0 <= i < es.len(),
    ensures
        first_missing(es, from) == first_missing(
            es.update(i, ProviderEntry { status, ..es[i] }),
            from,
        ),
    decreases 6 - from,
{
    let t = es.update(i, ProviderEntry { status, ..es[i] });
    if 0 <= from < 6 {
        let id = required_ids()[from];
        if has_id(es, id) {
            let j = choose|j: int| 0 <= j < es.len() && (#[trigger] es[j]).id == id;
            assert(t[j].id == id);
        }
        if has_id(t, id) {
            let j = choose|j: int| 0 <= j < t.len() && (#[trigger] t[j]).id == id;
            assert(es[j].id == id);
        }
        lemma_status_missing(es, i, status, from + 1);
    }
}

proof fn lemma_status_fault(es: Seq<ProviderEntry>, i: int, status: Status, from: int)
    requires
        0 <= i < es.len(),
    ensures
        first_entry_fault(es, from) == first_entry_fault(
            es.update(i, ProviderEntry { status, ..es[i] }),
            from,
        ),
    decreases es.len() - from,
{
    if 0 <= from < es.len() {
        lemma_status_fault(es, i, status, from + 1);
    }
}

/// Changing a provider's status never changes the outcome of validation.
pub proof fn law_status_does_not_affect_validation(
    schema: Seq<char>,
    es: Seq<ProviderEntry>,
    i: int,
    status: Status,
)
    requires
        0 <= i < es.len(),
    ensures
        validation_of(schema, es) == validation_of(
            schema,
            es.update(i, ProviderEntry { status, ..es[i] }),
        ),
{
    lemma_status_missing(es, i, status, 0);
    lemma_status_fault(es, i, status, 0);
}

/// A catalog in the plain terms of its rules: the schema version, six
/// entries covering every provider id, and every entry with an endpoint, at
/// least one bundle, and an API key if it is a cloud provider.
pub open spec fn catalog_ok(c: ProviderCatalog) -> bool {
    let es = c.entries@;
    &&& c.schema_version@ == SCHEMA_VERSION@
    &&& es.len() == 6
    &&& forall|id: ProviderId| #[trigger] has_id(es, id)
    &&& forall|i: int| 0 <= i < es.len() ==> {
        &&& (#[trigger] es[i]).endpoint@.len() > 0
        &&& es[i].allowed_bundles@.len() > 0
        &&& (es[i].locality == Locality::Cloud ==> es[i].requires_api_key)
    }
}

proof fn lemma_first_missing_none(es: Seq<ProviderEntry>, from: int)
    requires
        0 <= from <= 6,
    ensures
        first_missing(es, from) is None <==> forall|k: int| from <= k < 6 ==> has_id(es, #[trigger] required_ids()[k]),
    decreases 6 - from,
{
    if from < 6 {
        lemma_first_missing_none(es, from + 1);
    }
}

proof fn lemma_first_entry_fault_none(es: Seq<ProviderEntry>, from: int)
    requires
        0 <= from <= es.len(),
    ensures
        first_entry_fault(es, from) is None <==> forall|i: int| from <= i < es.len() ==> #[trigger] entry_fault(es[i]) is None,
    decreases es.len() - from,
{
    if from < es.len() {
        lemma_first_entry_fault_none(es, from + 1);
    }
}

/// A catalog validates exactly when it meets its rules stated plainly: the
/// schema version, six entries covering every provider id, each with an
/// endpoint, a bundle, and an API key if it is a cloud provider.
pub proof fn law_validation_ok_iff_rules_hold(c: ProviderCatalog)
    ensures
        validation(c) is Ok <==> catalog_ok(c),
{
    let es = c.entries@;
    if c.schema_version@ == SCHEMA_VERSION@ && es.len() == 6 {
        lemma_first_missing_none(es, 0);
        lemma_first_entry_fault_none(es, 0);
        let all_ids = forall|id: ProviderId| #[trigger] has_id(es, id);
        assert(first_missing(es, 0) is None <==> all_ids) by {
            if first_missing(es, 0) is None {
                assert forall|id: ProviderId| #[trigger] has_id(es, id) by {
                    match id {
                        ProviderId::LocalOllama => assert(has_id(es, required_ids()[0])),
                        ProviderId::LocalVllm => assert(has_id(es, required_ids()[1])),
                        ProviderId::CloudAnthropic => assert(has_id(es, required_ids()[2])),
                        ProviderId::CloudOpenai => assert(has_id(es, required_ids()[3])),
                        ProviderId::CloudGoogle => assert(has_id(es, required_ids()[4])),
                        ProviderId::Mock => assert(has_id(es, required_ids()[5])),
                    }
                }
            }
            if all_ids {
                assert forall|k: int| 0 <= k < 6 implies has_id(es, #[trigger] required_ids()[k]) by {
                    assert(has_id(es, required_ids()[k]));
                }
            }
        }
        let no_faults = forall|i: int| 0 <= i < es.len() ==> #[trigger] entry_fault(es[i]) is None;
        let rules = forall|i: int| 0 <= i < es.len() ==> {
            &&& (#[trigger] es[i]).endpoint@.len() > 0
            &&& es[i].allowed_bundles@.len() > 0
            &&& (es[i].locality == Locality::Cloud ==> es[i].requires_api_key)
        };
        assert(no_faults <==> rules) by {
            if no_faults {
                assert forall|i: int| 0 <= i < es.len() implies {
                    &&& (#[trigger] es[i]).endpoint@.len() > 0
                    &&& es[i].allowed_bundles@.len() > 0
                    &&& (es[i].locality == Locality::Cloud ==> es[i].requires_api_key)
                } by {
                    assert(entry_fault(es[i]) is None);
                }
            }
            if rules {
                assert forall|i: int| 0 <= i < es.len() implies #[trigger] entry_fault(es[i]) is None by {
                    assert(es[i].endpoint@.len() > 0);
                }
            }
        }
    }
}

} // verus!
