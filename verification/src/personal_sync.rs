//! Personal-device synchronization rules for Graphshell's local graph:
//! who may write, what a device projects, what the lane refuses, and how the
//! reader set folds from the operations that name it.

use vstd::prelude::*;

use crate::sorted::{
    id_views, ids_contain, ids_sorted, insert_sorted_id, insert_sorted_string, sorted_contains,
    string_views, strictly_sorted,
};
use crate::text::{
    ascii_lower, chars_eq, chars_of, contains_chars, contains_seq, is_blank, lower_chars, str_eq,
    string_from_chars, trim, trim_chars,
};

verus! {

/// The log every personal graph operation is stored under.
pub const PERSONAL_GRAPH_LOG: u64 = 0;

/// The most events one operation may carry.
pub const MAX_EVENTS_PER_OPERATION: usize = 256;

/// How one operation's body is protected, as its signed header says.
#[derive(Clone, Copy, Debug, PartialEq, Eq, Structural)]
pub enum PersonalEncryption {
    /// The body is the record itself.
    Plaintext,
    /// The body is sealed with this graph's data keyring.
    GroupV1,
}

impl Default for PersonalEncryption {
    /// Every operation written before encryption existed is plaintext.
    fn default() -> (r: Self)
        ensures
            r == PersonalEncryption::Plaintext,
    {
        PersonalEncryption::Plaintext
    }
}

impl PersonalEncryption {
    /// Whether this operation's body can be read without a key.
    pub fn is_plaintext(&self) -> (r: bool)
        ensures
            r == (*self == PersonalEncryption::Plaintext),
    {
        match self {
            PersonalEncryption::Plaintext => true,
            PersonalEncryption::GroupV1 => false,
        }
    }
}

/// Stable persona roots admitted to one personal graph pool.
#[derive(Clone, Debug, PartialEq, Eq)]
pub struct SyncRoster {
    subjects: Vec<[u8; 32]>,
}

impl View for SyncRoster {
    type V = Set<Seq<u8>>;

    closed spec fn view(&self) -> Set<Seq<u8>> {
        id_views(self.subjects@).to_set()
    }
}

impl SyncRoster {
    /// Held in byte order without repeats, so equal rosters compare equal.
    pub closed spec fn wf(&self) -> bool {
        ids_sorted(id_views(self.subjects@))
    }

    /// Admit exactly these subjects.
    pub fn new(subjects: Vec<[u8; 32]>) -> (r: Self)
        ensures
            r.wf(),
            r@ == id_views(subjects@).to_set(),
    {
        let mut held: Vec<[u8; 32]> = Vec::new();
        let mut i: usize = 0;
        proof {
            assert(id_views(held@) =~= Seq::empty());
            assert(id_views(subjects@).subrange(0, 0).to_set() =~= Set::empty());
        }
        while i < subjects.len()
            invariant
                i <= subjects@.len(),
                ids_sorted(id_views(held@)),
                id_views(held@).to_set() == id_views(subjects@).subrange(0, i as int).to_set(),
            decreases subjects@.len() - i,
        {
            insert_sorted_id(&mut held, subjects[i]);
            proof {
                let s = id_views(subjects@);
                assert(s.subrange(0, i + 1) =~= s.subrange(0, i as int).push(s[i as int]));
                s.subrange(0, i as int).lemma_push_to_set_commute(s[i as int]);
            }
            i = i + 1;
        }
        proof {
            assert(id_views(subjects@).subrange(0, subjects@.len() as int) =~= id_views(subjects@));
        }
        SyncRoster { subjects: held }
    }

    /// Whether `subject` may write to this graph.
    pub fn admits(&self, subject: &[u8; 32]) -> (r: bool)
        ensures
            r == self@.contains(subject@),
    {
        ids_contain(&self.subjects, subject)
    }
}

impl Default for SyncRoster {
    /// A roster admitting nobody.
    fn default() -> (r: Self)
        ensures
            r.wf(),
            r@ == Set::<Seq<u8>>::empty(),
    {
        let r = SyncRoster { subjects: Vec::new() };
        assert(id_views(r.subjects@).to_set() =~= Set::<Seq<u8>>::empty());
        r
    }
}

} // verus!

verus! {

/// One class of synthetic node: a node that exists only to carry a facet.
#[derive(Debug, PartialEq, Eq)]
pub struct SyntheticAddressRule {
    /// Address prefix that marks the carrier, e.g. `mere://transfer/`.
    pub prefix: String,
    /// The facet whose selection the carrier follows.
    pub facet: String,
    /// When set, the carrier projects only where the address names the local
    /// device as one of its path segments.
    pub device_scoped: bool,
}

/// The mathematical content of a synthetic-address rule.
pub struct RuleView {
    pub prefix: Seq<char>,
    pub facet: Seq<char>,
    pub device_scoped: bool,
}

impl View for SyntheticAddressRule {
    type V = RuleView;

    open spec fn view(&self) -> RuleView {
        RuleView { prefix: self.prefix@, facet: self.facet@, device_scoped: self.device_scoped }
    }
}

impl Clone for SyntheticAddressRule {
    fn clone(&self) -> (r: Self)
        ensures
            r@ == self@,
    {
        SyntheticAddressRule {
            prefix: self.prefix.clone(),
            facet: self.facet.clone(),
            device_scoped: self.device_scoped,
        }
    }
}

/// The views of a list of rules.
pub open spec fn rule_views(v: Seq<SyntheticAddressRule>) -> Seq<RuleView> {
    v.map_values(|r: SyntheticAddressRule| r@)
}

/// The first rule whose prefix begins `address`.
pub open spec fn first_rule(rules: Seq<RuleView>, address: Seq<char>) -> Option<RuleView>
    decreases rules.len(),
{
    if rules.len() == 0 {
        None
    } else if crate::text::is_prefix(rules[0].prefix, address) {
        Some(rules[0])
    } else {
        first_rule(rules.drop_first(), address)
    }
}

/// Local, user-owned projection settings.
#[derive(Debug, PartialEq, Eq)]
pub struct SyncSelection {
    facets: Vec<String>,
    synthetic: Vec<SyntheticAddressRule>,
    local_device: Option<String>,
    pub access_records: bool,
    pub saved_scenes: bool,
    /// Opt-in persona preference lane.
    pub handler_preferences: bool,
    pub blob_availability: bool,
}

/// The mathematical content of a selection.
pub struct SelectionView {
    pub facets: Set<Seq<char>>,
    pub synthetic: Seq<RuleView>,
    pub local_device: Option<Seq<char>>,
    pub access_records: bool,
    pub saved_scenes: bool,
    pub handler_preferences: bool,
    pub blob_availability: bool,
}

impl View for SyncSelection {
    type V = SelectionView;

    closed spec fn view(&self) -> SelectionView {
        SelectionView {
            facets: string_views(self.facets@).to_set(),
            synthetic: rule_views(self.synthetic@),
            local_device: match self.local_device {
                Some(d) => Some(d@),
                None => None,
            },
            access_records: self.access_records,
            saved_scenes: self.saved_scenes,
            handler_preferences: self.handler_preferences,
            blob_availability: self.blob_availability,
        }
    }
}

/// Whether a node address materializes on a device with selection `sel`.
///
/// Plain addresses always do. A carrier follows the first rule whose prefix
/// it has: its facet must be selected, and a device-scoped carrier must name
/// this device (ignoring ASCII case) as one of the path segments after the
/// prefix, when this device knows its own key.
pub open spec fn projects_node_spec(sel: SelectionView, address: Seq<char>) -> bool {
    match first_rule(sel.synthetic, address) {
        None => true,
        Some(rule) => {
            &&& sel.facets.contains(rule.facet)
            &&& match sel.local_device {
                Some(local) => rule.device_scoped ==> crate::text::has_segment_ignoring_case(
                    address.skip(rule.prefix.len() as int),
                    local,
                ),
                None => true,
            }
        },
    }
}

impl SyncSelection {
    /// Facets are held in character order without repeats.
    pub closed spec fn wf(&self) -> bool {
        strictly_sorted(string_views(self.facets@))
    }

    /// Project exactly these facets.
    pub fn with_facets(self, facets: Vec<String>) -> (r: Self)
        ensures
            r@ == (SelectionView { facets: string_views(facets@).to_set(), ..self@ }),
            r.wf(),
    {
        let mut held: Vec<String> = Vec::new();
        let mut rest = facets;
        let ghost g = rest@;
        proof {
            assert(string_views(held@) =~= Seq::empty());
            assert(string_views(g).subrange(0, 0).to_set() =~= Set::empty());
        }
        let ghost mut n: int = 0;
        while rest.len() > 0
            invariant
                0 <= n <= g.len(),
                rest@.len() + n == g.len(),
                rest@ =~= g.subrange(n, g.len() as int),
                strictly_sorted(string_views(held@)),
                string_views(held@).to_set() == string_views(g).subrange(0, n).to_set(),
            decreases rest@.len(),
        {
            let f = rest.remove(0);
            proof {
                assert(f == g[n]);
            }
            insert_sorted_string(&mut held, f);
            proof {
                let s = string_views(g);
                assert(s.subrange(0, n + 1) =~= s.subrange(0, n).push(s[n]));
                s.subrange(0, n).lemma_push_to_set_commute(s[n]);
                n = n + 1;
            }
        }
        proof {
            assert(string_views(g).subrange(0, g.len() as int) =~= string_views(g));
        }
        SyncSelection { facets: held, ..self }
    }

    /// Project access records or not.
    pub fn with_access_records(self, enabled: bool) -> (r: Self)
        ensures
            r@ == (SelectionView { access_records: enabled, ..self@ }),
            r.wf() == self.wf(),
    {
        SyncSelection { access_records: enabled, ..self }
    }

    /// Project saved scenes or not.
    pub fn with_saved_scenes(self, enabled: bool) -> (r: Self)
        ensures
            r@ == (SelectionView { saved_scenes: enabled, ..self@ }),
            r.wf() == self.wf(),
    {
        SyncSelection { saved_scenes: enabled, ..self }
    }

    /// Project handler preferences or not.
    pub fn with_handler_preferences(self, enabled: bool) -> (r: Self)
        ensures
            r@ == (SelectionView { handler_preferences: enabled, ..self@ }),
            r.wf() == self.wf(),
    {
        SyncSelection { handler_preferences: enabled, ..self }
    }

    /// Project blob availability or not.
    pub fn with_blob_availability(self, enabled: bool) -> (r: Self)
        ensures
            r@ == (SelectionView { blob_availability: enabled, ..self@ }),
            r.wf() == self.wf(),
    {
        SyncSelection { blob_availability: enabled, ..self }
    }

    /// Replace the synthetic-address rules, keeping their order.
    pub fn with_synthetic_addresses(self, rules: Vec<SyntheticAddressRule>) -> (r: Self)
        ensures
            r@ == (SelectionView { synthetic: rule_views(rules@), ..self@ }),
            r.wf() == self.wf(),
    {
        SyncSelection { synthetic: rules, ..self }
    }

    /// Tell this replica its own device key.
    pub fn with_local_device(self, device: &str) -> (r: Self)
        ensures
            r@ == (SelectionView { local_device: Some(device@), ..self@ }),
            r.wf() == self.wf(),
    {
        SyncSelection { local_device: Some(device.to_owned()), ..self }
    }

    /// Whether `facet` is selected.
    pub fn selects_facet(&self, facet: &str) -> (r: bool)
        ensures
            r == self@.facets.contains(facet@),
    {
        let r = sorted_contains(&self.facets, facet);
        proof {
            if r {
                assert(string_views(self.facets@).contains(facet@));
            }
        }
        r
    }

    /// Whether a node address materializes here.
    pub fn projects_node(&self, address: &str) -> (r: bool)
        ensures
            r == projects_node_spec(self@, address@),
    {
        let addr = chars_of(address);
        let mut i: usize = 0;
        proof {
            assert(rule_views(self.synthetic@).skip(0) =~= rule_views(self.synthetic@));
        }
        while i < self.synthetic.len()
            invariant
                i <= self.synthetic@.len(),
                addr@ == address@,
                first_rule(rule_views(self.synthetic@), address@) == first_rule(
                    rule_views(self.synthetic@).skip(i as int),
                    address@,
                ),
            decreases self.synthetic@.len() - i,
        {
            let rule = &self.synthetic[i];
            let prefix = chars_of(rule.prefix.as_str());
            if crate::text::starts_with_chars(&addr, &prefix) {
                proof {
                    assert(rule_views(self.synthetic@).skip(i as int)[0] == rule@);
                }
                if !self.selects_facet(rule.facet.as_str()) {
                    return false;
                }
                if !rule.device_scoped {
                    return true;
                }
                return match &self.local_device {
                    None => true,
                    Some(local) => {
                        let mut rest: Vec<char> = Vec::new();
                        let mut j: usize = prefix.len();
                        while j < addr.len()
                            invariant
                                prefix@.len() <= j <= addr@.len(),
                                rest@ =~= addr@.subrange(prefix@.len() as int, j as int),
                            decreases addr.len() - j,
                        {
                            rest.push(addr[j]);
                            j = j + 1;
                        }
                        proof {
                            assert(rest@ =~= address@.skip(prefix@.len() as int));
                        }
                        let local_chars = chars_of(local.as_str());
                        crate::text::has_segment_ignoring_case_exec(&rest, &local_chars)
                    },
                };
            }
            proof {
                assert(rule_views(self.synthetic@).skip(i as int)[0] == rule@);
                assert(rule_views(self.synthetic@).skip(i as int).drop_first() =~= rule_views(
                    self.synthetic@,
                ).skip(i + 1));
            }
            i = i + 1;
        }
        true
    }
}

impl Default for SyncSelection {
    /// Nothing optional is projected until the user selects it.
    fn default() -> (r: Self)
        ensures
            r.wf(),
            r@.facets == Set::<Seq<char>>::empty(),
            r@.synthetic == Seq::<RuleView>::empty(),
            r@.local_device is None,
            !r@.access_records && !r@.saved_scenes && !r@.handler_preferences && !r@.blob_availability,
    {
        let r = SyncSelection {
            facets: Vec::new(),
            synthetic: Vec::new(),
            local_device: None,
            access_records: false,
            saved_scenes: false,
            handler_preferences: false,
            blob_availability: false,
        };
        proof {
            assert(string_views(r.facets@).to_set() =~= Set::<Seq<char>>::empty());
            assert(rule_views(r.synthetic@) =~= Seq::<RuleView>::empty());
        }
        r
    }
}

} // verus!

verus! {

/// A scalar or mutually exclusive target edited concurrently.
#[derive(Debug, PartialEq, Eq)]
pub struct SyncConflict {
    pub target: String,
    pub operations: Vec<[u8; 32]>,
}

/// Stable identity receipt retained beside the projection.
#[derive(Clone, Copy, Debug, PartialEq, Eq)]
pub struct WriterReceipt {
    pub operation: [u8; 32],
    pub signer: [u8; 32],
    pub stable_subject: [u8; 32],
}

/// One key-agreement step read off the lane, in causal order.
///
/// `author_root` is the stable writer subject the lane already authenticates.
#[derive(Debug, PartialEq, Eq)]
pub struct KeyAgreementStep {
    pub operation: [u8; 32],
    pub author_root: [u8; 32],
    pub step: KeyAgreementEvent,
}

#[derive(Debug, PartialEq, Eq)]
pub enum KeyAgreementEvent {
    /// A device published a pre-key bundle so it can be added.
    Prekey(Vec<u8>),
    /// A membership or rotation step.
    Dispatch(Vec<u8>),
}

#[derive(Debug, PartialEq, Eq)]
pub enum PersonalGraphWireError {
    MissingBody,
    Malformed,
    /// The operation is sealed and this device holds no key for this graph.
    NoKey,
    Unsealable(String),
}

impl PersonalGraphWireError {
    /// The sentence this error reports.
    pub fn message(&self) -> (r: String)
        ensures
            r@ == match *self {
                PersonalGraphWireError::MissingBody => "personal graph operation has no body"@,
                PersonalGraphWireError::Malformed => "personal graph operation body is malformed"@,
                PersonalGraphWireError::NoKey =>
                    "personal graph operation is sealed and this device has no key for the graph"@,
                PersonalGraphWireError::Unsealable(detail) =>
                    "personal graph operation could not be unsealed: "@ + detail@,
            },
    {
        match self {
            PersonalGraphWireError::MissingBody => "personal graph operation has no body".to_owned(),
            PersonalGraphWireError::Malformed => "personal graph operation body is malformed".to_owned(),
            PersonalGraphWireError::NoKey =>
                "personal graph operation is sealed and this device has no key for the graph".to_owned(),
            PersonalGraphWireError::Unsealable(detail) => {
                let mut out = "personal graph operation could not be unsealed: ".to_owned();
                crate::text::push_str(&mut out, detail.as_str());
                out
            },
        }
    }
}

/// The salt a device's personal-graph writer identity is derived under.
pub const PERSONAL_GRAPH_SALT_PREFIX: &'static str = "graphshell.personal-graph.writer.v1/";

/// The prefix's bytes followed by the graph identifier.
pub fn personal_graph_identity_salt(graph: [u8; 32]) -> (r: Vec<u8>)
    ensures
        r@ == vstd::utf8::encode_utf8(PERSONAL_GRAPH_SALT_PREFIX@) + graph@,
{
    crate::sorted::salted(PERSONAL_GRAPH_SALT_PREFIX, graph)
}

/// One immutable statement about which device currently holds addressed bytes.
#[derive(Debug, PartialEq, Eq)]
pub struct BlobAvailabilityObservation {
    pub record_id: u128,
    pub container_id: u128,
    pub blob: [u8; 32],
    pub device: String,
    pub available: bool,
    pub at_ms: u64,
}

/// The bounded, secret-free events Graphshell places on its generic lane,
/// each holding what the lane's rules read of it.
#[derive(Debug, PartialEq)]
pub enum PersonalGraphEvent {
    AddNode { id: u128, address: String, title: String },
    RemoveNode { id: u128 },
    SetTitle { node: u128, title: String },
    AddTag { node: u128, tag: String },
    RemoveTag { node: u128, tag: String },
    /// `assertion` is the relation's canonical key.
    AssertRelation { from: u128, to: u128, assertion: String },
    /// `selector` is the selector's written form.
    RetractRelation { from: u128, to: u128, selector: String },
    SetFacet { node: u128, facet: String, value: crate::json::JsonValue },
    RemoveFacet { node: u128, facet: String },
    /// An access record; `stays_local` when its privacy class is local-only
    /// or moot-scoped rather than portable to trusted peers or the public.
    AppendAccess { record_id: u128, container_id: u128, stays_local: bool },
    SaveScene { node: u128 },
    SetHandlerPreference { key: String, handler: String },
    ObserveBlobAvailability { observation: BlobAvailabilityObservation },
    /// This device's group pre-key bundle, so a keyed member can add it.
    PublishPrekey { bundle: Vec<u8> },
    /// Name a persona root that should be able to read this graph.
    AdmitReader { root: [u8; 32], label: String },
    /// Withdraw a persona root's ability to read this graph.
    RetireReader { root: [u8; 32] },
    /// One membership or rotation step in the graph's key group.
    GroupDispatch { dispatch: Vec<u8> },
}

/// Whether an event carries key agreement rather than graph content.
pub open spec fn is_key_agreement_spec(e: PersonalGraphEvent) -> bool {
    match e {
        PersonalGraphEvent::PublishPrekey { .. } | PersonalGraphEvent::GroupDispatch { .. }
        | PersonalGraphEvent::AdmitReader { .. } | PersonalGraphEvent::RetireReader { .. } => true,
        _ => false,
    }
}

impl PersonalGraphEvent {
    /// Whether this event carries key agreement rather than graph content.
    ///
    /// Key traffic must stay readable by a device that has no key, since
    /// reading it is how that device gets one.
    pub fn is_key_agreement(&self) -> (r: bool)
        ensures
            r == is_key_agreement_spec(*self),
    {
        match self {
            PersonalGraphEvent::PublishPrekey { .. } | PersonalGraphEvent::GroupDispatch { .. }
            | PersonalGraphEvent::AdmitReader { .. } | PersonalGraphEvent::RetireReader { .. } => true,
            _ => false,
        }
    }
}

/// A refusal: a stable code and a sentence.
#[derive(Debug, PartialEq, Eq)]
pub struct Reject {
    pub code: String,
    pub message: String,
}

fn reject(code: &str, message: &str) -> (r: Reject)
    ensures
        r.code@ == code@,
        r.message@ == message@,
{
    Reject { code: code.to_owned(), message: message.to_owned() }
}

} // verus!

verus! {

/// Facet-name fragments that mark credential or secret-bearing material.
pub open spec fn secret_markers() -> Seq<Seq<char>> {
    seq![
        "credential"@,
        "decrypted"@,
        "private-epoch"@,
        "private_key"@,
        "private-key"@,
        "seed"@,
        "vault-root"@,
        "vault_root"@,
    ]
}

/// A refusal as its code and its sentence.
pub open spec fn reject_view(r: Reject) -> (Seq<char>, Seq<char>) {
    (r.code@, r.message@)
}

/// Why a facet name may not travel on the generic lane, if it may not.
///
/// The name is compared trimmed and ASCII-lowercased: empty or over 256 bytes
/// is invalid; the access-history and saved-scene facets have dedicated
/// events; and a name containing a secret marker is refused.
pub open spec fn facet_check(facet: Seq<char>, access_history_facet: Seq<char>) -> Option<
    (Seq<char>, Seq<char>),
> {
    let normalized = ascii_lower(trim(facet));
    if normalized.len() == 0 || vstd::utf8::encode_utf8(normalized).len() > 256 {
        Some(("invalid-personal-graph-facet"@, "facet id is empty or too long"@))
    } else if facet == access_history_facet || facet == crate::product::SAVED_SCENE_FACET@ {
        Some(("reserved-personal-graph-facet"@, "facet has a dedicated append or scene event"@))
    } else if exists|i: int|
        0 <= i < secret_markers().len() && contains_seq(normalized, #[trigger] secret_markers()[i]) {
        Some(
            (
                "secret-bearing-facet"@,
                "credential and secret-bearing facets cannot use generic graph sync"@,
            ),
        )
    } else {
        None
    }
}

fn has_marker(normalized: &Vec<char>, marker: &str) -> (r: bool)
    ensures
        r == contains_seq(normalized@, marker@),
{
    let m = chars_of(marker);
    contains_chars(normalized, &m)
}

/// Check that a facet may travel on the generic lane. The access-history
/// facet's name is supplied by the access module that owns it.
pub fn validate_facet_name(facet: &str, access_history_facet: &str) -> (r: Result<(), Reject>)
    ensures
        match r {
            Ok(()) => facet_check(facet@, access_history_facet@) is None,
            Err(e) => facet_check(facet@, access_history_facet@) == Some(reject_view(e)),
        },
{
    let raw = chars_of(facet);
    let trimmed = trim_chars(&raw);
    let normalized = lower_chars(&trimmed);
    if normalized.len() == 0 || crate::text::utf8_len_exceeds(&normalized, 256) {
        return Err(reject("invalid-personal-graph-facet", "facet id is empty or too long"));
    }
    if str_eq(facet, access_history_facet) || str_eq(facet, crate::product::SAVED_SCENE_FACET) {
        return Err(
            reject("reserved-personal-graph-facet", "facet has a dedicated append or scene event"),
        );
    }
    let secret = has_marker(&normalized, "credential") || has_marker(&normalized, "decrypted")
        || has_marker(&normalized, "private-epoch") || has_marker(&normalized, "private_key")
        || has_marker(&normalized, "private-key") || has_marker(&normalized, "seed")
        || has_marker(&normalized, "vault-root") || has_marker(&normalized, "vault_root");
    proof {
        let ms = secret_markers();
        if exists|i: int| 0 <= i < ms.len() && contains_seq(normalized@, #[trigger] ms[i]) {
            let i = choose|i: int| 0 <= i < ms.len() && contains_seq(normalized@, #[trigger] ms[i]);
            assert(secret);
        }
        if secret {
            if contains_seq(normalized@, "credential"@) {
                assert(contains_seq(normalized@, ms[0]));
            } else if contains_seq(normalized@, "decrypted"@) {
                assert(contains_seq(normalized@, ms[1]));
            } else if contains_seq(normalized@, "private-epoch"@) {
                assert(contains_seq(normalized@, ms[2]));
            } else if contains_seq(normalized@, "private_key"@) {
                assert(contains_seq(normalized@, ms[3]));
            } else if contains_seq(normalized@, "private-key"@) {
                assert(contains_seq(normalized@, ms[4]));
            } else if contains_seq(normalized@, "seed"@) {
                assert(contains_seq(normalized@, ms[5]));
            } else if contains_seq(normalized@, "vault-root"@) {
                assert(contains_seq(normalized@, ms[6]));
            } else {
                assert(contains_seq(normalized@, ms[7]));
            }
        }
    }
    if secret {
        return Err(
            reject(
                "secret-bearing-facet",
                "credential and secret-bearing facets cannot use generic graph sync",
            ),
        );
    }
    Ok(())
}

} // verus!

verus! {

/// Why the lane refuses an event, if it does. `payload_error` is what
/// decoding a pre-key bundle or group dispatch reported, when it failed.
pub open spec fn event_check(
    e: PersonalGraphEvent,
    access_history_facet: Seq<char>,
    payload_error: Option<Seq<char>>,
) -> Option<(Seq<char>, Seq<char>)> {
    match e {
        PersonalGraphEvent::AddNode { address, .. } => if trim(address@).len() == 0 {
            Some(("empty-personal-graph-address"@, "node address is empty"@))
        } else {
            None
        },
        PersonalGraphEvent::AddTag { tag, .. } => if trim(tag@).len() == 0 {
            Some(("empty-personal-graph-tag"@, "tag is empty"@))
        } else {
            None
        },
        PersonalGraphEvent::RemoveTag { tag, .. } => if trim(tag@).len() == 0 {
            Some(("empty-personal-graph-tag"@, "tag is empty"@))
        } else {
            None
        },
        PersonalGraphEvent::SetFacet { facet, .. } => facet_check(facet@, access_history_facet),
        PersonalGraphEvent::RemoveFacet { facet, .. } => facet_check(facet@, access_history_facet),
        PersonalGraphEvent::AppendAccess { stays_local, .. } => if stays_local {
            Some(
                (
                    "access-record-not-portable"@,
                    "access record was not marked for trusted-peer or public portability"@,
                ),
            )
        } else {
            None
        },
        PersonalGraphEvent::SetHandlerPreference { key, handler } => if trim(key@).len() == 0
            || trim(handler@).len() == 0 {
            Some(
                (
                    "empty-handler-preference"@,
                    "handler preference key and value must be non-empty"@,
                ),
            )
        } else {
            None
        },
        PersonalGraphEvent::ObserveBlobAvailability { observation } => if trim(
            observation.device@,
        ).len() == 0 {
            Some(
                (
                    "empty-blob-availability-device"@,
                    "blob availability observation must name its source device"@,
                ),
            )
        } else {
            None
        },
        PersonalGraphEvent::PublishPrekey { .. } => match payload_error {
            Some(m) => Some(("invalid-group-prekey"@, m)),
            None => None,
        },
        PersonalGraphEvent::GroupDispatch { .. } => match payload_error {
            Some(m) => Some(("invalid-group-dispatch"@, m)),
            None => None,
        },
        _ => None,
    }
}

/// Check one event against the lane's grammar.
///
/// Decoding a pre-key bundle verifies its identity signature back to a
/// persona root and decoding a dispatch checks its frame; `payload_error` is
/// what that decoding reported, when it failed.
pub fn validate_event(
    event: &PersonalGraphEvent,
    access_history_facet: &str,
    payload_error: &Option<String>,
) -> (r: Result<(), Reject>)
    ensures
        match r {
            Ok(()) => event_check(
                *event,
                access_history_facet@,
                match *payload_error {
                    Some(m) => Some(m@),
                    None => None,
                },
            ) is None,
            Err(e) => event_check(
                *event,
                access_history_facet@,
                match *payload_error {
                    Some(m) => Some(m@),
                    None => None,
                },
            ) == Some(reject_view(e)),
        },
{
    match event {
        PersonalGraphEvent::AddNode { address, .. } => {
            if is_blank(address.as_str()) {
                return Err(reject("empty-personal-graph-address", "node address is empty"));
            }
            Ok(())
        },
        PersonalGraphEvent::AddTag { tag, .. } | PersonalGraphEvent::RemoveTag { tag, .. } => {
            if is_blank(tag.as_str()) {
                return Err(reject("empty-personal-graph-tag", "tag is empty"));
            }
            Ok(())
        },
        PersonalGraphEvent::SetFacet { facet, .. } | PersonalGraphEvent::RemoveFacet {
            facet,
            ..
        } => validate_facet_name(facet.as_str(), access_history_facet),
        PersonalGraphEvent::AppendAccess { stays_local, .. } => {
            if *stays_local {
                return Err(
                    reject(
                        "access-record-not-portable",
                        "access record was not marked for trusted-peer or public portability",
                    ),
                );
            }
            Ok(())
        },
        PersonalGraphEvent::SetHandlerPreference { key, handler } => {
            if is_blank(key.as_str()) || is_blank(handler.as_str()) {
                return Err(
                    reject(
                        "empty-handler-preference",
                        "handler preference key and value must be non-empty",
                    ),
                );
            }
            Ok(())
        },
        PersonalGraphEvent::ObserveBlobAvailability { observation } => {
            if is_blank(observation.device.as_str()) {
                return Err(
                    reject(
                        "empty-blob-availability-device",
                        "blob availability observation must name its source device",
                    ),
                );
            }
            Ok(())
        },
        PersonalGraphEvent::PublishPrekey { .. } => match payload_error {
            Some(m) => Err(Reject { code: "invalid-group-prekey".to_owned(), message: m.clone() }),
            None => Ok(()),
        },
        PersonalGraphEvent::GroupDispatch { .. } => match payload_error {
            Some(m) => Err(Reject { code: "invalid-group-dispatch".to_owned(), message: m.clone() }),
            None => Ok(()),
        },
        _ => Ok(()),
    }
}

/// How many of `s` carry key agreement.
pub open spec fn key_count(s: Seq<PersonalGraphEvent>) -> nat
    decreases s.len(),
{
    if s.len() == 0 {
        0
    } else {
        key_count(s.drop_last()) + if is_key_agreement_spec(s.last()) {
            1nat
        } else {
            0nat
        }
    }
}

/// Refuse an operation that mixes key agreement with graph content: key
/// agreement travels in the clear, so content beside it would too.
pub fn one_kind_per_operation(events: &Vec<PersonalGraphEvent>) -> (r: Result<(), Reject>)
    ensures
        match r {
            Ok(()) => key_count(events@) == 0 || key_count(events@) == events@.len(),
            Err(e) => !(key_count(events@) == 0 || key_count(events@) == events@.len())
                && reject_view(e) == (
                "mixed-key-and-content-operation"@,
                "an operation carries either key agreement or graph content, never both"@,
            ),
        },
{
    let mut key: usize = 0;
    let mut i: usize = 0;
    assert(events@.subrange(0, 0) =~= Seq::<PersonalGraphEvent>::empty());
    while i < events.len()
        invariant
            i <= events@.len(),
            key == key_count(events@.subrange(0, i as int)),
            key <= i,
        decreases events@.len() - i,
    {
        if events[i].is_key_agreement() {
            key = key + 1;
        }
        proof {
            assert(events@.subrange(0, i + 1).drop_last() =~= events@.subrange(0, i as int));
        }
        i = i + 1;
    }
    assert(events@.subrange(0, events@.len() as int) =~= events@);
    if key == 0 || key == events.len() {
        return Ok(());
    }
    Err(
        reject(
            "mixed-key-and-content-operation",
            "an operation carries either key agreement or graph content, never both",
        ),
    )
}

/// Whether a device with selection `sel` projects event `e`.
pub open spec fn projects_spec(sel: SelectionView, e: PersonalGraphEvent) -> bool {
    match e {
        PersonalGraphEvent::AddNode { address, .. } => projects_node_spec(sel, address@),
        PersonalGraphEvent::SetFacet { facet, .. } => sel.facets.contains(facet@),
        PersonalGraphEvent::RemoveFacet { facet, .. } => sel.facets.contains(facet@),
        PersonalGraphEvent::AppendAccess { .. } => sel.access_records,
        PersonalGraphEvent::SaveScene { .. } => sel.saved_scenes,
        PersonalGraphEvent::SetHandlerPreference { .. } => sel.handler_preferences,
        PersonalGraphEvent::ObserveBlobAvailability { .. } => sel.blob_availability,
        _ => true,
    }
}

impl SyncSelection {
    /// Whether this device keeps the lane's persona handler preferences.
    pub fn projects_handler_preferences(&self) -> (r: bool)
        ensures
            r == self@.handler_preferences,
    {
        self.handler_preferences
    }

    /// Whether this device keeps the lane's blob availability statements.
    pub fn projects_blob_availability(&self) -> (r: bool)
        ensures
            r == self@.blob_availability,
    {
        self.blob_availability
    }

    /// Whether this device projects `event`; operations stay retained either
    /// way, so a later settings change can reproject without asking peers.
    pub fn projects(&self, event: &PersonalGraphEvent) -> (r: bool)
        requires
            self.wf(),
        ensures
            r == projects_spec(self@, *event),
    {
        match event {
            PersonalGraphEvent::AddNode { address, .. } => self.projects_node(address.as_str()),
            PersonalGraphEvent::SetFacet { facet, .. } | PersonalGraphEvent::RemoveFacet {
                facet,
                ..
            } => self.selects_facet(facet.as_str()),
            PersonalGraphEvent::AppendAccess { .. } => self.access_records,
            PersonalGraphEvent::SaveScene { .. } => self.saved_scenes,
            PersonalGraphEvent::SetHandlerPreference { .. } => self.handler_preferences,
            PersonalGraphEvent::ObserveBlobAvailability { .. } => self.blob_availability,
            _ => true,
        }
    }
}

} // verus!

verus! {

/// The map a list of (root, label) entries spells, later entries winning.
pub open spec fn entries_map(s: Seq<([u8; 32], String)>) -> Map<Seq<u8>, Seq<char>>
    decreases s.len(),
{
    if s.len() == 0 {
        Map::empty()
    } else {
        entries_map(s.drop_last()).insert(s.last().0@, s.last().1@)
    }
}

/// No two entries share a root.
pub open spec fn unique_roots(s: Seq<([u8; 32], String)>) -> bool {
    forall|i: int, j: int| 0 <= i < j < s.len() ==> (#[trigger] s[i]).0@ != (#[trigger] s[j]).0@
}

proof fn lemma_entries_map_dom(s: Seq<([u8; 32], String)>)
    requires
        unique_roots(s),
    ensures
        entries_map(s).dom().finite(),
        entries_map(s).dom().len() == s.len(),
        forall|k: Seq<u8>|
            entries_map(s).dom().contains(k) <==> exists|i: int|
                0 <= i < s.len() && (#[trigger] s[i]).0@ == k,
        forall|i: int|
            0 <= i < s.len() ==> #[trigger] entries_map(s)[s[i].0@] == s[i].1@,
    decreases s.len(),
{
    if s.len() > 0 {
        let p = s.drop_last();
        assert(unique_roots(p)) by {
            assert forall|i: int, j: int| 0 <= i < j < p.len() implies (#[trigger] p[i]).0@ != (
            #[trigger] p[j]).0@ by {
                assert(s[i] == p[i] && s[j] == p[j]);
            }
        }
        lemma_entries_map_dom(p);
        let k = s.last().0@;
        assert(!entries_map(p).dom().contains(k)) by {
            if entries_map(p).dom().contains(k) {
                let i = choose|i: int| 0 <= i < p.len() && (#[trigger] p[i]).0@ == k;
                assert(s[i] == p[i]);
                assert(s[i].0@ != s[s.len() - 1].0@);
            }
        }
        assert forall|k2: Seq<u8>| entries_map(s).dom().contains(k2) <==> exists|i: int|
            0 <= i < s.len() && (#[trigger] s[i]).0@ == k2 by {
            if entries_map(s).dom().contains(k2) && k2 != k {
                let i = choose|i: int| 0 <= i < p.len() && (#[trigger] p[i]).0@ == k2;
                assert(s[i] == p[i]);
            }
            if exists|i: int| 0 <= i < s.len() && (#[trigger] s[i]).0@ == k2 {
                let i = choose|i: int| 0 <= i < s.len() && (#[trigger] s[i]).0@ == k2;
                if i < p.len() {
                    assert(s[i] == p[i]);
                }
            }
        }
        assert forall|i: int| 0 <= i < s.len() implies #[trigger] entries_map(s)[s[i].0@]
            == s[i].1@ by {
            if i < p.len() {
                assert(s[i] == p[i]);
                assert(s[i].0@ != s[s.len() - 1].0@);
            }
        }
    }
}

proof fn lemma_entries_map_update(s: Seq<([u8; 32], String)>, i: int, e: ([u8; 32], String))
    requires
        unique_roots(s),
        0 <= i < s.len(),
        e.0@ == s[i].0@,
    ensures
        unique_roots(s.update(i, e)),
        entries_map(s.update(i, e)) == entries_map(s).insert(e.0@, e.1@),
    decreases s.len(),
{
    let t = s.update(i, e);
    assert(unique_roots(t)) by {
        assert forall|a: int, b: int| 0 <= a < b < t.len() implies (#[trigger] t[a]).0@ != (
        #[trigger] t[b]).0@ by {
            assert(s[a].0@ != s[b].0@);
        }
    }
    let p = s.drop_last();
    assert(unique_roots(p)) by {
        assert forall|a: int, b: int| 0 <= a < b < p.len() implies (#[trigger] p[a]).0@ != (
        #[trigger] p[b]).0@ by {
            assert(s[a] == p[a] && s[b] == p[b]);
        }
    }
    if i == s.len() - 1 {
        assert(t.drop_last() =~= p);
        assert(entries_map(t) =~= entries_map(s).insert(e.0@, e.1@));
    } else {
        lemma_entries_map_update(p, i, e);
        assert(t.drop_last() =~= p.update(i, e));
        assert(s.last().0@ != e.0@) by {
            assert(s[i].0@ != s[s.len() - 1].0@);
        }
        assert(entries_map(t) =~= entries_map(s).insert(e.0@, e.1@));
    }
}

proof fn lemma_entries_map_remove(s: Seq<([u8; 32], String)>, i: int)
    requires
        unique_roots(s),
        0 <= i < s.len(),
    ensures
        unique_roots(s.remove(i)),
        entries_map(s.remove(i)) == entries_map(s).remove(s[i].0@),
    decreases s.len(),
{
    let t = s.remove(i);
    assert(unique_roots(t)) by {
        assert forall|a: int, b: int| 0 <= a < b < t.len() implies (#[trigger] t[a]).0@ != (
        #[trigger] t[b]).0@ by {
            let a2 = if a < i { a } else { a + 1 };
            let b2 = if b < i { b } else { b + 1 };
            assert(t[a] == s[a2] && t[b] == s[b2]);
            assert(s[a2].0@ != s[b2].0@);
        }
    }
    let p = s.drop_last();
    assert(unique_roots(p)) by {
        assert forall|a: int, b: int| 0 <= a < b < p.len() implies (#[trigger] p[a]).0@ != (
        #[trigger] p[b]).0@ by {
            assert(s[a] == p[a] && s[b] == p[b]);
        }
    }
    lemma_entries_map_dom(p);
    if i == s.len() - 1 {
        assert(t =~= p);
        assert(!entries_map(p).dom().contains(s[i].0@)) by {
            if entries_map(p).dom().contains(s[i].0@) {
                let j = choose|j: int| 0 <= j < p.len() && (#[trigger] p[j]).0@ == s[i].0@;
                assert(s[j] == p[j]);
                assert(s[j].0@ != s[i].0@);
            }
        }
        assert(entries_map(t) =~= entries_map(s).remove(s[i].0@));
    } else {
        lemma_entries_map_remove(p, i);
        assert(t.drop_last() =~= p.remove(i));
        assert(t.last() == s.last());
        assert(s.last().0@ != s[i].0@) by {
            assert(s[i].0@ != s[s.len() - 1].0@);
        }
        assert(entries_map(t) =~= entries_map(s).remove(s[i].0@));
    }
}

/// The persona roots a graph says may read it, with their labels.
#[derive(Debug, PartialEq, Eq)]
pub struct ReaderSet {
    entries: Vec<([u8; 32], String)>,
}

impl View for ReaderSet {
    type V = Map<Seq<u8>, Seq<char>>;

    closed spec fn view(&self) -> Map<Seq<u8>, Seq<char>> {
        entries_map(self.entries@)
    }
}

impl ReaderSet {
    /// Each root at most once.
    pub closed spec fn wf(&self) -> bool {
        unique_roots(self.entries@)
    }

    /// Nobody reads.
    pub fn new() -> (r: Self)
        ensures
            r.wf(),
            r@ == Map::<Seq<u8>, Seq<char>>::empty(),
    {
        ReaderSet { entries: Vec::new() }
    }

    fn position(&self, root: &[u8; 32]) -> (r: Option<usize>)
        ensures
            match r {
                Some(i) => i < self.entries@.len() && self.entries@[i as int].0@ == root@,
                None => forall|i: int|
                    0 <= i < self.entries@.len() ==> (#[trigger] self.entries@[i]).0@ != root@,
            },
    {
        let mut i: usize = 0;
        while i < self.entries.len()
            invariant
                i <= self.entries@.len(),
                forall|q: int| 0 <= q < i ==> (#[trigger] self.entries@[q]).0@ != root@,
            decreases self.entries@.len() - i,
        {
            if crate::sorted::compare_ids(&self.entries[i].0, root) == 0 {
                return Some(i);
            }
            i = i + 1;
        }
        None
    }

    /// Whether `root` reads.
    pub fn contains(&self, root: &[u8; 32]) -> (r: bool)
        requires
            self.wf(),
        ensures
            r == self@.dom().contains(root@),
    {
        proof {
            lemma_entries_map_dom(self.entries@);
        }
        self.position(root).is_some()
    }

    /// The label `root` was admitted under, if it reads.
    pub fn label(&self, root: &[u8; 32]) -> (r: Option<&String>)
        requires
            self.wf(),
        ensures
            match r {
                Some(l) => self@.dom().contains(root@) && self@[root@] == l@,
                None => !self@.dom().contains(root@),
            },
    {
        proof {
            lemma_entries_map_dom(self.entries@);
        }
        match self.position(root) {
            Some(i) => Some(&self.entries[i].1),
            None => None,
        }
    }

    /// How many roots read.
    pub fn len(&self) -> (r: usize)
        requires
            self.wf(),
        ensures
            r == self@.dom().len(),
    {
        proof {
            lemma_entries_map_dom(self.entries@);
        }
        self.entries.len()
    }

    /// The readers and their labels, in the order they were first seated.
    pub fn entries(&self) -> (r: &[([u8; 32], String)])
        ensures
            entries_map(r@) == self@,
    {
        self.entries.as_slice()
    }

    /// Seat `root` under `label`, replacing its label if it already reads.
    pub fn insert(&mut self, root: [u8; 32], label: String)
        requires
            old(self).wf(),
        ensures
            final(self).wf(),
            final(self)@ == old(self)@.insert(root@, label@),
    {
        match self.position(&root) {
            Some(i) => {
                proof {
                    lemma_entries_map_update(self.entries@, i as int, (root, label));
                }
                self.entries.set(i, (root, label));
            },
            None => {
                let ghost before = self.entries@;
                self.entries.push((root, label));
                proof {
                    assert(self.entries@.drop_last() =~= before);
                    assert(unique_roots(self.entries@)) by {
                        assert forall|a: int, b: int| 0 <= a < b < self.entries@.len() implies (
                        #[trigger] self.entries@[a]).0@ != (#[trigger] self.entries@[b]).0@ by {
                            if b < before.len() {
                                assert(before[a].0@ != before[b].0@);
                            } else {
                                assert(before[a].0@ != root@);
                            }
                        }
                    }
                }
            },
        }
    }

    /// Unseat `root`, if it reads.
    pub fn remove(&mut self, root: &[u8; 32])
        requires
            old(self).wf(),
        ensures
            final(self).wf(),
            final(self)@ == old(self)@.remove(root@),
    {
        proof {
            lemma_entries_map_dom(self.entries@);
        }
        match self.position(root) {
            Some(i) => {
                proof {
                    lemma_entries_map_remove(self.entries@, i as int);
                }
                self.entries.remove(i);
            },
            None => {
                assert(self@ =~= self@.remove(root@));
            },
        }
    }
}

} // verus!

verus! {

/// One stored operation as the reader fold sees it: its stable writer
/// subject (`None` when that cannot be derived) and its events.
#[derive(Debug, PartialEq)]
pub struct AuthoredOperation {
    pub author: Option<[u8; 32]>,
    pub events: Vec<PersonalGraphEvent>,
}

/// What one event written by `author` does to the reader set.
///
/// The first admit bootstraps: before anyone reads, the earliest admit seats
/// its author too. After that only a reader may admit or retire, and a
/// reader may not retire the set out of existence.
pub open spec fn reader_step(
    readers: Map<Seq<u8>, Seq<char>>,
    author: Seq<u8>,
    e: PersonalGraphEvent,
) -> Map<Seq<u8>, Seq<char>> {
    match e {
        PersonalGraphEvent::AdmitReader { root, label } => {
            let seated = if readers.dom().len() == 0 {
                readers.insert(author, Seq::empty())
            } else {
                readers
            };
            if seated.dom().contains(author) {
                seated.insert(root@, label@)
            } else {
                seated
            }
        },
        PersonalGraphEvent::RetireReader { root } => {
            if readers.dom().contains(author) && readers.dom().len() > 1 {
                readers.remove(root@)
            } else {
                readers
            }
        },
        _ => readers,
    }
}

/// The events of one operation applied in order.
pub open spec fn reader_events(
    readers: Map<Seq<u8>, Seq<char>>,
    author: Seq<u8>,
    events: Seq<PersonalGraphEvent>,
) -> Map<Seq<u8>, Seq<char>>
    decreases events.len(),
{
    if events.len() == 0 {
        readers
    } else {
        reader_step(reader_events(readers, author, events.drop_last()), author, events.last())
    }
}

/// The reader set folded from operations in causal order. An operation
/// whose author cannot be derived is skipped.
pub open spec fn fold_readers_spec(ops: Seq<AuthoredOperation>) -> Map<Seq<u8>, Seq<char>>
    decreases ops.len(),
{
    if ops.len() == 0 {
        Map::empty()
    } else {
        let before = fold_readers_spec(ops.drop_last());
        match ops.last().author {
            Some(a) => reader_events(before, a@, ops.last().events@),
            None => before,
        }
    }
}

fn apply_reader_event(readers: &mut ReaderSet, author: &[u8; 32], event: &PersonalGraphEvent)
    requires
        old(readers).wf(),
    ensures
        final(readers).wf(),
        final(readers)@ == reader_step(old(readers)@, author@, *event),
{
    proof {
        lemma_entries_map_dom(readers.entries@);
    }
    match event {
        PersonalGraphEvent::AdmitReader { root, label } => {
            if readers.len() == 0 {
                readers.insert(*author, String::new());
            }
            if readers.contains(author) {
                readers.insert(*root, label.clone());
            }
        },
        PersonalGraphEvent::RetireReader { root } => {
            if readers.contains(author) && readers.len() > 1 {
                readers.remove(root);
            }
        },
        _ => {},
    }
}

/// Fold the reader set from the operations that named it.
///
/// Deterministic and total: every device holding the same operations in the
/// same causal order computes the same set. A revocation is not an action one
/// device performs on another; it is a fact all of them read.
pub fn fold_readers(ops: &Vec<AuthoredOperation>) -> (r: ReaderSet)
    ensures
        r.wf(),
        r@ == fold_readers_spec(ops@),
{
    let mut readers = ReaderSet::new();
    let mut i: usize = 0;
    assert(ops@.subrange(0, 0) =~= Seq::<AuthoredOperation>::empty());
    while i < ops.len()
        invariant
            i <= ops@.len(),
            readers.wf(),
            readers@ == fold_readers_spec(ops@.subrange(0, i as int)),
        decreases ops@.len() - i,
    {
        let op = &ops[i];
        proof {
            assert(ops@.subrange(0, i + 1).drop_last() =~= ops@.subrange(0, i as int));
        }
        match &op.author {
            Some(author) => {
                let ghost start = readers@;
                let mut j: usize = 0;
                assert(op.events@.subrange(0, 0) =~= Seq::<PersonalGraphEvent>::empty());
                while j < op.events.len()
                    invariant
                        j <= op.events@.len(),
                        readers.wf(),
                        readers@ == reader_events(start, author@, op.events@.subrange(0, j as int)),
                    decreases op.events@.len() - j,
                {
                    apply_reader_event(&mut readers, author, &op.events[j]);
                    proof {
                        assert(op.events@.subrange(0, j + 1).drop_last() =~= op.events@.subrange(
                            0,
                            j as int,
                        ));
                    }
                    j = j + 1;
                }
                assert(op.events@.subrange(0, op.events@.len() as int) =~= op.events@);
            },
            None => {},
        }
        i = i + 1;
    }
    assert(ops@.subrange(0, ops@.len() as int) =~= ops@);
    readers
}

proof fn lemma_step_keeps_readers(readers: Map<Seq<u8>, Seq<char>>, author: Seq<u8>, e: PersonalGraphEvent)
    requires
        readers.dom().finite(),
        readers.dom().len() >= 1,
    ensures
        reader_step(readers, author, e).dom().finite(),
        reader_step(readers, author, e).dom().len() >= 1,
{
    match e {
        PersonalGraphEvent::AdmitReader { root, label } => {
            if readers.dom().contains(author) {
                assert(readers.insert(root@, label@).dom() =~= readers.dom().insert(root@));
                if !readers.dom().contains(root@) {
                    assert(readers.dom().insert(root@).len() == readers.dom().len() + 1);
                }
            }
        },
        PersonalGraphEvent::RetireReader { root } => {
            lemma_retire_never_empties(readers, author, root);
            if readers.dom().contains(author) && readers.dom().len() > 1 {
                assert(readers.remove(root@).dom() =~= readers.dom().remove(root@));
            }
        },
        _ => {},
    }
}

proof fn lemma_events_keep_readers(readers: Map<Seq<u8>, Seq<char>>, author: Seq<u8>, events: Seq<PersonalGraphEvent>)
    requires
        readers.dom().finite(),
        readers.dom().len() >= 1,
    ensures
        reader_events(readers, author, events).dom().finite(),
        reader_events(readers, author, events).dom().len() >= 1,
    decreases events.len(),
{
    if events.len() > 0 {
        lemma_events_keep_readers(readers, author, events.drop_last());
        lemma_step_keeps_readers(reader_events(readers, author, events.drop_last()), author, events.last());
    }
}

/// Over a whole history: once a graph has a reader it always has one. Any
/// operations folded after a point where the reader set is non-empty, in
/// whatever number and by whoever, leave it non-empty, so the last reader
/// can never retire itself and leave the graph unreadable.
pub proof fn lemma_readers_never_empty_again(ops: Seq<AuthoredOperation>, n: int)
    requires
        0 <= n <= ops.len(),
        fold_readers_spec(ops.subrange(0, n)).dom().finite(),
        fold_readers_spec(ops.subrange(0, n)).dom().len() >= 1,
    ensures
        fold_readers_spec(ops).dom().finite(),
        fold_readers_spec(ops).dom().len() >= 1,
    decreases ops.len() - n,
{
    if n == ops.len() {
        assert(ops.subrange(0, n) =~= ops);
    } else {
        let pre = ops.subrange(0, n + 1);
        assert(pre.drop_last() =~= ops.subrange(0, n));
        match pre.last().author {
            Some(a) => lemma_events_keep_readers(fold_readers_spec(ops.subrange(0, n)), a@, pre.last().events@),
            None => {},
        }
        lemma_readers_never_empty_again(ops, n + 1);
    }
}

/// Every device folds the same reader set from the same history: the set
/// is a function of the operations, their authors and events, in causal
/// order, and of nothing a device holds besides.
pub proof fn lemma_same_history_same_readers(a: Seq<AuthoredOperation>, b: Seq<AuthoredOperation>)
    requires
        a.len() == b.len(),
        forall|i: int| 0 <= i < a.len() ==> (#[trigger] a[i]).author == b[i].author && a[i].events@ == b[i].events@,
    ensures
        fold_readers_spec(a) == fold_readers_spec(b),
    decreases a.len(),
{
    if a.len() > 0 {
        lemma_same_history_same_readers(a.drop_last(), b.drop_last());
    }
}

/// Retiring never empties a reader set: the last reader cannot retire
/// itself, since nobody could then admit anyone.
pub proof fn lemma_retire_never_empties(
    readers: Map<Seq<u8>, Seq<char>>,
    author: Seq<u8>,
    root: [u8; 32],
)
    requires
        readers.dom().finite(),
        readers.dom().len() >= 1,
    ensures
        reader_step(readers, author, PersonalGraphEvent::RetireReader { root }).dom().len() >= 1,
{
    if readers.dom().contains(author) && readers.dom().len() > 1 {
        if readers.dom().contains(root@) {
            assert(readers.remove(root@).dom() =~= readers.dom().remove(root@));
        } else {
            assert(readers.remove(root@).dom() =~= readers.dom());
        }
    }
}

/// Once anyone reads, only a reader can name another or retire one: an
/// admit or retire written by anyone else changes nothing.
pub proof fn lemma_only_a_reader_can_name_another(
    readers: Map<Seq<u8>, Seq<char>>,
    author: Seq<u8>,
    e: PersonalGraphEvent,
)
    requires
        readers.dom().finite(),
        readers.dom().len() >= 1,
        !readers.dom().contains(author),
    ensures
        reader_step(readers, author, e) == readers,
{
}

/// The first admit seats its author and the root it names.
pub proof fn lemma_first_admit_bootstraps(
    author: Seq<u8>,
    root: [u8; 32],
    label: String,
)
    ensures
        ({
            let after = reader_step(
                Map::empty(),
                author,
                PersonalGraphEvent::AdmitReader { root, label },
            );
            &&& after.dom().contains(author)
            &&& after.dom().contains(root@)
            &&& after[root@] == label@
        }),
{
    let seated = Map::<Seq<u8>, Seq<char>>::empty().insert(author, Seq::empty());
    assert(Map::<Seq<u8>, Seq<char>>::empty().dom() =~= Set::empty());
    assert(seated.dom().contains(author));
}

} // verus!

verus! {

/// One event of a received operation, with what decoding its payload
/// reported when that failed (pre-key bundles and group dispatches only).
#[derive(Debug, PartialEq)]
pub struct EventFacts {
    pub event: PersonalGraphEvent,
    pub payload_error: Option<String>,
}

/// What an operation's readable record shows the lane's policy.
#[derive(Debug, PartialEq)]
pub struct RecordFacts {
    pub events: Vec<EventFacts>,
    /// Whether the record's own parents pass the causal metadata check, or
    /// what that check reported.
    pub causality: Result<(), String>,
    /// The stable writer subject derived from the record's attestation, or
    /// the refusal that derivation gave.
    pub subject: Result<[u8; 32], Reject>,
}

/// What the lane's policy reads of one received operation.
#[derive(Debug, PartialEq)]
pub struct OperationFacts {
    /// Whether the operation addresses this graph.
    pub graph_matches: bool,
    /// How the header says the body is protected.
    pub encryption: PersonalEncryption,
    /// The stable writer subject from the header's attestation: `None` when
    /// the header carries none, or the refusal its derivation gave.
    pub header_subject: Result<Option<[u8; 32]>, Reject>,
    /// Whether the header's parents pass the causal metadata check, or what
    /// that check reported.
    pub header_causality: Result<(), String>,
    /// The readable record, or why it could not be read.
    pub body: Result<RecordFacts, PersonalGraphWireError>,
}

pub open spec fn event_facts_view(e: EventFacts) -> (PersonalGraphEvent, Option<Seq<char>>) {
    (
        e.event,
        match e.payload_error {
            Some(m) => Some(m@),
            None => None,
        },
    )
}

/// The first event refusal among `events`, scanning from position `i`.
pub open spec fn events_check(
    events: Seq<EventFacts>,
    i: nat,
    access_history_facet: Seq<char>,
) -> Option<(Seq<char>, Seq<char>)>
    decreases events.len() - i,
{
    if i >= events.len() {
        None
    } else {
        match event_check(
            events[i as int].event,
            access_history_facet,
            event_facts_view(events[i as int]).1,
        ) {
            Some(r) => Some(r),
            None => events_check(events, i + 1, access_history_facet),
        }
    }
}

/// How many events carry key agreement.
pub open spec fn fact_key_count(s: Seq<EventFacts>) -> nat
    decreases s.len(),
{
    if s.len() == 0 {
        0
    } else {
        fact_key_count(s.drop_last()) + if is_key_agreement_spec(s.last().event) {
            1nat
        } else {
            0nat
        }
    }
}

pub open spec fn wire_message(e: PersonalGraphWireError) -> Seq<char> {
    match e {
        PersonalGraphWireError::MissingBody => "personal graph operation has no body"@,
        PersonalGraphWireError::Malformed => "personal graph operation body is malformed"@,
        PersonalGraphWireError::NoKey =>
            "personal graph operation is sealed and this device has no key for the graph"@,
        PersonalGraphWireError::Unsealable(detail) =>
            "personal graph operation could not be unsealed: "@ + detail@,
    }
}

pub open spec fn not_admitted() -> (Seq<char>, Seq<char>) {
    (
        "personal-graph-writer-not-admitted"@,
        "stable writer subject is outside this graph roster"@,
    )
}

/// Whether the lane keeps a received operation, or why it refuses it.
///
/// Everything checkable without the body comes first. A sealed operation
/// this device cannot open is kept when its header names an admitted writer
/// and its parents are sound; its events go unchecked until the key arrives.
/// A readable operation must carry 1 to 256 events, each valid, of one kind
/// (key agreement or content), with no key agreement sealed, from a writer
/// the roster admits.
pub open spec fn policy_check(
    f: OperationFacts,
    roster: Set<Seq<u8>>,
    access_history_facet: Seq<char>,
) -> Option<(Seq<char>, Seq<char>)> {
    if !f.graph_matches {
        Some(("wrong-personal-graph"@, "operation addresses another personal graph"@))
    } else {
        match f.header_subject {
            Err(r) => Some(reject_view(r)),
            Ok(header_subject) => match f.body {
                Err(PersonalGraphWireError::NoKey) => match header_subject {
                    None => Some(
                        (
                            "unattributable-sealed-operation"@,
                            "a sealed operation carries no writer attestation in its header, so this device cannot tell whether its writer is admitted"@,
                        ),
                    ),
                    Some(s) => if !roster.contains(s@) {
                        Some(not_admitted())
                    } else {
                        match f.header_causality {
                            Err(m) => Some(("invalid-personal-graph-causality"@, m@)),
                            Ok(()) => None,
                        }
                    },
                },
                Err(e) => Some(("invalid-personal-graph-record"@, wire_message(e))),
                Ok(record) => match record.causality {
                    Err(m) => Some(("invalid-personal-graph-causality"@, m@)),
                    Ok(()) => {
                        let n = record.events@.len();
                        if n == 0 || n > 256 {
                            Some(
                                (
                                    "personal-graph-event-count"@,
                                    "operation carries "@ + crate::json::decimal(n)
                                        + " events; expected 1..=256"@,
                                ),
                            )
                        } else {
                            match events_check(record.events@, 0, access_history_facet) {
                                Some(r) => Some(r),
                                None => {
                                    let k = fact_key_count(record.events@);
                                    if !(k == 0 || k == n) {
                                        Some(
                                            (
                                                "mixed-key-and-content-operation"@,
                                                "an operation carries either key agreement or graph content, never both"@,
                                            ),
                                        )
                                    } else if f.encryption != PersonalEncryption::Plaintext && k
                                        > 0 {
                                        Some(
                                            (
                                                "sealed-key-agreement"@,
                                                "key agreement must travel in the clear; sealing it would need the key it carries"@,
                                            ),
                                        )
                                    } else {
                                        match header_subject {
                                            Some(s) => if roster.contains(s@) {
                                                None
                                            } else {
                                                Some(not_admitted())
                                            },
                                            None => match record.subject {
                                                Err(r) => Some(reject_view(r)),
                                                Ok(s) => if roster.contains(s@) {
                                                    None
                                                } else {
                                                    Some(not_admitted())
                                                },
                                            },
                                        }
                                    }
                                },
                            }
                        }
                    },
                },
            },
        }
    }
}

fn clone_reject(r: &Reject) -> (c: Reject)
    ensures
        reject_view(c) == reject_view(*r),
{
    Reject { code: r.code.clone(), message: r.message.clone() }
}

fn roster_verdict(roster: &SyncRoster, subject: &[u8; 32]) -> (r: Result<(), Reject>)
    ensures
        match r {
            Ok(()) => roster@.contains(subject@),
            Err(e) => !roster@.contains(subject@) && reject_view(e) == not_admitted(),
        },
{
    if roster.admits(subject) {
        Ok(())
    } else {
        Err(
            reject(
                "personal-graph-writer-not-admitted",
                "stable writer subject is outside this graph roster",
            ),
        )
    }
}

/// Decide whether the lane keeps a received operation.
pub fn admit_operation(
    facts: &OperationFacts,
    roster: &SyncRoster,
    access_history_facet: &str,
) -> (r: Result<(), Reject>)
    ensures
        match r {
            Ok(()) => policy_check(*facts, roster@, access_history_facet@) is None,
            Err(e) => policy_check(*facts, roster@, access_history_facet@) == Some(reject_view(e)),
        },
{
    if !facts.graph_matches {
        return Err(reject("wrong-personal-graph", "operation addresses another personal graph"));
    }
    let header_subject = match &facts.header_subject {
        Err(r) => return Err(clone_reject(r)),
        Ok(s) => s,
    };
    let record = match &facts.body {
        Err(PersonalGraphWireError::NoKey) => {
            let subject = match header_subject {
                None => return Err(
                    reject(
                        "unattributable-sealed-operation",
                        "a sealed operation carries no writer attestation in its header, so this device cannot tell whether its writer is admitted",
                    ),
                ),
                Some(s) => s,
            };
            match roster_verdict(roster, subject) {
                Err(e) => return Err(e),
                Ok(()) => {},
            }
            return match &facts.header_causality {
                Err(m) => Err(
                    Reject { code: "invalid-personal-graph-causality".to_owned(), message: m.clone() },
                ),
                Ok(()) => Ok(()),
            };
        },
        Err(e) => return Err(
            Reject { code: "invalid-personal-graph-record".to_owned(), message: e.message() },
        ),
        Ok(record) => record,
    };
    match &record.causality {
        Err(m) => return Err(
            Reject { code: "invalid-personal-graph-causality".to_owned(), message: m.clone() },
        ),
        Ok(()) => {},
    }
    let n = record.events.len();
    if n == 0 || n > 256 {
        let mut m = "operation carries ".to_owned();
        crate::json::push_decimal(&mut m, n as u64);
        crate::text::push_str(&mut m, " events; expected 1..=256");
        return Err(Reject { code: "personal-graph-event-count".to_owned(), message: m });
    }
    let mut i: usize = 0;
    let mut keys: usize = 0;
    assert(record.events@.subrange(0, 0) =~= Seq::<EventFacts>::empty());
    while i < n
        invariant
            n == record.events@.len(),
            0 < n <= 256,
            facts.graph_matches,
            facts.header_subject == Ok::<Option<[u8; 32]>, Reject>(*header_subject),
            facts.body == Ok::<RecordFacts, PersonalGraphWireError>(*record),
            record.causality is Ok,
            i <= n,
            keys <= i,
            keys == fact_key_count(record.events@.subrange(0, i as int)),
            events_check(record.events@, 0, access_history_facet@) == events_check(
                record.events@,
                i as nat,
                access_history_facet@,
            ),
        decreases n - i,
    {
        let facts_i = &record.events[i];
        match validate_event(&facts_i.event, access_history_facet, &facts_i.payload_error) {
            Err(e) => return Err(e),
            Ok(()) => {},
        }
        if facts_i.event.is_key_agreement() {
            keys = keys + 1;
        }
        proof {
            assert(record.events@.subrange(0, i + 1).drop_last() =~= record.events@.subrange(
                0,
                i as int,
            ));
        }
        i = i + 1;
    }
    assert(record.events@.subrange(0, n as int) =~= record.events@);
    if !(keys == 0 || keys == n) {
        return Err(
            reject(
                "mixed-key-and-content-operation",
                "an operation carries either key agreement or graph content, never both",
            ),
        );
    }
    let sealed = !facts.encryption.is_plaintext();
    if sealed && keys > 0 {
        return Err(
            reject(
                "sealed-key-agreement",
                "key agreement must travel in the clear; sealing it would need the key it carries",
            ),
        );
    }
    match header_subject {
        Some(s) => roster_verdict(roster, s),
        None => match &record.subject {
            Err(r) => Err(clone_reject(r)),
            Ok(s) => roster_verdict(roster, s),
        },
    }
}

} // verus!

verus! {

/// The lane keeps only what an admitted writer wrote: whenever it keeps an
/// operation, the writer its header or record attests is in the roster, and
/// a readable record's events are all of one kind, with no key agreement
/// sealed. Its causality is sound: a readable record's parents passed the
/// causal-metadata check, and a body that stays sealed for want of a key
/// has a header whose causal metadata passed it.
pub proof fn lemma_kept_operations_come_from_the_roster(
    f: OperationFacts,
    roster: Set<Seq<u8>>,
    access_history_facet: Seq<char>,
)
    requires
        policy_check(f, roster, access_history_facet) is None,
    ensures
        f.graph_matches,
        f.header_subject is Ok,
        match f.header_subject->Ok_0 {
            Some(s) => roster.contains(s@),
            None => f.body matches Ok(record) && record.subject matches Ok(s) && roster.contains(
                s@,
            ),
        },
        f.body matches Ok(record) ==> {
            let k = fact_key_count(record.events@);
            &&& 0 < record.events@.len() <= 256
            &&& (k == 0 || k == record.events@.len())
            &&& (f.encryption != PersonalEncryption::Plaintext ==> k == 0)
            &&& record.causality is Ok
        },
        f.body matches Err(e) ==> e == PersonalGraphWireError::NoKey && f.header_causality is Ok
            && f.header_subject->Ok_0 is Some,
{
}

} // verus!

verus! {

/// Each byte of a 32-byte identifier as two lowercase hex digits.
pub fn hex32(bytes: &[u8; 32]) -> (r: String)
    ensures
        r@ == crate::hexcode::hex_bytes(bytes@),
{
    crate::hexcode::hex(bytes)
}

/// The hyphenated lowercase form of a UUID: its 32 hex digits, most
/// significant first, in groups of 8, 4, 4, 4 and 12 joined by hyphens.
pub open spec fn uuid_hyphenated(u: u128) -> Seq<char> {
    let n = u as nat;
    crate::hexcode::hex_fixed(n / 0x1_0000_0000_0000_0000_0000_0000nat, 8) + seq!['-']
        + crate::hexcode::hex_fixed(n / 0x1_0000_0000_0000_0000_0000nat, 4) + seq!['-']
        + crate::hexcode::hex_fixed(n / 0x1_0000_0000_0000_0000nat, 4) + seq!['-']
        + crate::hexcode::hex_fixed(n / 0x1_0000_0000_0000nat, 4) + seq!['-']
        + crate::hexcode::hex_fixed(n, 12)
}

/// The hyphenated form of a UUID is 36 characters, and different UUIDs are
/// written differently.
pub proof fn lemma_uuid_hyphenated_injective(u: u128, v: u128)
    ensures
        uuid_hyphenated(u).len() == 36,
        uuid_hyphenated(u) == uuid_hyphenated(v) ==> u == v,
{
    let n = u as nat;
    let m = v as nat;
    let k4 = 0x1_0000_0000_0000nat;
    let k5 = 0x1_0000_0000_0000_0000nat;
    let k6 = 0x1_0000_0000_0000_0000_0000nat;
    let k7 = 0x1_0000_0000_0000_0000_0000_0000nat;
    crate::hexcode::lemma_hex_fixed_len(n / k7, 8);
    crate::hexcode::lemma_hex_fixed_len(n / k6, 4);
    crate::hexcode::lemma_hex_fixed_len(n / k5, 4);
    crate::hexcode::lemma_hex_fixed_len(n / k4, 4);
    crate::hexcode::lemma_hex_fixed_len(n, 12);
    crate::hexcode::lemma_hex_fixed_len(m / k7, 8);
    crate::hexcode::lemma_hex_fixed_len(m / k6, 4);
    crate::hexcode::lemma_hex_fixed_len(m / k5, 4);
    crate::hexcode::lemma_hex_fixed_len(m / k4, 4);
    crate::hexcode::lemma_hex_fixed_len(m, 12);
    let s = uuid_hyphenated(u);
    let t = uuid_hyphenated(v);
    if s == t {
        assert(s.subrange(0, 8) =~= crate::hexcode::hex_fixed(n / k7, 8));
        assert(t.subrange(0, 8) =~= crate::hexcode::hex_fixed(m / k7, 8));
        assert(s.subrange(9, 13) =~= crate::hexcode::hex_fixed(n / k6, 4));
        assert(t.subrange(9, 13) =~= crate::hexcode::hex_fixed(m / k6, 4));
        assert(s.subrange(14, 18) =~= crate::hexcode::hex_fixed(n / k5, 4));
        assert(t.subrange(14, 18) =~= crate::hexcode::hex_fixed(m / k5, 4));
        assert(s.subrange(19, 23) =~= crate::hexcode::hex_fixed(n / k4, 4));
        assert(t.subrange(19, 23) =~= crate::hexcode::hex_fixed(m / k4, 4));
        assert(s.subrange(24, 36) =~= crate::hexcode::hex_fixed(n, 12));
        assert(t.subrange(24, 36) =~= crate::hexcode::hex_fixed(m, 12));
        crate::hexcode::lemma_hex_fixed_determines(n / k7, m / k7, 8);
        crate::hexcode::lemma_hex_fixed_determines(n / k6, m / k6, 4);
        crate::hexcode::lemma_hex_fixed_determines(n / k5, m / k5, 4);
        crate::hexcode::lemma_hex_fixed_determines(n / k4, m / k4, 4);
        crate::hexcode::lemma_hex_fixed_determines(n, m, 12);
        reveal_with_fuel(crate::hexcode::hex_span, 13);
        assert(crate::hexcode::hex_span(4) == 0x10000);
        assert(crate::hexcode::hex_span(8) == 0x1_0000_0000);
        assert(crate::hexcode::hex_span(12) == 0x1_0000_0000_0000);
        assert(u == v) by (bit_vector)
            requires
                (u / 0x1_0000_0000_0000_0000_0000_0000u128) % 0x1_0000_0000u128 == (v
                    / 0x1_0000_0000_0000_0000_0000_0000u128) % 0x1_0000_0000u128,
                (u / 0x1_0000_0000_0000_0000_0000u128) % 0x10000u128 == (v
                    / 0x1_0000_0000_0000_0000_0000u128) % 0x10000u128,
                (u / 0x1_0000_0000_0000_0000u128) % 0x10000u128 == (v
                    / 0x1_0000_0000_0000_0000u128) % 0x10000u128,
                (u / 0x1_0000_0000_0000u128) % 0x10000u128 == (v / 0x1_0000_0000_0000u128)
                    % 0x10000u128,
                u % 0x1_0000_0000_0000u128 == v % 0x1_0000_0000_0000u128,
        ;
    }
}

/// `Uuid::to_string`: the hyphenated lowercase form, as the `uuid` crate
/// documents its `Display`.
#[verifier::external_body]
pub(crate) fn uuid_text(u: u128) -> (r: String)
    ensures
        r@ == uuid_hyphenated(u),
{
    uuid::Uuid::from_u128(u).to_string()
}

/// The conflict target an event edits: two concurrent events with the same
/// target and different content are a conflict. `payload_digest` is the
/// written digest of a pre-key bundle's or dispatch's bytes.
pub open spec fn target_spec(e: PersonalGraphEvent, payload_digest: Seq<char>) -> Seq<char> {
    match e {
        PersonalGraphEvent::AddNode { id, .. } => "node/"@ + uuid_hyphenated(id),
        PersonalGraphEvent::RemoveNode { id } => "node/"@ + uuid_hyphenated(id),
        PersonalGraphEvent::SetTitle { node, .. } => "node/"@ + uuid_hyphenated(node) + "/title"@,
        PersonalGraphEvent::AddTag { node, tag } => "node/"@ + uuid_hyphenated(node) + "/tag/"@
            + tag@,
        PersonalGraphEvent::RemoveTag { node, tag } => "node/"@ + uuid_hyphenated(node) + "/tag/"@
            + tag@,
        PersonalGraphEvent::AssertRelation { from, to, assertion } => "relation/"@
            + uuid_hyphenated(from) + "/"@ + uuid_hyphenated(to) + "/"@ + assertion@,
        PersonalGraphEvent::RetractRelation { from, to, selector } => "relation/"@
            + uuid_hyphenated(from) + "/"@ + uuid_hyphenated(to) + "/"@ + selector@,
        PersonalGraphEvent::SetFacet { node, facet, .. } => "node/"@ + uuid_hyphenated(node)
            + "/facet/"@ + facet@,
        PersonalGraphEvent::RemoveFacet { node, facet } => "node/"@ + uuid_hyphenated(node)
            + "/facet/"@ + facet@,
        PersonalGraphEvent::AppendAccess { record_id, .. } => "access/"@ + uuid_hyphenated(
            record_id,
        ),
        PersonalGraphEvent::SaveScene { node } => "scene/"@ + uuid_hyphenated(node),
        PersonalGraphEvent::SetHandlerPreference { key, .. } => "handler/"@ + key@,
        PersonalGraphEvent::ObserveBlobAvailability { observation } => "blob-availability/"@
            + uuid_hyphenated(observation.record_id),
        PersonalGraphEvent::PublishPrekey { .. } => "group-prekey/"@ + payload_digest,
        PersonalGraphEvent::GroupDispatch { .. } => "group-dispatch/"@ + payload_digest,
        PersonalGraphEvent::AdmitReader { root, .. } => "reader/"@ + crate::hexcode::hex_bytes(
            root@,
        ),
        PersonalGraphEvent::RetireReader { root } => "reader/"@ + crate::hexcode::hex_bytes(
            root@,
        ),
    }
}

/// The node a node event (added or removed) edits.
pub open spec fn node_edit(e: PersonalGraphEvent) -> Option<u128> {
    match e {
        PersonalGraphEvent::AddNode { id, .. } => Some(id),
        PersonalGraphEvent::RemoveNode { id } => Some(id),
        _ => None,
    }
}

/// The node and tag a tag event (added or removed) edits.
pub open spec fn tag_edit(e: PersonalGraphEvent) -> Option<(u128, Seq<char>)> {
    match e {
        PersonalGraphEvent::AddTag { node, tag } => Some((node, tag@)),
        PersonalGraphEvent::RemoveTag { node, tag } => Some((node, tag@)),
        _ => None,
    }
}

/// The node and facet a facet event (set or removed) edits.
pub open spec fn facet_edit(e: PersonalGraphEvent) -> Option<(u128, Seq<char>)> {
    match e {
        PersonalGraphEvent::SetFacet { node, facet, .. } => Some((node, facet@)),
        PersonalGraphEvent::RemoveFacet { node, facet } => Some((node, facet@)),
        _ => None,
    }
}

/// The ends and the assertion or selector text a relation event edits.
pub open spec fn relation_edit(e: PersonalGraphEvent) -> Option<(u128, u128, Seq<char>)> {
    match e {
        PersonalGraphEvent::AssertRelation { from, to, assertion } => Some((from, to, assertion@)),
        PersonalGraphEvent::RetractRelation { from, to, selector } => Some((from, to, selector@)),
        _ => None,
    }
}

/// Events that edit different things get different conflict targets. Two
/// node events share a target only when they name one node; two tag events
/// only when they name one node and one tag; two facet events only when they
/// name one node and one facet; two relation events only when they name the
/// same ends and the same assertion or selector text.
#[verifier::spinoff_prover]
#[verifier::rlimit(40)]
pub proof fn lemma_targets_tell_edits_apart(
    e1: PersonalGraphEvent,
    e2: PersonalGraphEvent,
    d1: Seq<char>,
    d2: Seq<char>,
)
    requires
        target_spec(e1, d1) == target_spec(e2, d2),
    ensures
        node_edit(e1) is Some && node_edit(e2) is Some ==> node_edit(e1) == node_edit(e2),
        tag_edit(e1) is Some && tag_edit(e2) is Some ==> tag_edit(e1) == tag_edit(e2),
        facet_edit(e1) is Some && facet_edit(e2) is Some ==> facet_edit(e1) == facet_edit(e2),
        relation_edit(e1) is Some && relation_edit(e2) is Some ==> relation_edit(e1)
            == relation_edit(e2),
{
    reveal_strlit("node/");
    reveal_strlit("/tag/");
    reveal_strlit("/facet/");
    reveal_strlit("relation/");
    reveal_strlit("/");
    if node_edit(e1) is Some && node_edit(e2) is Some {
        let a = node_edit(e1)->0;
        let b = node_edit(e2)->0;
        assert(target_spec(e1, d1) =~= "node/"@ + uuid_hyphenated(a) + Seq::empty() + Seq::empty());
        assert(target_spec(e2, d2) =~= "node/"@ + uuid_hyphenated(b) + Seq::empty() + Seq::empty());
        lemma_uuid_framed("node/"@, a, b, Seq::empty(), Seq::empty(), Seq::empty());
    }
    if tag_edit(e1) is Some && tag_edit(e2) is Some {
        let (a, x) = tag_edit(e1)->0;
        let (b, y) = tag_edit(e2)->0;
        lemma_uuid_framed("node/"@, a, b, "/tag/"@, x, y);
    }
    if facet_edit(e1) is Some && facet_edit(e2) is Some {
        let (a, x) = facet_edit(e1)->0;
        let (b, y) = facet_edit(e2)->0;
        lemma_uuid_framed("node/"@, a, b, "/facet/"@, x, y);
    }
    if relation_edit(e1) is Some && relation_edit(e2) is Some {
        let (a, c, x) = relation_edit(e1)->0;
        let (b, e, y) = relation_edit(e2)->0;
        let rest1 = uuid_hyphenated(c) + "/"@ + x;
        let rest2 = uuid_hyphenated(e) + "/"@ + y;
        assert(target_spec(e1, d1) =~= "relation/"@ + uuid_hyphenated(a) + "/"@ + rest1);
        assert(target_spec(e2, d2) =~= "relation/"@ + uuid_hyphenated(b) + "/"@ + rest2);
        lemma_uuid_framed("relation/"@, a, b, "/"@, rest1, rest2);
        assert(rest1 =~= Seq::empty() + uuid_hyphenated(c) + "/"@ + x);
        assert(rest2 =~= Seq::empty() + uuid_hyphenated(e) + "/"@ + y);
        lemma_uuid_framed(Seq::empty(), c, e, "/"@, x, y);
    }
}

/// The node a title event edits.
pub open spec fn title_edit(e: PersonalGraphEvent) -> Option<u128> {
    match e {
        PersonalGraphEvent::SetTitle { node, .. } => Some(node),
        _ => None,
    }
}

/// The key a handler preference edits.
pub open spec fn handler_edit(e: PersonalGraphEvent) -> Option<Seq<char>> {
    match e {
        PersonalGraphEvent::SetHandlerPreference { key, .. } => Some(key@),
        _ => None,
    }
}

/// Edits of different kinds on nodes never share a conflict target: a node,
/// its title, one of its tags and one of its facets are four different
/// things, whichever nodes the events name. Two title events share a target
/// only when they name one node, and two handler preferences only when they
/// name one key.
#[verifier::spinoff_prover]
#[verifier::rlimit(40)]
pub proof fn lemma_target_kinds_apart(
    e1: PersonalGraphEvent,
    e2: PersonalGraphEvent,
    d1: Seq<char>,
    d2: Seq<char>,
)
    requires
        target_spec(e1, d1) == target_spec(e2, d2),
    ensures
        title_edit(e1) is Some && title_edit(e2) is Some ==> title_edit(e1) == title_edit(e2),
        handler_edit(e1) is Some && handler_edit(e2) is Some ==> handler_edit(e1) == handler_edit(
            e2,
        ),
        tag_edit(e1) is Some ==> node_edit(e2) is None && title_edit(e2) is None && facet_edit(
            e2,
        ) is None,
        facet_edit(e1) is Some ==> node_edit(e2) is None && title_edit(e2) is None,
        title_edit(e1) is Some ==> node_edit(e2) is None,
{
    reveal_strlit("node/");
    reveal_strlit("/tag/");
    reveal_strlit("/facet/");
    reveal_strlit("/title");
    reveal_strlit("handler/");
    let t = target_spec(e1, d1);
    if title_edit(e1) is Some && title_edit(e2) is Some {
        lemma_uuid_framed(
            "node/"@,
            title_edit(e1)->0,
            title_edit(e2)->0,
            "/title"@,
            Seq::empty(),
            Seq::empty(),
        );
    }
    if handler_edit(e1) is Some && handler_edit(e2) is Some {
        assert(t.skip(8) =~= handler_edit(e1)->0);
        assert(t.skip(8) =~= handler_edit(e2)->0);
    }
    if tag_edit(e1) is Some {
        let (a, x) = tag_edit(e1)->0;
        lemma_uuid_hyphenated_injective(a, a);
        assert(t.len() == 46 + x.len());
        assert(t[42] == 't' && t[43] == 'a');
        if node_edit(e2) is Some {
            lemma_uuid_hyphenated_injective(node_edit(e2)->0, a);
        }
        if title_edit(e2) is Some {
            lemma_uuid_hyphenated_injective(title_edit(e2)->0, a);
            assert(target_spec(e2, d2)[43] == 'i');
        }
        if facet_edit(e2) is Some {
            lemma_uuid_hyphenated_injective((facet_edit(e2)->0).0, a);
            assert(target_spec(e2, d2)[42] == 'f');
        }
    }
    if facet_edit(e1) is Some {
        let (a, x) = facet_edit(e1)->0;
        lemma_uuid_hyphenated_injective(a, a);
        assert(t.len() == 48 + x.len());
        assert(t[42] == 'f');
        if node_edit(e2) is Some {
            lemma_uuid_hyphenated_injective(node_edit(e2)->0, a);
        }
        if title_edit(e2) is Some {
            lemma_uuid_hyphenated_injective(title_edit(e2)->0, a);
            assert(target_spec(e2, d2)[42] == 't');
        }
    }
    if title_edit(e1) is Some && node_edit(e2) is Some {
        lemma_uuid_hyphenated_injective(title_edit(e1)->0, node_edit(e2)->0);
        lemma_uuid_hyphenated_injective(node_edit(e2)->0, title_edit(e1)->0);
        assert(t.len() == 47);
    }
}

/// Text framed as `prefix`, a UUID, `mid` and a tail tells both the UUID and
/// the tail apart.
proof fn lemma_uuid_framed(
    prefix: Seq<char>,
    a: u128,
    b: u128,
    mid: Seq<char>,
    x: Seq<char>,
    y: Seq<char>,
)
    requires
        prefix + uuid_hyphenated(a) + mid + x == prefix + uuid_hyphenated(b) + mid + y,
    ensures
        a == b,
        x == y,
{
    lemma_uuid_hyphenated_injective(a, b);
    lemma_uuid_hyphenated_injective(b, a);
    let s = prefix + uuid_hyphenated(a) + mid + x;
    let k = prefix.len() as int;
    assert(s.subrange(k, k + 36) =~= uuid_hyphenated(a));
    assert((prefix + uuid_hyphenated(b) + mid + y).subrange(k, k + 36) =~= uuid_hyphenated(b));
    assert(s.skip(k + 36 + mid.len()) =~= x);
    assert((prefix + uuid_hyphenated(b) + mid + y).skip(k + 36 + mid.len()) =~= y);
}

fn prefixed(prefix: &str, rest: &str) -> (r: String)
    ensures
        r@ == prefix@ + rest@,
{
    let mut out = prefix.to_owned();
    crate::text::push_str(&mut out, rest);
    out
}

/// The conflict target an event edits.
pub fn event_target(event: &PersonalGraphEvent, payload_digest: &str) -> (r: String)
    ensures
        r@ == target_spec(*event, payload_digest@),
{
    match event {
        PersonalGraphEvent::AddNode { id, .. } | PersonalGraphEvent::RemoveNode { id } => {
            prefixed("node/", uuid_text(*id).as_str())
        },
        PersonalGraphEvent::SetTitle { node, .. } => {
            let mut out = prefixed("node/", uuid_text(*node).as_str());
            crate::text::push_str(&mut out, "/title");
            out
        },
        PersonalGraphEvent::AddTag { node, tag } | PersonalGraphEvent::RemoveTag { node, tag } => {
            let mut out = prefixed("node/", uuid_text(*node).as_str());
            crate::text::push_str(&mut out, "/tag/");
            crate::text::push_str(&mut out, tag.as_str());
            out
        },
        PersonalGraphEvent::AssertRelation { from, to, assertion } => {
            let mut out = prefixed("relation/", uuid_text(*from).as_str());
            crate::text::push_str(&mut out, "/");
            crate::text::push_str(&mut out, uuid_text(*to).as_str());
            crate::text::push_str(&mut out, "/");
            crate::text::push_str(&mut out, assertion.as_str());
            out
        },
        PersonalGraphEvent::RetractRelation { from, to, selector } => {
            let mut out = prefixed("relation/", uuid_text(*from).as_str());
            crate::text::push_str(&mut out, "/");
            crate::text::push_str(&mut out, uuid_text(*to).as_str());
            crate::text::push_str(&mut out, "/");
            crate::text::push_str(&mut out, selector.as_str());
            out
        },
        PersonalGraphEvent::SetFacet { node, facet, .. } | PersonalGraphEvent::RemoveFacet {
            node,
            facet,
        } => {
            let mut out = prefixed("node/", uuid_text(*node).as_str());
            crate::text::push_str(&mut out, "/facet/");
            crate::text::push_str(&mut out, facet.as_str());
            out
        },
        PersonalGraphEvent::AppendAccess { record_id, .. } => {
            prefixed("access/", uuid_text(*record_id).as_str())
        },
        PersonalGraphEvent::SaveScene { node } => prefixed("scene/", uuid_text(*node).as_str()),
        PersonalGraphEvent::SetHandlerPreference { key, .. } => prefixed("handler/", key.as_str()),
        PersonalGraphEvent::ObserveBlobAvailability { observation } => {
            prefixed("blob-availability/", uuid_text(observation.record_id).as_str())
        },
        PersonalGraphEvent::PublishPrekey { .. } => prefixed("group-prekey/", payload_digest),
        PersonalGraphEvent::GroupDispatch { .. } => prefixed("group-dispatch/", payload_digest),
        PersonalGraphEvent::AdmitReader { root, .. } | PersonalGraphEvent::RetireReader { root } => {
            prefixed("reader/", hex32(root).as_str())
        },
    }
}

} // verus!

verus! {

/// How an operation carrying `events` is protected when written: sealed
/// with the graph's keyring when this device holds one, except that key
/// agreement always travels in the clear, since a device with no key reads
/// it to get one.
pub open spec fn written_protection(keyed: bool, events: Seq<PersonalGraphEvent>) -> PersonalEncryption {
    if keyed && key_count(events) == 0 {
        PersonalEncryption::GroupV1
    } else {
        PersonalEncryption::Plaintext
    }
}

/// The protection to write an operation carrying `events` under; `keyed`
/// when this device holds the graph's keyring.
pub fn write_protection(keyed: bool, events: &Vec<PersonalGraphEvent>) -> (r: PersonalEncryption)
    ensures
        r == written_protection(keyed, events@),
{
    let mut carries_keys = false;
    let mut i: usize = 0;
    assert(events@.subrange(0, 0) =~= Seq::<PersonalGraphEvent>::empty());
    while i < events.len()
        invariant
            i <= events@.len(),
            carries_keys == (key_count(events@.subrange(0, i as int)) > 0),
        decreases events@.len() - i,
    {
        if events[i].is_key_agreement() {
            carries_keys = true;
        }
        proof {
            assert(events@.subrange(0, i + 1).drop_last() =~= events@.subrange(0, i as int));
        }
        i = i + 1;
    }
    assert(events@.subrange(0, events@.len() as int) =~= events@);
    if keyed && !carries_keys {
        PersonalEncryption::GroupV1
    } else {
        PersonalEncryption::Plaintext
    }
}

proof fn lemma_fact_key_count(facts: Seq<EventFacts>, events: Seq<PersonalGraphEvent>)
    requires
        facts.len() == events.len(),
        forall|i: int| 0 <= i < facts.len() ==> (#[trigger] facts[i]).event == events[i],
    ensures
        fact_key_count(facts) == key_count(events),
    decreases facts.len(),
{
    if facts.len() > 0 {
        lemma_fact_key_count(facts.drop_last(), events.drop_last());
    }
}

/// What this device writes, the lane never refuses as sealed key agreement:
/// the protection an operation is written under and the events it carries
/// never meet the admission rule that key agreement must not be sealed.
pub proof fn lemma_written_key_agreement_is_never_sealed(
    keyed: bool,
    events: Seq<PersonalGraphEvent>,
    facts: Seq<EventFacts>,
)
    requires
        facts.len() == events.len(),
        forall|i: int| 0 <= i < facts.len() ==> (#[trigger] facts[i]).event == events[i],
    ensures
        !(written_protection(keyed, events) != PersonalEncryption::Plaintext && fact_key_count(facts)
            > 0),
{
    lemma_fact_key_count(facts, events);
}

/// Whether a device reads a body protected by `encryption`: a plaintext
/// body always, a sealed one only with the graph's keyring.
pub open spec fn readable(encryption: PersonalEncryption, keyed: bool) -> bool {
    encryption == PersonalEncryption::Plaintext || keyed
}

/// Whether this device, `keyed` when it holds the graph's keyring, can read
/// a body protected by `encryption`: the header names the protection, so
/// this never guesses from the bytes, and a sealed body without the key is
/// "cannot read", not "corrupt".
pub fn require_readable(encryption: PersonalEncryption, keyed: bool) -> (r: Result<(), PersonalGraphWireError>)
    ensures
        r is Ok <==> readable(encryption, keyed),
        r matches Err(e) ==> e == PersonalGraphWireError::NoKey,
{
    match encryption {
        PersonalEncryption::Plaintext => Ok(()),
        PersonalEncryption::GroupV1 => if keyed {
            Ok(())
        } else {
            Err(PersonalGraphWireError::NoKey)
        },
    }
}

/// Key agreement stays readable when everything else is sealed: an
/// operation carrying key agreement, written by any device, is readable by
/// a device holding no key, while content a keyed device writes is not.
pub proof fn lemma_key_agreement_stays_readable(
    writer_keyed: bool,
    reader_keyed: bool,
    events: Seq<PersonalGraphEvent>,
)
    ensures
        key_count(events) > 0 ==> readable(written_protection(writer_keyed, events), reader_keyed),
        writer_keyed && key_count(events) == 0 ==> (readable(
            written_protection(writer_keyed, events),
            reader_keyed,
        ) <==> reader_keyed),
{
}

/// Why a device refuses to write an operation of its own.
#[derive(Debug, PartialEq, Eq)]
pub enum AuthorRefusal {
    /// An operation carries 1 to 256 events.
    EventCount,
    /// An event the lane's rules exclude, with the rule's refusal.
    Excluded(Reject),
    /// An event outside this device's selection, by the target it edits.
    NotSelected(String),
}

pub enum AuthorRefusalView {
    EventCount,
    Excluded((Seq<char>, Seq<char>)),
    NotSelected(Seq<char>),
}

pub open spec fn author_refusal_view(r: AuthorRefusal) -> AuthorRefusalView {
    match r {
        AuthorRefusal::EventCount => AuthorRefusalView::EventCount,
        AuthorRefusal::Excluded(e) => AuthorRefusalView::Excluded(reject_view(e)),
        AuthorRefusal::NotSelected(t) => AuthorRefusalView::NotSelected(t@),
    }
}

/// The first refusal among events `i..`, each checked against the lane's
/// rules and then against the selection.
pub open spec fn first_author_refusal(
    events: Seq<EventFacts>,
    sel: SelectionView,
    access_history_facet: Seq<char>,
    digests: Seq<String>,
    i: nat,
) -> Option<AuthorRefusalView>
    decreases events.len() - i,
{
    if i >= events.len() {
        None
    } else {
        let f = events[i as int];
        match event_check(f.event, access_history_facet, event_facts_view(f).1) {
            Some(r) => Some(AuthorRefusalView::Excluded(r)),
            None => if !projects_spec(sel, f.event) {
                Some(AuthorRefusalView::NotSelected(target_spec(f.event, digests[i as int]@)))
            } else {
                first_author_refusal(events, sel, access_history_facet, digests, i + 1)
            },
        }
    }
}

/// Why a device refuses to write `events`, if it does: a count outside
/// 1..=256, else the first event the lane's rules exclude or the device's
/// selection does not project, in event order.
pub open spec fn author_check(
    events: Seq<EventFacts>,
    sel: SelectionView,
    access_history_facet: Seq<char>,
    digests: Seq<String>,
) -> Option<AuthorRefusalView> {
    if events.len() == 0 || events.len() > MAX_EVENTS_PER_OPERATION {
        Some(AuthorRefusalView::EventCount)
    } else {
        first_author_refusal(events, sel, access_history_facet, digests, 0)
    }
}

/// The checks a device makes before it writes an operation of its own:
/// between 1 and 256 events, each one valid under the lane's rules and
/// within this device's selection. `digests[i]` is the written digest of
/// event `i`'s pre-key or dispatch bytes, which names its target.
pub fn check_authored(
    events: &Vec<EventFacts>,
    selection: &SyncSelection,
    access_history_facet: &str,
    digests: &Vec<String>,
) -> (r: Result<(), AuthorRefusal>)
    requires
        selection.wf(),
        digests@.len() == events@.len(),
    ensures
        match r {
            Ok(()) => author_check(events@, selection@, access_history_facet@, digests@) is None,
            Err(e) => author_check(events@, selection@, access_history_facet@, digests@) == Some(
                author_refusal_view(e),
            ),
        },
{
    if events.len() == 0 || events.len() > MAX_EVENTS_PER_OPERATION {
        return Err(AuthorRefusal::EventCount);
    }
    let mut i: usize = 0;
    while i < events.len()
        invariant
            i <= events@.len(),
            0 < events@.len() <= MAX_EVENTS_PER_OPERATION,
            digests@.len() == events@.len(),
            selection.wf(),
            first_author_refusal(events@, selection@, access_history_facet@, digests@, 0)
                == first_author_refusal(events@, selection@, access_history_facet@, digests@, i as nat),
        decreases events@.len() - i,
    {
        match validate_event(&events[i].event, access_history_facet, &events[i].payload_error) {
            Err(e) => {
                return Err(AuthorRefusal::Excluded(e));
            },
            Ok(()) => {},
        }
        if !selection.projects(&events[i].event) {
            let target = event_target(&events[i].event, digests[i].as_str());
            return Err(AuthorRefusal::NotSelected(target));
        }
        i = i + 1;
    }
    Ok(())
}

/// Whether key-agreement step `a` sorts before step `b`: by its
/// operation's sequence number, then by the operation's hash.
pub open spec fn step_key_lt(a: (u32, [u8; 32]), b: (u32, [u8; 32])) -> bool {
    a.0 < b.0 || (a.0 == b.0 && crate::sorted::bytes_lt(a.1@, b.1@))
}

/// `order` lists every position of `keys` once, ascending by sequence
/// number and then operation hash, equal keys in list order.
pub open spec fn by_step_key(keys: Seq<(u32, [u8; 32])>, order: Seq<int>) -> bool {
    &&& order.len() == keys.len()
    &&& forall|k: int| 0 <= k < order.len() ==> 0 <= #[trigger] order[k] < keys.len()
    &&& forall|k: int, l: int|
        0 <= k < l < order.len() ==> step_key_lt(keys[#[trigger] order[k]], keys[#[trigger] order[l]]) || (
        keys[order[k]] == keys[order[l]] && order[k] < order[l])
}

/// The order key-agreement steps are handed to the group scheme in: causal
/// order needs every operation, which the key pass does not read, so steps
/// go by their operation's sequence number with its hash as the
/// tie-break, a deterministic order every device agrees on. `keys[i]` is
/// step `i`'s (sequence number, operation hash); the result lists the
/// steps' positions in that order.
pub fn key_step_order(keys: &Vec<(u32, [u8; 32])>) -> (r: Vec<usize>)
    ensures
        by_step_key(keys@, r@.map_values(|k: usize| k as int)),
{
    let mut order: Vec<usize> = Vec::new();
    let mut i: usize = 0;
    while i < keys.len()
        invariant
            i <= keys@.len(),
            order@.len() == i,
            forall|k: int| 0 <= k < order@.len() ==> #[trigger] order@[k] < i,
            forall|k: int, l: int|
                0 <= k < l < order@.len() ==> step_key_lt(keys@[#[trigger] order@[k] as int], keys@[#[trigger] order@[l] as int])
                    || (keys@[order@[k] as int] == keys@[order@[l] as int] && order@[k] < order@[l]),
        decreases keys@.len() - i,
    {
        let key = keys[i];
        let mut p: usize = 0;
        while p < order.len() && !key_after(&keys[order[p]], &key)
            invariant
                p <= order@.len(),
                forall|k: int| 0 <= k < order@.len() ==> #[trigger] order@[k] < i,
                i < keys@.len(),
                key == keys@[i as int],
                forall|k: int| 0 <= k < p ==> !step_key_lt(key, #[trigger] keys@[order@[k] as int]),
            decreases order@.len() - p,
        {
            p = p + 1;
        }
        let ghost before = order@;
        order.insert(p, i);
        proof {
            assert(order@ =~= before.insert(p as int, i));
            assert forall|k: int, l: int|
                0 <= k < l < order@.len() implies step_key_lt(keys@[#[trigger] order@[k] as int], keys@[#[trigger] order@[l] as int])
                    || (keys@[order@[k] as int] == keys@[order@[l] as int] && order@[k] < order@[l]) by {
                let a = keys@[order@[k] as int];
                let b = keys@[order@[l] as int];
                if l < p {
                    assert(order@[k] == before[k] && order@[l] == before[l]);
                } else if l == p {
                    assert(order@[k] == before[k]);
                    lemma_step_key_total(a, key);
                } else if k < p {
                    assert(order@[k] == before[k] && order@[l] == before[l - 1]);
                } else if k == p {
                    assert(order@[l] == before[l - 1]);
                    assert(step_key_lt(key, keys@[before[p as int] as int]));
                    if l - 1 > p {
                        lemma_step_key_trans(key, keys@[before[p as int] as int], b);
                    }
                } else {
                    assert(order@[k] == before[k - 1] && order@[l] == before[l - 1]);
                }
            }
        }
        i = i + 1;
    }
    let ghost o = order@.map_values(|k: usize| k as int);
    assert forall|k: int, l: int| 0 <= k < l < o.len() implies step_key_lt(keys@[#[trigger] o[k]], keys@[#[trigger] o[l]]) || (
        keys@[o[k]] == keys@[o[l]] && o[k] < o[l]) by {
        assert(o[k] == order@[k] as int && o[l] == order@[l] as int);
    }
    assert forall|k: int| 0 <= k < o.len() implies 0 <= #[trigger] o[k] < keys@.len() by {
        assert(o[k] == order@[k] as int);
    }
    order
}

/// Whether `a` sorts strictly after `b`.
fn key_after(a: &(u32, [u8; 32]), b: &(u32, [u8; 32])) -> (r: bool)
    ensures
        r == step_key_lt(*b, *a),
{
    if a.0 != b.0 {
        a.0 > b.0
    } else {
        crate::sorted::compare_ids(&b.1, &a.1) < 0
    }
}

proof fn lemma_step_key_total(a: (u32, [u8; 32]), b: (u32, [u8; 32]))
    ensures
        !step_key_lt(b, a) ==> step_key_lt(a, b) || a == b,
        step_key_lt(a, b) ==> !step_key_lt(b, a),
{
    crate::sorted::lemma_bytes_lt_trichotomy(a.1@, b.1@);
    if a.0 == b.0 && a.1@ == b.1@ {
        assert(a.1 =~= b.1);
    }
}

proof fn lemma_step_key_trans(a: (u32, [u8; 32]), b: (u32, [u8; 32]), c: (u32, [u8; 32]))
    requires
        step_key_lt(a, b),
        step_key_lt(b, c) || b == c,
    ensures
        step_key_lt(a, c),
{
    if a.0 == b.0 && b.0 == c.0 && b != c {
        crate::sorted::lemma_bytes_lt_transitive(a.1@, b.1@, c.1@);
    }
}

/// What the access history reads of one access record: its id, the node
/// it belongs to, when and on which device it was recorded.
#[derive(Clone, Debug, PartialEq, Eq)]
pub struct AccessKey {
    pub record_id: u128,
    pub container_id: u128,
    pub at_ms: u64,
    pub device: String,
}

/// Access records sort by time, then device, then record id.
pub open spec fn access_lt(a: AccessKey, b: AccessKey) -> bool {
    a.at_ms < b.at_ms || (a.at_ms == b.at_ms && (crate::text::seq_lt(a.device@, b.device@) || (a.device@
        == b.device@ && a.record_id < b.record_id)))
}

/// Record `i` is the first to carry its record id.
pub open spec fn first_of_id(records: Seq<AccessKey>, i: int) -> bool {
    forall|j: int| 0 <= j < i ==> #[trigger] records[j].record_id != records[i].record_id
}

proof fn lemma_access_lt_facts(a: AccessKey, b: AccessKey, c: AccessKey)
    ensures
        !access_lt(a, a),
        access_lt(a, b) ==> !access_lt(b, a),
        a.record_id != b.record_id ==> access_lt(a, b) || access_lt(b, a),
        access_lt(a, b) && access_lt(b, c) ==> access_lt(a, c),
{
    crate::text::lemma_seq_lt_trichotomy(a.device@, a.device@);
    crate::text::lemma_seq_lt_trichotomy(a.device@, b.device@);
    if access_lt(a, b) && access_lt(b, c) && a.at_ms == b.at_ms && b.at_ms == c.at_ms {
        if crate::text::seq_lt(a.device@, b.device@) && crate::text::seq_lt(b.device@, c.device@) {
            crate::text::lemma_seq_lt_transitive(a.device@, b.device@, c.device@);
        }
    }
}

/// The access history a device projects, as positions in the records read
/// in causal order: the first record under each record id stands and a
/// replay of it changes nothing, and the kept records go by time, then
/// device, then record id.
pub fn access_history_order(records: &Vec<AccessKey>) -> (r: Vec<usize>)
    ensures
        forall|k: int| 0 <= k < r@.len() ==> #[trigger] r@[k] < records@.len() && first_of_id(records@, r@[k] as int),
        forall|i: int| 0 <= i < records@.len() && first_of_id(records@, i) ==> r@.contains(i as usize),
        forall|k: int, l: int|
            0 <= k < l < r@.len() ==> access_lt(records@[#[trigger] r@[k] as int], records@[#[trigger] r@[l] as int]),
{
    let mut order: Vec<usize> = Vec::new();
    let mut i: usize = 0;
    while i < records.len()
        invariant
            i <= records@.len(),
            forall|k: int| 0 <= k < order@.len() ==> #[trigger] order@[k] < i && first_of_id(records@, order@[k] as int),
            forall|q: int| 0 <= q < i && first_of_id(records@, q) ==> order@.contains(q as usize),
            forall|k: int, l: int|
                0 <= k < l < order@.len() ==> access_lt(records@[#[trigger] order@[k] as int], records@[#[trigger] order@[l] as int]),
        decreases records@.len() - i,
    {
        let mut seen = false;
        let mut j: usize = 0;
        while j < i
            invariant
                j <= i,
                i < records@.len(),
                !seen ==> forall|q: int| 0 <= q < j ==> #[trigger] records@[q].record_id != records@[i as int].record_id,
                seen ==> !first_of_id(records@, i as int),
            decreases i - j,
        {
            if !seen && records[j].record_id == records[i].record_id {
                seen = true;
            }
            j = j + 1;
        }
        if !seen {
            let mut p: usize = 0;
            while p < order.len() && access_before(&records[order[p]], &records[i])
                invariant
                    p <= order@.len(),
                    i < records@.len(),
                    forall|k: int| 0 <= k < order@.len() ==> #[trigger] order@[k] < i,
                    forall|k: int| 0 <= k < p ==> access_lt(#[trigger] records@[order@[k] as int], records@[i as int]),
                decreases order@.len() - p,
            {
                p = p + 1;
            }
            let ghost before = order@;
            order.insert(p, i);
            proof {
                let x = records@[i as int];
                assert(order@ =~= before.insert(p as int, i));
                if p < before.len() {
                    let y = records@[before[p as int] as int];
                    assert(first_of_id(records@, i as int));
                    assert(y.record_id != x.record_id) by {
                        assert(before[p as int] < i);
                    }
                    lemma_access_lt_facts(y, x, x);
                    assert(access_lt(x, y));
                }
                assert forall|k: int, l: int|
                    0 <= k < l < order@.len() implies access_lt(records@[#[trigger] order@[k] as int], records@[#[trigger] order@[l] as int]) by {
                    if l < p {
                        assert(order@[k] == before[k] && order@[l] == before[l]);
                    } else if l == p {
                        assert(order@[k] == before[k]);
                    } else if k < p {
                        assert(order@[k] == before[k] && order@[l] == before[l - 1]);
                    } else if k == p {
                        assert(order@[l] == before[l - 1]);
                        let y = records@[before[p as int] as int];
                        if l - 1 > p {
                            lemma_access_lt_facts(x, y, records@[before[l - 1] as int]);
                        }
                    } else {
                        assert(order@[k] == before[k - 1] && order@[l] == before[l - 1]);
                    }
                }
                assert forall|q: int| 0 <= q < i + 1 && first_of_id(records@, q) implies order@.contains(q as usize) by {
                    if q < i {
                        let w = choose|w: int| 0 <= w < before.len() && before[w] == q as usize;
                        if w < p {
                            assert(order@[w] == q as usize);
                        } else {
                            assert(order@[w + 1] == q as usize);
                        }
                    } else {
                        assert(order@[p as int] == q as usize);
                    }
                }
                assert forall|k: int| 0 <= k < order@.len() implies #[trigger] order@[k] < i + 1 && first_of_id(records@, order@[k] as int) by {
                    if k < p {
                        assert(order@[k] == before[k]);
                    } else if k > p {
                        assert(order@[k] == before[k - 1]);
                    }
                }
            }
        }
        i = i + 1;
    }
    order
}

/// Whether `a` sorts strictly before `b`.
fn access_before(a: &AccessKey, b: &AccessKey) -> (r: bool)
    ensures
        r == access_lt(*a, *b),
{
    if a.at_ms != b.at_ms {
        return a.at_ms < b.at_ms;
    }
    let c = crate::text::compare_chars(&crate::text::chars_of(a.device.as_str()), &crate::text::chars_of(b.device.as_str()));
    if c != 0 {
        c < 0
    } else {
        a.record_id < b.record_id
    }
}

/// Every event the lane accepts names what it edits: an accepted node has
/// an address, an accepted tag event a tag, a handler preference both a
/// key and a handler, and an availability observation its device, none of
/// them blank once trimmed.
pub proof fn lemma_accepted_events_name_what_they_edit(
    e: PersonalGraphEvent,
    access_history_facet: Seq<char>,
    payload_error: Option<Seq<char>>,
)
    requires
        event_check(e, access_history_facet, payload_error) is None,
    ensures
        e matches PersonalGraphEvent::AddNode { address, .. } ==> trim(address@).len() > 0,
        e matches PersonalGraphEvent::AddTag { tag, .. } ==> trim(tag@).len() > 0,
        e matches PersonalGraphEvent::RemoveTag { tag, .. } ==> trim(tag@).len() > 0,
        e matches PersonalGraphEvent::SetHandlerPreference { key, handler } ==> trim(key@).len() > 0
            && trim(handler@).len() > 0,
        e matches PersonalGraphEvent::ObserveBlobAvailability { observation } ==> trim(
            observation.device@,
        ).len() > 0,
        e matches PersonalGraphEvent::AppendAccess { stays_local, .. } ==> !stays_local,
        (e is PublishPrekey || e is GroupDispatch) ==> payload_error is None,
{
}

} // verus!
