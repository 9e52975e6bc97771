//! Small, host-neutral state for a disclosed practice workspace.
//!
//! A product supplies the current source identity, occurrence identifiers,
//! and a comparison disclosure. This module records navigation and validates
//! snapshots, but never calculates, reinterprets or edits product material:
//! the comparison's `result` is kept as the product's JSON disclosure.

use vstd::prelude::*;

use crate::hexcode::{hex_fixed, push_hex_fixed};
use crate::json::{
    build_object, canonical, entry_views, insert_entry, json_view, lemma_entry_views_build, pair_views,
    write_canonical_json, JsonNumber, JsonValue,
    JsonView, NumberView,
};
use crate::text::{is_blank, str_eq, trim};

verus! {

/// The serialized workspace schema supported by this reducer.
pub const PRACTICE_WORKSPACE_VERSION: u16 = 1;

/// A product authority and resource binding, without an authority handle.
#[derive(Debug, PartialEq, Eq, PartialOrd, Ord)]
pub struct PracticeSourceBinding {
    pub authority: String,
    pub domain: String,
    pub resource: String,
}

/// The current product disclosure against which workspace state is checked.
#[derive(Debug, PartialEq, Eq)]
pub struct PracticeSource {
    pub binding: PracticeSourceBinding,
    pub revision: String,
    /// The occurrences the product disclosed; order and repeats do not matter.
    pub occurrence_ids: Vec<String>,
}

/// The source identity retained by a saved workspace.
#[derive(Debug, PartialEq, Eq)]
pub struct PracticeSourceFingerprint {
    pub binding: PracticeSourceBinding,
    pub revision: String,
}

/// The product source identity of an occurrence in a comparison disclosure.
#[derive(Debug, PartialEq, Eq)]
pub struct ComparisonSourceRef {
    pub adapter: String,
    pub id: String,
}

/// One side of a product-provided comparison.
#[derive(Debug, PartialEq)]
pub struct ComparisonSubject {
    pub occurrence_id: String,
    pub source: ComparisonSourceRef,
    pub label: String,
    /// Product fields such as Woodshed's `pitch_set`, retained verbatim; a
    /// later entry for the same name replaces an earlier one.
    pub disclosed: Vec<(String, JsonValue)>,
}

/// The product's declared comparison method.
#[derive(Debug, PartialEq, Eq)]
pub struct ComparisonMethod {
    pub id: String,
    pub version: u32,
}

/// An externally computed comparison record.
///
/// `result` retains product-specific evidence exactly as disclosed. The
/// reducer uses only the source, revision, method and occurrence pair to
/// establish the stable relation identity.
#[derive(Debug, PartialEq)]
pub struct ComparisonRecord {
    pub source: PracticeSourceBinding,
    pub revision: String,
    pub method: ComparisonMethod,
    pub left: ComparisonSubject,
    pub right: ComparisonSubject,
    pub result: JsonValue,
    /// Additional product disclosure, retained rather than discarded.
    pub disclosed: Vec<(String, JsonValue)>,
}

/// A stable relation derived from one disclosed comparison record.
#[derive(Debug, PartialEq, Eq)]
pub struct ComparisonRelation {
    pub id: String,
    pub source: PracticeSourceFingerprint,
    pub method: ComparisonMethod,
    pub left_occurrence: String,
    pub right_occurrence: String,
}

/// A view the host may realize.
#[derive(Clone, Copy, Debug, PartialEq, Eq, Structural)]
pub enum PracticeView {
    Relations,
    Compare,
    History,
}

/// A stable selection target. `Comparison` is the disclosed pair itself.
#[derive(Debug, PartialEq, Eq)]
pub enum Selection {
    Occurrence(String),
    Comparison,
}

/// The restorable navigation position.
#[derive(Debug, PartialEq, Eq)]
pub struct PracticeLocation {
    pub view: PracticeView,
    pub selection: Selection,
}

/// An immutable, monotonically identified entry in chronological history.
#[derive(Debug, PartialEq, Eq)]
pub struct HistoryEntry {
    pub id: u64,
    pub location: PracticeLocation,
}

/// Host-owned runtime options retained with a snapshot.
#[derive(Debug, PartialEq, Eq)]
pub struct PracticeRuntimeConfig {
    pub layout_id: String,
    pub physics_enabled: bool,
}

/// What a selection stands for.
pub enum SelectionView {
    Occurrence(Seq<char>),
    Comparison,
}

/// What a location stands for.
pub struct LocationView {
    pub view: PracticeView,
    pub selection: SelectionView,
}

pub open spec fn selection_view(s: Selection) -> SelectionView {
    match s {
        Selection::Occurrence(id) => SelectionView::Occurrence(id@),
        Selection::Comparison => SelectionView::Comparison,
    }
}

pub open spec fn location_view(l: PracticeLocation) -> LocationView {
    LocationView { view: l.view, selection: selection_view(l.selection) }
}

pub open spec fn history_view(h: Seq<HistoryEntry>) -> Seq<(u64, LocationView)> {
    h.map_values(|e: HistoryEntry| (e.id, location_view(e.location)))
}

pub open spec fn runtime_view(r: PracticeRuntimeConfig) -> (Seq<char>, bool) {
    (r.layout_id@, r.physics_enabled)
}

pub open spec fn binding_view(b: PracticeSourceBinding) -> (Seq<char>, Seq<char>, Seq<char>) {
    (b.authority@, b.domain@, b.resource@)
}

/// The occurrences a source discloses.
pub open spec fn occurrence_set(s: PracticeSource) -> Set<Seq<char>> {
    s.occurrence_ids@.map_values(|o: String| o@).to_set()
}

impl Default for PracticeView {
    /// A workspace opens on its relations.
    fn default() -> (r: Self)
        ensures
            r == PracticeView::Relations,
    {
        PracticeView::Relations
    }
}

/// Whether `id` may be selected against `source`.
pub open spec fn selectable(sel: SelectionView, source: PracticeSource) -> bool {
    match sel {
        SelectionView::Occurrence(id) => occurrence_set(source).contains(id),
        SelectionView::Comparison => true,
    }
}

} // verus!

verus! {

/// The character views of a list of strings.
pub open spec fn string_list_view(v: Seq<String>) -> Seq<Seq<char>> {
    v.map_values(|s: String| s@)
}

fn clone_strings(v: &Vec<String>) -> (r: Vec<String>)
    ensures
        string_list_view(r@) == string_list_view(v@),
{
    let mut out: Vec<String> = Vec::new();
    let mut i: usize = 0;
    while i < v.len()
        invariant
            i <= v@.len(),
            out@.len() == i,
            forall|q: int| 0 <= q < i ==> (#[trigger] out@[q])@ == v@[q]@,
        decreases v@.len() - i,
    {
        out.push(v[i].clone());
        i = i + 1;
    }
    assert(string_list_view(out@) =~= string_list_view(v@));
    out
}

fn clone_entries(v: &Vec<(String, JsonValue)>) -> (r: Vec<(String, JsonValue)>)
    ensures
        r@.len() == v@.len(),
        forall|q: int|
            0 <= q < v@.len() ==> (#[trigger] r@[q]).0@ == v@[q].0@ && json_view(r@[q].1)
                == json_view(v@[q].1),
{
    let mut out: Vec<(String, JsonValue)> = Vec::new();
    let mut i: usize = 0;
    while i < v.len()
        invariant
            i <= v@.len(),
            out@.len() == i,
            forall|q: int|
                0 <= q < i ==> (#[trigger] out@[q]).0@ == v@[q].0@ && json_view(out@[q].1)
                    == json_view(v@[q].1),
        decreases v@.len() - i,
    {
        out.push((v[i].0.clone(), v[i].1.clone()));
        i = i + 1;
    }
    out
}

impl Clone for PracticeSourceBinding {
    fn clone(&self) -> (r: Self)
        ensures
            binding_view(r) == binding_view(*self),
    {
        PracticeSourceBinding {
            authority: self.authority.clone(),
            domain: self.domain.clone(),
            resource: self.resource.clone(),
        }
    }
}

impl Clone for PracticeSource {
    fn clone(&self) -> (r: Self)
        ensures
            binding_view(r.binding) == binding_view(self.binding),
            r.revision@ == self.revision@,
            string_list_view(r.occurrence_ids@) == string_list_view(self.occurrence_ids@),
            occurrence_set(r) == occurrence_set(*self),
    {
        PracticeSource {
            binding: self.binding.clone(),
            revision: self.revision.clone(),
            occurrence_ids: clone_strings(&self.occurrence_ids),
        }
    }
}

impl Clone for PracticeSourceFingerprint {
    fn clone(&self) -> (r: Self)
        ensures
            binding_view(r.binding) == binding_view(self.binding),
            r.revision@ == self.revision@,
    {
        PracticeSourceFingerprint { binding: self.binding.clone(), revision: self.revision.clone() }
    }
}

impl Clone for ComparisonSourceRef {
    fn clone(&self) -> (r: Self)
        ensures
            r.adapter@ == self.adapter@,
            r.id@ == self.id@,
    {
        ComparisonSourceRef { adapter: self.adapter.clone(), id: self.id.clone() }
    }
}

impl Clone for ComparisonMethod {
    fn clone(&self) -> (r: Self)
        ensures
            r.id@ == self.id@,
            r.version == self.version,
    {
        ComparisonMethod { id: self.id.clone(), version: self.version }
    }
}

impl Clone for Selection {
    fn clone(&self) -> (r: Self)
        ensures
            selection_view(r) == selection_view(*self),
    {
        match self {
            Selection::Occurrence(id) => Selection::Occurrence(id.clone()),
            Selection::Comparison => Selection::Comparison,
        }
    }
}

impl Clone for PracticeLocation {
    fn clone(&self) -> (r: Self)
        ensures
            location_view(r) == location_view(*self),
    {
        PracticeLocation { view: self.view, selection: self.selection.clone() }
    }
}

impl Clone for HistoryEntry {
    fn clone(&self) -> (r: Self)
        ensures
            r.id == self.id,
            location_view(r.location) == location_view(self.location),
    {
        HistoryEntry { id: self.id, location: self.location.clone() }
    }
}

impl Clone for PracticeRuntimeConfig {
    fn clone(&self) -> (r: Self)
        ensures
            runtime_view(r) == runtime_view(*self),
    {
        PracticeRuntimeConfig {
            layout_id: self.layout_id.clone(),
            physics_enabled: self.physics_enabled,
        }
    }
}

/// Whether two bindings name the same authority, domain and resource.
pub fn binding_eq(a: &PracticeSourceBinding, b: &PracticeSourceBinding) -> (r: bool)
    ensures
        r == (binding_view(*a) == binding_view(*b)),
{
    str_eq(a.authority.as_str(), b.authority.as_str()) && str_eq(a.domain.as_str(), b.domain.as_str())
        && str_eq(a.resource.as_str(), b.resource.as_str())
}

/// Whether two selections name the same target.
pub fn selection_eq(a: &Selection, b: &Selection) -> (r: bool)
    ensures
        r == (selection_view(*a) == selection_view(*b)),
{
    match (a, b) {
        (Selection::Occurrence(x), Selection::Occurrence(y)) => str_eq(x.as_str(), y.as_str()),
        (Selection::Comparison, Selection::Comparison) => true,
        _ => false,
    }
}

/// Whether two locations are the same position.
pub fn location_eq(a: &PracticeLocation, b: &PracticeLocation) -> (r: bool)
    ensures
        r == (location_view(*a) == location_view(*b)),
{
    a.view == b.view && selection_eq(&a.selection, &b.selection)
}

/// Whether two runtime configurations are the same.
pub fn runtime_eq(a: &PracticeRuntimeConfig, b: &PracticeRuntimeConfig) -> (r: bool)
    ensures
        r == (runtime_view(*a) == runtime_view(*b)),
{
    a.physics_enabled == b.physics_enabled && str_eq(a.layout_id.as_str(), b.layout_id.as_str())
}

impl PracticeSource {
    /// Whether the product disclosed `occurrence`.
    pub fn contains(&self, occurrence: &str) -> (r: bool)
        ensures
            r == occurrence_set(*self).contains(occurrence@),
    {
        let mut i: usize = 0;
        while i < self.occurrence_ids.len()
            invariant
                i <= self.occurrence_ids@.len(),
                forall|q: int| 0 <= q < i ==> (#[trigger] self.occurrence_ids@[q])@ != occurrence@,
            decreases self.occurrence_ids@.len() - i,
        {
            if str_eq(self.occurrence_ids[i].as_str(), occurrence) {
                proof {
                    let v = self.occurrence_ids@.map_values(|o: String| o@);
                    assert(v[i as int] == occurrence@);
                }
                return true;
            }
            i = i + 1;
        }
        proof {
            let v = self.occurrence_ids@.map_values(|o: String| o@);
            if v.to_set().contains(occurrence@) {
                let q = choose|q: int| 0 <= q < v.len() && v[q] == occurrence@;
                assert(self.occurrence_ids@[q]@ == occurrence@);
            }
        }
        false
    }

    /// The identity a saved workspace keeps of this source.
    pub fn fingerprint(&self) -> (r: PracticeSourceFingerprint)
        ensures
            binding_view(r.binding) == binding_view(self.binding),
            r.revision@ == self.revision@,
    {
        PracticeSourceFingerprint { binding: self.binding.clone(), revision: self.revision.clone() }
    }
}

} // verus!

verus! {

/// The JSON a binding serializes to.
pub open spec fn binding_json(b: PracticeSourceBinding) -> JsonView {
    JsonView::Object(
        build_object(
            seq![
                ("authority"@, JsonView::Str(b.authority@)),
                ("domain"@, JsonView::Str(b.domain@)),
                ("resource"@, JsonView::Str(b.resource@)),
            ],
        ),
    )
}

/// The JSON a method serializes to.
pub open spec fn method_json(m: ComparisonMethod) -> JsonView {
    JsonView::Object(
        build_object(
            seq![
                ("id"@, JsonView::Str(m.id@)),
                ("version"@, JsonView::Number(NumberView::PosInt(m.version as u64))),
            ],
        ),
    )
}

/// The JSON a subject serializes to, its disclosed fields flattened in.
pub open spec fn subject_json(s: ComparisonSubject) -> JsonView {
    JsonView::Object(
        build_object(
            seq![
                ("occurrence_id"@, JsonView::Str(s.occurrence_id@)),
                ("source"@, JsonView::Object(
                    build_object(
                        seq![
                            ("adapter"@, JsonView::Str(s.source.adapter@)),
                            ("id"@, JsonView::Str(s.source.id@)),
                        ],
                    ),
                )),
                ("label"@, JsonView::Str(s.label@)),
            ] + pair_views(s.disclosed@),
        ),
    )
}

/// The JSON a comparison record serializes to, its disclosed fields
/// flattened in: the complete product disclosure.
pub open spec fn record_json(c: ComparisonRecord) -> JsonView {
    JsonView::Object(
        build_object(
            seq![
                ("source"@, binding_json(c.source)),
                ("revision"@, JsonView::Str(c.revision@)),
                ("method"@, method_json(c.method)),
                ("left"@, subject_json(c.left)),
                ("right"@, subject_json(c.right)),
                ("result"@, json_view(c.result)),
            ] + pair_views(c.disclosed@),
        ),
    )
}

fn text_entry(key: &str, value: &String) -> (r: (String, JsonValue))
    ensures
        r.0@ == key@,
        json_view(r.1) == JsonView::Str(value@),
{
    (key.to_owned(), JsonValue::String(value.clone()))
}

fn object_of(entries: Vec<(String, JsonValue)>, ghost_pairs: Ghost<Seq<(Seq<char>, JsonView)>>) -> (r: JsonValue)
    requires
        pair_views(entries@) == ghost_pairs@,
    ensures
        json_view(r) == JsonView::Object(build_object(ghost_pairs@)),
{
    proof {
        lemma_entry_views_build(entries@);
    }
    JsonValue::Object(entries)
}

fn binding_to_json(b: &PracticeSourceBinding) -> (r: JsonValue)
    ensures
        json_view(r) == binding_json(*b),
{
    let mut e: Vec<(String, JsonValue)> = Vec::new();
    e.push(text_entry("authority", &b.authority));
    e.push(text_entry("domain", &b.domain));
    e.push(text_entry("resource", &b.resource));
    let ghost pairs = seq![
        ("authority"@, JsonView::Str(b.authority@)),
        ("domain"@, JsonView::Str(b.domain@)),
        ("resource"@, JsonView::Str(b.resource@)),
    ];
    assert(pair_views(e@) =~= pairs);
    object_of(e, Ghost(pairs))
}

fn method_to_json(m: &ComparisonMethod) -> (r: JsonValue)
    ensures
        json_view(r) == method_json(*m),
{
    let mut e: Vec<(String, JsonValue)> = Vec::new();
    e.push(text_entry("id", &m.id));
    e.push(("version".to_owned(), JsonValue::Number(JsonNumber::PosInt(m.version as u64))));
    let ghost pairs = seq![
        ("id"@, JsonView::Str(m.id@)),
        ("version"@, JsonView::Number(NumberView::PosInt(m.version as u64))),
    ];
    assert(pair_views(e@) =~= pairs);
    object_of(e, Ghost(pairs))
}

fn push_disclosed(e: &mut Vec<(String, JsonValue)>, disclosed: &Vec<(String, JsonValue)>)
    ensures
        pair_views(final(e)@) == pair_views(old(e)@) + pair_views(disclosed@),
{
    let copy = clone_entries(disclosed);
    let ghost before = e@;
    let mut i: usize = 0;
    while i < copy.len()
        invariant
            i <= copy@.len(),
            copy@.len() == disclosed@.len(),
            forall|q: int|
                0 <= q < disclosed@.len() ==> (#[trigger] copy@[q]).0@ == disclosed@[q].0@
                    && json_view(copy@[q].1) == json_view(disclosed@[q].1),
            pair_views(e@) == pair_views(before) + pair_views(disclosed@.subrange(0, i as int)),
        decreases copy@.len() - i,
    {
        let ghost prev = e@;
        let k = copy[i].0.clone();
        let v = copy[i].1.clone();
        e.push((k, v));
        proof {
            let item = (disclosed@[i as int].0@, json_view(disclosed@[i as int].1));
            assert(e@[prev.len() as int].0@ == item.0);
            assert(json_view(e@[prev.len() as int].1) == item.1);
            assert(pair_views(e@) =~= pair_views(prev).push(item));
            assert(pair_views(disclosed@.subrange(0, i as int + 1)) =~= pair_views(
                disclosed@.subrange(0, i as int),
            ).push(item));
            assert(pair_views(e@) =~= pair_views(before) + pair_views(
                disclosed@.subrange(0, i as int + 1),
            ));
        }
        i = i + 1;
    }
    assert(disclosed@.subrange(0, disclosed@.len() as int) =~= disclosed@);
}

fn subject_to_json(s: &ComparisonSubject) -> (r: JsonValue)
    ensures
        json_view(r) == subject_json(*s),
{
    let mut src: Vec<(String, JsonValue)> = Vec::new();
    src.push(text_entry("adapter", &s.source.adapter));
    src.push(text_entry("id", &s.source.id));
    let ghost src_pairs = seq![
        ("adapter"@, JsonView::Str(s.source.adapter@)),
        ("id"@, JsonView::Str(s.source.id@)),
    ];
    assert(pair_views(src@) =~= src_pairs);
    let source = object_of(src, Ghost(src_pairs));
    let mut e: Vec<(String, JsonValue)> = Vec::new();
    e.push(text_entry("occurrence_id", &s.occurrence_id));
    e.push(("source".to_owned(), source));
    e.push(text_entry("label", &s.label));
    let ghost head = seq![
        ("occurrence_id"@, JsonView::Str(s.occurrence_id@)),
        ("source"@, JsonView::Object(build_object(src_pairs))),
        ("label"@, JsonView::Str(s.label@)),
    ];
    assert(pair_views(e@) =~= head);
    push_disclosed(&mut e, &s.disclosed);
    object_of(e, Ghost(head + pair_views(s.disclosed@)))
}

impl ComparisonRecord {
    /// The complete product disclosure as one JSON document.
    pub fn to_json(&self) -> (r: JsonValue)
        ensures
            json_view(r) == record_json(*self),
    {
        let mut e: Vec<(String, JsonValue)> = Vec::new();
        e.push(("source".to_owned(), binding_to_json(&self.source)));
        e.push(text_entry("revision", &self.revision));
        e.push(("method".to_owned(), method_to_json(&self.method)));
        e.push(("left".to_owned(), subject_to_json(&self.left)));
        e.push(("right".to_owned(), subject_to_json(&self.right)));
        e.push(("result".to_owned(), self.result.clone()));
        let ghost head = seq![
            ("source"@, binding_json(self.source)),
            ("revision"@, JsonView::Str(self.revision@)),
            ("method"@, method_json(self.method)),
            ("left"@, subject_json(self.left)),
            ("right"@, subject_json(self.right)),
            ("result"@, json_view(self.result)),
        ];
        assert(pair_views(e@) =~= head);
        push_disclosed(&mut e, &self.disclosed);
        object_of(e, Ghost(head + pair_views(self.disclosed@)))
    }

    /// Canonical JSON for the complete product disclosure.
    ///
    /// This includes `result` and flattened side evidence, unlike the stable
    /// relation ID, so reopening cannot silently attach old notes to changed
    /// product evidence at the same source revision.
    pub fn canonical_evidence(&self) -> (r: String)
        ensures
            r@ == canonical(record_json(*self)),
    {
        let value = self.to_json();
        let mut out = String::new();
        write_canonical_json(&mut out, &value);
        out
    }
}

} // verus!

verus! {

/// The FNV-1a 64-bit offset basis.
pub const FNV_OFFSET: u64 = 0xcbf2_9ce4_8422_2325;

/// The FNV-1a 64-bit prime.
pub const FNV_PRIME: u64 = 0x0000_0100_0000_01b3;

/// One FNV-1a round.
#[verifier::opaque]
pub open spec fn fnv_step(h: u64, b: u8) -> u64 {
    vstd::wrapping::u64_specs::wrapping_mul(h ^ (b as u64), FNV_PRIME)
}

/// FNV-1a over `s`, starting from `h`.
pub open spec fn fnv(h: u64, s: Seq<u8>) -> u64
    decreases s.len(),
{
    if s.len() == 0 {
        h
    } else {
        fnv_step(fnv(h, s.drop_last()), s.last())
    }
}

pub proof fn lemma_fnv_concat(h: u64, a: Seq<u8>, b: Seq<u8>)
    ensures
        fnv(h, a + b) == fnv(fnv(h, a), b),
    decreases b.len(),
{
    if b.len() == 0 {
        assert(a + b =~= a);
    } else {
        lemma_fnv_concat(h, a, b.drop_last());
        assert((a + b).drop_last() =~= a + b.drop_last());
    }
}

/// A string's UTF-8 bytes followed by a zero terminator.
pub open spec fn zterm(s: Seq<char>) -> Seq<u8> {
    vstd::utf8::encode_utf8(s).push(0u8)
}

/// The little-endian bytes of `v`.
pub open spec fn le_bytes_u32(v: u32) -> Seq<u8> {
    seq![
        (v % 256) as u8,
        ((v / 256) % 256) as u8,
        ((v / 65536) % 256) as u8,
        ((v / 16777216) % 256) as u8,
    ]
}

/// The disclosed, non-arithmetic facts a relation identity is derived from,
/// in order: the pair is directional, so reversing it changes the bytes.
pub open spec fn relation_key_bytes(c: ComparisonRecord) -> Seq<u8> {
    zterm(c.source.authority@) + zterm(c.source.domain@) + zterm(c.source.resource@) + zterm(
        c.revision@,
    ) + zterm(c.method.id@) + zterm(c.left.occurrence_id@) + zterm(c.right.occurrence_id@)
        + le_bytes_u32(c.method.version)
}

/// Whether a text holds no NUL character, so that its zero-terminated bytes
/// end at its own terminator.
pub open spec fn nul_free(s: Seq<char>) -> bool {
    forall|i: int| 0 <= i < s.len() ==> s[i] != '\0'
}

proof fn lemma_scalar_bytes_nonzero(v: u32)
    requires
        v != 0,
    ensures
        forall|j: int|
            0 <= j < vstd::utf8::encode_scalar(v).len() ==> vstd::utf8::encode_scalar(v)[j]
                != 0u8,
{
    assert(v <= 0x7F ==> ((v & 0x7F) as u8) != 0u8) by (bit_vector)
        requires
            v != 0,
    ;
    assert((0xC0u8 | ((v >> 6) & 0x1F) as u8) != 0u8) by (bit_vector);
    assert((0xE0u8 | ((v >> 12) & 0x0F) as u8) != 0u8) by (bit_vector);
    assert((0xF0u8 | ((v >> 18) & 0x7) as u8) != 0u8) by (bit_vector);
    assert((0x80u8 | (v & 0x3F) as u8) != 0u8) by (bit_vector);
    assert((0x80u8 | ((v >> 6) & 0x3F) as u8) != 0u8) by (bit_vector);
    assert((0x80u8 | ((v >> 12) & 0x3F) as u8) != 0u8) by (bit_vector);
}

proof fn lemma_encode_no_zero(s: Seq<char>)
    requires
        nul_free(s),
    ensures
        forall|j: int|
            0 <= j < vstd::utf8::encode_utf8(s).len() ==> vstd::utf8::encode_utf8(s)[j] != 0u8,
    decreases s.len(),
{
    if s.len() > 0 {
        let rest = s.drop_first();
        assert forall|i: int| 0 <= i < rest.len() implies rest[i] != '\0' by {
            assert(rest[i] == s[i + 1]);
        }
        lemma_encode_no_zero(rest);
        assert(s[0] != '\0');
        vstd::utf8::char_u32_cast(s[0], s[0] as u32);
        vstd::utf8::char_u32_cast('\0', 0u32);
        lemma_scalar_bytes_nonzero(s[0] as u32);
        let head = vstd::utf8::encode_scalar(s[0] as u32);
        let all = vstd::utf8::encode_utf8(s);
        assert(all == head + vstd::utf8::encode_utf8(rest));
        assert forall|j: int| 0 <= j < all.len() implies all[j] != 0u8 by {
            if j >= head.len() {
                assert(all[j] == vstd::utf8::encode_utf8(rest)[j - head.len()]);
            }
        }
    }
}

/// A NUL-free text's zero-terminated bytes are a prefix no other NUL-free
/// text's can be confused with: whatever follows, equal byte runs begin with
/// the same text.
proof fn lemma_zterm_split(x: Seq<char>, y: Seq<char>, r1: Seq<u8>, r2: Seq<u8>)
    requires
        nul_free(x),
        nul_free(y),
        zterm(x) + r1 == zterm(y) + r2,
    ensures
        x == y,
        r1 == r2,
{
    let ex = vstd::utf8::encode_utf8(x);
    let ey = vstd::utf8::encode_utf8(y);
    let s = zterm(x) + r1;
    let t = zterm(y) + r2;
    lemma_encode_no_zero(x);
    lemma_encode_no_zero(y);
    assert(s[ex.len() as int] == 0u8);
    assert(t[ey.len() as int] == 0u8);
    if ex.len() < ey.len() {
        assert(t[ex.len() as int] == ey[ex.len() as int]);
    }
    if ey.len() < ex.len() {
        assert(s[ey.len() as int] == ex[ey.len() as int]);
    }
    assert(ex.len() == ey.len());
    assert(ex =~= s.subrange(0, ex.len() as int));
    assert(ey =~= t.subrange(0, ey.len() as int));
    vstd::utf8::encode_utf8_decode_utf8(x);
    vstd::utf8::encode_utf8_decode_utf8(y);
    assert(r1 =~= s.skip(ex.len() as int + 1));
    assert(r2 =~= t.skip(ey.len() as int + 1));
}

/// The relation key tells comparisons apart by their ordered occurrence
/// pair: two records with the same source, revision and method whose key
/// bytes agree compare the same left occurrence and the same right
/// occurrence. So changing either occurrence, or swapping the two, changes
/// the key bytes (for occurrence ids without a NUL character inside).
pub proof fn lemma_relation_key_tells_pairs_apart(c1: ComparisonRecord, c2: ComparisonRecord)
    requires
        c1.source.authority@ == c2.source.authority@,
        c1.source.domain@ == c2.source.domain@,
        c1.source.resource@ == c2.source.resource@,
        c1.revision@ == c2.revision@,
        c1.method.id@ == c2.method.id@,
        c1.method.version == c2.method.version,
        nul_free(c1.left.occurrence_id@),
        nul_free(c1.right.occurrence_id@),
        nul_free(c2.left.occurrence_id@),
        nul_free(c2.right.occurrence_id@),
    ensures
        relation_key_bytes(c1) == relation_key_bytes(c2) ==> c1.left.occurrence_id@
            == c2.left.occurrence_id@ && c1.right.occurrence_id@ == c2.right.occurrence_id@,
{
    let p = zterm(c1.source.authority@) + zterm(c1.source.domain@) + zterm(c1.source.resource@)
        + zterm(c1.revision@) + zterm(c1.method.id@);
    let lb = le_bytes_u32(c1.method.version);
    let k1 = relation_key_bytes(c1);
    let k2 = relation_key_bytes(c2);
    let tail1 = zterm(c1.left.occurrence_id@) + (zterm(c1.right.occurrence_id@) + lb);
    let tail2 = zterm(c2.left.occurrence_id@) + (zterm(c2.right.occurrence_id@) + lb);
    assert(k1 =~= p + tail1);
    assert(k2 =~= p + tail2);
    if k1 == k2 {
        assert(tail1 =~= k1.skip(p.len() as int));
        assert(tail2 =~= k2.skip(p.len() as int));
        lemma_zterm_split(
            c1.left.occurrence_id@,
            c2.left.occurrence_id@,
            zterm(c1.right.occurrence_id@) + lb,
            zterm(c2.right.occurrence_id@) + lb,
        );
        lemma_zterm_split(c1.right.occurrence_id@, c2.right.occurrence_id@, lb, lb);
    }
}

/// The relation identity: `comparison:` and the FNV-1a hash of the key bytes
/// in sixteen lowercase hex digits.
pub open spec fn relation_id(c: ComparisonRecord) -> Seq<char> {
    "comparison:"@ + hex_fixed(fnv(FNV_OFFSET, relation_key_bytes(c)) as nat, 16)
}

fn fnv_byte(h: u64, b: u8) -> (r: u64)
    ensures
        r == fnv_step(h, b),
{
    proof {
        reveal(fnv_step);
    }
    (h ^ (b as u64)).wrapping_mul(FNV_PRIME)
}

pub fn fnv_zterm(h: u64, s: &str) -> (r: u64)
    ensures
        r == fnv(h, zterm(s@)),
{
    let bytes = s.as_bytes();
    let ghost all = bytes@;
    let mut acc = h;
    let mut i: usize = 0;
    while i < bytes.len()
        invariant
            i <= bytes@.len(),
            all == bytes@,
            acc == fnv(h, all.subrange(0, i as int)),
        decreases bytes@.len() - i,
    {
        acc = fnv_byte(acc, bytes[i]);
        proof {
            assert(all.subrange(0, i as int + 1).drop_last() =~= all.subrange(0, i as int));
        }
        i = i + 1;
    }
    acc = fnv_byte(acc, 0);
    proof {
        assert(all.subrange(0, all.len() as int) =~= all);
        assert(zterm(s@).drop_last() =~= all);
    }
    acc
}

fn fnv_u32_le(h: u64, v: u32) -> (r: u64)
    ensures
        r == fnv(h, le_bytes_u32(v)),
{
    let b0: u8 = (v % 256) as u8;
    let b1: u8 = ((v / 256) % 256) as u8;
    let b2: u8 = ((v / 65536) % 256) as u8;
    let b3: u8 = ((v / 16777216) % 256) as u8;
    let h1 = fnv_byte(h, b0);
    let h2 = fnv_byte(h1, b1);
    let h3 = fnv_byte(h2, b2);
    let h4 = fnv_byte(h3, b3);
    proof {
        let lb = le_bytes_u32(v);
        assert(lb =~= seq![b0, b1, b2, b3]);
        assert(fnv(h, seq![b0]) == h1) by {
            assert(seq![b0].drop_last() =~= Seq::<u8>::empty());
            assert(fnv(h, Seq::<u8>::empty()) == h);
        }
        assert(fnv(h, seq![b0, b1]) == h2) by {
            assert(seq![b0, b1].drop_last() =~= seq![b0]);
        }
        assert(fnv(h, seq![b0, b1, b2]) == h3) by {
            assert(seq![b0, b1, b2].drop_last() =~= seq![b0, b1]);
        }
        assert(fnv(h, seq![b0, b1, b2, b3]) == h4) by {
            assert(seq![b0, b1, b2, b3].drop_last() =~= seq![b0, b1, b2]);
        }
    }
    h4
}

impl ComparisonRecord {
    /// The FNV-1a hash of the relation key bytes.
    fn relation_hash(&self) -> (r: u64)
        ensures
            r == fnv(FNV_OFFSET, relation_key_bytes(*self)),
    {
        let ghost a = zterm(self.source.authority@);
        let ghost b = zterm(self.source.domain@);
        let ghost c = zterm(self.source.resource@);
        let ghost d = zterm(self.revision@);
        let ghost e = zterm(self.method.id@);
        let ghost f = zterm(self.left.occurrence_id@);
        let ghost g = zterm(self.right.occurrence_id@);
        let ghost l = le_bytes_u32(self.method.version);
        let h1 = fnv_zterm(FNV_OFFSET, self.source.authority.as_str());
        let h2 = fnv_zterm(h1, self.source.domain.as_str());
        proof { lemma_fnv_concat(FNV_OFFSET, a, b); }
        let h3 = fnv_zterm(h2, self.source.resource.as_str());
        proof { lemma_fnv_concat(FNV_OFFSET, a + b, c); }
        let h4 = fnv_zterm(h3, self.revision.as_str());
        proof { lemma_fnv_concat(FNV_OFFSET, a + b + c, d); }
        let h5 = fnv_zterm(h4, self.method.id.as_str());
        proof { lemma_fnv_concat(FNV_OFFSET, a + b + c + d, e); }
        let h6 = fnv_zterm(h5, self.left.occurrence_id.as_str());
        proof { lemma_fnv_concat(FNV_OFFSET, a + b + c + d + e, f); }
        let h7 = fnv_zterm(h6, self.right.occurrence_id.as_str());
        proof { lemma_fnv_concat(FNV_OFFSET, a + b + c + d + e + f, g); }
        let h8 = fnv_u32_le(h7, self.method.version);
        proof { lemma_fnv_concat(FNV_OFFSET, a + b + c + d + e + f + g, l); }
        h8
    }

    /// A stable relation identity derived from disclosed, non-arithmetic facts.
    ///
    /// The pair is deliberately ordered: a directional comparison reversed must
    /// not reuse the same identity.
    pub fn relation(&self) -> (r: ComparisonRelation)
        ensures
            r.id@ == relation_id(*self),
            binding_view(r.source.binding) == binding_view(self.source),
            r.source.revision@ == self.revision@,
            r.method.id@ == self.method.id@,
            r.method.version == self.method.version,
            r.left_occurrence@ == self.left.occurrence_id@,
            r.right_occurrence@ == self.right.occurrence_id@,
    {
        let h = self.relation_hash();
        let mut id = "comparison:".to_owned();
        push_hex_fixed(&mut id, h, 16);
        ComparisonRelation {
            id,
            source: PracticeSourceFingerprint {
                binding: self.source.clone(),
                revision: self.revision.clone(),
            },
            method: self.method.clone(),
            left_occurrence: self.left.occurrence_id.clone(),
            right_occurrence: self.right.occurrence_id.clone(),
        }
    }
}

} // verus!

verus! {

#[derive(Debug, PartialEq, Eq)]
pub enum ComparisonError {
    SourceBindingMismatch,
    SourceRevisionMismatch,
    MissingMethod,
    UnknownOccurrence(String),
    RepeatedOccurrence,
}

#[derive(Debug, PartialEq, Eq)]
pub enum WorkspaceError {
    ZeroHistoryLimit,
    EmptyLayoutId,
    Comparison(ComparisonError),
}

#[derive(Debug, PartialEq, Eq)]
pub enum ReduceError {
    UnknownOccurrence(String),
    UnknownHistoryEntry(u64),
    HistoryIdExhausted,
}

#[derive(Debug, PartialEq, Eq)]
pub enum SnapshotError {
    UnsupportedVersion(u16),
    ZeroHistoryLimit,
    SourceBindingMismatch,
    SourceRevisionMismatch,
    TooManyHistoryEntries { limit: usize, actual: usize },
    InvalidHistoryOrder,
    InvalidNextHistoryId,
    MissingOccurrence(String),
    EmptyLayoutId,
    ComparisonEvidenceMismatch,
    Comparison(ComparisonError),
}

pub enum ComparisonErrorView {
    SourceBindingMismatch,
    SourceRevisionMismatch,
    MissingMethod,
    UnknownOccurrence(Seq<char>),
    RepeatedOccurrence,
}

pub enum WorkspaceErrorView {
    ZeroHistoryLimit,
    EmptyLayoutId,
    Comparison(ComparisonErrorView),
}

pub enum ReduceErrorView {
    UnknownOccurrence(Seq<char>),
    UnknownHistoryEntry(u64),
    HistoryIdExhausted,
}

pub enum SnapshotErrorView {
    UnsupportedVersion(u16),
    ZeroHistoryLimit,
    SourceBindingMismatch,
    SourceRevisionMismatch,
    TooManyHistoryEntries { limit: usize, actual: usize },
    InvalidHistoryOrder,
    InvalidNextHistoryId,
    MissingOccurrence(Seq<char>),
    EmptyLayoutId,
    ComparisonEvidenceMismatch,
    Comparison(ComparisonErrorView),
}

pub open spec fn comparison_error_view(e: ComparisonError) -> ComparisonErrorView {
    match e {
        ComparisonError::SourceBindingMismatch => ComparisonErrorView::SourceBindingMismatch,
        ComparisonError::SourceRevisionMismatch => ComparisonErrorView::SourceRevisionMismatch,
        ComparisonError::MissingMethod => ComparisonErrorView::MissingMethod,
        ComparisonError::UnknownOccurrence(o) => ComparisonErrorView::UnknownOccurrence(o@),
        ComparisonError::RepeatedOccurrence => ComparisonErrorView::RepeatedOccurrence,
    }
}

pub open spec fn workspace_error_view(e: WorkspaceError) -> WorkspaceErrorView {
    match e {
        WorkspaceError::ZeroHistoryLimit => WorkspaceErrorView::ZeroHistoryLimit,
        WorkspaceError::EmptyLayoutId => WorkspaceErrorView::EmptyLayoutId,
        WorkspaceError::Comparison(c) => WorkspaceErrorView::Comparison(comparison_error_view(c)),
    }
}

pub open spec fn reduce_error_view(e: ReduceError) -> ReduceErrorView {
    match e {
        ReduceError::UnknownOccurrence(o) => ReduceErrorView::UnknownOccurrence(o@),
        ReduceError::UnknownHistoryEntry(id) => ReduceErrorView::UnknownHistoryEntry(id),
        ReduceError::HistoryIdExhausted => ReduceErrorView::HistoryIdExhausted,
    }
}

pub open spec fn snapshot_error_view(e: SnapshotError) -> SnapshotErrorView {
    match e {
        SnapshotError::UnsupportedVersion(v) => SnapshotErrorView::UnsupportedVersion(v),
        SnapshotError::ZeroHistoryLimit => SnapshotErrorView::ZeroHistoryLimit,
        SnapshotError::SourceBindingMismatch => SnapshotErrorView::SourceBindingMismatch,
        SnapshotError::SourceRevisionMismatch => SnapshotErrorView::SourceRevisionMismatch,
        SnapshotError::TooManyHistoryEntries { limit, actual } => {
            SnapshotErrorView::TooManyHistoryEntries { limit, actual }
        },
        SnapshotError::InvalidHistoryOrder => SnapshotErrorView::InvalidHistoryOrder,
        SnapshotError::InvalidNextHistoryId => SnapshotErrorView::InvalidNextHistoryId,
        SnapshotError::MissingOccurrence(o) => SnapshotErrorView::MissingOccurrence(o@),
        SnapshotError::EmptyLayoutId => SnapshotErrorView::EmptyLayoutId,
        SnapshotError::ComparisonEvidenceMismatch => SnapshotErrorView::ComparisonEvidenceMismatch,
        SnapshotError::Comparison(c) => SnapshotErrorView::Comparison(comparison_error_view(c)),
    }
}

/// Whether a comparison subject names a disclosed, non-blank occurrence.
pub open spec fn known_occurrence(o: Seq<char>, source: PracticeSource) -> bool {
    trim(o).len() > 0 && occurrence_set(source).contains(o)
}

/// Why `c` does not belong to `source`, if it does not: checked in this
/// order, the first failure reported.
pub open spec fn comparison_check(c: ComparisonRecord, source: PracticeSource) -> Option<
    ComparisonErrorView,
> {
    if binding_view(c.source) != binding_view(source.binding) {
        Some(ComparisonErrorView::SourceBindingMismatch)
    } else if c.revision@ != source.revision@ {
        Some(ComparisonErrorView::SourceRevisionMismatch)
    } else if trim(c.method.id@).len() == 0 {
        Some(ComparisonErrorView::MissingMethod)
    } else if !known_occurrence(c.left.occurrence_id@, source) {
        Some(ComparisonErrorView::UnknownOccurrence(c.left.occurrence_id@))
    } else if !known_occurrence(c.right.occurrence_id@, source) {
        Some(ComparisonErrorView::UnknownOccurrence(c.right.occurrence_id@))
    } else if c.left.occurrence_id@ == c.right.occurrence_id@ {
        Some(ComparisonErrorView::RepeatedOccurrence)
    } else {
        None
    }
}

/// Why a runtime configuration and history bound are refused, if they are.
pub open spec fn config_check(runtime: (Seq<char>, bool), history_limit: usize) -> Option<
    WorkspaceErrorView,
> {
    if history_limit == 0 {
        Some(WorkspaceErrorView::ZeroHistoryLimit)
    } else if trim(runtime.0).len() == 0 {
        Some(WorkspaceErrorView::EmptyLayoutId)
    } else {
        None
    }
}

impl ComparisonRecord {
    /// Check this disclosure against the current source.
    pub fn validate_against(&self, source: &PracticeSource) -> (r: Result<(), ComparisonError>)
        ensures
            match r {
                Ok(()) => comparison_check(*self, *source) is None,
                Err(e) => comparison_check(*self, *source) == Some(comparison_error_view(e)),
            },
    {
        if !binding_eq(&self.source, &source.binding) {
            return Err(ComparisonError::SourceBindingMismatch);
        }
        if !str_eq(self.revision.as_str(), source.revision.as_str()) {
            return Err(ComparisonError::SourceRevisionMismatch);
        }
        if is_blank(self.method.id.as_str()) {
            return Err(ComparisonError::MissingMethod);
        }
        if is_blank(self.left.occurrence_id.as_str()) || !source.contains(
            self.left.occurrence_id.as_str(),
        ) {
            return Err(ComparisonError::UnknownOccurrence(self.left.occurrence_id.clone()));
        }
        if is_blank(self.right.occurrence_id.as_str()) || !source.contains(
            self.right.occurrence_id.as_str(),
        ) {
            return Err(ComparisonError::UnknownOccurrence(self.right.occurrence_id.clone()));
        }
        if str_eq(self.left.occurrence_id.as_str(), self.right.occurrence_id.as_str()) {
            return Err(ComparisonError::RepeatedOccurrence);
        }
        Ok(())
    }
}

/// Check a runtime configuration and history bound.
pub fn validate_config(runtime: &PracticeRuntimeConfig, history_limit: usize) -> (r: Result<
    (),
    WorkspaceError,
>)
    ensures
        match r {
            Ok(()) => config_check(runtime_view(*runtime), history_limit) is None,
            Err(e) => config_check(runtime_view(*runtime), history_limit) == Some(
                workspace_error_view(e),
            ),
        },
{
    if history_limit == 0 {
        return Err(WorkspaceError::ZeroHistoryLimit);
    }
    if is_blank(runtime.layout_id.as_str()) {
        return Err(WorkspaceError::EmptyLayoutId);
    }
    Ok(())
}

} // verus!

verus! {

/// A durable workspace payload. A host marks its own storage success after
/// writing this value; creating a snapshot has no persistence side effect.
#[derive(Debug, PartialEq)]
pub struct PracticeWorkspaceSnapshot {
    pub version: u16,
    pub source: PracticeSourceFingerprint,
    /// Canonical copy of every disclosed comparison field retained at save
    /// time. It is compared exactly during reopen.
    pub comparison_evidence: String,
    pub location: PracticeLocation,
    pub history: Vec<HistoryEntry>,
    pub next_history_id: u64,
    pub runtime: PracticeRuntimeConfig,
}

/// A host gesture accepted by the reducer.
#[derive(Debug, PartialEq, Eq)]
pub enum PracticeAction {
    Select(Selection),
    SelectView(PracticeView),
    /// Restore the exact retained entry. IDs are monotonic, and old IDs may
    /// become unavailable once the bounded buffer evicts them.
    ReturnTo(u64),
}

/// The result of reducing one action.
#[derive(Clone, Copy, Debug, PartialEq, Eq, Structural)]
pub enum PracticeOutcome {
    Changed,
    Unchanged,
}

/// The complete reducer state. The source is immutable for its lifetime.
#[derive(Debug, PartialEq)]
pub struct PracticeWorkspace {
    source: PracticeSource,
    comparison: ComparisonRecord,
    location: PracticeLocation,
    history: Vec<HistoryEntry>,
    next_history_id: u64,
    history_limit: usize,
    runtime: PracticeRuntimeConfig,
}

/// What a workspace's navigation state stands for.
pub struct WorkspaceView {
    pub location: LocationView,
    pub history: Seq<(u64, LocationView)>,
    pub next_history_id: u64,
    pub history_limit: usize,
    pub runtime: (Seq<char>, bool),
}

/// What a snapshot stands for.
pub struct SnapshotView {
    pub version: u16,
    pub binding: (Seq<char>, Seq<char>, Seq<char>),
    pub revision: Seq<char>,
    pub evidence: Seq<char>,
    pub location: LocationView,
    pub history: Seq<(u64, LocationView)>,
    pub next_history_id: u64,
    pub runtime: (Seq<char>, bool),
}

/// What an action stands for.
pub enum ActionView {
    Select(SelectionView),
    SelectView(PracticeView),
    ReturnTo(u64),
}

pub open spec fn action_view(a: PracticeAction) -> ActionView {
    match a {
        PracticeAction::Select(s) => ActionView::Select(selection_view(s)),
        PracticeAction::SelectView(v) => ActionView::SelectView(v),
        PracticeAction::ReturnTo(id) => ActionView::ReturnTo(id),
    }
}

pub open spec fn reduce_result_view(r: Result<PracticeOutcome, ReduceError>) -> Result<
    PracticeOutcome,
    ReduceErrorView,
> {
    match r {
        Ok(o) => Ok(o),
        Err(e) => Err(reduce_error_view(e)),
    }
}

pub open spec fn snapshot_view(s: PracticeWorkspaceSnapshot) -> SnapshotView {
    SnapshotView {
        version: s.version,
        binding: binding_view(s.source.binding),
        revision: s.source.revision@,
        evidence: s.comparison_evidence@,
        location: location_view(s.location),
        history: history_view(s.history@),
        next_history_id: s.next_history_id,
        runtime: runtime_view(s.runtime),
    }
}

/// History identifiers strictly increase.
pub open spec fn ids_increasing(h: Seq<(u64, LocationView)>) -> bool {
    forall|i: int, j: int| 0 <= i < j < h.len() ==> #[trigger] h[i].0 < #[trigger] h[j].0
}

/// Every location names only what `source` disclosed.
pub open spec fn all_selectable(h: Seq<(u64, LocationView)>, source: PracticeSource) -> bool {
    forall|i: int| 0 <= i < h.len() ==> selectable(#[trigger] h[i].1.selection, source)
}

/// A consistent workspace: a valid configuration, a bounded history with
/// increasing identifiers all below the next one, a comparison that belongs
/// to the source, and every location naming a disclosed occurrence.
pub open spec fn workspace_ok(
    w: WorkspaceView,
    source: PracticeSource,
    comparison: ComparisonRecord,
) -> bool {
    &&& config_check(w.runtime, w.history_limit) is None
    &&& w.history.len() <= w.history_limit
    &&& ids_increasing(w.history)
    &&& forall|i: int| 0 <= i < w.history.len() ==> #[trigger] w.history[i].0 < w.next_history_id
    &&& comparison_check(comparison, source) is None
    &&& selectable(w.location.selection, source)
    &&& all_selectable(w.history, source)
}

/// Why `new` refuses, if it does: the configuration first, then the
/// comparison.
pub open spec fn new_check(
    source: PracticeSource,
    comparison: ComparisonRecord,
    runtime: (Seq<char>, bool),
    history_limit: usize,
) -> Option<WorkspaceErrorView> {
    match config_check(runtime, history_limit) {
        Some(e) => Some(e),
        None => match comparison_check(comparison, source) {
            Some(c) => Some(WorkspaceErrorView::Comparison(c)),
            None => None,
        },
    }
}

/// The first retained entry with identifier `id`.
pub open spec fn find_entry(h: Seq<(u64, LocationView)>, id: u64) -> Option<LocationView>
    decreases h.len(),
{
    if h.len() == 0 {
        None
    } else if h[0].0 == id {
        Some(h[0].1)
    } else {
        find_entry(h.drop_first(), id)
    }
}

/// Move to `next`: record the current location, evicting the oldest entry
/// beyond the bound, unless `next` is where the workspace already is.
pub open spec fn move_spec(w: WorkspaceView, next: LocationView) -> (
    WorkspaceView,
    Result<PracticeOutcome, ReduceErrorView>,
) {
    if w.location == next {
        (w, Ok(PracticeOutcome::Unchanged))
    } else if w.next_history_id == u64::MAX {
        (w, Err(ReduceErrorView::HistoryIdExhausted))
    } else {
        let pushed = w.history.push((w.next_history_id, w.location));
        let kept = if pushed.len() > w.history_limit {
            pushed.drop_first()
        } else {
            pushed
        };
        (
            WorkspaceView {
                location: next,
                history: kept,
                next_history_id: (w.next_history_id + 1) as u64,
                history_limit: w.history_limit,
                runtime: w.runtime,
            },
            Ok(PracticeOutcome::Changed),
        )
    }
}

/// What one action does to a workspace over `source`.
pub open spec fn reduce_spec(w: WorkspaceView, source: PracticeSource, a: ActionView) -> (
    WorkspaceView,
    Result<PracticeOutcome, ReduceErrorView>,
) {
    match a {
        ActionView::Select(sel) => {
            if !selectable(sel, source) {
                (w, Err(ReduceErrorView::UnknownOccurrence(sel->Occurrence_0)))
            } else {
                move_spec(w, LocationView { view: w.location.view, selection: sel })
            }
        },
        ActionView::SelectView(view) => move_spec(
            w,
            LocationView { view, selection: w.location.selection },
        ),
        ActionView::ReturnTo(id) => match find_entry(w.history, id) {
            None => (w, Err(ReduceErrorView::UnknownHistoryEntry(id))),
            Some(loc) => if loc == w.location {
                (w, Ok(PracticeOutcome::Unchanged))
            } else {
                (
                    WorkspaceView {
                        location: loc,
                        history: w.history,
                        next_history_id: w.next_history_id,
                        history_limit: w.history_limit,
                        runtime: w.runtime,
                    },
                    Ok(PracticeOutcome::Changed),
                )
            },
        },
    }
}

/// Why a saved location is refused against `source`, if it is.
pub open spec fn location_check(l: LocationView, source: PracticeSource) -> Option<
    SnapshotErrorView,
> {
    match l.selection {
        SelectionView::Occurrence(id) => if occurrence_set(source).contains(id) {
            None
        } else {
            Some(SnapshotErrorView::MissingOccurrence(id))
        },
        SelectionView::Comparison => None,
    }
}

/// Walk saved history in order: each identifier must exceed the one before
/// it, and each location must name a disclosed occurrence.
pub open spec fn scan_history(
    h: Seq<(u64, LocationView)>,
    prev: Option<u64>,
    source: PracticeSource,
) -> Option<SnapshotErrorView>
    decreases h.len(),
{
    if h.len() == 0 {
        None
    } else if prev is Some && h[0].0 <= prev->Some_0 {
        Some(SnapshotErrorView::InvalidHistoryOrder)
    } else if location_check(h[0].1, source) is Some {
        location_check(h[0].1, source)
    } else {
        scan_history(h.drop_first(), Some(h[0].0), source)
    }
}

/// Why `reopen` refuses, if it does, in the order it checks.
pub open spec fn reopen_check(
    s: SnapshotView,
    source: PracticeSource,
    comparison: ComparisonRecord,
    history_limit: usize,
) -> Option<SnapshotErrorView> {
    if s.version != PRACTICE_WORKSPACE_VERSION {
        Some(SnapshotErrorView::UnsupportedVersion(s.version))
    } else if history_limit == 0 {
        Some(SnapshotErrorView::ZeroHistoryLimit)
    } else if s.binding != binding_view(source.binding) {
        Some(SnapshotErrorView::SourceBindingMismatch)
    } else if s.revision != source.revision@ {
        Some(SnapshotErrorView::SourceRevisionMismatch)
    } else if s.history.len() > history_limit {
        Some(
            SnapshotErrorView::TooManyHistoryEntries {
                limit: history_limit,
                actual: s.history.len() as usize,
            },
        )
    } else if trim(s.runtime.0).len() == 0 {
        Some(SnapshotErrorView::EmptyLayoutId)
    } else if comparison_check(comparison, source) is Some {
        Some(SnapshotErrorView::Comparison(comparison_check(comparison, source)->Some_0))
    } else if s.evidence != canonical(record_json(comparison)) {
        Some(SnapshotErrorView::ComparisonEvidenceMismatch)
    } else if location_check(s.location, source) is Some {
        location_check(s.location, source)
    } else if scan_history(s.history, None, source) is Some {
        scan_history(s.history, None, source)
    } else if s.history.len() > 0 && s.next_history_id <= s.history.last().0 {
        Some(SnapshotErrorView::InvalidNextHistoryId)
    } else {
        None
    }
}

/// The workspace a reopened snapshot yields.
pub open spec fn reopened(s: SnapshotView, history_limit: usize) -> WorkspaceView {
    WorkspaceView {
        location: s.location,
        history: s.history,
        next_history_id: s.next_history_id,
        history_limit,
        runtime: s.runtime,
    }
}

/// The snapshot of a workspace.
pub open spec fn snapshot_of(
    w: WorkspaceView,
    source: PracticeSource,
    comparison: ComparisonRecord,
) -> SnapshotView {
    SnapshotView {
        version: PRACTICE_WORKSPACE_VERSION,
        binding: binding_view(source.binding),
        revision: source.revision@,
        evidence: canonical(record_json(comparison)),
        location: w.location,
        history: w.history,
        next_history_id: w.next_history_id,
        runtime: w.runtime,
    }
}

impl View for PracticeWorkspace {
    type V = WorkspaceView;

    closed spec fn view(&self) -> WorkspaceView {
        WorkspaceView {
            location: location_view(self.location),
            history: history_view(self.history@),
            next_history_id: self.next_history_id,
            history_limit: self.history_limit,
            runtime: runtime_view(self.runtime),
        }
    }
}

} // verus!

verus! {

proof fn lemma_find_entry(h: Seq<(u64, LocationView)>, id: u64, i: int)
    requires
        0 <= i <= h.len(),
        forall|q: int| 0 <= q < i ==> (#[trigger] h[q]).0 != id,
    ensures
        i < h.len() && h[i].0 == id ==> find_entry(h, id) == Some(h[i].1),
        i == h.len() ==> find_entry(h, id) is None,
    decreases i,
{
    if i > 0 {
        let t = h.drop_first();
        assert forall|q: int| 0 <= q < i - 1 implies (#[trigger] t[q]).0 != id by {
            assert(h[q + 1].0 != id);
        }
        lemma_find_entry(t, id, i - 1);
    }
}

proof fn lemma_scan_ok(h: Seq<(u64, LocationView)>, prev: Option<u64>, source: PracticeSource)
    ensures
        (scan_history(h, prev, source) is None) <==> (ids_increasing(h) && all_selectable(h, source)
            && (h.len() > 0 && prev is Some ==> prev->Some_0 < h[0].0)),
    decreases h.len(),
{
    if h.len() > 0 {
        let t = h.drop_first();
        lemma_scan_ok(t, Some(h[0].0), source);
        if ids_increasing(h) && all_selectable(h, source) {
            assert(ids_increasing(t)) by {
                assert forall|i: int, j: int| 0 <= i < j < t.len() implies #[trigger] t[i].0
                    < #[trigger] t[j].0 by {
                    assert(h[i + 1].0 < h[j + 1].0);
                }
            }
            assert(all_selectable(t, source)) by {
                assert forall|i: int| 0 <= i < t.len() implies selectable(
                    #[trigger] t[i].1.selection,
                    source,
                ) by {
                    assert(selectable(h[i + 1].1.selection, source));
                }
            }
            if t.len() > 0 {
                assert(h[0].0 < h[1].0);
            }
            assert(selectable(h[0].1.selection, source));
        }
        if scan_history(h, prev, source) is None {
            assert(selectable(h[0].1.selection, source));
            assert(ids_increasing(h)) by {
                assert forall|i: int, j: int| 0 <= i < j < h.len() implies #[trigger] h[i].0
                    < #[trigger] h[j].0 by {
                    if i > 0 {
                        assert(t[i - 1].0 < t[j - 1].0);
                    } else if j > 1 {
                        assert(t[0].0 < t[j - 1].0);
                    }
                }
            }
            assert(all_selectable(h, source)) by {
                assert forall|i: int| 0 <= i < h.len() implies selectable(
                    #[trigger] h[i].1.selection,
                    source,
                ) by {
                    if i > 0 {
                        assert(selectable(t[i - 1].1.selection, source));
                    }
                }
            }
        }
    }
}

fn clone_history(h: &Vec<HistoryEntry>) -> (r: Vec<HistoryEntry>)
    ensures
        history_view(r@) == history_view(h@),
{
    let mut out: Vec<HistoryEntry> = Vec::new();
    let mut i: usize = 0;
    while i < h.len()
        invariant
            i <= h@.len(),
            out@.len() == i,
            forall|q: int|
                0 <= q < i ==> (#[trigger] out@[q]).id == h@[q].id && location_view(out@[q].location)
                    == location_view(h@[q].location),
        decreases h@.len() - i,
    {
        out.push(h[i].clone());
        i = i + 1;
    }
    assert(history_view(out@) =~= history_view(h@));
    out
}

/// Check that a saved location names an occurrence the source disclosed.
pub fn validate_location(location: &PracticeLocation, source: &PracticeSource) -> (r: Result<
    (),
    SnapshotError,
>)
    ensures
        match r {
            Ok(()) => location_check(location_view(*location), *source) is None,
            Err(e) => location_check(location_view(*location), *source) == Some(
                snapshot_error_view(e),
            ),
        },
{
    match &location.selection {
        Selection::Occurrence(id) => {
            if !source.contains(id.as_str()) {
                return Err(SnapshotError::MissingOccurrence(id.clone()));
            }
            Ok(())
        },
        Selection::Comparison => Ok(()),
    }
}

impl PracticeWorkspace {
    /// The source this workspace was opened against.
    pub closed spec fn source_spec(&self) -> PracticeSource {
        self.source
    }

    /// The comparison this workspace presents.
    pub closed spec fn comparison_spec(&self) -> ComparisonRecord {
        self.comparison
    }

    /// A consistent workspace, as every operation leaves it.
    pub open spec fn wf(&self) -> bool {
        workspace_ok(self@, self.source_spec(), self.comparison_spec())
    }

    /// Open a workspace on the comparison itself, with empty history.
    pub fn new(
        source: PracticeSource,
        comparison: ComparisonRecord,
        runtime: PracticeRuntimeConfig,
        history_limit: usize,
    ) -> (r: Result<Self, WorkspaceError>)
        ensures
            match r {
                Ok(w) => {
                    &&& new_check(source, comparison, runtime_view(runtime), history_limit) is None
                    &&& w.wf()
                    &&& w.source_spec() == source
                    &&& w.comparison_spec() == comparison
                    &&& w@ == WorkspaceView {
                        location: LocationView {
                            view: PracticeView::Relations,
                            selection: SelectionView::Comparison,
                        },
                        history: Seq::empty(),
                        next_history_id: 0,
                        history_limit,
                        runtime: runtime_view(runtime),
                    }
                },
                Err(e) => new_check(source, comparison, runtime_view(runtime), history_limit)
                    == Some(workspace_error_view(e)),
            },
    {
        match validate_config(&runtime, history_limit) {
            Err(e) => return Err(e),
            Ok(()) => {},
        }
        match comparison.validate_against(&source) {
            Err(e) => return Err(WorkspaceError::Comparison(e)),
            Ok(()) => {},
        }
        let w = PracticeWorkspace {
            source,
            comparison,
            location: PracticeLocation { view: PracticeView::Relations, selection: Selection::Comparison },
            history: Vec::new(),
            next_history_id: 0,
            history_limit,
            runtime,
        };
        assert(history_view(w.history@) =~= Seq::empty());
        Ok(w)
    }

    pub fn source(&self) -> (r: &PracticeSource)
        ensures
            *r == self.source_spec(),
    {
        &self.source
    }

    pub fn comparison(&self) -> (r: &ComparisonRecord)
        ensures
            *r == self.comparison_spec(),
    {
        &self.comparison
    }

    /// The relation the presented comparison establishes.
    pub fn relation(&self) -> (r: ComparisonRelation)
        ensures
            r.id@ == relation_id(self.comparison_spec()),
            r.left_occurrence@ == self.comparison_spec().left.occurrence_id@,
            r.right_occurrence@ == self.comparison_spec().right.occurrence_id@,
            binding_view(r.source.binding) == binding_view(self.comparison_spec().source),
            r.source.revision@ == self.comparison_spec().revision@,
            r.method.id@ == self.comparison_spec().method.id@,
            r.method.version == self.comparison_spec().method.version,
    {
        self.comparison.relation()
    }

    /// The other comparison subject when one of the pair is selected.
    pub fn relation_peer_for_selection(&self) -> (r: Option<&ComparisonSubject>)
        ensures
            match self@.location.selection {
                SelectionView::Occurrence(id) => if id == self.comparison_spec().left.occurrence_id@ {
                    r == Some(&self.comparison_spec().right)
                } else if id == self.comparison_spec().right.occurrence_id@ {
                    r == Some(&self.comparison_spec().left)
                } else {
                    r is None
                },
                SelectionView::Comparison => r is None,
            },
    {
        match &self.location.selection {
            Selection::Occurrence(selected) => {
                if str_eq(selected.as_str(), self.comparison.left.occurrence_id.as_str()) {
                    Some(&self.comparison.right)
                } else if str_eq(selected.as_str(), self.comparison.right.occurrence_id.as_str()) {
                    Some(&self.comparison.left)
                } else {
                    None
                }
            },
            Selection::Comparison => None,
        }
    }

    pub fn location(&self) -> (r: &PracticeLocation)
        ensures
            location_view(*r) == self@.location,
    {
        &self.location
    }

    pub fn history(&self) -> (r: &[HistoryEntry])
        ensures
            history_view(r@) == self@.history,
    {
        self.history.as_slice()
    }

    pub fn runtime(&self) -> (r: &PracticeRuntimeConfig)
        ensures
            runtime_view(*r) == self@.runtime,
    {
        &self.runtime
    }

    /// Replace host-owned runtime settings after the host has resolved them.
    /// This creates no navigation entry and leaves the source alone.
    pub fn set_runtime(&mut self, runtime: PracticeRuntimeConfig) -> (r: Result<
        PracticeOutcome,
        WorkspaceError,
    >)
        requires
            old(self).wf(),
        ensures
            final(self).wf(),
            final(self).source_spec() == old(self).source_spec(),
            final(self).comparison_spec() == old(self).comparison_spec(),
            match config_check(runtime_view(runtime), old(self)@.history_limit) {
                Some(e) => r matches Err(err) && workspace_error_view(err) == e && final(self)@
                    == old(self)@,
                None => if runtime_view(runtime) == old(self)@.runtime {
                    r == Ok::<PracticeOutcome, WorkspaceError>(PracticeOutcome::Unchanged)
                        && final(self)@ == old(self)@
                } else {
                    r == Ok::<PracticeOutcome, WorkspaceError>(PracticeOutcome::Changed)
                        && final(self)@ == (WorkspaceView {
                        runtime: runtime_view(runtime),
                        ..old(self)@
                    })
                },
            },
    {
        match validate_config(&runtime, self.history_limit) {
            Err(e) => return Err(e),
            Ok(()) => {},
        }
        if runtime_eq(&self.runtime, &runtime) {
            return Ok(PracticeOutcome::Unchanged);
        }
        self.runtime = runtime;
        Ok(PracticeOutcome::Changed)
    }

    /// The durable payload for this workspace.
    pub fn snapshot(&self) -> (r: PracticeWorkspaceSnapshot)
        ensures
            snapshot_view(r) == snapshot_of(self@, self.source_spec(), self.comparison_spec()),
    {
        PracticeWorkspaceSnapshot {
            version: PRACTICE_WORKSPACE_VERSION,
            source: self.source.fingerprint(),
            comparison_evidence: self.comparison.canonical_evidence(),
            location: self.location.clone(),
            history: clone_history(&self.history),
            next_history_id: self.next_history_id,
            runtime: self.runtime.clone(),
        }
    }
}

} // verus!

verus! {

impl PracticeWorkspace {
    /// Reopen a saved workspace against the current source and comparison.
    pub fn reopen(
        snapshot: PracticeWorkspaceSnapshot,
        source: PracticeSource,
        comparison: ComparisonRecord,
        history_limit: usize,
    ) -> (r: Result<Self, SnapshotError>)
        ensures
            match r {
                Ok(w) => {
                    &&& reopen_check(snapshot_view(snapshot), source, comparison, history_limit)
                        is None
                    &&& w.wf()
                    &&& w@ == reopened(snapshot_view(snapshot), history_limit)
                    &&& w.source_spec() == source
                    &&& w.comparison_spec() == comparison
                },
                Err(e) => reopen_check(snapshot_view(snapshot), source, comparison, history_limit)
                    == Some(snapshot_error_view(e)),
            },
    {
        let ghost sv = snapshot_view(snapshot);
        if snapshot.version != PRACTICE_WORKSPACE_VERSION {
            return Err(SnapshotError::UnsupportedVersion(snapshot.version));
        }
        if history_limit == 0 {
            return Err(SnapshotError::ZeroHistoryLimit);
        }
        if !binding_eq(&snapshot.source.binding, &source.binding) {
            return Err(SnapshotError::SourceBindingMismatch);
        }
        if !str_eq(snapshot.source.revision.as_str(), source.revision.as_str()) {
            return Err(SnapshotError::SourceRevisionMismatch);
        }
        if snapshot.history.len() > history_limit {
            return Err(
                SnapshotError::TooManyHistoryEntries {
                    limit: history_limit,
                    actual: snapshot.history.len(),
                },
            );
        }
        if is_blank(snapshot.runtime.layout_id.as_str()) {
            return Err(SnapshotError::EmptyLayoutId);
        }
        match comparison.validate_against(&source) {
            Err(e) => return Err(SnapshotError::Comparison(e)),
            Ok(()) => {},
        }
        let evidence = comparison.canonical_evidence();
        if !str_eq(snapshot.comparison_evidence.as_str(), evidence.as_str()) {
            return Err(SnapshotError::ComparisonEvidenceMismatch);
        }
        match validate_location(&snapshot.location, &source) {
            Err(e) => return Err(e),
            Ok(()) => {},
        }
        let ghost hv = history_view(snapshot.history@);
        let ghost tail_check: Option<SnapshotErrorView> = if hv.len() > 0 && sv.next_history_id
            <= hv.last().0 {
            Some(SnapshotErrorView::InvalidNextHistoryId)
        } else {
            None
        };
        assert(reopen_check(sv, source, comparison, history_limit) == if scan_history(
            hv,
            None,
            source,
        ) is Some {
            scan_history(hv, None, source)
        } else {
            tail_check
        });
        let mut previous: Option<u64> = None;
        let mut i: usize = 0;
        proof {
            assert(hv.skip(0) =~= hv);
        }
        while i < snapshot.history.len()
            invariant
                i <= snapshot.history@.len(),
                hv == history_view(snapshot.history@),
                hv.len() == snapshot.history@.len(),
                scan_history(hv, None, source) == scan_history(hv.skip(i as int), previous, source),
                i == 0 ==> previous is None,
                i > 0 ==> previous == Some(hv[i - 1].0),
                sv == snapshot_view(snapshot),
                reopen_check(sv, source, comparison, history_limit) == if scan_history(
                    hv,
                    None,
                    source,
                ) is Some {
                    scan_history(hv, None, source)
                } else {
                    tail_check
                },
            decreases snapshot.history@.len() - i,
        {
            let entry = &snapshot.history[i];
            proof {
                assert(hv.skip(i as int)[0] == hv[i as int]);
            }
            match previous {
                Some(id) => {
                    if entry.id <= id {
                        return Err(SnapshotError::InvalidHistoryOrder);
                    }
                },
                None => {},
            }
            match validate_location(&entry.location, &source) {
                Err(e) => return Err(e),
                Ok(()) => {},
            }
            proof {
                assert(hv.skip(i as int).drop_first() =~= hv.skip(i as int + 1));
            }
            previous = Some(entry.id);
            i = i + 1;
        }
        proof {
            assert(hv.skip(hv.len() as int) =~= Seq::<(u64, LocationView)>::empty());
        }
        match previous {
            Some(id) => {
                if snapshot.next_history_id <= id {
                    return Err(SnapshotError::InvalidNextHistoryId);
                }
            },
            None => {},
        }
        proof {
            lemma_scan_ok(hv, None, source);
            if hv.len() > 0 {
                assert(hv.last() == hv[hv.len() - 1]);
                assert forall|q: int| 0 <= q < hv.len() implies #[trigger] hv[q].0
                    < sv.next_history_id by {
                    if q < hv.len() - 1 {
                        assert(hv[q].0 < hv[hv.len() - 1].0);
                    }
                }
            }
        }
        let w = PracticeWorkspace {
            source,
            comparison,
            location: snapshot.location,
            history: snapshot.history,
            next_history_id: snapshot.next_history_id,
            history_limit,
            runtime: snapshot.runtime,
        };
        Ok(w)
    }

    /// Move to `next`, recording where the workspace was.
    fn move_to(&mut self, next: PracticeLocation) -> (r: Result<PracticeOutcome, ReduceError>)
        requires
            old(self).wf(),
            selectable(location_view(next).selection, old(self).source_spec()),
        ensures
            final(self).wf(),
            final(self).source_spec() == old(self).source_spec(),
            final(self).comparison_spec() == old(self).comparison_spec(),
            (final(self)@, reduce_result_view(r)) == move_spec(old(self)@, location_view(next)),
    {
        if location_eq(&self.location, &next) {
            return Ok(PracticeOutcome::Unchanged);
        }
        let id = self.next_history_id;
        match id.checked_add(1) {
            None => return Err(ReduceError::HistoryIdExhausted),
            Some(n) => {
                self.next_history_id = n;
            },
        }
        let ghost w0 = old(self)@;
        let mut previous = next;
        std::mem::swap(&mut previous, &mut self.location);
        let ghost h0 = self.history@;
        self.history.push(HistoryEntry { id, location: previous });
        proof {
            assert(history_view(self.history@) =~= w0.history.push((id, w0.location)));
        }
        if self.history.len() > self.history_limit {
            let ghost h1 = self.history@;
            self.history.remove(0);
            proof {
                assert(history_view(self.history@) =~= history_view(h1).drop_first());
            }
        }
        proof {
            let h = self@.history;
            assert(ids_increasing(h)) by {
                assert forall|a: int, b: int| 0 <= a < b < h.len() implies #[trigger] h[a].0
                    < #[trigger] h[b].0 by {
                    let pushed = w0.history.push((id, w0.location));
                    if h.len() < pushed.len() {
                        assert(h[a] == pushed[a + 1]);
                        assert(h[b] == pushed[b + 1]);
                        if b + 1 < w0.history.len() {
                            assert(w0.history[a + 1].0 < w0.history[b + 1].0);
                        }
                    } else {
                        assert(h[a] == pushed[a]);
                        assert(h[b] == pushed[b]);
                        if b < w0.history.len() {
                            assert(w0.history[a].0 < w0.history[b].0);
                        }
                    }
                }
            }
            assert forall|q: int| 0 <= q < h.len() implies #[trigger] h[q].0
                < self@.next_history_id by {
                let pushed = w0.history.push((id, w0.location));
                if h.len() < pushed.len() {
                    assert(h[q] == pushed[q + 1]);
                } else {
                    assert(h[q] == pushed[q]);
                }
            }
            assert(all_selectable(h, self.source)) by {
                assert forall|q: int| 0 <= q < h.len() implies selectable(
                    #[trigger] h[q].1.selection,
                    self.source,
                ) by {
                    let pushed = w0.history.push((id, w0.location));
                    if h.len() < pushed.len() {
                        assert(h[q] == pushed[q + 1]);
                    } else {
                        assert(h[q] == pushed[q]);
                    }
                }
            }
        }
        Ok(PracticeOutcome::Changed)
    }

    /// Apply one host gesture.
    pub fn reduce(&mut self, action: PracticeAction) -> (r: Result<PracticeOutcome, ReduceError>)
        requires
            old(self).wf(),
        ensures
            final(self).wf(),
            final(self).source_spec() == old(self).source_spec(),
            final(self).comparison_spec() == old(self).comparison_spec(),
            (final(self)@, reduce_result_view(r)) == reduce_spec(
                old(self)@,
                old(self).source_spec(),
                action_view(action),
            ),
    {
        match action {
            PracticeAction::Select(selection) => {
                match &selection {
                    Selection::Occurrence(id) => {
                        if !self.source.contains(id.as_str()) {
                            return Err(ReduceError::UnknownOccurrence(id.clone()));
                        }
                    },
                    Selection::Comparison => {},
                }
                let next = PracticeLocation { view: self.location.view, selection };
                self.move_to(next)
            },
            PracticeAction::SelectView(view) => {
                let next = PracticeLocation { view, selection: self.location.selection.clone() };
                self.move_to(next)
            },
            PracticeAction::ReturnTo(id) => {
                let ghost h = self@.history;
                let mut i: usize = 0;
                while i < self.history.len() && self.history[i].id != id
                    invariant
                        i <= self.history@.len(),
                        h == history_view(self.history@),
                        forall|q: int| 0 <= q < i ==> (#[trigger] h[q]).0 != id,
                    decreases self.history@.len() - i,
                {
                    i = i + 1;
                }
                proof {
                    lemma_find_entry(h, id, i as int);
                }
                if i == self.history.len() {
                    return Err(ReduceError::UnknownHistoryEntry(id));
                }
                if location_eq(&self.location, &self.history[i].location) {
                    Ok(PracticeOutcome::Unchanged)
                } else {
                    proof {
                        assert(selectable(h[i as int].1.selection, self.source));
                    }
                    self.location = self.history[i].location.clone();
                    Ok(PracticeOutcome::Changed)
                }
            },
        }
    }
}

} // verus!

verus! {

/// Saving a consistent workspace and reopening it against the same source,
/// comparison and history bound succeeds and restores its location,
/// history, next identifier and runtime exactly.
pub proof fn lemma_snapshot_reopens(
    w: WorkspaceView,
    source: PracticeSource,
    comparison: ComparisonRecord,
)
    requires
        workspace_ok(w, source, comparison),
    ensures
        reopen_check(snapshot_of(w, source, comparison), source, comparison, w.history_limit)
            is None,
        reopened(snapshot_of(w, source, comparison), w.history_limit) == w,
{
    lemma_scan_ok(w.history, None, source);
    if w.history.len() > 0 {
        assert(w.history.last().0 < w.next_history_id);
    }
}

/// A refused action or one that changes nothing leaves the workspace exactly
/// as it was.
pub proof fn lemma_refused_or_unchanged_is_identity(
    w: WorkspaceView,
    source: PracticeSource,
    a: ActionView,
)
    ensures
        reduce_spec(w, source, a).1 is Err ==> reduce_spec(w, source, a).0 == w,
        reduce_spec(w, source, a).1 == Ok::<PracticeOutcome, ReduceErrorView>(
            PracticeOutcome::Unchanged,
        ) ==> reduce_spec(w, source, a).0 == w,
        reduce_spec(w, source, a).1 == Ok::<PracticeOutcome, ReduceErrorView>(
            PracticeOutcome::Changed,
        ) ==> reduce_spec(w, source, a).0.location != w.location,
{
}

/// After a selection moves a consistent workspace, returning to the entry it
/// just recorded restores the location it left.
pub proof fn lemma_return_restores(
    w: WorkspaceView,
    source: PracticeSource,
    comparison: ComparisonRecord,
    a: ActionView,
)
    requires
        workspace_ok(w, source, comparison),
        !(a is ReturnTo),
        reduce_spec(w, source, a).1 == Ok::<PracticeOutcome, ReduceErrorView>(
            PracticeOutcome::Changed,
        ),
    ensures
        ({
            let w1 = reduce_spec(w, source, a).0;
            reduce_spec(w1, source, ActionView::ReturnTo(w.next_history_id)).0.location
                == w.location
        }),
{
    let w1 = reduce_spec(w, source, a).0;
    let h = w1.history;
    let pushed = w.history.push((w.next_history_id, w.location));
    assert(h.len() >= 1);
    assert(h[h.len() - 1] == (w.next_history_id, w.location));
    assert forall|q: int| 0 <= q < h.len() - 1 implies (#[trigger] h[q]).0 != w.next_history_id by {
        if h.len() < pushed.len() {
            assert(h[q] == pushed[q + 1]);
            assert(pushed[q + 1].0 < w.next_history_id);
        } else {
            assert(h[q] == pushed[q]);
            assert(pushed[q].0 < w.next_history_id);
        }
    }
    lemma_find_entry(h, w.next_history_id, h.len() - 1);
}

} // verus!

verus! {

impl Clone for PracticeWorkspaceSnapshot {
    fn clone(&self) -> (r: Self)
        ensures
            snapshot_view(r) == snapshot_view(*self),
    {
        PracticeWorkspaceSnapshot {
            version: self.version,
            source: self.source.clone(),
            comparison_evidence: self.comparison_evidence.clone(),
            location: self.location.clone(),
            history: clone_history(&self.history),
            next_history_id: self.next_history_id,
            runtime: self.runtime.clone(),
        }
    }
}

impl Clone for ComparisonSubject {
    fn clone(&self) -> (r: Self)
        ensures
            subject_json(r) == subject_json(*self),
            r.occurrence_id@ == self.occurrence_id@,
    {
        let mut disclosed: Vec<(String, JsonValue)> = Vec::new();
        push_disclosed(&mut disclosed, &self.disclosed);
        assert(pair_views(disclosed@) =~= pair_views(self.disclosed@));
        let r = ComparisonSubject {
            occurrence_id: self.occurrence_id.clone(),
            source: self.source.clone(),
            label: self.label.clone(),
            disclosed,
        };
        assert(pair_views(r.disclosed@) == pair_views(self.disclosed@));
        r
    }
}

impl Clone for ComparisonRecord {
    fn clone(&self) -> (r: Self)
        ensures
            record_json(r) == record_json(*self),
            relation_key_bytes(r) == relation_key_bytes(*self),
            same_comparison(r, *self),
    {
        let mut disclosed: Vec<(String, JsonValue)> = Vec::new();
        push_disclosed(&mut disclosed, &self.disclosed);
        assert(pair_views(disclosed@) =~= pair_views(self.disclosed@));
        ComparisonRecord {
            source: self.source.clone(),
            revision: self.revision.clone(),
            method: self.method.clone(),
            left: self.left.clone(),
            right: self.right.clone(),
            result: self.result.clone(),
            disclosed,
        }
    }
}

/// Two comparisons agree in everything reopening a workspace checks.
pub open spec fn same_comparison(a: ComparisonRecord, b: ComparisonRecord) -> bool {
    &&& binding_view(a.source) == binding_view(b.source)
    &&& a.revision@ == b.revision@
    &&& a.method.id@ == b.method.id@
    &&& a.left.occurrence_id@ == b.left.occurrence_id@
    &&& a.right.occurrence_id@ == b.right.occurrence_id@
    &&& record_json(a) == record_json(b)
}

/// Two sources agree in everything reopening a workspace checks.
pub open spec fn same_source(a: PracticeSource, b: PracticeSource) -> bool {
    &&& binding_view(a.binding) == binding_view(b.binding)
    &&& a.revision@ == b.revision@
    &&& occurrence_set(a) == occurrence_set(b)
}

proof fn lemma_scan_same_source(h: Seq<(u64, LocationView)>, prev: Option<u64>, a: PracticeSource, b: PracticeSource)
    requires
        same_source(a, b),
    ensures
        scan_history(h, prev, a) == scan_history(h, prev, b),
    decreases h.len(),
{
    if h.len() > 0 {
        lemma_scan_same_source(h.drop_first(), Some(h[0].0), a, b);
    }
}

/// Save and reopen, end to end: a consistent workspace's snapshot, reopened
/// with its own history bound against a source and a comparison that agree
/// with its own in everything reopening reads (as their clones do), is
/// accepted and restores the workspace's location, history, next
/// identifier and runtime exactly.
pub proof fn lemma_saved_workspace_reopens(
    w: PracticeWorkspace,
    snapshot: PracticeWorkspaceSnapshot,
    source: PracticeSource,
    comparison: ComparisonRecord,
)
    requires
        w.wf(),
        snapshot_view(snapshot) == snapshot_of(w@, w.source_spec(), w.comparison_spec()),
        same_source(source, w.source_spec()),
        same_comparison(comparison, w.comparison_spec()),
    ensures
        reopen_check(snapshot_view(snapshot), source, comparison, w@.history_limit) is None,
        reopened(snapshot_view(snapshot), w@.history_limit) == w@,
{
    lemma_snapshot_reopens(w@, w.source_spec(), w.comparison_spec());
    lemma_scan_same_source(snapshot_view(snapshot).history, None, source, w.source_spec());
}

} // verus!
