//! The parts of compiling a projection that read no geometry: whether a
//! saved definition can execute against one resolved dataset (its source,
//! its reading, the fields it binds and the arrangement it asks for), and
//! the generation that identifies that dataset.

use vstd::prelude::*;

use crate::practice_workspace::{fnv, fnv_zterm, lemma_fnv_concat, zterm, FNV_OFFSET};
use crate::sorted::string_views;
use crate::text::{chars_of, compare_chars, is_blank, lemma_seq_lt_transitive, lemma_seq_lt_trichotomy, push_str, seq_lt, str_eq, trim};

verus! {

/// The type a product disclosed for a field in one resolved dataset.
#[derive(Clone, Copy, Debug, PartialEq, Eq, Structural)]
pub enum ProjectionFieldType {
    Text,
    Number,
    Boolean,
}

/// Field-specific compiler feedback suitable for the authoring host.
#[derive(Clone, Debug, PartialEq, Eq)]
pub struct CompileIssue {
    pub field: String,
    pub message: String,
}

impl CompileIssue {
    /// An issue about `field`.
    pub fn new(field: &str, message: &str) -> (r: Self)
        ensures
            r.field@ == field@,
            r.message@ == message@,
    {
        CompileIssue { field: field.to_owned(), message: message.to_owned() }
    }
}

/// The type the dataset discloses for `field`: its last declaration.
pub open spec fn disclosed_type(fields: Seq<(String, ProjectionFieldType)>, field: Seq<char>) -> Option<
    ProjectionFieldType,
>
    decreases fields.len(),
{
    if fields.len() == 0 {
        None
    } else if fields.last().0@ == field {
        Some(fields.last().1)
    } else {
        disclosed_type(fields.drop_last(), field)
    }
}

/// What binding `target` to `field` with the `expected` type costs: nothing
/// when the dataset discloses the field with that type, else an issue on
/// `target` saying which of the two is wrong.
pub fn field_issue(
    fields: &Vec<(String, ProjectionFieldType)>,
    target: &str,
    field: &str,
    expected: ProjectionFieldType,
) -> (r: Option<CompileIssue>)
    ensures
        match disclosed_type(fields@, field@) {
            Some(actual) => if actual == expected {
                r is None
            } else {
                r matches Some(i) && i.field@ == target@ && i.message@
                    == "field has an incompatible type"@
            },
            None => r matches Some(i) && i.field@ == target@ && i.message@
                == "field is not disclosed by this dataset"@,
        },
{
    let mut i: usize = fields.len();
    assert(fields@.subrange(0, i as int) =~= fields@);
    while i > 0
        invariant
            i <= fields@.len(),
            disclosed_type(fields@, field@) == disclosed_type(fields@.subrange(0, i as int), field@),
        decreases i,
    {
        let ghost w = fields@.subrange(0, i as int);
        assert(w.drop_last() =~= fields@.subrange(0, i - 1));
        assert(w.last() == fields@[i - 1]);
        if str_eq(fields[i - 1].0.as_str(), field) {
            if fields[i - 1].1 == expected {
                return None;
            } else {
                return Some(CompileIssue::new(target, "field has an incompatible type"));
            }
        }
        i = i - 1;
    }
    Some(CompileIssue::new(target, "field is not disclosed by this dataset"))
}

/// Nondecreasing in character order.
pub open spec fn ascending(s: Seq<Seq<char>>) -> bool {
    forall|i: int, j: int| 0 <= i < j < s.len() ==> !seq_lt(#[trigger] s[j], #[trigger] s[i])
}

/// Each string's UTF-8 bytes and a zero terminator, one after another.
pub open spec fn zterms(s: Seq<Seq<char>>) -> Seq<u8>
    decreases s.len(),
{
    if s.len() == 0 {
        Seq::empty()
    } else {
        zterms(s.drop_last()) + zterm(s.last())
    }
}

/// The generation of a dataset at `revision` whose occurrence ids, in
/// ascending order, are `sorted`: FNV-1a over the revision and each id,
/// each zero-terminated.
pub open spec fn generation_of(revision: Seq<char>, sorted: Seq<Seq<char>>) -> u64 {
    fnv(FNV_OFFSET, zterm(revision) + zterms(sorted))
}

proof fn lemma_le_transitive(a: Seq<char>, b: Seq<char>, c: Seq<char>)
    requires
        !seq_lt(b, a),
        !seq_lt(c, b),
    ensures
        !seq_lt(c, a),
{
    lemma_seq_lt_trichotomy(a, b);
    lemma_seq_lt_trichotomy(b, c);
    lemma_seq_lt_trichotomy(a, c);
    if seq_lt(c, a) {
        if a != b && b != c {
            lemma_seq_lt_transitive(a, b, c);
        }
    }
}

/// Put `x` into the nondecreasing `v`, before the first string not below it.
fn insert_ascending(v: &mut Vec<String>, x: String)
    requires
        ascending(string_views(old(v)@)),
    ensures
        ascending(string_views(final(v)@)),
        string_views(final(v)@).to_multiset() == string_views(old(v)@).to_multiset().insert(x@),
{
    let ghost s = string_views(v@);
    let xc = chars_of(x.as_str());
    let mut p: usize = 0;
    let mut stop = false;
    while p < v.len() && !stop
        invariant
            p <= s.len(),
            string_views(v@) == s,
            ascending(s),
            xc@ == x@,
            forall|q: int| 0 <= q < p ==> seq_lt(#[trigger] s[q], x@),
            stop ==> p < s.len() && !seq_lt(s[p as int], x@),
        decreases s.len() - p + (if stop { 0int } else { 1int }),
    {
        let c = chars_of(v[p].as_str());
        if compare_chars(&c, &xc) < 0 {
            p = p + 1;
        } else {
            stop = true;
        }
    }
    let ghost xv = x@;
    v.insert(p, x);
    proof {
        let n = string_views(v@);
        assert(n =~= s.insert(p as int, xv));
        vstd::seq_lib::to_multiset_insert(s, p as int, xv);
        assert forall|i: int, j: int| 0 <= i < j < n.len() implies !seq_lt(#[trigger] n[j], #[trigger] n[i]) by {
            if j < p {
            } else if j == p {
                lemma_seq_lt_trichotomy(s[i], xv);
            } else if i < p {
                lemma_seq_lt_trichotomy(s[i], xv);
                if j - 1 > p {
                    lemma_le_transitive(xv, s[p as int], s[j - 1]);
                }
                lemma_le_transitive(s[i], xv, s[j - 1]);
            } else if i == p {
                if j - 1 > p {
                    lemma_le_transitive(xv, s[p as int], s[j - 1]);
                }
            } else {
                assert(!seq_lt(s[j - 1], s[i - 1]));
            }
        }
    }
}

/// The generation that identifies one resolved dataset: FNV-1a over its
/// revision and its occurrence ids in ascending order, each
/// zero-terminated. It depends on which ids the dataset holds, not on the
/// order it lists them in.
pub fn stable_generation(revision: &str, occurrence_ids: &Vec<String>) -> (r: u64)
    ensures
        exists|sorted: Seq<Seq<char>>|
            ascending(sorted) && sorted.to_multiset() == string_views(occurrence_ids@).to_multiset()
                && r == generation_of(revision@, sorted),
{
    let mut sorted: Vec<String> = Vec::new();
    let mut i: usize = 0;
    assert(string_views(occurrence_ids@).subrange(0, 0) =~= Seq::<Seq<char>>::empty());
    proof {
        assert(string_views(sorted@) =~= string_views(occurrence_ids@).subrange(0, 0));
    }
    while i < occurrence_ids.len()
        invariant
            i <= occurrence_ids@.len(),
            ascending(string_views(sorted@)),
            string_views(sorted@).to_multiset() == string_views(occurrence_ids@).subrange(
                0,
                i as int,
            ).to_multiset(),
        decreases occurrence_ids@.len() - i,
    {
        insert_ascending(&mut sorted, occurrence_ids[i].clone());
        proof {
            let all = string_views(occurrence_ids@);
            assert(all.subrange(0, i + 1) =~= all.subrange(0, i as int).push(occurrence_ids@[i as int]@));
            vstd::seq_lib::to_multiset_build(all.subrange(0, i as int), occurrence_ids@[i as int]@);
        }
        i = i + 1;
    }
    assert(string_views(occurrence_ids@).subrange(0, occurrence_ids@.len() as int) =~= string_views(
        occurrence_ids@,
    ));
    let ghost sv = string_views(sorted@);
    let mut h = fnv_zterm(FNV_OFFSET, revision);
    let mut k: usize = 0;
    assert(zterms(sv.subrange(0, 0)) =~= Seq::<u8>::empty());
    assert(zterm(revision@) + zterms(sv.subrange(0, 0)) =~= zterm(revision@));
    while k < sorted.len()
        invariant
            k <= sorted@.len(),
            sv == string_views(sorted@),
            h == fnv(FNV_OFFSET, zterm(revision@) + zterms(sv.subrange(0, k as int))),
        decreases sorted@.len() - k,
    {
        let ghost before = zterm(revision@) + zterms(sv.subrange(0, k as int));
        h = fnv_zterm(h, sorted[k].as_str());
        proof {
            lemma_fnv_concat(FNV_OFFSET, before, zterm(sv[k as int]));
            assert(sv.subrange(0, k + 1).drop_last() =~= sv.subrange(0, k as int));
            assert(sv.subrange(0, k + 1).last() == sv[k as int]);
            assert(before + zterm(sv[k as int]) =~= zterm(revision@) + zterms(sv.subrange(0, k + 1)));
        }
        k = k + 1;
    }
    assert(sv.subrange(0, sv.len() as int) =~= sv);
    h
}

/// Two nondecreasing sequences holding the same strings, counted with
/// multiplicity, are the same sequence.
proof fn lemma_ascending_unique(x: Seq<Seq<char>>, y: Seq<Seq<char>>)
    requires
        ascending(x),
        ascending(y),
        x.to_multiset() == y.to_multiset(),
    ensures
        x == y,
    decreases x.len(),
{
    broadcast use vstd::seq_lib::group_to_multiset_ensures;

    if x.len() == 0 {
        assert(y.len() == 0);
        assert(x =~= y);
    } else {
        vstd::seq_lib::to_multiset_len(x);
        vstd::seq_lib::to_multiset_len(y);
        assert(y.len() == x.len());
        assert(x.contains(x[0]));
        assert(y.contains(y[0]));
        vstd::seq_lib::to_multiset_contains(x, x[0]);
        vstd::seq_lib::to_multiset_contains(y, x[0]);
        vstd::seq_lib::to_multiset_contains(y, y[0]);
        vstd::seq_lib::to_multiset_contains(x, y[0]);
        assert(y.contains(x[0]));
        assert(x.contains(y[0]));
        let j = choose|j: int| 0 <= j < y.len() && y[j] == x[0];
        let i = choose|i: int| 0 <= i < x.len() && x[i] == y[0];
        assert(!seq_lt(x[i], x[0])) by {
            if i > 0 {
                assert(!seq_lt(x[i], x[0]));
            } else {
                lemma_seq_lt_trichotomy(x[0], x[0]);
            }
        }
        assert(!seq_lt(y[j], y[0])) by {
            if j > 0 {
                assert(!seq_lt(y[j], y[0]));
            } else {
                lemma_seq_lt_trichotomy(y[0], y[0]);
            }
        }
        lemma_seq_lt_trichotomy(x[0], y[0]);
        assert(x[0] == y[0]);
        assert(x.remove(0) =~= x.drop_first());
        assert(y.remove(0) =~= y.drop_first());
        vstd::seq_lib::to_multiset_remove(x, 0);
        vstd::seq_lib::to_multiset_remove(y, 0);
        assert(ascending(x.drop_first())) by {
            assert forall|a: int, b: int| 0 <= a < b < x.drop_first().len() implies !seq_lt(
                #[trigger] x.drop_first()[b],
                #[trigger] x.drop_first()[a],
            ) by {
                assert(!seq_lt(x[b + 1], x[a + 1]));
            }
        }
        assert(ascending(y.drop_first())) by {
            assert forall|a: int, b: int| 0 <= a < b < y.drop_first().len() implies !seq_lt(
                #[trigger] y.drop_first()[b],
                #[trigger] y.drop_first()[a],
            ) by {
                assert(!seq_lt(y[b + 1], y[a + 1]));
            }
        }
        lemma_ascending_unique(x.drop_first(), y.drop_first());
        assert(x =~= seq![x[0]] + x.drop_first());
        assert(y =~= seq![y[0]] + y.drop_first());
    }
}

/// A dataset's generation does not depend on the order its occurrence ids
/// are listed in: any two orderings of the same ids, sorted, give the same
/// generation.
pub proof fn lemma_generation_ignores_order(revision: Seq<char>, x: Seq<Seq<char>>, y: Seq<Seq<char>>)
    requires
        ascending(x),
        ascending(y),
        x.to_multiset() == y.to_multiset(),
    ensures
        generation_of(revision, x) == generation_of(revision, y),
{
    lemma_ascending_unique(x, y);
}

/// The complete save/reopen payload: the definition a host saved, and the
/// occurrence that was selected when it did.
#[derive(Clone, Debug, PartialEq)]
pub struct ProjectionSnapshot<D> {
    pub definition: D,
    pub selected_occurrence: Option<String>,
}

/// Whether some id in `ids` is `id`.
pub open spec fn lists_occurrence(ids: Seq<String>, id: Seq<char>) -> bool {
    exists|i: int| 0 <= i < ids.len() && #[trigger] ids[i]@ == id
}

impl<D> ProjectionSnapshot<D> {
    /// What reopening this snapshot against a dataset holding `occurrence_ids`
    /// costs: nothing when no occurrence was selected or the selected one is
    /// still there, else an issue on `selected_occurrence`. A selection is
    /// restored only when that exact occurrence still exists.
    pub fn stale_selection(&self, occurrence_ids: &Vec<String>) -> (r: Option<CompileIssue>)
        ensures
            match self.selected_occurrence {
                Some(id) => if lists_occurrence(occurrence_ids@, id@) {
                    r is None
                } else {
                    r matches Some(i) && i.field@ == "selected_occurrence"@ && i.message@
                        == "the saved selected occurrence is absent from this dataset revision"@
                },
                None => r is None,
            },
    {
        match &self.selected_occurrence {
            None => None,
            Some(id) => {
                let mut i: usize = 0;
                while i < occurrence_ids.len()
                    invariant
                        i <= occurrence_ids@.len(),
                        self.selected_occurrence == Some(*id),
                        forall|k: int| 0 <= k < i ==> #[trigger] occurrence_ids@[k]@ != id@,
                    decreases occurrence_ids@.len() - i,
                {
                    if str_eq(occurrence_ids[i].as_str(), id.as_str()) {
                        assert(occurrence_ids@[i as int]@ == id@);
                        return None;
                    }
                    i = i + 1;
                }
                Some(
                    CompileIssue::new(
                        "selected_occurrence",
                        "the saved selected occurrence is absent from this dataset revision",
                    ),
                )
            },
        }
    }
}

/// The two arrangement ids this compiler executes.
pub const GRID_ARRANGEMENT_ID: &'static str = "grid.default";

pub const SCATTER_ARRANGEMENT_ID: &'static str = "scatter.default";

/// The only arrangement direction this compiler executes.
pub const COORDINATES_DIRECTION: &'static str = "coordinates";

/// The only reading this compiler executes.
pub const NODES_READING_ID: &'static str = "nodes";

/// How a definition binds one visual channel: to a disclosed field, or to a
/// constant.
#[derive(Clone, Debug, PartialEq)]
pub enum ChannelBinding {
    Field(String),
    Constant,
}

/// What the compiler reads of a saved definition.
#[derive(Clone, Debug)]
pub struct DefinitionFacts {
    /// The source the definition was authored against.
    pub authority: String,
    pub domain: String,
    pub resource: String,
    /// The dataset revision its provenance names, if any.
    pub source_revision: Option<String>,
    pub reading_kind: String,
    pub reading_key: String,
    /// Whether the reading asks for a value aggregation.
    pub aggregates_value: bool,
    pub x: ChannelBinding,
    pub y: ChannelBinding,
    pub label: Option<ChannelBinding>,
    /// Whether the definition encodes color.
    pub colored: bool,
    pub arrangement_kind: String,
    pub arrangement_direction: String,
    /// How many arrangement options the definition sets.
    pub arrangement_options: usize,
    pub single_selection: bool,
    pub pan: bool,
    pub zoom: bool,
    pub realization: String,
    pub theme: String,
}

/// What the compiler reads of a resolved dataset's disclosure.
#[derive(Clone, Debug)]
pub struct DatasetFacts {
    pub authority: String,
    pub domain: String,
    pub resource: String,
    pub revision: String,
    /// Each disclosed field with its type.
    pub fields: Vec<(String, ProjectionFieldType)>,
}

/// An issue as the pair of its field and its message.
pub open spec fn issue_view(i: CompileIssue) -> (Seq<char>, Seq<char>) {
    (i.field@, i.message@)
}

pub open spec fn issue_views(s: Seq<CompileIssue>) -> Seq<(Seq<char>, Seq<char>)> {
    s.map_values(|i: CompileIssue| issue_view(i))
}

/// One issue when `c` holds, else none.
pub open spec fn issue_if(c: bool, field: Seq<char>, message: Seq<char>) -> Seq<
    (Seq<char>, Seq<char>),
> {
    if c {
        seq![(field, message)]
    } else {
        Seq::empty()
    }
}

/// The issue binding `target` to `field` with the `expected` type raises.
pub open spec fn field_issues(
    fields: Seq<(String, ProjectionFieldType)>,
    target: Seq<char>,
    field: Seq<char>,
    expected: ProjectionFieldType,
) -> Seq<(Seq<char>, Seq<char>)> {
    match disclosed_type(fields, field) {
        Some(actual) => issue_if(actual != expected, target, "field has an incompatible type"@),
        None => seq![(target, "field is not disclosed by this dataset"@)],
    }
}

/// The issue binding `target` to a channel raises: a constant cannot
/// execute, a field must be disclosed with the `expected` type.
pub open spec fn channel_issues(
    fields: Seq<(String, ProjectionFieldType)>,
    target: Seq<char>,
    channel: ChannelBinding,
    expected: ProjectionFieldType,
) -> Seq<(Seq<char>, Seq<char>)> {
    match channel {
        ChannelBinding::Field(f) => field_issues(fields, target, f@, expected),
        ChannelBinding::Constant => seq![
            (target, "constants are not executable for this channel"@),
        ],
    }
}

/// The checks that the definition was authored against this dataset, in
/// order.
pub open spec fn source_issues(d: DefinitionFacts, data: DatasetFacts) -> Seq<(Seq<char>, Seq<char>)> {
    let mismatch = "definition does not match the resolved dataset"@;
    issue_if(d.authority@ != data.authority@, "source.authority"@, mismatch)
        + issue_if(d.domain@ != data.domain@, "source.domain"@, mismatch)
        + issue_if(d.resource@ != data.resource@, "source.resource"@, mismatch)
        + issue_if(
        !(d.source_revision matches Some(r) && r@ == data.revision@),
        "provenance.source_revision"@,
        mismatch,
    )
}

/// The reading, interaction and appearance checks, in order.
pub open spec fn form_issues(d: DefinitionFacts) -> Seq<(Seq<char>, Seq<char>)> {
    issue_if(d.aggregates_value, "reading.value"@, "nodes does not accept a value aggregation"@)
        + issue_if(
        !d.single_selection || d.pan || d.zoom,
        "interaction"@,
        "this realization supports single selection with a fitted viewport"@,
    ) + issue_if(
        d.realization@ != "canvas"@,
        "appearance.realization"@,
        "supported realization is canvas"@,
    ) + issue_if(d.theme@ != "slate"@, "appearance.theme"@, "supported theme is slate"@)
        + issue_if(
        d.reading_kind@ != NODES_READING_ID@,
        "reading.kind"@,
        "only the nodes reading is executable in this compiler"@,
    )
}

/// The checks on the fields the definition binds, in order.
pub open spec fn binding_issues(d: DefinitionFacts, data: DatasetFacts) -> Seq<(Seq<char>, Seq<char>)> {
    let fields = data.fields@;
    field_issues(fields, "reading.key"@, d.reading_key@, ProjectionFieldType::Text) + channel_issues(
        fields,
        "encoding.x"@,
        d.x,
        ProjectionFieldType::Number,
    ) + channel_issues(fields, "encoding.y"@, d.y, ProjectionFieldType::Number) + match d.label {
        None => seq![("encoding.label"@, "an executable projection needs a text label field"@)],
        Some(l) => channel_issues(fields, "encoding.label"@, l, ProjectionFieldType::Text)
            + issue_if(
            d.colored,
            "encoding.color"@,
            "color encoding is not implemented by this compiler"@,
        ),
    }
}

/// The checks on the arrangement, in order.
pub open spec fn arrangement_issues(d: DefinitionFacts) -> Seq<(Seq<char>, Seq<char>)> {
    issue_if(
        d.arrangement_kind@ != GRID_ARRANGEMENT_ID@ && d.arrangement_kind@ != SCATTER_ARRANGEMENT_ID@,
        "arrangement.kind"@,
        "supported arrangements are grid.default and scatter.default"@,
    ) + issue_if(
        d.arrangement_direction@ != COORDINATES_DIRECTION@,
        "arrangement.direction"@,
        "this compiler requires the coordinates direction"@,
    ) + issue_if(
        d.arrangement_options > 0,
        "arrangement.options"@,
        "this compiler does not support arrangement options"@,
    )
}

/// Everything the definition checks raise, after the draft's own issues.
pub open spec fn definition_issue_views(
    draft: Seq<CompileIssue>,
    d: DefinitionFacts,
    data: DatasetFacts,
) -> Seq<(Seq<char>, Seq<char>)> {
    issue_views(draft) + source_issues(d, data) + form_issues(d) + binding_issues(d, data)
        + arrangement_issues(d)
}

/// Appends one issue.
fn push_issue(issues: &mut Vec<CompileIssue>, field: &str, message: &str)
    ensures
        issue_views(final(issues)@) == issue_views(old(issues)@) + seq![(field@, message@)],
{
    let ghost before = issues@;
    issues.push(CompileIssue::new(field, message));
    assert(issue_views(issues@) =~= issue_views(before) + seq![(field@, message@)]);
}

/// Appends one issue when `c` holds.
fn push_issue_if(issues: &mut Vec<CompileIssue>, c: bool, field: &str, message: &str)
    ensures
        issue_views(final(issues)@) == issue_views(old(issues)@) + issue_if(c, field@, message@),
{
    if c {
        push_issue(issues, field, message);
    } else {
        assert(issue_views(issues@) + issue_if(c, field@, message@) =~= issue_views(issues@));
    }
}

/// Appends the issue binding `target` to `field` raises.
fn push_field_issue(
    issues: &mut Vec<CompileIssue>,
    fields: &Vec<(String, ProjectionFieldType)>,
    target: &str,
    field: &str,
    expected: ProjectionFieldType,
)
    ensures
        issue_views(final(issues)@) == issue_views(old(issues)@) + field_issues(
            fields@,
            target@,
            field@,
            expected,
        ),
{
    match field_issue(fields, target, field, expected) {
        Some(issue) => {
            let ghost before = issues@;
            issues.push(issue);
            assert(issue_views(issues@) =~= issue_views(before) + field_issues(
                fields@,
                target@,
                field@,
                expected,
            ));
        },
        None => {
            assert(issue_views(issues@) + field_issues(fields@, target@, field@, expected)
                =~= issue_views(issues@));
        },
    }
}

/// Appends the issue binding `target` to `channel` raises.
fn push_channel_issue(
    issues: &mut Vec<CompileIssue>,
    fields: &Vec<(String, ProjectionFieldType)>,
    target: &str,
    channel: &ChannelBinding,
    expected: ProjectionFieldType,
)
    ensures
        issue_views(final(issues)@) == issue_views(old(issues)@) + channel_issues(
            fields@,
            target@,
            *channel,
            expected,
        ),
{
    match channel {
        ChannelBinding::Field(f) => push_field_issue(issues, fields, target, f.as_str(), expected),
        ChannelBinding::Constant => push_issue(
            issues,
            target,
            "constants are not executable for this channel",
        ),
    }
}

fn push_source_issues(issues: &mut Vec<CompileIssue>, d: &DefinitionFacts, dataset: &DatasetFacts)
    ensures
        issue_views(final(issues)@) == issue_views(old(issues)@) + source_issues(*d, *dataset),
{
    let ghost start = issue_views(issues@);
    let mismatch = "definition does not match the resolved dataset";
    push_issue_if(issues, !str_eq(d.authority.as_str(), dataset.authority.as_str()), "source.authority", mismatch);
    push_issue_if(issues, !str_eq(d.domain.as_str(), dataset.domain.as_str()), "source.domain", mismatch);
    push_issue_if(issues, !str_eq(d.resource.as_str(), dataset.resource.as_str()), "source.resource", mismatch);
    let revision_matches = match &d.source_revision {
        Some(r) => str_eq(r.as_str(), dataset.revision.as_str()),
        None => false,
    };
    push_issue_if(issues, !revision_matches, "provenance.source_revision", mismatch);
    assert(issue_views(issues@) =~= start + source_issues(*d, *dataset));
}

fn push_form_issues(issues: &mut Vec<CompileIssue>, d: &DefinitionFacts)
    ensures
        issue_views(final(issues)@) == issue_views(old(issues)@) + form_issues(*d),
{
    let ghost start = issue_views(issues@);
    push_issue_if(issues, d.aggregates_value, "reading.value", "nodes does not accept a value aggregation");
    push_issue_if(
        issues,
        !d.single_selection || d.pan || d.zoom,
        "interaction",
        "this realization supports single selection with a fitted viewport",
    );
    push_issue_if(
        issues,
        !str_eq(d.realization.as_str(), "canvas"),
        "appearance.realization",
        "supported realization is canvas",
    );
    push_issue_if(issues, !str_eq(d.theme.as_str(), "slate"), "appearance.theme", "supported theme is slate");
    push_issue_if(
        issues,
        !str_eq(d.reading_kind.as_str(), NODES_READING_ID),
        "reading.kind",
        "only the nodes reading is executable in this compiler",
    );
    assert(issue_views(issues@) =~= start + form_issues(*d));
}

fn push_binding_issues(issues: &mut Vec<CompileIssue>, d: &DefinitionFacts, dataset: &DatasetFacts)
    ensures
        issue_views(final(issues)@) == issue_views(old(issues)@) + binding_issues(*d, *dataset),
{
    let ghost start = issue_views(issues@);
    push_field_issue(issues, &dataset.fields, "reading.key", d.reading_key.as_str(), ProjectionFieldType::Text);
    push_channel_issue(issues, &dataset.fields, "encoding.x", &d.x, ProjectionFieldType::Number);
    push_channel_issue(issues, &dataset.fields, "encoding.y", &d.y, ProjectionFieldType::Number);
    match &d.label {
        None => push_issue(issues, "encoding.label", "an executable projection needs a text label field"),
        Some(l) => {
            push_channel_issue(issues, &dataset.fields, "encoding.label", l, ProjectionFieldType::Text);
            push_issue_if(
                issues,
                d.colored,
                "encoding.color",
                "color encoding is not implemented by this compiler",
            );
        },
    }
    assert(issue_views(issues@) =~= start + binding_issues(*d, *dataset));
}

fn push_arrangement_issues(issues: &mut Vec<CompileIssue>, d: &DefinitionFacts)
    ensures
        issue_views(final(issues)@) == issue_views(old(issues)@) + arrangement_issues(*d),
{
    let ghost start = issue_views(issues@);
    let known = str_eq(d.arrangement_kind.as_str(), GRID_ARRANGEMENT_ID) || str_eq(
        d.arrangement_kind.as_str(),
        SCATTER_ARRANGEMENT_ID,
    );
    push_issue_if(
        issues,
        !known,
        "arrangement.kind",
        "supported arrangements are grid.default and scatter.default",
    );
    push_issue_if(
        issues,
        !str_eq(d.arrangement_direction.as_str(), COORDINATES_DIRECTION),
        "arrangement.direction",
        "this compiler requires the coordinates direction",
    );
    push_issue_if(
        issues,
        d.arrangement_options > 0,
        "arrangement.options",
        "this compiler does not support arrangement options",
    );
    assert(issue_views(issues@) =~= start + arrangement_issues(*d));
}

/// What stops a saved definition executing against a resolved dataset,
/// before any occurrence is read: the issues the draft's own validation
/// raised, then, in this order, a source or revision that does not match
/// the dataset, a value aggregation, an interaction other than single
/// selection with a fitted viewport, a realization other than canvas, a
/// theme other than slate, a reading other than nodes, a reading key or x,
/// y and label channel that is not a disclosed field of the needed type, a
/// missing label, a color encoding, and an arrangement other than grid or
/// scatter over coordinates without options.
pub fn definition_issues(
    draft_issues: Vec<CompileIssue>,
    definition: &DefinitionFacts,
    dataset: &DatasetFacts,
) -> (r: Vec<CompileIssue>)
    ensures
        issue_views(r@) == definition_issue_views(draft_issues@, *definition, *dataset),
{
    let mut issues = draft_issues;
    let ghost start = issue_views(issues@);
    push_source_issues(&mut issues, definition, dataset);
    push_form_issues(&mut issues, definition);
    push_binding_issues(&mut issues, definition, dataset);
    push_arrangement_issues(&mut issues, definition);
    assert(issue_views(issues@) =~= start + source_issues(*definition, *dataset) + form_issues(
        *definition,
    ) + binding_issues(*definition, *dataset) + arrangement_issues(*definition));
    issues
}

/// One value an occurrence discloses. Of a number the compiler reads only
/// whether it is finite, and whether it fits the scene as a scatter
/// coordinate (finite, and within 10^9 scene units once scaled by the
/// arrangement's spacing), which a host works out in floating point.
#[derive(Clone, Debug, PartialEq)]
pub enum ValueFacts {
    Text(String),
    Number { finite: bool, fits_scatter: bool },
    Boolean,
}

/// One occurrence of a resolved dataset: its id, its exact source
/// reference, and its values in field-name order.
#[derive(Clone, Debug)]
pub struct OccurrenceFacts {
    pub occurrence_id: String,
    pub source_adapter: String,
    pub source_id: String,
    pub values: Vec<(String, ValueFacts)>,
}

pub open spec fn value_type(v: ValueFacts) -> ProjectionFieldType {
    match v {
        ValueFacts::Text(_) => ProjectionFieldType::Text,
        ValueFacts::Number { .. } => ProjectionFieldType::Number,
        ValueFacts::Boolean => ProjectionFieldType::Boolean,
    }
}

/// The value an occurrence holds for `name`.
pub open spec fn value_of(values: Seq<(String, ValueFacts)>, name: Seq<char>) -> Option<ValueFacts>
    decreases values.len(),
{
    if values.len() == 0 {
        None
    } else if values[0].0@ == name {
        Some(values[0].1)
    } else {
        value_of(values.drop_first(), name)
    }
}

/// The field a channel binds, when it binds a field with a non-blank name.
pub open spec fn channel_field(c: ChannelBinding) -> Option<Seq<char>> {
    match c {
        ChannelBinding::Field(f) => if trim(f@).len() > 0 {
            Some(f@)
        } else {
            None
        },
        ChannelBinding::Constant => None,
    }
}

pub open spec fn label_field(d: DefinitionFacts) -> Option<Seq<char>> {
    match d.label {
        Some(c) => channel_field(c),
        None => None,
    }
}

/// Where an occurrence's issues are reported.
pub open spec fn occurrence_prefix(o: OccurrenceFacts) -> Seq<char> {
    "occurrences."@ + o.occurrence_id@
}

/// An earlier occurrence has the same id as occurrence `k`.
pub open spec fn id_taken(occs: Seq<OccurrenceFacts>, k: int) -> bool {
    exists|j: int| 0 <= j < k && #[trigger] occs[j].occurrence_id@ == occs[k].occurrence_id@
}

/// Each value checked against the disclosed schema, in order.
pub open spec fn value_type_issues(
    fields: Seq<(String, ProjectionFieldType)>,
    p: Seq<char>,
    values: Seq<(String, ValueFacts)>,
) -> Seq<(Seq<char>, Seq<char>)>
    decreases values.len(),
{
    if values.len() == 0 {
        Seq::empty()
    } else {
        let v = values.last();
        value_type_issues(fields, p, values.drop_last()) + match disclosed_type(fields, v.0@) {
            Some(t) => issue_if(
                t != value_type(v.1),
                p + ".values."@ + v.0@,
                "value does not match the disclosed field type"@,
            ),
            None => seq![(p + ".values."@ + v.0@, "value names a field absent from the disclosed schema"@)],
        }
    }
}

/// The issue a channel raises when the occurrence lacks a usable value for
/// its field: text for a label, a finite number for a coordinate.
#[verifier::opaque]
pub open spec fn need_issues(
    values: Seq<(String, ValueFacts)>,
    p: Seq<char>,
    target: Seq<char>,
    field: Option<Seq<char>>,
    text: bool,
) -> Seq<(Seq<char>, Seq<char>)> {
    match field {
        None => Seq::empty(),
        Some(f) => issue_if(
            !(if text {
                value_of(values, f) matches Some(ValueFacts::Text(_))
            } else {
                value_of(values, f) matches Some(ValueFacts::Number { finite, .. }) && finite
            }),
            p + ".values."@ + f,
            target + " needs a finite "@ + (if text {
                "text"@
            } else {
                "number"@
            }) + " value"@,
        ),
    }
}

/// The issue a scatter coordinate raises when it does not fit the scene.
#[verifier::opaque]
pub open spec fn scatter_issues(values: Seq<(String, ValueFacts)>, p: Seq<char>, field: Option<Seq<char>>) -> Seq<
    (Seq<char>, Seq<char>),
> {
    match field {
        None => Seq::empty(),
        Some(f) => match value_of(values, f) {
            Some(ValueFacts::Number { fits_scatter, .. }) => issue_if(
                !fits_scatter,
                p + ".values."@ + f,
                "scatter coordinates must fit finite scene units"@,
            ),
            _ => Seq::empty(),
        },
    }
}

/// What occurrence `k` raises, in order: a blank or repeated id, a missing
/// source reference, each value against the schema, a reading key that
/// does not repeat the id, a label, x or y without a usable value, and under
/// scatter a coordinate that does not fit the scene.
pub open spec fn occurrence_issue_list(
    d: DefinitionFacts,
    fields: Seq<(String, ProjectionFieldType)>,
    occs: Seq<OccurrenceFacts>,
    k: int,
) -> Seq<(Seq<char>, Seq<char>)> {
    occurrence_head_issues(d, fields, occs, k) + occurrence_tail_issues(d, occs[k])
}

/// The checks on occurrence `k`'s identity, source and values.
pub open spec fn occurrence_head_issues(
    d: DefinitionFacts,
    fields: Seq<(String, ProjectionFieldType)>,
    occs: Seq<OccurrenceFacts>,
    k: int,
) -> Seq<(Seq<char>, Seq<char>)> {
    let o = occs[k];
    let p = occurrence_prefix(o);
    let vals = o.values@;
    issue_if(
        trim(o.occurrence_id@).len() == 0 || id_taken(occs, k),
        p + ".occurrence_id"@,
        "occurrence ids must be non-empty and unique"@,
    ) + issue_if(
        trim(o.source_adapter@).len() == 0 || trim(o.source_id@).len() == 0,
        p + ".source"@,
        "each occurrence needs an exact source reference"@,
    ) + value_type_issues(fields, p, vals) + issue_if(
        !(value_of(vals, d.reading_key@) matches Some(ValueFacts::Text(t)) && t@ == o.occurrence_id@),
        p + ".values."@ + d.reading_key@,
        "the reading key must repeat this occurrence id exactly"@,
    )
}

/// The checks on the values an occurrence gives the bound channels.
pub open spec fn occurrence_tail_issues(d: DefinitionFacts, o: OccurrenceFacts) -> Seq<(Seq<char>, Seq<char>)> {
    let p = occurrence_prefix(o);
    let vals = o.values@;
    need_issues(vals, p, "encoding.label"@, label_field(d), true) + need_issues(
        vals,
        p,
        "encoding.x"@,
        channel_field(d.x),
        false,
    ) + need_issues(vals, p, "encoding.y"@, channel_field(d.y), false) + if d.arrangement_kind@
        == SCATTER_ARRANGEMENT_ID@ {
        scatter_issues(vals, p, channel_field(d.x)) + scatter_issues(vals, p, channel_field(d.y))
    } else {
        Seq::empty()
    }
}

/// What the first `n` occurrences raise, occurrence by occurrence.
pub open spec fn occurrence_issue_views(
    d: DefinitionFacts,
    fields: Seq<(String, ProjectionFieldType)>,
    occs: Seq<OccurrenceFacts>,
    n: int,
) -> Seq<(Seq<char>, Seq<char>)>
    decreases n,
{
    if n <= 0 {
        Seq::empty()
    } else {
        occurrence_issue_views(d, fields, occs, n - 1) + occurrence_issue_list(d, fields, occs, n - 1)
    }
}

fn concat(a: &str, b: &str) -> (r: String)
    ensures
        r@ == a@ + b@,
{
    let mut out = a.to_owned();
    push_str(&mut out, b);
    out
}

fn find_value<'a>(values: &'a Vec<(String, ValueFacts)>, name: &str) -> (r: Option<&'a ValueFacts>)
    ensures
        match r {
            Some(v) => value_of(values@, name@) == Some(*v),
            None => value_of(values@, name@) is None,
        },
{
    let mut i: usize = 0;
    assert(values@.skip(0) =~= values@);
    while i < values.len()
        invariant
            i <= values@.len(),
            value_of(values@, name@) == value_of(values@.skip(i as int), name@),
        decreases values@.len() - i,
    {
        proof {
            assert(values@.skip(i as int).drop_first() =~= values@.skip(i + 1));
        }
        if str_eq(values[i].0.as_str(), name) {
            return Some(&values[i].1);
        }
        i = i + 1;
    }
    None
}

fn channel_field_exec(c: &ChannelBinding) -> (r: Option<&String>)
    ensures
        match r {
            Some(f) => channel_field(*c) == Some(f@),
            None => channel_field(*c) is None,
        },
{
    match c {
        ChannelBinding::Field(f) => if is_blank(f.as_str()) {
            None
        } else {
            Some(f)
        },
        ChannelBinding::Constant => None,
    }
}

fn push_value_type_issues(
    issues: &mut Vec<CompileIssue>,
    fields: &Vec<(String, ProjectionFieldType)>,
    p: &str,
    values: &Vec<(String, ValueFacts)>,
)
    ensures
        issue_views(final(issues)@) == issue_views(old(issues)@) + value_type_issues(fields@, p@, values@),
{
    let ghost start = issue_views(issues@);
    let mut i: usize = 0;
    assert(values@.subrange(0, 0) =~= Seq::<(String, ValueFacts)>::empty());
    while i < values.len()
        invariant
            i <= values@.len(),
            issue_views(issues@) == start + value_type_issues(fields@, p@, values@.subrange(0, i as int)),
        decreases values@.len() - i,
    {
        let ghost before = issue_views(issues@);
        let name = &values[i].0;
        let field = concat(concat(p, ".values.").as_str(), name.as_str());
        let actual = match &values[i].1 {
            ValueFacts::Text(_) => ProjectionFieldType::Text,
            ValueFacts::Number { .. } => ProjectionFieldType::Number,
            ValueFacts::Boolean => ProjectionFieldType::Boolean,
        };
        let declared = disclosed(fields, name.as_str());
        match declared {
            Some(t) => push_issue_if(
                issues,
                t != actual,
                field.as_str(),
                "value does not match the disclosed field type",
            ),
            None => push_issue(issues, field.as_str(), "value names a field absent from the disclosed schema"),
        }
        proof {
            let w = values@.subrange(0, i + 1);
            assert(w.drop_last() =~= values@.subrange(0, i as int));
            assert(w.last() == values@[i as int]);
            assert(issue_views(issues@) =~= start + value_type_issues(fields@, p@, w));
        }
        i = i + 1;
    }
    assert(values@.subrange(0, values@.len() as int) =~= values@);
}

/// The type the dataset discloses for `field`.
fn disclosed(fields: &Vec<(String, ProjectionFieldType)>, field: &str) -> (r: Option<ProjectionFieldType>)
    ensures
        r == disclosed_type(fields@, field@),
{
    let mut i: usize = fields.len();
    assert(fields@.subrange(0, i as int) =~= fields@);
    while i > 0
        invariant
            i <= fields@.len(),
            disclosed_type(fields@, field@) == disclosed_type(fields@.subrange(0, i as int), field@),
        decreases i,
    {
        let ghost w = fields@.subrange(0, i as int);
        assert(w.drop_last() =~= fields@.subrange(0, i - 1));
        assert(w.last() == fields@[i - 1]);
        if str_eq(fields[i - 1].0.as_str(), field) {
            return Some(fields[i - 1].1);
        }
        i = i - 1;
    }
    None
}

fn push_need_issue(
    issues: &mut Vec<CompileIssue>,
    values: &Vec<(String, ValueFacts)>,
    p: &str,
    target: &str,
    field: Option<&String>,
    text: bool,
)
    ensures
        issue_views(final(issues)@) == issue_views(old(issues)@) + need_issues(
            values@,
            p@,
            target@,
            match field {
                Some(f) => Some(f@),
                None => None,
            },
            text,
        ),
{
    reveal(need_issues);
    match field {
        None => {
            assert(issue_views(issues@) + Seq::<(Seq<char>, Seq<char>)>::empty() =~= issue_views(issues@));
        },
        Some(f) => {
            let valid = match find_value(values, f.as_str()) {
                Some(ValueFacts::Text(_)) => text,
                Some(ValueFacts::Number { finite, .. }) => !text && *finite,
                _ => false,
            };
            let at = concat(concat(p, ".values.").as_str(), f.as_str());
            let what = if text {
                concat(target, " needs a finite text value")
            } else {
                concat(target, " needs a finite number value")
            };
            proof {
                reveal_strlit(" needs a finite text value");
                reveal_strlit(" needs a finite number value");
                reveal_strlit(" needs a finite ");
                reveal_strlit("text");
                reveal_strlit("number");
                reveal_strlit(" value");
                assert(" needs a finite text value"@ =~= " needs a finite "@ + "text"@ + " value"@);
                assert(" needs a finite number value"@ =~= " needs a finite "@ + "number"@ + " value"@);
                assert(what@ =~= target@ + " needs a finite "@ + (if text {
                    "text"@
                } else {
                    "number"@
                }) + " value"@);
            }
            push_issue_if(issues, !valid, at.as_str(), what.as_str());
        },
    }
}

fn push_scatter_issue(
    issues: &mut Vec<CompileIssue>,
    values: &Vec<(String, ValueFacts)>,
    p: &str,
    field: Option<&String>,
)
    ensures
        issue_views(final(issues)@) == issue_views(old(issues)@) + scatter_issues(
            values@,
            p@,
            match field {
                Some(f) => Some(f@),
                None => None,
            },
        ),
{
    reveal(scatter_issues);
    match field {
        None => {
            assert(issue_views(issues@) + Seq::<(Seq<char>, Seq<char>)>::empty() =~= issue_views(issues@));
        },
        Some(f) => match find_value(values, f.as_str()) {
            Some(ValueFacts::Number { fits_scatter, .. }) => {
                let at = concat(concat(p, ".values.").as_str(), f.as_str());
                push_issue_if(issues, !*fits_scatter, at.as_str(), "scatter coordinates must fit finite scene units");
            },
            _ => {
                assert(issue_views(issues@) + Seq::<(Seq<char>, Seq<char>)>::empty() =~= issue_views(issues@));
            },
        },
    }
}

fn id_taken_exec(occurrences: &Vec<OccurrenceFacts>, k: usize) -> (r: bool)
    requires
        k < occurrences@.len(),
    ensures
        r == id_taken(occurrences@, k as int),
{
    let mut j: usize = 0;
    while j < k
        invariant
            j <= k,
            k < occurrences@.len(),
            forall|i: int| 0 <= i < j ==> #[trigger] occurrences@[i].occurrence_id@ != occurrences@[k as int].occurrence_id@,
        decreases k - j,
    {
        if str_eq(occurrences[j].occurrence_id.as_str(), occurrences[k].occurrence_id.as_str()) {
            assert(occurrences@[j as int].occurrence_id@ == occurrences@[k as int].occurrence_id@);
            return true;
        }
        j = j + 1;
    }
    false
}

fn push_occurrence_head(
    issues: &mut Vec<CompileIssue>,
    d: &DefinitionFacts,
    fields: &Vec<(String, ProjectionFieldType)>,
    occurrences: &Vec<OccurrenceFacts>,
    k: usize,
    p: &str,
)
    requires
        k < occurrences@.len(),
        p@ == occurrence_prefix(occurrences@[k as int]),
    ensures
        issue_views(final(issues)@) == issue_views(old(issues)@) + occurrence_head_issues(*d, fields@, occurrences@, k as int),
{
    let ghost start = issue_views(issues@);
    let o = &occurrences[k];
    let id_field = concat(p, ".occurrence_id");
    let taken = id_taken_exec(occurrences, k);
    push_issue_if(issues, is_blank(o.occurrence_id.as_str()) || taken, id_field.as_str(), "occurrence ids must be non-empty and unique");
    let source_field = concat(p, ".source");
    push_issue_if(
        issues,
        is_blank(o.source_adapter.as_str()) || is_blank(o.source_id.as_str()),
        source_field.as_str(),
        "each occurrence needs an exact source reference",
    );
    push_value_type_issues(issues, fields, p, &o.values);
    let repeats = match find_value(&o.values, d.reading_key.as_str()) {
        Some(ValueFacts::Text(t)) => str_eq(t.as_str(), o.occurrence_id.as_str()),
        _ => false,
    };
    let key_field = concat(concat(p, ".values.").as_str(), d.reading_key.as_str());
    push_issue_if(issues, !repeats, key_field.as_str(), "the reading key must repeat this occurrence id exactly");
    assert(issue_views(issues@) =~= start + occurrence_head_issues(*d, fields@, occurrences@, k as int));
}

fn push_occurrence_tail(issues: &mut Vec<CompileIssue>, d: &DefinitionFacts, o: &OccurrenceFacts, p: &str)
    requires
        p@ == occurrence_prefix(*o),
    ensures
        issue_views(final(issues)@) == issue_views(old(issues)@) + occurrence_tail_issues(*d, *o),
{
    let ghost start = issue_views(issues@);
    let label = match &d.label {
        Some(c) => channel_field_exec(c),
        None => None,
    };
    let x = channel_field_exec(&d.x);
    let y = channel_field_exec(&d.y);
    assert(label_field(*d) == match label {
        Some(f) => Some(f@),
        None => None::<Seq<char>>,
    });
    push_need_issue(issues, &o.values, p, "encoding.label", label, true);
    push_need_issue(issues, &o.values, p, "encoding.x", x, false);
    push_need_issue(issues, &o.values, p, "encoding.y", y, false);
    let ghost mid = issue_views(issues@);
    if str_eq(d.arrangement_kind.as_str(), SCATTER_ARRANGEMENT_ID) {
        push_scatter_issue(issues, &o.values, p, x);
        push_scatter_issue(issues, &o.values, p, y);
    } else {
        assert(issue_views(issues@) + Seq::<(Seq<char>, Seq<char>)>::empty() =~= issue_views(issues@));
    }
    assert(issue_views(issues@) =~= start + occurrence_tail_issues(*d, *o));
}

fn push_occurrence_issues(
    issues: &mut Vec<CompileIssue>,
    d: &DefinitionFacts,
    fields: &Vec<(String, ProjectionFieldType)>,
    occurrences: &Vec<OccurrenceFacts>,
    k: usize,
)
    requires
        k < occurrences@.len(),
    ensures
        issue_views(final(issues)@) == issue_views(old(issues)@) + occurrence_issue_list(*d, fields@, occurrences@, k as int),
{
    let ghost start = issue_views(issues@);
    let p = concat("occurrences.", occurrences[k].occurrence_id.as_str());
    push_occurrence_head(issues, d, fields, occurrences, k, p.as_str());
    let ghost mid = issue_views(issues@);
    push_occurrence_tail(issues, d, &occurrences[k], p.as_str());
    assert(issue_views(issues@) =~= start + occurrence_issue_list(*d, fields@, occurrences@, k as int));
}

/// What stops the occurrences of a resolved dataset executing under a
/// definition, occurrence by occurrence in dataset order: a blank or
/// repeated occurrence id, a missing source reference, a value whose type
/// the schema does not disclose, a reading key that does not repeat the
/// occurrence id, a label without text or a coordinate without a finite
/// number, and, under scatter, a coordinate that does not fit the scene.
pub fn occurrence_issues(
    definition: &DefinitionFacts,
    occurrences: &Vec<OccurrenceFacts>,
    fields: &Vec<(String, ProjectionFieldType)>,
) -> (r: Vec<CompileIssue>)
    ensures
        issue_views(r@) == occurrence_issue_views(*definition, fields@, occurrences@, occurrences@.len() as int),
{
    let mut issues: Vec<CompileIssue> = Vec::new();
    let mut k: usize = 0;
    assert(issue_views(issues@) =~= Seq::<(Seq<char>, Seq<char>)>::empty());
    while k < occurrences.len()
        invariant
            k <= occurrences@.len(),
            issue_views(issues@) == occurrence_issue_views(*definition, fields@, occurrences@, k as int),
        decreases occurrences@.len() - k,
    {
        push_occurrence_issues(&mut issues, definition, fields, occurrences, k);
        k = k + 1;
    }
    issues
}

/// Everything that stops a saved definition executing against a resolved
/// dataset: the definition's own issues ([`definition_issues`]), then its
/// occurrences' ([`occurrence_issues`]).
pub fn validation_issues(
    draft_issues: Vec<CompileIssue>,
    definition: &DefinitionFacts,
    dataset: &DatasetFacts,
    occurrences: &Vec<OccurrenceFacts>,
) -> (r: Vec<CompileIssue>)
    ensures
        issue_views(r@) == definition_issue_views(draft_issues@, *definition, *dataset)
            + occurrence_issue_views(*definition, dataset.fields@, occurrences@, occurrences@.len() as int),
{
    let mut issues = definition_issues(draft_issues, definition, dataset);
    let mut rest = occurrence_issues(definition, occurrences, &dataset.fields);
    let ghost a = issues@;
    let ghost b = rest@;
    issues.append(&mut rest);
    assert(issues@ =~= a + b);
    assert(issue_views(issues@) =~= issue_views(a) + issue_views(b));
    issues
}

/// `order` lists every position of `ids` once, ascending by id, equal ids
/// in list order: instance `k` of a compiled projection shows occurrence
/// `order[k]`.
pub open spec fn instance_order(ids: Seq<Seq<char>>, order: Seq<int>) -> bool {
    &&& order.len() == ids.len()
    &&& forall|k: int| 0 <= k < order.len() ==> 0 <= #[trigger] order[k] < ids.len()
    &&& forall|k: int, l: int|
        0 <= k < l < order.len() ==> seq_lt(ids[#[trigger] order[k]], ids[#[trigger] order[l]]) || (
        ids[order[k]] == ids[order[l]] && order[k] < order[l])
}

/// The instances of a compiled projection: occurrence positions in
/// instance order (by ascending occurrence id), and the instance a saved
/// selection restores to, the last showing that occurrence, if any does.
pub fn occurrence_instances(occurrence_ids: &Vec<String>, selected: &Option<String>) -> (r: (
    Vec<usize>,
    Option<usize>,
))
    ensures
        instance_order(string_views(occurrence_ids@), r.0@.map_values(|k: usize| k as int)),
        match *selected {
            None => r.1 is None,
            Some(sel) => match r.1 {
                Some(k) => k < r.0@.len() && occurrence_ids@[r.0@[k as int] as int]@ == sel@ && forall|l: int|
                    k < l < r.0@.len() ==> occurrence_ids@[#[trigger] r.0@[l] as int]@ != sel@,
                None => forall|l: int|
                    0 <= l < r.0@.len() ==> occurrence_ids@[#[trigger] r.0@[l] as int]@ != sel@,
            },
        },
{
    let ghost ids = string_views(occurrence_ids@);
    let mut order: Vec<usize> = Vec::new();
    let mut i: usize = 0;
    while i < occurrence_ids.len()
        invariant
            i <= occurrence_ids@.len(),
            ids == string_views(occurrence_ids@),
            order@.len() == i,
            forall|k: int| 0 <= k < order@.len() ==> #[trigger] order@[k] < i,
            forall|k: int, l: int|
                0 <= k < l < order@.len() ==> seq_lt(ids[#[trigger] order@[k] as int], ids[#[trigger] order@[l] as int])
                    || (ids[order@[k] as int] == ids[order@[l] as int] && order@[k] < order@[l]),
        decreases occurrence_ids@.len() - i,
    {
        let key = chars_of(occurrence_ids[i].as_str());
        let mut p: usize = 0;
        while p < order.len() && compare_chars(&chars_of(occurrence_ids[order[p]].as_str()), &key) <= 0
            invariant
                p <= order@.len(),
                i < occurrence_ids@.len(),
                ids == string_views(occurrence_ids@),
                key@ == ids[i as int],
                forall|k: int| 0 <= k < order@.len() ==> #[trigger] order@[k] < i,
                forall|k: int| 0 <= k < p ==> !seq_lt(key@, #[trigger] ids[order@[k] as int]),
            decreases order@.len() - p,
        {
            proof {
                lemma_seq_lt_trichotomy(ids[order@[p as int] as int], key@);
            }
            p = p + 1;
        }
        let ghost before = order@;
        order.insert(p, i);
        proof {
            assert(order@ =~= before.insert(p as int, i));
            assert forall|k: int, l: int|
                0 <= k < l < order@.len() implies seq_lt(ids[#[trigger] order@[k] as int], ids[#[trigger] order@[l] as int])
                    || (ids[order@[k] as int] == ids[order@[l] as int] && order@[k] < order@[l]) by {
                if l < p {
                    assert(order@[k] == before[k] && order@[l] == before[l]);
                } else if l == p {
                    assert(order@[k] == before[k]);
                    lemma_seq_lt_trichotomy(ids[before[k] as int], key@);
                } else if k < p {
                    assert(order@[k] == before[k] && order@[l] == before[l - 1]);
                } else if k == p {
                    assert(order@[l] == before[l - 1]);
                    let y = ids[before[p as int] as int];
                    assert(seq_lt(key@, y));
                    if l - 1 > p {
                        let z = ids[before[l - 1] as int];
                        if seq_lt(y, z) {
                            lemma_seq_lt_transitive(key@, y, z);
                        }
                    }
                } else {
                    assert(order@[k] == before[k - 1] && order@[l] == before[l - 1]);
                }
            }
        }
        i = i + 1;
    }
    let ghost o = order@.map_values(|k: usize| k as int);
    assert forall|k: int, l: int| 0 <= k < l < o.len() implies seq_lt(ids[#[trigger] o[k]], ids[#[trigger] o[l]]) || (
        ids[o[k]] == ids[o[l]] && o[k] < o[l]) by {
        assert(o[k] == order@[k] as int && o[l] == order@[l] as int);
    }
    assert forall|k: int| 0 <= k < o.len() implies 0 <= #[trigger] o[k] < ids.len() by {
        assert(o[k] == order@[k] as int);
    }
    let chosen = match selected {
        None => None,
        Some(sel) => last_instance_of(occurrence_ids, &order, sel.as_str()),
    };
    (order, chosen)
}

fn last_instance_of(occurrence_ids: &Vec<String>, order: &Vec<usize>, sel: &str) -> (r: Option<usize>)
    requires
        forall|q: int| 0 <= q < order@.len() ==> #[trigger] order@[q] < occurrence_ids@.len(),
    ensures
        match r {
            Some(k) => k < order@.len() && occurrence_ids@[order@[k as int] as int]@ == sel@ && forall|l: int|
                k < l < order@.len() ==> occurrence_ids@[#[trigger] order@[l] as int]@ != sel@,
            None => forall|l: int| 0 <= l < order@.len() ==> occurrence_ids@[#[trigger] order@[l] as int]@ != sel@,
        },
{
    let mut k: usize = order.len();
    while k > 0
        invariant
            k <= order@.len(),
            forall|q: int| 0 <= q < order@.len() ==> #[trigger] order@[q] < occurrence_ids@.len(),
            forall|l: int| k <= l < order@.len() ==> occurrence_ids@[#[trigger] order@[l] as int]@ != sel@,
        decreases k,
    {
        if str_eq(occurrence_ids[order[k - 1]].as_str(), sel) {
            return Some(k - 1);
        }
        k = k - 1;
    }
    None
}

} // verus!
