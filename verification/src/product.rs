//! Daily graph-product vocabulary: the facets a product writes, the codes
//! its transfer scopes, relation filters and editable relations travel
//! under, and the small records an import or a file pick produces.

use vstd::prelude::*;

use crate::personal_sync::{uuid_hyphenated, uuid_text};
use crate::sorted::{insert_sorted_string, sorted_difference, string_views, strictly_sorted};
use crate::json::{canonical, json_view, write_canonical_json, JsonValue};
use crate::text::{
    chars_of, contains_chars, contains_seq, push_str, str_eq, string_from_chars, trim, trim_chars,
};

verus! {

pub const LOCAL_FILE_FACET: &'static str = "graphshell.local-file/v1";
pub const CONTENT_FACET: &'static str = "graphshell.content/v1";
pub const SAVED_SCENE_FACET: &'static str = "graphshell.saved-scene/v2";
pub const PINNED_PROJECTION_FACET: &'static str = "graphshell.pinned-projection/v1";
pub const PRODUCT_CODICIL_SCHEMA: &'static str = "graphshell.graph-codicil/v2";
/// Read-only compatibility tag for graph selections exported before the
/// Engram-to-Codicil vocabulary migration.
pub const LEGACY_PRODUCT_ENGRAM_SCHEMA: &'static str = "graphshell.graph-engram/v1";

/// How much of the graph a transfer carries.
#[derive(Clone, Copy, Debug, PartialEq, Eq, Structural)]
pub enum TransferScope {
    ObjectOnly,
    DirectRelations,
    SelectedSubgraph,
    SavedScene,
}

pub open spec fn transfer_scope_code(s: TransferScope) -> Seq<char> {
    match s {
        TransferScope::ObjectOnly => "object-only"@,
        TransferScope::DirectRelations => "direct-relations"@,
        TransferScope::SelectedSubgraph => "selected-subgraph"@,
        TransferScope::SavedScene => "saved-scene"@,
    }
}

impl TransferScope {
    /// The scope's wire code.
    pub fn code(self) -> (r: &'static str)
        ensures
            r@ == transfer_scope_code(self),
    {
        match self {
            TransferScope::ObjectOnly => "object-only",
            TransferScope::DirectRelations => "direct-relations",
            TransferScope::SelectedSubgraph => "selected-subgraph",
            TransferScope::SavedScene => "saved-scene",
        }
    }

    /// The scope a wire code names, if any.
    pub fn from_code(code: &str) -> (r: Option<Self>)
        ensures
            match r {
                Some(s) => transfer_scope_code(s) == code@,
                None => forall|s: TransferScope| transfer_scope_code(s) != code@,
            },
    {
        if str_eq(code, "object-only") {
            Some(TransferScope::ObjectOnly)
        } else if str_eq(code, "direct-relations") {
            Some(TransferScope::DirectRelations)
        } else if str_eq(code, "selected-subgraph") {
            Some(TransferScope::SelectedSubgraph)
        } else if str_eq(code, "saved-scene") {
            Some(TransferScope::SavedScene)
        } else {
            None
        }
    }
}

/// Which relation family a listing shows.
#[derive(Clone, Copy, Debug, PartialEq, Eq, Structural)]
pub enum RelationFamilyFilter {
    All,
    Semantic,
    Traversal,
    Containment,
    Arrangement,
    Imported,
    Provenance,
}

pub open spec fn relation_filter_code(f: RelationFamilyFilter) -> Seq<char> {
    match f {
        RelationFamilyFilter::All => "all"@,
        RelationFamilyFilter::Semantic => "semantic"@,
        RelationFamilyFilter::Traversal => "traversal"@,
        RelationFamilyFilter::Containment => "containment"@,
        RelationFamilyFilter::Arrangement => "arrangement"@,
        RelationFamilyFilter::Imported => "imported"@,
        RelationFamilyFilter::Provenance => "provenance"@,
    }
}

impl RelationFamilyFilter {
    /// The filter's wire code.
    pub fn code(self) -> (r: &'static str)
        ensures
            r@ == relation_filter_code(self),
    {
        match self {
            RelationFamilyFilter::All => "all",
            RelationFamilyFilter::Semantic => "semantic",
            RelationFamilyFilter::Traversal => "traversal",
            RelationFamilyFilter::Containment => "containment",
            RelationFamilyFilter::Arrangement => "arrangement",
            RelationFamilyFilter::Imported => "imported",
            RelationFamilyFilter::Provenance => "provenance",
        }
    }

    /// The filter a wire code names, if any.
    pub fn from_code(code: &str) -> (r: Option<Self>)
        ensures
            match r {
                Some(f) => relation_filter_code(f) == code@,
                None => forall|f: RelationFamilyFilter| relation_filter_code(f) != code@,
            },
    {
        if str_eq(code, "all") {
            Some(RelationFamilyFilter::All)
        } else if str_eq(code, "semantic") {
            Some(RelationFamilyFilter::Semantic)
        } else if str_eq(code, "traversal") {
            Some(RelationFamilyFilter::Traversal)
        } else if str_eq(code, "containment") {
            Some(RelationFamilyFilter::Containment)
        } else if str_eq(code, "arrangement") {
            Some(RelationFamilyFilter::Arrangement)
        } else if str_eq(code, "imported") {
            Some(RelationFamilyFilter::Imported)
        } else if str_eq(code, "provenance") {
            Some(RelationFamilyFilter::Provenance)
        } else {
            None
        }
    }
}

/// A relation a user may create or remove by hand.
#[derive(Clone, Copy, Debug, PartialEq, Eq, Structural)]
pub enum EditableRelation {
    UserGrouped,
    Cites,
    Hyperlink,
    CollectionMember,
    FrameMember,
}

pub open spec fn editable_relation_code(r: EditableRelation) -> Seq<char> {
    match r {
        EditableRelation::UserGrouped => "user-grouped"@,
        EditableRelation::Cites => "cites"@,
        EditableRelation::Hyperlink => "hyperlink"@,
        EditableRelation::CollectionMember => "collection-member"@,
        EditableRelation::FrameMember => "frame-member"@,
    }
}

impl EditableRelation {
    /// The relation a wire code names, if any.
    pub fn from_code(code: &str) -> (r: Option<Self>)
        ensures
            match r {
                Some(e) => editable_relation_code(e) == code@,
                None => forall|e: EditableRelation| editable_relation_code(e) != code@,
            },
    {
        if str_eq(code, "user-grouped") {
            Some(EditableRelation::UserGrouped)
        } else if str_eq(code, "cites") {
            Some(EditableRelation::Cites)
        } else if str_eq(code, "hyperlink") {
            Some(EditableRelation::Hyperlink)
        } else if str_eq(code, "collection-member") {
            Some(EditableRelation::CollectionMember)
        } else if str_eq(code, "frame-member") {
            Some(EditableRelation::FrameMember)
        } else {
            None
        }
    }
}

/// A local file as the browser's picker described it.
#[derive(Clone, Debug, PartialEq, Eq)]
pub struct LocalFileMetadata {
    pub content_hash: String,
    pub name: String,
    pub media_type: String,
    pub byte_len: u64,
    pub last_modified_ms: u64,
}

/// Who owns a pinned projection card: always its source.
#[derive(Clone, Copy, Debug, PartialEq, Eq, Structural)]
pub enum PinnedProjectionAuthorityV1 {
    SourceOwned,
}

/// What one import added to the graph.
#[derive(Clone, Copy, Debug, PartialEq, Eq, Structural)]
pub struct ImportReceipt {
    pub nodes: usize,
    pub relations: usize,
    pub facets: usize,
}

} // verus!

verus! {

/// Distinct scopes travel under distinct codes, so reading back a scope's
/// code gives that scope.
pub proof fn lemma_transfer_scope_codes_distinct(a: TransferScope, b: TransferScope)
    ensures
        transfer_scope_code(a) == transfer_scope_code(b) ==> a == b,
{
    reveal_strlit("object-only");
    reveal_strlit("direct-relations");
    reveal_strlit("selected-subgraph");
    reveal_strlit("saved-scene");
    if transfer_scope_code(a) == transfer_scope_code(b) && a != b {
        assert(transfer_scope_code(a).len() != transfer_scope_code(b).len()
            || transfer_scope_code(a)[0] != transfer_scope_code(b)[0]
            || transfer_scope_code(a)[1] != transfer_scope_code(b)[1]);
    }
}

/// Distinct filters travel under distinct codes.
pub proof fn lemma_relation_filter_codes_distinct(a: RelationFamilyFilter, b: RelationFamilyFilter)
    ensures
        relation_filter_code(a) == relation_filter_code(b) ==> a == b,
{
    reveal_strlit("all");
    reveal_strlit("semantic");
    reveal_strlit("traversal");
    reveal_strlit("containment");
    reveal_strlit("arrangement");
    reveal_strlit("imported");
    reveal_strlit("provenance");
    if relation_filter_code(a) == relation_filter_code(b) && a != b {
        assert(relation_filter_code(a).len() != relation_filter_code(b).len()
            || relation_filter_code(a)[0] != relation_filter_code(b)[0]);
    }
}

/// Distinct editable relations travel under distinct codes.
pub proof fn lemma_editable_relation_codes_distinct(a: EditableRelation, b: EditableRelation)
    ensures
        editable_relation_code(a) == editable_relation_code(b) ==> a == b,
{
    reveal_strlit("user-grouped");
    reveal_strlit("cites");
    reveal_strlit("hyperlink");
    reveal_strlit("collection-member");
    reveal_strlit("frame-member");
    if editable_relation_code(a) == editable_relation_code(b) && a != b {
        assert(editable_relation_code(a).len() != editable_relation_code(b).len()
            || editable_relation_code(a)[0] != editable_relation_code(b)[0]);
    }
}

} // verus!

verus! {

/// Why a product operation was refused.
#[derive(Debug, PartialEq, Eq)]
pub enum ProductError {
    UnknownNode(u128),
    UnknownAddress(String),
    InvalidFacetJson(String),
    EmptySelection,
    InvalidCodicil(String),
    InvalidContentReference(String),
}

impl ProductError {
    /// The sentence this error reports.
    pub fn message(&self) -> (r: String)
        ensures
            r@ == match *self {
                ProductError::UnknownNode(id) => "unknown graph object "@ + uuid_hyphenated(id),
                ProductError::UnknownAddress(a) => "unknown address "@ + a@,
                ProductError::InvalidFacetJson(e) => "invalid facet JSON: "@ + e@,
                ProductError::EmptySelection => "the transfer scope contains no objects"@,
                ProductError::InvalidCodicil(e) => "invalid graph codicil: "@ + e@,
                ProductError::InvalidContentReference(e) => "invalid portable content reference: "@
                    + e@,
            },
    {
        let (head, tail): (&str, String) = match self {
            ProductError::UnknownNode(id) => ("unknown graph object ", uuid_text(*id)),
            ProductError::UnknownAddress(a) => ("unknown address ", a.clone()),
            ProductError::InvalidFacetJson(e) => ("invalid facet JSON: ", e.clone()),
            ProductError::EmptySelection => ("the transfer scope contains no objects", String::new()),
            ProductError::InvalidCodicil(e) => ("invalid graph codicil: ", e.clone()),
            ProductError::InvalidContentReference(e) => (
                "invalid portable content reference: ",
                e.clone(),
            ),
        };
        let mut out = head.to_owned();
        push_str(&mut out, tail.as_str());
        proof {
            if *self == ProductError::EmptySelection {
                assert(out@ =~= "the transfer scope contains no objects"@);
            }
        }
        out
    }
}

/// What transfer membership reads of the graph: the ids of its nodes, and
/// for each relation the ids of the nodes at its two ends (`None` for an end
/// whose node is gone).
#[derive(Debug, PartialEq, Eq)]
pub struct GraphFacts {
    pub nodes: Vec<u128>,
    pub relations: Vec<(Option<u128>, Option<u128>)>,
}

/// What an export asks for: the focused object, the selection, how much to
/// carry, and the selection a saved scene holds when it carries one.
#[derive(Debug, PartialEq, Eq)]
pub struct ExportRequest {
    pub focused: u128,
    pub selected: Vec<u128>,
    pub scope: TransferScope,
    pub exported_at_ms: u64,
    pub include_local_file_locations: bool,
    /// The saved scene's selected objects, when the request carries a scene.
    pub scene_selection: Option<Vec<u128>>,
}

/// Whether a relation touches `id` at either end.
pub open spec fn touches(r: (Option<u128>, Option<u128>), id: u128) -> bool {
    r.0 == Some(id) || r.1 == Some(id)
}

/// The objects a transfer of `scope` carries, when the focused object
/// exists: the focused object alone; it and every node at either end of a
/// relation touching it; the selected objects that exist; or the saved
/// scene's selected objects that exist.
pub open spec fn member_set(g: GraphFacts, req: ExportRequest) -> Set<u128> {
    match req.scope {
        TransferScope::ObjectOnly => set![req.focused],
        TransferScope::DirectRelations => Set::new(
            |x: u128|
                x == req.focused || exists|i: int|
                    0 <= i < g.relations@.len() && touches(#[trigger] g.relations@[i], req.focused)
                        && touches(g.relations@[i], x),
        ),
        TransferScope::SelectedSubgraph => Set::new(
            |x: u128| req.selected@.contains(x) && g.nodes@.contains(x),
        ),
        TransferScope::SavedScene => match req.scene_selection {
            Some(s) => Set::new(|x: u128| s@.contains(x) && g.nodes@.contains(x)),
            None => Set::empty(),
        },
    }
}

fn contains_id(v: &Vec<u128>, x: u128) -> (r: bool)
    ensures
        r == v@.contains(x),
{
    let mut i: usize = 0;
    while i < v.len()
        invariant
            i <= v@.len(),
            forall|j: int| 0 <= j < i ==> v@[j] != x,
        decreases v@.len() - i,
    {
        if v[i] == x {
            return true;
        }
        i = i + 1;
    }
    false
}

fn add_member(v: &mut Vec<u128>, x: u128)
    requires
        old(v)@.no_duplicates(),
    ensures
        final(v)@.no_duplicates(),
        final(v)@.to_set() == old(v)@.to_set().insert(x),
{
    if !contains_id(v, x) {
        let ghost before = v@;
        v.push(x);
        proof {
            before.lemma_push_to_set_commute(x);
            assert forall|i: int, j: int| 0 <= i < j < v@.len() implies v@[i] != v@[j] by {
                if j == before.len() {
                    assert(before.contains(before[i]));
                }
            }
        }
    } else {
        proof {
            assert(v@.to_set().insert(x) =~= v@.to_set());
        }
    }
}

/// The objects of `candidates` that exist in the graph.
fn existing(g: &GraphFacts, candidates: &Vec<u128>) -> (r: Vec<u128>)
    ensures
        r@.no_duplicates(),
        r@.to_set() == Set::new(|x: u128| candidates@.contains(x) && g.nodes@.contains(x)),
{
    let mut out: Vec<u128> = Vec::new();
    let mut i: usize = 0;
    while i < candidates.len()
        invariant
            i <= candidates@.len(),
            out@.no_duplicates(),
            out@.to_set() == Set::new(
                |x: u128| candidates@.subrange(0, i as int).contains(x) && g.nodes@.contains(x),
            ),
        decreases candidates@.len() - i,
    {
        let x = candidates[i];
        let ghost before = out@.to_set();
        if contains_id(&g.nodes, x) {
            add_member(&mut out, x);
        }
        proof {
            assert(candidates@.subrange(0, i + 1) =~= candidates@.subrange(0, i as int).push(x));
            assert(out@.to_set() =~= Set::new(
                |y: u128| candidates@.subrange(0, i + 1).contains(y) && g.nodes@.contains(y),
            )) by {
                assert forall|y: u128|
                    candidates@.subrange(0, i + 1).contains(y) && g.nodes@.contains(y) implies out@.to_set().contains(y) by {
                    if y != x {
                        let w = candidates@.subrange(0, i + 1);
                        let k = choose|k: int| 0 <= k < w.len() && #[trigger] w[k] == y;
                        assert(candidates@.subrange(0, i as int)[k] == y);
                    }
                }
                assert forall|y: u128| out@.to_set().contains(y) implies candidates@.subrange(
                    0,
                    i + 1,
                ).contains(y) && g.nodes@.contains(y) by {
                    if before.contains(y) {
                        let w = candidates@.subrange(0, i as int);
                        let k = choose|k: int| 0 <= k < w.len() && #[trigger] w[k] == y;
                        assert(candidates@.subrange(0, i + 1)[k] == y);
                    } else {
                        assert(candidates@.subrange(0, i + 1)[i as int] == y);
                    }
                }
            }
        }
        i = i + 1;
    }
    assert(candidates@.subrange(0, candidates@.len() as int) =~= candidates@);
    out
}

/// The objects a transfer carries, each once. The focused object must
/// exist; a saved-scene transfer without a scene selects nothing.
pub fn transfer_members(g: &GraphFacts, req: &ExportRequest) -> (r: Result<Vec<u128>, ProductError>)
    ensures
        !g.nodes@.contains(req.focused) ==> r == Err::<Vec<u128>, ProductError>(
            ProductError::UnknownNode(req.focused),
        ),
        g.nodes@.contains(req.focused) ==> match r {
            Ok(m) => m@.no_duplicates() && m@.to_set() == member_set(*g, *req),
            Err(e) => false,
        },
{
    if !contains_id(&g.nodes, req.focused) {
        return Err(ProductError::UnknownNode(req.focused));
    }
    match req.scope {
        TransferScope::ObjectOnly => {
            let mut m: Vec<u128> = Vec::new();
            m.push(req.focused);
            proof {
                assert(m@.to_set() =~= set![req.focused]) by {
                    assert(m@[0] == req.focused);
                }
            }
            Ok(m)
        },
        TransferScope::DirectRelations => {
            let mut m: Vec<u128> = Vec::new();
            m.push(req.focused);
            let f = req.focused;
            let mut i: usize = 0;
            proof {
                assert(m@.to_set() =~= set![f]) by {
                    assert(m@[0] == f);
                }
            }
            while i < g.relations.len()
                invariant
                    i <= g.relations@.len(),
                    f == req.focused,
                    m@.no_duplicates(),
                    m@.to_set() == Set::new(
                        |x: u128|
                            x == f || exists|k: int|
                                0 <= k < i && touches(#[trigger] g.relations@[k], f) && touches(
                                    g.relations@[k],
                                    x,
                                ),
                    ),
                decreases g.relations@.len() - i,
            {
                let rel = g.relations[i];
                let ghost before = m@.to_set();
                if rel.0 == Some(f) || rel.1 == Some(f) {
                    match rel.0 {
                        Some(a) => add_member(&mut m, a),
                        None => {},
                    }
                    match rel.1 {
                        Some(b) => add_member(&mut m, b),
                        None => {},
                    }
                }
                proof {
                    let next = Set::new(
                        |x: u128|
                            x == f || exists|k: int|
                                0 <= k < i + 1 && touches(#[trigger] g.relations@[k], f) && touches(
                                    g.relations@[k],
                                    x,
                                ),
                    );
                    assert(m@.to_set() =~= next) by {
                        assert forall|x: u128| next.contains(x) implies m@.to_set().contains(x) by {
                            if x != f {
                                let k = choose|k: int|
                                    0 <= k < i + 1 && touches(#[trigger] g.relations@[k], f)
                                        && touches(g.relations@[k], x);
                                if k < i {
                                    assert(before.contains(x));
                                }
                            } else {
                                assert(before.contains(x));
                            }
                        }
                        assert forall|x: u128| m@.to_set().contains(x) implies next.contains(x) by {
                            if !before.contains(x) {
                                assert(touches(g.relations@[i as int], f));
                                assert(touches(g.relations@[i as int], x));
                            } else if x != f {
                                let k = choose|k: int|
                                    0 <= k < i && touches(#[trigger] g.relations@[k], f) && touches(
                                        g.relations@[k],
                                        x,
                                    );
                                assert(0 <= k < i + 1);
                            }
                        }
                    }
                }
                i = i + 1;
            }
            Ok(m)
        },
        TransferScope::SelectedSubgraph => Ok(existing(g, &req.selected)),
        TransferScope::SavedScene => match &req.scene_selection {
            Some(s) => Ok(existing(g, s)),
            None => {
                let m: Vec<u128> = Vec::new();
                proof {
                    assert(m@.to_set() =~= Set::<u128>::empty());
                }
                Ok(m)
            },
        },
    }
}

/// The objects an exported codicil carries: a transfer's members, refused
/// when there are none.
pub fn export_members(g: &GraphFacts, req: &ExportRequest) -> (r: Result<Vec<u128>, ProductError>)
    ensures
        !g.nodes@.contains(req.focused) ==> r == Err::<Vec<u128>, ProductError>(
            ProductError::UnknownNode(req.focused),
        ),
        g.nodes@.contains(req.focused) && member_set(*g, *req).len() == 0 ==> r
            == Err::<Vec<u128>, ProductError>(ProductError::EmptySelection),
        g.nodes@.contains(req.focused) && member_set(*g, *req).len() > 0 ==> (r matches Ok(m)
            && m@.no_duplicates() && m@.to_set() == member_set(*g, *req)),
{
    match transfer_members(g, req) {
        Err(e) => Err(e),
        Ok(m) => {
            proof {
                m@.unique_seq_to_set();
            }
            if m.len() == 0 {
                Err(ProductError::EmptySelection)
            } else {
                Ok(m)
            }
        },
    }
}


/// Every relation end names a node the graph holds.
pub open spec fn ends_are_nodes(g: GraphFacts) -> bool {
    forall|i: int, x: u128|
        0 <= i < g.relations@.len() && #[trigger] touches(g.relations@[i], x) ==> g.nodes@.contains(x)
}

/// A transfer carries only objects the graph holds, whatever its scope.
pub proof fn lemma_transfer_carries_only_graph_objects(g: GraphFacts, req: ExportRequest)
    requires
        ends_are_nodes(g),
        g.nodes@.contains(req.focused),
    ensures
        forall|x: u128| member_set(g, req).contains(x) ==> g.nodes@.contains(x),
{
    assert forall|x: u128| member_set(g, req).contains(x) implies g.nodes@.contains(x) by {
        if req.scope == TransferScope::DirectRelations && x != req.focused {
            let i = choose|i: int|
                0 <= i < g.relations@.len() && touches(#[trigger] g.relations@[i], req.focused)
                    && touches(g.relations@[i], x);
            assert(touches(g.relations@[i], x));
        }
    }
}


/// What editing a node changes: its title, trimmed, and the tags to take
/// off and to put on, each in ascending order.
#[derive(Debug, PartialEq, Eq)]
pub struct NodeEdit {
    pub title: String,
    pub remove: Vec<String>,
    pub add: Vec<String>,
}

/// The tags an edit asks for: each given tag trimmed, blank ones dropped.
pub open spec fn wanted_tags(tags: Seq<String>) -> Set<Seq<char>> {
    Set::new(
        |t: Seq<char>| t.len() > 0 && exists|i: int| 0 <= i < tags.len() && trim(#[trigger] tags[i]@) == t,
    )
}

/// Plan an edit of node `id` to `title` and `tags`, given the tags it holds
/// now: the node must exist; tags it holds and no longer wants come off,
/// wanted tags it lacks go on.
pub fn plan_node_edit(
    g: &GraphFacts,
    id: u128,
    title: &str,
    tags: &Vec<String>,
    current: &Vec<String>,
) -> (r: Result<NodeEdit, ProductError>)
    ensures
        !g.nodes@.contains(id) ==> r == Err::<NodeEdit, ProductError>(ProductError::UnknownNode(id)),
        g.nodes@.contains(id) ==> (r matches Ok(e) && e.title@ == trim(title@)
            && strictly_sorted(string_views(e.remove@)) && string_views(e.remove@).to_set()
            == string_views(current@).to_set().difference(wanted_tags(tags@))
            && strictly_sorted(string_views(e.add@)) && string_views(e.add@).to_set()
            == wanted_tags(tags@).difference(string_views(current@).to_set())),
{
    if !contains_id(&g.nodes, id) {
        return Err(ProductError::UnknownNode(id));
    }
    let mut wanted: Vec<String> = Vec::new();
    let mut i: usize = 0;
    assert(string_views(wanted@).to_set() =~= Set::<Seq<char>>::empty());
    while i < tags.len()
        invariant
            i <= tags@.len(),
            strictly_sorted(string_views(wanted@)),
            string_views(wanted@).to_set() == wanted_tags(tags@.subrange(0, i as int)),
        decreases tags@.len() - i,
    {
        let ghost before = string_views(wanted@).to_set();
        let t = trim_chars(&chars_of(tags[i].as_str()));
        if t.len() > 0 {
            insert_sorted_string(&mut wanted, string_from_chars(&t));
        }
        proof {
            let p = tags@.subrange(0, i as int);
            let q = tags@.subrange(0, i + 1);
            assert(string_views(wanted@).to_set() =~= wanted_tags(q)) by {
                assert forall|x: Seq<char>| wanted_tags(q).contains(x) implies string_views(wanted@).to_set().contains(x) by {
                    let k = choose|k: int| 0 <= k < q.len() && trim(#[trigger] q[k]@) == x;
                    if k < i {
                        assert(p[k] == q[k]);
                        assert(wanted_tags(p).contains(x));
                    }
                }
                assert forall|x: Seq<char>| string_views(wanted@).to_set().contains(x) implies wanted_tags(q).contains(x) by {
                    if before.contains(x) {
                        let k = choose|k: int| 0 <= k < p.len() && trim(#[trigger] p[k]@) == x;
                        assert(q[k] == p[k]);
                    } else {
                        assert(q[i as int] == tags@[i as int]);
                    }
                }
            }
        }
        i = i + 1;
    }
    assert(tags@.subrange(0, tags@.len() as int) =~= tags@);
    let mut held: Vec<String> = Vec::new();
    let mut j: usize = 0;
    assert(string_views(held@).to_set() =~= string_views(current@.subrange(0, 0)).to_set());
    while j < current.len()
        invariant
            j <= current@.len(),
            strictly_sorted(string_views(held@)),
            string_views(held@).to_set() == string_views(current@.subrange(0, j as int)).to_set(),
        decreases current@.len() - j,
    {
        insert_sorted_string(&mut held, current[j].clone());
        proof {
            assert(string_views(current@.subrange(0, j + 1)) =~= string_views(
                current@.subrange(0, j as int),
            ).push(current@[j as int]@));
            string_views(current@.subrange(0, j as int)).lemma_push_to_set_commute(current@[j as int]@);
        }
        j = j + 1;
    }
    assert(current@.subrange(0, current@.len() as int) =~= current@);
    let remove = sorted_difference(&held, &wanted);
    let add = sorted_difference(&wanted, &held);
    let trimmed = string_from_chars(&trim_chars(&chars_of(title)));
    Ok(NodeEdit { title: trimmed, remove, add })
}


/// The family a relation belongs to.
#[derive(Clone, Copy, Debug, PartialEq, Eq, Structural)]
pub enum EdgeFamily {
    Semantic,
    Traversal,
    Containment,
    Arrangement,
    Imported,
    Provenance,
}

/// Whether a listing filtered by `f` shows relations of `family`: all of
/// them, or only its own family.
pub open spec fn filter_accepts(f: RelationFamilyFilter, family: EdgeFamily) -> bool {
    match f {
        RelationFamilyFilter::All => true,
        RelationFamilyFilter::Semantic => family == EdgeFamily::Semantic,
        RelationFamilyFilter::Traversal => family == EdgeFamily::Traversal,
        RelationFamilyFilter::Containment => family == EdgeFamily::Containment,
        RelationFamilyFilter::Arrangement => family == EdgeFamily::Arrangement,
        RelationFamilyFilter::Imported => family == EdgeFamily::Imported,
        RelationFamilyFilter::Provenance => family == EdgeFamily::Provenance,
    }
}

impl RelationFamilyFilter {
    /// Whether this filter shows relations of `family`.
    pub fn accepts(self, family: EdgeFamily) -> (r: bool)
        ensures
            r == filter_accepts(self, family),
    {
        match self {
            RelationFamilyFilter::All => true,
            RelationFamilyFilter::Semantic => family == EdgeFamily::Semantic,
            RelationFamilyFilter::Traversal => family == EdgeFamily::Traversal,
            RelationFamilyFilter::Containment => family == EdgeFamily::Containment,
            RelationFamilyFilter::Arrangement => family == EdgeFamily::Arrangement,
            RelationFamilyFilter::Imported => family == EdgeFamily::Imported,
            RelationFamilyFilter::Provenance => family == EdgeFamily::Provenance,
        }
    }
}

/// What a member search reads of a node: its id, title, address, tags and
/// facets.
#[derive(Debug, PartialEq)]
pub struct SearchNode {
    pub id: u128,
    pub title: String,
    pub address: String,
    pub tags: Vec<String>,
    pub facets: Vec<(String, JsonValue)>,
}

/// What a member search reads of the graph: its nodes in graph order, and
/// each relation's two ends and family.
#[derive(Debug, PartialEq)]
pub struct SearchGraph {
    pub nodes: Vec<SearchNode>,
    pub relations: Vec<(u128, u128, EdgeFamily)>,
}

/// What `str::to_lowercase` gives for `s`: Unicode's lowercase mapping.
pub uninterp spec fn unicode_lower(s: Seq<char>) -> Seq<char>;

/// `str::to_lowercase`, a function of the text alone.
#[verifier::external_body]
fn to_lower(s: &str) -> (r: String)
    ensures
        r@ == unicode_lower(s@),
{
    s.to_lowercase()
}

/// Whether `text`, lowercased, contains the query `q`.
pub open spec fn mentions(text: Seq<char>, q: Seq<char>) -> bool {
    contains_seq(unicode_lower(text), q)
}

/// Whether a node answers the query `q`: an empty query matches every node;
/// otherwise its title, address, a tag, a facet's name or a facet's JSON
/// must mention it.
pub open spec fn node_matches(n: SearchNode, q: Seq<char>) -> bool {
    ||| q.len() == 0
    ||| mentions(n.title@, q)
    ||| mentions(n.address@, q)
    ||| exists|i: int| 0 <= i < n.tags@.len() && mentions(#[trigger] n.tags@[i]@, q)
    ||| exists|i: int|
        0 <= i < n.facets@.len() && (mentions((#[trigger] n.facets@[i]).0@, q) || mentions(
            canonical(json_view(n.facets@[i].1)),
            q,
        ))
}

/// Whether a relation the filter shows ends at `id`.
pub open spec fn related(rels: Seq<(u128, u128, EdgeFamily)>, id: u128, f: RelationFamilyFilter) -> bool {
    exists|i: int|
        0 <= i < rels.len() && filter_accepts(f, (#[trigger] rels[i]).2) && (rels[i].0 == id
            || rels[i].1 == id)
}

/// The ids of the nodes a search lists, in graph order.
pub open spec fn search_spec(
    nodes: Seq<SearchNode>,
    rels: Seq<(u128, u128, EdgeFamily)>,
    q: Seq<char>,
    f: RelationFamilyFilter,
) -> Seq<u128>
    decreases nodes.len(),
{
    if nodes.len() == 0 {
        Seq::empty()
    } else {
        let n = nodes.last();
        search_spec(nodes.drop_last(), rels, q, f) + if (f == RelationFamilyFilter::All || related(
            rels,
            n.id,
            f,
        )) && node_matches(n, q) {
            seq![n.id]
        } else {
            Seq::empty()
        }
    }
}

fn mentions_exec(text: &str, q: &Vec<char>) -> (r: bool)
    ensures
        r == mentions(text@, q@),
{
    let lower = to_lower(text);
    contains_chars(&chars_of(lower.as_str()), q)
}

fn node_matches_exec(n: &SearchNode, q: &Vec<char>) -> (r: bool)
    ensures
        r == node_matches(*n, q@),
{
    if q.len() == 0 || mentions_exec(n.title.as_str(), q) || mentions_exec(n.address.as_str(), q) {
        return true;
    }
    let mut i: usize = 0;
    while i < n.tags.len()
        invariant
            i <= n.tags@.len(),
            forall|k: int| 0 <= k < i ==> !mentions(#[trigger] n.tags@[k]@, q@),
        decreases n.tags@.len() - i,
    {
        if mentions_exec(n.tags[i].as_str(), q) {
            return true;
        }
        i = i + 1;
    }
    let mut j: usize = 0;
    while j < n.facets.len()
        invariant
            j <= n.facets@.len(),
            forall|k: int|
                0 <= k < j ==> !mentions((#[trigger] n.facets@[k]).0@, q@) && !mentions(
                    canonical(json_view(n.facets@[k].1)),
                    q@,
                ),
        decreases n.facets@.len() - j,
    {
        if mentions_exec(n.facets[j].0.as_str(), q) {
            return true;
        }
        let mut text = String::new();
        write_canonical_json(&mut text, &n.facets[j].1);
        if mentions_exec(text.as_str(), q) {
            return true;
        }
        j = j + 1;
    }
    false
}

#[inline(never)]
fn related_exec(rels: &Vec<(u128, u128, EdgeFamily)>, id: u128, f: RelationFamilyFilter) -> (r: bool)
    ensures
        r == related(rels@, id, f),
{
    let mut i: usize = 0;
    while i < rels.len()
        invariant
            i <= rels@.len(),
            forall|k: int|
                0 <= k < i ==> !(filter_accepts(f, (#[trigger] rels@[k]).2) && (rels@[k].0 == id
                    || rels@[k].1 == id)),
        decreases rels@.len() - i,
    {
        let rel = &rels[i];
        if f.accepts(rel.2) && (rel.0 == id || rel.1 == id) {
            return true;
        }
        i = i + 1;
    }
    false
}

/// The nodes, in graph order, that a listing filtered by `family` shows
/// and that answer `query` (trimmed and lowercased). Under a family filter
/// only nodes at an end of a relation of that family are listed.
pub fn matching_members(g: &SearchGraph, query: &str, family: RelationFamilyFilter) -> (r: Vec<u128>)
    ensures
        r@ == search_spec(g.nodes@, g.relations@, unicode_lower(trim(query@)), family),
{
    let trimmed = string_from_chars(&trim_chars(&chars_of(query)));
    let q = chars_of(to_lower(trimmed.as_str()).as_str());
    let mut out: Vec<u128> = Vec::new();
    let mut i: usize = 0;
    assert(g.nodes@.subrange(0, 0) =~= Seq::<SearchNode>::empty());
    while i < g.nodes.len()
        invariant
            i <= g.nodes@.len(),
            q@ == unicode_lower(trim(query@)),
            out@ == search_spec(g.nodes@.subrange(0, i as int), g.relations@, q@, family),
        decreases g.nodes@.len() - i,
    {
        let n = &g.nodes[i];
        let shown = family == RelationFamilyFilter::All || related_exec(&g.relations, n.id, family);
        proof {
            assert(g.nodes@.subrange(0, i + 1).drop_last() =~= g.nodes@.subrange(0, i as int));
            assert(g.nodes@.subrange(0, i + 1).last() == g.nodes@[i as int]);
        }
        if shown && node_matches_exec(n, &q) {
            out.push(n.id);
        } else {
            proof {
                assert(out@ =~= out@ + Seq::<u128>::empty());
            }
        }
        i = i + 1;
    }
    assert(g.nodes@.subrange(0, g.nodes@.len() as int) =~= g.nodes@);
    out
}


} // verus!

verus! {

/// Whether a codicil declares a schema this build reads.
pub open spec fn codicil_schema_known(schema: Seq<char>) -> bool {
    schema == PRODUCT_CODICIL_SCHEMA@ || schema == LEGACY_PRODUCT_ENGRAM_SCHEMA@
}

/// Whether `ids` lists `id`.
pub open spec fn names_object(ids: Seq<String>, id: Seq<char>) -> bool {
    exists|i: int| 0 <= i < ids.len() && #[trigger] ids[i]@ == id
}

/// Every relation joins two objects the codicil carries.
pub open spec fn relations_closed(ids: Seq<String>, edges: Seq<(String, String)>) -> bool {
    forall|e: int| 0 <= e < edges.len() ==> names_object(ids, (#[trigger] edges[e]).0@) && names_object(ids, edges[e].1@)
}

fn lists_object(ids: &Vec<String>, id: &str) -> (r: bool)
    ensures
        r == names_object(ids@, id@),
{
    let mut i: usize = 0;
    while i < ids.len()
        invariant
            i <= ids@.len(),
            forall|k: int| 0 <= k < i ==> #[trigger] ids@[k]@ != id@,
        decreases ids@.len() - i,
    {
        if str_eq(ids[i].as_str(), id) {
            assert(ids@[i as int]@ == id@);
            return true;
        }
        i = i + 1;
    }
    false
}

/// Whether a decoded codicil may be imported: its schema must be the
/// current or the legacy one, and every relation it carries must join two
/// of its own objects. `node_ids` are the written ids of its objects,
/// `edges` the written ids each relation joins.
pub fn check_codicil(schema: &str, node_ids: &Vec<String>, edges: &Vec<(String, String)>) -> (r: Result<(), ProductError>)
    ensures
        match r {
            Ok(()) => codicil_schema_known(schema@) && relations_closed(node_ids@, edges@),
            Err(ProductError::InvalidCodicil(m)) => if !codicil_schema_known(schema@) {
                m@ == "expected "@ + PRODUCT_CODICIL_SCHEMA@ + " or legacy "@ + LEGACY_PRODUCT_ENGRAM_SCHEMA@
                    + ", found "@ + schema@
            } else {
                !relations_closed(node_ids@, edges@) && m@
                    == "a relation names an object outside the codicil"@
            },
            Err(_) => false,
        },
{
    if !str_eq(schema, PRODUCT_CODICIL_SCHEMA) && !str_eq(schema, LEGACY_PRODUCT_ENGRAM_SCHEMA) {
        let mut m = "expected ".to_owned();
        push_str(&mut m, PRODUCT_CODICIL_SCHEMA);
        push_str(&mut m, " or legacy ");
        push_str(&mut m, LEGACY_PRODUCT_ENGRAM_SCHEMA);
        push_str(&mut m, ", found ");
        push_str(&mut m, schema);
        return Err(ProductError::InvalidCodicil(m));
    }
    let mut e: usize = 0;
    while e < edges.len()
        invariant
            e <= edges@.len(),
            codicil_schema_known(schema@),
            forall|k: int| 0 <= k < e ==> names_object(node_ids@, (#[trigger] edges@[k]).0@) && names_object(node_ids@, edges@[k].1@),
        decreases edges@.len() - e,
    {
        if !lists_object(node_ids, edges[e].0.as_str()) || !lists_object(node_ids, edges[e].1.as_str()) {
            assert(!relations_closed(node_ids@, edges@)) by {
                assert(!(names_object(node_ids@, edges@[e as int].0@) && names_object(node_ids@, edges@[e as int].1@)));
            }
            return Err(ProductError::InvalidCodicil("a relation names an object outside the codicil".to_owned()));
        }
        e = e + 1;
    }
    Ok(())
}

} // verus!

verus! {

/// What an export carries of the graph around its members: the relations
/// joining two members, the facets of members (a member's local file
/// location only when asked for), each as positions in the source lists in
/// order, and the snapshot's time in whole seconds.
#[derive(Debug, PartialEq, Eq)]
pub struct ExportPlan {
    pub relations: Vec<usize>,
    pub facets: Vec<usize>,
    pub timestamp_secs: u64,
}

/// Exactly the positions below `n` where `keep` holds, ascending.
pub open spec fn positions_where(r: Seq<usize>, n: int, keep: spec_fn(int) -> bool) -> bool {
    &&& forall|a: int, b: int| 0 <= a < b < r.len() ==> r[a] < r[b]
    &&& forall|a: int| 0 <= a < r.len() ==> r[a] < n && keep(r[a] as int)
    &&& forall|i: int| 0 <= i < n && #[trigger] keep(i) ==> r.contains(i as usize)
}

/// Whether relation `i` joins two members.
pub open spec fn carries_relation(relations: Seq<(u128, u128)>, members: Seq<u128>, i: int) -> bool {
    members.contains(relations[i].0) && members.contains(relations[i].1)
}

/// Whether facet `i` travels: it belongs to a member, and it is not a local
/// file location unless those were asked for.
pub open spec fn carries_facet(facets: Seq<(u128, String)>, members: Seq<u128>, include_local_file_locations: bool, i: int) -> bool {
    members.contains(facets[i].0) && (include_local_file_locations || facets[i].1@ != LOCAL_FILE_FACET@)
}

/// Plan what an export of `members` carries: `relations` are the graph's
/// relations by the ids they join, `facets` its facets by node and facet id.
pub fn export_plan(
    relations: &Vec<(u128, u128)>,
    facets: &Vec<(u128, String)>,
    members: &Vec<u128>,
    include_local_file_locations: bool,
    exported_at_ms: u64,
) -> (r: ExportPlan)
    ensures
        positions_where(r.relations@, relations@.len() as int, |i: int| carries_relation(relations@, members@, i)),
        positions_where(
            r.facets@,
            facets@.len() as int,
            |i: int| carries_facet(facets@, members@, include_local_file_locations, i),
        ),
        r.timestamp_secs == exported_at_ms / 1000,
{
    let mut kept_relations: Vec<usize> = Vec::new();
    let mut i: usize = 0;
    while i < relations.len()
        invariant
            i <= relations@.len(),
            forall|a: int, b: int| 0 <= a < b < kept_relations@.len() ==> kept_relations@[a] < kept_relations@[b],
            forall|a: int| 0 <= a < kept_relations@.len() ==> kept_relations@[a] < i && carries_relation(relations@, members@, kept_relations@[a] as int),
            forall|k: int| 0 <= k < i && carries_relation(relations@, members@, k) ==> kept_relations@.contains(k as usize),
        decreases relations@.len() - i,
    {
        if contains_id(members, relations[i].0) && contains_id(members, relations[i].1) {
            let ghost before = kept_relations@;
            kept_relations.push(i);
            proof {
                assert forall|k: int| 0 <= k < i + 1 && carries_relation(relations@, members@, k) implies kept_relations@.contains(k as usize) by {
                    if k < i {
                        let w = choose|w: int| 0 <= w < before.len() && before[w] == k as usize;
                        assert(kept_relations@[w] == k as usize);
                    } else {
                        assert(kept_relations@[before.len() as int] == k as usize);
                    }
                }
            }
        }
        i = i + 1;
    }
    let mut kept_facets: Vec<usize> = Vec::new();
    let mut j: usize = 0;
    while j < facets.len()
        invariant
            j <= facets@.len(),
            forall|a: int, b: int| 0 <= a < b < kept_facets@.len() ==> kept_facets@[a] < kept_facets@[b],
            forall|a: int| 0 <= a < kept_facets@.len() ==> kept_facets@[a] < j && carries_facet(facets@, members@, include_local_file_locations, kept_facets@[a] as int),
            forall|k: int| 0 <= k < j && carries_facet(facets@, members@, include_local_file_locations, k) ==> kept_facets@.contains(k as usize),
        decreases facets@.len() - j,
    {
        if contains_id(members, facets[j].0) && (include_local_file_locations || !str_eq(facets[j].1.as_str(), LOCAL_FILE_FACET)) {
            let ghost before = kept_facets@;
            kept_facets.push(j);
            proof {
                assert forall|k: int| 0 <= k < j + 1 && carries_facet(facets@, members@, include_local_file_locations, k) implies kept_facets@.contains(k as usize) by {
                    if k < j {
                        let w = choose|w: int| 0 <= w < before.len() && before[w] == k as usize;
                        assert(kept_facets@[w] == k as usize);
                    } else {
                        assert(kept_facets@[before.len() as int] == k as usize);
                    }
                }
            }
        }
        j = j + 1;
    }
    ExportPlan { relations: kept_relations, facets: kept_facets, timestamp_secs: exported_at_ms / 1000 }
}

} // verus!
