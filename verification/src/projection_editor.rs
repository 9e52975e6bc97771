//! The panels of host-neutral projection authoring: their labels, the open
//! content lanes that render them, and their stable workspace tile ids.

use vstd::prelude::*;

use crate::text::ascii_lower;

verus! {

/// The plain panels a host may expose for projection authoring.
#[derive(Clone, Copy, Debug, PartialEq, Eq, Structural)]
pub enum ProjectionPanel {
    Source,
    Reading,
    Encoding,
    Arrangement,
    Interaction,
    Preview,
    Provenance,
}

/// The workspace tile kind every editor panel is opened as.
pub const PROJECTION_EDITOR_PANEL_KIND: &'static str = "graphshell.projection-editor.panel";

pub open spec fn panel_tile_id(p: ProjectionPanel) -> u64 {
    match p {
        ProjectionPanel::Source => 1,
        ProjectionPanel::Reading => 2,
        ProjectionPanel::Encoding => 3,
        ProjectionPanel::Arrangement => 4,
        ProjectionPanel::Interaction => 5,
        ProjectionPanel::Preview => 6,
        ProjectionPanel::Provenance => 7,
    }
}

pub open spec fn panel_label(p: ProjectionPanel) -> Seq<char> {
    match p {
        ProjectionPanel::Source => "Source"@,
        ProjectionPanel::Reading => "Reading"@,
        ProjectionPanel::Encoding => "Encoding"@,
        ProjectionPanel::Arrangement => "Arrangement"@,
        ProjectionPanel::Interaction => "Interaction"@,
        ProjectionPanel::Preview => "Preview"@,
        ProjectionPanel::Provenance => "Provenance"@,
    }
}

pub open spec fn panel_content_id(p: ProjectionPanel) -> Seq<char> {
    match p {
        ProjectionPanel::Source => "source"@,
        ProjectionPanel::Reading => "reading"@,
        ProjectionPanel::Encoding => "encoding"@,
        ProjectionPanel::Arrangement => "arrangement"@,
        ProjectionPanel::Interaction => "interaction"@,
        ProjectionPanel::Preview => "preview"@,
        ProjectionPanel::Provenance => "provenance"@,
    }
}

impl Default for ProjectionPanel {
    /// Authoring opens on the source panel.
    fn default() -> (r: Self)
        ensures
            r == ProjectionPanel::Source,
    {
        ProjectionPanel::Source
    }
}

impl ProjectionPanel {
    /// Every panel, in tab order.
    pub fn all() -> (r: [ProjectionPanel; 7])
        ensures
            forall|i: int| 0 <= i < 7 ==> panel_tile_id(#[trigger] r@[i]) == i + 1,
    {
        [
            ProjectionPanel::Source,
            ProjectionPanel::Reading,
            ProjectionPanel::Encoding,
            ProjectionPanel::Arrangement,
            ProjectionPanel::Interaction,
            ProjectionPanel::Preview,
            ProjectionPanel::Provenance,
        ]
    }

    /// The panel's tab title.
    pub fn label(self) -> (r: &'static str)
        ensures
            r@ == panel_label(self),
    {
        match self {
            ProjectionPanel::Source => "Source",
            ProjectionPanel::Reading => "Reading",
            ProjectionPanel::Encoding => "Encoding",
            ProjectionPanel::Arrangement => "Arrangement",
            ProjectionPanel::Interaction => "Interaction",
            ProjectionPanel::Preview => "Preview",
            ProjectionPanel::Provenance => "Provenance",
        }
    }

    /// Stable workspace tile identity for this editor tool.
    pub fn tile_id(self) -> (r: u64)
        ensures
            r == panel_tile_id(self),
    {
        match self {
            ProjectionPanel::Source => 1,
            ProjectionPanel::Reading => 2,
            ProjectionPanel::Encoding => 3,
            ProjectionPanel::Arrangement => 4,
            ProjectionPanel::Interaction => 5,
            ProjectionPanel::Preview => 6,
            ProjectionPanel::Provenance => 7,
        }
    }

    /// Open content-lane id resolved by the host.
    pub fn content_id(self) -> (r: &'static str)
        ensures
            r@ == panel_content_id(self),
    {
        match self {
            ProjectionPanel::Source => "source",
            ProjectionPanel::Reading => "reading",
            ProjectionPanel::Encoding => "encoding",
            ProjectionPanel::Arrangement => "arrangement",
            ProjectionPanel::Interaction => "interaction",
            ProjectionPanel::Preview => "preview",
            ProjectionPanel::Provenance => "provenance",
        }
    }

    /// Recover the editor tool a workspace tile represents.
    pub fn from_tile_id(id: u64) -> (r: Option<Self>)
        ensures
            match r {
                Some(p) => panel_tile_id(p) == id,
                None => forall|p: ProjectionPanel| panel_tile_id(p) != id,
            },
    {
        match id {
            1 => Some(ProjectionPanel::Source),
            2 => Some(ProjectionPanel::Reading),
            3 => Some(ProjectionPanel::Encoding),
            4 => Some(ProjectionPanel::Arrangement),
            5 => Some(ProjectionPanel::Interaction),
            6 => Some(ProjectionPanel::Preview),
            7 => Some(ProjectionPanel::Provenance),
            _ => None,
        }
    }
}

/// A panel's tile id reads back as that panel, and no two panels share one.
pub proof fn lemma_tile_ids_round_trip(p: ProjectionPanel, q: ProjectionPanel)
    ensures
        1 <= panel_tile_id(p) <= 7,
        panel_tile_id(p) == panel_tile_id(q) ==> p == q,
{
}

/// A panel's content lane is its label in ASCII lowercase.
pub proof fn lemma_content_id_is_lowercase_label(p: ProjectionPanel)
    ensures
        panel_content_id(p) == ascii_lower(panel_label(p)),
{
    match p {
        ProjectionPanel::Source => {
            reveal_strlit("Source");
            reveal_strlit("source");
            assert(ascii_lower("Source"@) =~= "source"@);
        },
        ProjectionPanel::Reading => {
            reveal_strlit("Reading");
            reveal_strlit("reading");
            assert(ascii_lower("Reading"@) =~= "reading"@);
        },
        ProjectionPanel::Encoding => {
            reveal_strlit("Encoding");
            reveal_strlit("encoding");
            assert(ascii_lower("Encoding"@) =~= "encoding"@);
        },
        ProjectionPanel::Arrangement => {
            reveal_strlit("Arrangement");
            reveal_strlit("arrangement");
            assert(ascii_lower("Arrangement"@) =~= "arrangement"@);
        },
        ProjectionPanel::Interaction => {
            reveal_strlit("Interaction");
            reveal_strlit("interaction");
            assert(ascii_lower("Interaction"@) =~= "interaction"@);
        },
        ProjectionPanel::Preview => {
            reveal_strlit("Preview");
            reveal_strlit("preview");
            assert(ascii_lower("Preview"@) =~= "preview"@);
        },
        ProjectionPanel::Provenance => {
            reveal_strlit("Provenance");
            reveal_strlit("provenance");
            assert(ascii_lower("Provenance"@) =~= "provenance"@);
        },
    }
}

/// No two panels share a content lane.
pub proof fn lemma_content_ids_distinct(p: ProjectionPanel, q: ProjectionPanel)
    ensures
        panel_content_id(p) == panel_content_id(q) ==> p == q,
{
    reveal_strlit("source");
    reveal_strlit("reading");
    reveal_strlit("encoding");
    reveal_strlit("arrangement");
    reveal_strlit("interaction");
    reveal_strlit("preview");
    reveal_strlit("provenance");
    if panel_content_id(p) == panel_content_id(q) && p != q {
        assert(panel_content_id(p).len() != panel_content_id(q).len() || panel_content_id(p)[0]
            != panel_content_id(q)[0] || panel_content_id(p)[1] != panel_content_id(q)[1]);
    }
}

/// The result of reducing one editor action.
#[derive(Clone, Copy, Debug, PartialEq, Eq, Structural)]
pub enum ReduceResult {
    Changed,
    PanelChanged,
}

} // verus!
