use graphshell::projection_editor::{ProjectionPanel, PROJECTION_EDITOR_PANEL_KIND};

#[test]
fn every_panel_has_a_distinct_tile_and_comes_back_from_it() {
    let panels = ProjectionPanel::all();
    let mut ids: Vec<u64> = panels.iter().map(|panel| panel.tile_id()).collect();
    assert_eq!(ids, vec![1, 2, 3, 4, 5, 6, 7]);
    for panel in panels {
        assert_eq!(ProjectionPanel::from_tile_id(panel.tile_id()), Some(panel));
    }
    assert_eq!(ProjectionPanel::from_tile_id(0), None);
    assert_eq!(ProjectionPanel::from_tile_id(8), None);
    ids.dedup();
    assert_eq!(ids.len(), 7);
}

#[test]
fn panels_open_on_the_source_and_name_their_content() {
    assert_eq!(ProjectionPanel::default(), ProjectionPanel::Source);
    assert_eq!(ProjectionPanel::Source.content_id(), "source");
    assert_eq!(ProjectionPanel::Preview.content_id(), "preview");
    assert_eq!(ProjectionPanel::Source.label(), "Source");
    assert_eq!(PROJECTION_EDITOR_PANEL_KIND, "graphshell.projection-editor.panel");
}
