use graphshell::json::{JsonNumber, JsonValue};
use graphshell::product::{
    check_codicil, export_plan, ExportPlan, LOCAL_FILE_FACET, LEGACY_PRODUCT_ENGRAM_SCHEMA, PRODUCT_CODICIL_SCHEMA, matching_members, EdgeFamily, SearchGraph, SearchNode, plan_node_edit, NodeEdit, export_members, transfer_members, ExportRequest, GraphFacts, ProductError, TransferScope,
    RelationFamilyFilter,
};

fn graph() -> GraphFacts {
    GraphFacts {
        nodes: vec![1, 2, 3, 4, 5],
        relations: vec![
            (Some(1), Some(2)),
            (Some(3), Some(1)),
            (Some(1), None),
            (Some(4), Some(5)),
        ],
    }
}

fn request(scope: TransferScope) -> ExportRequest {
    ExportRequest {
        focused: 1,
        selected: vec![2, 9, 4, 2],
        scope,
        exported_at_ms: 1_700_000_000_000,
        include_local_file_locations: false,
        scene_selection: None,
    }
}

fn sorted(mut v: Vec<u128>) -> Vec<u128> {
    v.sort();
    v
}

#[test]
fn an_object_transfer_carries_the_focused_object_alone() {
    assert_eq!(transfer_members(&graph(), &request(TransferScope::ObjectOnly)), Ok(vec![1]));
}

#[test]
fn a_direct_transfer_carries_both_ends_of_every_relation_touching_the_focus() {
    let members = transfer_members(&graph(), &request(TransferScope::DirectRelations)).unwrap();
    assert_eq!(sorted(members), vec![1, 2, 3]);
}

#[test]
fn a_subgraph_transfer_carries_the_selected_objects_that_exist() {
    let members = transfer_members(&graph(), &request(TransferScope::SelectedSubgraph)).unwrap();
    assert_eq!(sorted(members), vec![2, 4]);
}

#[test]
fn a_scene_transfer_needs_a_scene() {
    let mut req = request(TransferScope::SavedScene);
    assert_eq!(transfer_members(&graph(), &req), Ok(vec![]));
    assert_eq!(export_members(&graph(), &req), Err(ProductError::EmptySelection));
    req.scene_selection = Some(vec![5, 6, 5]);
    assert_eq!(export_members(&graph(), &req), Ok(vec![5]));
}

#[test]
fn an_unknown_focus_is_refused_by_id() {
    let mut req = request(TransferScope::ObjectOnly);
    req.focused = 0x67e5_5044_10b1_426f_9247_bb68_0e5f_e0c8;
    let error = transfer_members(&graph(), &req).unwrap_err();
    assert_eq!(error, ProductError::UnknownNode(req.focused));
    assert_eq!(error.message(), "unknown graph object 67e55044-10b1-426f-9247-bb680e5fe0c8");
}

#[test]
fn product_errors_read_as_sentences() {
    assert_eq!(
        ProductError::EmptySelection.message(),
        "the transfer scope contains no objects"
    );
    assert_eq!(
        ProductError::InvalidCodicil("bad schema".to_string()).message(),
        "invalid graph codicil: bad schema"
    );
    assert_eq!(
        ProductError::UnknownAddress("https://x".to_string()).message(),
        "unknown address https://x"
    );
}

#[test]
fn scope_and_filter_codes_round_trip() {
    for scope in [
        TransferScope::ObjectOnly,
        TransferScope::DirectRelations,
        TransferScope::SelectedSubgraph,
        TransferScope::SavedScene,
    ] {
        assert_eq!(TransferScope::from_code(scope.code()), Some(scope));
    }
    assert_eq!(TransferScope::ObjectOnly.code(), "object-only");
    assert_eq!(TransferScope::from_code("everything"), None);
    assert_eq!(RelationFamilyFilter::from_code("provenance"), Some(RelationFamilyFilter::Provenance));
}

#[test]
fn an_edit_trims_and_diffs_the_tags() {
    let edit = plan_node_edit(
        &graph(),
        2,
        "  Reading list ",
        &vec![" music ".to_string(), "".to_string(), "  ".to_string(), "books".to_string(), "music".to_string()],
        &vec!["archive".to_string(), "books".to_string()],
    )
    .unwrap();
    assert_eq!(
        edit,
        NodeEdit {
            title: "Reading list".to_string(),
            remove: vec!["archive".to_string()],
            add: vec!["music".to_string()],
        }
    );
}

#[test]
fn an_edit_to_the_tags_already_held_changes_no_tags() {
    let edit = plan_node_edit(
        &graph(),
        3,
        "Title",
        &vec!["b".to_string(), "a".to_string()],
        &vec!["a".to_string(), "b".to_string()],
    )
    .unwrap();
    assert!(edit.remove.is_empty() && edit.add.is_empty());
}

#[test]
fn editing_an_unknown_node_is_refused() {
    assert_eq!(
        plan_node_edit(&graph(), 42, "t", &vec![], &vec![]),
        Err(ProductError::UnknownNode(42))
    );
}

fn search_graph() -> SearchGraph {
    SearchGraph {
        nodes: vec![
            SearchNode {
                id: 1,
                title: "Étude in C".to_string(),
                address: "https://example.org/etude".to_string(),
                tags: vec!["music".to_string()],
                facets: vec![],
            },
            SearchNode {
                id: 2,
                title: "Groceries".to_string(),
                address: "note:groceries".to_string(),
                tags: vec![],
                facets: vec![(
                    "graphshell.content/v1".to_string(),
                    JsonValue::Object(vec![(
                        "byte_len".to_string(),
                        JsonValue::Number(JsonNumber::PosInt(4096)),
                    )]),
                )],
            },
            SearchNode {
                id: 3,
                title: "Loose".to_string(),
                address: "note:loose".to_string(),
                tags: vec!["Archive".to_string()],
                facets: vec![],
            },
        ],
        relations: vec![(1, 2, EdgeFamily::Semantic), (2, 2, EdgeFamily::Provenance)],
    }
}

#[test]
fn an_empty_query_lists_every_node_the_filter_shows() {
    let g = search_graph();
    assert_eq!(matching_members(&g, "   ", RelationFamilyFilter::All), vec![1, 2, 3]);
    assert_eq!(matching_members(&g, "", RelationFamilyFilter::Semantic), vec![1, 2]);
    assert_eq!(matching_members(&g, "", RelationFamilyFilter::Provenance), vec![2]);
    assert!(matching_members(&g, "", RelationFamilyFilter::Traversal).is_empty());
}

#[test]
fn a_query_matches_titles_addresses_tags_and_facets_ignoring_case() {
    let g = search_graph();
    assert_eq!(matching_members(&g, " ÉTUDE ", RelationFamilyFilter::All), vec![1]);
    assert_eq!(matching_members(&g, "NOTE:", RelationFamilyFilter::All), vec![2, 3]);
    assert_eq!(matching_members(&g, "archive", RelationFamilyFilter::All), vec![3]);
    assert_eq!(matching_members(&g, "4096", RelationFamilyFilter::All), vec![2]);
    assert_eq!(matching_members(&g, "content/v1", RelationFamilyFilter::All), vec![2]);
    assert!(matching_members(&g, "nowhere", RelationFamilyFilter::All).is_empty());
    assert!(RelationFamilyFilter::All.accepts(EdgeFamily::Imported));
    assert!(!RelationFamilyFilter::Semantic.accepts(EdgeFamily::Imported));
}

#[test]
fn a_codicil_must_name_a_known_schema_and_close_its_relations() {
    let ids = vec!["a".to_string(), "b".to_string()];
    let inside = vec![("a".to_string(), "b".to_string())];
    assert_eq!(check_codicil(PRODUCT_CODICIL_SCHEMA, &ids, &inside), Ok(()));
    assert_eq!(check_codicil(LEGACY_PRODUCT_ENGRAM_SCHEMA, &ids, &inside), Ok(()));
    assert_eq!(check_codicil(PRODUCT_CODICIL_SCHEMA, &ids, &Vec::new()), Ok(()));
    assert_eq!(
        check_codicil("graphshell.graph-codicil/v9", &ids, &inside),
        Err(ProductError::InvalidCodicil(
            "expected graphshell.graph-codicil/v2 or legacy graphshell.graph-engram/v1, found graphshell.graph-codicil/v9"
                .to_string()
        ))
    );
    let outside = vec![("a".to_string(), "c".to_string())];
    let refused = check_codicil(PRODUCT_CODICIL_SCHEMA, &ids, &outside).unwrap_err();
    assert_eq!(
        refused.message(),
        "invalid graph codicil: a relation names an object outside the codicil"
    );
}

#[test]
fn an_export_carries_member_relations_and_facets_but_local_files_only_when_asked() {
    let relations = vec![(1, 2), (2, 9), (3, 1), (9, 8)];
    let facets = vec![
        (1, "graphshell.note/v1".to_string()),
        (9, "graphshell.note/v1".to_string()),
        (2, LOCAL_FILE_FACET.to_string()),
        (3, "graphshell.tag/v1".to_string()),
    ];
    let members = vec![3, 1, 2];
    assert_eq!(
        export_plan(&relations, &facets, &members, false, 1_712_345_678_901),
        ExportPlan { relations: vec![0, 2], facets: vec![0, 3], timestamp_secs: 1_712_345_678 }
    );
    assert_eq!(export_plan(&relations, &facets, &members, true, 999).facets, vec![0, 2, 3]);
    assert_eq!(export_plan(&relations, &facets, &members, true, 999).timestamp_secs, 0);
}
