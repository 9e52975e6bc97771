use graphshell::conflicts::{collect_conflicts, conflict_event, ConflictEvent, ConflictRecord};
use graphshell::json::JsonValue;
use graphshell::personal_sync::{PersonalGraphEvent, SyncConflict, SyncSelection};

fn edit(target: &str, content: &[u8]) -> ConflictEvent {
    ConflictEvent { target: Some(target.to_string()), content: content.to_vec() }
}

fn record(op: u8, events: Vec<ConflictEvent>) -> ConflictRecord {
    ConflictRecord { operation: [op; 32], effective: true, events }
}

fn unordered(n: usize) -> Vec<Vec<bool>> {
    vec![vec![false; n]; n]
}

#[test]
fn concurrent_different_edits_to_one_target_are_reported() {
    let records = vec![
        record(9, vec![edit("node/a/title", b"first")]),
        record(3, vec![edit("node/a/title", b"second")]),
    ];
    let report = collect_conflicts(&records, &unordered(2));
    assert_eq!(
        report,
        vec![SyncConflict { target: "node/a/title".into(), operations: vec![[3; 32], [9; 32]] }]
    );
}

#[test]
fn the_same_edit_made_twice_is_no_conflict() {
    let records = vec![
        record(1, vec![edit("node/a/title", b"same")]),
        record(2, vec![edit("node/a/title", b"same")]),
    ];
    assert!(collect_conflicts(&records, &unordered(2)).is_empty());
}

#[test]
fn causally_ordered_edits_are_no_conflict() {
    let records = vec![
        record(1, vec![edit("node/a/title", b"first")]),
        record(2, vec![edit("node/a/title", b"second")]),
    ];
    let mut before = unordered(2);
    before[0][1] = true;
    assert!(collect_conflicts(&records, &before).is_empty());
    let mut after = unordered(2);
    after[1][0] = true;
    assert!(collect_conflicts(&records, &after).is_empty());
}

#[test]
fn operations_outside_the_causal_order_and_unprojected_events_are_ignored() {
    let mut excluded = record(2, vec![edit("node/a/title", b"second")]);
    excluded.effective = false;
    let records = vec![record(1, vec![edit("node/a/title", b"first")]), excluded];
    assert!(collect_conflicts(&records, &unordered(2)).is_empty());

    let hidden = ConflictEvent { target: None, content: b"second".to_vec() };
    let records = vec![record(1, vec![edit("node/a/title", b"first")]), record(2, vec![hidden])];
    assert!(collect_conflicts(&records, &unordered(2)).is_empty());
}

#[test]
fn each_target_lists_every_operation_that_clashed_on_it() {
    let records = vec![
        record(5, vec![edit("node/b/title", b"x"), edit("handler/mere", b"one")]),
        record(4, vec![edit("node/b/title", b"y")]),
        record(6, vec![edit("handler/mere", b"two"), edit("node/b/title", b"x")]),
    ];
    // The first and the last agree on the title, so each clashes there only
    // with the second; the handler clash is between the first and the last.
    let report = collect_conflicts(&records, &unordered(3));
    assert_eq!(
        report,
        vec![
            SyncConflict { target: "handler/mere".into(), operations: vec![[5; 32], [6; 32]] },
            SyncConflict {
                target: "node/b/title".into(),
                operations: vec![[4; 32], [5; 32], [6; 32]],
            },
        ]
    );
}

#[test]
fn a_conflict_event_carries_a_target_only_when_the_event_projects() {
    let event = PersonalGraphEvent::SetFacet {
        node: 1,
        facet: "graphshell.transfer-offer/v1".into(),
        value: JsonValue::Null,
    };
    let off = conflict_event(&SyncSelection::default(), &event, "", b"body".to_vec());
    assert_eq!(off.target, None);
    assert_eq!(off.content, b"body".to_vec());
    let on = conflict_event(
        &SyncSelection::default().with_facets(vec!["graphshell.transfer-offer/v1".to_string()]),
        &event,
        "",
        b"body".to_vec(),
    );
    assert_eq!(
        on.target.as_deref(),
        Some("node/00000000-0000-0000-0000-000000000001/facet/graphshell.transfer-offer/v1")
    );
}
