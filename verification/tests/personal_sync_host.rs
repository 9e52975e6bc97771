use graphshell::availability::BlobAvailability;
use graphshell::personal_sync::BlobAvailabilityObservation;
use graphshell::personal_sync_host::{
    plan_key_reconciliation, KeyPlan, blob_card, blob_cards, check_bound_identity, node_card, summary_card, SyncCounts,
    MAX_NODE_CARDS, supplemental_cards, fetch_step, FetchStep, AcceptNames, NodeFacts, TransferOffer,
};
use graphshell::session_item::{CardValue, PortableCard};

fn seen(record_id: u128, blob: [u8; 32], device: &str, available: bool, at_ms: u64) -> BlobAvailabilityObservation {
    BlobAvailabilityObservation {
        record_id,
        container_id: 1,
        blob,
        device: device.to_string(),
        available,
        at_ms,
    }
}

#[test]
fn the_summary_card_counts_what_the_projection_holds() {
    let card = summary_card(
        &[0xAB; 32],
        &SyncCounts {
            nodes: 3,
            relations: 2,
            access_records: 0,
            blob_observations: 11,
            conflicts: 1,
            pending: 0,
        },
    );
    assert_eq!(card.adapter, "graphshell.personal-sync");
    assert_eq!(card.source_id, "ab".repeat(32));
    assert_eq!(card.card.title, "Personal graph sync");
    let values: Vec<(&str, &str)> = card
        .card
        .values
        .iter()
        .map(|v| (v.label.as_str(), v.value.as_str()))
        .collect();
    let graph = "ab".repeat(32);
    assert_eq!(
        values,
        vec![
            ("Graph", graph.as_str()),
            ("Nodes", "3"),
            ("Relations", "2"),
            ("Access records", "0"),
            ("Blob observations", "11"),
            ("Conflicts", "1"),
            ("Pending history", "0"),
        ]
    );
    assert_eq!(card.card.badges, vec!["Durable", "Personae admitted"]);
}

#[test]
fn a_node_card_sorts_its_tags_and_falls_back_to_its_address() {
    let id = 0x67e5_5044_10b1_426f_9247_bb68_0e5f_e0c8u128;
    let card = node_card(
        id,
        "",
        "https://example.org/a",
        &vec!["zeta".to_string(), "alpha".to_string(), "mid".to_string()],
    );
    assert_eq!(card.adapter, "mere.graph");
    assert_eq!(card.source_id, "67e55044-10b1-426f-9247-bb680e5fe0c8");
    assert_eq!(card.card.title, "https://example.org/a");
    assert_eq!(card.card.values[0].label, "Address");
    assert_eq!(card.card.values[0].value, "https://example.org/a");
    assert_eq!(card.card.values[1].label, "Tags");
    assert_eq!(card.card.values[1].value, "alpha, mid, zeta");
    assert_eq!(card.card.badges, vec!["Synced graph node"]);

    let untagged = node_card(1, "Reading list", "https://example.org/b", &Vec::new());
    assert_eq!(untagged.card.title, "Reading list");
    assert_eq!(untagged.card.values[1].value, "none");
    assert_eq!(MAX_NODE_CARDS, 128);
}

#[test]
fn a_blob_card_names_its_holders_and_counts_every_statement() {
    let blob = [0x5A; 32];
    let mut ledger = BlobAvailability::new();
    ledger.observe(seen(1, blob, "laptop", true, 10));
    ledger.observe(seen(2, blob, "desk", true, 11));
    ledger.observe(seen(3, blob, "phone", true, 12));
    ledger.observe(seen(4, blob, "phone", false, 13));
    ledger.observe(seen(5, [0x01; 32], "desk", true, 14));
    let card = blob_card(&ledger, &blob);
    assert_eq!(card.adapter, "graphshell.blob-availability");
    assert_eq!(card.source_id, "5a".repeat(32));
    assert_eq!(card.card.title, "Blob 5a5a5a5a5a5a");
    assert_eq!(card.card.values[0].label, "Available on");
    assert_eq!(card.card.values[0].value, "desk, laptop");
    assert_eq!(card.card.values[1].label, "Observations");
    assert_eq!(card.card.values[1].value, "4");
    assert_eq!(card.card.badges, vec!["Availability only", "Bytes stay out of graph sync"]);

    let cards = blob_cards(&ledger);
    let ids: Vec<&str> = cards.iter().map(|c| c.source_id.as_str()).collect();
    let low = "01".repeat(32);
    let high = "5a".repeat(32);
    assert_eq!(ids, vec![low.as_str(), high.as_str()]);
}

#[test]
fn a_blob_nobody_holds_any_longer_gets_no_card() {
    let blob = [0x77; 32];
    let mut ledger = BlobAvailability::new();
    ledger.observe(seen(1, blob, "desk", true, 10));
    ledger.observe(seen(2, blob, "desk", false, 20));
    assert!(blob_cards(&ledger).is_empty());
    assert!(ledger.available_blobs().is_empty());
    assert_eq!(ledger.statement_count(&blob), 2);
}

#[test]
fn the_transport_must_speak_as_the_derived_device() {
    assert_eq!(check_bound_identity(&[3; 32], &[3; 32]), Ok(()));
    assert_eq!(
        check_bound_identity(&[3; 32], &[4; 32]),
        Err(format!(
            "transport bound as {} but this device addresses itself as {}",
            "03".repeat(32),
            "04".repeat(32)
        ))
    );
}

fn id(b: u8) -> [u8; 32] {
    [b; 32]
}

#[test]
fn reconciliation_removes_unjustified_seats_and_seats_new_readers() {
    // Roots 0x1_ publish seats 0x2_; this device holds seat 0x21.
    let prekeys = vec![(id(0x11), id(0x21)), (id(0x12), id(0x22)), (id(0x13), id(0x23)), (id(0x14), id(0x24))];
    let readers = vec![id(0x11), id(0x13), id(0x14), id(0x15)];
    let seated = vec![id(0x21), id(0x22), id(0x23), id(0x29)];
    let plan = plan_key_reconciliation(&seated, &id(0x21), &prekeys, &readers);
    assert_eq!(
        plan,
        KeyPlan {
            // 0x22's root no longer reads; no pre-key accounts for 0x29.
            remove: vec![id(0x22), id(0x29)],
            // Root 0x14 published 0x24; root 0x15 has not published yet.
            add: vec![id(0x24)],
        }
    );
}

#[test]
fn reconciling_twice_changes_nothing_the_second_time() {
    let prekeys = vec![(id(0x11), id(0x21)), (id(0x12), id(0x22)), (id(0x13), id(0x23))];
    let readers = vec![id(0x11), id(0x13)];
    let seated = vec![id(0x21), id(0x22)];
    let first = plan_key_reconciliation(&seated, &id(0x21), &prekeys, &readers);
    let after: Vec<[u8; 32]> = seated
        .iter()
        .filter(|seat| !first.remove.contains(seat))
        .copied()
        .chain(first.add.iter().copied())
        .collect();
    let second = plan_key_reconciliation(&after, &id(0x21), &prekeys, &readers);
    assert!(second.remove.is_empty() && second.add.is_empty());
}

#[test]
fn a_seat_follows_its_roots_latest_prekey() {
    let prekeys = vec![(id(0x11), id(0x21)), (id(0x11), id(0x31))];
    let plan = plan_key_reconciliation(&vec![id(0x40)], &id(0x40), &prekeys, &vec![id(0x11)]);
    assert_eq!(plan.add, vec![id(0x31)]);
    assert!(plan.remove.is_empty());
}

fn accept_names() -> AcceptNames {
    AcceptNames { intent: "transfer.accept".to_string(), schema: "transfer-accept/v1".to_string() }
}

fn node(id: u128, title: &str) -> NodeFacts {
    NodeFacts {
        id,
        title: title.to_string(),
        address: format!("mere://node/{id}"),
        tags: Vec::new(),
        receipt: None,
    }
}

#[test]
fn the_surface_lists_summary_then_nodes_by_id_then_held_blobs() {
    let counts = SyncCounts { nodes: 3, relations: 0, access_records: 0, blob_observations: 1, conflicts: 0, pending: 0 };
    let receipt = PortableCard {
        title: "Run".to_string(),
        values: vec![CardValue { label: "Exit".to_string(), value: "0".to_string() }],
        badges: vec!["Receipt".to_string()],
    };
    let mut recorded = node(2, "recorded");
    recorded.receipt = Some(receipt.clone());
    let nodes = vec![node(9, "waiting"), recorded, node(5, "plain")];
    let offers = vec![TransferOffer { transfer_id: 9, nodes: 2, blobs: 1 }];
    let mut ledger = BlobAvailability::new();
    ledger.observe(seen(1, [0x5A; 32], "desk", true, 10));
    let cards = supplemental_cards(&[0xAB; 32], &counts, &nodes, &offers, &accept_names(), &ledger);

    assert_eq!(cards.len(), 5);
    assert_eq!(cards[0].card.title, "Personal graph sync");
    assert_eq!(cards[1].adapter, "graphshell.receipt");
    assert_eq!(cards[1].card, receipt);
    assert!(cards[1].actions.is_empty());
    assert_eq!(cards[2].card.title, "plain");
    assert!(cards[2].actions.is_empty());
    assert_eq!(cards[3].card.title, "waiting");
    assert_eq!(cards[3].actions.len(), 1);
    let accept = &cards[3].actions[0];
    assert_eq!(accept.intent, "transfer.accept");
    assert_eq!(accept.schema, "transfer-accept/v1");
    assert_eq!(accept.form_schema, accept.schema);
    assert_eq!(accept.label, "Accept transfer");
    assert!(accept.native_only);
    assert_eq!(accept.field, "transfer_id");
    assert_eq!(accept.choice_value, "00000000-0000-0000-0000-000000000009");
    assert_eq!(accept.choice_label, "2 object(s), 1 blob(s)");
    assert_eq!(cards[4].source_id, "5a".repeat(32));
}

#[test]
fn at_most_the_first_node_cards_by_id_are_shown() {
    let counts = SyncCounts { nodes: 0, relations: 0, access_records: 0, blob_observations: 0, conflicts: 0, pending: 0 };
    let nodes: Vec<NodeFacts> = (0..(MAX_NODE_CARDS as u128 + 5)).rev().map(|id| node(id, "n")).collect();
    let cards = supplemental_cards(&[0; 32], &counts, &nodes, &Vec::new(), &accept_names(), &BlobAvailability::new());
    assert_eq!(cards.len(), 1 + MAX_NODE_CARDS);
    assert_eq!(cards[1].source_id, "00000000-0000-0000-0000-000000000000");
    assert_eq!(cards[MAX_NODE_CARDS].source_id, format!("00000000-0000-0000-0000-{:012x}", MAX_NODE_CARDS - 1));
}

#[test]
fn a_blob_is_fetched_only_from_a_paired_device_and_only_when_missing() {
    assert_eq!(fetch_step(true, false, &[7; 32]), FetchStep::AlreadyHeld);
    assert_eq!(fetch_step(false, true, &[7; 32]), FetchStep::Fetch);
    assert_eq!(
        fetch_step(false, false, &[0xab; 32]),
        FetchStep::Refuse("abababababab is not a paired device of this graph".to_string())
    );
}
