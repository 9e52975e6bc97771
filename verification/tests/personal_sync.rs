use graphshell::hexcode::{hex, parse_node_id, short_hex};
use graphshell::json::JsonValue;
use graphshell::personal_sync::{
    hex32, require_readable, write_protection, check_authored, AuthorRefusal, key_step_order, access_history_order, AccessKey, admit_operation, event_target, EventFacts, OperationFacts, RecordFacts, Reject,
    fold_readers, one_kind_per_operation, personal_graph_identity_salt, validate_event,
    validate_facet_name, AuthoredOperation, BlobAvailabilityObservation, PersonalEncryption,
    PersonalGraphEvent, PersonalGraphWireError, ReaderSet, SyncRoster, SyncSelection,
    SyntheticAddressRule,
};

const ACCESS_FACET: &str = "graphshell.access-history/v1";

fn facet_event(facet: &str) -> PersonalGraphEvent {
    PersonalGraphEvent::SetFacet {
        node: 0xa1,
        facet: facet.into(),
        value: JsonValue::Null,
    }
}

#[test]
fn the_writer_salt_names_the_graph() {
    let salt = personal_graph_identity_salt([0x77; 32]);
    let mut expected = b"graphshell.personal-graph.writer.v1/".to_vec();
    expected.extend_from_slice(&[0x77; 32]);
    assert_eq!(salt, expected);
}

#[test]
fn secret_reserved_and_oversized_facets_are_refused() {
    assert!(validate_facet_name("graphshell.test/v1", ACCESS_FACET).is_ok());
    let secret = validate_facet_name("  Vault_Root.Backup ", ACCESS_FACET).unwrap_err();
    assert_eq!(secret.code, "secret-bearing-facet");
    let seed = validate_facet_name("wallet.SEED/v1", ACCESS_FACET).unwrap_err();
    assert_eq!(seed.code, "secret-bearing-facet");
    let reserved = validate_facet_name("graphshell.saved-scene/v2", ACCESS_FACET).unwrap_err();
    assert_eq!(reserved.code, "reserved-personal-graph-facet");
    let access = validate_facet_name(ACCESS_FACET, ACCESS_FACET).unwrap_err();
    assert_eq!(access.code, "reserved-personal-graph-facet");
    let blank = validate_facet_name("   ", ACCESS_FACET).unwrap_err();
    assert_eq!(blank.code, "invalid-personal-graph-facet");
    assert_eq!(blank.message, "facet id is empty or too long");
    assert!(validate_facet_name(&"a".repeat(256), ACCESS_FACET).is_ok());
    assert_eq!(
        validate_facet_name(&"a".repeat(257), ACCESS_FACET)
            .unwrap_err()
            .code,
        "invalid-personal-graph-facet"
    );
    // 128 two-byte characters are 256 bytes; one more is too long.
    assert!(validate_facet_name(&"é".repeat(128), ACCESS_FACET).is_ok());
    assert!(validate_facet_name(&"é".repeat(129), ACCESS_FACET).is_err());
}

#[test]
fn the_lane_refuses_blank_and_local_only_events() {
    let blank_address = PersonalGraphEvent::AddNode {
        id: 1,
        address: " ".into(),
        title: "t".into(),
    };
    assert_eq!(
        validate_event(&blank_address, ACCESS_FACET, &None)
            .unwrap_err()
            .code,
        "empty-personal-graph-address"
    );
    let local = PersonalGraphEvent::AppendAccess {
        record_id: 1,
        container_id: 2,
        stays_local: true,
    };
    assert_eq!(
        validate_event(&local, ACCESS_FACET, &None).unwrap_err().code,
        "access-record-not-portable"
    );
    let handler = PersonalGraphEvent::SetHandlerPreference {
        key: "mailto".into(),
        handler: "".into(),
    };
    assert_eq!(
        validate_event(&handler, ACCESS_FACET, &None)
            .unwrap_err()
            .code,
        "empty-handler-preference"
    );
    let blob = PersonalGraphEvent::ObserveBlobAvailability {
        observation: BlobAvailabilityObservation {
            record_id: 1,
            container_id: 2,
            blob: [1; 32],
            device: "\t".into(),
            available: true,
            at_ms: 5,
        },
    };
    assert_eq!(
        validate_event(&blob, ACCESS_FACET, &None).unwrap_err().code,
        "empty-blob-availability-device"
    );
    assert_eq!(
        validate_event(&facet_event("private-key.v1"), ACCESS_FACET, &None)
            .unwrap_err()
            .code,
        "secret-bearing-facet"
    );
    let prekey = PersonalGraphEvent::PublishPrekey { bundle: vec![1, 2] };
    let refused = validate_event(&prekey, ACCESS_FACET, &Some("bad signature".into())).unwrap_err();
    assert_eq!(refused.code, "invalid-group-prekey");
    assert_eq!(refused.message, "bad signature");
    assert!(validate_event(&prekey, ACCESS_FACET, &None).is_ok());
    let tag = PersonalGraphEvent::AddTag {
        node: 1,
        tag: "music".into(),
    };
    assert!(validate_event(&tag, ACCESS_FACET, &None).is_ok());
}

#[test]
fn an_operation_carrying_keys_may_not_also_carry_content() {
    let key = PersonalGraphEvent::RetireReader { root: [3; 32] };
    let content = PersonalGraphEvent::RemoveNode { id: 9 };
    assert!(one_kind_per_operation(&vec![
        PersonalGraphEvent::RetireReader { root: [3; 32] },
        PersonalGraphEvent::GroupDispatch { dispatch: vec![1] },
    ])
    .is_ok());
    assert!(one_kind_per_operation(&vec![PersonalGraphEvent::RemoveNode { id: 1 }]).is_ok());
    let mixed = one_kind_per_operation(&vec![key, content]).unwrap_err();
    assert_eq!(mixed.code, "mixed-key-and-content-operation");
    assert!(one_kind_per_operation(&Vec::new()).is_ok());
}

fn seat(author: u8, root: u8, label: &str) -> AuthoredOperation {
    AuthoredOperation {
        author: Some([author; 32]),
        events: vec![PersonalGraphEvent::AdmitReader {
            root: [root; 32],
            label: label.into(),
        }],
    }
}

fn retire(author: u8, root: u8) -> AuthoredOperation {
    AuthoredOperation {
        author: Some([author; 32]),
        events: vec![PersonalGraphEvent::RetireReader { root: [root; 32] }],
    }
}

fn readers(set: &ReaderSet) -> Vec<[u8; 32]> {
    let mut roots: Vec<[u8; 32]> = set.entries().iter().map(|(root, _)| *root).collect();
    roots.sort();
    roots
}

#[test]
fn the_first_admit_bootstraps_and_seats_its_author() {
    let set = fold_readers(&vec![seat(1, 2, "laptop")]);
    assert_eq!(readers(&set), vec![[1; 32], [2; 32]]);
    assert_eq!(set.label(&[2; 32]).unwrap(), "laptop");
    assert_eq!(set.label(&[1; 32]).unwrap(), "");
}

#[test]
fn only_a_reader_can_name_another() {
    let set = fold_readers(&vec![seat(1, 2, "laptop"), seat(9, 8, "stranger")]);
    assert!(!set.contains(&[8; 32]));
    assert_eq!(set.len(), 2);
    let set = fold_readers(&vec![seat(1, 2, "laptop"), seat(2, 3, "phone")]);
    assert!(set.contains(&[3; 32]));
}

#[test]
fn the_last_reader_cannot_retire_itself() {
    let set = fold_readers(&vec![seat(1, 1, "only"), retire(1, 1)]);
    assert_eq!(readers(&set), vec![[1; 32]]);
    let set = fold_readers(&vec![seat(1, 2, "laptop"), retire(2, 1), retire(2, 2)]);
    assert_eq!(readers(&set), vec![[2; 32]]);
}

#[test]
fn the_reader_set_is_a_fold_every_device_computes_the_same_way() {
    let ops = vec![
        seat(1, 2, "laptop"),
        AuthoredOperation {
            author: None,
            events: vec![PersonalGraphEvent::RetireReader { root: [2; 32] }],
        },
        seat(2, 3, "phone"),
        retire(3, 1),
    ];
    let first = fold_readers(&ops);
    let second = fold_readers(&ops);
    assert_eq!(readers(&first), readers(&second));
    assert_eq!(readers(&first), vec![[2; 32], [3; 32]]);
}

#[test]
fn rosters_and_selections_decide_what_projects() {
    let roster = SyncRoster::new(vec![[5; 32], [1; 32], [5; 32]]);
    assert!(roster.admits(&[1; 32]));
    assert!(!roster.admits(&[2; 32]));
    let selection = SyncSelection::default()
        .with_facets(vec!["graphshell.transfer-offer/v1".to_string()])
        .with_synthetic_addresses(vec![SyntheticAddressRule {
            prefix: "mere://transfer/".into(),
            facet: "graphshell.transfer-offer/v1".into(),
            device_scoped: true,
        }])
        .with_local_device("ABCDEF");
    assert!(selection.projects(&facet_event("graphshell.transfer-offer/v1")));
    assert!(!selection.projects(&facet_event("graphshell.other/v1")));
    let here = PersonalGraphEvent::AddNode {
        id: 1,
        address: "mere://transfer/abcdef/offer".into(),
        title: String::new(),
    };
    let elsewhere = PersonalGraphEvent::AddNode {
        id: 2,
        address: "mere://transfer/012345/offer".into(),
        title: String::new(),
    };
    assert!(selection.projects(&here));
    assert!(!selection.projects(&elsewhere));
    assert!(!selection.projects(&PersonalGraphEvent::SaveScene { node: 1 }));
    assert!(PersonalEncryption::default().is_plaintext());
    assert!(!PersonalEncryption::GroupV1.is_plaintext());
}

#[test]
fn wire_errors_say_what_went_wrong() {
    assert_eq!(
        PersonalGraphWireError::NoKey.message(),
        "personal graph operation is sealed and this device has no key for the graph"
    );
    assert_eq!(
        PersonalGraphWireError::Unsealable("tag mismatch".into()).message(),
        "personal graph operation could not be unsealed: tag mismatch"
    );
}

#[test]
fn node_ids_round_trip_through_hex() {
    let mut id = [0u8; 32];
    for (index, byte) in id.iter_mut().enumerate() {
        *byte = (index as u8).wrapping_mul(37).wrapping_add(0xa0);
    }
    let text = hex(&id);
    assert_eq!(text.len(), 64);
    assert!(text.starts_with("a0c5ea"));
    assert_eq!(short_hex(&id), text[..12].to_string());
    assert_eq!(parse_node_id(&text), Ok(id));
    assert_eq!(parse_node_id(&format!("  {}\n", text.to_uppercase())), Ok(id));
    assert_eq!(parse_node_id(&text[..62]), Err(()));
    assert_eq!(parse_node_id(&format!("{}zz", &text[..62])), Err(()));
    assert_eq!(hex(&[0; 32]), "0".repeat(64));
}

fn roster() -> SyncRoster {
    SyncRoster::new(vec![[0xAA; 32]])
}

fn readable(events: Vec<PersonalGraphEvent>, subject: [u8; 32]) -> OperationFacts {
    OperationFacts {
        graph_matches: true,
        encryption: PersonalEncryption::Plaintext,
        header_subject: Ok(None),
        header_causality: Ok(()),
        body: Ok(RecordFacts {
            events: events
                .into_iter()
                .map(|event| EventFacts { event, payload_error: None })
                .collect(),
            causality: Ok(()),
            subject: Ok(subject),
        }),
    }
}

#[test]
fn an_admitted_writer_s_content_is_kept() {
    let facts = readable(vec![PersonalGraphEvent::RemoveNode { id: 1 }], [0xAA; 32]);
    assert_eq!(admit_operation(&facts, &roster(), ACCESS_FACET), Ok(()));
}

#[test]
fn an_unadmitted_writer_is_refused() {
    let facts = readable(vec![PersonalGraphEvent::RemoveNode { id: 1 }], [0xBB; 32]);
    let refusal = admit_operation(&facts, &roster(), ACCESS_FACET).unwrap_err();
    assert_eq!(refusal.code, "personal-graph-writer-not-admitted");
    assert_eq!(refusal.message, "stable writer subject is outside this graph roster");
}

#[test]
fn an_operation_for_another_graph_or_with_no_events_is_refused() {
    let mut other = readable(vec![PersonalGraphEvent::RemoveNode { id: 1 }], [0xAA; 32]);
    other.graph_matches = false;
    assert_eq!(
        admit_operation(&other, &roster(), ACCESS_FACET).unwrap_err().code,
        "wrong-personal-graph"
    );
    let empty = readable(vec![], [0xAA; 32]);
    let refusal = admit_operation(&empty, &roster(), ACCESS_FACET).unwrap_err();
    assert_eq!(refusal.code, "personal-graph-event-count");
    assert_eq!(refusal.message, "operation carries 0 events; expected 1..=256");
}

#[test]
fn key_agreement_may_not_travel_sealed_or_mixed_with_content() {
    let prekey = || PersonalGraphEvent::PublishPrekey { bundle: vec![1, 2, 3] };
    let mixed = readable(vec![prekey(), PersonalGraphEvent::RemoveNode { id: 1 }], [0xAA; 32]);
    assert_eq!(
        admit_operation(&mixed, &roster(), ACCESS_FACET).unwrap_err().code,
        "mixed-key-and-content-operation"
    );
    let mut sealed = readable(vec![prekey()], [0xAA; 32]);
    sealed.encryption = PersonalEncryption::GroupV1;
    assert_eq!(
        admit_operation(&sealed, &roster(), ACCESS_FACET).unwrap_err().code,
        "sealed-key-agreement"
    );
}

#[test]
fn a_sealed_operation_is_kept_on_its_header_alone() {
    let facts = OperationFacts {
        graph_matches: true,
        encryption: PersonalEncryption::GroupV1,
        header_subject: Ok(Some([0xAA; 32])),
        header_causality: Ok(()),
        body: Err(PersonalGraphWireError::NoKey),
    };
    assert_eq!(admit_operation(&facts, &roster(), ACCESS_FACET), Ok(()));
    let unattributed = OperationFacts { header_subject: Ok(None), ..facts };
    assert_eq!(
        admit_operation(&unattributed, &roster(), ACCESS_FACET).unwrap_err().code,
        "unattributable-sealed-operation"
    );
    let refused = OperationFacts {
        graph_matches: true,
        encryption: PersonalEncryption::Plaintext,
        header_subject: Err(Reject { code: "bad-attestation".to_string(), message: "m".to_string() }),
        header_causality: Ok(()),
        body: Err(PersonalGraphWireError::NoKey),
    };
    assert_eq!(
        admit_operation(&refused, &roster(), ACCESS_FACET).unwrap_err().code,
        "bad-attestation"
    );
}

#[test]
fn conflict_targets_name_what_an_event_edits() {
    let node = 0x67e5_5044_10b1_426f_9247_bb68_0e5f_e0c8u128;
    assert_eq!(
        event_target(&PersonalGraphEvent::SetTitle { node, title: "t".to_string() }, ""),
        "node/67e55044-10b1-426f-9247-bb680e5fe0c8/title"
    );
    assert_eq!(
        event_target(&PersonalGraphEvent::RemoveNode { id: 1 }, ""),
        "node/00000000-0000-0000-0000-000000000001"
    );
    assert_eq!(
        event_target(&PersonalGraphEvent::SetHandlerPreference { key: "k".to_string(), handler: "h".to_string() }, ""),
        "handler/k"
    );
}

#[test]
fn each_optional_projection_is_off_until_selected() {
    let off = SyncSelection::default();
    let scene = PersonalGraphEvent::SaveScene { node: 7 };
    let preference = PersonalGraphEvent::SetHandlerPreference {
        key: "mere://".into(),
        handler: "graphshell".into(),
    };
    assert!(!off.projects(&scene));
    assert!(!off.projects(&preference));
    assert!(!off.projects_handler_preferences());
    assert!(!off.projects_blob_availability());
    assert!(!off.selects_facet("graphshell.transfer-offer/v1"));

    let on = SyncSelection::default()
        .with_access_records(true)
        .with_saved_scenes(true)
        .with_handler_preferences(true)
        .with_blob_availability(true);
    assert!(on.projects(&scene));
    assert!(on.projects(&preference));
    assert!(on.projects_handler_preferences());
    assert!(on.projects_blob_availability());

    let scenes_only = SyncSelection::default().with_saved_scenes(true);
    assert!(scenes_only.projects(&scene));
    assert!(!scenes_only.projects(&preference));
    assert!(!SyncSelection::default().with_access_records(true).projects(&scene));
}

#[test]
fn a_node_outside_every_synthetic_prefix_always_projects() {
    let selection = SyncSelection::default().with_synthetic_addresses(vec![SyntheticAddressRule {
        prefix: "mere://transfer/".into(),
        facet: "graphshell.transfer-offer/v1".into(),
        device_scoped: false,
    }]);
    assert!(selection.projects_node("mere://note/1"));
    assert!(!selection.projects_node("mere://transfer/abc/offer"));
    let with_facet = SyncSelection::default()
        .with_facets(vec!["graphshell.transfer-offer/v1".to_string()])
        .with_synthetic_addresses(vec![SyntheticAddressRule {
            prefix: "mere://transfer/".into(),
            facet: "graphshell.transfer-offer/v1".into(),
            device_scoped: false,
        }]);
    assert!(with_facet.projects_node("mere://transfer/abc/offer"));
}

#[test]
fn a_graph_id_is_written_as_sixty_four_lowercase_hex_digits() {
    let mut id = [0u8; 32];
    id[0] = 0xab;
    id[31] = 0x0f;
    let text = hex32(&id);
    assert_eq!(text.len(), 64);
    assert!(text.starts_with("ab00"));
    assert!(text.ends_with("000f"));
}

#[test]
fn a_keyed_device_seals_content_but_never_key_agreement() {
    let content = vec![PersonalGraphEvent::SaveScene { node: 1 }];
    let keys = vec![PersonalGraphEvent::RetireReader { root: [4; 32] }];
    assert_eq!(write_protection(true, &content), PersonalEncryption::GroupV1);
    assert_eq!(write_protection(false, &content), PersonalEncryption::Plaintext);
    assert_eq!(write_protection(true, &keys), PersonalEncryption::Plaintext);
    assert_eq!(write_protection(false, &keys), PersonalEncryption::Plaintext);
}

#[test]
fn a_sealed_body_without_the_key_is_unreadable_rather_than_malformed() {
    assert_eq!(require_readable(PersonalEncryption::Plaintext, false), Ok(()));
    assert_eq!(require_readable(PersonalEncryption::GroupV1, true), Ok(()));
    assert_eq!(
        require_readable(PersonalEncryption::GroupV1, false),
        Err(PersonalGraphWireError::NoKey)
    );
    let keys = vec![PersonalGraphEvent::RetireReader { root: [4; 32] }];
    assert_eq!(require_readable(write_protection(true, &keys), false), Ok(()));
}

fn facts(event: PersonalGraphEvent) -> EventFacts {
    EventFacts { event, payload_error: None }
}

#[test]
fn a_device_writes_only_valid_selected_events_in_bounded_operations() {
    let selection = SyncSelection::default().with_saved_scenes(true);
    let scene = || facts(PersonalGraphEvent::SaveScene { node: 1 });
    assert_eq!(check_authored(&vec![scene()], &selection, ACCESS_FACET, &vec![String::new()]), Ok(()));
    assert_eq!(check_authored(&Vec::new(), &selection, ACCESS_FACET, &Vec::new()), Err(AuthorRefusal::EventCount));
    let many: Vec<EventFacts> = (0..257).map(|_| scene()).collect();
    let digests: Vec<String> = (0..257).map(|_| String::new()).collect();
    assert_eq!(check_authored(&many, &selection, ACCESS_FACET, &digests), Err(AuthorRefusal::EventCount));

    let blank_tag = facts(PersonalGraphEvent::AddTag { node: 1, tag: " ".into() });
    match check_authored(&vec![scene(), blank_tag], &selection, ACCESS_FACET, &vec![String::new(), String::new()]) {
        Err(AuthorRefusal::Excluded(reject)) => assert_eq!(reject.code, "empty-personal-graph-tag"),
        other => panic!("expected an exclusion, got {other:?}"),
    }
    let preference = facts(PersonalGraphEvent::SetHandlerPreference { key: "mere://".into(), handler: "graphshell".into() });
    assert_eq!(
        check_authored(&vec![scene(), preference], &selection, ACCESS_FACET, &vec![String::new(), String::new()]),
        Err(AuthorRefusal::NotSelected("handler/mere://".to_string()))
    );
}

#[test]
fn key_steps_go_by_sequence_then_operation_hash() {
    let keys = vec![(2, [1; 32]), (1, [9; 32]), (1, [3; 32]), (2, [1; 32]), (0, [7; 32])];
    assert_eq!(key_step_order(&keys), vec![4, 2, 1, 0, 3]);
    assert!(key_step_order(&Vec::new()).is_empty());
}

fn access(record_id: u128, at_ms: u64, device: &str) -> AccessKey {
    AccessKey { record_id, container_id: 1, at_ms, device: device.to_string() }
}

#[test]
fn access_history_keeps_the_first_record_of_each_id_in_time_order() {
    let records = vec![
        access(7, 30, "phone"),
        access(3, 10, "phone"),
        access(7, 5, "laptop"),
        access(4, 10, "desk"),
        access(5, 10, "desk"),
    ];
    assert_eq!(access_history_order(&records), vec![3, 4, 1, 0]);
    assert!(access_history_order(&Vec::new()).is_empty());
}
