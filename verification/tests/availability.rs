use graphshell::availability::{fold_blob_availability, BlobAvailability};
use graphshell::personal_sync::{
    AuthoredOperation, BlobAvailabilityObservation, PersonalGraphEvent, SyncSelection,
};

const BLOB: [u8; 32] = [0xB0; 32];
const OTHER_BLOB: [u8; 32] = [0xB1; 32];

fn node_name(byte: u8) -> String {
    format!("{byte:02x}").repeat(32)
}

fn seen(record_id: u128, blob: [u8; 32], device: &str, available: bool, at_ms: u64) -> BlobAvailabilityObservation {
    BlobAvailabilityObservation {
        record_id,
        container_id: 99,
        blob,
        device: device.to_string(),
        available,
        at_ms,
    }
}

fn ledger(observations: Vec<BlobAvailabilityObservation>) -> BlobAvailability {
    let mut ledger = BlobAvailability::new();
    for observation in observations {
        ledger.observe(observation);
    }
    ledger
}

fn record_ids(ledger: &BlobAvailability) -> Vec<u128> {
    ledger.observations().iter().map(|o| o.record_id).collect()
}

#[test]
fn the_ledger_keeps_time_order_then_device_then_record() {
    let l = ledger(vec![
        seen(3, BLOB, "b", true, 20),
        seen(1, BLOB, "b", true, 10),
        seen(2, BLOB, "a", true, 20),
        seen(4, BLOB, "a", true, 20),
    ]);
    assert_eq!(record_ids(&l), vec![1, 2, 4, 3]);
}

#[test]
fn a_replayed_record_changes_nothing() {
    let mut l = ledger(vec![seen(1, BLOB, "a", true, 10)]);
    l.observe(seen(1, BLOB, "a", false, 99));
    assert_eq!(l.observations().len(), 1);
    assert!(l.observations()[0].available);
}

#[test]
fn a_device_holds_a_blob_by_its_latest_statement() {
    let l = ledger(vec![
        seen(1, BLOB, "a", true, 10),
        seen(2, BLOB, "a", false, 20),
        seen(3, BLOB, "b", false, 10),
        seen(4, BLOB, "b", true, 10),
        seen(5, OTHER_BLOB, "c", true, 5),
    ]);
    assert!(!l.holds(&BLOB, "a"));
    assert!(l.holds(&BLOB, "b"));
    assert!(!l.holds(&BLOB, "c"));
    assert!(l.holds(&OTHER_BLOB, "c"));
    assert_eq!(l.holders_of(&BLOB), vec!["b".to_string()]);
    assert_eq!(l.holders_of(&OTHER_BLOB), vec!["c".to_string()]);
}

#[test]
fn holders_are_listed_in_ascending_order() {
    let l = ledger(vec![
        seen(1, BLOB, "zeta", true, 10),
        seen(2, BLOB, "alpha", true, 30),
        seen(3, BLOB, "mid", true, 20),
    ]);
    assert_eq!(l.holders_of(&BLOB), vec!["alpha", "mid", "zeta"]);
}

#[test]
fn blob_holders_are_other_devices_newest_report_first() {
    let own = [0x01; 32];
    let l = ledger(vec![
        seen(1, BLOB, &node_name(0x02), true, 10),
        seen(2, BLOB, &node_name(0x03), true, 30),
        seen(3, BLOB, &node_name(0x01), true, 40),
        seen(4, BLOB, "not a node id", true, 50),
        seen(5, BLOB, &node_name(0x04), false, 60),
        seen(6, OTHER_BLOB, &node_name(0x05), true, 70),
        seen(7, BLOB, &node_name(0x02), true, 30),
    ]);
    assert_eq!(l.blob_holders(&BLOB, &own), vec![[0x02; 32], [0x03; 32]]);
}

#[test]
fn equally_recent_reports_keep_ledger_order() {
    let own = [0x01; 32];
    let l = ledger(vec![
        seen(1, BLOB, &node_name(0x0c), true, 10),
        seen(2, BLOB, &node_name(0x0a), true, 10),
        seen(3, BLOB, &node_name(0x0b), true, 5),
    ]);
    assert_eq!(l.blob_holders(&BLOB, &own), vec![[0x0a; 32], [0x0c; 32], [0x0b; 32]]);
}

#[test]
fn arrival_order_does_not_change_the_ledger() {
    let a = vec![
        seen(1, BLOB, "a", true, 10),
        seen(2, BLOB, "b", false, 5),
        seen(3, OTHER_BLOB, "a", true, 7),
        seen(1, BLOB, "a", true, 10),
    ];
    let b = vec![
        seen(3, OTHER_BLOB, "a", true, 7),
        seen(2, BLOB, "b", false, 5),
        seen(1, BLOB, "a", true, 10),
    ];
    assert_eq!(ledger(a).observations(), ledger(b).observations());
}

#[test]
fn only_a_device_projecting_availability_folds_it() {
    let ops = vec![
        AuthoredOperation {
            author: Some([7; 32]),
            events: vec![
                PersonalGraphEvent::ObserveBlobAvailability { observation: seen(2, BLOB, "b", true, 20) },
                PersonalGraphEvent::RemoveNode { id: 1 },
            ],
        },
        AuthoredOperation {
            author: None,
            events: vec![PersonalGraphEvent::ObserveBlobAvailability {
                observation: seen(1, BLOB, "a", true, 10),
            }],
        },
    ];
    let on = fold_blob_availability(&ops, &SyncSelection::default().with_blob_availability(true));
    assert_eq!(record_ids(&on), vec![1, 2]);
    let off = fold_blob_availability(&ops, &SyncSelection::default());
    assert!(off.observations().is_empty());
}
