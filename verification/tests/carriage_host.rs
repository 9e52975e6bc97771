use graphshell::carriage_host::{held_slots, serving_lease, HeldLease};

fn lease(issue: u64, payload: u8, expires_at_ms: u64) -> HeldLease {
    HeldLease { issue, payload: [payload; 32], expires_at_ms }
}

#[test]
fn each_slot_is_held_at_its_newest_issue_whoever_wrote_it() {
    let stored = vec![
        ([2; 32], lease(1, 0xa1, 100)),
        ([1; 32], lease(4, 0xb4, 100)),
        ([2; 32], lease(3, 0xa3, 300)),
        ([2; 32], lease(2, 0xa2, 200)),
        ([1; 32], lease(4, 0xc4, 900)),
    ];
    let held = held_slots(&stored);
    assert_eq!(
        held,
        vec![([1; 32], lease(4, 0xb4, 100)), ([2; 32], lease(3, 0xa3, 300))]
    );
    assert!(held_slots(&Vec::new()).is_empty());
}

#[test]
fn an_ended_or_unknown_lease_is_not_served() {
    let held = held_slots(&vec![([1; 32], lease(1, 0xa1, 100)), ([2; 32], lease(1, 0xb1, 500))]);
    assert_eq!(serving_lease(&held, &[1; 32], 99), Some(lease(1, 0xa1, 100)));
    assert_eq!(serving_lease(&held, &[1; 32], 100), None);
    assert_eq!(serving_lease(&held, &[2; 32], 100), Some(lease(1, 0xb1, 500)));
    assert_eq!(serving_lease(&held, &[3; 32], 0), None);
}
