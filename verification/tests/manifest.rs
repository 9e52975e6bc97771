use graphshell::receipts::manifest::{
    parse_rfc3339_ms, rfc3339_overflows, scenario_name, ManifestArtifact, ReceiptManifest, RECEIPT_NAMESPACE,
};

#[test]
fn rfc3339_parses_to_unix_millis() {
    // 2026-08-10T14:31:05.123Z: 20675 days from the epoch, plus 14:31:05,
    // plus 123ms.
    assert_eq!(
        parse_rfc3339_ms("2026-08-10T14:31:05.1234567Z"),
        Some(1_786_372_265_123),
    );
    assert_eq!(parse_rfc3339_ms("1970-01-01T00:00:00.000Z"), Some(0));
    // Sub-second precision is optional and over-long fractions truncate
    // rather than fail; the lane writes seven digits.
    assert_eq!(
        parse_rfc3339_ms("2026-08-10T14:31:05Z"),
        Some(1_786_372_265_000),
    );
    assert_eq!(parse_rfc3339_ms("not a time"), None);
}

#[test]
fn rfc3339_refuses_offsets_and_the_pre_epoch_and_pads_short_fractions() {
    // Only the UTC form is read: an offset, or any text after the seconds,
    // gives no time rather than a wrong one.
    assert_eq!(parse_rfc3339_ms("2026-08-10T14:31:05+02:00"), None);
    assert_eq!(parse_rfc3339_ms("2026-08-10T14:31:05.5+02:00"), None);
    assert_eq!(parse_rfc3339_ms("2026-08-10T14:31:05-02:00"), None);
    assert_eq!(parse_rfc3339_ms("2026-08-10T14:31:05.123Zextra"), None);
    assert_eq!(parse_rfc3339_ms("2026-08-10T14:31:05:09Z"), None);
    assert_eq!(parse_rfc3339_ms("2026-08-10-01T14:31:05Z"), None);
    // A one-digit fraction pads to hundreds of milliseconds.
    assert_eq!(parse_rfc3339_ms("1970-01-01T00:00:01.2Z"), Some(1_200));
    // Surrounding whitespace is trimmed.
    assert_eq!(parse_rfc3339_ms("  1970-01-02T00:00:00Z \n"), Some(86_400_000));
    // Before the epoch there is no unsigned millisecond count.
    assert_eq!(parse_rfc3339_ms("1969-12-31T23:59:59Z"), None);
    // A missing seconds field or a non-numeric fraction is refused.
    assert_eq!(parse_rfc3339_ms("2026-08-10T14:31Z"), None);
    assert_eq!(parse_rfc3339_ms("2026-08-10T14:31:05.abcZ"), None);
    assert_eq!(parse_rfc3339_ms("2026-08T14:31:05Z"), None);
}

fn manifest(target: &str, scenario: &str, exit_code: i32) -> ReceiptManifest {
    ReceiptManifest {
        repo: "graphshell".into(),
        package: "graphshell".into(),
        scenario: scenario.into(),
        target: target.into(),
        platform: "linux".into(),
        remote_os: "Linux 6.9".into(),
        remote_commit: "abc123".into(),
        remote_dirty: 0,
        session: "wayland".into(),
        ran_at_utc: "2026-08-10T14:31:05.1234567Z".into(),
        exit_code,
        artifacts: vec![ManifestArtifact {
            name: "shot.png".into(),
            bytes: 42,
            sha256: "00".repeat(32),
        }],
        extra: Vec::new(),
    }
}

#[test]
fn a_manifest_names_its_host_address_and_title() {
    let ok = manifest("ci@runner-7", "scenarios/smoke/boot.scn", 0);
    assert_eq!(ok.host(), "runner-7");
    assert_eq!(
        ok.address(),
        "receipt:graphshell/runner-7/scenarios/smoke/boot.scn/2026-08-10T14:31:05.1234567Z"
    );
    assert_eq!(ok.title(), "graphshell · boot on runner-7 · ok");
    assert!(ok.passed());
    assert_eq!(ok.ran_at_ms(), 1_786_372_265_123);

    let failed = manifest("runner-7", "scenarios\\win\\boot.scn.scn", 3);
    assert_eq!(failed.host(), "runner-7");
    assert_eq!(failed.title(), "graphshell · boot on runner-7 · failed");
    assert!(!failed.passed());

    let mut unknown = manifest("runner-7", "boot.scn", 0);
    unknown.ran_at_utc = "yesterday".into();
    assert_eq!(unknown.ran_at_ms(), 0);
}

#[test]
fn a_receipt_node_id_is_the_name_based_id_of_its_address() {
    let receipt = manifest("ci@runner-7", "scenarios/smoke/boot.scn", 0);
    let expected = uuid::Uuid::new_v5(
        &uuid::Uuid::from_u128(RECEIPT_NAMESPACE),
        receipt.address().as_bytes(),
    );
    assert_eq!(receipt.node_id(), expected.as_u128());
    assert_ne!(receipt.node_id(), RECEIPT_NAMESPACE);
    let other = manifest("ci@runner-8", "scenarios/smoke/boot.scn", 0);
    assert_ne!(receipt.node_id(), other.node_id());
}

#[test]
fn scenario_names_drop_their_directory_and_extension() {
    assert_eq!(scenario_name("a/b/c.scn"), "c");
    assert_eq!(scenario_name("a\\b\\c.scn"), "c");
    assert_eq!(scenario_name("plain"), "plain");
    assert_eq!(scenario_name("dir/"), "");
}

#[test]
fn a_caller_can_ask_whether_a_timestamp_would_overflow() {
    assert!(!rfc3339_overflows("2026-08-10T14:31:05.1234567Z"));
    assert!(!rfc3339_overflows("not a time"));
    assert!(!rfc3339_overflows("2026-08-10T14:31:05+02:00"));
    assert!(rfc3339_overflows("9223372036854775807-01-01T00:00:00Z"));
    assert!(rfc3339_overflows("2026-08-10T9223372036854775807:00:00Z"));
}
