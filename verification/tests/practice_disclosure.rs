use graphshell::json::{JsonNumber, JsonValue};
use graphshell::practice_disclosure::{
    check_disclosure_size, check_woodshed_comparison, difference, parse_pitch_set,
    validate_subject_label, MAX_WOODSHED_DISCLOSURE_BYTES,
};
use graphshell::practice_workspace::{
    ComparisonMethod, ComparisonRecord, ComparisonSourceRef, ComparisonSubject,
    PracticeSourceBinding,
};

fn text(value: &str) -> JsonValue {
    JsonValue::String(value.to_owned())
}

fn object(entries: Vec<(&str, JsonValue)>) -> JsonValue {
    JsonValue::Object(
        entries
            .into_iter()
            .map(|(key, value)| (key.to_owned(), value))
            .collect(),
    )
}

fn pitch(class: u64, label: &str) -> JsonValue {
    object(vec![
        ("pitch_class", JsonValue::Number(JsonNumber::PosInt(class))),
        ("label", text(label)),
    ])
}

fn binding() -> PracticeSourceBinding {
    PracticeSourceBinding {
        authority: "woodshed".into(),
        domain: "music.practice".into(),
        resource: "set:musical-comparison".into(),
    }
}

fn subject(occurrence: &str, id: &str, label: &str, pitches: Vec<JsonValue>) -> ComparisonSubject {
    ComparisonSubject {
        occurrence_id: occurrence.into(),
        source: ComparisonSourceRef {
            adapter: "woodshed.set".into(),
            id: id.into(),
        },
        label: label.into(),
        disclosed: vec![("pitch_set".into(), JsonValue::Array(pitches))],
    }
}

/// A Woodshed comparison of a C major triad with a C minor triad.
fn comparison() -> ComparisonRecord {
    ComparisonRecord {
        source: binding(),
        revision: "musical-comparison-fixture-v1".into(),
        method: ComparisonMethod {
            id: "keyed-pitch-set-singleton".into(),
            version: 1,
        },
        left: subject(
            "card:1",
            "chord:C",
            "C major",
            vec![pitch(0, "C"), pitch(4, "E"), pitch(7, "G")],
        ),
        right: subject(
            "card:2",
            "chord:Cm",
            "C minor",
            vec![pitch(0, "C"), pitch(3, "E♭"), pitch(7, "G")],
        ),
        result: object(vec![
            ("status", text("applicable")),
            ("version", JsonValue::Number(JsonNumber::PosInt(1))),
            ("shared", JsonValue::Array(vec![pitch(0, "C"), pitch(7, "G")])),
            ("left_only", JsonValue::Array(vec![pitch(4, "E")])),
            ("right_only", JsonValue::Array(vec![pitch(3, "E♭")])),
            (
                "singleton_motion",
                object(vec![("from", pitch(4, "E")), ("to", pitch(3, "E♭"))]),
            ),
        ]),
        disclosed: Vec::new(),
    }
}

fn set_result(record: &mut ComparisonRecord, key: &str, value: JsonValue) {
    match &mut record.result {
        JsonValue::Object(entries) => entries.push((key.to_owned(), value)),
        _ => unreachable!(),
    }
}

#[test]
fn accepts_the_real_woodshed_export() {
    let record = check_woodshed_comparison(comparison()).unwrap();
    match &record.left.disclosed[0].1 {
        JsonValue::Array(pitches) => assert_eq!(pitches.len(), 3),
        _ => panic!("pitch_set is an array"),
    }
}

#[test]
fn rejects_wrong_source() {
    let mut value = comparison();
    value.source.resource = "set:another".into();
    assert!(check_woodshed_comparison(value).unwrap_err().contains("source"));
}

#[test]
fn rejects_missing_pitch_set() {
    let mut value = comparison();
    value.left.disclosed.clear();
    assert!(check_woodshed_comparison(value)
        .unwrap_err()
        .contains("left.pitch_set"));
}

#[test]
fn rejects_excessive_pitch_cardinality_before_reading_members() {
    let mut value = comparison();
    let mut pitches = vec![pitch(0, "C"), pitch(4, "E"), pitch(7, "G")];
    while pitches.len() <= 12 {
        pitches.push(pitch(0, "C"));
    }
    value.left.disclosed = vec![("pitch_set".into(), JsonValue::Array(pitches))];
    assert!(check_woodshed_comparison(value).unwrap_err().contains("at most"));
}

#[test]
fn rejects_a_reported_partition_that_contradicts_literal_pitch_sets() {
    let mut value = comparison();
    set_result(&mut value, "shared", JsonValue::Array(Vec::new()));
    assert!(check_woodshed_comparison(value)
        .unwrap_err()
        .contains("shared evidence"));
}

#[test]
fn rejects_directionally_wrong_singleton_motion() {
    let mut value = comparison();
    set_result(
        &mut value,
        "singleton_motion",
        object(vec![("from", pitch(4, "A")), ("to", pitch(3, "E♭"))]),
    );
    assert!(check_woodshed_comparison(value)
        .unwrap_err()
        .contains("singleton_motion"));
}

#[test]
fn each_refusal_names_what_is_wrong() {
    let mut version = comparison();
    set_result(&mut version, "version", JsonValue::Number(JsonNumber::PosInt(2)));
    assert_eq!(
        check_woodshed_comparison(version).unwrap_err(),
        "Woodshed comparison result version must be 1"
    );
    let mut status = comparison();
    set_result(&mut status, "status", text("inapplicable"));
    assert_eq!(
        check_woodshed_comparison(status).unwrap_err(),
        "Woodshed comparison is not an applicable result"
    );
    let mut method = comparison();
    method.method.version = 2;
    assert_eq!(
        check_woodshed_comparison(method).unwrap_err(),
        "Disclosure does not use the supported Woodshed comparison method"
    );
    let mut label = comparison();
    label.right.label = "  ".into();
    assert_eq!(
        check_woodshed_comparison(label).unwrap_err(),
        "right.label must be non-empty and at most 100 characters"
    );
    let mut conflict = comparison();
    conflict.right.disclosed = vec![(
        "pitch_set".into(),
        JsonValue::Array(vec![pitch(0, "Do"), pitch(3, "E♭"), pitch(7, "G")]),
    )];
    assert_eq!(
        check_woodshed_comparison(conflict).unwrap_err(),
        "Pitch class 0 has conflicting labels in the supplied pitch sets"
    );
    let mut no_result = comparison();
    no_result.result = JsonValue::Null;
    assert_eq!(
        check_woodshed_comparison(no_result).unwrap_err(),
        "Woodshed result is missing status"
    );
}

#[test]
fn pitch_sets_are_read_strictly() {
    let path = "left.pitch_set";
    let repeated = JsonValue::Array(vec![pitch(0, "C"), pitch(0, "C")]);
    assert_eq!(
        parse_pitch_set(path, &repeated).unwrap_err(),
        "left.pitch_set repeats pitch class 0"
    );
    let high = JsonValue::Array(vec![pitch(0, "C"), pitch(12, "C")]);
    assert_eq!(
        parse_pitch_set(path, &high).unwrap_err(),
        "left.pitch_set[1].pitch_class must be an integer below 12"
    );
    let not_object = JsonValue::Array(vec![JsonValue::Null]);
    assert_eq!(
        parse_pitch_set(path, &not_object).unwrap_err(),
        "left.pitch_set[0] must be an object"
    );
    let long_label = JsonValue::Array(vec![pitch(0, &"x".repeat(25))]);
    assert_eq!(
        parse_pitch_set(path, &long_label).unwrap_err(),
        "left.pitch_set[0].label must be non-empty and at most 24 characters"
    );
    assert_eq!(
        parse_pitch_set(path, &JsonValue::Null).unwrap_err(),
        "left.pitch_set must be an array"
    );
    let triad = JsonValue::Array(vec![pitch(7, "G"), pitch(0, "C"), pitch(4, "E")]);
    let major = parse_pitch_set(path, &triad).unwrap();
    let minor = parse_pitch_set(
        path,
        &JsonValue::Array(vec![pitch(0, "C"), pitch(3, "E♭"), pitch(7, "G")]),
    )
    .unwrap();
    let only_major = difference(&major, &minor);
    let expected = parse_pitch_set(path, &JsonValue::Array(vec![pitch(4, "E")])).unwrap();
    assert_eq!(only_major, expected);
    assert!(validate_subject_label("left.label", "C major").is_ok());
    assert_eq!(
        validate_subject_label("left.label", &"x".repeat(101)).unwrap_err(),
        "left.label must be non-empty and at most 100 characters"
    );
}

#[test]
fn a_disclosure_is_bounded_in_utf8_bytes_before_parsing() {
    assert_eq!(check_disclosure_size(&"x".repeat(MAX_WOODSHED_DISCLOSURE_BYTES)), Ok(()));
    assert_eq!(
        check_disclosure_size(&"x".repeat(MAX_WOODSHED_DISCLOSURE_BYTES + 1)),
        Err("Woodshed disclosure exceeds the 256 KiB input limit".to_string())
    );
    let wide = "\u{e9}".repeat(MAX_WOODSHED_DISCLOSURE_BYTES / 2 + 1);
    assert!(wide.chars().count() < MAX_WOODSHED_DISCLOSURE_BYTES);
    assert!(check_disclosure_size(&wide).is_err());
}
