use graphshell::json::{write_canonical_json, JsonNumber, JsonValue};
use graphshell::practice_workspace::{
    ComparisonError, ComparisonMethod, ComparisonRecord, ComparisonSourceRef, ComparisonSubject,
    PracticeAction, PracticeOutcome, PracticeRuntimeConfig, PracticeSource,
    PracticeSourceBinding, PracticeView, PracticeWorkspace, ReduceError, Selection,
    SnapshotError, WorkspaceError,
};

fn text(value: &str) -> JsonValue {
    JsonValue::String(value.to_owned())
}

fn object(entries: Vec<(&str, JsonValue)>) -> JsonValue {
    JsonValue::Object(
        entries
            .into_iter()
            .map(|(key, value)| (key.to_owned(), value))
            .collect(),
    )
}

fn pitch(class: u64, label: &str) -> JsonValue {
    object(vec![
        ("pitch_class", JsonValue::Number(JsonNumber::PosInt(class))),
        ("label", text(label)),
    ])
}

fn binding() -> PracticeSourceBinding {
    PracticeSourceBinding {
        authority: "woodshed".into(),
        domain: "music.practice".into(),
        resource: "set:musical-comparison".into(),
    }
}

fn source() -> PracticeSource {
    PracticeSource {
        binding: binding(),
        revision: "musical-comparison-fixture-v1".into(),
        occurrence_ids: vec!["card:1".into(), "card:2".into(), "card:3".into()],
    }
}

fn subject(occurrence: &str, id: &str, label: &str, pitches: Vec<JsonValue>) -> ComparisonSubject {
    ComparisonSubject {
        occurrence_id: occurrence.into(),
        source: ComparisonSourceRef {
            adapter: "woodshed.set".into(),
            id: id.into(),
        },
        label: label.into(),
        disclosed: vec![("pitch_set".into(), JsonValue::Array(pitches))],
    }
}

/// A Woodshed comparison of a C major triad with a C minor triad.
fn comparison() -> ComparisonRecord {
    ComparisonRecord {
        source: binding(),
        revision: "musical-comparison-fixture-v1".into(),
        method: ComparisonMethod {
            id: "keyed-pitch-set-singleton".into(),
            version: 1,
        },
        left: subject(
            "card:1",
            "chord:C",
            "C major",
            vec![pitch(0, "C"), pitch(4, "E"), pitch(7, "G")],
        ),
        right: subject(
            "card:2",
            "chord:Cm",
            "C minor",
            vec![pitch(0, "C"), pitch(3, "E♭"), pitch(7, "G")],
        ),
        result: object(vec![
            ("status", text("applicable")),
            ("version", JsonValue::Number(JsonNumber::PosInt(1))),
            ("shared", JsonValue::Array(vec![pitch(0, "C"), pitch(7, "G")])),
            ("left_only", JsonValue::Array(vec![pitch(4, "E")])),
            ("right_only", JsonValue::Array(vec![pitch(3, "E♭")])),
            (
                "singleton_motion",
                object(vec![("from", pitch(4, "E")), ("to", pitch(3, "E♭"))]),
            ),
        ]),
        disclosed: Vec::new(),
    }
}

fn runtime() -> PracticeRuntimeConfig {
    PracticeRuntimeConfig {
        layout_id: "grid.default".into(),
        physics_enabled: false,
    }
}

fn workspace(limit: usize) -> PracticeWorkspace {
    PracticeWorkspace::new(source(), comparison(), runtime(), limit).unwrap()
}

#[test]
fn rejects_comparison_when_current_source_identity_or_ids_do_not_match() {
    let mut stale = source();
    stale.revision = "newer".into();
    assert_eq!(
        PracticeWorkspace::new(stale, comparison(), runtime(), 4),
        Err(WorkspaceError::Comparison(
            ComparisonError::SourceRevisionMismatch
        ))
    );

    let mut missing = source();
    missing.occurrence_ids.retain(|id| id != "card:2");
    assert_eq!(
        PracticeWorkspace::new(missing, comparison(), runtime(), 4),
        Err(WorkspaceError::Comparison(
            ComparisonError::UnknownOccurrence("card:2".into())
        ))
    );
}

#[test]
fn return_to_changes_location_without_editing_source() {
    let mut workspace = workspace(4);
    let source_before = workspace.source().clone();
    workspace
        .reduce(PracticeAction::Select(Selection::Occurrence(
            "card:1".into(),
        )))
        .unwrap();
    let comparison_entry = workspace.history()[0].id;
    workspace
        .reduce(PracticeAction::ReturnTo(comparison_entry))
        .unwrap();
    assert_eq!(workspace.location().selection, Selection::Comparison);
    assert_eq!(workspace.source(), &source_before);
}

#[test]
fn history_is_bounded_and_ids_remain_monotonic_after_eviction() {
    let mut workspace = workspace(2);
    workspace
        .reduce(PracticeAction::Select(Selection::Occurrence(
            "card:1".into(),
        )))
        .unwrap();
    workspace
        .reduce(PracticeAction::SelectView(PracticeView::Compare))
        .unwrap();
    workspace
        .reduce(PracticeAction::Select(Selection::Occurrence(
            "card:2".into(),
        )))
        .unwrap();
    assert_eq!(workspace.history().len(), 2);
    assert_eq!(workspace.history()[0].id, 1);
    assert_eq!(workspace.history()[1].id, 2);
    assert_eq!(
        workspace.reduce(PracticeAction::ReturnTo(0)),
        Err(ReduceError::UnknownHistoryEntry(0))
    );
}

#[test]
fn save_and_reopen_restores_history_location_and_runtime() {
    let mut workspace = workspace(4);
    workspace
        .reduce(PracticeAction::Select(Selection::Occurrence(
            "card:1".into(),
        )))
        .unwrap();
    workspace
        .reduce(PracticeAction::SelectView(PracticeView::Relations))
        .unwrap();
    let saved = workspace.snapshot();
    let reopened = PracticeWorkspace::reopen(saved, source(), comparison(), 4).unwrap();
    assert_eq!(reopened.location(), workspace.location());
    assert_eq!(reopened.history(), workspace.history());
    assert_eq!(reopened.runtime(), workspace.runtime());
}

#[test]
fn reopen_rejects_changed_evidence_at_the_same_source_revision() {
    let snapshot = workspace(4).snapshot();
    let mut changed = comparison();
    changed.left.disclosed = vec![(
        "pitch_set".into(),
        JsonValue::Array(vec![pitch(0, "C altered"), pitch(4, "E"), pitch(7, "G")]),
    )];
    assert_eq!(
        PracticeWorkspace::reopen(snapshot, source(), changed, 4),
        Err(SnapshotError::ComparisonEvidenceMismatch)
    );
}

#[test]
fn runtime_changes_are_validated_without_creating_history() {
    let mut workspace = workspace(4);
    workspace
        .set_runtime(PracticeRuntimeConfig {
            layout_id: "scatter.default".into(),
            physics_enabled: true,
        })
        .unwrap();
    assert_eq!(workspace.history(), &[]);
    assert_eq!(workspace.runtime().layout_id, "scatter.default");
    assert_eq!(
        workspace.set_runtime(PracticeRuntimeConfig {
            layout_id: " ".into(),
            physics_enabled: true,
        }),
        Err(WorkspaceError::EmptyLayoutId)
    );
}

#[test]
fn reopen_rejects_stale_revision_and_missing_saved_occurrence() {
    let mut workspace = workspace(4);
    workspace
        .reduce(PracticeAction::Select(Selection::Occurrence(
            "card:1".into(),
        )))
        .unwrap();
    let mut snapshot = workspace.snapshot();

    let mut stale = source();
    stale.revision = "newer".into();
    assert_eq!(
        PracticeWorkspace::reopen(snapshot.clone(), stale, comparison(), 4),
        Err(SnapshotError::SourceRevisionMismatch)
    );

    let mut missing = source();
    missing.occurrence_ids.retain(|id| id != "card:1");
    let mut current_comparison = comparison();
    current_comparison.left.occurrence_id = "card:2".into();
    current_comparison.right.occurrence_id = "card:3".into();
    snapshot.comparison_evidence = current_comparison.canonical_evidence();
    assert_eq!(
        PracticeWorkspace::reopen(snapshot, missing, current_comparison, 4),
        Err(SnapshotError::MissingOccurrence("card:1".into()))
    );
}

#[test]
fn the_peer_of_a_selected_subject_is_the_other_side_of_the_pair() {
    let mut workspace = workspace(4);
    assert!(workspace.relation_peer_for_selection().is_none());
    let left = workspace.comparison().left.occurrence_id.clone();
    let right = workspace.comparison().right.occurrence_id.clone();
    workspace
        .reduce(PracticeAction::Select(Selection::Occurrence(left.clone())))
        .unwrap();
    assert_eq!(
        workspace.relation_peer_for_selection().map(|s| s.occurrence_id.clone()),
        Some(right.clone())
    );
    workspace
        .reduce(PracticeAction::Select(Selection::Occurrence(right)))
        .unwrap();
    assert_eq!(
        workspace.relation_peer_for_selection().map(|s| s.occurrence_id.clone()),
        Some(left)
    );
}
