use graphshell::projection_compile::{
    definition_issues, field_issue, occurrence_instances, occurrence_issues, validation_issues, OccurrenceFacts, ValueFacts, stable_generation, ChannelBinding, CompileIssue, DatasetFacts,
    DefinitionFacts, ProjectionFieldType, ProjectionSnapshot, GRID_ARRANGEMENT_ID,
    SCATTER_ARRANGEMENT_ID,
};

fn reference_generation(revision: &str, ids: &[&str]) -> u64 {
    let mut value = 0xcbf2_9ce4_8422_2325u64;
    for byte in revision.bytes().chain([0]) {
        value ^= u64::from(byte);
        value = value.wrapping_mul(0x0000_0100_0000_01b3);
    }
    let mut sorted: Vec<&[u8]> = ids.iter().map(|id| id.as_bytes()).collect();
    sorted.sort();
    for id in sorted {
        for byte in id.iter().copied().chain([0]) {
            value ^= u64::from(byte);
            value = value.wrapping_mul(0x0000_0100_0000_01b3);
        }
    }
    value
}

fn owned(ids: &[&str]) -> Vec<String> {
    ids.iter().map(|id| id.to_string()).collect()
}

#[test]
fn the_generation_is_fnv_over_the_revision_and_sorted_ids() {
    let ids = ["occ-b", "occ-a", "ünïcode", "occ-a"];
    assert_eq!(stable_generation("rev-7", &owned(&ids)), reference_generation("rev-7", &ids));
    assert_eq!(stable_generation("", &Vec::new()), reference_generation("", &[]));
    assert_ne!(
        stable_generation("rev-7", &owned(&ids)),
        stable_generation("rev-8", &owned(&ids))
    );
}

#[test]
fn the_generation_ignores_the_order_occurrences_are_listed_in() {
    assert_eq!(
        stable_generation("r", &owned(&["c", "a", "b"])),
        stable_generation("r", &owned(&["b", "c", "a"]))
    );
    assert_ne!(
        stable_generation("r", &owned(&["a", "b"])),
        stable_generation("r", &owned(&["ab"]))
    );
}

#[test]
fn a_bound_field_must_be_disclosed_with_the_needed_type() {
    let fields = vec![
        ("title".to_string(), ProjectionFieldType::Text),
        ("year".to_string(), ProjectionFieldType::Number),
    ];
    assert_eq!(field_issue(&fields, "encoding.x", "year", ProjectionFieldType::Number), None);
    assert_eq!(
        field_issue(&fields, "encoding.label", "year", ProjectionFieldType::Text),
        Some(CompileIssue::new("encoding.label", "field has an incompatible type"))
    );
    assert_eq!(
        field_issue(&fields, "reading.key", "id", ProjectionFieldType::Text),
        Some(CompileIssue {
            field: "reading.key".to_string(),
            message: "field is not disclosed by this dataset".to_string(),
        })
    );
}

#[test]
fn a_snapshot_restores_its_selection_only_while_the_occurrence_exists() {
    let kept = ProjectionSnapshot {
        definition: "chronicle",
        selected_occurrence: Some("phrase:repeat".to_string()),
    };
    let ids = owned(&["phrase:opening", "phrase:repeat"]);
    assert_eq!(kept.stale_selection(&ids), None);

    let stale = ProjectionSnapshot {
        definition: "chronicle",
        selected_occurrence: Some("gone".to_string()),
    };
    let issue = stale.stale_selection(&ids).expect("a vanished selection is refused");
    assert_eq!(issue.field, "selected_occurrence");
    assert_eq!(
        issue.message,
        "the saved selected occurrence is absent from this dataset revision"
    );

    let none = ProjectionSnapshot { definition: "chronicle", selected_occurrence: None };
    assert_eq!(none.stale_selection(&Vec::new()), None);
}

fn dataset() -> DatasetFacts {
    DatasetFacts {
        authority: "woodshed.local".into(),
        domain: "set".into(),
        resource: "set:practice".into(),
        revision: "woodshed-fixture-v1".into(),
        fields: vec![
            ("label".into(), ProjectionFieldType::Text),
            ("occurrence_id".into(), ProjectionFieldType::Text),
            ("x".into(), ProjectionFieldType::Number),
            ("y".into(), ProjectionFieldType::Number),
        ],
    }
}

fn definition(kind: &str) -> DefinitionFacts {
    DefinitionFacts {
        authority: "woodshed.local".into(),
        domain: "set".into(),
        resource: "set:practice".into(),
        source_revision: Some("woodshed-fixture-v1".into()),
        reading_kind: "nodes".into(),
        reading_key: "occurrence_id".into(),
        aggregates_value: false,
        x: ChannelBinding::Field("x".into()),
        y: ChannelBinding::Field("y".into()),
        label: Some(ChannelBinding::Field("label".into())),
        colored: false,
        arrangement_kind: kind.into(),
        arrangement_direction: "coordinates".into(),
        arrangement_options: 0,
        single_selection: true,
        pan: false,
        zoom: false,
        realization: "canvas".into(),
        theme: "slate".into(),
    }
}

fn fields_of(issues: &[CompileIssue]) -> Vec<&str> {
    issues.iter().map(|issue| issue.field.as_str()).collect()
}

#[test]
fn a_matching_definition_raises_nothing_before_its_occurrences() {
    assert!(definition_issues(Vec::new(), &definition(SCATTER_ARRANGEMENT_ID), &dataset()).is_empty());
    assert!(definition_issues(Vec::new(), &definition(GRID_ARRANGEMENT_ID), &dataset()).is_empty());
}

#[test]
fn an_unregistered_layout_a_missing_field_and_a_foreign_renderer_are_each_named() {
    let mut d = definition(SCATTER_ARRANGEMENT_ID);
    d.arrangement_kind = "made-up-layout".into();
    d.x = ChannelBinding::Field("missing".into());
    d.realization = "unregistered-renderer".into();
    let issues = definition_issues(Vec::new(), &d, &dataset());
    assert_eq!(
        fields_of(&issues),
        vec!["appearance.realization", "encoding.x", "arrangement.kind"]
    );
    assert_eq!(issues[1].message, "field is not disclosed by this dataset");
    assert_eq!(
        issues[2].message,
        "supported arrangements are grid.default and scatter.default"
    );
}

#[test]
fn a_color_channel_and_a_stale_revision_are_refused() {
    let mut d = definition(SCATTER_ARRANGEMENT_ID);
    d.colored = true;
    d.source_revision = Some("stale".into());
    let issues = definition_issues(Vec::new(), &d, &dataset());
    assert_eq!(fields_of(&issues), vec!["provenance.source_revision", "encoding.color"]);
    assert_eq!(issues[0].message, "definition does not match the resolved dataset");
}

#[test]
fn an_arrangement_option_is_refused() {
    let mut d = definition(GRID_ARRANGEMENT_ID);
    d.arrangement_options = 1;
    let issues = definition_issues(Vec::new(), &d, &dataset());
    assert_eq!(fields_of(&issues), vec!["arrangement.options"]);
}

#[test]
fn the_draft_issues_come_first_and_every_check_keeps_its_place() {
    let draft = vec![CompileIssue {
        field: "version".into(),
        message: "unsupported version".into(),
    }];
    let d = DefinitionFacts {
        authority: "other".into(),
        domain: "other".into(),
        resource: "other".into(),
        source_revision: None,
        reading_kind: "edges".into(),
        reading_key: "label".into(),
        aggregates_value: true,
        x: ChannelBinding::Constant,
        y: ChannelBinding::Field("label".into()),
        label: None,
        colored: true,
        arrangement_kind: "radial".into(),
        arrangement_direction: "flow".into(),
        arrangement_options: 2,
        single_selection: false,
        pan: true,
        zoom: false,
        realization: "canvas".into(),
        theme: "paper".into(),
    };
    let issues = definition_issues(draft, &d, &dataset());
    assert_eq!(
        fields_of(&issues),
        vec![
            "version",
            "source.authority",
            "source.domain",
            "source.resource",
            "provenance.source_revision",
            "reading.value",
            "interaction",
            "appearance.theme",
            "reading.kind",
            "encoding.x",
            "encoding.y",
            "encoding.label",
            "arrangement.kind",
            "arrangement.direction",
            "arrangement.options",
        ]
    );
    assert_eq!(issues[9].message, "constants are not executable for this channel");
    assert_eq!(issues[10].message, "field has an incompatible type");
    assert_eq!(issues[11].message, "an executable projection needs a text label field");
}

fn occurrence(id: &str, label: &str, x: ValueFacts) -> OccurrenceFacts {
    OccurrenceFacts {
        occurrence_id: id.to_string(),
        source_adapter: "woodshed.set".to_string(),
        source_id: "bar:1".to_string(),
        values: vec![
            ("label".to_string(), ValueFacts::Text(label.to_string())),
            ("occurrence_id".to_string(), ValueFacts::Text(id.to_string())),
            ("x".to_string(), x),
            ("y".to_string(), ValueFacts::Number { finite: true, fits_scatter: true }),
        ],
    }
}

fn finite() -> ValueFacts {
    ValueFacts::Number { finite: true, fits_scatter: true }
}

#[test]
fn well_formed_occurrences_raise_nothing() {
    let occurrences = vec![occurrence("phrase:repeat", "Repeat bar", finite()), occurrence("phrase:opening", "Opening", finite())];
    assert!(occurrence_issues(&definition(SCATTER_ARRANGEMENT_ID), &occurrences, &dataset().fields).is_empty());
    assert!(validation_issues(Vec::new(), &definition(SCATTER_ARRANGEMENT_ID), &dataset(), &occurrences).is_empty());
}

#[test]
fn each_occurrence_check_names_its_field() {
    let mut blank = occurrence("a", "A", finite());
    blank.source_id = "  ".to_string();
    blank.values.push(("zeta".to_string(), ValueFacts::Boolean));
    let repeated = occurrence("a", "A2", ValueFacts::Number { finite: false, fits_scatter: false });
    let mut wrong = occurrence("b", "B", ValueFacts::Text("left".to_string()));
    wrong.values[1] = ("occurrence_id".to_string(), ValueFacts::Text("other".to_string()));
    let far = occurrence("c", "C", ValueFacts::Number { finite: true, fits_scatter: false });
    let issues = occurrence_issues(
        &definition(SCATTER_ARRANGEMENT_ID),
        &vec![blank, repeated, wrong, far],
        &dataset().fields,
    );
    let shown: Vec<(&str, &str)> = issues.iter().map(|i| (i.field.as_str(), i.message.as_str())).collect();
    assert_eq!(
        shown,
        vec![
            ("occurrences.a.source", "each occurrence needs an exact source reference"),
            ("occurrences.a.values.zeta", "value names a field absent from the disclosed schema"),
            ("occurrences.a.occurrence_id", "occurrence ids must be non-empty and unique"),
            ("occurrences.a.values.x", "encoding.x needs a finite number value"),
            ("occurrences.a.values.x", "scatter coordinates must fit finite scene units"),
            ("occurrences.b.values.x", "value does not match the disclosed field type"),
            ("occurrences.b.values.occurrence_id", "the reading key must repeat this occurrence id exactly"),
            ("occurrences.b.values.x", "encoding.x needs a finite number value"),
            ("occurrences.c.values.x", "scatter coordinates must fit finite scene units"),
        ]
    );
    let grid = occurrence_issues(
        &definition(GRID_ARRANGEMENT_ID),
        &vec![occurrence("c", "C", ValueFacts::Number { finite: true, fits_scatter: false })],
        &dataset().fields,
    );
    assert!(grid.is_empty());
}

#[test]
fn instances_follow_occurrence_ids_and_a_selection_finds_its_instance() {
    let ids = owned(&["phrase:repeat", "phrase:opening", "card:2"]);
    let (order, selected) = occurrence_instances(&ids, &Some("phrase:repeat".to_string()));
    assert_eq!(order, vec![2, 1, 0]);
    assert_eq!(selected, Some(2));
    assert_eq!(occurrence_instances(&ids, &Some("gone".to_string())).1, None);
    assert_eq!(occurrence_instances(&ids, &None).1, None);
}
