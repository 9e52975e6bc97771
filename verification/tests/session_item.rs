use graphshell::session_item::{
    actions, card, ApplyEditsV1, IntentEffect, SessionsActionV1, SetViewV1, StepV1,
    APPLY_EDITS_INTENT, REDO_INTENT, SET_VIEW_INTENT, SET_VIEW_SCHEMA, STEP_SCHEMA, UNDO_INTENT,
};

#[test]
fn undo_and_redo_carry_only_the_step_schema() {
    assert_eq!(StepV1::default().schema, "mere.session.step/v1");
    assert_eq!(StepV1::default().schema, STEP_SCHEMA);
}

#[test]
fn a_step_on_a_session_names_it_and_minting_names_none() {
    let on = SessionsActionV1::on(7);
    assert_eq!(on.schema, "mere.sessions/v1");
    assert_eq!(on.session, Some(7));
    assert_eq!(on.display_name, None);

    let mint = SessionsActionV1::mint(Some("Draft".to_string()));
    assert_eq!(mint.schema, "mere.sessions/v1");
    assert_eq!(mint.session, None);
    assert_eq!(mint.display_name.as_deref(), Some("Draft"));
}

#[test]
fn payloads_carry_their_own_schemas() {
    let edits = ApplyEditsV1::new(vec![1u8, 2, 3]);
    assert_eq!(edits.schema, "mere.session.apply/v1");
    assert_eq!(edits.edits, vec![1, 2, 3]);
    let view = SetViewV1::new("board", 42u32);
    assert_eq!(view.schema, SET_VIEW_SCHEMA);
    assert_eq!(view.view, "board");
    assert_eq!(view.state, 42);
}

#[test]
fn the_session_item_offers_four_actions_and_only_the_view_change_curates() {
    let offered = actions();
    let intents: Vec<&str> = offered.iter().map(|a| a.intent.as_str()).collect();
    assert_eq!(
        intents,
        vec![APPLY_EDITS_INTENT, UNDO_INTENT, REDO_INTENT, SET_VIEW_INTENT]
    );
    assert_eq!(offered[0].label, "Apply edits");
    assert_eq!(offered[1].payload_schema, STEP_SCHEMA);
    assert_eq!(offered[2].explanation, "Redo your most recent undo.");
    let effects: Vec<IntentEffect> = offered.iter().map(|a| a.effect).collect();
    assert_eq!(
        effects,
        vec![
            IntentEffect::DomainTruth,
            IntentEffect::DomainTruth,
            IntentEffect::DomainTruth,
            IntentEffect::Curation
        ]
    );
}

#[test]
fn the_session_card_shows_its_id_and_change_count() {
    let id = 0x67e5_5044_10b1_426f_9247_bb68_0e5f_e0c8u128;
    let unnamed = card(&None, id, 12);
    assert_eq!(unnamed.title, "Session");
    assert_eq!(unnamed.values[0].label, "Session");
    assert_eq!(unnamed.values[0].value, "67e55044-10b1-426f-9247-bb680e5fe0c8");
    assert_eq!(unnamed.values[1].label, "Changes");
    assert_eq!(unnamed.values[1].value, "12");

    let named = card(&Some("Chapter two".to_string()), 0, 0);
    assert_eq!(named.title, "Chapter two");
    assert_eq!(named.values[0].value, "00000000-0000-0000-0000-000000000000");
    assert_eq!(named.values[1].value, "0");
}
