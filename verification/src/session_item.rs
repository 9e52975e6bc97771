//! The session item a resident's mere route shows in its graph projection:
//! the attached session itself, carrying the intents that act on the session
//! rather than on one node (apply edits, undo, redo, change a view), and the
//! vocabulary of the route's sessions projection, whose lifecycle intents
//! name their session by id.

use vstd::prelude::*;

use crate::json::{decimal, push_decimal};
use crate::personal_sync::{uuid_hyphenated, uuid_text};

verus! {

/// A mere route's projection of its sessions: the mere's card, then one card
/// per session, oldest first.
pub const MERE_SESSIONS: &'static str = "djinn.mere/v1/sessions";
/// A mere route's projection of the attached session's graph.
pub const MERE_GRAPH: &'static str = "djinn.mere/v1/graph";
/// The scene source kind of the sessions projection's cards.
pub const SESSIONS_SOURCE: &'static str = "mere.sessions";
/// Mint a new, empty session.
pub const MINT_SESSION_INTENT: &'static str = "mere.sessions.mint";
/// Attach this connection to another session.
pub const ATTACH_SESSION_INTENT: &'static str = "mere.sessions.attach";
/// Fork a session at its live cursor.
pub const FORK_SESSION_INTENT: &'static str = "mere.sessions.fork";
/// Put a session in the trash.
pub const TRASH_SESSION_INTENT: &'static str = "mere.sessions.trash";
/// Take a session back out of the trash.
pub const RESTORE_SESSION_INTENT: &'static str = "mere.sessions.restore";
/// Schema of [`SessionsActionV1`].
pub const SESSIONS_SCHEMA: &'static str = "mere.sessions/v1";

/// The scene source kind of the session item.
pub const SESSION_ITEM_SOURCE: &'static str = "mere.session";

/// Apply edits in stable-id form as one change.
pub const APPLY_EDITS_INTENT: &'static str = "mere.session.apply";
/// Schema of [`ApplyEditsV1`].
pub const APPLY_EDITS_SCHEMA: &'static str = "mere.session.apply/v1";
/// Undo the application's own latest change still in effect.
pub const UNDO_INTENT: &'static str = "mere.session.undo";
/// Redo the application's most recent undo.
pub const REDO_INTENT: &'static str = "mere.session.redo";
/// Schema of [`StepV1`], the undo and redo payload.
pub const STEP_SCHEMA: &'static str = "mere.session.step/v1";
/// Change one of the application's views.
pub const SET_VIEW_INTENT: &'static str = "mere.session.view";
/// Schema of [`SetViewV1`].
pub const SET_VIEW_SCHEMA: &'static str = "mere.session.view/v1";

/// Payload of [`APPLY_EDITS_INTENT`]: the edits, each in the graph kernel's
/// captured stable-id form `D`, applied as one change.
#[derive(Clone, Debug, PartialEq)]
pub struct ApplyEditsV1<D> {
    pub schema: String,
    pub edits: Vec<D>,
}

impl<D> ApplyEditsV1<D> {
    /// The payload for `edits`, under its own schema.
    pub fn new(edits: Vec<D>) -> (r: Self)
        ensures
            r.schema@ == APPLY_EDITS_SCHEMA@,
            r.edits@ == edits@,
    {
        ApplyEditsV1 { schema: APPLY_EDITS_SCHEMA.to_owned(), edits }
    }
}

/// Payload of [`UNDO_INTENT`] and [`REDO_INTENT`]: the schema alone.
#[derive(Clone, Debug, PartialEq, Eq)]
pub struct StepV1 {
    pub schema: String,
}

impl Default for StepV1 {
    /// The step payload under its own schema.
    fn default() -> (r: Self)
        ensures
            r.schema@ == STEP_SCHEMA@,
    {
        StepV1 { schema: STEP_SCHEMA.to_owned() }
    }
}

/// Payload of [`SET_VIEW_INTENT`]: one of the application's views, by name,
/// and the view state `V` to keep for it.
#[derive(Clone, Debug, PartialEq)]
pub struct SetViewV1<V> {
    pub schema: String,
    pub view: String,
    pub state: V,
}

impl<V> SetViewV1<V> {
    /// Keep `state` for the view named `view`.
    pub fn new(view: &str, state: V) -> (r: Self)
        ensures
            r.schema@ == SET_VIEW_SCHEMA@,
            r.view@ == view@,
            r.state == state,
    {
        SetViewV1 { schema: SET_VIEW_SCHEMA.to_owned(), view: view.to_owned(), state }
    }
}

/// Payload of the sessions projection's intents. A step on a session names
/// it by id, so it lands however the list has moved since the application
/// looked; minting names none, and only minting reads the name.
#[derive(Clone, Debug, PartialEq, Eq)]
pub struct SessionsActionV1 {
    pub schema: String,
    /// The session's id, as a 128-bit UUID value.
    pub session: Option<u128>,
    pub display_name: Option<String>,
}

impl SessionsActionV1 {
    /// A step on session `id`: attach, fork, trash or restore.
    pub fn on(id: u128) -> (r: Self)
        ensures
            r.schema@ == SESSIONS_SCHEMA@,
            r.session == Some(id),
            r.display_name.is_none(),
    {
        SessionsActionV1 { schema: SESSIONS_SCHEMA.to_owned(), session: Some(id), display_name: None }
    }

    /// Mint a session, named or not.
    pub fn mint(display_name: Option<String>) -> (r: Self)
        ensures
            r.schema@ == SESSIONS_SCHEMA@,
            r.session.is_none(),
            r.display_name == display_name,
    {
        SessionsActionV1 { schema: SESSIONS_SCHEMA.to_owned(), session: None, display_name }
    }
}

/// What carrying out an advertised intent changes.
#[derive(Clone, Copy, Debug, PartialEq, Eq, Structural)]
pub enum IntentEffect {
    /// It changes what the graph says.
    DomainTruth,
    /// It changes only how the graph is kept or shown.
    Curation,
}

/// One intent a projection item offers, with the schema of its payload.
#[derive(Clone, Debug, PartialEq, Eq)]
pub struct AdvertisedAction {
    pub intent: String,
    pub label: String,
    pub explanation: String,
    pub payload_schema: String,
    pub effect: IntentEffect,
}

/// The text of an advertised action, as plain sequences.
pub open spec fn action_is(
    a: AdvertisedAction,
    intent: Seq<char>,
    label: Seq<char>,
    explanation: Seq<char>,
    schema: Seq<char>,
    effect: IntentEffect,
) -> bool {
    &&& a.intent@ == intent
    &&& a.label@ == label
    &&& a.explanation@ == explanation
    &&& a.payload_schema@ == schema
    &&& a.effect == effect
}

fn action(
    intent: &str,
    label: &str,
    explanation: &str,
    schema: &str,
    effect: IntentEffect,
) -> (r: AdvertisedAction)
    ensures
        action_is(r, intent@, label@, explanation@, schema@, effect),
{
    AdvertisedAction {
        intent: intent.to_owned(),
        label: label.to_owned(),
        explanation: explanation.to_owned(),
        payload_schema: schema.to_owned(),
        effect,
    }
}

/// What the session item offers: apply edits, undo and redo change what the
/// graph says; changing a view only curates.
pub fn actions() -> (r: Vec<AdvertisedAction>)
    ensures
        r@.len() == 4,
        action_is(
            r@[0],
            APPLY_EDITS_INTENT@,
            "Apply edits"@,
            "Apply edits in stable-id form to this session as one change, under your name."@,
            APPLY_EDITS_SCHEMA@,
            IntentEffect::DomainTruth,
        ),
        action_is(
            r@[1],
            UNDO_INTENT@,
            "Undo"@,
            "Undo your latest change still in effect; what others changed since stays."@,
            STEP_SCHEMA@,
            IntentEffect::DomainTruth,
        ),
        action_is(
            r@[2],
            REDO_INTENT@,
            "Redo"@,
            "Redo your most recent undo."@,
            STEP_SCHEMA@,
            IntentEffect::DomainTruth,
        ),
        action_is(
            r@[3],
            SET_VIEW_INTENT@,
            "Change a view"@,
            "Keep one of your views of this session: its folds, camera and layout."@,
            SET_VIEW_SCHEMA@,
            IntentEffect::Curation,
        ),
{
    let mut r: Vec<AdvertisedAction> = Vec::new();
    r.push(
        action(
            APPLY_EDITS_INTENT,
            "Apply edits",
            "Apply edits in stable-id form to this session as one change, under your name.",
            APPLY_EDITS_SCHEMA,
            IntentEffect::DomainTruth,
        ),
    );
    r.push(
        action(
            UNDO_INTENT,
            "Undo",
            "Undo your latest change still in effect; what others changed since stays.",
            STEP_SCHEMA,
            IntentEffect::DomainTruth,
        ),
    );
    r.push(
        action(
            REDO_INTENT,
            "Redo",
            "Redo your most recent undo.",
            STEP_SCHEMA,
            IntentEffect::DomainTruth,
        ),
    );
    r.push(
        action(
            SET_VIEW_INTENT,
            "Change a view",
            "Keep one of your views of this session: its folds, camera and layout.",
            SET_VIEW_SCHEMA,
            IntentEffect::Curation,
        ),
    );
    r
}

/// One labelled value on a card.
#[derive(Clone, Debug, PartialEq, Eq)]
pub struct CardValue {
    pub label: String,
    pub value: String,
}

/// A card as a projection shows it: a title, labelled values and badges.
#[derive(Clone, Debug, PartialEq, Eq)]
pub struct PortableCard {
    pub title: String,
    pub values: Vec<CardValue>,
    pub badges: Vec<String>,
}

/// The session item's card, from what the session says of itself: its
/// display name, its id and how many changes it holds. An unnamed session
/// is titled "Session".
pub fn card(display_name: &Option<String>, session: u128, changes: usize) -> (r: PortableCard)
    ensures
        r.title@ == match display_name {
            Some(name) => name@,
            None => "Session"@,
        },
        r.values@.len() == 2,
        r.values@[0].label@ == "Session"@,
        r.values@[0].value@ == uuid_hyphenated(session),
        r.values@[1].label@ == "Changes"@,
        r.values@[1].value@ == decimal(changes as nat),
        r.badges@.len() == 0,
{
    let title = match display_name {
        Some(name) => name.clone(),
        None => "Session".to_owned(),
    };
    let mut count = String::new();
    push_decimal(&mut count, changes as u64);
    let mut values: Vec<CardValue> = Vec::new();
    values.push(CardValue { label: "Session".to_owned(), value: uuid_text(session) });
    values.push(CardValue { label: "Changes".to_owned(), value: count });
    PortableCard { title, values, badges: Vec::new() }
}

} // verus!
