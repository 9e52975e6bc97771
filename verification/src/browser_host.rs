//! The resident identity authority's browser native-messaging edge: what
//! each message from an admitted browser means for its session, and the
//! wall clock the session loop reads.

use vstd::prelude::*;

use std::time::{Duration, SystemTime};

use crate::endpoint_catalog::duration_as_nanos;
use crate::identity_ui::NativeIdentityFailure;
use crate::text::str_eq;

verus! {

#[verifier::external_type_specification]
#[verifier::external_body]
pub struct ExSystemTime(SystemTime);

/// `SystemTime::now`: the system clock's reading. Nothing is promised of it.
#[verifier::external_body]
fn system_now() -> SystemTime {
    SystemTime::now()
}

/// `SystemTime::duration_since(UNIX_EPOCH)`: the span from the epoch to `t`,
/// `None` when `t` is before the epoch. It rests on the clock's reading, so
/// nothing more is promised.
#[verifier::external_body]
fn since_epoch(t: &SystemTime) -> Option<Duration> {
    t.duration_since(std::time::UNIX_EPOCH).ok()
}

/// `Duration::as_millis`: the whole milliseconds in `d`.
#[verifier::external_body]
fn duration_millis(d: &Duration) -> (ms: u128)
    ensures
        ms == duration_as_nanos(*d) / 1_000_000,
{
    d.as_millis()
}

/// The whole milliseconds of a span since the Unix epoch, as a `u64`
/// (truncated, as `as` does); `None` where there is no span, the clock
/// having read before the epoch.
pub fn epoch_millis(elapsed: Option<Duration>) -> (r: Option<u64>)
    ensures
        r == match elapsed {
            Some(d) => Some((duration_as_nanos(d) / 1_000_000) as u64),
            None => None::<u64>,
        },
{
    match elapsed {
        Some(d) => {
            let ms = duration_millis(&d);
            let whole: u64 = #[verifier::truncate]
            (ms as u64);
            Some(whole)
        },
        None => None,
    }
}

/// Milliseconds since the Unix epoch, as the session loop reads the time;
/// `None` when the clock reads before the epoch, which no session can
/// stamp. The reading itself is the system clock's, so no clause fixes it;
/// what is made of the reading is [`epoch_millis`].
pub fn now_ms() -> Option<u64> {
    let now = system_now();
    epoch_millis(since_epoch(&now))
}

/// What a message from an admitted browser is, as far as the edge's
/// decisions go.
#[derive(Clone, Debug, PartialEq, Eq)]
pub enum BrowserMessageKind {
    /// One carrier request; `closes` when it asks to close or suspend.
    Request { closes: bool },
    /// A native identity interaction, naming the session it is for.
    NativeIdentity { session: String },
    /// A second connect on a connected session.
    Connect,
}

/// What the edge does with one browser message.
#[derive(Clone, Debug, PartialEq, Eq)]
pub enum BrowserAction {
    /// Forward the request to the session and send back its response.
    Forward { closes: bool },
    /// Carry out the native identity interaction in this process.
    ApplyNativeIdentity,
    /// Answer the native identity request with this refusal.
    RejectNativeIdentity(NativeIdentityFailure),
    /// Reply with a failure and keep serving.
    Fail { message: String },
}

/// Decide on one message of the connected browser session `session`. A
/// native identity request is carried out only when it names this session.
pub fn on_browser_message(message: &BrowserMessageKind, session: &str) -> (r: BrowserAction)
    ensures
        match *message {
            BrowserMessageKind::Request { closes } => r == BrowserAction::Forward { closes },
            BrowserMessageKind::NativeIdentity { session: named } => r == if named@ == session@ {
                BrowserAction::ApplyNativeIdentity
            } else {
                BrowserAction::RejectNativeIdentity(NativeIdentityFailure::WrongSession)
            },
            BrowserMessageKind::Connect => r matches BrowserAction::Fail { message }
                && message@ == "the browser session is already connected"@,
        },
{
    match message {
        BrowserMessageKind::Request { closes } => BrowserAction::Forward { closes: *closes },
        BrowserMessageKind::NativeIdentity { session: named } => {
            if str_eq(named.as_str(), session) {
                BrowserAction::ApplyNativeIdentity
            } else {
                BrowserAction::RejectNativeIdentity(NativeIdentityFailure::WrongSession)
            }
        },
        BrowserMessageKind::Connect => BrowserAction::Fail {
            message: "the browser session is already connected".to_owned(),
        },
    }
}

} // verus!
