//! The client side of the first-party door: the handshake's expectations,
//! the request counter, and what each host answer means.
//!
//! The wire is strictly request and response, so the client is sequential:
//! each request takes the next identifier and must be answered by a
//! response carrying that identifier.

use vstd::prelude::*;

use crate::app_admission::AppId;
use crate::text::str_eq;

verus! {

/// Why a client conversation failed.
#[derive(Debug, PartialEq, Eq)]
pub enum AppClientError {
    /// The resident host closed the stream mid-conversation.
    Closed,
    /// The resident host refused.
    Refused(String),
    /// The host answered with another kind of message.
    UnexpectedAnswer { expected: &'static str, got: &'static str },
    /// A response answered another request.
    MismatchedResponse { expected: u64, got: u64 },
}

/// What a host message is, as far as the client's decisions go.
#[derive(Debug, PartialEq, Eq)]
pub enum HostMessageKind {
    Challenge { host_nonce: String },
    Connected { app: AppId, session: String },
    /// A carrier response; `refusal` is the refusal's message, if it refused.
    Response { id: u64, refusal: Option<String> },
    Notice { present: bool },
    Failure { message: String },
}

/// The name a host message goes by in an error.
pub open spec fn message_name(m: HostMessageKind) -> Seq<char> {
    match m {
        HostMessageKind::Challenge { .. } => "a challenge"@,
        HostMessageKind::Connected { .. } => "connected"@,
        HostMessageKind::Response { .. } => "a carrier response"@,
        HostMessageKind::Notice { .. } => "a carrier notice"@,
        HostMessageKind::Failure { .. } => "a failure"@,
    }
}

/// The error for an answer of the wrong kind.
pub fn unexpected(expected: &'static str, got: &HostMessageKind) -> (r: AppClientError)
    ensures
        r matches AppClientError::UnexpectedAnswer { expected: e, got: g } && e == expected && g@
            == message_name(*got),
{
    let got: &'static str = match got {
        HostMessageKind::Challenge { .. } => "a challenge",
        HostMessageKind::Connected { .. } => "connected",
        HostMessageKind::Response { .. } => "a carrier response",
        HostMessageKind::Notice { .. } => "a carrier notice",
        HostMessageKind::Failure { .. } => "a failure",
    };
    AppClientError::UnexpectedAnswer { expected, got }
}

/// The first answer must be the host's challenge; its nonce is echoed back.
pub fn expect_challenge(message: HostMessageKind) -> (r: Result<String, AppClientError>)
    ensures
        match message {
            HostMessageKind::Challenge { host_nonce } => r matches Ok(n) && n@ == host_nonce@,
            _ => r matches Err(AppClientError::UnexpectedAnswer { expected, got }) && expected@
                == "a challenge"@ && got@ == message_name(message),
        },
{
    match message {
        HostMessageKind::Challenge { host_nonce } => Ok(host_nonce),
        other => Err(unexpected("a challenge", &other)),
    }
}

/// The second answer must connect this very application; its session is
/// what the client holds from then on.
pub fn expect_connected(message: HostMessageKind, app: &AppId) -> (r: Result<
    String,
    AppClientError,
>)
    ensures
        match message {
            HostMessageKind::Connected { app: connected, session } => if connected@ == app@ {
                r matches Ok(s) && s@ == session@
            } else {
                r matches Err(AppClientError::Refused(m)) && m@ == "resident host connected "@
                    + connected@ + ", expected "@ + app@
            },
            _ => r matches Err(AppClientError::UnexpectedAnswer { expected, got }) && expected@
                == "connected"@ && got@ == message_name(message),
        },
{
    match message {
        HostMessageKind::Connected { app: connected, session } => {
            if str_eq(connected.as_str(), app.as_str()) {
                Ok(session)
            } else {
                let mut m = "resident host connected ".to_owned();
                crate::text::push_str(&mut m, connected.as_str());
                crate::text::push_str(&mut m, ", expected ");
                crate::text::push_str(&mut m, app.as_str());
                Err(AppClientError::Refused(m))
            }
        },
        other => Err(unexpected("connected", &other)),
    }
}

/// An open session against the resident host: the session it admitted and
/// the identifier the next request takes.
#[derive(Debug, PartialEq, Eq)]
pub struct AppBrokerClient {
    session: String,
    next_id: u64,
}

impl AppBrokerClient {
    /// A session just connected; its first request is number one.
    pub fn connected(session: String) -> (r: Self)
        ensures
            r.session_spec() == session@,
            r.next_id_spec() == 1,
    {
        AppBrokerClient { session, next_id: 1 }
    }

    pub closed spec fn session_spec(&self) -> Seq<char> {
        self.session@
    }

    pub closed spec fn next_id_spec(&self) -> u64 {
        self.next_id
    }

    /// The session id the host admitted.
    pub fn session(&self) -> (r: &str)
        ensures
            r@ == self.session_spec(),
    {
        self.session.as_str()
    }

    /// Take the identifier for the next request.
    pub fn next_request_id(&mut self) -> (r: u64)
        requires
            old(self).next_id_spec() < u64::MAX,
        ensures
            r == old(self).next_id_spec(),
            final(self).next_id_spec() == old(self).next_id_spec() + 1,
            final(self).session_spec() == old(self).session_spec(),
    {
        let id = self.next_id;
        self.next_id = self.next_id + 1;
        id
    }
}

/// What a request's answer means: a response to this request either carries
/// its body or the host's refusal; a response to another request, or any
/// other message, is an error.
pub fn expect_response(id: u64, message: HostMessageKind) -> (r: Result<(), AppClientError>)
    ensures
        match message {
            HostMessageKind::Response { id: got, refusal } => if got == id {
                match refusal {
                    None => r is Ok,
                    Some(m) => r matches Err(AppClientError::Refused(e)) && e@ == m@,
                }
            } else {
                r == Err::<(), AppClientError>(
                    AppClientError::MismatchedResponse { expected: id, got },
                )
            },
            _ => r matches Err(AppClientError::UnexpectedAnswer { expected, got }) && expected@
                == "a carrier response"@ && got@ == message_name(message),
        },
{
    match message {
        HostMessageKind::Response { id: got, refusal } => {
            if got == id {
                match refusal {
                    None => Ok(()),
                    Some(m) => Err(AppClientError::Refused(m)),
                }
            } else {
                Err(AppClientError::MismatchedResponse { expected: id, got })
            }
        },
        other => Err(unexpected("a carrier response", &other)),
    }
}

/// What waiting for a notice yields: a notice, or the session's end.
pub fn expect_notice(message: HostMessageKind) -> (r: Result<bool, AppClientError>)
    ensures
        match message {
            HostMessageKind::Notice { present } => r == Ok::<bool, AppClientError>(present),
            _ => r matches Err(AppClientError::UnexpectedAnswer { expected, got }) && expected@
                == "a carrier notice"@ && got@ == message_name(message),
        },
{
    match message {
        HostMessageKind::Notice { present } => Ok(present),
        other => Err(unexpected("a carrier notice", &other)),
    }
}

} // verus!

verus! {

/// The URL-safe base64 digit for a six-bit value: `A`-`Z`, `a`-`z`, `0`-`9`,
/// then `-` and `_`.
pub open spec fn base64_url_digit(v: nat) -> char {
    if v < 26 {
        ((v + 65) as u8) as char
    } else if v < 52 {
        ((v - 26 + 97) as u8) as char
    } else if v < 62 {
        ((v - 52 + 48) as u8) as char
    } else if v == 62 {
        '-'
    } else {
        '_'
    }
}

/// The URL-safe, unpadded base64 text of `b` (RFC 4648, section 5): each
/// three bytes become four digits of six bits each, most significant first;
/// a final one or two bytes become two or three digits, zero-filled, with
/// no `=` padding.
pub open spec fn base64_url_nopad(b: Seq<u8>) -> Seq<char>
    decreases b.len(),
{
    if b.len() == 0 {
        Seq::empty()
    } else if b.len() == 1 {
        seq![base64_url_digit(b[0] as nat / 4), base64_url_digit((b[0] as nat % 4) * 16)]
    } else if b.len() == 2 {
        seq![
            base64_url_digit(b[0] as nat / 4),
            base64_url_digit((b[0] as nat % 4) * 16 + b[1] as nat / 16),
            base64_url_digit((b[1] as nat % 16) * 4),
        ]
    } else {
        seq![
            base64_url_digit(b[0] as nat / 4),
            base64_url_digit((b[0] as nat % 4) * 16 + b[1] as nat / 16),
            base64_url_digit((b[1] as nat % 16) * 4 + b[2] as nat / 64),
            base64_url_digit(b[2] as nat % 64),
        ] + base64_url_nopad(b.subrange(3, b.len() as int))
    }
}

/// `base64::engine::general_purpose::URL_SAFE_NO_PAD.encode`: the URL-safe
/// alphabet without padding, as the engine's configuration names it.
#[verifier::external_body]
fn encode_url_nopad(bytes: &[u8; 32]) -> (r: String)
    ensures
        r@ == base64_url_nopad(bytes@),
{
    base64::Engine::encode(&base64::engine::general_purpose::URL_SAFE_NO_PAD, bytes)
}

/// The connect answer an application sends to the host's challenge.
#[derive(Debug, PartialEq, Eq)]
pub struct ConnectAnswer {
    pub schema: String,
    pub host_nonce: String,
    pub client_nonce: String,
}

/// Answer a challenge: this door's connect schema, the host's nonce echoed,
/// and the client's fresh nonce in URL-safe unpadded base64.
pub fn connect_answer(host_nonce: String, client_nonce: &[u8; 32]) -> (r: ConnectAnswer)
    ensures
        r.schema@ == crate::app_broker::APP_CONNECT_SCHEMA@,
        r.host_nonce@ == host_nonce@,
        r.client_nonce@ == base64_url_nopad(client_nonce@),
{
    ConnectAnswer {
        schema: crate::app_broker::APP_CONNECT_SCHEMA.to_owned(),
        host_nonce,
        client_nonce: encode_url_nopad(client_nonce),
    }
}

} // verus!
