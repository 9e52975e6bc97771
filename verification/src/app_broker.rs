//! The first-party application door's decisions.
//!
//! The door reads a hello, admits the application and route it names,
//! challenges it, and then forwards its requests to the admitted endpoint.
//! Reading, writing and the endpoint itself belong to the host process;
//! what each message means for the session is decided here.

use vstd::prelude::*;

use crate::app_admission::{
    accept_outcome, admit_outcome, AllowedAppRoutes, AppAdmissionError, AppHello, AppRequest,
    APP_IDENTITY_ROUTE,
};
use crate::endpoint_catalog::ResidentEndpointRoute;
use crate::text::str_eq;

verus! {

/// Schema of the connect answer an application sends.
pub const APP_CONNECT_SCHEMA: &'static str = "mere.graphshell/app-connect/v1";

/// Why the door refused a connection before serving it.
#[derive(Debug, PartialEq, Eq)]
pub enum AppDoorRefusal {
    /// The application stream ended before its hello.
    MissingHello,
    /// The hello was refused, or its application or route is not admitted.
    Admission(AppAdmissionError),
    /// The first application message must answer the host challenge.
    ConnectRequired,
    /// The connect answer used another schema.
    WrongSchema,
}

/// Admit a connection from its hello: accept the hello, then select the
/// granted route for the application and route it names.
pub fn open_door(hello: Option<AppHello>, allowed: &AllowedAppRoutes) -> (r: Result<
    (AppRequest, ResidentEndpointRoute),
    AppDoorRefusal,
>)
    requires
        allowed.wf(),
    ensures
        match hello {
            None => r == Err::<(AppRequest, ResidentEndpointRoute), AppDoorRefusal>(
                AppDoorRefusal::MissingHello,
            ),
            Some(h) => match accept_outcome(h@) {
                Err(v) => r matches Err(AppDoorRefusal::Admission(e)) && e@ == v,
                Ok(req) => match admit_outcome(allowed.grants(), req) {
                    Err(v) => r matches Err(AppDoorRefusal::Admission(e)) && e@ == v,
                    Ok(route) => r matches Ok(p) && p.0@ == req && p.1@ == route,
                },
            },
        },
{
    let hello = match hello {
        None => return Err(AppDoorRefusal::MissingHello),
        Some(h) => h,
    };
    let request = match hello.accept() {
        Err(e) => return Err(AppDoorRefusal::Admission(e)),
        Ok(request) => request,
    };
    match allowed.admit_request(&request) {
        Err(e) => Err(AppDoorRefusal::Admission(e)),
        Ok(route) => Ok((request, route)),
    }
}

/// What an application message is, as far as the door's decisions go.
#[derive(Debug, PartialEq, Eq)]
pub enum AppMessageKind {
    /// Answer the host challenge and open the session.
    Connect { schema: String },
    /// One carrier request; `closes` when it asks to close or suspend.
    Request { closes: bool },
    /// Take one notice the session already received, without waiting.
    TakeNotice,
    /// Wait until the admitted endpoint rings with a revision notice.
    WaitNotice,
}

/// What to do with the first message after the challenge.
#[derive(Debug, PartialEq, Eq)]
pub enum ConnectDecision {
    /// The stream ended: the session ends without opening.
    End,
    /// Refuse the connection.
    Refuse(AppDoorRefusal),
    /// Bind the link and open the session.
    Open,
}

/// Decide on the first message after the challenge: it must be a connect
/// answer under this door's own schema.
pub fn on_first_message(message: &Option<AppMessageKind>) -> (r: ConnectDecision)
    ensures
        r == match *message {
            None => ConnectDecision::End,
            Some(AppMessageKind::Connect { schema }) => if schema@ == APP_CONNECT_SCHEMA@ {
                ConnectDecision::Open
            } else {
                ConnectDecision::Refuse(AppDoorRefusal::WrongSchema)
            },
            Some(_) => ConnectDecision::Refuse(AppDoorRefusal::ConnectRequired),
        },
{
    match message {
        None => ConnectDecision::End,
        Some(AppMessageKind::Connect { schema }) => {
            if str_eq(schema.as_str(), APP_CONNECT_SCHEMA) {
                ConnectDecision::Open
            } else {
                ConnectDecision::Refuse(AppDoorRefusal::WrongSchema)
            }
        },
        Some(_) => ConnectDecision::Refuse(AppDoorRefusal::ConnectRequired),
    }
}

/// Which endpoint an admitted route opens.
#[derive(Clone, Copy, Debug, PartialEq, Eq, Structural)]
pub enum EndpointKind {
    /// The resident identity endpoint.
    Identity,
    /// A product endpoint from the resident catalog.
    Catalog,
}

/// The identity route opens the identity endpoint; every other route opens
/// its catalog registration.
pub fn endpoint_for(route: &ResidentEndpointRoute) -> (r: EndpointKind)
    ensures
        r == if route@.id == APP_IDENTITY_ROUTE@ {
            EndpointKind::Identity
        } else {
            EndpointKind::Catalog
        },
{
    if str_eq(route.id(), APP_IDENTITY_ROUTE) {
        EndpointKind::Identity
    } else {
        EndpointKind::Catalog
    }
}

/// What to do with one message on an open session.
#[derive(Debug, PartialEq, Eq)]
pub enum SessionAction {
    /// Forward the request to the endpoint and send back its response.
    Forward { closes: bool },
    /// Reply with the next notice already received, if any.
    TakeNotice,
    /// Reply with the next notice once it arrives.
    WaitNotice,
    /// Reply with a failure and keep serving.
    Fail { message: String },
}

/// Decide on one message of an open session. A second connect is answered
/// with a failure rather than reopening anything.
pub fn on_session_message(message: &AppMessageKind) -> (r: SessionAction)
    ensures
        match *message {
            AppMessageKind::Request { closes } => r == SessionAction::Forward { closes },
            AppMessageKind::TakeNotice => r == SessionAction::TakeNotice,
            AppMessageKind::WaitNotice => r == SessionAction::WaitNotice,
            AppMessageKind::Connect { .. } => r matches SessionAction::Fail { message }
                && message@ == "this application session is already connected"@,
        },
{
    match message {
        AppMessageKind::Request { closes } => SessionAction::Forward { closes: *closes },
        AppMessageKind::TakeNotice => SessionAction::TakeNotice,
        AppMessageKind::WaitNotice => SessionAction::WaitNotice,
        AppMessageKind::Connect { .. } => SessionAction::Fail {
            message: "this application session is already connected".to_owned(),
        },
    }
}

/// Whether the session keeps serving after a forwarded request: not once the
/// request asked to close or suspend, nor once the endpoint reports it has
/// closed or suspended.
pub fn session_continues(closes: bool, response_ended: bool) -> (r: bool)
    ensures
        r == !(closes || response_ended),
{
    !(closes || response_ended)
}

} // verus!
