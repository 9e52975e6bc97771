use std::time::Duration;

use graphshell::app_admission::{AllowedAppRoutes, AppAdmissionError, AppHello, AppId, AppRouteId};
use graphshell::app_broker::{
    endpoint_for, on_first_message, on_session_message, open_door, session_continues,
    AppDoorRefusal, AppMessageKind, ConnectDecision, EndpointKind, SessionAction,
    APP_CONNECT_SCHEMA,
};
use graphshell::endpoint_catalog::ResidentEndpointRoute;

#[test]
fn the_app_connect_schema_is_its_own() {
    assert_ne!(APP_CONNECT_SCHEMA, "mere.graphshell/browser-connect/v1");
}

#[test]
fn the_door_refuses_a_missing_hello_and_an_unadmitted_application() {
    let allowed = AllowedAppRoutes::default();
    assert_eq!(
        open_door(None, &allowed).unwrap_err(),
        AppDoorRefusal::MissingHello
    );
    assert_eq!(
        open_door(Some(AppHello::new(AppId::new("not-ours"))), &allowed).unwrap_err(),
        AppDoorRefusal::Admission(AppAdmissionError::NotAllowed(AppId::new("not-ours")))
    );
    let (request, route) =
        open_door(Some(AppHello::new(AppId::new(" Turnstone "))), &allowed).unwrap();
    assert_eq!(request.app, AppId::new("turnstone"));
    assert_eq!(route.id(), "identity");
    assert_eq!(endpoint_for(&route), EndpointKind::Identity);
}

#[test]
fn a_granted_product_route_opens_its_catalog_endpoint() {
    let product = ResidentEndpointRoute::new("woodshed", Duration::from_millis(25)).unwrap();
    let allowed = AllowedAppRoutes::new(vec![(AppId::new("turnstone"), product)]);
    let hello = AppHello::for_route(
        AppId::new("turnstone"),
        AppRouteId::new("woodshed").unwrap(),
    );
    let (_, route) = open_door(Some(hello), &allowed).unwrap();
    assert_eq!(endpoint_for(&route), EndpointKind::Catalog);
}

#[test]
fn the_first_message_must_connect_under_this_doors_schema() {
    assert_eq!(on_first_message(&None), ConnectDecision::End);
    assert_eq!(
        on_first_message(&Some(AppMessageKind::Connect {
            schema: APP_CONNECT_SCHEMA.to_string(),
        })),
        ConnectDecision::Open
    );
    assert_eq!(
        on_first_message(&Some(AppMessageKind::Connect {
            schema: "mere.graphshell/browser-connect/v1".to_string(),
        })),
        ConnectDecision::Refuse(AppDoorRefusal::WrongSchema)
    );
    assert_eq!(
        on_first_message(&Some(AppMessageKind::TakeNotice)),
        ConnectDecision::Refuse(AppDoorRefusal::ConnectRequired)
    );
}

#[test]
fn an_open_session_forwards_requests_and_refuses_a_second_connect() {
    assert_eq!(
        on_session_message(&AppMessageKind::Request { closes: true }),
        SessionAction::Forward { closes: true }
    );
    assert_eq!(
        on_session_message(&AppMessageKind::WaitNotice),
        SessionAction::WaitNotice
    );
    assert_eq!(
        on_session_message(&AppMessageKind::Connect {
            schema: APP_CONNECT_SCHEMA.to_string(),
        }),
        SessionAction::Fail {
            message: "this application session is already connected".to_string(),
        }
    );
    assert!(session_continues(false, false));
    assert!(!session_continues(true, false));
    assert!(!session_continues(false, true));
}
