use std::time::Duration;

use graphshell::app_admission::{
    configured_app_endpoint, DEFAULT_WINDOWS_APP_ENDPOINT, AllowedAppRoutes, AppAdmissionError, AppHello, AppId, AppRequest, AppRouteId, APP_HELLO_SCHEMA,
};
use graphshell::endpoint_catalog::ResidentEndpointRoute;

#[test]
fn app_ids_are_case_and_space_insensitive() {
    assert_eq!(AppId::new("  Turnstone "), AppId::new("turnstone"));
    let request = AppHello::new(AppId::new("TURNSTONE")).accept().unwrap();
    assert!(AllowedAppRoutes::default().admit_request(&request).is_ok());
}

#[test]
fn an_unknown_application_is_refused() {
    let request = AppHello::new(AppId::new("someone-elses-app"))
        .accept()
        .unwrap();
    let error = AllowedAppRoutes::default().admit_request(&request).unwrap_err();
    assert_eq!(
        error,
        AppAdmissionError::NotAllowed(AppId::new("someone-elses-app"))
    );
}

#[test]
fn a_device_can_admit_none() {
    let request = AppHello::new(AppId::new("turnstone")).accept().unwrap();
    assert!(AllowedAppRoutes::none().admit_request(&request).is_err());
    assert_eq!(AllowedAppRoutes::none().iter().len(), 0);
}

#[test]
fn the_browser_hello_is_refused_by_schema() {
    let wrong = AppHello {
        schema: "mere.graphshell/device-broker-hello/v1".to_string(),
        app: AppId::new("turnstone"),
        route: None,
    };
    let error = wrong.accept().unwrap_err();
    assert!(matches!(error, AppAdmissionError::WrongSchema(_)));
    assert!(
        error.message().contains("browser endpoint"),
        "the refusal points at the right endpoint, got: {}",
        error.message()
    );
}

#[test]
fn a_hello_naming_nothing_is_refused() {
    let unnamed = AppHello::new(AppId::new("   "));
    assert_eq!(unnamed.accept().unwrap_err(), AppAdmissionError::Unnamed);
}

#[test]
fn a_version_two_hello_requests_one_granted_route() {
    let knot = AppRouteId::new("knot").unwrap();
    let hello = AppHello::for_route(AppId::new("turnstone"), knot.clone());
    assert_eq!(
        AppHello::for_route(AppId::new("turnstone"), knot.clone())
            .accept()
            .unwrap(),
        AppRequest {
            app: AppId::new("turnstone"),
            route: knot.clone(),
        }
    );
    let grants = AllowedAppRoutes::new(vec![(
        AppId::new("turnstone"),
        ResidentEndpointRoute::new("knot", Duration::from_millis(7)).unwrap(),
    )]);
    let selected = grants.admit_request(&hello.accept().unwrap()).unwrap();
    assert_eq!(selected.id(), "knot");
    assert_eq!(selected.notice_poll_interval(), Duration::from_millis(7));
}

#[test]
fn a_legacy_hello_cannot_smuggle_a_route() {
    let hello = AppHello {
        schema: APP_HELLO_SCHEMA.to_string(),
        app: AppId::new("turnstone"),
        route: Some(AppRouteId::new("knot").unwrap()),
    };
    assert_eq!(
        hello.accept().unwrap_err(),
        AppAdmissionError::RouteOnLegacyHello
    );
}

#[test]
fn an_ungranted_route_is_distinct_from_an_unknown_application() {
    let request =
        AppHello::for_route(AppId::new("turnstone"), AppRouteId::new("knot").unwrap())
            .accept()
            .unwrap();
    assert_eq!(
        AllowedAppRoutes::default().admit_request(&request).unwrap_err(),
        AppAdmissionError::RouteNotGranted {
            app: AppId::new("turnstone"),
            route: AppRouteId::new("knot").unwrap(),
        }
    );
}

#[test]
fn an_unadmitted_application_is_refused_at_the_hello() {
    let hello = AppHello::new(AppId::new("not-ours"));
    let request = hello.accept().unwrap();
    assert!(AllowedAppRoutes::default().admit_request(&request).is_err());
}

#[test]
fn a_legacy_hello_selects_the_identity_route() {
    let request = AppHello::new(AppId::new(" Turnstone")).accept().unwrap();
    assert_eq!(request.app.as_str(), "turnstone");
    assert_eq!(request.route, AppRouteId::identity());
    assert_eq!(request.route.as_str(), "identity");
}

#[test]
fn route_ids_refuse_empty_and_spaced_keys() {
    assert_eq!(
        AppRouteId::new("").unwrap_err(),
        AppAdmissionError::InvalidRoute(String::new())
    );
    assert_eq!(
        AppRouteId::new("a b").unwrap_err(),
        AppAdmissionError::InvalidRoute("a b".to_string())
    );
    assert_eq!(
        AppRouteId::new("a\u{3000}b").unwrap_err(),
        AppAdmissionError::InvalidRoute("a\u{3000}b".to_string())
    );
}

#[test]
fn a_route_hello_without_a_route_is_an_invalid_route() {
    let hello = AppHello {
        schema: graphshell::app_admission::APP_ROUTE_HELLO_SCHEMA.to_string(),
        app: AppId::new("turnstone"),
        route: None,
    };
    assert_eq!(
        hello.accept().unwrap_err(),
        AppAdmissionError::InvalidRoute(String::new())
    );
}

#[test]
fn a_repeated_pair_keeps_the_later_route_and_pairs_list_in_order() {
    let grants = AllowedAppRoutes::new(vec![
        (
            AppId::new("turnstone"),
            ResidentEndpointRoute::new("knot", Duration::from_millis(7)).unwrap(),
        ),
        (
            AppId::new("atlas"),
            ResidentEndpointRoute::new("identity", Duration::from_millis(1)).unwrap(),
        ),
        (
            AppId::new("turnstone"),
            ResidentEndpointRoute::new("identity", Duration::from_millis(3)).unwrap(),
        ),
        (
            AppId::new("TURNSTONE"),
            ResidentEndpointRoute::new("knot", Duration::from_millis(9)).unwrap(),
        ),
    ]);
    let pairs: Vec<(String, String)> = grants
        .iter()
        .into_iter()
        .map(|(app, route)| (app.as_str().to_string(), route.as_str().to_string()))
        .collect();
    assert_eq!(
        pairs,
        vec![
            ("atlas".to_string(), "identity".to_string()),
            ("turnstone".to_string(), "identity".to_string()),
            ("turnstone".to_string(), "knot".to_string()),
        ]
    );
    let request = AppHello::for_route(AppId::new("turnstone"), AppRouteId::new("knot").unwrap())
        .accept()
        .unwrap();
    let selected = grants.admit_request(&request).unwrap();
    assert_eq!(selected.notice_poll_interval(), Duration::from_millis(9));
}

#[test]
fn refusal_messages_name_their_subject() {
    assert_eq!(
        AppAdmissionError::NotAllowed(AppId::new("x")).message(),
        "x is not an application this device admits"
    );
    assert_eq!(
        AppAdmissionError::InvalidRoute("a b".to_string()).message(),
        "the first-party hello named an invalid resident route \"a b\""
    );
    assert_eq!(
        AppAdmissionError::RouteNotGranted {
            app: AppId::new("turnstone"),
            route: AppRouteId::new("knot").unwrap()
        }
        .message(),
        "turnstone is not granted the resident route knot"
    );
}

#[test]
fn the_app_endpoint_is_overridable_but_not_by_a_blank_value() {
    assert_eq!(
        configured_app_endpoint(Some("/run/custom.sock".to_string()), "/run/default.sock".to_string()),
        "/run/custom.sock"
    );
    assert_eq!(
        configured_app_endpoint(Some("  ".to_string()), "/run/default.sock".to_string()),
        "/run/default.sock"
    );
    assert_eq!(
        configured_app_endpoint(None, DEFAULT_WINDOWS_APP_ENDPOINT.to_string()),
        r"\\.\pipe\graphshell-device-app"
    );
}

#[test]
fn an_application_is_named_by_its_normalised_text() {
    let id = AppId::new("  Turnstone ");
    assert_eq!(id.to_text(), "turnstone");
    assert_eq!(id.as_str(), "turnstone");
}
