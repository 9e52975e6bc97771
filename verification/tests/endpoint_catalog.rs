use std::time::Duration;

use graphshell::endpoint_catalog::{ResidentEndpointRoute, ResidentEndpointRouteError};

#[test]
fn host_route_rejects_an_ambiguous_id_or_busy_notice_loop() {
    assert!(matches!(
        ResidentEndpointRoute::new("not a route", std::time::Duration::from_millis(1)),
        Err(ResidentEndpointRouteError::InvalidId { .. })
    ));
    assert!(matches!(
        ResidentEndpointRoute::new("fixture", std::time::Duration::ZERO),
        Err(ResidentEndpointRouteError::ZeroNoticePollInterval)
    ));
    let route =
        ResidentEndpointRoute::new("fixture", std::time::Duration::from_millis(25)).unwrap();
    assert_eq!(route.id(), "fixture");
    assert_eq!(
        route.notice_poll_interval(),
        std::time::Duration::from_millis(25)
    );
}

#[test]
fn an_invalid_route_reports_its_id_before_its_interval() {
    assert_eq!(
        ResidentEndpointRoute::new("", Duration::ZERO),
        Err(ResidentEndpointRouteError::InvalidId { id: String::new() })
    );
    assert!(ResidentEndpointRoute::new("x", Duration::from_nanos(1)).is_ok());
}

use std::sync::{Arc, Mutex};

use graphshell::endpoint_catalog::{
    ResidentEndpointCatalog, ResidentEndpointCatalogError, ResidentEndpointOffer,
};

/// What an admitted peer's endpoint is opened for: its session and subject.
#[derive(Clone, Debug, PartialEq)]
struct AdmittedContext {
    session: String,
    subject: [u8; 32],
}

#[derive(Default)]
struct FixtureEndpoint {
    polls: Arc<Mutex<u32>>,
}

impl FixtureEndpoint {
    fn label(&self) -> &'static str {
        "Fixture endpoint"
    }

    fn poll_notice(&self) -> Option<u64> {
        *self.polls.lock().unwrap() += 1;
        None
    }
}

type Factory = Box<dyn Fn(&AdmittedContext) -> Result<FixtureEndpoint, String>>;

#[test]
fn catalog_binds_one_named_notifying_endpoint_to_the_admitted_context() {
    let context = AdmittedContext {
        session: "admitted:catalog".to_string(),
        subject: [0xC0; 32],
    };
    let seen = Arc::new(Mutex::new(None));
    let polls = Arc::new(Mutex::new(0));
    let mut catalog: ResidentEndpointCatalog<Factory> = ResidentEndpointCatalog::new();
    let factory_seen = Arc::clone(&seen);
    let factory_polls = Arc::clone(&polls);
    catalog
        .register(
            "cleromancy",
            "Local Cleromancy readings",
            Box::new(move |context: &AdmittedContext| {
                *factory_seen.lock().unwrap() = Some(context.clone());
                Ok(FixtureEndpoint {
                    polls: Arc::clone(&factory_polls),
                })
            }),
        )
        .unwrap();

    assert_eq!(
        catalog.offers(),
        vec![ResidentEndpointOffer {
            id: "cleromancy".to_string(),
            label: "Local Cleromancy readings".to_string(),
        }]
    );
    let endpoint = catalog.open("cleromancy", &context).unwrap();
    assert_eq!(*seen.lock().unwrap(), Some(context));
    assert_eq!(endpoint.label(), "Fixture endpoint");
    assert_eq!(endpoint.poll_notice(), None);
    assert_eq!(*polls.lock().unwrap(), 1);
}

#[test]
fn catalog_refuses_ambiguous_or_unknown_routes() {
    let mut catalog: ResidentEndpointCatalog<Factory> = ResidentEndpointCatalog::new();
    catalog
        .register("identity", "Identity", Box::new(|_: &AdmittedContext| Ok(FixtureEndpoint::default())))
        .unwrap();
    assert!(matches!(
        catalog.register("identity", "Duplicate", Box::new(|_: &AdmittedContext| Ok(FixtureEndpoint::default()))),
        Err(ResidentEndpointCatalogError::Duplicate { .. })
    ));
    assert!(matches!(
        catalog.register("not a route", "Invalid", Box::new(|_: &AdmittedContext| Ok(FixtureEndpoint::default()))),
        Err(ResidentEndpointCatalogError::InvalidId { .. })
    ));
    assert!(matches!(
        catalog.open(
            "missing",
            &AdmittedContext {
                session: "admitted:missing".to_string(),
                subject: [0; 32],
            },
        ),
        Err(ResidentEndpointCatalogError::Unknown { .. })
    ));
}

#[test]
fn offers_come_back_in_id_order_whatever_the_registration_order() {
    let mut catalog: ResidentEndpointCatalog<u8> = ResidentEndpointCatalog::new();
    catalog.register("knot", "Knot", 1).unwrap();
    catalog.register("cleromancy", "Cleromancy", 2).unwrap();
    catalog.register("woodshed", "Woodshed", 3).unwrap();
    let ids: Vec<String> = catalog.offers().into_iter().map(|o| o.id).collect();
    assert_eq!(ids, vec!["cleromancy", "knot", "woodshed"]);
    assert_eq!(catalog.position("knot"), Ok(1));
}

#[test]
fn a_factory_that_cannot_open_is_reported_with_its_reason() {
    let mut catalog: ResidentEndpointCatalog<Factory> = ResidentEndpointCatalog::new();
    catalog
        .register("broken", "Broken", Box::new(|_: &AdmittedContext| Err("no source".to_string())))
        .unwrap();
    let context = AdmittedContext {
        session: "s".to_string(),
        subject: [1; 32],
    };
    let error = catalog.open("broken", &context).err().unwrap();
    assert_eq!(
        error,
        ResidentEndpointCatalogError::Open {
            id: "broken".to_string(),
            reason: "no source".to_string()
        }
    );
    assert_eq!(error.message(), "resident endpoint \"broken\" could not open: no source");
}

#[test]
fn catalog_errors_quote_their_id() {
    assert_eq!(
        ResidentEndpointCatalogError::Duplicate { id: "a\"b".to_string() }.message(),
        "resident endpoint \"a\\\"b\" is already registered"
    );
    assert_eq!(
        ResidentEndpointCatalogError::Unknown { id: "x".to_string() }.message(),
        "resident endpoint \"x\" is not registered"
    );
    assert_eq!(
        ResidentEndpointCatalogError::InvalidId { id: "a b".to_string() }.message(),
        "resident endpoint id is empty or contains whitespace: \"a b\""
    );
}

#[test]
fn each_id_opens_the_factory_registered_under_it() {
    let mut catalog: ResidentEndpointCatalog<Factory> = ResidentEndpointCatalog::new();
    for id in ["woodshed", "cleromancy", "knot"] {
        catalog
            .register(id, id, Box::new(move |_: &AdmittedContext| Err(format!("made by {id}"))))
            .unwrap();
    }
    let context = AdmittedContext { session: "s".to_string(), subject: [1; 32] };
    for id in ["knot", "cleromancy", "woodshed"] {
        assert_eq!(
            catalog.open(id, &context).err().unwrap(),
            ResidentEndpointCatalogError::Open { id: id.to_string(), reason: format!("made by {id}") }
        );
    }
}
