use ankifruit_core::routes::to_camel_case;
use ankifruit_core::routes::MethodDesc;
use ankifruit_core::routes::RouteError;
use ankifruit_core::routes::RouteTable;
use ankifruit_core::routes::ServiceDesc;
use ankifruit_core::routes::short_service_name;

fn service(name: &str, index: u32, methods: &[(&str, u32)]) -> ServiceDesc {
    ServiceDesc {
        name: name.to_string(),
        index,
        methods: methods
            .iter()
            .map(|(m, i)| MethodDesc { name: m.to_string(), index: *i })
            .collect(),
    }
}

/// A service description set in the shape the backend's descriptor pool
/// reports: snake_case method names, `Backend`-prefixed services, and the
/// frontend service that is not dispatched through the backend.
fn descriptors() -> Vec<ServiceDesc> {
    vec![
        service("BackendCardRenderingService", 3, &[("render_existing_card", 7)]),
        service(
            "BackendCollectionService",
            5,
            &[("open_collection", 0), ("close_collection", 1), ("undo", 2)],
        ),
        service("BackendDecksService", 8, &[("get_deck_names", 4), ("undo", 9)]),
        service("BackendFrontendService", 9, &[("get_deck_names", 0), ("save_state", 1)]),
        service("BackendImportExportService", 11, &[("import_anki_package", 2)]),
        service(
            "BackendSchedulerService",
            14,
            &[("get_queued_cards", 5), ("answer_card", 6)],
        ),
        service("BackendSyncService", 17, &[("sync_login", 0), ("sync_collection", 3)]),
    ]
}

fn table() -> RouteTable {
    RouteTable::from_services(&descriptors()).expect("table")
}

/// The methods the app depends on must be reachable by their bare names.
#[test]
fn core_methods_resolve() {
    let routes = table();
    for name in [
        "openCollection",
        "closeCollection",
        "getDeckNames",
        "importAnkiPackage",
        "syncCollection",
        "syncLogin",
    ] {
        assert!(
            routes.lookup(name).is_some(),
            "{name} did not resolve to a (service, method) pair"
        );
    }
}

#[test]
fn the_methods_v1_needs_are_routable() {
    let routes = table();
    // Deliberately spelled as the UI will call them.
    for name in [
        "openCollection",
        "closeCollection",
        "getDeckNames",
        "importAnkiPackage",
        "syncCollection",
        "syncLogin",
        "getQueuedCards",
        "answerCard",
        "renderExistingCard",
    ] {
        assert!(routes.lookup(name).is_some(), "{name} is not routable");
    }
}

#[test]
fn lookup_gives_the_reported_indices() {
    let routes = table();
    assert_eq!(routes.lookup("openCollection"), Some((5, 0)));
    assert_eq!(routes.lookup("closeCollection"), Some((5, 1)));
    assert_eq!(routes.lookup("getDeckNames"), Some((8, 4)));
    assert_eq!(routes.lookup("answerCard"), Some((14, 6)));
    assert_eq!(routes.lookup("syncCollection"), Some((17, 3)));
}

#[test]
fn frontend_service_is_not_routed() {
    let routes = table();
    assert_eq!(routes.lookup("saveState"), None);
    assert_eq!(routes.lookup_qualified("FrontendService", "saveState"), None);
    // its getDeckNames does not make the backend's ambiguous
    assert_eq!(routes.lookup("getDeckNames"), Some((8, 4)));
    assert_eq!(routes.len(), 11);
}

#[test]
fn shared_names_resolve_only_qualified() {
    let routes = table();
    assert_eq!(routes.lookup("undo"), None);
    assert_eq!(routes.lookup_qualified("CollectionService", "undo"), Some((5, 2)));
    assert_eq!(routes.lookup_qualified("DecksService", "undo"), Some((8, 9)));
}

#[test]
fn qualified_paths_use_the_short_service_name() {
    let routes = table();
    assert_eq!(routes.lookup_qualified("SyncService", "syncLogin"), Some((17, 0)));
    assert_eq!(routes.lookup_qualified("BackendSyncService", "syncLogin"), None);
    assert_eq!(routes.lookup_qualified("SyncService", "sync_login"), None);
    assert_eq!(routes.lookup_qualified("DecksService", "syncLogin"), None);
}

#[test]
fn unknown_names_do_not_resolve() {
    let routes = table();
    assert_eq!(routes.lookup("noSuchMethod"), None);
    assert_eq!(routes.lookup(""), None);
    assert_eq!(routes.lookup_qualified("NoService", "openCollection"), None);
}

#[test]
fn routes_keep_description_order() {
    let routes = table();
    let listed: Vec<(u32, u32, &str, &str)> = routes
        .routes()
        .iter()
        .map(|r| (r.service_index, r.method_index, r.service.as_str(), r.method.as_str()))
        .collect();
    assert_eq!(listed[0], (3, 7, "CardRenderingService", "renderExistingCard"));
    assert_eq!(listed[1], (5, 0, "CollectionService", "openCollection"));
    assert_eq!(listed[10], (17, 3, "SyncService", "syncCollection"));
}

#[test]
fn no_backend_services_is_an_error() {
    assert!(matches!(
        RouteTable::from_services(&[]),
        Err(RouteError::NoBackendServices)
    ));
    let only_frontend = vec![service("BackendFrontendService", 0, &[("save_state", 0)])];
    assert!(matches!(
        RouteTable::from_services(&only_frontend),
        Err(RouteError::NoBackendServices)
    ));
    let empty_service = vec![service("BackendDecksService", 0, &[])];
    assert!(matches!(
        RouteTable::from_services(&empty_service),
        Err(RouteError::NoBackendServices)
    ));
}

#[test]
fn camel_case_conversion() {
    assert_eq!(to_camel_case("open_collection"), "openCollection");
    assert_eq!(to_camel_case("get_deck_names"), "getDeckNames");
    assert_eq!(to_camel_case("undo"), "undo");
    assert_eq!(to_camel_case(""), "");
    assert_eq!(to_camel_case("a__b"), "aB");
    assert_eq!(to_camel_case("trailing_"), "trailing");
    assert_eq!(to_camel_case("_leading"), "Leading");
    assert_eq!(to_camel_case("get_v3_card"), "getV3Card");
    assert_eq!(to_camel_case("x_ß"), "xSS");
}

#[test]
fn short_service_names() {
    assert_eq!(short_service_name("BackendDecksService"), "DecksService");
    assert_eq!(short_service_name("DecksService"), "DecksService");
    assert_eq!(short_service_name("BackendBackendX"), "X");
    assert_eq!(short_service_name("Backend"), "");
    assert_eq!(short_service_name("Backen"), "Backen");
}
