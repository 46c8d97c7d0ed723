use ankifruit_core::server::call_unqualified;
use ankifruit_core::server::AppState;
use ankifruit_core::server::Outcome;
use ankifruit_core::routes::MethodDesc;
use ankifruit_core::routes::RouteTable;
use ankifruit_core::routes::ServiceDesc;
use ankifruit_core::token::new_token;
use ankifruit_core::web::content_type_for;
use ankifruit_core::web::static_target;
use ankifruit_core::web::StaticTarget;

fn file(t: StaticTarget) -> Option<Vec<String>> {
    match t {
        StaticTarget::Index => None,
        StaticTarget::File(segs) => Some(segs),
    }
}

/// The web UI is served from the backend's own origin; assets stay
/// unauthenticated, and serving them does not open up the API.
#[test]
fn serves_the_web_ui_from_the_same_origin() {
    assert!(matches!(static_target("/"), StaticTarget::Index));
    assert_eq!(content_type_for("index.html"), "text/html; charset=utf-8");
    assert_eq!(file(static_target("/app.js")), Some(vec!["app.js".to_string()]));
    assert_eq!(content_type_for("app.js"), "text/javascript; charset=utf-8");
    // Unknown paths name a file that the server does not find and answers
    // with index.html, so client-side routing works.
    assert_eq!(
        file(static_target("/decks/42")),
        Some(vec!["decks".to_string(), "42".to_string()])
    );
    // Serving assets must not have opened up the API.
    let services = vec![ServiceDesc {
        name: "BackendDecksService".to_string(),
        index: 8,
        methods: vec![MethodDesc { name: "get_deck_names".to_string(), index: 4 }],
    }];
    let st = AppState { token: new_token().expect("the system random generator"), routes: RouteTable::from_services(&services).unwrap() };
    match call_unqualified(&st, None, "getDeckNames") {
        Outcome::Respond(r) => {
            assert_eq!(r.status.code(), 401, "static serving must not bypass API auth")
        }
        Outcome::Dispatch { .. } => panic!("static serving must not bypass API auth"),
    }
}

#[test]
fn paths_cannot_leave_the_ui_directory() {
    assert!(matches!(static_target("/../secret"), StaticTarget::Index));
    assert!(matches!(static_target("/assets/../../etc/passwd"), StaticTarget::Index));
    assert!(matches!(static_target("/a\\..\\b"), StaticTarget::Index));
    assert!(matches!(static_target("/C:"), StaticTarget::Index));
    assert!(matches!(static_target("/assets/C:/windows/x.js"), StaticTarget::Index));
    assert!(matches!(static_target("/a:b.js"), StaticTarget::Index));
    assert!(matches!(static_target(""), StaticTarget::Index));
    assert!(matches!(static_target("//./"), StaticTarget::Index));
    assert_eq!(
        file(static_target("//assets/./x.css")),
        Some(vec!["assets".to_string(), "x.css".to_string()])
    );
    assert_eq!(file(static_target("/..x")), Some(vec!["..x".to_string()]));
}

#[test]
fn content_types_by_extension() {
    assert_eq!(content_type_for("a.css"), "text/css; charset=utf-8");
    assert_eq!(content_type_for("a.min.mjs"), "text/javascript; charset=utf-8");
    assert_eq!(content_type_for("icon.svg"), "image/svg+xml");
    assert_eq!(content_type_for("m.wasm"), "application/wasm");
    assert_eq!(content_type_for("x.json"), "application/json");
    assert_eq!(content_type_for("README"), "application/octet-stream");
    assert_eq!(content_type_for("a.HTML"), "application/octet-stream");
    assert_eq!(content_type_for("a."), "application/octet-stream");
}
