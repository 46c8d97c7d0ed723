use ankifruit_core::auth::authorize;
use ankifruit_core::auth::constant_time_eq;
use ankifruit_core::reply::Body;
use ankifruit_core::reply::Reply;
use ankifruit_core::reply::Status;
use ankifruit_core::routes::MethodDesc;
use ankifruit_core::routes::RouteTable;
use ankifruit_core::routes::ServiceDesc;
use ankifruit_core::server::call_qualified;
use ankifruit_core::server::call_unqualified;
use ankifruit_core::server::dispatch_reply;
use ankifruit_core::server::healthz;
use ankifruit_core::server::json_escape;
use ankifruit_core::server::AppState;
use ankifruit_core::server::Outcome;
use ankifruit_core::token::new_token;

fn mint() -> String {
    new_token().expect("the system random generator")
}

fn state() -> AppState {
    let services = vec![
        ServiceDesc {
            name: "BackendCollectionService".to_string(),
            index: 5,
            methods: vec![
                MethodDesc { name: "open_collection".to_string(), index: 0 },
                MethodDesc { name: "close_collection".to_string(), index: 1 },
            ],
        },
        ServiceDesc {
            name: "BackendDecksService".to_string(),
            index: 8,
            methods: vec![MethodDesc { name: "get_deck_names".to_string(), index: 4 }],
        },
    ];
    AppState { token: mint(), routes: RouteTable::from_services(&services).expect("table") }
}

fn bearer(token: &str) -> Vec<u8> {
    format!("Bearer {token}").into_bytes()
}

fn text_of(r: &Reply) -> &str {
    match &r.body {
        Body::Text(t) => t.as_str(),
        Body::Proto(_) => panic!("expected a text body"),
    }
}

fn status_of(o: &Outcome) -> u16 {
    match o {
        Outcome::Respond(r) => r.status.code(),
        Outcome::Dispatch { .. } => 200,
    }
}

#[test]
fn rejects_requests_without_the_token() {
    let st = state();
    let header = bearer("wrong-token");
    let o = call_unqualified(&st, Some(&header), "getDeckNames");
    assert_eq!(
        status_of(&o),
        401,
        "loopback port must not be usable by other apps on the device"
    );
}

#[test]
fn unknown_methods_are_not_found() {
    let st = state();
    let header = bearer(&st.token);
    let o = call_unqualified(&st, Some(&header), "noSuchMethod");
    assert_eq!(status_of(&o), 404);
    match o {
        Outcome::Respond(r) => assert_eq!(
            text_of(&r),
            "unknown method: noSuchMethod; try /_anki/<Service>/noSuchMethod"
        ),
        Outcome::Dispatch { .. } => panic!("dispatched an unknown method"),
    }
}

#[test]
fn authorized_calls_dispatch_to_the_route() {
    let st = state();
    let header = bearer(&st.token);
    assert!(matches!(
        call_unqualified(&st, Some(&header), "getDeckNames"),
        Outcome::Dispatch { service: 8, method: 4 }
    ));
    assert!(matches!(
        call_qualified(&st, Some(&header), "CollectionService", "closeCollection"),
        Outcome::Dispatch { service: 5, method: 1 }
    ));
}

#[test]
fn qualified_calls_are_gated_and_report_unknown_methods() {
    let st = state();
    let header = bearer(&st.token);
    let o = call_qualified(&st, Some(&header), "DecksService", "openCollection");
    match o {
        Outcome::Respond(r) => {
            assert_eq!(r.status, Status::NotFound);
            assert_eq!(text_of(&r), "unknown method: DecksService/openCollection");
        }
        Outcome::Dispatch { .. } => panic!("dispatched to the wrong service"),
    }
    let o = call_qualified(&st, None, "DecksService", "getDeckNames");
    assert_eq!(status_of(&o), 401);
}

#[test]
fn missing_or_malformed_headers_are_refused() {
    let st = state();
    let token = st.token.clone();
    assert_eq!(status_of(&call_unqualified(&st, None, "getDeckNames")), 401);
    let lower = format!("bearer {token}").into_bytes();
    assert_eq!(status_of(&call_unqualified(&st, Some(&lower), "getDeckNames")), 401);
    let bare = token.clone().into_bytes();
    assert_eq!(status_of(&call_unqualified(&st, Some(&bare), "getDeckNames")), 401);
    let mut not_text = bearer(&token);
    not_text.push(0x80);
    assert_eq!(status_of(&call_unqualified(&st, Some(&not_text), "getDeckNames")), 401);
    let longer = bearer(&format!("{token}x"));
    assert_eq!(status_of(&call_unqualified(&st, Some(&longer), "getDeckNames")), 401);
    let shorter = bearer(&token[..31]);
    assert_eq!(status_of(&call_unqualified(&st, Some(&shorter), "getDeckNames")), 401);
}

#[test]
fn authorize_answers_with_a_ready_response() {
    match authorize(Some(b"Bearer nope"), "secret") {
        Err(r) => {
            assert_eq!(r.status.code(), 401);
            assert_eq!(text_of(&r), "invalid or missing token");
        }
        Ok(()) => panic!("wrong token let through"),
    }
    assert!(authorize(Some(b"Bearer secret"), "secret").is_ok());
    // a tab is header text too
    assert!(authorize(Some(b"Bearer se\tcret"), "se\tcret").is_ok());
    assert!(authorize(Some(b"Bearer se\ncret"), "se\ncret").is_err());
}

#[test]
fn constant_time_comparison() {
    assert!(constant_time_eq(b"abc", b"abc"));
    assert!(constant_time_eq(b"", b""));
    assert!(!constant_time_eq(b"abc", b"abd"));
    assert!(!constant_time_eq(b"abc", b"ab"));
    assert!(!constant_time_eq(b"", b"a"));
    // lengths are compared in full, even where they agree in their low byte
    assert!(!constant_time_eq(b"", &[0u8; 256]));
    assert!(!constant_time_eq(&[0u8; 1], &[0u8; 257]));
    assert!(constant_time_eq(&[0u8; 256], &[0u8; 256]));
}

#[test]
fn backend_results_are_forwarded() {
    let r = dispatch_reply(Ok(vec![1, 2, 3]));
    assert_eq!(r.status.code(), 200);
    assert_eq!(r.body.content_type(), Some("application/binary"));
    assert!(matches!(r.body, Body::Proto(ref b) if b == &vec![1, 2, 3]));
    let r = dispatch_reply(Err(vec![9]));
    assert_eq!(r.status.code(), 500);
    assert_eq!(r.body.content_type(), Some("application/binary"));
    assert!(matches!(r.body, Body::Proto(ref b) if b == &vec![9]));
}

/// The health report names the linked Anki build.
#[test]
fn health_reports_which_anki_is_linked() {
    let st = state();
    let header = bearer(&st.token);
    let r = healthz(&st, Some(&header), "4383a707");
    assert_eq!(r.status.code(), 200);
    let body = text_of(&r);
    assert!(body.contains(r#""ok":true"#), "unexpected body: {body}");
    assert!(
        !body.contains(r#""anki":"""#),
        "anki build hash is empty - run tools/write-buildhash.sh before cargo build: {body}"
    );
    assert_eq!(body, r#"{"ok":true,"anki":"4383a707"}"#);
}

#[test]
fn health_report_escapes_the_hash() {
    assert_eq!(json_escape("a\"b\\c\nd"), "a\\\"b\\\\c\\u000ad");
    assert_eq!(json_escape("\u{1f}é"), "\\u001fé");
    let st = state();
    let header = bearer(&st.token);
    assert_eq!(text_of(&healthz(&st, Some(&header), "")), r#"{"ok":true,"anki":""}"#);
}

#[test]
fn health_needs_the_token() {
    let st = state();
    let r = healthz(&st, None, "4383a707");
    assert_eq!(r.status.code(), 401);
    assert_eq!(text_of(&r), "invalid or missing token");
    let wrong = bearer("wrong-token");
    assert_eq!(healthz(&st, Some(&wrong), "4383a707").status.code(), 401);
}

#[test]
fn an_empty_token_opens_only_to_a_bare_bearer() {
    // a bare `Bearer ` header presents the empty token
    assert!(authorize(Some(b"Bearer "), "").is_ok());
    assert!(authorize(Some(b"Bearer x"), "").is_err());
    // no header presents nothing, which equals only the empty token
    assert!(authorize(None, "").is_ok());
    assert!(authorize(None, "\0").is_err());
}
