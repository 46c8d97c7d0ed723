//! What the loopback server decides for each request. The HTTP plumbing
//! and the backend itself live outside; they hand in the request's parts
//! and the backend's answer, and get back what to do and what to send.

use vstd::prelude::*;
use vstd::utf8::encode_utf8;

use crate::auth::authorize;
use crate::auth::header_view;
use crate::auth::is_authorized;
use crate::auth::unauthorized_text;
use crate::reply::is_proto_reply;
use crate::reply::is_text_reply;
use crate::reply::Body;
use crate::reply::Reply;
use crate::reply::Status;
use crate::routes::resolve;
use crate::routes::resolve_qualified;
use crate::routes::RouteTable;
use crate::text::chars_of;
use crate::text::push_char;

verus! {

/// What the request handlers share: the minted token and the routing table.
pub struct AppState {
    pub token: String,
    pub routes: RouteTable,
}

/// What to do with an API request: answer it at once, or run the backend
/// method at these indices and answer with `dispatch_reply` of its result.
#[derive(Debug)]
pub enum Outcome {
    Respond(Reply),
    Dispatch { service: u32, method: u32 },
}

/// `o` is the answer to an authorized API request whose path resolved to
/// `route`.
pub open spec fn routed(o: Outcome, route: Option<(u32, u32)>, not_found: Seq<char>) -> bool {
    match route {
        Some((s, m)) => o matches Outcome::Dispatch { service, method } && service == s && method
            == m,
        None => o matches Outcome::Respond(r) && is_text_reply(r, Status::NotFound, not_found),
    }
}

/// Every API request meets the bearer check first; one that fails it is
/// answered 401 whatever its path.
pub open spec fn gated(
    o: Outcome,
    header: Option<Seq<u8>>,
    token: Seq<u8>,
    route: Option<(u32, u32)>,
    not_found: Seq<char>,
) -> bool {
    if is_authorized(header, token) {
        routed(o, route, not_found)
    } else {
        o matches Outcome::Respond(r) && is_text_reply(r, Status::Unauthorized, unauthorized_text())
    }
}

/// The 404 text for an unknown unqualified method.
pub open spec fn unknown_method_text(method: Seq<char>) -> Seq<char> {
    "unknown method: "@ + method + "; try /_anki/<Service>/"@ + method
}

/// The 404 text for an unknown qualified method.
pub open spec fn unknown_qualified_text(service: Seq<char>, method: Seq<char>) -> Seq<char> {
    "unknown method: "@ + service + "/"@ + method
}

/// `POST /_anki/<method>`: the bearer check, then the unqualified lookup.
pub fn call_unqualified(state: &AppState, auth_header: Option<&[u8]>, method: &str) -> (o: Outcome)
    ensures
        gated(
            o,
            header_view(auth_header),
            encode_utf8(state.token@),
            resolve(state.routes@, method@),
            unknown_method_text(method@),
        ),
{
    match authorize(auth_header, state.token.as_str()) {
        Err(r) => Outcome::Respond(r),
        Ok(()) => match state.routes.lookup(method) {
            Some((service, m)) => Outcome::Dispatch { service, method: m },
            None => {
                let mut text = String::from_str("unknown method: ");
                text.append(method);
                text.append("; try /_anki/<Service>/");
                text.append(method);
                Outcome::Respond(Reply { status: Status::NotFound, body: Body::Text(text) })
            },
        },
    }
}

/// `POST /_anki/<Service>/<method>`: the bearer check, then the qualified
/// lookup.
pub fn call_qualified(state: &AppState, auth_header: Option<&[u8]>, service: &str, method: &str) -> (o:
    Outcome)
    ensures
        gated(
            o,
            header_view(auth_header),
            encode_utf8(state.token@),
            resolve_qualified(state.routes@, service@, method@),
            unknown_qualified_text(service@, method@),
        ),
{
    match authorize(auth_header, state.token.as_str()) {
        Err(r) => Outcome::Respond(r),
        Ok(()) => match state.routes.lookup_qualified(service, method) {
            Some((s, m)) => Outcome::Dispatch { service: s, method: m },
            None => {
                let mut text = String::from_str("unknown method: ");
                text.append(service);
                text.append("/");
                text.append(method);
                Outcome::Respond(Reply { status: Status::NotFound, body: Body::Text(text) })
            },
        },
    }
}

/// The answer to one backend call. Errors come back from the backend as
/// protobuf-encoded `BackendError`, forwarded as they are with the status
/// the web client expects.
pub fn dispatch_reply(result: Result<Vec<u8>, Vec<u8>>) -> (r: Reply)
    ensures
        match result {
            Ok(out) => is_proto_reply(r, Status::Success, out@),
            Err(err) => is_proto_reply(r, Status::InternalServerError, err@),
        },
{
    match result {
        Ok(out) => Reply { status: Status::Success, body: Body::Proto(out) },
        Err(err) => Reply { status: Status::InternalServerError, body: Body::Proto(err) },
    }
}


/// A hexadecimal digit, lowercase.
pub open spec fn hex_digit(d: int) -> char {
    (if d < 10 {
        (48 + d) as u8
    } else {
        (87 + d) as u8
    }) as char
}

/// One character as it stands inside a JSON string.
pub open spec fn json_escape_char(c: char) -> Seq<char> {
    if c == '"' {
        seq!['\\', '"']
    } else if c == '\\' {
        seq!['\\', '\\']
    } else if (c as u32) < 0x20 {
        seq!['\\', 'u', '0', '0', hex_digit((c as u32) as int / 16), hex_digit((c as u32) as int % 16)]
    } else {
        seq![c]
    }
}

/// A string's characters as they stand inside a JSON string.
pub open spec fn json_escaped(s: Seq<char>) -> Seq<char>
    decreases s.len(),
{
    if s.len() == 0 {
        Seq::<char>::empty()
    } else {
        json_escaped(s.drop_last()) + json_escape_char(s.last())
    }
}

fn hex_digit_exec(d: u32) -> (c: char)
    requires
        d < 16,
    ensures
        c == hex_digit(d as int),
{
    let b: u8 = if d < 10 {
        48 + d as u8
    } else {
        87 + d as u8
    };
    b as char
}

/// Escapes `s` for use inside a JSON string.
pub fn json_escape(s: &str) -> (out: String)
    ensures
        out@ == json_escaped(s@),
{
    let cs = chars_of(s);
    let mut out = String::new();
    let mut i: usize = 0;
    while i < cs.len()
        invariant
            i <= cs@.len(),
            out@ == json_escaped(cs@.take(i as int)),
        decreases cs@.len() - i,
    {
        let c = cs[i];
        assert(cs@.take(i + 1).drop_last() == cs@.take(i as int));
        let ghost before = out@;
        if c == '"' {
            push_char(&mut out, '\\');
            push_char(&mut out, '"');
        } else if c == '\\' {
            push_char(&mut out, '\\');
            push_char(&mut out, '\\');
        } else if (c as u32) < 0x20 {
            let u = c as u32;
            push_char(&mut out, '\\');
            push_char(&mut out, 'u');
            push_char(&mut out, '0');
            push_char(&mut out, '0');
            push_char(&mut out, hex_digit_exec(u / 16));
            push_char(&mut out, hex_digit_exec(u % 16));
        } else {
            push_char(&mut out, c);
        }
        assert(out@ =~= before + json_escape_char(c));
        i = i + 1;
    }
    assert(cs@.take(cs@.len() as int) == cs@);
    out
}

/// The health report: which Anki build is linked in.
pub open spec fn health_text(buildhash: Seq<char>) -> Seq<char> {
    "{\"ok\":true,\"anki\":\""@ + json_escaped(buildhash) + "\"}"@
}

/// `GET /_anki/healthz`: behind the same bearer check as every other
/// request, a JSON object that says the backend is up and names the linked
/// Anki build.
pub fn healthz(state: &AppState, auth_header: Option<&[u8]>, buildhash: &str) -> (r: Reply)
    ensures
        if is_authorized(header_view(auth_header), encode_utf8(state.token@)) {
            is_text_reply(r, Status::Success, health_text(buildhash@))
        } else {
            is_text_reply(r, Status::Unauthorized, unauthorized_text())
        },
{
    match authorize(auth_header, state.token.as_str()) {
        Err(r) => r,
        Ok(()) => {
            let mut text = String::from_str("{\"ok\":true,\"anki\":\"");
            let escaped = json_escape(buildhash);
            text.append(escaped.as_str());
            text.append("\"}");
            Reply { status: Status::Success, body: Body::Text(text) }
        },
    }
}


/// Escaping goes character by character: the escape of joined text is the
/// escapes of its parts joined. Quotes and backslashes get a backslash in
/// front, control characters become a six-character `\u00XX` escape, and
/// every other character stands for itself.
pub proof fn lemma_json_escape_piecewise(a: Seq<char>, b: Seq<char>, c: char)
    ensures
        json_escaped(a + b) == json_escaped(a) + json_escaped(b),
        c == '"' ==> json_escaped(seq![c]) == seq!['\\', '"'],
        c == '\\' ==> json_escaped(seq![c]) == seq!['\\', '\\'],
        (c as u32) < 0x20 ==> json_escaped(seq![c]).len() == 6 && json_escaped(seq![c]).take(4)
            == seq!['\\', 'u', '0', '0'],
        c != '"' && c != '\\' && (c as u32) >= 0x20 ==> json_escaped(seq![c]) == seq![c],
    decreases b.len(),
{
    assert(seq![c].drop_last() =~= Seq::<char>::empty());
    assert(json_escaped(Seq::<char>::empty()) == Seq::<char>::empty());
    assert(json_escaped(seq![c]) =~= json_escape_char(c));
    if (c as u32) < 0x20 && c != '"' && c != '\\' {
        assert(json_escape_char(c).take(4) =~= seq!['\\', 'u', '0', '0']);
    }
    if b.len() == 0 {
        assert(a + b =~= a);
        assert(json_escaped(a) + json_escaped(b) =~= json_escaped(a));
    } else {
        lemma_json_escape_piecewise(a, b.drop_last(), c);
        assert((a + b).drop_last() =~= a + b.drop_last());
        assert((a + b).last() == b.last());
        assert(json_escaped(a) + json_escaped(b.drop_last()) + json_escape_char(b.last()) =~= json_escaped(
            a,
        ) + json_escaped(b));
    }
}

} // verus!
