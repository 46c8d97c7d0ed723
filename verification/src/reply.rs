//! What the loopback server answers: a status and a body.

use vstd::prelude::*;

verus! {

/// The statuses the API answers with.
#[derive(Debug, Clone, Copy, PartialEq, Eq, Structural)]
pub enum Status {
    Success,
    Unauthorized,
    NotFound,
    InternalServerError,
}

pub open spec fn status_code(s: Status) -> u16 {
    match s {
        Status::Success => 200,
        Status::Unauthorized => 401,
        Status::NotFound => 404,
        Status::InternalServerError => 500,
    }
}

impl Status {
    /// The HTTP status code.
    pub fn code(&self) -> (c: u16)
        ensures
            c == status_code(*self),
    {
        match self {
            Status::Success => 200,
            Status::Unauthorized => 401,
            Status::NotFound => 404,
            Status::InternalServerError => 500,
        }
    }
}

/// A body: plain text, or protobuf bytes sent and received under
/// `application/binary`.
#[derive(Debug)]
pub enum Body {
    Text(String),
    Proto(Vec<u8>),
}

/// A ready-made response.
#[derive(Debug)]
pub struct Reply {
    pub status: Status,
    pub body: Body,
}

/// The content type under which the backend's protobuf travels.
pub const PROTO_CONTENT_TYPE: &'static str = "application/binary";

impl Body {
    /// The content type that goes with the body, where it is not plain text.
    pub fn content_type(&self) -> (c: Option<&'static str>)
        ensures
            match self {
                Body::Proto(_) => c == Some(PROTO_CONTENT_TYPE),
                Body::Text(_) => c is None,
            },
    {
        match self {
            Body::Proto(_) => Some(PROTO_CONTENT_TYPE),
            Body::Text(_) => None,
        }
    }
}

/// `r` answers `status` with the text `text`.
pub open spec fn is_text_reply(r: Reply, status: Status, text: Seq<char>) -> bool {
    &&& r.status == status
    &&& r.body matches Body::Text(t) && t@ == text
}

/// `r` answers `status` with the protobuf bytes `bytes`.
pub open spec fn is_proto_reply(r: Reply, status: Status, bytes: Seq<u8>) -> bool {
    &&& r.status == status
    &&& r.body matches Body::Proto(b) && b@ == bytes
}

} // verus!
