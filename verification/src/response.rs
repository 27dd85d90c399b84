//! The response a handler hands back: a status, headers and a body.
use vstd::prelude::*;

verus! {

pub const TEXT_PLAIN: &'static str = "text/plain";

pub const APPLICATION_JSON: &'static str = "application/json";

pub const CONTENT_TYPE: &'static str = "Content-Type";

pub const CONTENT_ENCODING: &'static str = "Content-Encoding";

/// A response: status code, headers (name, value) in order, and body.
/// Handing one back ends the handler chain for the request.
pub struct Response {
    pub status: u16,
    pub headers: Vec<(&'static str, &'static str)>,
    pub body: Vec<u8>,
}

/// The views of a header list.
pub open spec fn header_views(h: Seq<(&'static str, &'static str)>) -> Seq<(Seq<char>, Seq<char>)> {
    h.map_values(|p: (&'static str, &'static str)| (p.0@, p.1@))
}

impl Response {
    /// The headers as (name, value) strings.
    pub open spec fn header_seq(&self) -> Seq<(Seq<char>, Seq<char>)> {
        header_views(self.headers@)
    }
}

/// A response with status `status`, no headers and no body.
pub fn status_only(status: u16) -> (r: Response)
    ensures
        r.status == status,
        r.header_seq() == Seq::<(Seq<char>, Seq<char>)>::empty(),
        r.body@ == Seq::<u8>::empty(),
{
    let r = Response { status, headers: Vec::new(), body: Vec::new() };
    assert(r.header_seq() =~= Seq::<(Seq<char>, Seq<char>)>::empty());
    r
}

/// `200 OK` with `Content-Type: text/plain` and `body`.
pub fn plain_text(body: Vec<u8>) -> (r: Response)
    ensures
        r.status == 200,
        r.header_seq() == seq![(CONTENT_TYPE@, TEXT_PLAIN@)],
        r.body@ == body@,
{
    let mut headers: Vec<(&'static str, &'static str)> = Vec::new();
    headers.push((CONTENT_TYPE, TEXT_PLAIN));
    let r = Response { status: 200, headers, body };
    assert(r.header_seq() =~= seq![(CONTENT_TYPE@, TEXT_PLAIN@)]);
    r
}

/// `200 OK` with `Content-Type: application/json` and `body`.
pub fn json_response(body: Vec<u8>) -> (r: Response)
    ensures
        r.status == 200,
        r.header_seq() == seq![(CONTENT_TYPE@, APPLICATION_JSON@)],
        r.body@ == body@,
{
    let mut headers: Vec<(&'static str, &'static str)> = Vec::new();
    headers.push((CONTENT_TYPE, APPLICATION_JSON));
    let r = Response { status: 200, headers, body };
    assert(r.header_seq() =~= seq![(CONTENT_TYPE@, APPLICATION_JSON@)]);
    r
}

} // verus!
