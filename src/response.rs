//! HTTP responses and their bytes on the wire.

use vstd::prelude::*;
use vstd::string::StringSliceAdditionalSpecFns;
use crate::bytes::{decimal_bytes, push_decimal};

verus! {

/// The status codes that this server sends.
#[derive(Clone, Copy)]
pub enum Status {
    Success,
    Created,
    NotFound,
}

/// The content types that this server sends.
#[derive(Clone, Copy)]
pub enum ContentType {
    TextPlain,
    OctetStream,
}

/// The numeric code of a status.
pub open spec fn status_code(s: Status) -> u16 {
    match s {
        Status::Success => 200,
        Status::Created => 201,
        Status::NotFound => 404,
    }
}

impl Status {
    /// The numeric code.
    pub fn code(&self) -> (r: u16)
        ensures
            r == status_code(*self),
    {
        match self {
            Status::Success => 200,
            Status::Created => 201,
            Status::NotFound => 404,
        }
    }
}

/// The status line of a status, with its terminator.
pub open spec fn status_line(s: Status) -> Seq<u8> {
    match s {
        Status::Success => "HTTP/1.1 200 OK\r\n".spec_bytes(),
        Status::Created => "HTTP/1.1 201 Created\r\n".spec_bytes(),
        Status::NotFound => "HTTP/1.1 404 Not Found\r\n".spec_bytes(),
    }
}

fn status_line_text(s: Status) -> (r: &'static str)
    ensures
        r.spec_bytes() == status_line(s),
{
    match s {
        Status::Success => "HTTP/1.1 200 OK\r\n",
        Status::Created => "HTTP/1.1 201 Created\r\n",
        Status::NotFound => "HTTP/1.1 404 Not Found\r\n",
    }
}

/// The name of a content type.
pub open spec fn content_type_name(c: ContentType) -> Seq<u8> {
    match c {
        ContentType::TextPlain => "text/plain".spec_bytes(),
        ContentType::OctetStream => "application/octet-stream".spec_bytes(),
    }
}

fn content_type_text(c: ContentType) -> (r: &'static str)
    ensures
        r.spec_bytes() == content_type_name(c),
{
    match c {
        ContentType::TextPlain => "text/plain",
        ContentType::OctetStream => "application/octet-stream",
    }
}

/// A response: a status, the type of a body if one is described, and the
/// body.
pub struct Response {
    pub status: Status,
    pub content_type: Option<ContentType>,
    pub body: Vec<u8>,
}

/// A response as values.
pub struct ResponseView {
    pub status: Status,
    pub content_type: Option<ContentType>,
    pub body: Seq<u8>,
}

impl View for Response {
    type V = ResponseView;

    open spec fn view(&self) -> ResponseView {
        ResponseView { status: self.status, content_type: self.content_type, body: self.body@ }
    }
}

/// The headers that describe a body of the given type.
pub open spec fn body_headers(c: ContentType, body: Seq<u8>) -> Seq<u8> {
    "Content-Type: ".spec_bytes() + content_type_name(c) + "\r\n".spec_bytes()
        + "Content-Length: ".spec_bytes() + decimal_bytes(body.len()) + "\r\n".spec_bytes()
}

/// A response on the wire: status line, the body's headers where a content
/// type is given, a blank line, then the body.
pub open spec fn response_bytes(r: ResponseView) -> Seq<u8> {
    status_line(r.status) + match r.content_type {
        Some(c) => body_headers(c, r.body),
        None => Seq::empty(),
    } + "\r\n".spec_bytes() + r.body
}

/// Appends `b` to `out`.
pub fn push_bytes(out: &mut Vec<u8>, b: &[u8])
    ensures
        final(out)@ == old(out)@ + b@,
{
    let mut i: usize = 0;
    while i < b.len()
        invariant
            i <= b@.len(),
            out@ == old(out)@ + b@.subrange(0, i as int),
        decreases b@.len() - i,
    {
        out.push(b[i]);
        i += 1;
        assert(out@ =~= old(out)@ + b@.subrange(0, i as int));
    }
    assert(b@.subrange(0, b@.len() as int) =~= b@);
}

impl Response {
    /// A response with an empty body and no body headers.
    pub fn empty(status: Status) -> (r: Self)
        ensures
            r@ == (ResponseView { status, content_type: None, body: Seq::empty() }),
    {
        Response { status, content_type: None, body: Vec::new() }
    }

    /// The bytes to send for this response.
    pub fn to_bytes(&self) -> (r: Vec<u8>)
        ensures
            r@ == response_bytes(self@),
    {
        let mut out: Vec<u8> = Vec::new();
        push_bytes(&mut out, status_line_text(self.status).as_bytes());
        let ghost after_status = out@;
        match self.content_type {
            Some(c) => {
                push_bytes(&mut out, "Content-Type: ".as_bytes());
                push_bytes(&mut out, content_type_text(c).as_bytes());
                push_bytes(&mut out, "\r\n".as_bytes());
                push_bytes(&mut out, "Content-Length: ".as_bytes());
                push_decimal(self.body.len(), &mut out);
                push_bytes(&mut out, "\r\n".as_bytes());
                assert(out@ =~= after_status + body_headers(c, self.body@));
            },
            None => {
                assert(out@ =~= after_status + Seq::<u8>::empty());
            },
        }
        push_bytes(&mut out, "\r\n".as_bytes());
        push_bytes(&mut out, self.body.as_slice());
        out
    }
}

} // verus!
