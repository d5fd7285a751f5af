//! Routing a parsed request to one of the server's behaviours.

use vstd::prelude::*;
use vstd::string::StringSliceAdditionalSpecFns;
use crate::bytes::{bytes_equal, has_prefix, is_space, is_space_byte, starts_with};
use crate::request::{copy_range, lookup, parse_spec, user_agent_name, Request, RequestView};
use crate::response::{ContentType, Response, ResponseView, Status};

verus! {

/// `s` without its leading white space.
pub open spec fn trim_start(s: Seq<u8>) -> Seq<u8>
    decreases s.len(),
{
    if s.len() > 0 && is_space(s[0]) {
        trim_start(s.drop_first())
    } else {
        s
    }
}

/// `s` without its trailing white space.
pub open spec fn trim_end(s: Seq<u8>) -> Seq<u8>
    decreases s.len(),
{
    if s.len() > 0 && is_space(s.last()) {
        trim_end(s.drop_last())
    } else {
        s
    }
}

/// `s` without white space at either end.
pub open spec fn trim(s: Seq<u8>) -> Seq<u8> {
    trim_end(trim_start(s))
}

/// A `..` path segment starts at index `i` of `n`.
pub open spec fn parent_segment_at(n: Seq<u8>, i: int) -> bool {
    &&& 0 <= i && i + 2 <= n.len()
    &&& n[i] == 46u8 && n[i + 1] == 46u8
    &&& i == 0 || n[i - 1] == 47u8
    &&& i + 2 == n.len() || n[i + 2] == 47u8
}

/// A file name that stays inside the serving directory: not empty, not
/// absolute, and with no `..` segment.
pub open spec fn safe_name(n: Seq<u8>) -> bool {
    &&& n.len() > 0
    &&& n[0] != 47u8
    &&& forall|i: int| !parent_segment_at(n, i)
}

/// The file that a `/files/` request names: the rest of the path, trimmed,
/// where it is a safe name.
pub open spec fn file_name(rest: Seq<u8>) -> Option<Seq<u8>> {
    if safe_name(trim(rest)) {
        Some(trim(rest))
    } else {
        None
    }
}

/// `s` after its first `pre.len()` bytes.
pub open spec fn after(s: Seq<u8>, pre: Seq<u8>) -> Seq<u8> {
    s.subrange(pre.len() as int, s.len() as int)
}

/// What the server does with a request.
pub enum ActionView {
    Respond(ResponseView),
    ReadFile(Seq<u8>),
    WriteFile(Seq<u8>, Seq<u8>),
}

/// `404 Not Found` with an empty body.
pub open spec fn not_found() -> ResponseView {
    ResponseView { status: Status::NotFound, content_type: None, body: Seq::empty() }
}

/// `200 OK` with an empty body.
pub open spec fn ok_empty() -> ResponseView {
    ResponseView { status: Status::Success, content_type: None, body: Seq::empty() }
}

/// `200 OK` with a plain-text body.
pub open spec fn text(body: Seq<u8>) -> ResponseView {
    ResponseView { status: Status::Success, content_type: Some(ContentType::TextPlain), body }
}

/// The action for a request: by method first, then by path.
pub open spec fn dispatch_spec(r: RequestView) -> ActionView {
    if r.method == "GET".spec_bytes() {
        if r.path == "/".spec_bytes() {
            ActionView::Respond(ok_empty())
        } else if r.path == "/user-agent".spec_bytes() {
            ActionView::Respond(text(r.user_agent))
        } else if starts_with(r.path, "/echo/".spec_bytes()) {
            ActionView::Respond(text(after(r.path, "/echo/".spec_bytes())))
        } else if starts_with(r.path, "/files/".spec_bytes()) {
            match file_name(after(r.path, "/files/".spec_bytes())) {
                Some(n) => ActionView::ReadFile(n),
                None => ActionView::Respond(not_found()),
            }
        } else {
            ActionView::Respond(not_found())
        }
    } else if r.method == "POST".spec_bytes() {
        if starts_with(r.path, "/files/".spec_bytes()) {
            match file_name(after(r.path, "/files/".spec_bytes())) {
                Some(n) => ActionView::WriteFile(n, r.body),
                None => ActionView::Respond(not_found()),
            }
        } else {
            ActionView::Respond(not_found())
        }
    } else {
        ActionView::Respond(not_found())
    }
}

/// What the server does with a request: send a response, or read or write a
/// file under the serving directory and then respond.
pub enum Action {
    /// Send this response.
    Respond(Response),
    /// Read the named file, then send `file_response` of what was read.
    ReadFile(Vec<u8>),
    /// Write these bytes to the named file, then send `created`.
    WriteFile(Vec<u8>, Vec<u8>),
}

impl View for Action {
    type V = ActionView;

    open spec fn view(&self) -> ActionView {
        match self {
            Action::Respond(r) => ActionView::Respond(r@),
            Action::ReadFile(n) => ActionView::ReadFile(n@),
            Action::WriteFile(n, b) => ActionView::WriteFile(n@, b@),
        }
    }
}

/// Trims white space at both ends of `s`.
pub fn trim_bytes(s: &[u8]) -> (r: Vec<u8>)
    ensures
        r@ == trim(s@),
{
    let n = s.len();
    let mut a: usize = 0;
    assert(s@.subrange(0, n as int) =~= s@);
    while a < n && is_space_byte(s[a])
        invariant
            n == s@.len(),
            a <= n,
            trim_start(s@) == trim_start(s@.subrange(a as int, n as int)),
        decreases n - a,
    {
        assert(s@.subrange(a as int, n as int).drop_first() =~= s@.subrange(a + 1, n as int));
        a += 1;
    }
    assert(trim_start(s@) == s@.subrange(a as int, n as int));
    let mut b: usize = n;
    while b > a && is_space_byte(s[b - 1])
        invariant
            n == s@.len(),
            a <= b <= n,
            trim(s@) == trim_end(s@.subrange(a as int, b as int)),
        decreases b - a,
    {
        assert(s@.subrange(a as int, b as int).drop_last() =~= s@.subrange(a as int, b - 1));
        b -= 1;
    }
    copy_range(s, a, b)
}

/// Tells whether `n` is a safe file name.
pub fn is_safe_name(n: &[u8]) -> (r: bool)
    ensures
        r == safe_name(n@),
{
    let len = n.len();
    if len == 0 || n[0] == 47 {
        return false;
    }
    let mut i: usize = 0;
    while len - i >= 2
        invariant
            len == n@.len(),
            len > 0,
            i <= len,
            forall|j: int| 0 <= j < i ==> !parent_segment_at(n@, j),
        decreases len - i,
    {
        if n[i] == 46 && n[i + 1] == 46 && (i == 0 || n[i - 1] == 47) && (i + 2 == len || n[i
            + 2] == 47) {
            assert(parent_segment_at(n@, i as int));
            return false;
        }
        i += 1;
    }
    true
}

/// The file that the rest of a `/files/` path names, where it is safe.
pub fn file_name_of(rest: &[u8]) -> (r: Option<Vec<u8>>)
    ensures
        match r {
            Some(n) => file_name(rest@) == Some(n@),
            None => file_name(rest@) is None,
        },
{
    let n = trim_bytes(rest);
    if is_safe_name(n.as_slice()) {
        Some(n)
    } else {
        None
    }
}

/// A copy of a whole byte string.
fn to_vec(s: &[u8]) -> (r: Vec<u8>)
    ensures
        r@ == s@,
{
    let r = copy_range(s, 0, s.len());
    assert(s@.subrange(0, s@.len() as int) =~= s@);
    r
}

/// A `200 OK` plain-text response.
fn text_response(body: Vec<u8>) -> (r: Response)
    ensures
        r@ == text(body@),
{
    Response { status: Status::Success, content_type: Some(ContentType::TextPlain), body }
}

/// Decides what to do with a request.
pub fn dispatch(req: &Request) -> (r: Action)
    ensures
        r@ == dispatch_spec(req@),
{
    let method = req.method().as_str().as_bytes();
    let path = req.path().as_str().as_bytes();
    let files = "/files/".as_bytes();
    if bytes_equal(method, "GET".as_bytes()) {
        if bytes_equal(path, "/".as_bytes()) {
            Action::Respond(Response::empty(Status::Success))
        } else if bytes_equal(path, "/user-agent".as_bytes()) {
            Action::Respond(text_response(to_vec(req.user_agent().as_str().as_bytes())))
        } else if has_prefix(path, "/echo/".as_bytes()) {
            let pre = "/echo/".as_bytes();
            Action::Respond(text_response(copy_range(path, pre.len(), path.len())))
        } else if has_prefix(path, files) {
            match file_name_of(copy_range(path, files.len(), path.len()).as_slice()) {
                Some(n) => Action::ReadFile(n),
                None => Action::Respond(Response::empty(Status::NotFound)),
            }
        } else {
            Action::Respond(Response::empty(Status::NotFound))
        }
    } else if bytes_equal(method, "POST".as_bytes()) {
        if has_prefix(path, files) {
            match file_name_of(copy_range(path, files.len(), path.len()).as_slice()) {
                Some(n) => Action::WriteFile(n, to_vec(req.body().as_slice())),
                None => Action::Respond(Response::empty(Status::NotFound)),
            }
        } else {
            Action::Respond(Response::empty(Status::NotFound))
        }
    } else {
        Action::Respond(Response::empty(Status::NotFound))
    }
}

/// The response to a file read: `200 OK` with the contents as an octet
/// stream, or `404 Not Found` where there was no file to read.
pub fn file_response(contents: Option<Vec<u8>>) -> (r: Response)
    ensures
        r@ == file_reply(
            match contents {
                Some(c) => Some(c@),
                None => None,
            },
        ),
{
    match contents {
        Some(c) => Response {
            status: Status::Success,
            content_type: Some(ContentType::OctetStream),
            body: c,
        },
        None => Response::empty(Status::NotFound),
    }
}

/// The response to a file read, as values.
pub open spec fn file_reply(contents: Option<Seq<u8>>) -> ResponseView {
    match contents {
        Some(c) => ResponseView {
            status: Status::Success,
            content_type: Some(ContentType::OctetStream),
            body: c,
        },
        None => not_found(),
    }
}

/// The response to a completed upload: `201 Created`, empty.
pub fn created() -> (r: Response)
    ensures
        r@ == (ResponseView { status: Status::Created, content_type: None, body: Seq::empty() }),
{
    Response::empty(Status::Created)
}

proof fn lemma_literal_bytes(s: &str)
    requires
        vstd::string::is_ascii(s),
    ensures
        s.spec_bytes() == Seq::new(s@.len(), |i: int| s@[i] as u8),
{
    vstd::string::is_ascii_spec_bytes(s);
}

/// The bytes of the methods and paths that routing compares against.
proof fn lemma_route_literals()
    ensures
        "GET".spec_bytes() == seq![71u8, 69, 84],
        "POST".spec_bytes() == seq![80u8, 79, 83, 84],
        "/".spec_bytes() == seq![47u8],
        "/user-agent".spec_bytes() == seq![47u8, 117, 115, 101, 114, 45, 97, 103, 101, 110, 116],
        "/echo/".spec_bytes() == seq![47u8, 101, 99, 104, 111, 47],
        "/files/".spec_bytes() == seq![47u8, 102, 105, 108, 101, 115, 47],
{
    reveal_strlit("GET");
    reveal_strlit("POST");
    reveal_strlit("/");
    reveal_strlit("/user-agent");
    reveal_strlit("/echo/");
    reveal_strlit("/files/");
    lemma_literal_bytes("GET");
    lemma_literal_bytes("POST");
    lemma_literal_bytes("/");
    lemma_literal_bytes("/user-agent");
    lemma_literal_bytes("/echo/");
    lemma_literal_bytes("/files/");
    assert("GET".spec_bytes() =~= seq![71u8, 69, 84]);
    assert("POST".spec_bytes() =~= seq![80u8, 79, 83, 84]);
    assert("/".spec_bytes() =~= seq![47u8]);
    assert("/user-agent".spec_bytes() =~= seq![
        47u8, 117, 115, 101, 114, 45, 97, 103, 101, 110, 116,
    ]);
    assert("/echo/".spec_bytes() =~= seq![47u8, 101, 99, 104, 111, 47]);
    assert("/files/".spec_bytes() =~= seq![47u8, 102, 105, 108, 101, 115, 47]);
}

/// `GET /` is answered `200 OK` with an empty body, whatever the headers and
/// body.
pub proof fn lemma_root_is_ok(r: RequestView)
    requires
        r.method == "GET".spec_bytes(),
        r.path == "/".spec_bytes(),
    ensures
        dispatch_spec(r) == ActionView::Respond(ok_empty()),
{
}

/// `GET /echo/<data>` is answered `200 OK` with the body `data`, whose length
/// the `Content-Length` header gives.
pub proof fn lemma_echo_returns_data(r: RequestView, data: Seq<u8>)
    requires
        r.method == "GET".spec_bytes(),
        r.path == "/echo/".spec_bytes() + data,
    ensures
        dispatch_spec(r) == ActionView::Respond(text(data)),
        crate::response::response_bytes(text(data)) == crate::response::status_line(
            Status::Success,
        ) + crate::response::body_headers(ContentType::TextPlain, data) + "\r\n".spec_bytes()
            + data,
        crate::response::body_headers(ContentType::TextPlain, data) == "Content-Type: ".spec_bytes()
            + "text/plain".spec_bytes() + "\r\n".spec_bytes() + "Content-Length: ".spec_bytes()
            + crate::bytes::decimal_bytes(data.len()) + "\r\n".spec_bytes(),
{
    lemma_route_literals();
    let pre = "/echo/".spec_bytes();
    assert(r.path[1] == 101u8);
    assert(r.path != "/user-agent".spec_bytes());
    assert(r.path.subrange(0, pre.len() as int) =~= pre);
    assert(after(r.path, pre) =~= data);
}

/// `GET /user-agent` is answered with the value of the request's first
/// `User-Agent` header as the body; without that header the body is empty.
pub proof fn lemma_user_agent_reflected(s: Seq<u8>)
    requires
        parse_spec(s) is Complete,
        parse_spec(s)->Complete_0.method == "GET".spec_bytes(),
        parse_spec(s)->Complete_0.path == "/user-agent".spec_bytes(),
    ensures
        dispatch_spec(parse_spec(s)->Complete_0) == ActionView::Respond(
            text(
                match lookup(parse_spec(s)->Complete_0.headers, user_agent_name()) {
                    Some(v) => v,
                    None => Seq::empty(),
                },
            ),
        ),
{
    lemma_route_literals();
    let r = parse_spec(s)->Complete_0;
    assert(r.path != "/".spec_bytes());
}

/// An upload to `/files/<name>` writes the body to the file that a later
/// `GET` of the same path reads, and the reply to that read carries exactly
/// the uploaded bytes.
pub proof fn lemma_upload_then_fetch(post: RequestView, get: RequestView, name: Seq<u8>)
    requires
        post.method == "POST".spec_bytes(),
        get.method == "GET".spec_bytes(),
        post.path == "/files/".spec_bytes() + name,
        get.path == post.path,
        safe_name(trim(name)),
    ensures
        dispatch_spec(post) == ActionView::WriteFile(trim(name), post.body),
        dispatch_spec(get) == ActionView::ReadFile(trim(name)),
        file_reply(Some(post.body)) == (ResponseView {
            status: Status::Success,
            content_type: Some(ContentType::OctetStream),
            body: post.body,
        }),
{
    lemma_route_literals();
    let pre = "/files/".spec_bytes();
    assert(get.path[1] == 102u8);
    assert(get.path != "/".spec_bytes());
    assert(get.path != "/user-agent".spec_bytes());
    assert(!starts_with(get.path, "/echo/".spec_bytes()));
    assert(post.path.subrange(0, pre.len() as int) =~= pre);
    assert(after(post.path, pre) =~= name);
}

/// A `GET` of a file that is not there is answered `404 Not Found`, empty.
pub proof fn lemma_missing_file_not_found()
    ensures
        file_reply(None) == not_found(),
        not_found().body.len() == 0,
{
}

/// A method other than `GET` and `POST` is answered `404 Not Found`.
pub proof fn lemma_unknown_method_not_found(r: RequestView)
    requires
        r.method != "GET".spec_bytes(),
        r.method != "POST".spec_bytes(),
    ensures
        dispatch_spec(r) == ActionView::Respond(not_found()),
{
}

/// A path that no route matches is answered `404 Not Found`.
pub proof fn lemma_unmatched_path_not_found(r: RequestView)
    requires
        r.path != "/".spec_bytes(),
        r.path != "/user-agent".spec_bytes(),
        !starts_with(r.path, "/echo/".spec_bytes()),
        !starts_with(r.path, "/files/".spec_bytes()),
    ensures
        dispatch_spec(r) == ActionView::Respond(not_found()),
{
}

} // verus!
