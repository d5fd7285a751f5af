use http_server::dispatch::{created, dispatch, file_response, Action};
use http_server::request::{ParseOutcome, Request};
use http_server::response::Status;

fn req(data: &[u8]) -> Request {
    match Request::parse(data) {
        ParseOutcome::Complete(r) => r,
        _ => panic!("not a complete request"),
    }
}

fn respond(data: &[u8]) -> Vec<u8> {
    match dispatch(&req(data)) {
        Action::Respond(r) => r.to_bytes(),
        _ => panic!("expected a response"),
    }
}

const NOT_FOUND: &[u8] = b"HTTP/1.1 404 Not Found\r\n\r\n";

#[test]
fn root_is_ok_and_empty() {
    assert_eq!(respond(b"GET / HTTP/1.1\r\n\r\n"), b"HTTP/1.1 200 OK\r\n\r\n".to_vec());
    assert_eq!(
        respond(b"GET / HTTP/1.1\r\nContent-Length: 3\r\nX: y\r\n\r\nabc"),
        b"HTTP/1.1 200 OK\r\n\r\n".to_vec()
    );
}

#[test]
fn echo_returns_rest_of_path() {
    assert_eq!(
        respond(b"GET /echo/abc HTTP/1.1\r\n\r\n"),
        b"HTTP/1.1 200 OK\r\nContent-Type: text/plain\r\nContent-Length: 3\r\n\r\nabc".to_vec()
    );
    assert_eq!(
        respond(b"GET /echo/ HTTP/1.1\r\n\r\n"),
        b"HTTP/1.1 200 OK\r\nContent-Type: text/plain\r\nContent-Length: 0\r\n\r\n".to_vec()
    );
    assert_eq!(
        respond(b"GET /echo/a/b%20c/echo/0123456789 HTTP/1.1\r\n\r\n"),
        b"HTTP/1.1 200 OK\r\nContent-Type: text/plain\r\nContent-Length: 23\r\n\r\na/b%20c/echo/0123456789"
            .to_vec()
    );
}

#[test]
fn user_agent_is_reflected() {
    assert_eq!(
        respond(b"GET /user-agent HTTP/1.1\r\nUser-Agent: foobar/1.2.3\r\n\r\n"),
        b"HTTP/1.1 200 OK\r\nContent-Type: text/plain\r\nContent-Length: 12\r\n\r\nfoobar/1.2.3"
            .to_vec()
    );
    assert_eq!(
        respond(b"GET /user-agent HTTP/1.1\r\n\r\n"),
        b"HTTP/1.1 200 OK\r\nContent-Type: text/plain\r\nContent-Length: 0\r\n\r\n".to_vec()
    );
}

#[test]
fn file_get_names_trimmed_file() {
    match dispatch(&req(b"GET /files/foo.txt HTTP/1.1\r\n\r\n")) {
        Action::ReadFile(n) => assert_eq!(n, b"foo.txt".to_vec()),
        _ => panic!("expected a read"),
    }
    let built = Request::new(
        "GET".to_string(),
        "/files/\tsub/bar.bin\x0b".to_string(),
        String::new(),
        "HTTP/1.1".to_string(),
        Vec::new(),
        Vec::new(),
    );
    match dispatch(&built) {
        Action::ReadFile(n) => assert_eq!(n, b"sub/bar.bin".to_vec()),
        _ => panic!("expected a read"),
    }
}

#[test]
fn file_names_outside_directory_are_not_found() {
    assert_eq!(respond(b"GET /files/../secret HTTP/1.1\r\n\r\n"), NOT_FOUND.to_vec());
    assert_eq!(respond(b"GET /files/a/../../b HTTP/1.1\r\n\r\n"), NOT_FOUND.to_vec());
    assert_eq!(respond(b"GET /files//etc/passwd HTTP/1.1\r\n\r\n"), NOT_FOUND.to_vec());
    assert_eq!(respond(b"GET /files/ HTTP/1.1\r\n\r\n"), NOT_FOUND.to_vec());
    match dispatch(&req(b"GET /files/a..b HTTP/1.1\r\n\r\n")) {
        Action::ReadFile(n) => assert_eq!(n, b"a..b".to_vec()),
        _ => panic!("expected a read"),
    }
}

#[test]
fn file_response_bytes() {
    assert_eq!(
        file_response(Some(b"hello world!".to_vec())).to_bytes(),
        b"HTTP/1.1 200 OK\r\nContent-Type: application/octet-stream\r\nContent-Length: 12\r\n\r\nhello world!"
            .to_vec()
    );
    assert_eq!(file_response(None).to_bytes(), NOT_FOUND.to_vec());
    assert_eq!(file_response(None).status.code(), 404);
}

#[test]
fn upload_writes_body() {
    match dispatch(&req(b"POST /files/foo.txt HTTP/1.1\r\nContent-Length: 4\r\n\r\nBODY")) {
        Action::WriteFile(n, b) => {
            assert_eq!(n, b"foo.txt".to_vec());
            assert_eq!(b, b"BODY".to_vec());
        }
        _ => panic!("expected a write"),
    }
    assert_eq!(created().to_bytes(), b"HTTP/1.1 201 Created\r\n\r\n".to_vec());
    assert_eq!(created().status.code(), 201);
}

#[test]
fn upload_then_fetch_round_trips() {
    let body = b"0123456789abcdef".to_vec();
    let written = match dispatch(&req(
        b"POST /files/foo.txt HTTP/1.1\r\nContent-Length: 16\r\n\r\n0123456789abcdef",
    )) {
        Action::WriteFile(n, b) => (n, b),
        _ => panic!("expected a write"),
    };
    let read = match dispatch(&req(b"GET /files/foo.txt HTTP/1.1\r\n\r\n")) {
        Action::ReadFile(n) => n,
        _ => panic!("expected a read"),
    };
    assert_eq!(written.0, read);
    let resp = file_response(Some(written.1));
    assert_eq!(resp.status.code(), 200);
    assert_eq!(resp.body, body);
}

#[test]
fn post_elsewhere_is_not_found() {
    assert_eq!(respond(b"POST /echo/x HTTP/1.1\r\n\r\n"), NOT_FOUND.to_vec());
    assert_eq!(respond(b"POST /files HTTP/1.1\r\n\r\n"), NOT_FOUND.to_vec());
    assert_eq!(respond(b"POST /filesX HTTP/1.1\r\n\r\n"), NOT_FOUND.to_vec());
}

#[test]
fn unknown_method_and_path_are_not_found() {
    assert_eq!(respond(b"PUT /files/foo.txt HTTP/1.1\r\n\r\n"), NOT_FOUND.to_vec());
    assert_eq!(respond(b"get / HTTP/1.1\r\n\r\n"), NOT_FOUND.to_vec());
    assert_eq!(respond(b"DELETE / HTTP/1.1\r\n\r\n"), NOT_FOUND.to_vec());
    assert_eq!(respond(b"GET /nowhere HTTP/1.1\r\n\r\n"), NOT_FOUND.to_vec());
    assert_eq!(respond(b"GET /echo HTTP/1.1\r\n\r\n"), NOT_FOUND.to_vec());
    assert_eq!(respond(b"GET /user-agent/x HTTP/1.1\r\n\r\n"), NOT_FOUND.to_vec());
}

#[test]
fn status_codes() {
    assert_eq!(Status::Success.code(), 200);
    assert_eq!(Status::Created.code(), 201);
    assert_eq!(Status::NotFound.code(), 404);
}
