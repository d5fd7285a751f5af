use http_server::request::{ParseOutcome, Request};

fn complete(data: &[u8]) -> Request {
    match Request::parse(data) {
        ParseOutcome::Complete(r) => r,
        ParseOutcome::Incomplete => panic!("incomplete"),
        ParseOutcome::Malformed => panic!("malformed"),
    }
}

fn is_incomplete(data: &[u8]) -> bool {
    matches!(Request::parse(data), ParseOutcome::Incomplete)
}

fn is_malformed(data: &[u8]) -> bool {
    matches!(Request::parse(data), ParseOutcome::Malformed)
}

#[test]
fn parses_simple_get() {
    let r = complete(b"GET / HTTP/1.1\r\nHost: localhost:4221\r\n\r\n");
    assert_eq!(r.method(), "GET");
    assert_eq!(r.path(), "/");
    assert_eq!(r.version, "HTTP/1.1");
    assert_eq!(r.headers, vec![("Host".to_string(), "localhost:4221".to_string())]);
    assert_eq!(r.user_agent(), "");
    assert!(r.body().is_empty());
}

#[test]
fn parses_headers_in_order_with_duplicates() {
    let r = complete(b"GET /x HTTP/1.1\r\nA: 1\r\nb: 2\r\nA: 3\r\n\r\n");
    assert_eq!(
        r.headers,
        vec![
            ("A".to_string(), "1".to_string()),
            ("b".to_string(), "2".to_string()),
            ("A".to_string(), "3".to_string()),
        ]
    );
    assert_eq!(r.header("a"), Some("1".to_string()));
    assert_eq!(r.header("B"), Some("2".to_string()));
    assert_eq!(r.header("c"), None);
}

#[test]
fn header_value_splits_at_first_separator() {
    let r = complete(b"GET / HTTP/1.1\r\nX-Note: a: b\r\n\r\n");
    assert_eq!(r.header("x-note"), Some("a: b".to_string()));
}

#[test]
fn header_value_loses_trailing_carriage_returns() {
    let r = complete(b"GET / HTTP/1.1\r\nX: v\r\r\n\r\n");
    assert_eq!(r.header("X"), Some("v".to_string()));
}

#[test]
fn user_agent_is_read_from_header() {
    let r = complete(b"GET /user-agent HTTP/1.1\r\nuser-AGENT: foobar/1.2.3\r\n\r\n");
    assert_eq!(r.user_agent(), "foobar/1.2.3");
}

#[test]
fn body_has_declared_length() {
    let r = complete(b"POST /files/a HTTP/1.1\r\nContent-Length: 5\r\n\r\nhelloEXTRA");
    assert_eq!(r.body(), &b"hello".to_vec());
}

#[test]
fn content_length_name_ignores_case() {
    let upper = complete(b"POST / HTTP/1.1\r\nContent-Length: 3\r\n\r\nabcdef");
    let lower = complete(b"POST / HTTP/1.1\r\ncontent-length: 3\r\n\r\nabcdef");
    assert_eq!(upper.body(), &b"abc".to_vec());
    assert_eq!(lower.body(), &b"abc".to_vec());
}

#[test]
fn unparsable_content_length_means_empty_body() {
    let r = complete(b"POST / HTTP/1.1\r\nContent-Length: abc\r\n\r\nxyz");
    assert!(r.body().is_empty());
    let r = complete(b"POST / HTTP/1.1\r\nContent-Length: 99999999999999999999999\r\n\r\nxyz");
    assert!(r.body().is_empty());
}

#[test]
fn missing_body_bytes_are_incomplete() {
    assert!(is_incomplete(b"POST /files/a HTTP/1.1\r\nContent-Length: 10\r\n\r\nabc"));
    let full = b"POST /files/a HTTP/1.1\r\nContent-Length: 4\r\n\r\nabcd";
    for k in 0..full.len() {
        assert!(is_incomplete(&full[..k]), "prefix of {} bytes", k);
    }
    assert!(matches!(Request::parse(full), ParseOutcome::Complete(_)));
}

#[test]
fn head_without_blank_line_is_incomplete() {
    assert!(is_incomplete(b""));
    assert!(is_incomplete(b"GET / HTTP/1.1"));
    assert!(is_incomplete(b"GET / HTTP/1.1\r\nHost: a\r\n"));
}

#[test]
fn short_request_line_is_malformed() {
    assert!(is_malformed(b"GET /\r\n\r\n"));
    assert!(is_malformed(b"GET\r\n\r\n"));
    assert!(is_malformed(b"\r\n\r\n"));
    assert!(is_malformed(b"GET / HTTP/1.1 extra\r\n\r\n"));
    assert!(is_malformed(b"G \t H\r\n\r\n"));
    assert!(is_malformed(b"   \r\n\r\n"));
}

#[test]
fn request_line_splits_on_runs_of_white_space() {
    let r = complete(b"GET  /echo/x\tHTTP/1.1 \r\n\r\n");
    assert_eq!(r.method(), "GET");
    assert_eq!(r.path(), "/echo/x");
    assert_eq!(r.version, "HTTP/1.1");
    let r = complete(b" \x0bPOST\x0c/files/a \t HTTP/1.0\r\n\r\n");
    assert_eq!(r.method(), "POST");
    assert_eq!(r.path(), "/files/a");
    assert_eq!(r.version, "HTTP/1.0");
}

#[test]
fn content_length_may_carry_a_plus_sign() {
    let r = complete(b"POST / HTTP/1.1\r\nContent-Length: +3\r\n\r\nabcdef");
    assert_eq!(r.body(), &b"abc".to_vec());
    let r = complete(b"POST / HTTP/1.1\r\nContent-Length: ++3\r\n\r\nabcdef");
    assert!(r.body().is_empty());
}

#[test]
fn header_without_separator_is_malformed() {
    assert!(is_malformed(b"GET / HTTP/1.1\r\nHost localhost\r\n\r\n"));
    assert!(is_malformed(b"GET / HTTP/1.1\r\nHost:localhost\r\n\r\n"));
}

#[test]
fn text_that_is_not_utf8_is_malformed() {
    assert!(is_malformed(b"GET /\xff HTTP/1.1\r\n\r\n"));
    assert!(is_malformed(b"GET / HTTP/1.1\r\nX: \xc3\x28\r\n\r\n"));
    let r = complete(b"GET /caf\xc3\xa9 HTTP/1.1\r\n\r\n");
    assert_eq!(r.path(), "/caf\u{e9}");
}

#[test]
fn body_need_not_be_utf8() {
    let r = complete(b"POST / HTTP/1.1\r\nContent-Length: 2\r\n\r\n\xff\x00");
    assert_eq!(r.body(), &vec![0xffu8, 0x00]);
}

#[test]
fn request_line_round_trips() {
    let data = b"GET /echo/abc HTTP/1.1\r\nUser-Agent: x\r\n\r\n";
    let r = complete(data);
    let line = format!("{} {} {}\r\n", r.method(), r.path(), r.version);
    assert!(data.starts_with(line.as_bytes()));
}

#[test]
fn new_keeps_its_parts() {
    let r = Request::new(
        "POST".to_string(),
        "/files/x".to_string(),
        "agent".to_string(),
        "HTTP/1.0".to_string(),
        vec![("User-Agent".to_string(), "agent".to_string())],
        b"data".to_vec(),
    );
    assert_eq!(r.method(), "POST");
    assert_eq!(r.path(), "/files/x");
    assert_eq!(r.user_agent(), "agent");
    assert_eq!(r.version, "HTTP/1.0");
    assert_eq!(r.header("user-agent"), Some("agent".to_string()));
    assert_eq!(r.body(), &b"data".to_vec());
}

#[test]
fn head_round_trips_through_parse() {
    let head = "POST /files/x HTTP/1.1\r\nHost: h\r\ncontent-LENGTH: 3\r\nUser-Agent: ua/1\r\n\r\n";
    let mut data = head.as_bytes().to_vec();
    data.extend_from_slice(b"xyz");
    let r = complete(&data);
    let mut again = format!("{} {} {}\r\n", r.method(), r.path(), r.version);
    for (k, v) in &r.headers {
        again.push_str(&format!("{}: {}\r\n", k, v));
    }
    again.push_str("\r\n");
    assert_eq!(again, head);
    assert_eq!(r.body(), &b"xyz".to_vec());
    assert_eq!(r.user_agent(), "ua/1");
}
