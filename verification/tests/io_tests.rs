use robyn::io_helpers::{parse_header_line, parse_method, parse_request_line, serialize_response};
use robyn::types::{HttpMethod, ResponseContext};

#[test]
fn serializes_response_exactly() {
    let r = ResponseContext {
        status: 200,
        headers: vec![(b"X-One".to_vec(), b"y".to_vec())],
        body: b"hi".to_vec(),
        terminal: false,
    };
    let bytes = serialize_response(&r);
    let expected = b"HTTP/1.1 200 \r\nX-One: y\r\nContent-Length: 2\r\n\r\nhi".to_vec();
    assert_eq!(bytes, expected);
}

#[test]
fn serializes_empty_body_and_no_headers() {
    let r = ResponseContext { status: 404, headers: vec![], body: vec![], terminal: true };
    let bytes = serialize_response(&r);
    assert_eq!(bytes, b"HTTP/1.1 404 \r\nContent-Length: 0\r\n\r\n".to_vec());
}

#[test]
fn parses_known_methods() {
    assert_eq!(parse_method(b"GET"), Some(HttpMethod::Get));
    assert_eq!(parse_method(b"POST"), Some(HttpMethod::Post));
    assert_eq!(parse_method(b"PUT"), Some(HttpMethod::Put));
    assert_eq!(parse_method(b"DELETE"), Some(HttpMethod::Delete));
    assert_eq!(parse_method(b"PATCH"), Some(HttpMethod::Patch));
    assert_eq!(parse_method(b"HEAD"), Some(HttpMethod::Head));
    assert_eq!(parse_method(b"OPTIONS"), Some(HttpMethod::Options));
    assert_eq!(parse_method(b"TRACE"), Some(HttpMethod::Trace));
    assert_eq!(parse_method(b"CONNECT"), Some(HttpMethod::Connect));
}

#[test]
fn rejects_unknown_methods() {
    assert_eq!(parse_method(b"FETCH"), None);
    assert_eq!(parse_method(b"get"), None);
    assert_eq!(parse_method(b""), None);
}

#[test]
fn parses_request_line() {
    let r = parse_request_line(b"GET /hello/world HTTP/1.1").unwrap();
    assert_eq!(r.0, HttpMethod::Get);
    assert_eq!(r.1, b"/hello/world".to_vec());
    assert_eq!(r.2, b"HTTP/1.1".to_vec());
}

#[test]
fn rejects_bad_request_lines() {
    assert!(parse_request_line(b"GET").is_none());
    assert!(parse_request_line(b"FETCH / HTTP/1.1").is_none());
    assert!(parse_request_line(b"GET  HTTP/1.1").is_none());
    assert!(parse_request_line(b"GET / HTTP/1.1 extra").is_none());
    assert!(parse_request_line(b"GET / ").is_none());
    assert!(parse_request_line(b"").is_none());
}

#[test]
fn parses_header_line() {
    let (name, value) = parse_header_line(b"Host: example.test:8080").unwrap();
    assert_eq!(name, b"Host".to_vec());
    assert_eq!(value, b"example.test:8080".to_vec());
}

#[test]
fn rejects_bad_header_lines() {
    assert!(parse_header_line(b"no colon here").is_none());
    assert!(parse_header_line(b": empty name").is_none());
    assert!(parse_header_line(b"Name:tight").is_none());
    assert!(parse_header_line(b"Name:").is_none());
}
