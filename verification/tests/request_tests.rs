use nimble::request::{Clock, ContentType, Header, HttpCode, HttpMethod, HttpRequest, Protocol};

#[test]
fn parses_a_plain_get_request() {
    let raw = b"GET /document/1 HTTP/1.1\r\nHost: example\r\nAccept-Encoding: gzip\r\n\r\nhello";
    let req = HttpRequest::new(raw, "127.0.0.1".to_string(), 7).unwrap();
    assert_eq!(req.request_id, 7);
    assert_eq!(req.client_ip, "127.0.0.1".to_string());
    assert_eq!(req.method, HttpMethod::Get);
    assert_eq!(req.uri, "/document/1".to_string());
    assert_eq!(
        req.headers,
        vec!["Host: example".to_string(), "Accept-Encoding: gzip".to_string()]
    );
    assert_eq!(req.body, "hello".to_string());
}

#[test]
fn favicon_probes_are_normalized_to_the_root() {
    let raw = b"GET /favicon.ico HTTP/1.1\r\nHost: example\r\n\r\n";
    let req = HttpRequest::new(raw, "c".to_string(), 0).unwrap();
    assert_eq!(req.uri, "/".to_string());
}

#[test]
fn short_requests_are_invalid() {
    let raw = b"GET / HTTP/1.1";
    let err = HttpRequest::new(raw, "c".to_string(), 0).unwrap_err();
    assert_eq!(err, "Invalid request".to_string());
}

#[test]
fn body_concatenates_lines_after_the_blank_line() {
    let raw = b"POST /x HTTP/1.1\r\nHost: h\r\n\r\nab\r\ncd\r\n";
    let req = HttpRequest::new(raw, "c".to_string(), 0).unwrap();
    assert_eq!(req.method, HttpMethod::Post);
    assert_eq!(req.body, "abcd".to_string());
}

#[test]
fn gzip_support_is_detected() {
    let raw = b"GET / HTTP/1.1\r\nAccept-Encoding: gzip\r\nHost: h\r\n\r\n";
    let req = HttpRequest::new(raw, "c".to_string(), 0).unwrap();
    assert!(req.is_compression_supported());

    let raw = b"GET / HTTP/1.1\r\nAccept-Encoding: gzip, deflate\r\nHost: h\r\n\r\n";
    let req = HttpRequest::new(raw, "c".to_string(), 0).unwrap();
    assert!(req.is_compression_supported());

    let raw = b"GET / HTTP/1.1\r\nAccept-Encoding: identity\r\nHost: h\r\n\r\n";
    let req = HttpRequest::new(raw, "c".to_string(), 0).unwrap();
    assert!(!req.is_compression_supported());

    let raw = b"GET / HTTP/1.1\r\nUser-Agent: Firefox/99\r\nAccept-Encoding: gzip\r\n\r\n";
    let req = HttpRequest::new(raw, "c".to_string(), 0).unwrap();
    assert!(!req.is_compression_supported());
}

#[test]
fn methods_parse_from_their_tokens() {
    assert_eq!(HttpMethod::new("GET"), HttpMethod::Get);
    assert_eq!(HttpMethod::new("POST"), HttpMethod::Post);
    assert_eq!(HttpMethod::new("DELETE"), HttpMethod::Delete);
    assert_eq!(HttpMethod::new("BREW"), HttpMethod::Unsupported);
    assert_eq!(HttpMethod::Get.text(), "GET");
}

#[test]
fn protocol_and_content_labels() {
    assert_eq!(Protocol::Http.text(), "HTTP/1.1");
    assert_eq!(ContentType::Text.text(), "text/plain");
    assert_eq!(ContentType::Html.text(), "text/html");
    assert_eq!(ContentType::Json.text(), "application/json");
    assert_eq!(HttpCode::Okay.code(), 200);
    assert_eq!(HttpCode::Teapot.code(), 418);
    assert_eq!(HttpCode::InternalServerError.code(), 500);
    let h = Header { title: "Content-Type".to_string(), value: "text/plain".to_string() };
    assert_eq!(h.text(), "Content-Type : text/plain".to_string());
}

#[test]
fn clock_hands_out_increasing_times() {
    let mut clock = Clock::new();
    assert_eq!(clock.increment_time(), 0);
    assert_eq!(clock.increment_time(), 1);
    assert_eq!(clock.increment_time(), 2);
}

#[test]
fn well_formed_requests_are_accepted() {
    let raw = b"GET /x HTTP/1.1\r\nHost: h\r\nAccept: text/plain\r\n\r\nbody";
    assert!(HttpRequest::new(raw, "c".to_string(), 1).is_ok());
}

#[test]
fn forwarding_headers_are_stamped_after_the_request_line() {
    let raw = b"GET /x HTTP/1.1\r\nHost: h\r\n\r\n";
    let out = nimble::request::inject_forwarding_headers(raw, "10.0.0.9", "req-1");
    let expected = "GET /x HTTP/1.1\r\nX-Client-IP: 10.0.0.9\r\nX-Request-ID: req-1\r\nHost: h\r\n\r\n";
    assert_eq!(String::from_utf8(out).unwrap(), expected.to_string());
}

#[test]
fn forwarding_headers_append_when_no_line_ends() {
    let raw = b"GET";
    let out = nimble::request::inject_forwarding_headers(raw, "ip", "id");
    assert_eq!(
        String::from_utf8(out).unwrap(),
        "GETX-Client-IP: ip\r\nX-Request-ID: id\r\n".to_string()
    );
}
