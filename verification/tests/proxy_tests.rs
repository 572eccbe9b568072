use rtproxy::frame::header_block_complete;
use rtproxy::frame::split_message;
use rtproxy::options::RToption;
use rtproxy::parse::ParseError;
use rtproxy::parse::http_request_parse;
use rtproxy::relay::RelayError;
use rtproxy::relay::resolve_upstream;
use rtproxy::request::HttpMethod;
use rtproxy::request::HttpRequest;
use rtproxy::request::HttpVersion;
use rtproxy::request::parse_decimal_u32;
use rtproxy::search::find_vec_in_vec;
use rtproxy::transform::camouflage_client;

fn parse_ok(head: &str) -> HttpRequest {
    http_request_parse(head, Vec::new()).expect("expected a parse success")
}

#[test]
fn test_find_vec_in_vec() {
    {
        let vec = vec![0, 1, 2, 3, 4];
        let sd = [0, 1, 2, 3, 4];
        assert_eq!(find_vec_in_vec(&vec, &sd, 0), (0, true));
    }
    {
        let vec = vec![0, 1, 2, 3, 4];
        let sd = [0, 1];
        assert_eq!(find_vec_in_vec(&vec, &sd, 0), (0, true));
    }
    {
        let vec = vec![0, 1, 2, 3, 4];
        let sd = [1, 2];
        assert_eq!(find_vec_in_vec(&vec, &sd, 0), (1, true));
    }
    {
        let vec = vec![0, 1, 2, 3, 4];
        let sd = [3, 4];
        assert_eq!(find_vec_in_vec(&vec, &sd, 0), (3, true));
    }
    {
        let vec = vec![0, 1, 2, 3, 4];
        let sd = [2, 3, 4];
        assert_eq!(find_vec_in_vec(&vec, &sd, 0), (2, true));
    }

    {
        let vec = vec![0, 1, 2, 3, 4];
        let sd = [7, 8];
        assert_eq!(find_vec_in_vec(&vec, &sd, 0), (5, false));
    }

    {
        let vec = vec![0, 1, 2, 3, 4];
        let sd = [3, 4];
        assert_eq!(find_vec_in_vec(&vec, &sd, 3), (3, true));
    }
    {
        let vec = vec![0, 1, 2, 3, 4];
        let sd = [3, 4];
        assert_eq!(find_vec_in_vec(&vec, &sd, 4), (5, false));
    }

    {
        let vec = vec![0, 1];
        let sd = [0, 1, 2];
        assert_eq!(find_vec_in_vec(&vec, &sd, 0), (0, false));
    }

    {
        let vec = vec![0, 1, 2, 3];
        let sd = [0, 1, 2];
        assert_eq!(find_vec_in_vec(&vec, &sd, 10), (4, false));
    }
}

#[test]
fn two_token_request_line_is_http09() {
    let req = parse_ok("GET /index.html");
    assert_eq!(req.method, HttpMethod::GET);
    assert_eq!(req.version, HttpVersion::Http09);
    assert_eq!(req.uri, "/index.html");
}

#[test]
fn three_token_request_line_keeps_version() {
    let req = parse_ok("GET /a HTTP/1.0");
    assert_eq!(req.version, HttpVersion::Http10);
    let req = parse_ok("POST /b HTTP/1.1");
    assert_eq!(req.method, HttpMethod::POST);
    assert_eq!(req.version, HttpVersion::Http11);
}

#[test]
fn every_method_token_parses() {
    for (token, method) in [
        ("GET", HttpMethod::GET),
        ("POST", HttpMethod::POST),
        ("HEAD", HttpMethod::HEAD),
        ("OPTIONS", HttpMethod::OPTIONS),
        ("PUT", HttpMethod::PUT),
        ("DELETE", HttpMethod::DELETE),
        ("TRACE", HttpMethod::TRACE),
        ("PATCH", HttpMethod::PATCH),
    ] {
        let req = parse_ok(&format!("{} / HTTP/1.1", token));
        assert_eq!(req.method, method);
        assert_eq!(req.method.name(), token);
    }
}

#[test]
fn unknown_method_token_is_rejected() {
    let r = http_request_parse("BREW / HTTP/1.1", Vec::new());
    assert!(matches!(r, Err(ParseError::InvalidMethod)));
    let r = http_request_parse("get / HTTP/1.1", Vec::new());
    assert!(matches!(r, Err(ParseError::InvalidMethod)));
    let r = http_request_parse("", Vec::new());
    assert!(matches!(r, Err(ParseError::InvalidMethod)));
}

#[test]
fn unknown_version_token_is_rejected() {
    let r = http_request_parse("GET / HTTP/2.0", Vec::new());
    assert!(matches!(r, Err(ParseError::UnknownVersion)));
    let r = http_request_parse("GET / http/1.1", Vec::new());
    assert!(matches!(r, Err(ParseError::UnknownVersion)));
}

#[test]
fn method_without_target_is_rejected() {
    let r = http_request_parse("GET", Vec::new());
    assert!(matches!(r, Err(ParseError::MalformedRequestLine)));
}

#[test]
fn header_line_without_separator_is_rejected() {
    let r = http_request_parse("GET / HTTP/1.1\r\nBadHeader", Vec::new());
    assert!(matches!(r, Err(ParseError::MalformedHeader)));
    let r = http_request_parse("GET / HTTP/1.1\r\n: value", Vec::new());
    assert!(matches!(r, Err(ParseError::MalformedHeader)));
}

#[test]
fn headers_parse_into_map() {
    let req = parse_ok("GET / HTTP/1.1\r\nHost: example.org\r\nAccept: */*");
    assert_eq!(req.has_key("Host"), Some("example.org".to_string()));
    assert_eq!(req.has_key("Accept"), Some("*/*".to_string()));
    assert_eq!(req.has_key("host"), None);
}

#[test]
fn second_header_occurrence_overwrites_first() {
    let req = parse_ok("GET / HTTP/1.1\r\nX: one\r\nX: two");
    assert_eq!(req.has_key("X"), Some("two".to_string()));
}

#[test]
fn body_bytes_are_taken_verbatim() {
    let body = vec![1u8, 2, 3, 0, 255];
    let req = http_request_parse("POST /u HTTP/1.1", body.clone()).unwrap();
    assert_eq!(req.body, body);
}

#[test]
fn serialize_head_exact_wire_form() {
    let req = parse_ok("GET /x HTTP/1.1\r\nHost: a\r\nAccept: b");
    assert_eq!(req.serialize_head(), "GET /x HTTP/1.1\r\nHost: a\r\nAccept: b");
}

#[test]
fn http09_serializes_with_empty_version_token() {
    let req = parse_ok("GET /x");
    assert_eq!(req.serialize_head(), "GET /x ");
}

#[test]
fn parse_of_serialized_head_reproduces_request() {
    let req = parse_ok("PUT /data HTTP/1.0\r\nHost: h.example\r\nContent-Type: text/plain");
    let wire = req.serialize_head();
    let again = parse_ok(&wire);
    assert_eq!(again.method, req.method);
    assert_eq!(again.version, req.version);
    assert_eq!(again.uri, req.uri);
    assert_eq!(again.has_key("Host"), req.has_key("Host"));
    assert_eq!(again.has_key("Content-Type"), req.has_key("Content-Type"));
    assert_eq!(again.headers.len(), req.headers.len());
}

#[test]
fn absolute_uri_with_path_becomes_origin_form() {
    let mut req = parse_ok("GET http://example.com/a/b HTTP/1.1");
    camouflage_client(&mut req);
    assert_eq!(req.uri, "/a/b");
}

#[test]
fn absolute_uri_without_path_becomes_root() {
    let mut req = parse_ok("GET http://example.com HTTP/1.1");
    camouflage_client(&mut req);
    assert_eq!(req.uri, "/");
}

#[test]
fn origin_form_uri_is_left_unmodified() {
    let mut req = parse_ok("GET /already/origin HTTP/1.1");
    camouflage_client(&mut req);
    assert_eq!(req.uri, "/already/origin");
    let mut req = parse_ok("GET https://example.com/x HTTP/1.1");
    camouflage_client(&mut req);
    assert_eq!(req.uri, "https://example.com/x");
}

#[test]
fn camouflage_removes_hop_by_hop_headers() {
    let mut req = parse_ok(
        "GET / HTTP/1.1\r\nHost: example.org\r\nProxy-Connection: keep-alive\r\nAccept-Encoding: gzip",
    );
    assert!(req.keepalive().is_some());
    camouflage_client(&mut req);
    assert!(req.keepalive().is_none());
    assert_eq!(req.has_key("Proxy-Connection"), None);
    assert_eq!(req.has_key("Accept-Encoding"), None);
    assert_eq!(req.has_key("Host"), Some("example.org".to_string()));
}

#[test]
fn camouflage_defaults_do_not_overwrite() {
    let mut req = parse_ok("GET / HTTP/1.1\r\nCache-Control: no-cache\r\nConnection: close");
    camouflage_client(&mut req);
    assert_eq!(req.has_key("Cache-Control"), Some("no-cache".to_string()));
    assert_eq!(req.has_key("Connection"), Some("close".to_string()));
    let mut req = parse_ok("GET / HTTP/1.1\r\nHost: a");
    camouflage_client(&mut req);
    assert_eq!(req.has_key("Cache-Control"), Some("max-age=0".to_string()));
    assert_eq!(req.has_key("Connection"), Some("keep-alive".to_string()));
}

#[test]
fn missing_host_is_fatal_for_relay() {
    let req = parse_ok("GET / HTTP/1.1\r\nAccept: */*");
    assert!(matches!(resolve_upstream(&req), Err(RelayError::MissingHost)));
}

#[test]
fn host_without_port_gets_default_port() {
    let req = parse_ok("GET / HTTP/1.1\r\nHost: example.org");
    assert_eq!(resolve_upstream(&req).unwrap(), "example.org:80");
}

#[test]
fn host_with_port_is_used_as_is() {
    let req = parse_ok("GET / HTTP/1.1\r\nHost: example.org:8000");
    assert_eq!(resolve_upstream(&req).unwrap(), "example.org:8000");
}

#[test]
fn insert_header_only_when_absent() {
    let mut req = parse_ok("GET / HTTP/1.1\r\nHost: a");
    req.insert_header("Host".to_string(), "b".to_string());
    assert_eq!(req.has_key("Host"), Some("a".to_string()));
    req.insert_header("Accept".to_string(), "*/*".to_string());
    assert_eq!(req.has_key("Accept"), Some("*/*".to_string()));
}

#[test]
fn remove_header_drops_entry() {
    let mut req = parse_ok("GET / HTTP/1.1\r\nHost: a\r\nAccept: b");
    req.remove_header("Accept");
    assert_eq!(req.has_key("Accept"), None);
    assert_eq!(req.has_key("Host"), Some("a".to_string()));
    req.remove_header("NotThere");
    assert_eq!(req.headers.len(), 1);
}

#[test]
fn contentlength_parses_decimal_value() {
    let req = parse_ok("POST /u HTTP/1.1\r\nContent-Length: 123");
    assert_eq!(req.contentlength(), Some(123));
    let req = parse_ok("GET / HTTP/1.1\r\nHost: a");
    assert_eq!(req.contentlength(), None);
}

#[test]
fn decimal_parsing_exact_values() {
    assert_eq!(parse_decimal_u32("0"), 0);
    assert_eq!(parse_decimal_u32("8080"), 8080);
    assert_eq!(parse_decimal_u32("4294967295"), u32::MAX);
}

#[test]
fn header_block_complete_needs_terminator_at_end() {
    let data = b"GET / HTTP/1.1\r\nHost: a\r\n\r\n".to_vec();
    assert!(header_block_complete(&data));
    let data = b"GET / HTTP/1.1\r\nHost: a".to_vec();
    assert!(!header_block_complete(&data));
    let data = b"\r\n\r\n".to_vec();
    assert!(!header_block_complete(&data));
    let data = b"A\r\n\r\n".to_vec();
    assert!(header_block_complete(&data));
}

#[test]
fn split_message_separates_head_and_body() {
    let data = b"POST /u HTTP/1.1\r\nHost: a\r\n\r\nBODY".to_vec();
    let (head, body) = split_message(&data).unwrap();
    assert_eq!(head, b"POST /u HTTP/1.1\r\nHost: a".to_vec());
    assert_eq!(body, b"BODY".to_vec());
    let data = b"GET / HTTP/1.1\r\nHost: a".to_vec();
    assert!(split_message(&data).is_none());
}

#[test]
fn split_message_splits_at_first_terminator_only() {
    let data = b"GET / HTTP/1.1\r\nHost: a\r\n\r\nfirst\r\n\r\nsecond".to_vec();
    let (head, body) = split_message(&data).unwrap();
    assert_eq!(head, b"GET / HTTP/1.1\r\nHost: a".to_vec());
    assert_eq!(body, b"first\r\n\r\nsecond".to_vec());
}

#[test]
fn target_with_embedded_space_shifts_version_token() {
    let r = http_request_parse("GET /a b HTTP/1.1", Vec::new());
    assert!(matches!(r, Err(ParseError::UnknownVersion)));
}

#[test]
fn default_options_listen_everywhere_on_8080() {
    let o = RToption::default();
    assert_eq!(o.listen_addr, "0.0.0.0");
    assert_eq!(o.listen_port, 8080);
    assert_eq!(o.verbose, 0);
}

#[test]
fn end_to_end_request_pipeline() {
    let data = b"GET /index.html HTTP/1.1\r\nHost: example.org\r\n\r\n".to_vec();
    assert!(header_block_complete(&data));
    let (head, body) = split_message(&data).unwrap();
    let head_text = String::from_utf8(head).unwrap();
    let mut req = http_request_parse(&head_text, body).unwrap();
    camouflage_client(&mut req);
    let upstream = resolve_upstream(&req).unwrap();
    assert_eq!(upstream, "example.org:80");
    assert_eq!(req.has_key("Proxy-Connection"), None);
    let wire = req.serialize_head();
    assert_eq!(
        wire,
        "GET /index.html HTTP/1.1\r\nHost: example.org\r\nCache-Control: max-age=0\r\nConnection: keep-alive"
    );
    assert!(req.body.is_empty());
}
