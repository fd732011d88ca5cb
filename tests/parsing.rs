use http_core::errors::{ParseError, ServerError};
use http_core::headers::Headers;
use http_core::request::{ClientRequest, HttpMethod};

#[test]
fn parses_simple_get() {
    let req = ClientRequest::parse_request("GET /index.html HTTP/1.1\r\nHost: example.com\r\n\r\n").unwrap();
    assert_eq!(req.method, HttpMethod::Get);
    assert_eq!(req.http_version, "1.1");
    assert_eq!(req.headers.len(), 1);
    assert_eq!(req.headers.get("Host").map(|s| s.as_str()), Some("example.com"));
    assert!(req.message_body.is_empty());
}

#[test]
fn unknown_method_fails() {
    let r = ClientRequest::parse_request("FOO /index.html HTTP/1.1\r\nHost: example.com\r\n\r\n");
    assert!(matches!(r, Err(ParseError::HttpMethod)));
}

#[test]
fn lower_case_method_fails() {
    let r = ClientRequest::parse_request("get / HTTP/1.1\r\n\r\n");
    assert!(matches!(r, Err(ParseError::HttpMethod)));
}

#[test]
fn header_without_colon_fails() {
    let r = ClientRequest::parse_request("GET / HTTP/1.1\r\nMalformed Header Without Colon\r\n\r\n");
    assert!(matches!(r, Err(ParseError::Headers)));
    let h = Headers::parse_headers(&["Malformed Header Without Colon"]);
    assert!(matches!(h, Err(ParseError::Headers)));
}

#[test]
fn missing_version_fails() {
    assert!(matches!(ClientRequest::parse_request("GET /\r\n\r\n"), Err(ParseError::HttpVersion)));
    assert!(matches!(ClientRequest::parse_request("GET\r\n\r\n"), Err(ParseError::HttpVersion)));
    assert!(matches!(ClientRequest::parse_request("GET / FTP/1.1\r\n\r\n"), Err(ParseError::HttpVersion)));
    assert!(matches!(ClientRequest::parse_request("GET / HTTP/\r\n\r\n"), Err(ParseError::HttpVersion)));
    assert!(matches!(ClientRequest::parse_request("GET  HTTP/1.1\r\n\r\n"), Err(ParseError::HttpVersion)));
}

#[test]
fn empty_input_fails_on_method() {
    assert!(matches!(ClientRequest::parse_request(""), Err(ParseError::HttpMethod)));
}

#[test]
fn method_error_comes_before_header_error() {
    let r = ClientRequest::parse_request("FOO / HTTP/1.1\r\nbad\r\n\r\n");
    assert!(matches!(r, Err(ParseError::HttpMethod)));
}

#[test]
fn path_with_slashes_parses() {
    let req = ClientRequest::parse_request("POST /a/b/c.html HTTP/2\r\n\r\n").unwrap();
    assert_eq!(req.method, HttpMethod::Post);
    assert_eq!(req.http_version, "2");
    assert!(req.headers.is_empty());
}

#[test]
fn every_method_parses() {
    let cases = [
        ("GET", HttpMethod::Get),
        ("HEAD", HttpMethod::Head),
        ("POST", HttpMethod::Post),
        ("PUT", HttpMethod::Put),
        ("DELETE", HttpMethod::Delete),
        ("CONNECT", HttpMethod::Connect),
        ("OPTIONS", HttpMethod::Options),
        ("TRACE", HttpMethod::Trace),
        ("PATCH", HttpMethod::Patch),
    ];
    for (token, method) in cases {
        let raw = format!("{token} /x HTTP/1.0\r\nA: b\r\n\r\n");
        let req = ClientRequest::parse_request(&raw).unwrap();
        assert_eq!(req.method, method);
        assert_eq!(req.http_version, "1.0");
        assert_eq!(method.name(), token);
        assert_eq!(HttpMethod::from_token(token), Ok(method));
        assert_eq!(token.parse::<HttpMethod>(), Ok(method));
    }
    assert_eq!(HttpMethod::from_token("FOO"), Err(ParseError::HttpMethod));
    assert_eq!(HttpMethod::default(), HttpMethod::Get);
}

#[test]
fn duplicate_header_last_write_wins() {
    let req = ClientRequest::parse_request("GET / HTTP/1.1\r\nX: 1\r\nY: 2\r\nX: 3\r\n\r\n").unwrap();
    assert_eq!(req.headers.len(), 2);
    assert_eq!(req.headers.get("X").map(|s| s.as_str()), Some("3"));
    assert_eq!(req.headers.get("Y").map(|s| s.as_str()), Some("2"));
}

#[test]
fn header_names_are_case_sensitive() {
    let req = ClientRequest::parse_request("GET / HTTP/1.1\r\nHost: a\r\nhost: b\r\n\r\n").unwrap();
    assert_eq!(req.headers.len(), 2);
    assert_eq!(req.headers.get("Host").map(|s| s.as_str()), Some("a"));
    assert_eq!(req.headers.get("host").map(|s| s.as_str()), Some("b"));
    assert!(!req.headers.contains_key("HOST"));
}

#[test]
fn header_name_and_value_are_trimmed() {
    let h = Headers::parse_headers(&["  Key \t:   some value  ", "Url: http://x:80/"]).unwrap();
    assert_eq!(h.get("Key").map(|s| s.as_str()), Some("some value"));
    assert_eq!(h.get("Url").map(|s| s.as_str()), Some("http://x:80/"));
    assert_eq!(h.len(), 2);
}

#[test]
fn empty_header_list_gives_empty_map() {
    let h = Headers::parse_headers(&[]).unwrap();
    assert!(h.is_empty());
    assert_eq!(h.render(), "");
}

#[test]
fn headers_insert_and_render_in_order() {
    let mut h = Headers::new();
    h.insert("A".to_string(), "1".to_string());
    h.insert("B".to_string(), "2".to_string());
    h.insert("A".to_string(), "3".to_string());
    assert_eq!(h.len(), 2);
    assert_eq!(h.render(), "A: 3\r\nB: 2\r\n");
}

#[test]
fn error_messages() {
    assert_eq!(ParseError::HttpMethod.message(), "ParseError: Incorrect HTTP method.");
    assert_eq!(ParseError::HttpVersion.message(), "ParseError: Incorrect HTTP version.");
    assert_eq!(ParseError::Headers.message(), "ParseError: Incorrect headers.");
    let e = ServerError::from(ParseError::Headers);
    assert_eq!(e.parse_error(), Some(ParseError::Headers));
    let io = ServerError::from(std::io::Error::new(std::io::ErrorKind::UnexpectedEof, "eof"));
    assert_eq!(io.parse_error(), None);
}

#[test]
fn empty_header_element_fails() {
    assert!(matches!(Headers::parse_headers(&[""]), Err(ParseError::Headers)));
    assert!(matches!(Headers::parse_headers(&["A: b", ""]), Err(ParseError::Headers)));
}

#[test]
fn latin1_whitespace_is_trimmed() {
    let h = Headers::parse_headers(&["\u{a0}Key\u{85}: value\u{a0}\u{3000}"]).unwrap();
    assert_eq!(h.get("Key").map(|s| s.as_str()), Some("value"));
}

#[test]
fn from_str_rejects_near_misses() {
    for s in ["get", " GET", "FOO", "GET ", ""] {
        assert_eq!(s.parse::<HttpMethod>(), Err(ParseError::HttpMethod));
    }
}
