use http_core::response::Response;

fn count(hay: &[u8], needle: &[u8]) -> usize {
    hay.windows(needle.len()).filter(|w| *w == needle).count()
}

#[test]
fn default_response_serializes() {
    let r = Response::default();
    assert_eq!(r.status, "200 OK");
    assert_eq!(r.headers.get("Content-Type").map(|s| s.as_str()), Some("text/html"));
    assert!(r.body().is_empty());
    assert_eq!(r.serialize(), b"HTTP/1.1 200 OK\r\nContent-Type: text/html\r\n\r\n".to_vec());
}

#[test]
fn set_body_hello_serializes() {
    let mut r = Response::default();
    r.set_body(b"hello");
    let bytes = r.validate().unwrap();
    assert_eq!(count(&bytes, b"Content-Length: 5\r\n"), 1);
    assert!(bytes.ends_with(b"hello"));
    assert_eq!(count(&bytes, b"\r\n\r\n"), 1);
    assert!(bytes.ends_with(b"\r\n\r\nhello"));
    assert_eq!(
        bytes,
        b"HTTP/1.1 200 OK\r\nContent-Type: text/html\r\nContent-Length: 5\r\n\r\nhello".to_vec()
    );
}

#[test]
fn serializing_twice_is_identical() {
    let mut r = Response::default();
    r.set_body(b"test\n");
    let a = r.serialize();
    let b = r.serialize();
    assert_eq!(a, b);
    assert_eq!(r.validate().unwrap(), a);
}

#[test]
fn set_body_replaces_length() {
    let mut r = Response::default();
    r.set_body(b"a longer body of 25 bytes");
    r.set_body(b"");
    assert_eq!(r.headers.get("Content-Length").map(|s| s.as_str()), Some("0"));
    r.set_body(&[7u8; 1234]);
    assert_eq!(r.headers.get("Content-Length").map(|s| s.as_str()), Some("1234"));
    assert_eq!(r.headers.len(), 2);
    assert_eq!(r.body().len(), 1234);
}

#[test]
fn custom_status_and_non_ascii_text() {
    let mut r = Response::default();
    r.status = "404 Not Found".to_string();
    r.headers.insert("X-Name".to_string(), "caf\u{e9}".to_string());
    let bytes = r.serialize();
    assert!(bytes.starts_with(b"HTTP/1.1 404 Not Found\r\n"));
    assert_eq!(count(&bytes, "X-Name: caf\u{e9}\r\n".as_bytes()), 1);
}

#[test]
fn same_calls_give_same_bytes() {
    let mut a = Response::default();
    a.set_body(b"one");
    a.set_body(b"two!");
    let mut b = Response::default();
    b.set_body(b"one");
    b.set_body(b"two!");
    assert_eq!(a.serialize(), b.serialize());
    assert_eq!(
        a.serialize(),
        b"HTTP/1.1 200 OK\r\nContent-Type: text/html\r\nContent-Length: 4\r\n\r\ntwo!".to_vec()
    );
}
