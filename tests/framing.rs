use http_core::framing::{header_block_len, HeaderFramer};
use http_core::request::ClientRequest;

#[test]
fn framer_stops_at_terminator_and_leaves_rest() {
    let stream = b"GET / HTTP/1.1\r\nHost: a\r\n\r\nBODYBYTES";
    let mut framer = HeaderFramer::new();
    let mut taken = 0;
    for &b in stream.iter() {
        taken += 1;
        if framer.push(b) {
            break;
        }
    }
    assert!(framer.is_complete());
    assert_eq!(taken, stream.len() - "BODYBYTES".len());
    assert_eq!(framer.text(), "GET / HTTP/1.1\r\nHost: a\r\n\r\n");
    assert_eq!(header_block_len(stream), Some(taken));
    let req = ClientRequest::parse_request(&framer.text()).unwrap();
    assert_eq!(req.headers.get("Host").map(|s| s.as_str()), Some("a"));
}

#[test]
fn incomplete_stream_has_no_block() {
    assert_eq!(header_block_len(b"GET / HTTP/1.1\r\nHost: a\r\n"), None);
    assert_eq!(header_block_len(b""), None);
    assert_eq!(header_block_len(b"\r\n\r"), None);
    assert_eq!(header_block_len(b"\r\n\r\n"), Some(4));
    let mut framer = HeaderFramer::new();
    for &b in b"GET / HTTP/1.1\r\n\r" {
        assert!(!framer.push(b));
    }
    assert!(!framer.is_complete());
}

#[test]
fn framer_decodes_bytes_as_latin1() {
    let mut framer = HeaderFramer::new();
    for &b in &[0x41u8, 0xe9, 0x0d, 0x0a, 0x0d, 0x0a] {
        framer.push(b);
    }
    assert_eq!(framer.text(), "A\u{e9}\r\n\r\n");
}
