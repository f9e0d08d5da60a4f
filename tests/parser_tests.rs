use http_proxy::error::ProxyError;
use http_proxy::http_parser::{HttpParser, MAX_HEADER_SIZE};

#[test]
fn header_arrives_in_pieces() {
    let mut p = HttpParser::new();
    p.feed(b"GET /a HT").unwrap();
    assert_eq!(p.read_header().unwrap(), false);
    p.feed(b"TP/1.1\r\nHost: ex").unwrap();
    assert_eq!(p.read_header().unwrap(), false);
    p.feed(b"ample.com\r\n\r").unwrap();
    assert_eq!(p.read_header().unwrap(), false);
    p.feed(b"\nextra").unwrap();
    assert_eq!(p.read_header().unwrap(), true);
    let block = b"GET /a HTTP/1.1\r\nHost: example.com\r\n\r\n".to_vec();
    assert_eq!(p.header_lines(), block);
    let req = p.read_request().unwrap();
    assert_eq!(req.url, b"/a".to_vec());
    assert_eq!(p.read_bytes(), Some(b"extra".to_vec()));
    assert_eq!(p.read_bytes(), None);
    let mut all = block.clone();
    all.extend_from_slice(b"extra");
    assert_eq!(p.data(), all);
}

#[test]
fn empty_read_means_closed() {
    let mut p = HttpParser::new();
    assert!(matches!(p.feed(b""), Err(ProxyError::ConnectionClosed)));
    assert!(matches!(p.capture_bytes(b"", 10), Err(ProxyError::ConnectionClosed)));
}

#[test]
fn oversized_buffer_without_line_is_refused() {
    let mut p = HttpParser::new();
    let junk = vec![b'a'; MAX_HEADER_SIZE + 1];
    p.feed(&junk).unwrap();
    assert!(matches!(p.read_header(), Err(ProxyError::HeaderTooLarge)));
}

#[test]
fn oversized_header_block_is_refused() {
    let mut p = HttpParser::new();
    p.feed(b"GET / HTTP/1.1\r\n").unwrap();
    let line = format!("X-Pad: {}\r\n", "a".repeat(1000)).into_bytes();
    let mut refused = false;
    for _ in 0..10 {
        p.feed(&line).unwrap();
        match p.read_header() {
            Ok(done) => assert!(!done),
            Err(e) => {
                assert!(matches!(e, ProxyError::HeaderTooLarge));
                refused = true;
                break;
            }
        }
    }
    assert!(refused);
}

#[test]
fn response_head_is_parsed() {
    let mut p = HttpParser::new();
    p.feed(b"HTTP/1.1 304 Not Modified\r\nDate: D1\r\n\r\n").unwrap();
    assert!(p.read_header().unwrap());
    let resp = p.read_response_header().unwrap();
    assert_eq!(resp.status_code, b"304".to_vec());
    assert_eq!(resp.headers.get(b"date"), Some(b"D1".to_vec()));
}

#[test]
fn capture_stops_past_budget() {
    let mut p = HttpParser::new();
    p.feed(b"HTTP/1.1 200 OK\r\n\r\n").unwrap();
    assert!(p.read_header().unwrap());
    let head = p.data().len();
    p.capture_bytes(&[1u8; 10], head).unwrap();
    assert_eq!(p.data().len(), head + 10);
    p.capture_bytes(&[2u8; 10], head).unwrap();
    assert_eq!(p.data().len(), head + 10);
}
