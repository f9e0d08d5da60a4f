use http_proxy::error::ProxyError;
use http_proxy::http_parser::{HttpParser, READ_BUFFER_SIZE};
use http_proxy::proxy::{Exchange, Proxy, Reply, ResponsePlan, Route, RESPONSE_CACHE_LENGTH};

const REQUEST: &[u8] = b"GET /a HTTP/1.1\r\nHost: example.com\r\n\r\n";
const ORIGIN_REPLY: &[u8] =
    b"HTTP/1.1 200 OK\r\nDate: D1\r\nCache-Control: max-age=60\r\nContent-Length: 5\r\n\r\nhello";

fn forward(route: Route) -> Exchange {
    match route {
        Route::Forward(ex) => ex,
        Route::Cached(_) => panic!("expected a trip to the origin"),
    }
}

fn stream_plan(reply: Reply) -> ResponsePlan {
    match reply {
        Reply::Stream(p) => p,
        Reply::Cached(_) => panic!("expected a forwarded response"),
    }
}

/// Plays the origin's side: feeds `reply` in reads of at most
/// `READ_BUFFER_SIZE` bytes, forwards what the client would receive, and
/// updates the cache. Returns the bytes sent to the client and whether the
/// response was stored.
fn exchange_with_origin(proxy: &mut Proxy, ex: Exchange, reply: &[u8], now: u64) -> (Vec<u8>, bool) {
    let mut parser = HttpParser::new();
    let mut offset = 0;
    loop {
        let end = usize::min(offset + READ_BUFFER_SIZE, reply.len());
        parser.feed(&reply[offset..end]).unwrap();
        offset = end;
        if parser.read_header().unwrap() {
            break;
        }
    }
    let plan = stream_plan(proxy.on_response(&ex, &parser.header_lines()).unwrap());
    let mut client = parser.data();
    let mut count = 0;
    while count < plan.content_length {
        let bytes = match parser.read_bytes() {
            Some(b) => b,
            None => {
                let end = usize::min(offset + READ_BUFFER_SIZE, reply.len());
                let chunk = reply[offset..end].to_vec();
                offset = end;
                parser.capture_bytes(&chunk, RESPONSE_CACHE_LENGTH).unwrap();
                chunk
            }
        };
        client.extend_from_slice(&bytes);
        count += bytes.len();
    }
    let stored = proxy.update_cache(ex, &plan, parser.data(), now).unwrap();
    (client, stored)
}

#[test]
fn cold_cache_stores_cacheable_response() {
    let mut proxy = Proxy::new(true);
    let ex = forward(proxy.route_request(REQUEST, 1000).unwrap());
    assert_eq!(ex.host, b"example.com".to_vec());
    assert_eq!(ex.outgoing, REQUEST.to_vec());
    let (client, stored) = exchange_with_origin(&mut proxy, ex, ORIGIN_REPLY, 1000);
    assert_eq!(client, ORIGIN_REPLY.to_vec());
    assert!(stored);
    assert_eq!(proxy.cache().len(), 1);
    assert!(proxy.cache().contains_key(REQUEST));
}

#[test]
fn fresh_hit_is_served_from_cache() {
    let mut proxy = Proxy::new(true);
    let ex = forward(proxy.route_request(REQUEST, 1000).unwrap());
    exchange_with_origin(&mut proxy, ex, ORIGIN_REPLY, 1000);
    match proxy.route_request(REQUEST, 1059).unwrap() {
        Route::Cached(bytes) => assert_eq!(bytes, ORIGIN_REPLY.to_vec()),
        Route::Forward(_) => panic!("the origin must not be contacted"),
    }
}

#[test]
fn stale_entry_is_revalidated_and_kept_on_304() {
    let mut proxy = Proxy::new(true);
    let ex = forward(proxy.route_request(REQUEST, 1000).unwrap());
    exchange_with_origin(&mut proxy, ex, ORIGIN_REPLY, 1000);
    let ex = forward(proxy.route_request(REQUEST, 1061).unwrap());
    assert_eq!(
        ex.outgoing,
        b"GET /a HTTP/1.1\r\nHost: example.com\r\nIf-Modified-Since: D1\r\n\r\n".to_vec()
    );
    assert_eq!(ex.key, REQUEST.to_vec());
    match proxy.on_response(&ex, b"HTTP/1.1 304 Not Modified\r\n\r\n").unwrap() {
        Reply::Cached(bytes) => assert_eq!(bytes, ORIGIN_REPLY.to_vec()),
        Reply::Stream(_) => panic!("expected the cached copy"),
    }
    assert!(proxy.cache().contains_key(REQUEST));
    assert_eq!(proxy.cache().len(), 1);
}

#[test]
fn stale_entry_replaced_by_new_response() {
    let mut proxy = Proxy::new(true);
    let ex = forward(proxy.route_request(REQUEST, 1000).unwrap());
    exchange_with_origin(&mut proxy, ex, ORIGIN_REPLY, 1000);
    let ex = forward(proxy.route_request(REQUEST, 1100).unwrap());
    let newer: &[u8] = b"HTTP/1.1 200 OK\r\nDate: D2\r\nContent-Length: 3\r\n\r\nnew";
    let (client, stored) = exchange_with_origin(&mut proxy, ex, newer, 1100);
    assert_eq!(client, newer.to_vec());
    assert!(stored);
    match proxy.route_request(REQUEST, 5000).unwrap() {
        Route::Cached(bytes) => assert_eq!(bytes, newer.to_vec()),
        Route::Forward(_) => panic!("a record without lifetime stays fresh"),
    }
}

#[test]
fn no_store_response_is_not_cached() {
    let mut proxy = Proxy::new(true);
    let ex = forward(proxy.route_request(REQUEST, 0).unwrap());
    let reply: &[u8] =
        b"HTTP/1.1 200 OK\r\nDate: D1\r\nCache-Control: no-store\r\nContent-Length: 5\r\n\r\nhello";
    let (client, stored) = exchange_with_origin(&mut proxy, ex, reply, 0);
    assert_eq!(client, reply.to_vec());
    assert!(!stored);
    assert_eq!(proxy.cache().len(), 0);
}

#[test]
fn oversized_response_is_not_cached() {
    let mut proxy = Proxy::new(true);
    let ex = forward(proxy.route_request(REQUEST, 0).unwrap());
    let body_len = 150_000;
    let mut reply =
        format!("HTTP/1.1 200 OK\r\nDate: D1\r\nContent-Length: {}\r\n\r\n", body_len).into_bytes();
    reply.extend(std::iter::repeat(b'x').take(body_len));
    let (client, stored) = exchange_with_origin(&mut proxy, ex, &reply, 0);
    assert_eq!(client, reply);
    assert!(!stored);
    assert_eq!(proxy.cache().len(), 0);
}

#[test]
fn caching_disabled_forwards_everything() {
    let mut proxy = Proxy::new(false);
    let ex = forward(proxy.route_request(REQUEST, 0).unwrap());
    let (_, stored) = exchange_with_origin(&mut proxy, ex, ORIGIN_REPLY, 0);
    assert!(!stored);
    assert!(!proxy.does_cache());
    let ex = forward(proxy.route_request(REQUEST, 1).unwrap());
    assert!(ex.stale.is_none());
}

#[test]
fn miss_on_full_cache_evicts_first() {
    let mut proxy = Proxy::new(true);
    for i in 0..10 {
        let req = format!("GET /{} HTTP/1.1\r\nHost: example.com\r\n\r\n", i).into_bytes();
        let ex = forward(proxy.route_request(&req, 0).unwrap());
        exchange_with_origin(&mut proxy, ex, ORIGIN_REPLY, 0);
    }
    assert_eq!(proxy.cache().len(), 10);
    let first = b"GET /0 HTTP/1.1\r\nHost: example.com\r\n\r\n";
    let ex = forward(proxy.route_request(REQUEST, 0).unwrap());
    assert_eq!(proxy.cache().len(), 9);
    assert!(!proxy.cache().contains_key(first));
    exchange_with_origin(&mut proxy, ex, ORIGIN_REPLY, 0);
    assert_eq!(proxy.cache().len(), 10);
}

#[test]
fn long_request_bypasses_cache() {
    let mut proxy = Proxy::new(true);
    let req = format!("GET /{} HTTP/1.1\r\nHost: example.com\r\n\r\n", "a".repeat(2000)).into_bytes();
    let ex = forward(proxy.route_request(&req, 0).unwrap());
    let (_, stored) = exchange_with_origin(&mut proxy, ex, ORIGIN_REPLY, 0);
    assert!(!stored);
}

#[test]
fn request_errors_are_reported() {
    let mut proxy = Proxy::new(true);
    assert!(matches!(
        proxy.route_request(b"GET /a HTTP/1.1\r\nAccept: x\r\n\r\n", 0),
        Err(ProxyError::MissingHostHeader)
    ));
    assert!(matches!(
        proxy.route_request(b"GET\r\nHost: x\r\n\r\n", 0),
        Err(ProxyError::MalformedRequestLine)
    ));
}

#[test]
fn response_errors_are_reported() {
    let mut proxy = Proxy::new(true);
    let ex = forward(proxy.route_request(REQUEST, 0).unwrap());
    assert!(matches!(
        proxy.on_response(&ex, b"HTTP/1.1 200 OK\r\nDate: D1\r\n\r\n"),
        Err(ProxyError::MissingContentLength)
    ));
    assert!(matches!(
        proxy.on_response(&ex, b"HTTP/1.1 200 OK\r\nContent-Length: 5x\r\n\r\n"),
        Err(ProxyError::InvalidContentLength)
    ));
    assert!(matches!(
        proxy.on_response(&ex, b"HTTP/1.1 200 OK\r\nContent-Length: 1\r\nCache-Control: \"a\\\r\n\r\n"),
        Err(ProxyError::DanglingEscape)
    ));
    assert!(matches!(
        proxy.on_response(&ex, b"HTTP/1.1 304 Not Modified\r\n\r\n"),
        Err(ProxyError::MissingContentLength)
    ));
}

#[test]
fn cacheable_response_without_date_is_refused() {
    let mut proxy = Proxy::new(true);
    let ex = forward(proxy.route_request(REQUEST, 0).unwrap());
    let plan = stream_plan(
        proxy.on_response(&ex, b"HTTP/1.1 200 OK\r\nContent-Length: 0\r\n\r\n").unwrap(),
    );
    assert_eq!(plan.content_length, 0);
    assert!(plan.allow_cache);
    assert!(plan.date.is_none());
    let r = proxy.update_cache(ex, &plan, b"HTTP/1.1 200 OK\r\nContent-Length: 0\r\n\r\n".to_vec(), 0);
    assert!(matches!(r, Err(ProxyError::MissingDateHeader)));
}

#[test]
fn plan_reads_lifetime_only_when_cacheable() {
    let mut proxy = Proxy::new(true);
    let ex = forward(proxy.route_request(REQUEST, 0).unwrap());
    let plan = stream_plan(
        proxy
            .on_response(
                &ex,
                b"HTTP/1.1 200 OK\r\nContent-Length: +12\r\nCache-Control: max-age=30\r\nDate: D\r\n\r\n",
            )
            .unwrap(),
    );
    assert_eq!(plan.content_length, 12);
    assert_eq!(plan.expiry, Some(30));
    assert_eq!(plan.date, Some(b"D".to_vec()));
    let plan = stream_plan(
        proxy
            .on_response(
                &ex,
                b"HTTP/1.1 200 OK\r\nContent-Length: 1\r\nCache-Control: private, max-age=30\r\n\r\n",
            )
            .unwrap(),
    );
    assert!(!plan.allow_cache);
    assert_eq!(plan.expiry, None);
}

#[test]
fn revalidating_an_entry_already_removed_is_reported() {
    let mut proxy = Proxy::new(true);
    let ex = forward(proxy.route_request(REQUEST, 1000).unwrap());
    exchange_with_origin(&mut proxy, ex, ORIGIN_REPLY, 1000);
    let first = forward(proxy.route_request(REQUEST, 1100).unwrap());
    let second = forward(proxy.route_request(REQUEST, 1100).unwrap());
    assert!(first.stale.is_some() && second.stale.is_some());
    let reply: &[u8] =
        b"HTTP/1.1 200 OK\r\nDate: D2\r\nCache-Control: no-store\r\nContent-Length: 2\r\n\r\nok";
    let (_, stored) = exchange_with_origin(&mut proxy, first, reply, 1100);
    assert!(!stored);
    assert_eq!(proxy.cache().len(), 0);
    let plan = stream_plan(proxy.on_response(&second, reply).unwrap());
    let r = proxy.update_cache(second, &plan, reply.to_vec(), 1100);
    assert!(matches!(r, Err(ProxyError::KeyNotTracked)));
}
