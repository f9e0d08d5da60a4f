use http_proxy::error::ProxyError;
use http_proxy::headers::CacheControlHeader;

#[test]
fn tokenizer_keeps_quoted_commas() {
    let tokens =
        CacheControlHeader::cache_control_split(br#"public, max-age=100, "quoted, with, commas""#)
            .unwrap();
    assert_eq!(tokens.len(), 3);
    assert_eq!(tokens[0], b"public".to_vec());
    assert_eq!(tokens[1], b"max-age=100".to_vec());
    assert_eq!(tokens[2], br#""quoted, with, commas""#.to_vec());
}

#[test]
fn escaped_quote_does_not_end_quoting() {
    let tokens = CacheControlHeader::cache_control_split(br#"a="x\", y", b"#).unwrap();
    assert_eq!(tokens.len(), 2);
    assert_eq!(tokens[0], br#"a="x", y""#.to_vec());
    assert_eq!(tokens[1], b"b".to_vec());
}

#[test]
fn backslash_outside_quotes_is_ordinary() {
    let tokens = CacheControlHeader::cache_control_split(br#"a\,b"#).unwrap();
    assert_eq!(tokens, vec![b"a\\".to_vec(), b"b".to_vec()]);
}

#[test]
fn dangling_escape_is_refused() {
    let r = CacheControlHeader::cache_control_split(br#""abc\"#);
    assert!(matches!(r, Err(ProxyError::DanglingEscape)));
    assert!(matches!(CacheControlHeader::new(br#""abc\"#), Err(ProxyError::DanglingEscape)));
}

#[test]
fn tokens_are_trimmed_and_lowercased() {
    let tokens = CacheControlHeader::cache_control_split(b"  Public ,\tMAX-AGE=5 ,  ").unwrap();
    assert_eq!(tokens, vec![b"public".to_vec(), b"max-age=5".to_vec()]);
}

#[test]
fn empty_tokens_between_commas_are_kept() {
    let tokens = CacheControlHeader::cache_control_split(b"a,,b").unwrap();
    assert_eq!(tokens, vec![b"a".to_vec(), Vec::new(), b"b".to_vec()]);
    assert!(CacheControlHeader::cache_control_split(b"").unwrap().is_empty());
}

#[test]
fn should_cache_rejects_disallowed_directives() {
    for v in [
        "private",
        "no-store",
        "no-cache",
        "max-age=0",
        "must-revalidate",
        "proxy-revalidate",
        "public, No-Store",
    ] {
        let h = CacheControlHeader::new(v.as_bytes()).unwrap();
        assert!(!h.should_cache(), "{}", v);
    }
    let h = CacheControlHeader::new(b"public, max-age=60").unwrap();
    assert!(h.should_cache());
}

#[test]
fn should_cache_matches_substrings() {
    let h = CacheControlHeader::new(b"max-age=0123").unwrap();
    assert!(!h.should_cache());
    let h = CacheControlHeader::new(b"x-private-ext").unwrap();
    assert!(!h.should_cache());
}

#[test]
fn cache_expire_reads_first_max_age() {
    let h = CacheControlHeader::new(b"public, max-age=60, max-age=5").unwrap();
    assert_eq!(h.cache_expire(), Some(60));
    let h = CacheControlHeader::new(b"public").unwrap();
    assert_eq!(h.cache_expire(), None);
    let h = CacheControlHeader::new(b"max-age=+7").unwrap();
    assert_eq!(h.cache_expire(), Some(7));
    let h = CacheControlHeader::new(b"max-age=4294967295").unwrap();
    assert_eq!(h.cache_expire(), Some(4294967295));
}

#[test]
fn cache_expire_stops_at_first_match_even_if_invalid() {
    let h = CacheControlHeader::new(b"max-age=abc, max-age=5").unwrap();
    assert_eq!(h.cache_expire(), None);
    let h = CacheControlHeader::new(b"max-age=4294967296").unwrap();
    assert_eq!(h.cache_expire(), None);
    let h = CacheControlHeader::new(b"s-max-age=5, max-age=9").unwrap();
    assert_eq!(h.cache_expire(), None);
}

#[test]
fn words_returns_tokens() {
    let h = CacheControlHeader::new(b"A, B").unwrap();
    assert_eq!(h.words(), vec![b"a".to_vec(), b"b".to_vec()]);
}
