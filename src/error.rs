//! Failures that end the handling of one connection.
use vstd::prelude::*;

verus! {

/// Why one exchange was abandoned. None of these ends the process.
#[derive(Debug, Clone, Copy, PartialEq, Eq, Structural)]
pub enum ProxyError {
    /// The peer closed the connection before the message was complete.
    ConnectionClosed,
    /// More than 8192 bytes arrived without completing the header block.
    HeaderTooLarge,
    /// The request line does not have exactly three space-separated parts.
    MalformedRequestLine,
    /// The status line has no status code.
    MalformedResponseLine,
    /// A header line has no `": "` separator.
    MalformedHeaderLine,
    /// The request has no `host` header.
    MissingHostHeader,
    /// The response has no `content-length` header.
    MissingContentLength,
    /// The `content-length` header is not an unsigned decimal number.
    InvalidContentLength,
    /// A cacheable response has no `date` header.
    MissingDateHeader,
    /// A `cache-control` value ends inside an escape (a lone trailing backslash
    /// within quotes).
    DanglingEscape,
    /// An insertion was attempted on a cache that is at capacity.
    CacheFull,
    /// An eviction was attempted on an empty cache.
    CacheEmpty,
    /// A removal named a key that the cache does not track.
    KeyNotTracked,
    /// The recency order names a key that the cache does not hold.
    CacheInvariantViolation,
}

} // verus!
