//! A forward HTTP proxy with an optional response cache: an incremental,
//! size-bounded reader of HTTP messages, the parsing of requests, responses
//! and `Cache-Control` directives, a ten-entry LRU cache with lifetimes, and
//! the per-connection decisions that tie them together.
pub mod bytes;
pub mod cache;
pub mod error;
pub mod header_map;
pub mod headers;
pub mod http_parser;
pub mod lru_queue;
pub mod proxy;
pub mod request;
pub mod response;
