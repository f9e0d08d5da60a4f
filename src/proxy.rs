//! The decisions of the proxy for one client connection: consult the cache,
//! build the request for the origin, judge the origin's response, and update
//! the cache. The caller performs the network I/O between these steps.
use vstd::prelude::*;
use vstd::string::StringSliceAdditionalSpecFns;
use crate::bytes::{bytes_eq, decimal_value, lemma_split_on_len, parse_decimal, to_vec};
use crate::cache::{
    evict_if_full, inserted, lookup, removed, touched, Cache, CacheRecord, CacheRecordView,
    CacheView, CACHE_MAX,
};
use crate::error::ProxyError;
use crate::header_map::{colon_space, crlf, field_value, lemma_line_end, line_end};
use crate::headers::{allows_caching, append_header, directives, max_age_of, CacheControlHeader};
use crate::request::{host_name, parse_request, Request, RequestView};
use crate::response::{parse_response, Response};

verus! {

/// Requests whose header block is this long or longer are not cached.
pub const REQUEST_CACHE_LENGTH: usize = 2000;

/// Responses of more than this many bytes (header and body) are not cached.
pub const RESPONSE_CACHE_LENGTH: usize = 100000;

pub open spec fn if_modified_since_name() -> Seq<u8> {
    "If-Modified-Since".spec_bytes()
}

pub open spec fn content_length_name() -> Seq<u8> {
    "content-length".spec_bytes()
}

pub open spec fn cache_control_name() -> Seq<u8> {
    "cache-control".spec_bytes()
}

pub open spec fn date_name() -> Seq<u8> {
    "date".spec_bytes()
}

/// The status code of a response that confirms a cached copy.
pub open spec fn not_modified_code() -> Seq<u8> {
    "304".spec_bytes()
}

/// The request block `key` with an `If-Modified-Since: date` field inserted
/// before its final empty line.
pub open spec fn revalidation_request(key: Seq<u8>, date: Seq<u8>) -> Seq<u8> {
    key.subrange(0, key.len() - 2) + if_modified_since_name() + colon_space() + date + crlf()
        + crlf()
}

pub struct ExchangeView {
    pub key: Seq<u8>,
    pub request: RequestView,
    pub host: Seq<u8>,
    pub outgoing: Seq<u8>,
    pub stale: Option<CacheRecordView>,
}

/// A request that must go to the origin: the client's header block as it
/// arrived (the cache key), the parsed request, the origin host, the bytes
/// to send to the origin, and the stale record being revalidated, if any.
pub struct Exchange {
    pub key: Vec<u8>,
    pub request: Request,
    pub host: Vec<u8>,
    pub outgoing: Vec<u8>,
    pub stale: Option<CacheRecord>,
}

pub open spec fn record_opt_view(r: Option<CacheRecord>) -> Option<CacheRecordView> {
    match r {
        Some(x) => Some(x@),
        None => None,
    }
}

impl View for Exchange {
    type V = ExchangeView;

    open spec fn view(&self) -> ExchangeView {
        ExchangeView {
            key: self.key@,
            request: self.request@,
            host: self.host@,
            outgoing: self.outgoing@,
            stale: record_opt_view(self.stale),
        }
    }
}

/// Where a client request goes.
pub enum Route {
    /// Serve these bytes to the client and close; the origin is not contacted.
    Cached(Vec<u8>),
    /// Contact the origin.
    Forward(Exchange),
}

pub struct ResponsePlanView {
    pub content_length: nat,
    pub allow_cache: bool,
    pub expiry: Option<u32>,
    pub date: Option<Seq<u8>>,
}

/// What the proxy takes from a response head that it forwards: how many body
/// bytes follow, whether the response may be cached and for how long, and
/// its `date` header.
pub struct ResponsePlan {
    pub content_length: usize,
    pub allow_cache: bool,
    pub expiry: Option<u32>,
    pub date: Option<Vec<u8>>,
}

impl View for ResponsePlan {
    type V = ResponsePlanView;

    open spec fn view(&self) -> ResponsePlanView {
        ResponsePlanView {
            content_length: self.content_length as nat,
            allow_cache: self.allow_cache,
            expiry: self.expiry,
            date: match self.date {
                Some(d) => Some(d@),
                None => None,
            },
        }
    }
}

/// What to do with the origin's response.
pub enum Reply {
    /// Serve the cached bytes to the client and close both connections.
    Cached(Vec<u8>),
    /// Forward the response head and then its body to the client.
    Stream(ResponsePlan),
}

/// The plan for a forwarded response with these header fields: it needs a
/// `content-length`; a `cache-control` value decides cacheability and, when
/// caching is allowed, the lifetime.
pub open spec fn plan_of(headers: Seq<(Seq<u8>, Seq<u8>)>) -> Result<ResponsePlanView, ProxyError> {
    match field_value(headers, content_length_name()) {
        None => Err(ProxyError::MissingContentLength),
        Some(cl) => match decimal_value(cl) {
            None => Err(ProxyError::InvalidContentLength),
            Some(n) => if n > usize::MAX {
                Err(ProxyError::InvalidContentLength)
            } else {
                let date = field_value(headers, date_name());
                match field_value(headers, cache_control_name()) {
                    None => Ok(
                        ResponsePlanView { content_length: n, allow_cache: true, expiry: None, date },
                    ),
                    Some(cc) => match directives(cc) {
                        None => Err(ProxyError::DanglingEscape),
                        Some(w) => Ok(
                            ResponsePlanView {
                                content_length: n,
                                allow_cache: allows_caching(w),
                                expiry: if allows_caching(w) {
                                    max_age_of(w)
                                } else {
                                    None
                                },
                                date,
                            },
                        ),
                    },
                }
            },
        },
    }
}

pub struct ProxyView {
    pub does_cache: bool,
    pub cache: CacheView,
}

/// The proxy's lasting state: whether it caches, and the cache.
pub struct Proxy {
    does_cache: bool,
    cache: Cache,
}

impl View for Proxy {
    type V = ProxyView;

    closed spec fn view(&self) -> ProxyView {
        ProxyView { does_cache: self.does_cache, cache: self.cache@ }
    }
}

/// A request whose header block may be looked up in and stored in the cache.
pub open spec fn request_cacheable(p: ProxyView, key: Seq<u8>) -> bool {
    p.does_cache && key.len() < REQUEST_CACHE_LENGTH
}

/// The exchange for a request that goes to the origin unchanged.
pub open spec fn plain_exchange(key: Seq<u8>, req: RequestView, host: Seq<u8>) -> ExchangeView {
    ExchangeView { key, request: req, host, outgoing: key, stale: None }
}

fn literal_bytes(which: u8) -> (r: &'static [u8])
    requires
        which < 5,
    ensures
        which == 0 ==> r@ == if_modified_since_name(),
        which == 1 ==> r@ == content_length_name(),
        which == 2 ==> r@ == cache_control_name(),
        which == 3 ==> r@ == date_name(),
        which == 4 ==> r@ == not_modified_code(),
{
    if which == 0 {
        "If-Modified-Since".as_bytes()
    } else if which == 1 {
        "content-length".as_bytes()
    } else if which == 2 {
        "cache-control".as_bytes()
    } else if which == 3 {
        "date".as_bytes()
    } else {
        "304".as_bytes()
    }
}

impl Proxy {
    pub closed spec fn wf(&self) -> bool {
        self.cache.wf()
    }

    pub fn new(does_cache: bool) -> (r: Proxy)
        ensures
            r.wf(),
            r@.does_cache == does_cache,
            r@.cache == crate::cache::empty_cache(),
    {
        Proxy { does_cache, cache: Cache::new() }
    }

    pub fn does_cache(&self) -> (r: bool)
        ensures
            r == self@.does_cache,
    {
        self.does_cache
    }

    /// The cache.
    pub fn cache(&self) -> (r: &Cache)
        requires
            self.wf(),
        ensures
            r.wf(),
            r@ == self@.cache,
    {
        &self.cache
    }

    /// Decides where the request with header block `header_block`, received
    /// at time `now`, goes. A fresh cached copy is served; a stale one is
    /// revalidated with `If-Modified-Since`; on a miss a full cache first
    /// evicts its least recently used record.
    pub fn route_request(&mut self, header_block: &[u8], now: u64) -> (r: Result<Route, ProxyError>)
        requires
            old(self).wf(),
        ensures
            final(self).wf(),
            final(self)@.does_cache == old(self)@.does_cache,
            match parse_request(header_block@) {
                Err(e) => r == Err::<Route, ProxyError>(e) && final(self)@ == old(self)@,
                Ok(req) => match field_value(req.headers, host_name()) {
                    None => r == Err::<Route, ProxyError>(ProxyError::MissingHostHeader)
                        && final(self)@ == old(self)@,
                    Some(host) => if !request_cacheable(old(self)@, header_block@) {
                        (r matches Ok(Route::Forward(ex)) && ex@ == plain_exchange(
                            header_block@,
                            req,
                            host,
                        )) && final(self)@ == old(self)@
                    } else {
                        match lookup(old(self)@.cache, header_block@, now) {
                            Some((rec, false)) => (r matches Ok(Route::Cached(b)) && b@
                                == rec.response) && final(self)@.cache == touched(
                                old(self)@.cache,
                                header_block@,
                            ),
                            Some((rec, true)) => (r matches Ok(Route::Forward(ex)) && ex@
                                == ExchangeView {
                                outgoing: revalidation_request(header_block@, rec.date),
                                stale: Some(rec),
                                ..plain_exchange(header_block@, req, host)
                            }) && final(self)@ == old(self)@,
                            None => (r matches Ok(Route::Forward(ex)) && ex@ == plain_exchange(
                                header_block@,
                                req,
                                host,
                            )) && final(self)@.cache == evict_if_full(old(self)@.cache),
                        }
                    },
                },
            },
    {
        let request = match Request::from_string(header_block) {
            Ok(q) => q,
            Err(e) => {
                return Err(e);
            },
        };
        let host = match request.get_host() {
            Ok(h) => h,
            Err(e) => {
                return Err(e);
            },
        };
        let key = to_vec(header_block);
        if !(self.does_cache && header_block.len() < REQUEST_CACHE_LENGTH) {
            let outgoing = to_vec(header_block);
            return Ok(Route::Forward(Exchange { key, request, host, outgoing, stale: None }));
        }
        match self.cache.get(header_block, now) {
            Some((record, false)) => Ok(Route::Cached(record.response)),
            Some((record, true)) => {
                proof {
                    let end = line_end(header_block@, 0);
                    lemma_line_end(header_block@, 0);
                    lemma_split_on_len(header_block@.subrange(0, end), 32u8);
                }
                let outgoing = append_header(
                    to_vec(header_block),
                    literal_bytes(0),
                    record.date.as_slice(),
                );
                Ok(Route::Forward(Exchange { key, request, host, outgoing, stale: Some(record) }))
            },
            None => {
                if self.cache.is_full() {
                    match self.cache.remove_lru_cache() {
                        Ok(_) => {},
                        Err(e) => {
                            return Err(e);
                        },
                    }
                }
                let outgoing = to_vec(header_block);
                Ok(Route::Forward(Exchange { key, request, host, outgoing, stale: None }))
            },
        }
    }

    /// Reads the response plan from a response's header fields.
    fn plan_response(response: &Response) -> (r: Result<ResponsePlan, ProxyError>)
        ensures
            match plan_of(response@.headers) {
                Ok(p) => r matches Ok(x) && x@ == p,
                Err(e) => r == Err::<ResponsePlan, ProxyError>(e),
            },
    {
        let cl = match response.headers.get(literal_bytes(1)) {
            Some(v) => v,
            None => {
                return Err(ProxyError::MissingContentLength);
            },
        };
        let content_length = match parse_decimal(cl.as_slice(), usize::MAX as u64) {
            Some(n) => n as usize,
            None => {
                return Err(ProxyError::InvalidContentLength);
            },
        };
        let date = response.headers.get(literal_bytes(3));
        match response.headers.get(literal_bytes(2)) {
            None => Ok(ResponsePlan { content_length, allow_cache: true, expiry: None, date }),
            Some(cc) => {
                let cache_control = match CacheControlHeader::new(cc.as_slice()) {
                    Ok(h) => h,
                    Err(e) => {
                        return Err(e);
                    },
                };
                let allow_cache = cache_control.should_cache();
                let expiry = if allow_cache {
                    cache_control.cache_expire()
                } else {
                    None
                };
                Ok(ResponsePlan { content_length, allow_cache, expiry, date })
            },
        }
    }

    /// Judges the origin's response head for `exchange`. A `304` that
    /// confirms a stale record serves that record; otherwise the response
    /// is forwarded under the plan read from its header fields.
    pub fn on_response(&self, exchange: &Exchange, response_block: &[u8]) -> (r: Result<
        Reply,
        ProxyError,
    >)
        ensures
            match parse_response(response_block@) {
                Err(e) => r == Err::<Reply, ProxyError>(e),
                Ok(resp) => if self@.does_cache && resp.status_code == not_modified_code()
                    && exchange@.stale is Some {
                    r matches Ok(Reply::Cached(b)) && b@ == exchange@.stale.unwrap().response
                } else {
                    match plan_of(resp.headers) {
                        Ok(p) => r matches Ok(Reply::Stream(x)) && x@ == p,
                        Err(e) => r == Err::<Reply, ProxyError>(e),
                    }
                },
            },
    {
        let response = match Response::from_string(response_block) {
            Ok(x) => x,
            Err(e) => {
                return Err(e);
            },
        };
        if self.does_cache && bytes_eq(response.status_code.as_slice(), literal_bytes(4)) {
            match &exchange.stale {
                Some(record) => {
                    return Ok(Reply::Cached(to_vec(record.response.as_slice())));
                },
                None => {},
            }
        }
        match Self::plan_response(&response) {
            Ok(p) => Ok(Reply::Stream(p)),
            Err(e) => Err(e),
        }
    }

    /// Updates the cache once `exchange`'s response, captured as
    /// `response_data`, has been forwarded under `plan`, at time `now`. A
    /// stale record that was revalidated is removed first. The response is
    /// stored when caching is on, the request block is shorter than
    /// `REQUEST_CACHE_LENGTH`, the response is at most
    /// `RESPONSE_CACHE_LENGTH` bytes and the plan allows caching; such a
    /// response must carry a `date`. True when a record was stored.
    pub fn update_cache(
        &mut self,
        exchange: Exchange,
        plan: &ResponsePlan,
        response_data: Vec<u8>,
        now: u64,
    ) -> (r: Result<bool, ProxyError>)
        requires
            old(self).wf(),
        ensures
            final(self).wf(),
            final(self)@.does_cache == old(self)@.does_cache,
            ({
                let c0 = old(self)@.cache;
                let key = exchange@.key;
                let c1 = if exchange@.stale is Some {
                    removed(c0, key)
                } else {
                    c0
                };
                let eligible = old(self)@.does_cache && key.len() < REQUEST_CACHE_LENGTH
                    && response_data@.len() <= RESPONSE_CACHE_LENGTH && plan@.allow_cache;
                if exchange@.stale is Some && !c0.order.contains(key) {
                    r == Err::<bool, ProxyError>(ProxyError::KeyNotTracked) && final(self)@
                        == old(self)@
                } else if !eligible {
                    r == Ok::<bool, ProxyError>(false) && final(self)@.cache == c1
                } else if plan@.date is None {
                    r == Err::<bool, ProxyError>(ProxyError::MissingDateHeader)
                        && final(self)@.cache == c1
                } else if c1.order.len() == CACHE_MAX {
                    r == Err::<bool, ProxyError>(ProxyError::CacheFull) && final(self)@.cache == c1
                } else {
                    r == Ok::<bool, ProxyError>(true) && final(self)@.cache == inserted(
                        c1,
                        key,
                        CacheRecordView {
                            request: exchange@.request,
                            response: response_data@,
                            time_now: now,
                            expiry_secs: plan@.expiry,
                            date: plan@.date.unwrap(),
                        },
                    )
                }
            }),
    {
        let Exchange { key, request, host: _, outgoing: _, stale } = exchange;
        if stale.is_some() {
            match self.cache.remove_cache(key.as_slice()) {
                Ok(_) => {},
                Err(e) => {
                    return Err(e);
                },
            }
        }
        if !(self.does_cache && key.len() < REQUEST_CACHE_LENGTH && response_data.len()
            <= RESPONSE_CACHE_LENGTH && plan.allow_cache) {
            return Ok(false);
        }
        let date = match &plan.date {
            Some(d) => to_vec(d.as_slice()),
            None => {
                return Err(ProxyError::MissingDateHeader);
            },
        };
        match self.cache.add_cache(key, request, response_data, plan.expiry, date, now) {
            Ok(()) => Ok(true),
            Err(e) => Err(e),
        }
    }
}

} // verus!
