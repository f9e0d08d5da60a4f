//! Client requests.
use vstd::prelude::*;
use crate::bytes::{split_on, split_on_byte, to_vec, views};
use crate::error::ProxyError;
use crate::header_map::{
    crlf_bytes, field_value, header_fields, lemma_line_end, line_end, parse_header_fields,
    HeaderMap,
};
use crate::bytes::find;

verus! {

/// The name of the header that names the origin host.
pub open spec fn host_name() -> Seq<u8> {
    seq![104u8, 111u8, 115u8, 116u8]
}

fn host_name_bytes() -> (r: &'static [u8])
    ensures
        r@ == host_name(),
{
    proof {
        reveal_strlit("host");
        vstd::string::is_ascii_spec_bytes("host");
    }
    "host".as_bytes()
}

pub struct RequestView {
    pub url: Seq<u8>,
    pub headers: Seq<(Seq<u8>, Seq<u8>)>,
}

/// A parsed request: its URL and its header fields (names lowercased).
pub struct Request {
    pub url: Vec<u8>,
    pub headers: HeaderMap,
}

impl View for Request {
    type V = RequestView;

    open spec fn view(&self) -> RequestView {
        RequestView { url: self.url@, headers: self.headers@ }
    }
}

/// What a request header block parses to: the request line must have exactly
/// three space-separated parts (method, URL, version); the header lines follow
/// up to the first empty line.
pub open spec fn parse_request(s: Seq<u8>) -> Result<RequestView, ProxyError> {
    let end = line_end(s, 0);
    let parts = split_on(s.subrange(0, end), 32u8);
    if parts.len() != 3 {
        Err(ProxyError::MalformedRequestLine)
    } else if end >= s.len() {
        Ok(RequestView { url: parts[1], headers: Seq::empty() })
    } else {
        match header_fields(s, end + 2) {
            Some(f) => Ok(RequestView { url: parts[1], headers: f }),
            None => Err(ProxyError::MalformedHeaderLine),
        }
    }
}

impl Request {
    /// The value of the `host` header.
    pub fn get_host(&self) -> (r: Result<Vec<u8>, ProxyError>)
        ensures
            match field_value(self.headers@, host_name()) {
                Some(h) => r matches Ok(v) && v@ == h,
                None => r == Err::<Vec<u8>, ProxyError>(ProxyError::MissingHostHeader),
            },
    {
        match self.headers.get(host_name_bytes()) {
            Some(v) => Ok(v),
            None => Err(ProxyError::MissingHostHeader),
        }
    }

    /// Parses a request header block.
    pub fn from_string(request: &[u8]) -> (r: Result<Request, ProxyError>)
        ensures
            match parse_request(request@) {
                Ok(v) => r matches Ok(q) && q@ == v,
                Err(e) => r matches Err(x) && x == e,
            },
    {
        proof {
            lemma_line_end(request@, 0);
        }
        let end: usize = match find(request, crlf_bytes(), 0) {
            Some(k) => k,
            None => request.len(),
        };
        let mut first: Vec<u8> = Vec::new();
        let mut i: usize = 0;
        while i < end
            invariant
                i <= end <= request@.len(),
                first@ == request@.subrange(0, i as int),
            decreases end - i,
        {
            first.push(request[i]);
            assert(first@ =~= request@.subrange(0, i + 1));
            i = i + 1;
        }
        let parts = split_on_byte(first.as_slice(), 32u8);
        assert(views(parts@).len() == parts@.len());
        if parts.len() != 3 {
            return Err(ProxyError::MalformedRequestLine);
        }
        assert(views(parts@)[1] == parts@[1]@);
        let url = to_vec(parts[1].as_slice());
        if end >= request.len() {
            return Ok(Request { url, headers: HeaderMap::new() });
        }
        match parse_header_fields(request, end + 2) {
            Ok(headers) => Ok(Request { url, headers }),
            Err(e) => Err(e),
        }
    }

    /// An independent copy.
    pub fn copy(&self) -> (r: Request)
        ensures
            r@ == self@,
    {
        Request { url: to_vec(self.url.as_slice()), headers: self.headers.copy() }
    }
}

} // verus!
