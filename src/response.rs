//! Origin responses.
use vstd::prelude::*;
use crate::bytes::{find, split_on, split_on_byte, to_vec, views};
use crate::error::ProxyError;
use crate::header_map::{
    crlf_bytes, header_fields, lemma_line_end, line_end, parse_header_fields, HeaderMap,
};

verus! {

pub struct ResponseView {
    pub status_code: Seq<u8>,
    pub headers: Seq<(Seq<u8>, Seq<u8>)>,
}

/// A parsed response head: its status code and its header fields (names
/// lowercased).
pub struct Response {
    pub status_code: Vec<u8>,
    pub headers: HeaderMap,
}

impl View for Response {
    type V = ResponseView;

    open spec fn view(&self) -> ResponseView {
        ResponseView { status_code: self.status_code@, headers: self.headers@ }
    }
}

/// What a response header block parses to: the status code is the second
/// space-separated part of the status line; the header lines follow up to the
/// first empty line.
pub open spec fn parse_response(s: Seq<u8>) -> Result<ResponseView, ProxyError> {
    let end = line_end(s, 0);
    let parts = split_on(s.subrange(0, end), 32u8);
    if parts.len() < 2 {
        Err(ProxyError::MalformedResponseLine)
    } else if end >= s.len() {
        Ok(ResponseView { status_code: parts[1], headers: Seq::empty() })
    } else {
        match header_fields(s, end + 2) {
            Some(f) => Ok(ResponseView { status_code: parts[1], headers: f }),
            None => Err(ProxyError::MalformedHeaderLine),
        }
    }
}

impl Response {
    /// Parses a response header block.
    pub fn from_string(response: &[u8]) -> (r: Result<Response, ProxyError>)
        ensures
            match parse_response(response@) {
                Ok(v) => r matches Ok(q) && q@ == v,
                Err(e) => r matches Err(x) && x == e,
            },
    {
        proof {
            lemma_line_end(response@, 0);
        }
        let end: usize = match find(response, crlf_bytes(), 0) {
            Some(k) => k,
            None => response.len(),
        };
        let mut first: Vec<u8> = Vec::new();
        let mut i: usize = 0;
        while i < end
            invariant
                i <= end <= response@.len(),
                first@ == response@.subrange(0, i as int),
            decreases end - i,
        {
            first.push(response[i]);
            assert(first@ =~= response@.subrange(0, i + 1));
            i = i + 1;
        }
        let parts = split_on_byte(first.as_slice(), 32u8);
        assert(views(parts@).len() == parts@.len());
        if parts.len() < 2 {
            return Err(ProxyError::MalformedResponseLine);
        }
        assert(views(parts@)[1] == parts@[1]@);
        let status_code = to_vec(parts[1].as_slice());
        if end >= response.len() {
            return Ok(Response { status_code, headers: HeaderMap::new() });
        }
        match parse_header_fields(response, end + 2) {
            Ok(headers) => Ok(Response { status_code, headers }),
            Err(e) => Err(e),
        }
    }
}

} // verus!
