//! Incremental reading of an HTTP message from a byte stream. The caller
//! reads the stream and hands the bytes over; the reader finds the lines,
//! bounds the header size and keeps a copy of the message.
use vstd::prelude::*;
use crate::bytes::{find, find_from, lemma_find_from, slice_to_vec, to_vec};
use crate::error::ProxyError;
use crate::header_map::{crlf, crlf_bytes};
use crate::request::{parse_request, Request};
use crate::response::{parse_response, Response};
use crate::bytes::bytes_eq;

verus! {

/// How many bytes one read of the stream asks for.
pub const READ_BUFFER_SIZE: usize = 1024;

/// The most bytes a header block may take before it is refused.
pub const MAX_HEADER_SIZE: usize = 8192;

/// Moves complete lines from `buf` to the end of `data` until the empty line
/// that ends a header block. Gives whether that line was reached, then what
/// is left of `buf` and what `data` has become. More than `MAX_HEADER_SIZE`
/// bytes in `buf` before a line is taken, or in `data` after a non-empty line
/// is added, is an error.
pub open spec fn take_lines(buf: Seq<u8>, data: Seq<u8>) -> Result<
    (bool, Seq<u8>, Seq<u8>),
    ProxyError,
>
    decreases buf.len(),
{
    if buf.len() > MAX_HEADER_SIZE {
        Err(ProxyError::HeaderTooLarge)
    } else {
        match find_from(buf, crlf(), 0) {
            None => Ok((false, buf, data)),
            Some(k) => {
                proof {
                    lemma_find_from(buf, crlf(), 0);
                }
                let line = buf.subrange(0, k + 2);
                let rest = buf.subrange(k + 2, buf.len() as int);
                if line == crlf() {
                    Ok((true, rest, data + line))
                } else if data.len() + line.len() > MAX_HEADER_SIZE {
                    Err(ProxyError::HeaderTooLarge)
                } else {
                    take_lines(rest, data + line)
                }
            },
        }
    }
}

pub struct HttpParserView {
    /// Bytes received and not yet taken.
    pub buffer: Seq<u8>,
    /// The message taken so far: the header block, then captured body bytes.
    pub data: Seq<u8>,
    /// The length of the header block once it is complete, else zero.
    pub header_length: nat,
}

/// The reading state of one message.
pub struct HttpParser {
    buffer: Vec<u8>,
    data: Vec<u8>,
    header_length: usize,
}

impl View for HttpParser {
    type V = HttpParserView;

    closed spec fn view(&self) -> HttpParserView {
        HttpParserView {
            buffer: self.buffer@,
            data: self.data@,
            header_length: self.header_length as nat,
        }
    }
}

impl HttpParser {
    pub closed spec fn wf(&self) -> bool {
        self.header_length <= self.data@.len()
    }

    pub fn new() -> (r: HttpParser)
        ensures
            r.wf(),
            r@.buffer == Seq::<u8>::empty(),
            r@.data == Seq::<u8>::empty(),
            r@.header_length == 0,
    {
        HttpParser { buffer: Vec::new(), data: Vec::new(), header_length: 0 }
    }

    /// Adds bytes read from the stream. An empty read means the peer closed
    /// the connection.
    pub fn feed(&mut self, chunk: &[u8]) -> (r: Result<(), ProxyError>)
        requires
            old(self).wf(),
        ensures
            final(self).wf(),
            chunk@.len() == 0 ==> r == Err::<(), ProxyError>(ProxyError::ConnectionClosed)
                && final(self)@ == old(self)@,
            chunk@.len() > 0 ==> r is Ok && final(self)@ == (HttpParserView {
                buffer: old(self)@.buffer + chunk@,
                ..old(self)@
            }),
    {
        if chunk.len() == 0 {
            return Err(ProxyError::ConnectionClosed);
        }
        self.buffer.extend_from_slice(chunk);
        assert(self.buffer@ =~= old(self)@.buffer + chunk@);
        Ok(())
    }

    /// Takes one CRLF-terminated line from the buffer, or `None` when the
    /// buffer holds no complete line yet.
    fn read_line(&mut self) -> (r: Result<Option<Vec<u8>>, ProxyError>)
        ensures
            final(self).data == old(self).data,
            final(self).header_length == old(self).header_length,
            old(self).buffer@.len() > MAX_HEADER_SIZE ==> r == Err::<Option<Vec<u8>>, ProxyError>(
                ProxyError::HeaderTooLarge,
            ),
            old(self).buffer@.len() <= MAX_HEADER_SIZE ==> match find_from(
                old(self).buffer@,
                crlf(),
                0,
            ) {
                None => r == Ok::<Option<Vec<u8>>, ProxyError>(None) && final(self).buffer@ == old(
                    self,
                ).buffer@,
                Some(k) => r matches Ok(Some(line)) && line@ == old(self).buffer@.subrange(0, k + 2)
                    && final(self).buffer@ == old(self).buffer@.subrange(
                    k + 2,
                    old(self).buffer@.len() as int,
                ),
            },
    {
        if self.buffer.len() > MAX_HEADER_SIZE {
            return Err(ProxyError::HeaderTooLarge);
        }
        proof {
            lemma_find_from(self.buffer@, crlf(), 0);
        }
        match find(self.buffer.as_slice(), crlf_bytes(), 0) {
            None => Ok(None),
            Some(index) => {
                let line = slice_to_vec(self.buffer.as_slice(), 0, index + 2);
                let rest = slice_to_vec(self.buffer.as_slice(), index + 2, self.buffer.len());
                self.buffer = rest;
                Ok(Some(line))
            },
        }
    }

    /// Takes the lines that the buffer holds into the message, up to the
    /// empty line that ends the header block. True when that line was
    /// reached; false when more bytes are needed.
    pub fn read_header(&mut self) -> (r: Result<bool, ProxyError>)
        requires
            old(self).wf(),
        ensures
            final(self).wf(),
            match take_lines(old(self)@.buffer, old(self)@.data) {
                Err(e) => r == Err::<bool, ProxyError>(e),
                Ok((done, buf, data)) => r == Ok::<bool, ProxyError>(done) && final(self)@.buffer
                    == buf && final(self)@.data == data && final(self)@.header_length == (if done {
                    data.len()
                } else {
                    old(self)@.header_length
                }),
            },
    {
        loop
            invariant
                self.wf(),
                self.header_length == old(self).header_length,
                take_lines(old(self)@.buffer, old(self)@.data) == take_lines(self.buffer@, self.data@),
            decreases self.buffer@.len(),
        {
            let ghost b = self.buffer@;
            let ghost d = self.data@;
            let line = match self.read_line() {
                Err(e) => {
                    return Err(e);
                },
                Ok(None) => {
                    return Ok(false);
                },
                Ok(Some(line)) => line,
            };
            proof {
                lemma_find_from(b, crlf(), 0);
            }
            self.data.extend_from_slice(line.as_slice());
            assert(self.data@ =~= d + line@);
            if bytes_eq(line.as_slice(), crlf_bytes()) {
                self.header_length = self.data.len();
                return Ok(true);
            }
            if self.data.len() > MAX_HEADER_SIZE {
                return Err(ProxyError::HeaderTooLarge);
            }
        }
    }

    /// The header block, once complete.
    pub fn header_lines(&self) -> (r: Vec<u8>)
        requires
            self.wf(),
        ensures
            r@ == self@.data.subrange(0, self@.header_length as int),
    {
        slice_to_vec(self.data.as_slice(), 0, self.header_length)
    }

    /// The message taken so far.
    pub fn data(&self) -> (r: Vec<u8>)
        ensures
            r@ == self@.data,
    {
        to_vec(self.data.as_slice())
    }

    /// Parses the header block as a request.
    pub fn read_request(&self) -> (r: Result<Request, ProxyError>)
        requires
            self.wf(),
        ensures
            match parse_request(self@.data.subrange(0, self@.header_length as int)) {
                Ok(v) => r matches Ok(q) && q@ == v,
                Err(e) => r matches Err(x) && x == e,
            },
    {
        let block = self.header_lines();
        Request::from_string(block.as_slice())
    }

    /// Parses the header block as a response head.
    pub fn read_response_header(&self) -> (r: Result<Response, ProxyError>)
        requires
            self.wf(),
        ensures
            match parse_response(self@.data.subrange(0, self@.header_length as int)) {
                Ok(v) => r matches Ok(q) && q@ == v,
                Err(e) => r matches Err(x) && x == e,
            },
    {
        let block = self.header_lines();
        Response::from_string(block.as_slice())
    }

    /// Hands out the bytes that arrived beyond the header block, adding them
    /// to the message. `None` when there are none and the stream must be
    /// read.
    pub fn read_bytes(&mut self) -> (r: Option<Vec<u8>>)
        requires
            old(self).wf(),
        ensures
            final(self).wf(),
            old(self)@.buffer.len() == 0 ==> r is None && final(self)@ == old(self)@,
            old(self)@.buffer.len() > 0 ==> (r matches Some(b) && b@ == old(self)@.buffer),
            old(self)@.buffer.len() > 0 ==> final(self)@ == (HttpParserView {
                buffer: Seq::empty(),
                data: old(self)@.data + old(self)@.buffer,
                ..old(self)@
            }),
    {
        if self.buffer.len() == 0 {
            return None;
        }
        let result = to_vec(self.buffer.as_slice());
        self.data.extend_from_slice(self.buffer.as_slice());
        self.buffer = Vec::new();
        assert(self.data@ =~= old(self)@.data + old(self)@.buffer);
        assert(self.buffer@ =~= Seq::<u8>::empty());
        Some(result)
    }

    /// Takes body bytes read from the stream, keeping them in the message
    /// only while the message is at most `max_size` bytes long. An empty read
    /// means the peer closed the connection.
    pub fn capture_bytes(&mut self, chunk: &[u8], max_size: usize) -> (r: Result<(), ProxyError>)
        requires
            old(self).wf(),
        ensures
            final(self).wf(),
            final(self)@.buffer == old(self)@.buffer,
            final(self)@.header_length == old(self)@.header_length,
            chunk@.len() == 0 ==> r == Err::<(), ProxyError>(ProxyError::ConnectionClosed)
                && final(self)@.data == old(self)@.data,
            chunk@.len() > 0 ==> r is Ok && final(self)@.data == if old(self)@.data.len()
                <= max_size {
                old(self)@.data + chunk@
            } else {
                old(self)@.data
            },
    {
        if chunk.len() == 0 {
            return Err(ProxyError::ConnectionClosed);
        }
        if self.data.len() <= max_size {
            self.data.extend_from_slice(chunk);
            assert(self.data@ =~= old(self)@.data + chunk@);
        }
        Ok(())
    }
}

} // verus!
