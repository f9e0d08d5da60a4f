//! Header fields of one HTTP message and the parsing of header lines.
use vstd::prelude::*;
use crate::bytes::{
    bytes_eq, find, find_from, lemma_find_from, lower, slice_to_vec, to_lower, to_vec,
};
use crate::error::ProxyError;

verus! {

/// The line terminator.
pub open spec fn crlf() -> Seq<u8> {
    seq![13u8, 10u8]
}

/// The separator between a header's name and its value.
pub open spec fn colon_space() -> Seq<u8> {
    seq![58u8, 32u8]
}

/// The bytes `\r\n`.
pub fn crlf_bytes() -> (r: &'static [u8])
    ensures
        r@ == crlf(),
{
    proof {
        reveal_strlit("\r\n");
        vstd::string::is_ascii_spec_bytes("\r\n");
    }
    "\r\n".as_bytes()
}

/// The bytes `": "`.
fn colon_space_bytes() -> (r: &'static [u8])
    ensures
        r@ == colon_space(),
{
    proof {
        reveal_strlit(": ");
        vstd::string::is_ascii_spec_bytes(": ");
    }
    ": ".as_bytes()
}

/// The end of the line that starts at `pos`: its CRLF, or the end of `s`.
pub open spec fn line_end(s: Seq<u8>, pos: int) -> int {
    match find_from(s, crlf(), pos) {
        Some(k) => k,
        None => s.len() as int,
    }
}

pub proof fn lemma_line_end(s: Seq<u8>, pos: int)
    requires
        0 <= pos <= s.len(),
    ensures
        pos <= line_end(s, pos) <= s.len(),
        line_end(s, pos) < s.len() ==> line_end(s, pos) + 2 <= s.len(),
{
    lemma_find_from(s, crlf(), pos);
}

/// One header line split at its first `": "`, the name lowercased; `None`
/// when the line has no separator.
pub open spec fn field_of(line: Seq<u8>) -> Option<(Seq<u8>, Seq<u8>)> {
    match find_from(line, colon_space(), 0) {
        Some(c) => Some((lower(line.subrange(0, c)), line.subrange(c + 2, line.len() as int))),
        None => None,
    }
}

/// The header fields in the lines from `pos` up to the first empty line (or
/// the end of `s`), in order; `None` when one of them is malformed.
pub open spec fn header_fields(s: Seq<u8>, pos: int) -> Option<Seq<(Seq<u8>, Seq<u8>)>>
    decreases s.len() - pos,
    when 0 <= pos <= s.len()
{
    let end = line_end(s, pos);
    let line = s.subrange(pos, end);
    if line.len() == 0 {
        Some(Seq::empty())
    } else {
        match field_of(line) {
            None => None,
            Some(f) => if end >= s.len() {
                Some(seq![f])
            } else {
                proof {
                    lemma_line_end(s, pos);
                }
                match header_fields(s, end + 2) {
                    None => None,
                    Some(rest) => Some(seq![f] + rest),
                }
            },
        }
    }
}

/// The value of the last field named `name`.
pub open spec fn field_value(fields: Seq<(Seq<u8>, Seq<u8>)>, name: Seq<u8>) -> Option<Seq<u8>>
    decreases fields.len(),
{
    if fields.len() == 0 {
        None
    } else if fields.last().0 == name {
        Some(fields.last().1)
    } else {
        field_value(fields.drop_last(), name)
    }
}

/// Header fields in the order they arrived; a later field overrides an
/// earlier one of the same name.
pub struct HeaderMap {
    fields: Vec<(Vec<u8>, Vec<u8>)>,
}

impl View for HeaderMap {
    type V = Seq<(Seq<u8>, Seq<u8>)>;

    closed spec fn view(&self) -> Seq<(Seq<u8>, Seq<u8>)> {
        self.fields@.map_values(|f: (Vec<u8>, Vec<u8>)| (f.0@, f.1@))
    }
}

impl HeaderMap {
    pub fn new() -> (r: HeaderMap)
        ensures
            r@ == Seq::<(Seq<u8>, Seq<u8>)>::empty(),
    {
        let r = HeaderMap { fields: Vec::new() };
        assert(r@ =~= Seq::<(Seq<u8>, Seq<u8>)>::empty());
        r
    }

    /// Appends a field.
    pub fn push(&mut self, name: Vec<u8>, value: Vec<u8>)
        ensures
            final(self)@ == old(self)@.push((name@, value@)),
    {
        self.fields.push((name, value));
        assert(final(self)@ =~= old(self)@.push((name@, value@)));
    }

    /// The value of the last field named `name`.
    pub fn get(&self, name: &[u8]) -> (r: Option<Vec<u8>>)
        ensures
            match r {
                Some(v) => field_value(self@, name@) == Some(v@),
                None => field_value(self@, name@) is None,
            },
    {
        let mut i: usize = self.fields.len();
        assert(self@.subrange(0, i as int) =~= self@);
        while i > 0
            invariant
                i <= self.fields@.len(),
                self@.len() == self.fields@.len(),
                field_value(self@, name@) == field_value(self@.subrange(0, i as int), name@),
            decreases i,
        {
            let ghost pre = self@.subrange(0, i as int);
            assert(pre.drop_last() =~= self@.subrange(0, i - 1));
            assert(pre.last() == (self.fields@[i - 1].0@, self.fields@[i - 1].1@));
            if bytes_eq(self.fields[i - 1].0.as_slice(), name) {
                return Some(to_vec(self.fields[i - 1].1.as_slice()));
            }
            i = i - 1;
        }
        None
    }

    /// An independent copy.
    pub fn copy(&self) -> (r: HeaderMap)
        ensures
            r@ == self@,
    {
        let mut fields: Vec<(Vec<u8>, Vec<u8>)> = Vec::new();
        let mut i: usize = 0;
        while i < self.fields.len()
            invariant
                i <= self.fields@.len(),
                fields@.map_values(|f: (Vec<u8>, Vec<u8>)| (f.0@, f.1@)) == self@.subrange(
                    0,
                    i as int,
                ),
            decreases self.fields@.len() - i,
        {
            let name = to_vec(self.fields[i].0.as_slice());
            let value = to_vec(self.fields[i].1.as_slice());
            assert(self@[i as int] == (self.fields@[i as int].0@, self.fields@[i as int].1@));
            let ghost before = fields@.map_values(|f: (Vec<u8>, Vec<u8>)| (f.0@, f.1@));
            fields.push((name, value));
            assert(fields@.map_values(|f: (Vec<u8>, Vec<u8>)| (f.0@, f.1@)) =~= before.push(
                self@[i as int],
            ));
            assert(fields@.map_values(|f: (Vec<u8>, Vec<u8>)| (f.0@, f.1@)) =~= self@.subrange(
                0,
                i + 1,
            ));
            i = i + 1;
        }
        assert(self@.subrange(0, i as int) =~= self@);
        HeaderMap { fields }
    }
}

/// Parses the header lines from `pos` up to the first empty line or the end
/// of `s`.
pub fn parse_header_fields(s: &[u8], start: usize) -> (r: Result<HeaderMap, ProxyError>)
    requires
        start <= s@.len(),
    ensures
        match header_fields(s@, start as int) {
            Some(f) => r matches Ok(m) && m@ == f,
            None => r == Err::<HeaderMap, ProxyError>(ProxyError::MalformedHeaderLine),
        },
{
    let mut map = HeaderMap::new();
    let mut pos: usize = start;
    assert(map@ + header_fields(s@, pos as int).unwrap() =~= header_fields(s@, pos as int).unwrap());
    loop
        invariant
            pos <= s@.len(),
            header_fields(s@, start as int) == (match header_fields(s@, pos as int) {
                Some(rest) => Some(map@ + rest),
                None => None,
            }),
        decreases s@.len() - pos,
    {
        proof {
            lemma_line_end(s@, pos as int);
        }
        let end: usize = match find(s, crlf_bytes(), pos) {
            Some(k) => k,
            None => s.len(),
        };
        let line = slice_to_vec(s, pos, end);
        assert(end == line_end(s@, pos as int));
        if line.len() == 0 {
            assert(header_fields(s@, pos as int) == Some(Seq::<(Seq<u8>, Seq<u8>)>::empty()));
            assert(map@ + Seq::<(Seq<u8>, Seq<u8>)>::empty() =~= map@);
            return Ok(map);
        }
        match find(line.as_slice(), colon_space_bytes(), 0) {
            None => {
                assert(field_of(line@) is None);
                assert(header_fields(s@, pos as int) is None);
                return Err(ProxyError::MalformedHeaderLine);
            },
            Some(c) => {
                proof {
                    lemma_find_from(line@, colon_space(), 0);
                }
                let name = to_lower(slice_to_vec(line.as_slice(), 0, c).as_slice());
                let value = slice_to_vec(line.as_slice(), c + 2, line.len());
                let ghost f = (name@, value@);
                let ghost before = map@;
                assert(field_of(line@) == Some(f));
                map.push(name, value);
                if end >= s.len() {
                    assert(header_fields(s@, pos as int) == Some(seq![f]));
                    assert(before + seq![f] =~= map@);
                    return Ok(map);
                }
                assert(before + (seq![f] + header_fields(s@, end + 2).unwrap()) =~= map@
                    + header_fields(s@, end + 2).unwrap());
                pos = end + 2;
            },
        }
    }
}

} // verus!
