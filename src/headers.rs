//! Header names used by the proxy, header-block rewriting, and the
//! `Cache-Control` directive parser.
use vstd::prelude::*;
use crate::bytes::{
    views, contains, contains_exec, decimal_value, lower, parse_decimal, slice_to_vec, to_lower, to_vec,
    trim, trim_exec,
};
use crate::error::ProxyError;
use crate::header_map::{colon_space, crlf};
use vstd::string::StringSliceAdditionalSpecFns;

verus! {

/// `header_lines` (a header block ending in an empty line) with the field
/// `key: value` inserted before that empty line.
pub fn append_header(header_lines: Vec<u8>, key: &[u8], value: &[u8]) -> (r: Vec<u8>)
    requires
        header_lines@.len() >= 2,
    ensures
        r@ == header_lines@.subrange(0, header_lines@.len() - 2) + key@ + colon_space() + value@
            + crlf() + crlf(),
{
    let mut out = slice_to_vec(header_lines.as_slice(), 0, header_lines.len() - 2);
    out.extend_from_slice(key);
    out.push(58u8);
    out.push(32u8);
    out.extend_from_slice(value);
    out.push(13u8);
    out.push(10u8);
    out.push(13u8);
    out.push(10u8);
    assert(out@ =~= header_lines@.subrange(0, header_lines@.len() - 2) + key@ + colon_space()
        + value@ + crlf() + crlf());
    out
}

/// The directives that forbid caching when one occurs inside any token.
pub open spec fn disallowed_entries() -> Seq<Seq<u8>> {
    seq![
        "private".spec_bytes(),
        "no-store".spec_bytes(),
        "no-cache".spec_bytes(),
        "max-age=0".spec_bytes(),
        "must-revalidate".spec_bytes(),
        "proxy-revalidate".spec_bytes(),
    ]
}

/// The prefix of the directive that gives a lifetime in seconds.
pub open spec fn max_age_entry() -> Seq<u8> {
    "max-age=".spec_bytes()
}

/// A token that forbids caching: one of the disallowed entries occurs in it.
pub open spec fn forbids_caching(word: Seq<u8>) -> bool {
    exists|j: int| 0 <= j < disallowed_entries().len() && contains(word, disallowed_entries()[j])
}

/// No token forbids caching.
pub open spec fn allows_caching(words: Seq<Seq<u8>>) -> bool {
    forall|i: int| 0 <= i < words.len() ==> !forbids_caching(#[trigger] words[i])
}

/// A token as stored: trimmed of surrounding whitespace, then lowercased.
pub open spec fn normalize(token: Seq<u8>) -> Seq<u8> {
    lower(trim(token))
}

/// The tokenizer from index `i` on, in the given quoting state, with the
/// token `cur` under way and the tokens `done` already emitted. Inside
/// quotes a `"` ends the quoting and a backslash takes the next byte as it
/// is; outside quotes a `"` starts quoting and a `,` ends the token. A
/// backslash with nothing after it gives `None`.
pub open spec fn scan_directives(
    s: Seq<u8>,
    i: int,
    quoted: bool,
    cur: Seq<u8>,
    done: Seq<Seq<u8>>,
) -> Option<Seq<Seq<u8>>>
    decreases s.len() - i,
    when 0 <= i
{
    if i >= s.len() {
        if trim(cur).len() > 0 {
            Some(done.push(normalize(cur)))
        } else {
            Some(done)
        }
    } else {
        let c = s[i];
        if quoted && c == 92 {
            if i + 1 >= s.len() {
                None
            } else {
                scan_directives(s, i + 2, true, cur.push(s[i + 1]), done)
            }
        } else if c == 34 {
            scan_directives(s, i + 1, !quoted, cur.push(c), done)
        } else if !quoted && c == 44 {
            scan_directives(s, i + 1, false, Seq::empty(), done.push(normalize(cur)))
        } else {
            scan_directives(s, i + 1, quoted, cur.push(c), done)
        }
    }
}

/// Inside quotes, an escaped quote is taken into the token and the quoting
/// goes on: it does not end the quoted section.
pub proof fn lemma_escaped_quote_stays_quoted(
    s: Seq<u8>,
    i: int,
    cur: Seq<u8>,
    done: Seq<Seq<u8>>,
)
    requires
        0 <= i,
        i + 1 < s.len(),
        s[i] == 92,
        s[i + 1] == 34,
    ensures
        scan_directives(s, i, true, cur, done) == scan_directives(s, i + 2, true, cur.push(34), done),
{
}

/// The tokens of a `Cache-Control` value.
pub open spec fn directives(s: Seq<u8>) -> Option<Seq<Seq<u8>>> {
    scan_directives(s, 0, false, Seq::empty(), Seq::empty())
}

/// The lifetime given by the first token that contains `max-age=`: the
/// digits after its first eight bytes read as a `u32`, or nothing when they
/// do not read as one. Later tokens are not consulted.
pub open spec fn max_age_of(words: Seq<Seq<u8>>) -> Option<u32>
    decreases words.len(),
{
    if words.len() == 0 {
        None
    } else if contains(words[0], max_age_entry()) {
        match decimal_value(words[0].subrange(max_age_entry().len() as int, words[0].len() as int)) {
            Some(n) => if n <= u32::MAX {
                Some(n as u32)
            } else {
                None
            },
            None => None,
        }
    } else {
        max_age_of(words.drop_first())
    }
}

/// The directives of one `Cache-Control` header value.
pub struct CacheControlHeader {
    words: Vec<Vec<u8>>,
}

impl View for CacheControlHeader {
    type V = Seq<Seq<u8>>;

    closed spec fn view(&self) -> Seq<Seq<u8>> {
        self.words@.map_values(|w: Vec<u8>| w@)
    }
}

/// The `i`th disallowed entry.
fn disallowed_entry(i: usize) -> (r: &'static [u8])
    requires
        i < 6,
    ensures
        r@ == disallowed_entries()[i as int],
{
    if i == 0 {
        "private".as_bytes()
    } else if i == 1 {
        "no-store".as_bytes()
    } else if i == 2 {
        "no-cache".as_bytes()
    } else if i == 3 {
        "max-age=0".as_bytes()
    } else if i == 4 {
        "must-revalidate".as_bytes()
    } else {
        "proxy-revalidate".as_bytes()
    }
}

impl CacheControlHeader {
    /// Splits a `Cache-Control` value into normalized tokens.
    pub fn cache_control_split(s: &[u8]) -> (r: Result<Vec<Vec<u8>>, ProxyError>)
        ensures
            match directives(s@) {
                Some(w) => r matches Ok(v) && views(v@) == w,
                None => r == Err::<Vec<Vec<u8>>, ProxyError>(ProxyError::DanglingEscape),
            },
    {
        let mut result: Vec<Vec<u8>> = Vec::new();
        let mut current: Vec<u8> = Vec::new();
        let mut is_quoted = false;
        let mut ptr: usize = 0;
        assert(views(result@) =~= Seq::<Seq<u8>>::empty());
        while ptr < s.len()
            invariant
                ptr <= s@.len(),
                directives(s@) == scan_directives(
                    s@,
                    ptr as int,
                    is_quoted,
                    current@,
                    views(result@),
                ),
            decreases s@.len() - ptr,
        {
            let c = s[ptr];
            let ghost done = views(result@);
            if is_quoted && c == 92 {
                if ptr + 1 >= s.len() {
                    assert(scan_directives(s@, ptr as int, is_quoted, current@, done) is None);
                    return Err(ProxyError::DanglingEscape);
                }
                current.push(s[ptr + 1]);
                ptr = ptr + 2;
            } else if c == 34 {
                is_quoted = !is_quoted;
                current.push(c);
                ptr = ptr + 1;
            } else if !is_quoted && c == 44 {
                let token = to_lower(trim_exec(current.as_slice()).as_slice());
                result.push(token);
                assert(views(result@) =~= done.push(normalize(current@)));
                current = Vec::new();
                ptr = ptr + 1;
            } else {
                current.push(c);
                ptr = ptr + 1;
            }
        }
        let trimmed = trim_exec(current.as_slice());
        if trimmed.len() > 0 {
            let ghost done = views(result@);
            result.push(to_lower(trimmed.as_slice()));
            assert(views(result@) =~= done.push(normalize(current@)));
        }
        Ok(result)
    }

    /// Parses a `Cache-Control` header value.
    pub fn new(cache_header: &[u8]) -> (r: Result<CacheControlHeader, ProxyError>)
        ensures
            match directives(cache_header@) {
                Some(w) => r matches Ok(h) && h@ == w,
                None => r == Err::<CacheControlHeader, ProxyError>(ProxyError::DanglingEscape),
            },
    {
        match Self::cache_control_split(cache_header) {
            Ok(words) => Ok(CacheControlHeader { words }),
            Err(e) => Err(e),
        }
    }

    /// The tokens, in order.
    pub fn words(&self) -> (r: Vec<Vec<u8>>)
        ensures
            views(r@) == self@,
    {
        let mut out: Vec<Vec<u8>> = Vec::new();
        let mut i: usize = 0;
        while i < self.words.len()
            invariant
                i <= self.words@.len(),
                views(out@) == self@.subrange(0, i as int),
            decreases self.words@.len() - i,
        {
            let ghost before = views(out@);
            out.push(to_vec(self.words[i].as_slice()));
            assert(views(out@) =~= before.push(self@[i as int]));
            assert(self@.subrange(0, i + 1) =~= self@.subrange(0, i as int).push(self@[i as int]));
            i = i + 1;
        }
        assert(self@.subrange(0, i as int) =~= self@);
        out
    }

    /// Whether a response with these directives may be cached: no token
    /// contains a disallowed entry.
    pub fn should_cache(&self) -> (r: bool)
        ensures
            r == allows_caching(self@),
    {
        let mut i: usize = 0;
        while i < self.words.len()
            invariant
                i <= self.words@.len(),
                self@.len() == self.words@.len(),
                forall|k: int| 0 <= k < i ==> !forbids_caching(#[trigger] self@[k]),
            decreases self.words@.len() - i,
        {
            let word = self.words[i].as_slice();
            assert(word@ == self@[i as int]);
            let mut j: usize = 0;
            while j < 6
                invariant
                    j <= 6,
                    i < self@.len(),
                    word@ == self@[i as int],
                    forall|m: int| 0 <= m < j ==> !contains(word@, #[trigger] disallowed_entries()[m]),
                decreases 6 - j,
            {
                if contains_exec(word, disallowed_entry(j)) {
                    assert(contains(word@, disallowed_entries()[j as int]));
                    assert(forbids_caching(self@[i as int]));
                    return false;
                }
                j = j + 1;
            }
            i = i + 1;
        }
        true
    }

    /// The lifetime in seconds given by the first `max-age=` token, if it
    /// reads as a `u32`.
    pub fn cache_expire(&self) -> (r: Option<u32>)
        ensures
            r == max_age_of(self@),
    {
        let prefix = "max-age=".as_bytes();
        let mut i: usize = 0;
        assert(self@.subrange(0, self@.len() as int) =~= self@);
        while i < self.words.len()
            invariant
                i <= self.words@.len(),
                self@.len() == self.words@.len(),
                prefix@ == max_age_entry(),
                max_age_of(self@) == max_age_of(self@.subrange(i as int, self@.len() as int)),
            decreases self.words@.len() - i,
        {
            let ghost rest = self@.subrange(i as int, self@.len() as int);
            assert(rest[0] == self@[i as int]);
            assert(rest.drop_first() =~= self@.subrange(i + 1, self@.len() as int));
            let word = self.words[i].as_slice();
            if contains_exec(word, prefix) {
                proof {
                    reveal_strlit("max-age=");
                    vstd::string::is_ascii_spec_bytes("max-age=");
                    let k = choose|k: int| crate::bytes::matches_at(word@, prefix@, k);
                    assert(k + 8 <= word@.len());
                }
                let digits = slice_to_vec(word, 8, word.len());
                return match parse_decimal(digits.as_slice(), 0xffff_ffffu64) {
                    Some(n) => Some(n as u32),
                    None => None,
                };
            }
            i = i + 1;
        }
        None
    }
}

} // verus!
