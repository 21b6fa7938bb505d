use vstd::prelude::*;
use vstd::slice::{slice_subrange, slice_to_vec};
use vstd::utf8::*;

use crate::request::{Request, RequestView};
use crate::string_map::{insert_entry, Entries, StringMap};
use crate::text::{
    cut_ok, lemma_valid_between, lowercase_of, string_from_utf8, to_lowercase, trim, trimmed_of,
};

verus! {

broadcast use vstd::utf8::encode_utf8_valid_utf8;

/// Why a request head could not be parsed (yet).
#[derive(Clone, Copy, Debug, PartialEq, Eq, Structural)]
pub enum ParseError {
    /// The input ends before the head does; more input may complete it.
    NotEnoughInput,
    /// The input can never become a valid head.
    Fatal,
}

/// `" "`
pub open spec fn space() -> Seq<u8> {
    seq![0x20u8]
}

/// `":"`
pub open spec fn colon() -> Seq<u8> {
    seq![0x3au8]
}

/// `"\r\n"`
pub open spec fn crlf() -> Seq<u8> {
    seq![0x0du8, 0x0au8]
}

/// `"GET"`
pub open spec fn get_method() -> Seq<u8> {
    seq![0x47u8, 0x45u8, 0x54u8]
}

/// `"POST"`
pub open spec fn post_method() -> Seq<u8> {
    seq![0x50u8, 0x4fu8, 0x53u8, 0x54u8]
}

/// `lit` occurs in `s` at position `i`.
pub open spec fn matches_at(s: Seq<u8>, i: int, lit: Seq<u8>) -> bool {
    &&& 0 <= i
    &&& i + lit.len() <= s.len()
    &&& s.subrange(i, i + lit.len()) == lit
}

/// Consuming the literal `lit` at position `i`: the position after it, or
/// `NotEnoughInput` when too few bytes remain, or `Fatal` on a mismatch.
pub open spec fn expect_at(s: Seq<u8>, i: int, lit: Seq<u8>) -> Result<int, ParseError> {
    if i + lit.len() > s.len() {
        Err(ParseError::NotEnoughInput)
    } else if matches_at(s, i, lit) {
        Ok(i + lit.len())
    } else {
        Err(ParseError::Fatal)
    }
}

/// The first position from `i` on at which the delimiter `d` occurs, or
/// `NotEnoughInput` when it does not occur in what remains.
pub open spec fn read_until_at(s: Seq<u8>, i: int, d: Seq<u8>) -> Result<int, ParseError>
    decreases s.len() - i,
    when 0 <= i
{
    if s.len() - i < d.len() {
        Err(ParseError::NotEnoughInput)
    } else if matches_at(s, i, d) {
        Ok(i)
    } else {
        proof {
            assert(d.len() == 0 ==> s.subrange(i, i) =~= d);
        }
        read_until_at(s, i + 1, d)
    }
}

/// The request method at position `i`: `GET` or `POST`. Fewer than three
/// bytes cannot decide, anything else is fatal.
pub open spec fn method_at(s: Seq<u8>, i: int) -> Result<int, ParseError> {
    if s.len() - i < 3 {
        Err(ParseError::NotEnoughInput)
    } else if matches_at(s, i, get_method()) {
        Ok(i + 3)
    } else if matches_at(s, i, post_method()) {
        Ok(i + 4)
    } else {
        Err(ParseError::Fatal)
    }
}

/// One header line at position `i`: the positions of its colon and of the
/// line's CRLF.
pub open spec fn header_at(s: Seq<u8>, i: int) -> Result<(int, int), ParseError> {
    match read_until_at(s, i, colon()) {
        Ok(k) => match read_until_at(s, k + 1, crlf()) {
            Ok(v) => Ok((k, v)),
            Err(e) => Err(e),
        },
        Err(e) => Err(e),
    }
}

/// The header lines from position `i` up to the empty line: for each line
/// its start, colon and CRLF positions; and the position of the empty line.
pub open spec fn headers_at(s: Seq<u8>, i: int) -> Result<
    (Seq<(int, int, int)>, int),
    ParseError,
>
    decreases s.len() - i,
    when 0 <= i
    via headers_at_decreases
{
    if matches_at(s, i, crlf()) {
        Ok((seq![], i))
    } else {
        match header_at(s, i) {
            Ok((k, v)) => match headers_at(s, v + 2) {
                Ok((hs, e)) => Ok((seq![(i, k, v)] + hs, e)),
                Err(e) => Err(e),
            },
            Err(e) => Err(e),
        }
    }
}

#[via_fn]
proof fn headers_at_decreases(s: Seq<u8>, i: int) {
    if !matches_at(s, i, crlf()) {
        lemma_header_at(s, i);
    }
}

/// Positions of the parts of a request head.
pub struct HeadSpans {
    pub start: int,
    pub method_end: int,
    pub path_end: int,
    pub version_end: int,
    pub headers: Seq<(int, int, int)>,
    /// The position just after the head's closing empty line.
    pub end: int,
}

/// Parsing a request head that starts at position `i`:
/// `METHOD SP PATH SP VERSION CRLF (HEADER CRLF)* CRLF`.
pub open spec fn head_at(s: Seq<u8>, i: int) -> Result<HeadSpans, ParseError> {
    match method_at(s, i) {
        Err(e) => Err(e),
        Ok(m) => match expect_at(s, m, space()) {
            Err(e) => Err(e),
            Ok(p) => match read_until_at(s, p, space()) {
                Err(e) => Err(e),
                Ok(pe) => match read_until_at(s, pe + 1, crlf()) {
                    Err(e) => Err(e),
                    Ok(ve) => match headers_at(s, ve + 2) {
                        Err(e) => Err(e),
                        Ok((hs, he)) => Ok(
                            HeadSpans {
                                start: i,
                                method_end: m,
                                path_end: pe,
                                version_end: ve,
                                headers: hs,
                                end: he + 2,
                            },
                        ),
                    },
                },
            },
        },
    }
}

/// The text that the bytes from `i` to `j` encode.
pub open spec fn text_of(s: Seq<u8>, i: int, j: int) -> Seq<char> {
    decode_utf8(s.subrange(i, j))
}

/// The header fields of the given lines, names lowercased and values trimmed,
/// a later line overriding an earlier one with the same name.
pub open spec fn header_fields(s: Seq<u8>, hs: Seq<(int, int, int)>) -> Entries
    decreases hs.len(),
{
    if hs.len() == 0 {
        Seq::empty()
    } else {
        let h = hs.last();
        insert_entry(
            header_fields(s, hs.drop_last()),
            lowercase_of(text_of(s, h.0, h.1)),
            trimmed_of(text_of(s, h.1 + 1, h.2)),
        )
    }
}

/// The request that a parsed head describes.
pub open spec fn request_of(s: Seq<u8>, h: HeadSpans) -> RequestView {
    RequestView {
        method: text_of(s, h.start, h.method_end),
        path: text_of(s, h.method_end + 1, h.path_end),
        version: text_of(s, h.path_end + 1, h.version_end),
        headers: header_fields(s, h.headers),
    }
}

/// Where `read_until_at` stops, the delimiter occurs.
pub proof fn lemma_read_until_at(s: Seq<u8>, i: int, d: Seq<u8>)
    requires
        0 <= i,
    ensures
        read_until_at(s, i, d) matches Ok(j) ==> i <= j && matches_at(s, j, d),
    decreases s.len() - i,
{
    if s.len() - i >= d.len() && !matches_at(s, i, d) {
        assert(d.len() == 0 ==> s.subrange(i, i) =~= d);
        lemma_read_until_at(s, i + 1, d);
    }
}

/// A header line ends after it starts.
pub proof fn lemma_header_at(s: Seq<u8>, i: int)
    requires
        0 <= i,
    ensures
        header_at(s, i) matches Ok((k, v)) ==> {
            &&& i <= k
            &&& k + 1 <= v
            &&& matches_at(s, k, colon())
            &&& matches_at(s, v, crlf())
        },
{
    lemma_read_until_at(s, i, colon());
    if let Ok(k) = read_until_at(s, i, colon()) {
        lemma_read_until_at(s, k + 1, crlf());
    }
}

/// The header lines found so far followed by those parsed from here on.
pub open spec fn prepend_lines(
    done: Seq<(int, int, int)>,
    r: Result<(Seq<(int, int, int)>, int), ParseError>,
) -> Result<(Seq<(int, int, int)>, int), ParseError> {
    match r {
        Ok((hs, e)) => Ok((done + hs, e)),
        Err(x) => Err(x),
    }
}

/// The header lines end at an empty line, after they start.
pub proof fn lemma_headers_at(s: Seq<u8>, i: int)
    requires
        0 <= i,
    ensures
        headers_at(s, i) matches Ok((hs, e)) ==> i <= e && matches_at(s, e, crlf()),
    decreases s.len() - i,
{
    if !matches_at(s, i, crlf()) {
        lemma_header_at(s, i);
        if let Ok((k, v)) = header_at(s, i) {
            lemma_headers_at(s, v + 2);
        }
    }
}

/// Expecting a literal never fails for any other reason than these two: too
/// few bytes remain (more input may help), or they are there and differ.
pub proof fn lemma_expect_outcomes(s: Seq<u8>, i: int, lit: Seq<u8>)
    requires
        0 <= i <= s.len(),
    ensures
        s.len() - i < lit.len() ==> expect_at(s, i, lit) == Err::<int, ParseError>(
            ParseError::NotEnoughInput,
        ),
        s.len() - i >= lit.len() && !matches_at(s, i, lit) ==> expect_at(s, i, lit) == Err::<
            int,
            ParseError,
        >(ParseError::Fatal),
        matches_at(s, i, lit) ==> expect_at(s, i, lit) == Ok::<int, ParseError>(i + lit.len()),
{
}

/// Widens a position result for comparison with the spec functions.
pub open spec fn widen(r: Result<usize, ParseError>) -> Result<int, ParseError> {
    match r {
        Ok(j) => Ok(j as int),
        Err(e) => Err(e),
    }
}

/// A parser for one request head over a private copy of the input, with a
/// cursor that only moves forward.
pub struct HTTPParser {
    source: Vec<u8>,
    pos: usize,
}

impl HTTPParser {
    #[verifier::type_invariant]
    spec fn inv(self) -> bool {
        &&& valid_utf8(self.source@)
        &&& cut_ok(self.source@, self.pos as int)
    }

    /// The bytes being parsed.
    pub closed spec fn input(&self) -> Seq<u8> {
        self.source@
    }

    /// How many bytes have been consumed.
    pub closed spec fn cursor(&self) -> int {
        self.pos as int
    }

    pub fn new(source: &str) -> (r: HTTPParser)
        ensures
            r.input() == encode_utf8(source@),
            r.cursor() == 0,
    {
        HTTPParser { source: slice_to_vec(source.as_bytes()), pos: 0 }
    }

    /// The input that has not been consumed.
    pub fn remaining(&self) -> (r: &[u8])
        ensures
            r@ == self.input().subrange(self.cursor(), self.input().len() as int),
    {
        proof {
            use_type_invariant(self);
        }
        slice_subrange(self.source.as_slice(), self.pos, self.source.len())
    }

    /// Whether `lit` occurs at position `i`.
    fn has_at(&self, i: usize, lit: &[u8]) -> (r: bool)
        requires
            i <= self.input().len(),
        ensures
            r == matches_at(self.input(), i as int, lit@),
    {
        if lit.len() > self.source.len() - i {
            return false;
        }
        let n = self.source.len();
        let mut j: usize = 0;
        while j < lit.len()
            invariant
                n == self.source@.len(),
                i + lit@.len() <= n,
                0 <= j <= lit@.len(),
                forall|k: int| 0 <= k < j ==> self.source@[i + k] == lit@[k],
            decreases lit@.len() - j,
        {
            if self.source[i + j] != lit[j] {
                assert(self.source@.subrange(i as int, i + lit@.len())[j as int] != lit@[j as int]);
                return false;
            }
            j += 1;
        }
        assert(self.source@.subrange(i as int, i + lit@.len()) =~= lit@);
        true
    }

    /// The text between two positions at which the input can be cut.
    fn text(&self, i: usize, j: usize) -> (r: String)
        requires
            i <= j,
            cut_ok(self.input(), i as int),
            cut_ok(self.input(), j as int),
        ensures
            r@ == text_of(self.input(), i as int, j as int),
    {
        proof {
            use_type_invariant(self);
            lemma_valid_between(self.source@, i as int, j as int);
        }
        string_from_utf8(slice_subrange(self.source.as_slice(), i, j)).unwrap()
    }

    /// Consumes `expected` if the input continues with it.
    fn expect(&mut self, expected: &[u8]) -> (r: Result<(), ParseError>)
        requires
            expected@.len() > 0,
            expected@.last() < 0x80,
        ensures
            final(self).input() == old(self).input(),
            match expect_at(old(self).input(), old(self).cursor(), expected@) {
                Ok(p) => r is Ok && final(self).cursor() == p,
                Err(e) => r == Err::<(), ParseError>(e) && final(self).cursor() == old(self).cursor(),
            },
    {
        proof {
            use_type_invariant(&*self);
        }
        if expected.len() > self.source.len() - self.pos {
            return Err(ParseError::NotEnoughInput);
        }
        if self.has_at(self.pos, expected) {
            proof {
                let s = self.source@;
                let e = self.pos + expected@.len();
                assert(s.subrange(self.pos as int, e)[expected@.len() - 1] == s[e - 1]);
            }
            self.pos = self.pos + expected.len();
            Ok(())
        } else {
            Err(ParseError::Fatal)
        }
    }

    /// Finds the next occurrence of `delimiter` and moves the cursor to it,
    /// without consuming it.
    fn read_until(&mut self, delimiter: &[u8]) -> (r: Result<usize, ParseError>)
        requires
            delimiter@.len() > 0,
            delimiter@[0] < 0x80,
        ensures
            final(self).input() == old(self).input(),
            widen(r) == read_until_at(old(self).input(), old(self).cursor(), delimiter@),
            r matches Ok(j) ==> final(self).cursor() == j,
            r is Err ==> final(self).cursor() == old(self).cursor(),
    {
        proof {
            use_type_invariant(&*self);
        }
        let ghost start = self.pos as int;
        let mut k = self.pos;
        loop
            invariant
                delimiter@.len() > 0,
                delimiter@[0] < 0x80,
                valid_utf8(self.source@),
                start <= k <= self.source@.len(),
                self.input() == old(self).input(),
                self.cursor() == start,
                start == old(self).cursor(),
                read_until_at(self.source@, start, delimiter@) == read_until_at(
                    self.source@,
                    k as int,
                    delimiter@,
                ),
            decreases self.source@.len() - k,
        {
            if self.source.len() - k < delimiter.len() {
                return Err(ParseError::NotEnoughInput);
            }
            if self.has_at(k, delimiter) {
                proof {
                    assert(self.source@.subrange(k as int, k + delimiter@.len())[0]
                        == self.source@[k as int]);
                }
                self.pos = k;
                return Ok(k);
            }
            k += 1;
        }
    }

    /// The request method.
    fn parse_method(&mut self) -> (r: Result<String, ParseError>)
        ensures
            final(self).input() == old(self).input(),
            match method_at(old(self).input(), old(self).cursor()) {
                Ok(m) => r matches Ok(t) && t@ == text_of(
                    old(self).input(),
                    old(self).cursor(),
                    m,
                ) && final(self).cursor() == m,
                Err(e) => r == Err::<String, ParseError>(e),
            },
    {
        proof {
            use_type_invariant(&*self);
        }
        let start = self.pos;
        if self.source.len() - start < 3 {
            return Err(ParseError::NotEnoughInput);
        }
        let get: [u8; 3] = [0x47, 0x45, 0x54];
        let post: [u8; 4] = [0x50, 0x4f, 0x53, 0x54];
        let lit: &[u8] = if self.has_at(start, get.as_slice()) {
            get.as_slice()
        } else if self.has_at(start, post.as_slice()) {
            post.as_slice()
        } else {
            return Err(ParseError::Fatal);
        };
        proof {
            assert(get@ =~= get_method());
            assert(post@ =~= post_method());
        }
        match self.expect(lit) {
            Ok(()) => Ok(self.text(start, self.pos)),
            Err(e) => Err(e),
        }
    }

    /// The request path, up to the next space.
    fn parse_path(&mut self) -> (r: Result<String, ParseError>)
        ensures
            final(self).input() == old(self).input(),
            match read_until_at(old(self).input(), old(self).cursor(), space()) {
                Ok(j) => r matches Ok(t) && t@ == text_of(
                    old(self).input(),
                    old(self).cursor(),
                    j,
                ) && final(self).cursor() == j,
                Err(e) => r == Err::<String, ParseError>(e),
            },
    {
        let start = self.pos;
        let sp: [u8; 1] = [0x20];
        proof {
            assert(sp@ =~= space());
        }
        proof {
            use_type_invariant(&*self);
            lemma_read_until_at(self.input(), start as int, sp@);
        }
        match self.read_until(sp.as_slice()) {
            Ok(j) => {
                proof {
                    use_type_invariant(&*self);
                }
                Ok(self.text(start, j))
            },
            Err(e) => Err(e),
        }
    }

    /// The protocol version, up to the end of the line.
    fn parse_version(&mut self) -> (r: Result<String, ParseError>)
        ensures
            final(self).input() == old(self).input(),
            match read_until_at(old(self).input(), old(self).cursor(), crlf()) {
                Ok(j) => r matches Ok(t) && t@ == text_of(
                    old(self).input(),
                    old(self).cursor(),
                    j,
                ) && final(self).cursor() == j,
                Err(e) => r == Err::<String, ParseError>(e),
            },
    {
        let start = self.pos;
        let nl: [u8; 2] = [0x0d, 0x0a];
        proof {
            assert(nl@ =~= crlf());
        }
        proof {
            use_type_invariant(&*self);
            lemma_read_until_at(self.input(), start as int, nl@);
        }
        match self.read_until(nl.as_slice()) {
            Ok(j) => {
                proof {
                    use_type_invariant(&*self);
                }
                Ok(self.text(start, j))
            },
            Err(e) => Err(e),
        }
    }

    /// One header line: its name lowercased and its value trimmed.
    fn parse_header(&mut self) -> (r: Result<(String, String), ParseError>)
        ensures
            final(self).input() == old(self).input(),
            match header_at(old(self).input(), old(self).cursor()) {
                Ok((k, v)) => r matches Ok((key, value)) && key@ == lowercase_of(
                    text_of(old(self).input(), old(self).cursor(), k),
                ) && value@ == trimmed_of(text_of(old(self).input(), k + 1, v))
                    && final(self).cursor() == v + 2,
                Err(e) => r == Err::<(String, String), ParseError>(e),
            },
    {
        proof {
            use_type_invariant(&*self);
            lemma_read_until_at(self.input(), self.cursor(), colon());
        }
        let start = self.pos;
        let col: [u8; 1] = [0x3a];
        let nl: [u8; 2] = [0x0d, 0x0a];
        proof {
            assert(col@ =~= colon());
            assert(nl@ =~= crlf());
        }
        let k = match self.read_until(col.as_slice()) {
            Ok(k) => k,
            Err(e) => return Err(e),
        };
        proof {
            use_type_invariant(&*self);
        }
        let key = to_lowercase(self.text(start, k).as_str());
        match self.expect(col.as_slice()) {
            Ok(()) => {},
            Err(e) => return Err(e),
        }
        let value_start = self.pos;
        proof {
            use_type_invariant(&*self);
            lemma_read_until_at(self.input(), self.cursor(), crlf());
        }
        let v = match self.read_until(nl.as_slice()) {
            Ok(v) => v,
            Err(e) => return Err(e),
        };
        proof {
            use_type_invariant(&*self);
        }
        let value = trim(self.text(value_start, v).as_str());
        match self.expect(nl.as_slice()) {
            Ok(()) => {},
            Err(e) => return Err(e),
        }
        Ok((key, value))
    }

    /// Header lines up to (not including) the empty line that ends the head.
    fn parse_headers(&mut self) -> (r: Result<StringMap, ParseError>)
        ensures
            final(self).input() == old(self).input(),
            match headers_at(old(self).input(), old(self).cursor()) {
                Ok((hs, e)) => r matches Ok(m) && m@ == header_fields(old(self).input(), hs)
                    && final(self).cursor() == e,
                Err(e) => r == Err::<StringMap, ParseError>(e),
            },
    {
        let ghost s = self.input();
        let ghost start = self.cursor();
        let ghost mut done: Seq<(int, int, int)> = Seq::empty();
        let mut headers = StringMap::new();
        let nl: [u8; 2] = [0x0d, 0x0a];
        proof {
            use_type_invariant(&*self);
            assert(nl@ =~= crlf());
            if let Ok((hs, e)) = headers_at(s, start) {
                assert(done + hs =~= hs);
            }
        }
        loop
            invariant
                self.input() == s,
                s == old(self).input(),
                start == old(self).cursor(),
                0 <= start <= self.cursor() <= s.len(),
                nl@ == crlf(),
                headers@ == header_fields(s, done),
                headers_at(s, start) == prepend_lines(done, headers_at(s, self.cursor())),
            decreases s.len() - self.cursor(),
        {
            proof {
                use_type_invariant(&*self);
            }
            if self.has_at(self.pos, nl.as_slice()) {
                assert(done + Seq::<(int, int, int)>::empty() =~= done);
                return Ok(headers);
            }
            let ghost p = self.cursor();
            proof {
                lemma_header_at(s, p);
            }
            match self.parse_header() {
                Ok((key, value)) => {
                    proof {
                        let (k, v) = header_at(s, p)->Ok_0;
                        let line = (p, k, v);
                        assert(done.push(line).drop_last() =~= done);
                        if let Ok((hs, e)) = headers_at(s, v + 2) {
                            assert(done + (seq![line] + hs) =~= done.push(line) + hs);
                        }
                        done = done.push(line);
                    }
                    headers.insert(key, value);
                },
                Err(e) => return Err(e),
            }
        }
    }

    /// Parses a request head from the cursor on. On success the cursor stands
    /// just after the empty line that ends the head.
    pub fn parse_head(&mut self) -> (r: Result<Request, ParseError>)
        ensures
            final(self).input() == old(self).input(),
            match head_at(old(self).input(), old(self).cursor()) {
                Ok(h) => r matches Ok(req) && req@ == request_of(old(self).input(), h)
                    && final(self).cursor() == h.end,
                Err(e) => r == Err::<Request, ParseError>(e),
            },
    {
        let ghost s = self.input();
        let sp: [u8; 1] = [0x20];
        let nl: [u8; 2] = [0x0d, 0x0a];
        proof {
            assert(sp@ =~= space());
            assert(nl@ =~= crlf());
        }
        let method = match self.parse_method() {
            Ok(m) => m,
            Err(e) => return Err(e),
        };
        match self.expect(sp.as_slice()) {
            Ok(()) => {},
            Err(e) => return Err(e),
        }
        proof {
            lemma_read_until_at(s, self.cursor(), space());
        }
        let path = match self.parse_path() {
            Ok(p) => p,
            Err(e) => return Err(e),
        };
        match self.expect(sp.as_slice()) {
            Ok(()) => {},
            Err(e) => return Err(e),
        }
        proof {
            lemma_read_until_at(s, self.cursor(), crlf());
        }
        let version = match self.parse_version() {
            Ok(v) => v,
            Err(e) => return Err(e),
        };
        match self.expect(nl.as_slice()) {
            Ok(()) => {},
            Err(e) => return Err(e),
        }
        proof {
            lemma_headers_at(s, self.cursor());
        }
        let headers = match self.parse_headers() {
            Ok(h) => h,
            Err(e) => return Err(e),
        };
        match self.expect(nl.as_slice()) {
            Ok(()) => {},
            Err(e) => return Err(e),
        }
        Ok(Request::new(method, path, version, headers))
    }
}

} // verus!
