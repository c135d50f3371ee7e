use vstd::prelude::*;

use crate::headers::Headers;
use crate::method::method_of;
use crate::method::Method;

verus! {

/// A header line longer than this fails parsing.
pub const MAX_HTTP_HEADER_LINE_LENGTH: usize = 4096;

/// Why a byte stream fails to parse as a request head.
#[derive(Copy, Clone, PartialEq, Eq, Structural, Debug)]
pub enum ReqError {
    /// A line is not terminated by CR LF before the input ends.
    MissingLineEnd,
    /// A line exceeds the fixed maximum length.
    LineTooLong,
    /// The start line holds no token at all.
    EmptyStartLine,
    /// The method token is not a recognized verb.
    BadMethod,
}

// The specification-level parser. The executable one mirrors it clause by
// clause; `Req::new`'s contract ties the two together.

/// The first position at or after `pos` where CR LF begins, if any.
pub open spec fn find_crlf(b: Seq<u8>, pos: int) -> Option<int>
    decreases b.len() - pos,
{
    if pos < 0 || pos + 2 > b.len() {
        None
    } else if b[pos] == 13 && b[pos + 1] == 10 {
        Some(pos)
    } else {
        find_crlf(b, pos + 1)
    }
}

pub proof fn lemma_find_crlf(b: Seq<u8>, pos: int)
    requires
        0 <= pos,
    ensures
        match find_crlf(b, pos) {
            Some(j) => pos <= j && j + 2 <= b.len() && b[j] == 13 && b[j + 1] == 10,
            None => true,
        },
    decreases b.len() - pos,
{
    if !(pos < 0 || pos + 2 > b.len()) && !(b[pos] == 13 && b[pos + 1] == 10) {
        lemma_find_crlf(b, pos + 1);
    }
}

/// One line: the bytes before the next CR LF, and the position after it.
pub open spec fn spec_next_line(b: Seq<u8>, pos: int) -> Result<(Seq<u8>, int), ReqError> {
    match find_crlf(b, pos) {
        None => Err(ReqError::MissingLineEnd),
        Some(j) => if j - pos > MAX_HTTP_HEADER_LINE_LENGTH as int {
            Err(ReqError::LineTooLong)
        } else {
            Ok((b.subrange(pos, j), j + 2))
        },
    }
}

/// Whitespace as the start line and header values use it.
pub open spec fn is_ws(c: u8) -> bool {
    c == 32 || c == 9
}

/// The first non-whitespace position at or after `pos`.
pub open spec fn token_start(l: Seq<u8>, pos: int) -> int
    decreases l.len() - pos,
{
    if pos < 0 || pos >= l.len() {
        l.len() as int
    } else if is_ws(l[pos]) {
        token_start(l, pos + 1)
    } else {
        pos
    }
}

/// The first whitespace position at or after `pos`, or the end.
pub open spec fn token_end(l: Seq<u8>, pos: int) -> int
    decreases l.len() - pos,
{
    if pos < 0 || pos >= l.len() {
        l.len() as int
    } else if is_ws(l[pos]) {
        pos
    } else {
        token_end(l, pos + 1)
    }
}

/// The next whitespace-separated token at or after `pos`, with the
/// position where it ends.
pub open spec fn spec_next_token(l: Seq<u8>, pos: int) -> Option<(Seq<u8>, int)> {
    let s = token_start(l, pos);
    if s >= l.len() {
        None
    } else {
        Some((l.subrange(s, token_end(l, s)), token_end(l, s)))
    }
}

/// The position reached by dropping trailing whitespace from `l[..pos]`.
pub open spec fn trim_back(l: Seq<u8>, pos: int) -> int
    decreases pos,
{
    if pos <= 0 {
        0
    } else if is_ws(l[pos - 1]) {
        trim_back(l, pos - 1)
    } else {
        pos
    }
}

/// `l` without leading and trailing whitespace.
pub open spec fn spec_trim(l: Seq<u8>) -> Seq<u8> {
    let a = token_start(l, 0);
    let b = trim_back(l, l.len() as int);
    if a < b {
        l.subrange(a, b)
    } else {
        Seq::empty()
    }
}

/// The first colon at or after `pos`, if any.
pub open spec fn find_colon(l: Seq<u8>, pos: int) -> Option<int>
    decreases l.len() - pos,
{
    if pos < 0 || pos >= l.len() {
        None
    } else if l[pos] == 58 {
        Some(pos)
    } else {
        find_colon(l, pos + 1)
    }
}

/// A header line split at its first colon, both parts trimmed; without a
/// colon the whole trimmed line is the name and the value is empty.
pub open spec fn spec_split_header(l: Seq<u8>) -> (Seq<u8>, Seq<u8>) {
    match find_colon(l, 0) {
        None => (spec_trim(l), Seq::empty()),
        Some(c) => (spec_trim(l.subrange(0, c)), spec_trim(l.subrange(c + 1, l.len() as int))),
    }
}

/// The header map read from `b` starting at `pos`, on top of `hs`: each
/// line up to the empty one contributes one name/value pair, a later line
/// for the same name winning.
pub open spec fn spec_parse_headers(b: Seq<u8>, pos: int, hs: Map<Seq<u8>, Seq<u8>>) -> Result<
    Map<Seq<u8>, Seq<u8>>,
    ReqError,
>
    decreases b.len() - pos,
    when 0 <= pos <= b.len()
    via spec_parse_headers_dec
{
    match spec_next_line(b, pos) {
        Err(e) => Err(e),
        Ok((line, p2)) => {
            if line.len() == 0 {
                Ok(hs)
            } else {
                let kv = spec_split_header(line);
                spec_parse_headers(b, p2, hs.insert(kv.0, kv.1))
            }
        },
    }
}

#[via_fn]
proof fn spec_parse_headers_dec(b: Seq<u8>, pos: int, hs: Map<Seq<u8>, Seq<u8>>) {
    if 0 <= pos <= b.len() {
        lemma_find_crlf(b, pos);
    }
}

/// What a well-formed request head denotes.
pub struct ReqModel {
    pub method: Method,
    pub path: Seq<u8>,
    pub version: Seq<u8>,
    pub headers: Map<Seq<u8>, Seq<u8>>,
}

/// The whole parse: a start line of method, path and version tokens,
/// then the header block. A missing path or version is empty, an
/// unrecognized method fails, and a missing first token fails.
pub open spec fn spec_parse_req(b: Seq<u8>) -> Result<ReqModel, ReqError> {
    match spec_next_line(b, 0) {
        Err(e) => Err(e),
        Ok((line, p2)) => match spec_next_token(line, 0) {
            None => Err(ReqError::EmptyStartLine),
            Some((mtok, e1)) => {
                if method_of(mtok) == Method::UNKNOWN {
                    Err(ReqError::BadMethod)
                } else {
                    let path = match spec_next_token(line, e1) {
                        None => Seq::empty(),
                        Some((t, _)) => t,
                    };
                    let e2 = match spec_next_token(line, e1) {
                        None => e1,
                        Some((_, e)) => e,
                    };
                    let version = match spec_next_token(line, e2) {
                        None => Seq::empty(),
                        Some((t, _)) => t,
                    };
                    match spec_parse_headers(b, p2, Map::empty()) {
                        Err(e) => Err(e),
                        Ok(hs) => Ok(
                            ReqModel {
                                method: method_of(mtok),
                                path: path,
                                version: version,
                                headers: hs,
                            },
                        ),
                    }
                }
            },
        },
    }
}

// The executable parser.

fn find_crlf_at(b: &[u8], pos: usize) -> (r: Option<usize>)
    requires
        pos <= b@.len(),
    ensures
        match r {
            Some(j) => find_crlf(b@, pos as int) == Some(j as int) && pos <= j && j + 2
                <= b@.len(),
            None => find_crlf(b@, pos as int) is None,
        },
{
    let blen = b.len();
    if blen < 2 {
        return None;
    }
    let mut i = pos;
    while i < blen - 1
        invariant
            blen == b@.len(),
            2 <= blen,
            pos <= i <= blen,
            find_crlf(b@, pos as int) == find_crlf(b@, i as int),
        decreases blen - i,
    {
        if b[i] == 13 && b[i + 1] == 10 {
            proof {
                lemma_find_crlf(b@, pos as int);
            }
            return Some(i);
        }
        i += 1;
    }
    None
}

fn next_line<'a>(b: &'a [u8], pos: usize) -> (r: Result<(&'a [u8], usize), ReqError>)
    requires
        pos <= b@.len(),
    ensures
        match r {
            Ok((line, p2)) => spec_next_line(b@, pos as int) == Ok::<_, ReqError>(
                (line@, p2 as int),
            ) && pos < p2 <= b@.len(),
            Err(e) => spec_next_line(b@, pos as int) == Err::<(Seq<u8>, int), ReqError>(e),
        },
{
    let blen = b.len();
    match find_crlf_at(b, pos) {
        None => Err(ReqError::MissingLineEnd),
        Some(j) => {
            if j - pos > MAX_HTTP_HEADER_LINE_LENGTH {
                Err(ReqError::LineTooLong)
            } else {
                proof {
                    assert(j + 2 <= blen);
                }
                Ok((&b[pos..j], j + 2))
            }
        },
    }
}

fn next_token<'a>(l: &'a [u8], pos: usize) -> (r: Option<(&'a [u8], usize)>)
    requires
        pos <= l@.len(),
    ensures
        match r {
            Some(t) => spec_next_token(l@, pos as int) == Some((t.0@, t.1 as int)) && pos <= t.1
                <= l@.len(),
            None => spec_next_token(l@, pos as int) is None,
        },
{
    let llen = l.len();
    let mut s = pos;
    while s < llen && (l[s] == 32 || l[s] == 9)
        invariant
            llen == l@.len(),
            pos <= s <= llen,
            token_start(l@, pos as int) == token_start(l@, s as int),
        decreases llen - s,
    {
        s += 1;
    }
    if s >= llen {
        return None;
    }
    let mut e = s;
    while e < llen && !(l[e] == 32 || l[e] == 9)
        invariant
            llen == l@.len(),
            s <= e <= llen,
            token_end(l@, s as int) == token_end(l@, e as int),
        decreases llen - e,
    {
        e += 1;
    }
    proof {
        assert(token_start(l@, pos as int) == s);
        assert(token_end(l@, s as int) == e);
    }
    Some((&l[s..e], e))
}

proof fn lemma_trim_back_all_ws(l: Seq<u8>, a: int)
    requires
        0 <= a <= l.len(),
        forall|k: int| 0 <= k < a ==> is_ws(#[trigger] l[k]),
    ensures
        trim_back(l, a) == 0,
    decreases a,
{
    if a > 0 {
        lemma_trim_back_all_ws(l, a - 1);
    }
}

fn trim_slice<'a>(l: &'a [u8]) -> (r: &'a [u8])
    ensures
        r@ == spec_trim(l@),
{
    let llen = l.len();
    let mut a: usize = 0;
    while a < llen && (l[a] == 32 || l[a] == 9)
        invariant
            llen == l@.len(),
            a <= llen,
            token_start(l@, 0) == token_start(l@, a as int),
            forall|k: int| 0 <= k < a ==> is_ws(#[trigger] l@[k]),
        decreases llen - a,
    {
        a += 1;
    }
    let mut b: usize = llen;
    while b > a && (l[b - 1] == 32 || l[b - 1] == 9)
        invariant
            llen == l@.len(),
            a <= b <= llen,
            forall|k: int| 0 <= k < a ==> is_ws(#[trigger] l@[k]),
            trim_back(l@, llen as int) == trim_back(l@, b as int),
        decreases b,
    {
        b -= 1;
    }
    proof {
        assert(token_start(l@, 0) == a);
        if b == a {
            lemma_trim_back_all_ws(l@, a as int);
            assert(trim_back(l@, l@.len() as int) == 0);
            assert(l@.subrange(a as int, b as int) =~= spec_trim(l@));
        } else {
            assert(trim_back(l@, b as int) == b);
        }
    }
    &l[a..b]
}

fn find_colon_at(l: &[u8]) -> (r: Option<usize>)
    ensures
        match r {
            Some(c) => find_colon(l@, 0) == Some(c as int) && c < l@.len(),
            None => find_colon(l@, 0) is None,
        },
{
    let llen = l.len();
    let mut i: usize = 0;
    while i < llen
        invariant
            llen == l@.len(),
            i <= llen,
            find_colon(l@, 0) == find_colon(l@, i as int),
        decreases llen - i,
    {
        if l[i] == 58 {
            return Some(i);
        }
        i += 1;
    }
    None
}

/// Splits a header line at its first colon and trims both parts.
pub fn split_header_line(l: &[u8]) -> (r: (Vec<u8>, Vec<u8>))
    ensures
        (r.0@, r.1@) == spec_split_header(l@),
{
    match find_colon_at(l) {
        None => {
            let k = vstd::slice::slice_to_vec(trim_slice(l));
            let v: Vec<u8> = Vec::new();
            (k, v)
        },
        Some(c) => {
            let llen = l.len();
            let k = vstd::slice::slice_to_vec(trim_slice(&l[0..c]));
            let v = vstd::slice::slice_to_vec(trim_slice(&l[c + 1..llen]));
            (k, v)
        },
    }
}

/// A parsed request head: the body is not read here.
#[derive(Debug)]
pub struct Req {
    pub method: Method,
    pub path: Vec<u8>,
    pub version: Vec<u8>,
    pub headers: Headers,
}

impl Req {
    pub fn method(&self) -> (m: Method)
        ensures
            m == self.method,
    {
        self.method
    }

    pub fn path(&self) -> (p: &Vec<u8>)
        ensures
            p == &self.path,
    {
        &self.path
    }

    /// Reads header lines from `pos` until the empty line, inserting each
    /// split pair into this request's headers in order.
    fn parse_headers(&mut self, b: &[u8], pos: usize) -> (r: Result<(), ReqError>)
        requires
            old(self).headers.wf(),
            pos <= b@.len(),
        ensures
            final(self).method == old(self).method,
            final(self).path == old(self).path,
            final(self).version == old(self).version,
            final(self).headers.wf(),
            match r {
                Ok(()) => spec_parse_headers(b@, pos as int, old(self).headers@) == Ok::<
                    _,
                    ReqError,
                >(final(self).headers@),
                Err(e) => spec_parse_headers(b@, pos as int, old(self).headers@) == Err::<
                    Map<Seq<u8>, Seq<u8>>,
                    ReqError,
                >(e),
            },
        decreases b@.len() - pos,
    {
        match next_line(b, pos) {
            Err(e) => Err(e),
            Ok((line, p2)) => {
                if line.len() == 0 {
                    Ok(())
                } else {
                    let kv = split_header_line(line);
                    self.headers.insert(kv.0.as_slice(), kv.1);
                    self.parse_headers(b, p2)
                }
            },
        }
    }

    /// Parses a request head from raw bytes: the start line's method, path
    /// and version tokens, then the header block up to the empty line.
    pub fn new(input: &[u8]) -> (r: Result<Req, ReqError>)
        ensures
            match r {
                Ok(req) => {
                    &&& spec_parse_req(input@) is Ok
                    &&& req.method == spec_parse_req(input@)->Ok_0.method
                    &&& req.path@ == spec_parse_req(input@)->Ok_0.path
                    &&& req.version@ == spec_parse_req(input@)->Ok_0.version
                    &&& req.headers@ == spec_parse_req(input@)->Ok_0.headers
                    &&& req.headers.wf()
                },
                Err(e) => spec_parse_req(input@) == Err::<ReqModel, ReqError>(e),
            },
    {
        let mut req = Req {
            method: Method::UNKNOWN,
            path: Vec::new(),
            version: Vec::new(),
            headers: Headers::new(),
        };
        let first_line = match next_line(input, 0) {
            Err(e) => {
                return Err(e);
            },
            Ok((line, p)) => (line, p),
        };
        let line = first_line.0;
        let p2 = first_line.1;
        let mtok_end: usize;
        match next_token(line, 0) {
            None => {
                return Err(ReqError::EmptyStartLine);
            },
            Some((mtok, e1)) => {
                let m = Method::from_bytes(mtok);
                if matches!(m, Method::UNKNOWN) {
                    return Err(ReqError::BadMethod);
                }
                req.method = m;
                mtok_end = e1;
            },
        }
        let mut e2 = mtok_end;
        match next_token(line, mtok_end) {
            None => {},
            Some((t, e)) => {
                req.path = vstd::slice::slice_to_vec(t);
                e2 = e;
            },
        }
        match next_token(line, e2) {
            None => {},
            Some((t, _)) => {
                req.version = vstd::slice::slice_to_vec(t);
            },
        }
        match req.parse_headers(input, p2) {
            Err(e) => Err(e),
            Ok(()) => Ok(req),
        }
    }
}

} // verus!
