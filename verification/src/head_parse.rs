//! Syntactic parser for message heads.
//!
//! The grammar is strict HTTP/1.1 framing: a start line, then header lines
//! of the form `name: value`, each line ended by CRLF, the block closed by
//! a blank line that must also end the buffer.  Optional spaces and tabs
//! after the colon are skipped; values are not trimmed at the end.  The
//! version must read exactly `HTTP/1.1`; anything else that still looks
//! like a version is `UnsupportedVersion`.  A response's reason phrase is
//! discarded without validation.

use vstd::prelude::*;

use crate::chunked::CR;
use crate::terminator::TerminatorOverlap;
use crate::terminator::ends_with_terminator;
use crate::terminator::lemma_spec_overlap;
use crate::terminator::is_overlap;
use crate::chunked::LF;
use crate::errors::HeadError;
use crate::head::RequestHead;
use crate::head::ResponseHead;
use crate::head::Version;
use crate::head::check_target;
use crate::head::check_token;
use crate::head::check_value;
use crate::headers::Headers;
use crate::headers::bytes_eq;
use crate::headers::valid_token;
use crate::headers::valid_target;
use crate::headers::valid_value;

verus! {

/// Position of the first CRLF pair at or after `from`.
pub open spec fn find_crlf(s: Seq<u8>, from: int) -> Option<int>
    decreases s.len() - from
        when 0 <= from
{
    if from < 0 || from + 2 > s.len() {
        None
    } else if s[from] == CR && s[from + 1] == LF {
        Some(from)
    } else {
        find_crlf(s, from + 1)
    }
}

/// Position of the first `b` at or after `from`.
pub open spec fn find_byte(s: Seq<u8>, b: u8, from: int) -> Option<int>
    decreases s.len() - from
        when 0 <= from
{
    if from < 0 || from >= s.len() {
        None
    } else if s[from] == b {
        Some(from)
    } else {
        find_byte(s, b, from + 1)
    }
}

/// First position at or after `from` that is not a space or tab.
pub open spec fn skip_ows(s: Seq<u8>, from: int) -> int
    decreases s.len() - from
        when 0 <= from
{
    if 0 <= from < s.len() && (s[from] == 32 || s[from] == 9) {
        skip_ows(s, from + 1)
    } else {
        from
    }
}

pub proof fn lemma_find_crlf(s: Seq<u8>, from: int)
    requires
        0 <= from,
    ensures
        find_crlf(s, from) matches Some(e) ==> from <= e && e + 2 <= s.len() && s[e] == CR && s[e
            + 1] == LF,
    decreases s.len() - from,
{
    if !(from + 2 > s.len()) && !(s[from] == CR && s[from + 1] == LF) {
        lemma_find_crlf(s, from + 1);
    }
}

pub proof fn lemma_find_byte(s: Seq<u8>, b: u8, from: int)
    requires
        0 <= from,
    ensures
        find_byte(s, b, from) matches Some(e) ==> from <= e && e < s.len() && s[e] == b,
    decreases s.len() - from,
{
    if !(from >= s.len()) && !(s[from] == b) {
        lemma_find_byte(s, b, from + 1);
    }
}

pub proof fn lemma_skip_ows(s: Seq<u8>, from: int)
    requires
        0 <= from <= s.len(),
    ensures
        from <= skip_ows(s, from) <= s.len(),
    decreases s.len() - from,
{
    if from < s.len() && (s[from] == 32 || s[from] == 9) {
        lemma_skip_ows(s, from + 1);
    }
}

/// One header line (without its CRLF): a token name, a colon, optional
/// spaces and tabs, then the value up to the end of the line.
pub open spec fn parse_header_line(line: Seq<u8>) -> Option<(Seq<u8>, Seq<u8>)> {
    match find_byte(line, 58, 0) {
        None => None,
        Some(ci) => {
            let name = line.take(ci);
            let vs = skip_ows(line, ci + 1);
            let value = line.skip(vs);
            if valid_token(name) && valid_value(value) {
                Some((name, value))
            } else {
                None
            }
        },
    }
}

/// The header lines from `from` to the final blank line, which must end
/// the buffer; anything after it is rejected.
pub open spec fn parse_header_lines(s: Seq<u8>, from: int) -> Option<Seq<(Seq<u8>, Seq<u8>)>>
    decreases s.len() - from
        when 0 <= from
        via parse_header_lines_decreases
{
    if from + 2 == s.len() && s[from] == CR && s[from + 1] == LF {
        Some(Seq::empty())
    } else {
        match find_crlf(s, from) {
            None => None,
            Some(e) => {
                match parse_header_line(s.subrange(from, e)) {
                    None => None,
                    Some(h) => {
                        match parse_header_lines(s, e + 2) {
                            None => None,
                            Some(rest) => Some(seq![h] + rest),
                        }
                    },
                }
            },
        }
    }
}

#[via_fn]
proof fn parse_header_lines_decreases(s: Seq<u8>, from: int) {
    lemma_find_crlf(s, from);
}

/// A parsed request head: method, target, and headers, in bytes.
pub open spec fn spec_parse_request(s: Seq<u8>) -> Result<
    (Seq<u8>, Seq<u8>, Seq<(Seq<u8>, Seq<u8>)>),
    HeadError,
> {
    match find_crlf(s, 0) {
        None => Err(HeadError::MalformedHead),
        Some(e) => {
            let line = s.take(e);
            match find_byte(line, 32, 0) {
                None => Err(HeadError::MalformedHead),
                Some(sp1) => {
                    match find_byte(line, 32, sp1 + 1) {
                        None => Err(HeadError::MalformedHead),
                        Some(sp2) => {
                            let method = line.take(sp1);
                            let target = line.subrange(sp1 + 1, sp2);
                            let version = line.skip(sp2 + 1);
                            if !(valid_token(method) && valid_target(target)) {
                                Err(HeadError::MalformedHead)
                            } else if version != crate::head::http11_bytes() {
                                Err(HeadError::UnsupportedVersion)
                            } else {
                                match parse_header_lines(s, e + 2) {
                                    None => Err(HeadError::MalformedHead),
                                    Some(hs) => Ok((method, target, hs)),
                                }
                            }
                        },
                    }
                },
            }
        },
    }
}

/// The bytes `HTTP/`.
pub open spec fn http_slash_bytes() -> Seq<u8> {
    seq![72u8, 84, 84, 80, 47]
}

/// A parsed response head: status code and headers.  The reason phrase,
/// when present after the code, is discarded.
pub open spec fn spec_parse_response(s: Seq<u8>) -> Result<
    (u16, Seq<(Seq<u8>, Seq<u8>)>),
    HeadError,
> {
    match find_crlf(s, 0) {
        None => Err(HeadError::MalformedHead),
        Some(e) => {
            let line = s.take(e);
            if line.len() < 12 {
                Err(HeadError::MalformedHead)
            } else if line.take(8) != crate::head::http11_bytes() {
                if line.take(5) == http_slash_bytes() {
                    Err(HeadError::UnsupportedVersion)
                } else {
                    Err(HeadError::MalformedHead)
                }
            } else if line[8] != 32 {
                Err(HeadError::MalformedHead)
            } else if !(48 <= line[9] <= 57 && 48 <= line[10] <= 57 && 48 <= line[11] <= 57) {
                Err(HeadError::MalformedHead)
            } else if !(line.len() == 12 || line[12] == 32) {
                Err(HeadError::MalformedHead)
            } else {
                let status = (line[9] - 48) * 100 + (line[10] - 48) * 10 + (line[11] - 48);
                if status < 100 {
                    Err(HeadError::MalformedHead)
                } else {
                    match parse_header_lines(s, e + 2) {
                        None => Err(HeadError::MalformedHead),
                        Some(hs) => Ok((status as u16, hs)),
                    }
                }
            }
        },
    }
}

/// First CRLF at or after `from`, executably.
fn find_crlf_exec(s: &[u8], from: usize) -> (r: Option<usize>)
    requires
        from <= s@.len(),
    ensures
        (match r {
            Some(e) => find_crlf(s@, from as int) == Some(e as int) && from <= e && e + 2
                <= s@.len() && s@[e as int] == CR && s@[e + 1] == LF,
            None => find_crlf(s@, from as int) is None,
        }),
{
    if s.len() < 2 {
        return None;
    }
    let mut i = from;
    while i <= s.len() - 2
        invariant
            from <= i <= s@.len(),
            s@.len() >= 2,
            find_crlf(s@, from as int) == find_crlf(s@, i as int),
        decreases s@.len() - i,
    {
        if *vstd::slice::slice_index_get(s, i) == 13 && *vstd::slice::slice_index_get(s, i + 1)
            == 10 {
            return Some(i);
        }
        i = i + 1;
    }
    None
}

/// First occurrence of `b` at or after `from`, executably.
fn find_byte_exec(s: &[u8], b: u8, from: usize) -> (r: Option<usize>)
    requires
        from <= s@.len(),
    ensures
        (match r {
            Some(e) => find_byte(s@, b, from as int) == Some(e as int) && from <= e && e
                < s@.len() && s@[e as int] == b,
            None => find_byte(s@, b, from as int) is None,
        }),
{
    let mut i = from;
    while i < s.len()
        invariant
            from <= i <= s@.len(),
            find_byte(s@, b, from as int) == find_byte(s@, b, i as int),
        decreases s@.len() - i,
    {
        if *vstd::slice::slice_index_get(s, i) == b {
            return Some(i);
        }
        i = i + 1;
    }
    None
}

/// First position at or after `from` that is not a space or tab,
/// executably.
fn skip_ows_exec(s: &[u8], from: usize) -> (r: usize)
    requires
        from <= s@.len(),
    ensures
        r == skip_ows(s@, from as int),
        from <= r <= s@.len(),
{
    let mut i = from;
    while i < s.len() && (*vstd::slice::slice_index_get(s, i) == 32 || *vstd::slice::slice_index_get(
        s,
        i,
    ) == 9)
        invariant
            from <= i <= s@.len(),
            skip_ows(s@, from as int) == skip_ows(s@, i as int),
        decreases s@.len() - i,
    {
        i = i + 1;
    }
    i
}

/// One header line, executably.
fn parse_header_line_exec(line: &[u8]) -> (r: Option<(Vec<u8>, Vec<u8>)>)
    ensures
        (match r {
            Some(p) => parse_header_line(line@) == Some((p.0@, p.1@)),
            None => parse_header_line(line@) is None,
        }),
{
    let ci = match find_byte_exec(line, 58, 0) {
        None => {
            return None;
        },
        Some(ci) => ci,
    };
    let ll = line.len();
    proof {
        assert(ci < ll);
    }
    let vs = skip_ows_exec(line, ci + 1);
    let name = vstd::slice::slice_subrange(line, 0, ci);
    let value = vstd::slice::slice_subrange(line, vs, line.len());
    proof {
        assert(name@ =~= line@.take(ci as int));
        assert(value@ =~= line@.skip(vs as int));
    }
    if check_token(name) && check_value(value) {
        Some((vstd::slice::slice_to_vec(name), vstd::slice::slice_to_vec(value)))
    } else {
        None
    }
}

/// The header block from `start` on, executably; at most `max_headers`
/// header lines are accepted.
fn parse_lines_exec(s: &[u8], start: usize, max_headers: usize) -> (r: Result<Headers, HeadError>)
    requires
        start <= s@.len(),
    ensures
        (match parse_header_lines(s@, start as int) {
            Some(hs) => {
                if hs.len() <= max_headers {
                    r matches Ok(h) && h.model() == hs
                } else {
                    r == Err::<Headers, HeadError>(HeadError::MalformedHead)
                }
            },
            None => r == Err::<Headers, HeadError>(HeadError::MalformedHead),
        }),
{
    let mut headers = Headers::new();
    let n = s.len();
    let mut cur = start;
    proof {
        assert(headers.model() + parse_header_lines(s@, start as int)->Some_0 =~= parse_header_lines(
            s@,
            start as int,
        )->Some_0);
    }
    loop
        invariant
            start <= cur <= s@.len(),
            n == s@.len(),
            headers.model().len() <= cur,
            parse_header_lines(s@, start as int) == (match parse_header_lines(s@, cur as int) {
                None => None::<Seq<(Seq<u8>, Seq<u8>)>>,
                Some(rest) => Some(headers.model() + rest),
            }),
        decreases s@.len() - cur,
    {
        if n - cur == 2 && *vstd::slice::slice_index_get(s, cur) == 13
            && *vstd::slice::slice_index_get(s, cur + 1) == 10 {
            proof {
                assert(headers.model() + Seq::<(Seq<u8>, Seq<u8>)>::empty() =~= headers.model());
            }
            if headers.len() > max_headers {
                return Err(HeadError::MalformedHead);
            }
            return Ok(headers);
        }
        let e = match find_crlf_exec(s, cur) {
            None => {
                return Err(HeadError::MalformedHead);
            },
            Some(e) => e,
        };
        let line = vstd::slice::slice_subrange(s, cur, e);
        proof {
            assert(line@ =~= s@.subrange(cur as int, e as int));
        }
        match parse_header_line_exec(line) {
            None => {
                return Err(HeadError::MalformedHead);
            },
            Some((name, value)) => {
                let ghost h = (name@, value@);
                let ghost before = headers.model();
                headers.append(name, value);
                proof {
                    assert(parse_header_lines(s@, cur as int) == (
                    match parse_header_lines(s@, e + 2) {
                        None => None::<Seq<(Seq<u8>, Seq<u8>)>>,
                        Some(rest) => Some(seq![h] + rest),
                    }));
                    assert(headers.model() =~= before.push(h));
                    match parse_header_lines(s@, e + 2) {
                        None => {},
                        Some(rest) => {
                            assert(before + (seq![h] + rest) =~= before.push(h) + rest);
                        },
                    }
                }
                cur = e + 2;
            },
        }
    }
}

/// Parses a complete request head buffer (including the final blank line)
/// into its method, target, and headers.  The version must be `HTTP/1.1`;
/// more than `max_headers` header lines are rejected.
pub fn request_head_parse(buffer: &[u8], max_headers: usize) -> (r: Result<RequestHead, HeadError>)
    ensures
        (match spec_parse_request(buffer@) {
            Ok((m, t, hs)) => {
                if hs.len() <= max_headers {
                    r matches Ok(h) && h.method@ == m && h.uri@ == t && h.version
                        == Version::Http11 && h.headers.model() == hs
                } else {
                    r == Err::<RequestHead, HeadError>(HeadError::MalformedHead)
                }
            },
            Err(e) => r == Err::<RequestHead, HeadError>(e),
        }),
{
    let e = match find_crlf_exec(buffer, 0) {
        None => {
            return Err(HeadError::MalformedHead);
        },
        Some(e) => e,
    };
    let line = vstd::slice::slice_subrange(buffer, 0, e);
    proof {
        assert(line@ =~= buffer@.take(e as int));
    }
    let sp1 = match find_byte_exec(line, 32, 0) {
        None => {
            return Err(HeadError::MalformedHead);
        },
        Some(x) => x,
    };
    let sp2 = match find_byte_exec(line, 32, sp1 + 1) {
        None => {
            return Err(HeadError::MalformedHead);
        },
        Some(x) => x,
    };
    let method = vstd::slice::slice_subrange(line, 0, sp1);
    let target = vstd::slice::slice_subrange(line, sp1 + 1, sp2);
    let version = vstd::slice::slice_subrange(line, sp2 + 1, line.len());
    proof {
        assert(method@ =~= line@.take(sp1 as int));
        assert(target@ =~= line@.subrange(sp1 + 1, sp2 as int));
        assert(version@ =~= line@.skip(sp2 + 1));
    }
    if !check_token(method) {
        return Err(HeadError::MalformedHead);
    }
    if !check_target(target) {
        return Err(HeadError::MalformedHead);
    }
    let v11: [u8; 8] = [72u8, 84, 84, 80, 47, 49, 46, 49];
    if !bytes_eq(version, v11.as_slice()) {
        proof {
            assert(v11@ =~= crate::head::http11_bytes());
        }
        return Err(HeadError::UnsupportedVersion);
    }
    proof {
        assert(v11@ =~= crate::head::http11_bytes());
    }
    let bl = buffer.len();
    proof {
        assert(e + 2 <= bl);
    }
    let headers = match parse_lines_exec(buffer, e + 2, max_headers) {
        Err(err) => {
            return Err(err);
        },
        Ok(h) => h,
    };
    Ok(RequestHead::new(
        vstd::slice::slice_to_vec(method),
        vstd::slice::slice_to_vec(target),
        Version::Http11,
        headers,
    ))
}

/// Parses a complete response head buffer (including the final blank
/// line) into its status code and headers, discarding the reason phrase.
/// The version must be `HTTP/1.1`; more than `max_headers` header lines
/// are rejected.
pub fn response_head_parse(buffer: &[u8], max_headers: usize) -> (r: Result<
    ResponseHead,
    HeadError,
>)
    ensures
        (match spec_parse_response(buffer@) {
            Ok((st, hs)) => {
                if hs.len() <= max_headers {
                    r matches Ok(h) && h.status == st && h.version == Version::Http11
                        && h.headers.model() == hs
                } else {
                    r == Err::<ResponseHead, HeadError>(HeadError::MalformedHead)
                }
            },
            Err(e) => r == Err::<ResponseHead, HeadError>(e),
        }),
{
    let e = match find_crlf_exec(buffer, 0) {
        None => {
            return Err(HeadError::MalformedHead);
        },
        Some(e) => e,
    };
    let line = vstd::slice::slice_subrange(buffer, 0, e);
    proof {
        assert(line@ =~= buffer@.take(e as int));
    }
    if line.len() < 12 {
        return Err(HeadError::MalformedHead);
    }
    let v11: [u8; 8] = [72u8, 84, 84, 80, 47, 49, 46, 49];
    let slash: [u8; 5] = [72u8, 84, 84, 80, 47];
    let start8 = vstd::slice::slice_subrange(line, 0, 8);
    proof {
        assert(v11@ =~= crate::head::http11_bytes());
        assert(slash@ =~= http_slash_bytes());
        assert(start8@ =~= line@.take(8));
    }
    if !bytes_eq(start8, v11.as_slice()) {
        let start5 = vstd::slice::slice_subrange(line, 0, 5);
        proof {
            assert(start5@ =~= line@.take(5));
        }
        if bytes_eq(start5, slash.as_slice()) {
            return Err(HeadError::UnsupportedVersion);
        }
        return Err(HeadError::MalformedHead);
    }
    if *vstd::slice::slice_index_get(line, 8) != 32 {
        return Err(HeadError::MalformedHead);
    }
    let d1 = *vstd::slice::slice_index_get(line, 9);
    let d2 = *vstd::slice::slice_index_get(line, 10);
    let d3 = *vstd::slice::slice_index_get(line, 11);
    if d1 < 48 || d1 > 57 || d2 < 48 || d2 > 57 || d3 < 48 || d3 > 57 {
        return Err(HeadError::MalformedHead);
    }
    if !(line.len() == 12 || *vstd::slice::slice_index_get(line, 12) == 32) {
        return Err(HeadError::MalformedHead);
    }
    let status: u16 = (d1 - 48) as u16 * 100 + (d2 - 48) as u16 * 10 + (d3 - 48) as u16;
    if status < 100 {
        return Err(HeadError::MalformedHead);
    }
    let bl = buffer.len();
    proof {
        assert(e + 2 <= bl);
    }
    let headers = match parse_lines_exec(buffer, e + 2, max_headers) {
        Err(err) => {
            return Err(err);
        },
        Ok(h) => h,
    };
    Ok(ResponseHead::new(status, Version::Http11, headers))
}

/// The head terminator: an empty line, `\r\n\r\n`.
pub open spec fn head_terminator() -> Seq<u8> {
    seq![CR, LF, CR, LF]
}

/// Accumulates a request head from transport bytes, never asking for more
/// bytes than can still belong to the head, then parses it.  Callers pick
/// the limits; 8192 head bytes and 128 headers are the customary defaults.
pub struct RequestHeadParse {
    buffer: Vec<u8>,
    terminator: TerminatorOverlap,
    max_buffer: usize,
    max_headers: usize,
}

/// Accumulates a response head from transport bytes, never asking for
/// more bytes than can still belong to the head, then parses it.  Callers
/// pick the limits; 8192 head bytes and 128 headers are the customary
/// defaults.
pub struct ResponseHeadParse {
    buffer: Vec<u8>,
    terminator: TerminatorOverlap,
    max_buffer: usize,
    max_headers: usize,
}

impl RequestHeadParse {
    /// All head bytes accumulated so far.
    pub closed spec fn buf(&self) -> Seq<u8> {
        self.buffer@
    }

    /// Configured maximum head size.
    pub closed spec fn max_buf(&self) -> nat {
        self.max_buffer as nat
    }

    /// Configured maximum header count.
    pub closed spec fn max_hdrs(&self) -> nat {
        self.max_headers as nat
    }

    /// Terminator bytes still missing.
    pub closed spec fn spec_needed(&self) -> nat {
        self.terminator.spec_remaining()
    }

    pub open spec fn wf(&self) -> bool {
        &&& self.inv()
        &&& self.buf().len() <= self.max_buf()
    }

    /// The scanner tracks exactly the accumulated bytes.
    pub closed spec fn inv(&self) -> bool {
        &&& self.terminator.wf()
        &&& self.terminator.term() == head_terminator()
        &&& self.terminator.processed() == self.buffer@
    }

    pub fn new(max_buffer: usize, max_headers: usize) -> (r: RequestHeadParse)
        ensures
            r.wf(),
            r.buf() == Seq::<u8>::empty(),
            r.max_buf() == max_buffer,
            r.max_hdrs() == max_headers,
    {
        let term: [u8; 4] = [13u8, 10, 13, 10];
        let r = RequestHeadParse {
            buffer: Vec::new(),
            terminator: TerminatorOverlap::new(term.as_slice()),
            max_buffer,
            max_headers,
        };
        proof {
            assert(term@ =~= head_terminator());
        }
        r
    }

    /// True once the whole head, terminator included, has been read.
    pub fn is_complete(&self) -> (r: bool)
        requires
            self.wf(),
        ensures
            r == ends_with_terminator(self.buf(), head_terminator()),
    {
        self.terminator.done()
    }

    /// How many bytes may still be read without any risk of reading past
    /// the head terminator.
    pub fn needed(&self) -> (r: usize)
        requires
            self.wf(),
        ensures
            r == self.spec_needed(),
    {
        self.terminator.remaining()
    }

    /// Consumes bytes from `input` in terminator-bounded steps until the
    /// head is complete, the input is exhausted, or the configured maximum
    /// head size would be exceeded (`HeadTooLarge`).  Returns the
    /// accumulated length.
    pub fn read_data(&mut self, input: &[u8], pos: &mut usize) -> (r: Result<usize, HeadError>)
        requires
            old(self).wf(),
            *old(pos) <= input@.len(),
        ensures
            final(self).wf(),
            final(self).max_buf() == old(self).max_buf(),
            final(self).max_hdrs() == old(self).max_hdrs(),
            *old(pos) <= *final(pos) <= input@.len(),
            final(self).buf() == old(self).buf() + input@.subrange(
                *old(pos) as int,
                *final(pos) as int,
            ),
            (match r {
                Ok(n) => n == final(self).buf().len() && (ends_with_terminator(
                    final(self).buf(),
                    head_terminator(),
                ) || *final(pos) == input@.len()),
                Err(e) => e == HeadError::HeadTooLarge && !ends_with_terminator(
                    final(self).buf(),
                    head_terminator(),
                ) && final(self).buf().len() + (if input@.len() - *final(pos) <= final(self).spec_needed() {
                    input@.len() - *final(pos)
                } else {
                    final(self).spec_needed() as int
                }) > final(self).max_buf(),
            }),
    {
        read_data_impl(
            &mut self.buffer,
            &mut self.terminator,
            self.max_buffer,
            input,
            pos,
        )
    }

    /// Parses the accumulated bytes as a request head.
    pub fn try_take_head(&self) -> (r: Result<RequestHead, HeadError>)
        ensures
            (match spec_parse_request(self.buf()) {
                Ok((m, t, hs)) => {
                    if hs.len() <= self.max_hdrs() {
                        r matches Ok(h) && h.method@ == m && h.uri@ == t && h.version
                            == Version::Http11 && h.headers.model() == hs
                    } else {
                        r == Err::<RequestHead, HeadError>(HeadError::MalformedHead)
                    }
                },
                Err(e) => r == Err::<RequestHead, HeadError>(e),
            }),
    {
        request_head_parse(self.buffer.as_slice(), self.max_headers)
    }
}

impl ResponseHeadParse {
    /// All head bytes accumulated so far.
    pub closed spec fn buf(&self) -> Seq<u8> {
        self.buffer@
    }

    /// Configured maximum head size.
    pub closed spec fn max_buf(&self) -> nat {
        self.max_buffer as nat
    }

    /// Configured maximum header count.
    pub closed spec fn max_hdrs(&self) -> nat {
        self.max_headers as nat
    }

    /// Terminator bytes still missing.
    pub closed spec fn spec_needed(&self) -> nat {
        self.terminator.spec_remaining()
    }

    pub open spec fn wf(&self) -> bool {
        &&& self.inv()
        &&& self.buf().len() <= self.max_buf()
    }

    /// The scanner tracks exactly the accumulated bytes.
    pub closed spec fn inv(&self) -> bool {
        &&& self.terminator.wf()
        &&& self.terminator.term() == head_terminator()
        &&& self.terminator.processed() == self.buffer@
    }

    pub fn new(max_buffer: usize, max_headers: usize) -> (r: ResponseHeadParse)
        ensures
            r.wf(),
            r.buf() == Seq::<u8>::empty(),
            r.max_buf() == max_buffer,
            r.max_hdrs() == max_headers,
    {
        let term: [u8; 4] = [13u8, 10, 13, 10];
        let r = ResponseHeadParse {
            buffer: Vec::new(),
            terminator: TerminatorOverlap::new(term.as_slice()),
            max_buffer,
            max_headers,
        };
        proof {
            assert(term@ =~= head_terminator());
        }
        r
    }

    /// True once the whole head, terminator included, has been read.
    pub fn is_complete(&self) -> (r: bool)
        requires
            self.wf(),
        ensures
            r == ends_with_terminator(self.buf(), head_terminator()),
    {
        self.terminator.done()
    }

    /// How many bytes may still be read without any risk of reading past
    /// the head terminator.
    pub fn needed(&self) -> (r: usize)
        requires
            self.wf(),
        ensures
            r == self.spec_needed(),
    {
        self.terminator.remaining()
    }

    /// Consumes bytes from `input` in terminator-bounded steps until the
    /// head is complete, the input is exhausted, or the configured maximum
    /// head size would be exceeded (`HeadTooLarge`).  Returns the
    /// accumulated length.
    pub fn read_data(&mut self, input: &[u8], pos: &mut usize) -> (r: Result<usize, HeadError>)
        requires
            old(self).wf(),
            *old(pos) <= input@.len(),
        ensures
            final(self).wf(),
            final(self).max_buf() == old(self).max_buf(),
            final(self).max_hdrs() == old(self).max_hdrs(),
            *old(pos) <= *final(pos) <= input@.len(),
            final(self).buf() == old(self).buf() + input@.subrange(
                *old(pos) as int,
                *final(pos) as int,
            ),
            (match r {
                Ok(n) => n == final(self).buf().len() && (ends_with_terminator(
                    final(self).buf(),
                    head_terminator(),
                ) || *final(pos) == input@.len()),
                Err(e) => e == HeadError::HeadTooLarge && !ends_with_terminator(
                    final(self).buf(),
                    head_terminator(),
                ) && final(self).buf().len() + (if input@.len() - *final(pos) <= final(self).spec_needed() {
                    input@.len() - *final(pos)
                } else {
                    final(self).spec_needed() as int
                }) > final(self).max_buf(),
            }),
    {
        read_data_impl(
            &mut self.buffer,
            &mut self.terminator,
            self.max_buffer,
            input,
            pos,
        )
    }

    /// Parses the accumulated bytes as a response head.
    pub fn try_take_head(&self) -> (r: Result<ResponseHead, HeadError>)
        ensures
            (match spec_parse_response(self.buf()) {
                Ok((st, hs)) => {
                    if hs.len() <= self.max_hdrs() {
                        r matches Ok(h) && h.status == st && h.version == Version::Http11
                            && h.headers.model() == hs
                    } else {
                        r == Err::<ResponseHead, HeadError>(HeadError::MalformedHead)
                    }
                },
                Err(e) => r == Err::<ResponseHead, HeadError>(e),
            }),
    {
        response_head_parse(self.buffer.as_slice(), self.max_headers)
    }
}

/// The shared accumulation loop of the two head accumulators.
fn read_data_impl(
    buffer: &mut Vec<u8>,
    terminator: &mut TerminatorOverlap,
    max_buffer: usize,
    input: &[u8],
    pos: &mut usize,
) -> (r: Result<usize, HeadError>)
    requires
        old(terminator).wf(),
        old(terminator).term() == head_terminator(),
        old(terminator).processed() == old(buffer)@,
        old(buffer)@.len() <= max_buffer,
        *old(pos) <= input@.len(),
    ensures
        final(terminator).wf(),
        final(terminator).term() == head_terminator(),
        final(terminator).processed() == final(buffer)@,
        final(buffer)@.len() <= max_buffer,
        *old(pos) <= *final(pos) <= input@.len(),
        final(buffer)@ == old(buffer)@ + input@.subrange(*old(pos) as int, *final(pos) as int),
        (match r {
            Ok(n) => n == final(buffer)@.len() && (ends_with_terminator(
                final(buffer)@,
                head_terminator(),
            ) || *final(pos) == input@.len()),
            Err(e) => e == HeadError::HeadTooLarge && !ends_with_terminator(
                final(buffer)@,
                head_terminator(),
            ) && final(buffer)@.len() + (if input@.len() - *final(pos) <= final(terminator).spec_remaining() {
                input@.len() - *final(pos)
            } else {
                final(terminator).spec_remaining() as int
            }) > max_buffer,
        }),
{
    let ghost buf0 = buffer@;
    let ghost pos0 = *pos as int;
    let n = input.len();
    proof {
        assert(buf0 + input@.subrange(pos0, pos0) =~= buf0);
    }
    loop
        invariant
            terminator.wf(),
            terminator.term() == head_terminator(),
            terminator.processed() == buffer@,
            buffer@.len() <= max_buffer,
            buf0 == old(buffer)@,
            pos0 == *old(pos) as int,
            n == input@.len(),
            pos0 <= *pos <= n,
            buffer@ == buf0 + input@.subrange(pos0, *pos as int),
        ensures
            terminator.wf(),
            terminator.term() == head_terminator(),
            terminator.processed() == buffer@,
            buffer@.len() <= max_buffer,
            pos0 <= *pos <= n == input@.len(),
            buffer@ == buf0 + input@.subrange(pos0, *pos as int),
            buf0 == old(buffer)@ && pos0 == *old(pos) as int,
            terminator.spec_remaining() == 0 || *pos == n,
        decreases n - *pos,
    {
        let needed = terminator.remaining();
        if needed == 0 {
            break ;
        }
        if *pos >= n {
            break ;
        }
        let avail = n - *pos;
        let chunk = if needed <= avail {
            needed
        } else {
            avail
        };
        if max_buffer - buffer.len() < chunk {
            proof {
                lemma_spec_overlap(buffer@, head_terminator());
                if ends_with_terminator(buffer@, head_terminator()) {
                    assert(terminator.spec_remaining() == 0);
                }
            }
            return Err(HeadError::HeadTooLarge);
        }
        let piece = vstd::slice::slice_subrange(input, *pos, *pos + chunk);
        terminator.process(piece);
        buffer.extend_from_slice(piece);
        proof {
            assert(buffer@ =~= buf0 + input@.subrange(pos0, *pos + chunk));
        }
        *pos = *pos + chunk;
    }
    proof {
        lemma_spec_overlap(buffer@, head_terminator());
        if terminator.spec_remaining() == 0 {
            assert(is_overlap(buffer@, head_terminator(), 4));
        }
        if ends_with_terminator(buffer@, head_terminator()) {
            assert(terminator.spec_remaining() == 0);
        }
    }
    Ok(buffer.len())
}

} // verus!
