//! Message heads: request line / status line plus header block, and their
//! serialization to wire bytes.
//!
//! A head serializes deterministically: the start line, each header as
//! `Name: Value` followed by CRLF, and a final blank line.  Values that
//! cannot be written on the wire are rejected with `InvalidHeaderValue`; a
//! method, target, status code, or header name outside its syntax is
//! rejected with `MalformedHead`.

use vstd::prelude::*;

use crate::chunked::CR;
use crate::chunked::LF;
use crate::errors::HeadError;
use crate::headers::Headers;
use crate::headers::is_tchar;
use crate::headers::is_target_byte;
use crate::headers::is_value_byte;
use crate::headers::valid_token;
use crate::headers::valid_target;
use crate::headers::valid_value;
use crate::status::reason_of;
use crate::status::reason_phrase;

verus! {

/// The one protocol version this codec speaks.
#[derive(Clone, Copy, Debug, PartialEq, Eq, Structural)]
pub enum Version {
    Http11,
}

/// The bytes `HTTP/1.1`.
pub open spec fn http11_bytes() -> Seq<u8> {
    seq![72u8, 84, 84, 80, 47, 49, 46, 49]
}

/// One serialized header line: `Name: Value` and CRLF.
pub open spec fn header_line_bytes(h: (Seq<u8>, Seq<u8>)) -> Seq<u8> {
    h.0 + seq![58u8, 32] + h.1 + seq![CR, LF]
}

/// All header lines in order.
pub open spec fn header_lines_bytes(hs: Seq<(Seq<u8>, Seq<u8>)>) -> Seq<u8>
    decreases hs.len(),
{
    if hs.len() == 0 {
        Seq::empty()
    } else {
        header_line_bytes(hs[0]) + header_lines_bytes(hs.skip(1))
    }
}

/// The header block: all header lines and the final blank line.
pub open spec fn head_block_bytes(hs: Seq<(Seq<u8>, Seq<u8>)>) -> Seq<u8> {
    header_lines_bytes(hs) + seq![CR, LF]
}

/// A serialized request head.
pub open spec fn request_head_bytes(m: Seq<u8>, t: Seq<u8>, hs: Seq<(Seq<u8>, Seq<u8>)>) -> Seq<
    u8,
> {
    m + seq![32u8] + t + seq![32u8] + http11_bytes() + seq![CR, LF] + head_block_bytes(hs)
}

/// The three decimal digits of a status code.
pub open spec fn dec3_digits(s: nat) -> Seq<u8> {
    seq![(48 + (s / 100) % 10) as u8, (48 + (s / 10) % 10) as u8, (48 + s % 10) as u8]
}

/// The reason phrase written for a status code: its canonical phrase, or
/// nothing for a code without one.
pub open spec fn reason_seq(status: u16) -> Seq<u8> {
    match reason_of(status) {
        Some(q) => q,
        None => Seq::empty(),
    }
}

/// A serialized status line: `HTTP/1.1 <code> <reason>` and CRLF.
pub open spec fn status_line_bytes(status: u16) -> Seq<u8> {
    http11_bytes() + seq![32u8] + dec3_digits(status as nat) + seq![32u8] + reason_seq(status)
        + seq![CR, LF]
}

/// A serialized response head.
pub open spec fn response_head_bytes(status: u16, hs: Seq<(Seq<u8>, Seq<u8>)>) -> Seq<u8> {
    status_line_bytes(status) + head_block_bytes(hs)
}

/// Every header name is a token.
pub open spec fn valid_header_names(hs: Seq<(Seq<u8>, Seq<u8>)>) -> bool {
    forall|i: int| 0 <= i < hs.len() ==> valid_token((#[trigger] hs[i]).0)
}

/// Every header value is representable on the wire.
pub open spec fn valid_header_values(hs: Seq<(Seq<u8>, Seq<u8>)>) -> bool {
    forall|i: int| 0 <= i < hs.len() ==> valid_value((#[trigger] hs[i]).1)
}

/// Appending one header appends its line.
pub proof fn lemma_header_lines_push(hs: Seq<(Seq<u8>, Seq<u8>)>, h: (Seq<u8>, Seq<u8>))
    ensures
        header_lines_bytes(hs.push(h)) == header_lines_bytes(hs) + header_line_bytes(h),
    decreases hs.len(),
{
    reveal_with_fuel(header_lines_bytes, 3);
    if hs.len() == 0 {
        assert(hs.push(h).skip(1) =~= Seq::<(Seq<u8>, Seq<u8>)>::empty());
        assert(hs.push(h)[0] == h);
        assert(header_line_bytes(h) + Seq::<u8>::empty() =~= header_line_bytes(h));
        assert(Seq::<u8>::empty() + header_line_bytes(h) =~= header_line_bytes(h));
        assert(header_lines_bytes(hs.push(h)) =~= header_lines_bytes(hs) + header_line_bytes(h));
    } else {
        assert(hs.push(h).skip(1) =~= hs.skip(1).push(h));
        assert(hs.push(h)[0] == hs[0]);
        lemma_header_lines_push(hs.skip(1), h);
        assert(header_line_bytes(hs[0]) + (header_lines_bytes(hs.skip(1)) + header_line_bytes(
            h,
        )) =~= (header_line_bytes(hs[0]) + header_lines_bytes(hs.skip(1))) + header_line_bytes(h));
        assert(header_lines_bytes(hs.push(h)) =~= header_lines_bytes(hs) + header_line_bytes(h));
    }
}

/// Checks that a byte string is a non-empty token.
pub fn check_token(s: &[u8]) -> (r: bool)
    ensures
        r == valid_token(s@),
{
    if s.len() == 0 {
        return false;
    }
    let mut i: usize = 0;
    while i < s.len()
        invariant
            i <= s@.len(),
            forall|m: int| 0 <= m < i ==> is_tchar(#[trigger] s@[m]),
        decreases s@.len() - i,
    {
        let b = *vstd::slice::slice_index_get(s, i);
        let ok = (48 <= b && b <= 57) || (65 <= b && b <= 90) || (97 <= b && b <= 122) || b == 33
            || (35 <= b && b <= 39) || b == 42 || b == 43 || b == 45 || b == 46 || b == 94 || b
            == 95 || b == 96 || b == 124 || b == 126;
        if !ok {
            return false;
        }
        i = i + 1;
    }
    true
}

/// Checks that a byte string is a non-empty request target.
pub fn check_target(s: &[u8]) -> (r: bool)
    ensures
        r == valid_target(s@),
{
    if s.len() == 0 {
        return false;
    }
    let mut i: usize = 0;
    while i < s.len()
        invariant
            i <= s@.len(),
            forall|m: int| 0 <= m < i ==> is_target_byte(#[trigger] s@[m]),
        decreases s@.len() - i,
    {
        let b = *vstd::slice::slice_index_get(s, i);
        if b < 33 || b > 126 {
            return false;
        }
        i = i + 1;
    }
    true
}

/// Checks that a byte string is representable as a header value.
pub fn check_value(s: &[u8]) -> (r: bool)
    ensures
        r == valid_value(s@),
{
    let mut i: usize = 0;
    while i < s.len()
        invariant
            i <= s@.len(),
            forall|m: int| 0 <= m < i ==> is_value_byte(#[trigger] s@[m]),
        decreases s@.len() - i,
    {
        let b = *vstd::slice::slice_index_get(s, i);
        if !(b == 9 || (32 <= b && b <= 126)) {
            return false;
        }
        i = i + 1;
    }
    true
}

/// Checks all header names, then all header values.
fn check_headers(headers: &Headers) -> (r: Result<(), HeadError>)
    ensures
        (r == Ok::<(), HeadError>(())) == (valid_header_names(headers.model())
            && valid_header_values(headers.model())),
        r == Err::<(), HeadError>(HeadError::MalformedHead) <==> !valid_header_names(
            headers.model(),
        ),
        r == Err::<(), HeadError>(HeadError::InvalidHeaderValue) <==> valid_header_names(
            headers.model(),
        ) && !valid_header_values(headers.model()),
{
    let ghost hs = headers.model();
    let n = headers.len();
    let mut i: usize = 0;
    while i < n
        invariant
            n == hs.len(),
            hs == headers.model(),
            i <= n,
            forall|m: int| 0 <= m < i ==> valid_token((#[trigger] hs[m]).0),
        decreases n - i,
    {
        let (name, _) = headers.get(i);
        if !check_token(name.as_slice()) {
            return Err(HeadError::MalformedHead);
        }
        i = i + 1;
    }
    let mut j: usize = 0;
    while j < n
        invariant
            n == hs.len(),
            hs == headers.model(),
            j <= n,
            valid_header_names(hs),
            forall|m: int| 0 <= m < j ==> valid_value((#[trigger] hs[m]).1),
        decreases n - j,
    {
        let (_, value) = headers.get(j);
        if !check_value(value.as_slice()) {
            return Err(HeadError::InvalidHeaderValue);
        }
        j = j + 1;
    }
    Ok(())
}

/// Serializes the header block after the start line: each header line,
/// then the final blank line.
fn push_head_block(out: &mut Vec<u8>, headers: &Headers)
    ensures
        final(out)@ == old(out)@ + head_block_bytes(headers.model()),
{
    let ghost hs = headers.model();
    let ghost out0 = out@;
    let n = headers.len();
    let mut i: usize = 0;
    proof {
        assert(header_lines_bytes(hs.take(0)) =~= Seq::<u8>::empty());
        assert(out@ =~= out0 + header_lines_bytes(hs.take(0)));
    }
    while i < n
        invariant
            n == hs.len(),
            hs == headers.model(),
            i <= n,
            out@ == out0 + header_lines_bytes(hs.take(i as int)),
        decreases n - i,
    {
        let (name, value) = headers.get(i);
        let ghost pre = out@;
        out.extend_from_slice(name.as_slice());
        out.push(58);
        out.push(32);
        out.extend_from_slice(value.as_slice());
        out.push(CR);
        out.push(LF);
        proof {
            assert(out@ =~= pre + header_line_bytes(hs[i as int]));
            assert(hs.take(i + 1) =~= hs.take(i as int).push(hs[i as int]));
            lemma_header_lines_push(hs.take(i as int), hs[i as int]);
            assert(out@ =~= out0 + header_lines_bytes(hs.take(i + 1)));
        }
        i = i + 1;
    }
    out.push(CR);
    out.push(LF);
    proof {
        assert(hs.take(n as int) =~= hs);
        assert(out@ =~= out0 + head_block_bytes(hs));
    }
}

/// A request head: method, target, version, and headers.
#[derive(Debug)]
pub struct RequestHead {
    pub method: Vec<u8>,
    pub uri: Vec<u8>,
    pub version: Version,
    pub headers: Headers,
}

impl RequestHead {
    pub fn new(method: Vec<u8>, uri: Vec<u8>, version: Version, headers: Headers) -> (r:
        RequestHead)
        ensures
            r.method@ == method@,
            r.uri@ == uri@,
            r.version == version,
            r.headers.model() == headers.model(),
    {
        RequestHead { method, uri, version, headers }
    }

    pub fn method(&self) -> (r: &Vec<u8>)
        ensures
            r@ == self.method@,
    {
        &self.method
    }

    pub fn uri(&self) -> (r: &Vec<u8>)
        ensures
            r@ == self.uri@,
    {
        &self.uri
    }

    pub fn version(&self) -> (r: Version)
        ensures
            r == self.version,
    {
        self.version
    }

    pub fn headers(&self) -> (r: &Headers)
        ensures
            r.model() == self.headers.model(),
    {
        &self.headers
    }

    /// Serializes the head: request line, header lines, blank line.
    /// Succeeds exactly when the method is a token, the target consists of
    /// visible ASCII, every header name is a token (else `MalformedHead`),
    /// and every header value is representable (else `InvalidHeaderValue`).
    pub fn to_vec(&self) -> (r: Result<Vec<u8>, HeadError>)
        ensures
            r is Ok <==> valid_token(self.method@) && valid_target(self.uri@)
                && valid_header_names(self.headers.model()) && valid_header_values(
                self.headers.model(),
            ),
            r matches Ok(v) ==> v@ == request_head_bytes(
                self.method@,
                self.uri@,
                self.headers.model(),
            ),
            r == Err::<Vec<u8>, HeadError>(HeadError::MalformedHead) <==> !(valid_token(
                self.method@,
            ) && valid_target(self.uri@) && valid_header_names(self.headers.model())),
            r == Err::<Vec<u8>, HeadError>(HeadError::InvalidHeaderValue) <==> valid_token(
                self.method@,
            ) && valid_target(self.uri@) && valid_header_names(self.headers.model())
                && !valid_header_values(self.headers.model()),
    {
        if !check_token(self.method.as_slice()) {
            return Err(HeadError::MalformedHead);
        }
        if !check_target(self.uri.as_slice()) {
            return Err(HeadError::MalformedHead);
        }
        match check_headers(&self.headers) {
            Err(e) => {
                return Err(e);
            },
            Ok(()) => {},
        }
        let mut out: Vec<u8> = Vec::new();
        out.extend_from_slice(self.method.as_slice());
        out.push(32);
        out.extend_from_slice(self.uri.as_slice());
        out.push(32);
        let v11: [u8; 8] = [72u8, 84, 84, 80, 47, 49, 46, 49];
        out.extend_from_slice(v11.as_slice());
        out.push(CR);
        out.push(LF);
        let ghost line = out@;
        proof {
            assert(line =~= self.method@ + seq![32u8] + self.uri@ + seq![32u8] + http11_bytes()
                + seq![CR, LF]);
        }
        push_head_block(&mut out, &self.headers);
        proof {
            assert(out@ =~= request_head_bytes(self.method@, self.uri@, self.headers.model()));
        }
        Ok(out)
    }
}

/// A response head: status code, version, and headers.
#[derive(Debug)]
pub struct ResponseHead {
    pub status: u16,
    pub version: Version,
    pub headers: Headers,
}

impl ResponseHead {
    pub fn new(status: u16, version: Version, headers: Headers) -> (r: ResponseHead)
        ensures
            r.status == status,
            r.version == version,
            r.headers.model() == headers.model(),
    {
        ResponseHead { status, version, headers }
    }

    pub fn status(&self) -> (r: u16)
        ensures
            r == self.status,
    {
        self.status
    }

    pub fn version(&self) -> (r: Version)
        ensures
            r == self.version,
    {
        self.version
    }

    pub fn headers(&self) -> (r: &Headers)
        ensures
            r.model() == self.headers.model(),
    {
        &self.headers
    }

    /// Serializes the head: status line with the code's canonical reason
    /// phrase (empty for an unknown code), header lines, blank line.
    /// Succeeds exactly when the status is a three-digit code and the
    /// headers are representable.
    pub fn to_vec(&self) -> (r: Result<Vec<u8>, HeadError>)
        ensures
            r is Ok <==> 100 <= self.status <= 999 && valid_header_names(self.headers.model())
                && valid_header_values(self.headers.model()),
            r matches Ok(v) ==> v@ == response_head_bytes(self.status, self.headers.model()),
            r == Err::<Vec<u8>, HeadError>(HeadError::MalformedHead) <==> !(100 <= self.status
                <= 999 && valid_header_names(self.headers.model())),
            r == Err::<Vec<u8>, HeadError>(HeadError::InvalidHeaderValue) <==> 100 <= self.status
                <= 999 && valid_header_names(self.headers.model()) && !valid_header_values(
                self.headers.model(),
            ),
    {
        if self.status < 100 || self.status > 999 {
            return Err(HeadError::MalformedHead);
        }
        match check_headers(&self.headers) {
            Err(e) => {
                return Err(e);
            },
            Ok(()) => {},
        }
        let mut out = status_line_to_vec(self.status);
        push_head_block(&mut out, &self.headers);
        proof {
            assert(out@ =~= response_head_bytes(self.status, self.headers.model()));
        }
        Ok(out)
    }
}

/// A bare status line.
#[derive(Debug)]
pub struct StatusLine {
    pub status: u16,
    pub version: Version,
}

impl StatusLine {
    pub fn new(status: u16, version: Version) -> (r: StatusLine)
        ensures
            r.status == status,
            r.version == version,
    {
        StatusLine { status, version }
    }

    pub fn status(&self) -> (r: u16)
        ensures
            r == self.status,
    {
        self.status
    }

    pub fn version(&self) -> (r: Version)
        ensures
            r == self.version,
    {
        self.version
    }

    /// Serializes the status line alone, with the code's canonical reason
    /// phrase (empty for an unknown code).
    pub fn to_vec(&self) -> (r: Result<Vec<u8>, HeadError>)
        ensures
            r is Ok <==> 100 <= self.status <= 999,
            r matches Ok(v) ==> v@ == status_line_bytes(self.status),
            r is Err ==> r == Err::<Vec<u8>, HeadError>(HeadError::MalformedHead),
    {
        if self.status < 100 || self.status > 999 {
            return Err(HeadError::MalformedHead);
        }
        Ok(status_line_to_vec(self.status))
    }
}

/// Serializes `HTTP/1.1 <code> <reason>` and CRLF for a three-digit code.
fn status_line_to_vec(status: u16) -> (r: Vec<u8>)
    requires
        100 <= status <= 999,
    ensures
        r@ == status_line_bytes(status),
{
    let mut out: Vec<u8> = Vec::new();
    let v11: [u8; 8] = [72u8, 84, 84, 80, 47, 49, 46, 49];
    out.extend_from_slice(v11.as_slice());
    out.push(32);
    let d1: u8 = (status / 100) as u8 + 48;
    let d2: u8 = ((status / 10) % 10) as u8 + 48;
    let d3: u8 = (status % 10) as u8 + 48;
    out.push(d1);
    out.push(d2);
    out.push(d3);
    out.push(32);
    proof {
        assert((status as nat / 100) % 10 == status as nat / 100) by (nonlinear_arith)
            requires
                100 <= status <= 999,
        ;
    }
    match reason_phrase(status) {
        Some(v) => {
            out.extend_from_slice(v.as_slice());
        },
        None => {},
    }
    out.push(CR);
    out.push(LF);
    proof {
        assert(out@ =~= status_line_bytes(status));
    }
    out
}

} // verus!
