//! Header model: an ordered list of name/value byte pairs.
//!
//! Names and values are plain bytes.  Order is preserved and duplicate
//! names are kept as separate entries.  The framing of a message body is
//! derived from the headers here: `Transfer-Encoding: chunked` selects the
//! chunked coding, a `Content-Length` selects a fixed length, and a message
//! with neither is treated as having an empty body (both for requests and
//! responses; a read-to-close mode is deliberately not offered, to keep the
//! framing unambiguous).

use vstd::prelude::*;

verus! {

/// A token character, as allowed in header names and methods.
pub open spec fn is_tchar(b: u8) -> bool {
    ||| (48 <= b <= 57)  // digits
    ||| (65 <= b <= 90)  // upper case letters
    ||| (97 <= b <= 122)  // lower case letters
    ||| b == 33  // !
    ||| (35 <= b <= 39)  // # $ % & '
    ||| b == 42  // *
    ||| b == 43  // +
    ||| b == 45  // -
    ||| b == 46  // .
    ||| b == 94  // ^
    ||| b == 95  // _
    ||| b == 96  // `
    ||| b == 124  // |
    ||| b == 126  // ~
}

/// A non-empty run of token characters.
pub open spec fn valid_token(s: Seq<u8>) -> bool {
    s.len() >= 1 && forall|i: int| 0 <= i < s.len() ==> is_tchar(#[trigger] s[i])
}

/// A byte allowed in a header value on the wire: horizontal tab, space, or
/// visible ASCII.
pub open spec fn is_value_byte(b: u8) -> bool {
    b == 9 || (32 <= b <= 126)
}

/// Bytes representable as a header value.
pub open spec fn valid_value(s: Seq<u8>) -> bool {
    forall|i: int| 0 <= i < s.len() ==> is_value_byte(#[trigger] s[i])
}

/// A byte allowed in a request target: visible ASCII, no space.
pub open spec fn is_target_byte(b: u8) -> bool {
    33 <= b <= 126
}

/// A non-empty run of request-target bytes.
pub open spec fn valid_target(s: Seq<u8>) -> bool {
    s.len() >= 1 && forall|i: int| 0 <= i < s.len() ==> is_target_byte(#[trigger] s[i])
}

/// ASCII lower-casing of one byte.
pub open spec fn lower_byte(b: u8) -> u8 {
    if 65 <= b <= 90 {
        (b + 32) as u8
    } else {
        b
    }
}

/// ASCII lower-casing of a byte sequence, for case-insensitive header
/// name comparison.
pub open spec fn lower_seq(s: Seq<u8>) -> Seq<u8> {
    s.map_values(|b: u8| lower_byte(b))
}

/// One header field.
#[derive(Debug)]
pub struct Header {
    pub name: Vec<u8>,
    pub value: Vec<u8>,
}

/// An ordered multi-map of header fields.
#[derive(Debug)]
pub struct Headers {
    pub fields: Vec<Header>,
}

impl Header {
    /// Abstract value: the name/value byte pair.
    pub open spec fn model(&self) -> (Seq<u8>, Seq<u8>) {
        (self.name@, self.value@)
    }
}

/// Abstract value of a header list.
pub open spec fn headers_model(fields: Seq<Header>) -> Seq<(Seq<u8>, Seq<u8>)> {
    fields.map_values(|h: Header| h.model())
}

/// Every header in the list can be written on the wire.
pub open spec fn valid_headers(hs: Seq<(Seq<u8>, Seq<u8>)>) -> bool {
    forall|i: int|
        0 <= i < hs.len() ==> valid_token((#[trigger] hs[i]).0) && valid_value(hs[i].1)
}

impl Headers {
    /// Abstract value: the ordered name/value pairs.
    pub open spec fn model(&self) -> Seq<(Seq<u8>, Seq<u8>)> {
        headers_model(self.fields@)
    }

    pub fn new() -> (r: Headers)
        ensures
            r.model() == Seq::<(Seq<u8>, Seq<u8>)>::empty(),
    {
        let r = Headers { fields: Vec::new() };
        proof {
            assert(r.model() =~= Seq::<(Seq<u8>, Seq<u8>)>::empty());
        }
        r
    }

    pub fn len(&self) -> (r: usize)
        ensures
            r == self.model().len(),
    {
        self.fields.len()
    }

    /// Appends a field, preserving order and duplicates.
    pub fn append(&mut self, name: Vec<u8>, value: Vec<u8>)
        ensures
            final(self).model() == old(self).model().push((name@, value@)),
    {
        let ghost before = self.fields@;
        self.fields.push(Header { name, value });
        proof {
            assert(self.model() =~= old(self).model().push((name@, value@)));
        }
    }

    /// The name and value at an index.
    pub fn get(&self, i: usize) -> (r: (&Vec<u8>, &Vec<u8>))
        requires
            i < self.model().len(),
        ensures
            r.0@ == self.model()[i as int].0,
            r.1@ == self.model()[i as int].1,
    {
        let h = &self.fields[i];
        (&h.name, &h.value)
    }
}

/// Case-insensitive ASCII equality of two byte strings.
pub fn eq_ignore_case(a: &[u8], b: &[u8]) -> (r: bool)
    ensures
        r == (lower_seq(a@) == lower_seq(b@)),
{
    if a.len() != b.len() {
        proof {
            assert(lower_seq(a@).len() == a@.len());
            assert(lower_seq(b@).len() == b@.len());
        }
        return false;
    }
    let mut i: usize = 0;
    while i < a.len()
        invariant
            i <= a@.len() == b@.len(),
            forall|m: int| 0 <= m < i ==> lower_byte(a@[m]) == lower_byte(b@[m]),
        decreases a@.len() - i,
    {
        let x = *vstd::slice::slice_index_get(a, i);
        let y = *vstd::slice::slice_index_get(b, i);
        let xl = if 65 <= x && x <= 90 {
            x + 32
        } else {
            x
        };
        let yl = if 65 <= y && y <= 90 {
            y + 32
        } else {
            y
        };
        if xl != yl {
            proof {
                assert(lower_seq(a@)[i as int] != lower_seq(b@)[i as int]);
            }
            return false;
        }
        i = i + 1;
    }
    proof {
        assert(lower_seq(a@) =~= lower_seq(b@));
    }
    true
}

/// Byte-exact equality of two byte strings.
pub fn bytes_eq(a: &[u8], b: &[u8]) -> (r: bool)
    ensures
        r == (a@ == b@),
{
    if a.len() != b.len() {
        return false;
    }
    let mut i: usize = 0;
    while i < a.len()
        invariant
            i <= a@.len() == b@.len(),
            forall|m: int| 0 <= m < i ==> a@[m] == b@[m],
        decreases a@.len() - i,
    {
        if *vstd::slice::slice_index_get(a, i) != *vstd::slice::slice_index_get(b, i) {
            return false;
        }
        i = i + 1;
    }
    proof {
        assert(a@ =~= b@);
    }
    true
}

/// Errors in deriving a body framing from headers.
#[derive(Clone, Copy, Debug, PartialEq, Eq, Structural)]
pub enum FramingError {
    /// A `Transfer-Encoding` header with a value other than `chunked`.
    UnsupportedTransferEncoding,
    /// A `Content-Length` value that is not a plain decimal number fitting
    /// in 64 bits.
    InvalidContentLength,
    /// Both `Transfer-Encoding: chunked` and a `Content-Length` appear.
    ConflictingFraming,
}

/// A non-empty run of decimal digits.
pub open spec fn valid_decimal(s: Seq<u8>) -> bool {
    s.len() >= 1 && forall|i: int| 0 <= i < s.len() ==> 48 <= #[trigger] s[i] <= 57
}

/// Value of a decimal digit string.
pub open spec fn decimal_value(s: Seq<u8>) -> nat
    decreases s.len(),
{
    if s.len() == 0 {
        0
    } else {
        (decimal_value(s.take(s.len() - 1)) * 10 + (s.last() - 48)) as nat
    }
}

proof fn lemma_decimal_prefix_monotone(s: Seq<u8>, i: int)
    requires
        0 <= i <= s.len(),
        forall|j: int| 0 <= j < s.len() ==> 48 <= #[trigger] s[j] <= 57,
    ensures
        decimal_value(s.take(i)) <= decimal_value(s),
    decreases s.len() - i,
{
    if i < s.len() {
        lemma_decimal_prefix_monotone(s, i + 1);
        assert(s.take(i + 1).take(i) =~= s.take(i));
        assert(s.take(i + 1).last() == s[i]);
        assert(decimal_value(s.take(i + 1)) == (decimal_value(s.take(i)) * 10 + (s[i]
            - 48)) as nat);
        assert(decimal_value(s.take(i)) <= decimal_value(s.take(i)) * 10 + (s[i] - 48)) by (nonlinear_arith)
            requires
                48 <= s[i] <= 57,
        ;
    } else {
        assert(s.take(i) =~= s);
    }
}

/// Parses a decimal byte string into a 64-bit number.  Fails exactly when
/// the string is empty, holds a non-digit, or does not fit.
pub fn parse_decimal(s: &[u8]) -> (r: Option<u64>)
    ensures
        r is Some <==> valid_decimal(s@) && decimal_value(s@) <= u64::MAX,
        r is Some ==> r->0 == decimal_value(s@),
{
    if s.len() == 0 {
        return None;
    }
    let mut acc: u64 = 0;
    let mut i: usize = 0;
    while i < s.len()
        invariant
            i <= s@.len(),
            acc == decimal_value(s@.take(i as int)),
            forall|m: int| 0 <= m < i ==> 48 <= #[trigger] s@[m] <= 57,
        decreases s@.len() - i,
    {
        let b = *vstd::slice::slice_index_get(s, i);
        if b < 48 || b > 57 {
            return None;
        }
        let d = b - 48;
        if acc > (u64::MAX - d as u64) / 10 {
            proof {
                assert(acc * 10 + d > u64::MAX) by (nonlinear_arith)
                    requires
                        acc > (u64::MAX - d as u64) / 10,
                        d <= 9,
                ;
                assert(s@.take(i + 1).take(i as int) =~= s@.take(i as int));
                assert(s@.take(i + 1).last() == s@[i as int]);
                if valid_decimal(s@) {
                    lemma_decimal_prefix_monotone(s@, i + 1);
                }
            }
            return None;
        }
        proof {
            assert(acc * 10 + d <= u64::MAX) by (nonlinear_arith)
                requires
                    acc <= (u64::MAX - d as u64) / 10,
                    d <= 9,
            ;
            assert(s@.take(i + 1).take(i as int) =~= s@.take(i as int));
            assert(s@.take(i + 1).last() == s@[i as int]);
        }
        acc = acc * 10 + d as u64;
        i = i + 1;
    }
    proof {
        assert(s@.take(s@.len() as int) =~= s@);
    }
    Some(acc)
}

/// The value of the first `Content-Length` header, if any.
pub open spec fn first_cl_value(hs: Seq<(Seq<u8>, Seq<u8>)>) -> Option<Seq<u8>>
    decreases hs.len(),
{
    let cl = seq![99u8, 111, 110, 116, 101, 110, 116, 45, 108, 101, 110, 103, 116, 104];
    if hs.len() == 0 {
        None
    } else if lower_seq(hs[0].0) == cl {
        Some(hs[0].1)
    } else {
        first_cl_value(hs.skip(1))
    }
}

/// The framing a header list declares: `None` for the chunked coding,
/// `Some(n)` for a fixed length (zero when neither framing header is
/// present).  Mirrors the body coders' `new`.
pub open spec fn spec_length_from_headers(hs: Seq<(Seq<u8>, Seq<u8>)>) -> Result<
    Option<u64>,
    FramingError,
> {
    let te = seq![116u8, 114, 97, 110, 115, 102, 101, 114, 45, 101, 110, 99, 111, 100, 105, 110,
        103];
    let chunked = seq![99u8, 104, 117, 110, 107, 101, 100];
    if exists|i: int|
        0 <= i < hs.len() && lower_seq((#[trigger] hs[i]).0) == te && hs[i].1 != chunked {
        Err(FramingError::UnsupportedTransferEncoding)
    } else if exists|i: int| 0 <= i < hs.len() && lower_seq((#[trigger] hs[i]).0) == te {
        if first_cl_value(hs) is Some {
            Err(FramingError::ConflictingFraming)
        } else {
            Ok(None)
        }
    } else {
        match first_cl_value(hs) {
            Some(v) => {
                if valid_decimal(v) && decimal_value(v) <= u64::MAX {
                    Ok(Some(decimal_value(v) as u64))
                } else {
                    Err(FramingError::InvalidContentLength)
                }
            },
            None => Ok(Some(0)),
        }
    }
}

/// Derives the body framing from a header list: every `Transfer-Encoding`
/// must read exactly `chunked` (header names compare case-insensitively,
/// the value byte-exactly); chunked coding and a `Content-Length` together
/// are rejected; the first `Content-Length` is parsed as a decimal byte
/// count; with neither header the body is empty.
pub fn length_from_headers(headers: &Headers) -> (r: Result<Option<u64>, FramingError>)
    ensures
        r == spec_length_from_headers(headers.model()),
{
    let te: [u8; 17] = [116u8, 114, 97, 110, 115, 102, 101, 114, 45, 101, 110, 99, 111, 100, 105,
        110, 103];
    let cl: [u8; 14] = [99u8, 111, 110, 116, 101, 110, 116, 45, 108, 101, 110, 103, 116, 104];
    let chunked: [u8; 7] = [99u8, 104, 117, 110, 107, 101, 100];
    let ghost hs = headers.model();
    let n = headers.len();
    let mut saw_chunked = false;
    let mut cl_index: usize = 0;
    let mut saw_cl = false;
    let mut i: usize = 0;
    proof {
        assert(hs.skip(0) =~= hs);
        assert(lower_seq(te@) =~= te@);
        assert(lower_seq(cl@) =~= cl@);
        assert(lower_seq(chunked@) =~= chunked@);
    }
    while i < n
        invariant
            n == hs.len(),
            hs == headers.model(),
            i <= n,
            te@ == seq![116u8, 114, 97, 110, 115, 102, 101, 114, 45, 101, 110, 99, 111, 100, 105,
                110, 103],
            cl@ == seq![99u8, 111, 110, 116, 101, 110, 116, 45, 108, 101, 110, 103, 116, 104],
            chunked@ == seq![99u8, 104, 117, 110, 107, 101, 100],
            forall|m: int|
                0 <= m < i ==> !(lower_seq((#[trigger] hs[m]).0) == te@ && hs[m].1 != chunked@),
            saw_chunked == exists|m: int|
                0 <= m < i && lower_seq((#[trigger] hs[m]).0) == te@,
            first_cl_value(hs) == (if saw_cl {
                Some(hs[cl_index as int].1)
            } else {
                first_cl_value(hs.skip(i as int))
            }),
            saw_cl ==> cl_index < i,
            lower_seq(te@) == te@ && lower_seq(cl@) == cl@,
        decreases n - i,
    {
        let (name, value) = headers.get(i);
        proof {
            assert(hs.skip(i as int).skip(1) =~= hs.skip(i + 1));
            assert(hs.skip(i as int)[0] == hs[i as int]);
            assert(hs.skip(i as int).len() > 0);
        }
        if eq_ignore_case(name.as_slice(), te.as_slice()) {
            let same = bytes_eq(value.as_slice(), chunked.as_slice());
            if !same {
                return Err(FramingError::UnsupportedTransferEncoding);
            }
            saw_chunked = true;
        } else if eq_ignore_case(name.as_slice(), cl.as_slice()) {
            if !saw_cl {
                saw_cl = true;
                cl_index = i;
            }
        }
        i = i + 1;
    }
    proof {
        assert(hs.skip(n as int) =~= Seq::<(Seq<u8>, Seq<u8>)>::empty());
    }
    if saw_chunked {
        if saw_cl {
            return Err(FramingError::ConflictingFraming);
        }
        return Ok(None);
    }
    if saw_cl {
        let (_, value) = headers.get(cl_index);
        match parse_decimal(value.as_slice()) {
            Some(v) => {
                return Ok(Some(v));
            },
            None => {
                return Err(FramingError::InvalidContentLength);
            },
        }
    }
    Ok(Some(0))
}

/// Whether the headers ask for a `100 Continue` interim response: some
/// `Expect` header reads exactly `100-continue`.
pub open spec fn spec_contains_continue(hs: Seq<(Seq<u8>, Seq<u8>)>) -> bool {
    exists|i: int|
        0 <= i < hs.len() && lower_seq((#[trigger] hs[i]).0) == seq![
            101u8,
            120,
            112,
            101,
            99,
            116,
        ] && hs[i].1 == seq![49u8, 48, 48, 45, 99, 111, 110, 116, 105, 110, 117, 101]
}

/// True when some `Expect` header (name compared case-insensitively)
/// reads exactly `100-continue`.
pub fn contains_continue(headers: &Headers) -> (r: bool)
    ensures
        r == spec_contains_continue(headers.model()),
{
    let expect: [u8; 6] = [101u8, 120, 112, 101, 99, 116];
    let token: [u8; 12] = [49u8, 48, 48, 45, 99, 111, 110, 116, 105, 110, 117, 101];
    let ghost hs = headers.model();
    let n = headers.len();
    let mut i: usize = 0;
    proof {
        assert(lower_seq(expect@) =~= seq![101u8, 120, 112, 101, 99, 116]);
    }
    while i < n
        invariant
            n == hs.len(),
            hs == headers.model(),
            i <= n,
            expect@ == seq![101u8, 120, 112, 101, 99, 116],
            token@ == seq![49u8, 48, 48, 45, 99, 111, 110, 116, 105, 110, 117, 101],
            lower_seq(expect@) == expect@,
            forall|m: int|
                0 <= m < i ==> !(lower_seq((#[trigger] hs[m]).0) == expect@ && hs[m].1
                    == token@),
        decreases n - i,
    {
        let (name, value) = headers.get(i);
        if eq_ignore_case(name.as_slice(), expect.as_slice()) && bytes_eq(
            value.as_slice(),
            token.as_slice(),
        ) {
            return true;
        }
        i = i + 1;
    }
    false
}

} // verus!
