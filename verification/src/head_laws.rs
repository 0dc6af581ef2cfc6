//! Round-trip laws for message heads: a head serialized by the encoder is
//! recovered exactly by the parser.

use vstd::prelude::*;

use crate::chunked::CR;
use crate::chunked::LF;
use crate::errors::HeadError;
use crate::head::head_block_bytes;
use crate::head::header_line_bytes;
use crate::head::header_lines_bytes;
use crate::head::http11_bytes;
use crate::head::dec3_digits;
use crate::head::request_head_bytes;
use crate::head::valid_header_names;
use crate::head::valid_header_values;
use crate::head_parse::find_byte;
use crate::head_parse::find_crlf;
use crate::head_parse::parse_header_line;
use crate::head_parse::parse_header_lines;
use crate::head_parse::skip_ows;
use crate::head_parse::spec_parse_request;
use crate::head_parse::spec_parse_response;
use crate::headers::is_tchar;
use crate::headers::is_target_byte;
use crate::headers::is_value_byte;
use crate::headers::valid_token;
use crate::headers::valid_target;
use crate::headers::valid_value;

verus! {

/// No header value begins with a space or tab; such values cannot survive
/// the parser's skipping of optional whitespace after the colon.
pub open spec fn no_leading_ows(hs: Seq<(Seq<u8>, Seq<u8>)>) -> bool {
    forall|i: int|
        0 <= i < hs.len() && (#[trigger] hs[i]).1.len() > 0 ==> hs[i].1[0] != 32 && hs[i].1[0]
            != 9
}

proof fn lemma_find_crlf_at(s: Seq<u8>, from: int, e: int)
    requires
        0 <= from <= e,
        e + 2 <= s.len(),
        forall|i: int| from <= i < e ==> !(#[trigger] s[i] == CR && s[i + 1] == LF),
        s[e] == CR,
        s[e + 1] == LF,
    ensures
        find_crlf(s, from) == Some(e),
    decreases e - from,
{
    if from < e {
        lemma_find_crlf_at(s, from + 1, e);
    }
}

proof fn lemma_find_byte_at(s: Seq<u8>, b: u8, from: int, e: int)
    requires
        0 <= from <= e,
        e < s.len(),
        forall|i: int| from <= i < e ==> #[trigger] s[i] != b,
        s[e] == b,
    ensures
        find_byte(s, b, from) == Some(e),
    decreases e - from,
{
    if from < e {
        lemma_find_byte_at(s, b, from + 1, e);
    }
}

/// A serialized header block parses back to exactly its headers.
proof fn lemma_parse_head_block(s: Seq<u8>, from: int, hs: Seq<(Seq<u8>, Seq<u8>)>)
    requires
        0 <= from <= s.len(),
        s.skip(from) == head_block_bytes(hs),
        valid_header_names(hs),
        valid_header_values(hs),
        no_leading_ows(hs),
    ensures
        parse_header_lines(s, from) == Some(hs),
    decreases hs.len(),
{
    reveal_with_fuel(skip_ows, 3);
    let block = head_block_bytes(hs);
    assert(s.len() - from == block.len());
    if hs.len() == 0 {
        assert(header_lines_bytes(hs) == Seq::<u8>::empty());
        assert(block =~= seq![CR, LF]);
        assert(s[from] == s.skip(from)[0]);
        assert(s[from + 1] == s.skip(from)[1]);
    } else {
        let h0 = hs[0];
        let rest = hs.skip(1);
        let name = h0.0;
        let value = h0.1;
        let nl = name.len() as int;
        let vl = value.len() as int;
        let lineb = header_line_bytes(h0);
        assert(header_lines_bytes(hs) == lineb + header_lines_bytes(rest));
        assert(block =~= lineb + head_block_bytes(rest));
        assert(lineb.len() == nl + 2 + vl + 2);
        let e = from + nl + 2 + vl;
        assert(valid_token(name) && valid_value(value));
        // every byte of the line, by segment
        assert(forall|k: int| 0 <= k < block.len() ==> s[from + k] == #[trigger] block[k]);
        assert(forall|j: int| 0 <= j < nl ==> lineb[j] == name[j]);
        assert(lineb[nl] == 58 && lineb[nl + 1] == 32);
        assert(forall|j: int| 0 <= j < vl ==> lineb[nl + 2 + j] == value[j]);
        assert(lineb[nl + 2 + vl] == CR && lineb[nl + 2 + vl + 1] == LF);
        assert forall|i: int| from <= i < e implies s[i] != CR by {
            let k = i - from;
            assert(s[i] == block[k]);
            assert(block[k] == lineb[k]);
            if k < nl {
                assert(is_tchar(name[k]));
            } else if k >= nl + 2 {
                assert(is_value_byte(value[k - nl - 2]));
            }
        }
        assert(s[e] == block[nl + 2 + vl] && s[e + 1] == block[nl + 2 + vl + 1]);
        assert(s[e] == CR && s[e + 1] == LF);
        lemma_find_crlf_at(s, from, e);
        assert(block.len() >= lineb.len() + 2);
        assert(s.len() > from + 2);
        let line = s.subrange(from, e);
        assert(line =~= name + seq![58u8, 32] + value);
        assert forall|j: int| 0 <= j < nl implies line[j] != 58 by {
            assert(is_tchar(name[j]));
        }
        assert(line[nl] == 58);
        lemma_find_byte_at(line, 58, 0, nl);
        assert(line.take(nl) =~= name);
        // skip the single space after the colon, but nothing of the value
        assert(line[nl + 1] == 32);
        if vl > 0 {
            assert(line[nl + 2] == value[0]);
            assert(value[0] != 32 && value[0] != 9);
        }
        assert(skip_ows(line, nl + 1) == nl + 2);
        assert(line.skip(nl + 2) =~= value);
        assert(parse_header_line(line) == Some((name, value)));
        // the remaining lines
        assert forall|j: int| 0 <= j < head_block_bytes(rest).len() implies s.skip(e + 2)[j]
            == head_block_bytes(rest)[j] by {
            assert(s[from + (nl + 4 + vl + j)] == block[nl + 4 + vl + j]);
        }
        assert(s.skip(e + 2) =~= head_block_bytes(rest));
        assert forall|i: int| 0 <= i < rest.len() implies valid_token(
            (#[trigger] rest[i]).0,
        ) && valid_value(rest[i].1) && (rest[i].1.len() > 0 ==> rest[i].1[0] != 32 && rest[i].1[0]
            != 9) by {
            assert(rest[i] == hs[i + 1]);
        }
        lemma_parse_head_block(s, e + 2, rest);
        assert(seq![h0] + rest =~= hs);
    }
}

/// Round trip of a request head: a head whose method is a token, whose
/// target is visible ASCII, and whose headers are representable with no
/// leading whitespace in any value, parses back from its serialization to
/// exactly the same method, target, and headers.
pub proof fn lemma_request_head_round_trip(m: Seq<u8>, t: Seq<u8>, hs: Seq<(Seq<u8>, Seq<u8>)>)
    requires
        valid_token(m),
        valid_target(t),
        valid_header_names(hs),
        valid_header_values(hs),
        no_leading_ows(hs),
    ensures
        spec_parse_request(request_head_bytes(m, t, hs)) == Ok::<
            (Seq<u8>, Seq<u8>, Seq<(Seq<u8>, Seq<u8>)>),
            HeadError,
        >((m, t, hs)),
{
    let w = request_head_bytes(m, t, hs);
    let line = m + seq![32u8] + t + seq![32u8] + http11_bytes();
    let block = head_block_bytes(hs);
    let ml = m.len() as int;
    let tl = t.len() as int;
    let ll = ml + 1 + tl + 1 + 8;
    assert(w =~= line + seq![CR, LF] + block);
    assert(line.len() == ll);
    assert(forall|j: int| 0 <= j < ml ==> line[j] == m[j]);
    assert(line[ml] == 32);
    assert(forall|j: int| 0 <= j < tl ==> line[ml + 1 + j] == t[j]);
    assert(line[ml + 1 + tl] == 32);
    assert(forall|j: int| 0 <= j < 8 ==> line[ml + 2 + tl + j] == http11_bytes()[j]);
    assert forall|i: int| 0 <= i < ll implies w[i] != CR by {
        assert(w[i] == line[i]);
        if i < ml {
            assert(is_tchar(m[i]));
        } else if ml + 1 <= i < ml + 1 + tl {
            assert(is_target_byte(t[i - ml - 1]));
        } else if i >= ml + 2 + tl {
            assert(http11_bytes()[i - (ml + 2 + tl)] != CR);
        }
    }
    assert(w[ll] == CR && w[ll + 1] == LF);
    lemma_find_crlf_at(w, 0, ll);
    assert(w.take(ll) =~= line);
    assert forall|j: int| 0 <= j < ml implies line[j] != 32 by {
        assert(is_tchar(m[j]));
    }
    lemma_find_byte_at(line, 32, 0, ml);
    assert forall|j: int| ml + 1 <= j < ml + 1 + tl implies line[j] != 32 by {
        assert(is_target_byte(t[j - ml - 1]));
    }
    lemma_find_byte_at(line, 32, ml + 1, ml + 1 + tl);
    assert(line.take(ml) =~= m);
    assert(line.subrange(ml + 1, ml + 1 + tl) =~= t);
    assert(line.skip(ml + 1 + tl + 1) =~= http11_bytes());
    assert(w.skip(ll + 2) =~= block);
    lemma_parse_head_block(w, ll + 2, hs);
}

/// Round trip of a response head: a status line for a three-digit code
/// with any visible-ASCII reason phrase, followed by a representable
/// header block, parses back to exactly the code and headers (the reason
/// phrase is discarded by the parser).
pub proof fn lemma_response_head_round_trip(status: u16, q: Seq<u8>, hs: Seq<(Seq<u8>, Seq<u8>)>)
    requires
        100 <= status <= 999,
        forall|i: int| 0 <= i < q.len() ==> 32 <= #[trigger] q[i] <= 126,
        valid_header_names(hs),
        valid_header_values(hs),
        no_leading_ows(hs),
    ensures
        spec_parse_response(
            http11_bytes() + seq![32u8] + dec3_digits(status as nat) + seq![32u8] + q + seq![
                CR,
                LF,
            ] + head_block_bytes(hs),
        ) == Ok::<(u16, Seq<(Seq<u8>, Seq<u8>)>), HeadError>((status, hs)),
{
    let line = http11_bytes() + seq![32u8] + dec3_digits(status as nat) + seq![32u8] + q;
    let block = head_block_bytes(hs);
    let w = http11_bytes() + seq![32u8] + dec3_digits(status as nat) + seq![32u8] + q + seq![
        CR,
        LF,
    ] + block;
    let ql = q.len() as int;
    let ll = 13 + ql;
    assert(w =~= line + seq![CR, LF] + block);
    assert(line.len() == ll);
    let sn = status as nat;
    assert(48 + (sn / 100) % 10 <= 57 && 48 + (sn / 10) % 10 <= 57 && 48 + sn % 10 <= 57);
    assert(forall|j: int| 0 <= j < 8 ==> line[j] == http11_bytes()[j]);
    assert(line[8] == 32);
    assert(line[9] == dec3_digits(sn)[0] && line[10] == dec3_digits(sn)[1] && line[11]
        == dec3_digits(sn)[2]);
    assert(line[12] == 32);
    assert(forall|j: int| 0 <= j < ql ==> line[13 + j] == q[j]);
    assert forall|i: int| 0 <= i < ll implies w[i] != CR by {
        assert(w[i] == line[i]);
        if i < 8 {
            assert(http11_bytes()[i] != CR);
        } else if i >= 13 {
            assert(32 <= q[i - 13] <= 126);
        }
    }
    assert(w[ll] == CR && w[ll + 1] == LF);
    lemma_find_crlf_at(w, 0, ll);
    assert(w.take(ll) =~= line);
    assert(line.take(8) =~= http11_bytes());
    // the three digits reassemble into the code
    let d1 = (sn / 100) % 10;
    let d2 = (sn / 10) % 10;
    let d3 = sn % 10;
    vstd::arithmetic::div_mod::lemma_fundamental_div_mod(sn as int, 10);
    vstd::arithmetic::div_mod::lemma_fundamental_div_mod(sn as int / 10, 10);
    vstd::arithmetic::div_mod::lemma_div_denominator(sn as int, 10, 10);
    assert(sn / 100 == (sn / 10) / 10);
    assert(sn as int == 100 * ((sn as int / 10) / 10) + 10 * ((sn as int / 10) % 10) + sn as int
        % 10);
    assert((sn / 100) % 10 == sn / 100) by (nonlinear_arith)
        requires
            100 <= sn <= 999,
    ;
    assert((line[9] - 48) * 100 + (line[10] - 48) * 10 + (line[11] - 48) == status);
    assert(w.skip(ll + 2) =~= block);
    lemma_parse_head_block(w, ll + 2, hs);
}

} // verus!
