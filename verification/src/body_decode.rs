//! Body decoder: pulls fixed-length or chunked content out of wire bytes.
//!
//! The decoder never performs I/O.  A caller asks `read_hint` how many bytes
//! may safely be read from the transport, reads at most that many, and hands
//! them to `advance`, which appends the decoded content bytes to an output
//! vector.  When the transport closes, the caller reports it with `on_eof`.
//! Terminal states are sticky: after `Done` no bytes are produced, after a
//! failure every further call reports an error.

use vstd::prelude::*;

use crate::chunked::ChunkState;
use crate::chunked::Parser;
use crate::chunked::hex_digit_value;
use crate::chunked::hex_value;
use crate::chunked::lemma_run_data;
use crate::chunked::lemma_run_extend;
use crate::chunked::spec_body_run;
use crate::chunked::spec_meta_step;
use crate::errors::DecodeError;
use crate::headers::FramingError;
use crate::headers::Headers;
use crate::headers::length_from_headers;
use crate::headers::spec_length_from_headers;

verus! {

/// Decoder for a message body, driven by bytes the caller read from its
/// transport.
pub struct BodyDecodeState {
    parser_state: Parser,
    remaining: u64,
}

impl BodyDecodeState {
    /// Current mode of the decoder.
    pub closed spec fn parser(&self) -> Parser {
        self.parser_state
    }

    /// Body bytes still owed in the content states; the partially
    /// accumulated size in the chunk-size states.
    pub closed spec fn rem(&self) -> nat {
        self.remaining as nat
    }

    /// A content-consuming state always owes at least one byte.
    pub open spec fn wf(&self) -> bool {
        &&& (self.parser() == Parser::FixedLength ==> self.rem() >= 1)
        &&& (self.parser() == Parser::Chunked(ChunkState::Content) ==> self.rem() >= 1)
    }

    /// A decoder for a body of `length` bytes, or for a chunked body when no
    /// length is declared.
    pub fn new(length: Option<u64>) -> (r: Self)
        ensures
            r.wf(),
            r.parser() == (match length {
                Some(n) => if n == 0 {
                    Parser::Done
                } else {
                    Parser::FixedLength
                },
                None => Parser::Chunked(ChunkState::Size),
            }),
            r.rem() == (match length {
                Some(n) => n as nat,
                None => 0nat,
            }),
    {
        match length {
            Some(0) => BodyDecodeState { parser_state: Parser::Done, remaining: 0 },
            Some(n) => BodyDecodeState { parser_state: Parser::FixedLength, remaining: n },
            None => BodyDecodeState {
                parser_state: Parser::Chunked(ChunkState::Size),
                remaining: 0,
            },
        }
    }

    /// A decoder for the framing the headers declare: chunked transfer
    /// coding, a fixed `Content-Length`, or an empty body with neither.
    pub fn from_headers(headers: &Headers) -> (r: Result<Self, FramingError>)
        ensures
            (match spec_length_from_headers(headers.model()) {
                Ok(length) => r matches Ok(d) && d.wf() && d.parser() == (match length {
                    Some(n) => if n == 0 {
                        Parser::Done
                    } else {
                        Parser::FixedLength
                    },
                    None => Parser::Chunked(ChunkState::Size),
                }) && d.rem() == (match length {
                    Some(n) => n as nat,
                    None => 0nat,
                }),
                Err(e) => r == Err::<Self, FramingError>(e),
            }),
    {
        match length_from_headers(headers) {
            Ok(length) => Ok(Self::new(length)),
            Err(e) => Err(e),
        }
    }

    /// End of body reached; every further read returns no bytes.
    pub fn is_done(&self) -> (r: bool)
        ensures
            r == (self.parser() == Parser::Done),
    {
        self.parser_state == Parser::Done
    }

    /// The decoder failed earlier; every further read reports an error.
    pub fn is_failed(&self) -> (r: bool)
        ensures
            r == (self.parser() == Parser::Failed),
    {
        self.parser_state == Parser::Failed
    }

    /// How many bytes the caller should read next, given its buffer size.
    pub open spec fn spec_read_hint(&self, buf_len: nat) -> nat {
        match self.parser() {
            Parser::Failed => 0,
            Parser::Done => 0,
            Parser::FixedLength => if buf_len <= self.rem() {
                buf_len
            } else {
                self.rem()
            },
            Parser::Chunked(ChunkState::Content) => if buf_len <= self.rem() {
                buf_len
            } else {
                self.rem()
            },
            Parser::Chunked(_) => if buf_len == 0 {
                0
            } else {
                1
            },
        }
    }

    /// How many bytes to request from the transport next: nothing once the
    /// body is complete or failed, at most the bytes still owed while
    /// consuming content (so a fixed-length body never reads past its
    /// declared length), and a single byte while scanning chunk metadata.
    pub fn read_hint(&self, buf_len: usize) -> (r: usize)
        ensures
            r == self.spec_read_hint(buf_len as nat),
            r <= buf_len,
            self.parser() == Parser::FixedLength ==> r <= self.rem(),
            self.parser() == Parser::Chunked(ChunkState::Content) ==> r <= self.rem(),
    {
        match self.parser_state {
            Parser::Failed => 0,
            Parser::Done => 0,
            Parser::FixedLength | Parser::Chunked(ChunkState::Content) => {
                if (buf_len as u64) <= self.remaining {
                    buf_len
                } else {
                    self.remaining as usize
                }
            },
            Parser::Chunked(_) => if buf_len == 0 {
                0
            } else {
                1
            },
        }
    }

    /// Feeds bytes read from the transport through the decoder, appending
    /// every decoded content byte to `out`.
    ///
    /// The caller must not feed bytes past the end of the body: nothing
    /// after `Done`, and no more than the bytes still owed to a
    /// fixed-length body (`read_hint` already enforces both).  Chunked
    /// input may be fed in arbitrary fragments; bytes that violate the
    /// chunked framing fail the decoder permanently with `MalformedChunk`.
    #[verifier::rlimit(100)]
    pub fn advance(&mut self, input: &[u8], out: &mut Vec<u8>) -> (r: Result<(), DecodeError>)
        requires
            old(self).wf(),
            old(self).parser() == Parser::Done ==> input@.len() == 0,
            old(self).parser() == Parser::FixedLength ==> input@.len() <= old(self).rem(),
        ensures
            final(self).wf(),
            old(self).parser() == Parser::Failed ==> r == Err::<(), DecodeError>(
                DecodeError::BrokenPipe,
            ) && final(self).parser() == Parser::Failed && final(out)@ == old(out)@,
            old(self).parser() != Parser::Failed ==> (match spec_body_run(
                old(self).parser(),
                old(self).rem(),
                input@,
            ) {
                Some((p, rm, o)) => r == Ok::<(), DecodeError>(()) && final(self).parser() == p
                    && final(self).rem() == rm && final(out)@ == old(out)@ + o,
                None => r == Err::<(), DecodeError>(DecodeError::MalformedChunk)
                    && final(self).parser() == Parser::Failed && old(out)@.is_prefix_of(
                    final(out)@,
                ),
            }),
    {
        let ghost p0 = self.parser_state;
        let ghost r0 = self.remaining as nat;
        let ghost out0 = out@;
        if self.parser_state == Parser::Failed {
            return Err(DecodeError::BrokenPipe);
        }
        let mut i: usize = 0;
        proof {
            assert(input@.take(0) =~= Seq::<u8>::empty());
            assert(out@.skip(out0.len() as int) =~= Seq::<u8>::empty());
        }
        while i < input.len()
            invariant
                i <= input@.len(),
                self.wf(),
                self.parser_state != Parser::Failed,
                p0 == old(self).parser() && p0 != Parser::Failed,
                r0 == old(self).rem(),
                out0 == old(out)@,
                p0 == Parser::FixedLength ==> input@.len() <= r0,
                spec_body_run(p0, r0, input@.take(i as int)) == Some(
                    (self.parser(), self.rem(), out@.skip(out0.len() as int)),
                ),
                out@.take(out0.len() as int) == out0,
                out@.len() >= out0.len(),
            decreases input@.len() - i,
        {
            let ghost consumed = input@.take(i as int);
            let ghost rest = input@.skip(i as int);
            let ghost delta = out@.skip(out0.len() as int);
            proof {
                assert(input@ =~= consumed + rest);
                assert(rest[0] == input@[i as int]);
            }
            match self.parser_state {
                Parser::Failed => {
                    // excluded by the loop invariant
                    proof {
                        assert(false);
                    }
                },
                Parser::Done => {
                    // bytes past the end of the body: the framing is broken
                    let ghost p_cur = self.parser_state;
                    let ghost rem_cur = self.remaining as nat;
                    self.parser_state = Parser::Failed;
                    proof {
                        lemma_advance_fail_step(p0, r0, input@, i as int, p_cur, rem_cur, delta);
                        assert(out0.is_prefix_of(out@));
                    }
                    return Err(DecodeError::MalformedChunk);
                },
                Parser::FixedLength | Parser::Chunked(ChunkState::Content) => {
                    let ghost p_cur = self.parser_state;
                    let ghost rem_cur = self.remaining as nat;
                    let avail: usize = input.len() - i;
                    let m: usize = if (avail as u64) <= self.remaining {
                        avail
                    } else {
                        self.remaining as usize
                    };
                    let ghost out_pre = out@;
                    let piece = vstd::slice::slice_subrange(input, i, i + m);
                    out.extend_from_slice(piece);
                    if (m as u64) == self.remaining {
                        self.parser_state = match self.parser_state {
                            Parser::FixedLength => Parser::Done,
                            _ => Parser::Chunked(ChunkState::ContentCR),
                        };
                        self.remaining = 0;
                    } else {
                        self.remaining = self.remaining - m as u64;
                    }
                    proof {
                        let mid = input@.subrange(i as int, i + m);
                        lemma_advance_data_step(
                            p0,
                            r0,
                            input@,
                            i as int,
                            m as int,
                            p_cur,
                            rem_cur,
                            self.parser_state,
                            delta,
                        );
                        assert(out@ == out_pre + mid);
                        assert(out@.skip(out0.len() as int) =~= delta + mid);
                        assert(out@.take(out0.len() as int) =~= out0);
                    }
                    i = i + m;
                },
                Parser::Chunked(cs) => {
                    let b = *vstd::slice::slice_index_get(input, i);
                    let ghost rem_cur = self.remaining as nat;
                    match meta_step_exec(cs, self.remaining, b) {
                        Some((p2, s2)) => {
                            self.parser_state = p2;
                            self.remaining = s2;
                            proof {
                                lemma_advance_meta_step(
                                    p0,
                                    r0,
                                    input@,
                                    i as int,
                                    cs,
                                    rem_cur,
                                    p2,
                                    s2 as nat,
                                    delta,
                                );
                            }
                            i = i + 1;
                        },
                        None => {
                            self.parser_state = Parser::Failed;
                            proof {
                                lemma_advance_fail_step(
                                    p0,
                                    r0,
                                    input@,
                                    i as int,
                                    Parser::Chunked(cs),
                                    rem_cur,
                                    delta,
                                );
                                assert(out0.is_prefix_of(out@));
                            }
                            return Err(DecodeError::MalformedChunk);
                        },
                    }
                },
            }
        }
        proof {
            assert(input@.take(input@.len() as int) =~= input@);
            assert(out@ =~= out0 + out@.skip(out0.len() as int));
        }
        Ok(())
    }

    /// The decoder's current mode, for callers that schedule reads by state.
    pub fn parser_mode(&self) -> (r: Parser)
        ensures
            r == self.parser(),
    {
        self.parser_state
    }

    /// The byte count still owed (content states) or accumulated so far
    /// (chunk-size states).
    pub fn bytes_remaining(&self) -> (r: u64)
        ensures
            r == self.rem(),
    {
        self.remaining
    }

    /// The transport closed.  At the end of the body this is the expected
    /// outcome; anywhere else the body is truncated and the decoder fails
    /// permanently.
    pub fn on_eof(&mut self) -> (r: Result<(), DecodeError>)
        ensures
            final(self).wf(),
            final(self).parser() == (if old(self).parser() == Parser::Done {
                Parser::Done
            } else {
                Parser::Failed
            }),
            r == (match old(self).parser() {
                Parser::Done => Ok::<(), DecodeError>(()),
                Parser::Failed => Err::<(), DecodeError>(DecodeError::BrokenPipe),
                _ => Err::<(), DecodeError>(DecodeError::TruncatedBody),
            }),
    {
        match self.parser_state {
            Parser::Done => Ok(()),
            Parser::Failed => Err(DecodeError::BrokenPipe),
            _ => {
                self.parser_state = Parser::Failed;
                Err(DecodeError::TruncatedBody)
            },
        }
    }
}

/// One chunk-metadata byte, mirroring `spec_meta_step` exactly.
fn meta_step_exec(cs: ChunkState, size: u64, b: u8) -> (r: Option<(Parser, u64)>)
    ensures
        r is Some <==> spec_meta_step(cs, size as nat, b) is Some,
        r matches Some(pr) ==> spec_meta_step(cs, size as nat, b) == Some((pr.0, pr.1 as nat)),
{
    match cs {
        ChunkState::Size => {
            if b == 13 {
                Some((Parser::Chunked(ChunkState::SizeLF), size))
            } else {
                match hex_digit_value(b) {
                    Some(v) => {
                        if size <= u64::MAX / 16 {
                            proof {
                                assert(size * 16 + v <= u64::MAX) by (nonlinear_arith)
                                    requires
                                        size <= u64::MAX / 16,
                                        v <= 15,
                                ;
                            }
                            Some((Parser::Chunked(ChunkState::Size), size * 16 + v as u64))
                        } else {
                            proof {
                                assert(size * 16 + hex_value(b) > u64::MAX) by (nonlinear_arith)
                                    requires
                                        size > u64::MAX / 16,
                                        hex_value(b) >= 0,
                                ;
                            }
                            None
                        }
                    },
                    None => None,
                }
            }
        },
        ChunkState::SizeLF => {
            if b == 10 {
                if size == 0 {
                    Some((Parser::Chunked(ChunkState::EndCR), 0))
                } else {
                    Some((Parser::Chunked(ChunkState::Content), size))
                }
            } else {
                None
            }
        },
        ChunkState::Content => None,
        ChunkState::ContentCR => {
            if b == 13 {
                Some((Parser::Chunked(ChunkState::ContentLF), size))
            } else {
                None
            }
        },
        ChunkState::ContentLF => {
            if b == 10 {
                Some((Parser::Chunked(ChunkState::Size), 0))
            } else {
                None
            }
        },
        ChunkState::EndCR => {
            if b == 13 {
                Some((Parser::Chunked(ChunkState::EndLF), size))
            } else {
                None
            }
        },
        ChunkState::EndLF => {
            if b == 10 {
                Some((Parser::Done, 0))
            } else {
                None
            }
        },
    }
}

proof fn lemma_advance_data_step(
    p0: Parser,
    r0: nat,
    input: Seq<u8>,
    i: int,
    m: int,
    p_cur: Parser,
    rem_cur: nat,
    pa: Parser,
    delta: Seq<u8>,
)
    requires
        0 <= i,
        1 <= m,
        i + m <= input.len(),
        spec_body_run(p0, r0, input.take(i)) == Some((p_cur, rem_cur, delta)),
        p_cur == Parser::FixedLength || p_cur == Parser::Chunked(ChunkState::Content),
        m <= rem_cur,
        pa == (if m < rem_cur {
            p_cur
        } else if p_cur == Parser::FixedLength {
            Parser::Done
        } else {
            Parser::Chunked(ChunkState::ContentCR)
        }),
    ensures
        spec_body_run(p0, r0, input.take(i + m)) == Some(
            (pa, (rem_cur - m) as nat, delta + input.subrange(i, i + m)),
        ),
{
    let consumed = input.take(i);
    let mid = input.subrange(i, i + m);
    assert(input.take(i + m) =~= consumed + mid);
    lemma_run_extend(p0, r0, consumed, mid);
    lemma_run_data(p_cur, rem_cur, mid, m as nat);
    assert(mid.skip(m) =~= Seq::<u8>::empty());
    assert(mid.take(m) =~= mid);
    assert(mid + Seq::<u8>::empty() =~= mid);
}

proof fn lemma_advance_meta_step(
    p0: Parser,
    r0: nat,
    input: Seq<u8>,
    i: int,
    cs: ChunkState,
    rem_cur: nat,
    p2: Parser,
    s2: nat,
    delta: Seq<u8>,
)
    requires
        0 <= i < input.len(),
        spec_body_run(p0, r0, input.take(i)) == Some((Parser::Chunked(cs), rem_cur, delta)),
        spec_meta_step(cs, rem_cur, input[i]) == Some((p2, s2)),
    ensures
        spec_body_run(p0, r0, input.take(i + 1)) == Some((p2, s2, delta)),
        p2 != Parser::FixedLength,
        p2 != Parser::Failed,
        p2 == Parser::Chunked(ChunkState::Content) ==> s2 >= 1,
{
    reveal_with_fuel(spec_body_run, 3);
    let one = seq![input[i]];
    assert(input.take(i + 1) =~= input.take(i) + one);
    lemma_run_extend(p0, r0, input.take(i), one);
    assert(one.skip(1) =~= Seq::<u8>::empty());
    assert(spec_body_run(Parser::Chunked(cs), rem_cur, one) == Some(
        (p2, s2, Seq::<u8>::empty()),
    ));
    assert(delta + Seq::<u8>::empty() =~= delta);
}

proof fn lemma_advance_fail_step(
    p0: Parser,
    r0: nat,
    input: Seq<u8>,
    i: int,
    p_cur: Parser,
    rem_cur: nat,
    delta: Seq<u8>,
)
    requires
        0 <= i < input.len(),
        spec_body_run(p0, r0, input.take(i)) == Some((p_cur, rem_cur, delta)),
        p_cur == Parser::Done || (p_cur matches Parser::Chunked(cs) && cs != ChunkState::Content
            && spec_meta_step(cs, rem_cur, input[i]) is None),
    ensures
        spec_body_run(p0, r0, input) is None,
{
    let rest = input.skip(i);
    assert(input =~= input.take(i) + rest);
    lemma_run_extend(p0, r0, input.take(i), rest);
    assert(rest.len() > 0 && rest[0] == input[i]);
    assert(spec_body_run(p_cur, rem_cur, rest) is None);
}

} // verus!
