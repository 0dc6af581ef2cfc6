//! Bulk parser for a chunked-transfer body.
//!
//! `BodyParseChunked` drives the chunked body decoder over a caller-supplied
//! byte slice, filling an output vector up to a caller-chosen bound.  It is
//! the convenient front end for callers that already hold body bytes in
//! memory; the underlying decoder is the same byte-at-a-time state machine
//! as `BodyDecodeState`.

use vstd::prelude::*;

use crate::body_decode::BodyDecodeState;
use crate::chunked::ChunkState;
use crate::chunked::Parser;
use crate::chunked::lemma_run_extend;
use crate::chunked::lemma_run_fail_prefix;
use crate::chunked::lemma_run_modes;
use crate::chunked::lemma_run_output_len;
use crate::chunked::spec_body_run;
use crate::errors::DecodeError;

verus! {

/// The documented lower bound on the bytes a valid chunked body still
/// holds, given the decoder's state: a heuristic for sizing reads.
pub open spec fn spec_guaranteed_read(p: Parser, rem: nat) -> nat {
    match p {
        Parser::Failed => 0,
        Parser::Done => 0,
        Parser::FixedLength => if rem < 4 {
            rem
        } else {
            4
        },
        Parser::Chunked(ChunkState::Size) => if rem == 0 {
            3
        } else {
            2
        },
        Parser::Chunked(ChunkState::SizeLF) => 1,
        Parser::Chunked(ChunkState::Content) => if rem < 4 {
            rem
        } else {
            4
        },
        Parser::Chunked(ChunkState::ContentCR) => 2,
        Parser::Chunked(ChunkState::ContentLF) => 1,
        Parser::Chunked(ChunkState::EndCR) => 2,
        Parser::Chunked(ChunkState::EndLF) => 1,
    }
}

/// Parser for a chunked-transfer body held in memory.
pub struct BodyParseChunked {
    inner: BodyDecodeState,
}

impl BodyParseChunked {
    /// Current mode of the underlying decoder.
    pub closed spec fn parser(&self) -> Parser {
        self.inner.parser()
    }

    /// Bytes still owed in the content state; accumulated size in the
    /// chunk-size states.
    pub closed spec fn rem(&self) -> nat {
        self.inner.rem()
    }

    /// The parser never enters the fixed-length mode, and a content state
    /// always owes at least one byte.
    pub open spec fn wf(&self) -> bool {
        &&& self.parser() != Parser::FixedLength
        &&& (self.parser() == Parser::Chunked(ChunkState::Content) ==> self.rem() >= 1)
    }

    pub fn new() -> (r: Self)
        ensures
            r.wf(),
            r.parser() == Parser::Chunked(ChunkState::Size),
            r.rem() == 0,
    {
        BodyParseChunked { inner: BodyDecodeState::new(None) }
    }

    /// The terminal zero-size chunk has been fully consumed.
    pub fn is_finished(&self) -> (r: bool)
        ensures
            r == (self.parser() == Parser::Done),
    {
        self.inner.is_done()
    }

    /// Lower bound on the bytes a valid chunked body still holds from this
    /// state on; useful for sizing the next read.
    pub fn guaranteed_read(&self) -> (r: usize)
        ensures
            r == spec_guaranteed_read(self.parser(), self.rem()),
    {
        match self.inner.parser_mode() {
            Parser::Failed => 0,
            Parser::Done => 0,
            Parser::FixedLength | Parser::Chunked(ChunkState::Content) => {
                if self.inner.bytes_remaining() < 4 {
                    self.inner.bytes_remaining() as usize
                } else {
                    4
                }
            },
            Parser::Chunked(ChunkState::Size) => {
                if self.inner.bytes_remaining() == 0 {
                    3
                } else {
                    2
                }
            },
            Parser::Chunked(ChunkState::ContentCR) => 2,
            Parser::Chunked(ChunkState::EndCR) => 2,
            Parser::Chunked(_) => 1,
        }
    }

    /// Decodes from `input`, starting at `*pos`, appending content bytes to
    /// `out` until the body is finished, the input is exhausted, or `out`
    /// has grown to `max_out` bytes.  Returns how many bytes were appended.
    ///
    /// On success the consumed slice of the input replays exactly through
    /// the chunked automaton into the appended bytes.  A framing violation
    /// fails the parser permanently.
    #[verifier::rlimit(100)]
    pub fn process_data(
        &mut self,
        input: &[u8],
        pos: &mut usize,
        out: &mut Vec<u8>,
        max_out: usize,
    ) -> (r: Result<usize, DecodeError>)
        requires
            old(self).wf(),
            *old(pos) <= input@.len(),
            old(out)@.len() <= max_out,
        ensures
            final(self).wf(),
            *old(pos) <= *final(pos) <= input@.len(),
            (match r {
                Ok(n) => {
                    &&& spec_body_run(
                        old(self).parser(),
                        old(self).rem(),
                        input@.subrange(*old(pos) as int, *final(pos) as int),
                    ) == Some(
                        (
                            final(self).parser(),
                            final(self).rem(),
                            final(out)@.skip(old(out)@.len() as int),
                        ),
                    )
                    &&& final(out)@.take(old(out)@.len() as int) == old(out)@
                    &&& n == final(out)@.len() - old(out)@.len()
                    &&& final(out)@.len() <= max_out
                    &&& (final(self).parser() == Parser::Done || *final(pos) == input@.len()
                        || final(out)@.len() == max_out)
                },
                Err(e) => {
                    &&& (old(self).parser() == Parser::Failed ==> e == DecodeError::BrokenPipe)
                    &&& (old(self).parser() != Parser::Failed ==> e == DecodeError::MalformedChunk
                        && spec_body_run(
                        old(self).parser(),
                        old(self).rem(),
                        input@.skip(*old(pos) as int),
                    ) is None && final(self).parser() == Parser::Failed)
                    &&& old(out)@.is_prefix_of(final(out)@)
                },
            }),
    {
        if self.inner.is_failed() {
            return Err(DecodeError::BrokenPipe);
        }
        let ghost p0 = self.inner.parser();
        let ghost r0 = self.inner.rem();
        let ghost pos0 = *pos as int;
        let ghost out0 = out@;
        let start_len = out.len();
        proof {
            assert(input@.subrange(pos0, pos0) =~= Seq::<u8>::empty());
            assert(out@.skip(out0.len() as int) =~= Seq::<u8>::empty());
        }
        loop
            invariant
                self.wf(),
                self.parser() != Parser::Failed,
                p0 == old(self).parser() && p0 != Parser::Failed,
                r0 == old(self).rem(),
                pos0 == *old(pos) as int,
                out0 == old(out)@,
                start_len == out0.len(),
                pos0 <= *pos <= input@.len(),
                out0.len() <= out@.len() <= max_out,
                spec_body_run(p0, r0, input@.subrange(pos0, *pos as int)) == Some(
                    (self.parser(), self.rem(), out@.skip(out0.len() as int)),
                ),
                out@.take(out0.len() as int) == out0,
            ensures
                self.wf(),
                self.parser() != Parser::Failed,
                pos0 <= *pos <= input@.len(),
                out0.len() <= out@.len() <= max_out,
                spec_body_run(p0, r0, input@.subrange(pos0, *pos as int)) == Some(
                    (self.parser(), self.rem(), out@.skip(out0.len() as int)),
                ),
                out@.take(out0.len() as int) == out0,
                self.parser() == Parser::Done || *pos == input@.len() || out@.len() == max_out,
            decreases input@.len() - *pos,
        {
            if self.inner.is_done() {
                break ;
            }
            if *pos >= input.len() {
                break ;
            }
            let ghost done_part = input@.subrange(pos0, *pos as int);
            let ghost delta = out@.skip(out0.len() as int);
            let ghost p_cur = self.inner.parser();
            let ghost rem_cur = self.inner.rem();
            let is_content = match self.inner.parser_mode() {
                Parser::Chunked(ChunkState::Content) => true,
                _ => false,
            };
            let feed: usize = if is_content {
                let room = max_out - out.len();
                if room == 0 {
                    break ;
                }
                let avail = input.len() - *pos;
                let want = if avail <= room {
                    avail
                } else {
                    room
                };
                self.inner.read_hint(want)
            } else {
                1
            };
            let ghost room_left = max_out - out@.len();
            let piece = vstd::slice::slice_subrange(input, *pos, *pos + feed);
            let ghost out_pre = out@;
            match self.inner.advance(piece, out) {
                Ok(()) => {
                    proof {
                        lemma_run_modes(p_cur, rem_cur, piece@);
                        lemma_run_output_len(p_cur, rem_cur, piece@);
                        if !is_content {
                            reveal_with_fuel(spec_body_run, 3);
                            assert(spec_body_run(p_cur, rem_cur, piece@)->Some_0.2
                                =~= Seq::<u8>::empty());
                        }
                        lemma_run_extend(p0, r0, done_part, piece@);
                        assert(input@.subrange(pos0, *pos + feed) =~= done_part + piece@);
                        assert(out@.skip(out0.len() as int) =~= delta + out@.skip(
                            out_pre.len() as int,
                        ));
                        assert(out@.take(out0.len() as int) =~= out0);
                    }
                    *pos = *pos + feed;
                },
                Err(e) => {
                    proof {
                        let tail = input@.skip(*pos + feed);
                        lemma_run_fail_prefix(p_cur, rem_cur, piece@, tail);
                        assert(piece@ + tail =~= input@.skip(*pos as int));
                        lemma_run_extend(p0, r0, done_part, input@.skip(*pos as int));
                        assert(done_part + input@.skip(*pos as int) =~= input@.skip(pos0));
                        assert(out0.is_prefix_of(out@));
                    }
                    return Err(e);
                },
            }
        }
        proof {
            assert(out@ =~= out0 + out@.skip(out0.len() as int));
        }
        Ok(out.len() - start_len)
    }
}

} // verus!
