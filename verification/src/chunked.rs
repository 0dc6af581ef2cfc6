//! Specification of the body decoder's state machine.
//!
//! A message body is framed either by a fixed, up-front byte count or by the
//! chunked transfer coding: `<hex-size>\r\n<bytes>\r\n` repeated and closed
//! by `0\r\n\r\n`.  The decoder is specified as a byte-at-a-time automaton:
//! `spec_body_run` replays a piece of wire input against a decoder state and
//! yields the state afterwards together with the content bytes produced, or
//! nothing if the input violates the framing.

use vstd::prelude::*;

verus! {

/// Sub-state of the chunked-transfer decoder, naming the wire byte expected
/// next: a size-line byte, the size line's LF, content, the CRLF after a
/// chunk's content, or the CRLF that closes the terminal zero-size chunk.
#[derive(Clone, Copy, Debug, PartialEq, Eq, Structural)]
pub enum ChunkState {
    Size,
    SizeLF,
    Content,
    ContentCR,
    ContentLF,
    EndCR,
    EndLF,
}

/// Mode of a body decoder.  Terminal states are sticky: `Done` produces no
/// further bytes and `Failed` refuses every further read.
#[derive(Clone, Copy, Debug, PartialEq, Eq, Structural)]
pub enum Parser {
    FixedLength,
    Chunked(ChunkState),
    Failed,
    Done,
}

pub const CR: u8 = 13;

pub const LF: u8 = 10;

/// Hex digits, both cases.
pub open spec fn is_hex_digit(b: u8) -> bool {
    (48 <= b <= 57) || (65 <= b <= 70) || (97 <= b <= 102)
}

/// Numeric value of a hex digit.
pub open spec fn hex_value(b: u8) -> nat {
    if 48 <= b <= 57 {
        (b - 48) as nat
    } else if 65 <= b <= 70 {
        (b - 55) as nat
    } else if 97 <= b <= 102 {
        (b - 87) as nat
    } else {
        0
    }
}

/// One metadata byte of the chunked coding: every state transition except
/// the consumption of content bytes.  A size digit multiplies the running
/// size by 16; a size that would no longer fit in 64 bits is rejected.
pub open spec fn spec_meta_step(cs: ChunkState, size: nat, b: u8) -> Option<(Parser, nat)> {
    match cs {
        ChunkState::Size => {
            if b == CR {
                Some((Parser::Chunked(ChunkState::SizeLF), size))
            } else if is_hex_digit(b) {
                if size * 16 + hex_value(b) <= u64::MAX {
                    Some((Parser::Chunked(ChunkState::Size), size * 16 + hex_value(b)))
                } else {
                    None
                }
            } else {
                None
            }
        },
        ChunkState::SizeLF => {
            if b == LF {
                if size == 0 {
                    Some((Parser::Chunked(ChunkState::EndCR), 0))
                } else {
                    Some((Parser::Chunked(ChunkState::Content), size))
                }
            } else {
                None
            }
        },
        ChunkState::Content => None,  // content bytes are not metadata
        ChunkState::ContentCR => {
            if b == CR {
                Some((Parser::Chunked(ChunkState::ContentLF), size))
            } else {
                None
            }
        },
        ChunkState::ContentLF => {
            if b == LF {
                Some((Parser::Chunked(ChunkState::Size), 0))
            } else {
                None
            }
        },
        ChunkState::EndCR => {
            if b == CR {
                Some((Parser::Chunked(ChunkState::EndLF), size))
            } else {
                None
            }
        },
        ChunkState::EndLF => {
            if b == LF {
                Some((Parser::Done, 0))
            } else {
                None
            }
        },
    }
}

/// Replays `wire` against decoder state `(p, rem)`.  `rem` is the number of
/// body bytes still owed in the `FixedLength` and `Chunked(Content)` states
/// and the partially accumulated size in the `Size` states.  Yields the
/// state after the last byte and the content bytes produced, or `None` if
/// any byte violates the framing (including bytes past `Done`).
pub open spec fn spec_body_run(p: Parser, rem: nat, wire: Seq<u8>) -> Option<(Parser, nat, Seq<u8>)>
    decreases wire.len(),
{
    if wire.len() == 0 {
        Some((p, rem, Seq::empty()))
    } else {
        let b = wire[0];
        let rest = wire.skip(1);
        match p {
            Parser::Failed => None,
            Parser::Done => None,
            Parser::FixedLength => {
                if rem == 0 {
                    None
                } else {
                    let p2 = if rem == 1 {
                        Parser::Done
                    } else {
                        Parser::FixedLength
                    };
                    match spec_body_run(p2, (rem - 1) as nat, rest) {
                        Some((pf, rf, o)) => Some((pf, rf, seq![b] + o)),
                        None => None,
                    }
                }
            },
            Parser::Chunked(ChunkState::Content) => {
                if rem == 0 {
                    None
                } else {
                    let p2 = if rem == 1 {
                        Parser::Chunked(ChunkState::ContentCR)
                    } else {
                        Parser::Chunked(ChunkState::Content)
                    };
                    match spec_body_run(p2, (rem - 1) as nat, rest) {
                        Some((pf, rf, o)) => Some((pf, rf, seq![b] + o)),
                        None => None,
                    }
                }
            },
            Parser::Chunked(cs) => {
                match spec_meta_step(cs, rem, b) {
                    Some((p2, rem2)) => spec_body_run(p2, rem2, rest),
                    None => None,
                }
            },
        }
    }
}

/// Running a concatenation is running the pieces in turn.
pub proof fn lemma_run_extend(p: Parser, rem: nat, w1: Seq<u8>, w2: Seq<u8>)
    ensures
        spec_body_run(p, rem, w1 + w2) == (match spec_body_run(p, rem, w1) {
            None => None::<(Parser, nat, Seq<u8>)>,
            Some((p1, r1, o1)) => match spec_body_run(p1, r1, w2) {
                None => None,
                Some((p2, r2, o2)) => Some((p2, r2, o1 + o2)),
            },
        }),
    decreases w1.len(),
{
    if w1.len() == 0 {
        assert(w1 + w2 =~= w2);
        match spec_body_run(p, rem, w2) {
            Some((p2, r2, o2)) => {
                assert(Seq::<u8>::empty() + o2 =~= o2);
            },
            None => {},
        }
    } else {
        let b = w1[0];
        let w = w1 + w2;
        assert(w.len() > 0 && w[0] == b);
        assert(w.skip(1) =~= w1.skip(1) + w2);
        match p {
            Parser::Failed => {},
            Parser::Done => {},
            Parser::FixedLength => {
                if rem != 0 {
                    let p2 = if rem == 1 {
                        Parser::Done
                    } else {
                        Parser::FixedLength
                    };
                    lemma_run_extend(p2, (rem - 1) as nat, w1.skip(1), w2);
                    match spec_body_run(p2, (rem - 1) as nat, w1.skip(1)) {
                        Some((p1, r1, o1)) => {
                            match spec_body_run(p1, r1, w2) {
                                Some((p2f, r2f, o2)) => {
                                    assert(seq![b] + (o1 + o2) =~= (seq![b] + o1) + o2);
                                },
                                None => {},
                            }
                        },
                        None => {},
                    }
                }
            },
            Parser::Chunked(ChunkState::Content) => {
                if rem != 0 {
                    let p2 = if rem == 1 {
                        Parser::Chunked(ChunkState::ContentCR)
                    } else {
                        Parser::Chunked(ChunkState::Content)
                    };
                    lemma_run_extend(p2, (rem - 1) as nat, w1.skip(1), w2);
                    match spec_body_run(p2, (rem - 1) as nat, w1.skip(1)) {
                        Some((p1, r1, o1)) => {
                            match spec_body_run(p1, r1, w2) {
                                Some((p2f, r2f, o2)) => {
                                    assert(seq![b] + (o1 + o2) =~= (seq![b] + o1) + o2);
                                },
                                None => {},
                            }
                        },
                        None => {},
                    }
                }
            },
            Parser::Chunked(cs) => {
                match spec_meta_step(cs, rem, b) {
                    Some((p2, rem2)) => {
                        lemma_run_extend(p2, rem2, w1.skip(1), w2);
                    },
                    None => {},
                }
            },
        }
    }
}

/// In a content-consuming state (`FixedLength` or `Chunked(Content)`),
/// `m <= rem` wire bytes pass straight through to the output, leaving the
/// state owing `rem - m` bytes (or moved on, once the count hits zero).
pub proof fn lemma_run_data(p: Parser, rem: nat, w: Seq<u8>, m: nat)
    requires
        p == Parser::FixedLength || p == Parser::Chunked(ChunkState::Content),
        1 <= m <= rem,
        m <= w.len(),
    ensures
        spec_body_run(p, rem, w) == ({
            let pa = if m < rem {
                p
            } else if p == Parser::FixedLength {
                Parser::Done
            } else {
                Parser::Chunked(ChunkState::ContentCR)
            };
            match spec_body_run(pa, (rem - m) as nat, w.skip(m as int)) {
                Some((pf, rf, o)) => Some((pf, rf, w.take(m as int) + o)),
                None => None::<(Parser, nat, Seq<u8>)>,
            }
        }),
    decreases m,
{
    let b = w[0];
    let pa = if m < rem {
        p
    } else if p == Parser::FixedLength {
        Parser::Done
    } else {
        Parser::Chunked(ChunkState::ContentCR)
    };
    if m == 1 {
        assert(w.take(1) =~= seq![b]);
        assert(w.skip(1) =~= w.skip(m as int));
        match spec_body_run(pa, (rem - 1) as nat, w.skip(1)) {
            Some((pf, rf, o)) => {
                assert(seq![b] + o =~= w.take(1) + o);
            },
            None => {},
        }
    } else {
        let p2 = if rem == 1 {
            if p == Parser::FixedLength {
                Parser::Done
            } else {
                Parser::Chunked(ChunkState::ContentCR)
            }
        } else {
            p
        };
        assert(rem > 1);
        assert(p2 == p);
        lemma_run_data(p, (rem - 1) as nat, w.skip(1), (m - 1) as nat);
        assert(w.skip(1).skip(m - 1) =~= w.skip(m as int));
        match spec_body_run(pa, (rem - m) as nat, w.skip(m as int)) {
            Some((pf, rf, o)) => {
                assert(seq![b] + (w.skip(1).take(m - 1) + o) =~= w.take(m as int) + o);
            },
            None => {},
        }
    }
}

/// Exact value and validity of one hex digit byte.
pub fn hex_digit_value(b: u8) -> (r: Option<u8>)
    ensures
        r is Some <==> is_hex_digit(b),
        r is Some ==> r->0 == hex_value(b) && r->0 <= 15,
{
    if 48 <= b && b <= 57 {
        Some(b - 48)
    } else if 65 <= b && b <= 70 {
        Some(b - 55)
    } else if 97 <= b && b <= 102 {
        Some(b - 87)
    } else {
        None
    }
}

/// A failing prefix fails the whole input.
pub proof fn lemma_run_fail_prefix(p: Parser, rem: nat, w1: Seq<u8>, w2: Seq<u8>)
    requires
        spec_body_run(p, rem, w1) is None,
    ensures
        spec_body_run(p, rem, w1 + w2) is None,
{
    lemma_run_extend(p, rem, w1, w2);
}

/// A run that starts outside the fixed-length and failed modes stays
/// outside them: no wire byte can put the decoder there.
pub proof fn lemma_run_modes(p: Parser, rem: nat, w: Seq<u8>)
    requires
        p != Parser::FixedLength,
        p != Parser::Failed,
        spec_body_run(p, rem, w) is Some,
    ensures
        spec_body_run(p, rem, w)->Some_0.0 != Parser::FixedLength,
        spec_body_run(p, rem, w)->Some_0.0 != Parser::Failed,
    decreases w.len(),
{
    if w.len() != 0 {
        let b = w[0];
        let rest = w.skip(1);
        match p {
            Parser::Chunked(ChunkState::Content) => {
                let p2 = if rem == 1 {
                    Parser::Chunked(ChunkState::ContentCR)
                } else {
                    Parser::Chunked(ChunkState::Content)
                };
                lemma_run_modes(p2, (rem - 1) as nat, rest);
            },
            Parser::Chunked(cs) => {
                match spec_meta_step(cs, rem, b) {
                    Some((p2, rem2)) => {
                        lemma_run_modes(p2, rem2, rest);
                    },
                    None => {},
                }
            },
            _ => {},
        }
    }
}

/// A run never produces more content bytes than it consumes wire bytes.
pub proof fn lemma_run_output_len(p: Parser, rem: nat, w: Seq<u8>)
    requires
        spec_body_run(p, rem, w) is Some,
    ensures
        spec_body_run(p, rem, w)->Some_0.2.len() <= w.len(),
    decreases w.len(),
{
    if w.len() != 0 {
        let b = w[0];
        let rest = w.skip(1);
        match p {
            Parser::FixedLength => {
                let p2 = if rem == 1 {
                    Parser::Done
                } else {
                    Parser::FixedLength
                };
                lemma_run_output_len(p2, (rem - 1) as nat, rest);
            },
            Parser::Chunked(ChunkState::Content) => {
                let p2 = if rem == 1 {
                    Parser::Chunked(ChunkState::ContentCR)
                } else {
                    Parser::Chunked(ChunkState::Content)
                };
                lemma_run_output_len(p2, (rem - 1) as nat, rest);
            },
            Parser::Chunked(cs) => {
                match spec_meta_step(cs, rem, b) {
                    Some((p2, rem2)) => {
                        lemma_run_output_len(p2, rem2, rest);
                    },
                    None => {},
                }
            },
            _ => {},
        }
    }
}

/// Wire byte for one hex digit, upper case.
pub open spec fn hex_digit_char(d: nat) -> u8 {
    if d < 10 {
        (48 + d) as u8
    } else {
        (55 + d) as u8
    }
}

/// Hex digits of `n`, most significant first, empty for zero.
pub open spec fn hex_digits_rec(n: nat) -> Seq<u8>
    decreases n,
{
    if n == 0 {
        Seq::empty()
    } else {
        hex_digits_rec(n / 16).push(hex_digit_char(n % 16))
    }
}

/// Hex digits of `n` as written on the wire: minimal, upper case, and a
/// single `0` for zero.
pub open spec fn hex_digits(n: nat) -> Seq<u8> {
    if n == 0 {
        seq![48u8]
    } else {
        hex_digits_rec(n)
    }
}

/// One chunk as written on the wire: the content length in hex, CRLF, the
/// content, CRLF.  The terminal chunk is `chunk_frame` of the empty
/// sequence: `0\r\n\r\n`.
pub open spec fn chunk_frame(data: Seq<u8>) -> Seq<u8> {
    hex_digits(data.len()) + seq![CR, LF] + data + seq![CR, LF]
}

/// The wire bytes of a list of chunks, in order.
pub open spec fn frames_of(chunks: Seq<Seq<u8>>) -> Seq<u8>
    decreases chunks.len(),
{
    if chunks.len() == 0 {
        Seq::empty()
    } else {
        chunk_frame(chunks[0]) + frames_of(chunks.skip(1))
    }
}

/// The content of a list of chunks, in order.
pub open spec fn concat_of(chunks: Seq<Seq<u8>>) -> Seq<u8>
    decreases chunks.len(),
{
    if chunks.len() == 0 {
        Seq::empty()
    } else {
        chunks[0] + concat_of(chunks.skip(1))
    }
}

/// Sixteen to the `k`.
pub open spec fn pow16(k: nat) -> nat
    decreases k,
{
    if k == 0 {
        1
    } else {
        16 * pow16((k - 1) as nat)
    }
}

/// Feeding the hex digits of `n` into a size state accumulates `n` on top
/// of the already accumulated value shifted past them.
proof fn lemma_run_hex_rec(a: nat, n: nat, rest: Seq<u8>)
    requires
        a * pow16(hex_digits_rec(n).len()) + n <= u64::MAX,
    ensures
        spec_body_run(Parser::Chunked(ChunkState::Size), a, hex_digits_rec(n) + rest)
            == spec_body_run(
            Parser::Chunked(ChunkState::Size),
            a * pow16(hex_digits_rec(n).len()) + n,
            rest,
        ),
    decreases n,
{
    reveal_with_fuel(spec_body_run, 3);
    if n == 0 {
        assert(hex_digits_rec(0) + rest =~= rest);
        assert(a * pow16(0) + 0 == a) by (nonlinear_arith);
    } else {
        let k = hex_digits_rec(n).len();
        let d = n % 16;
        let q = n / 16;
        assert(hex_digits_rec(n) == hex_digits_rec(q).push(hex_digit_char(d)));
        assert(hex_digits_rec(q).len() == k - 1);
        let c = hex_digit_char(d);
        let tail = seq![c] + rest;
        assert(hex_digits_rec(n) + rest =~= hex_digits_rec(q) + tail);
        let a1 = a * pow16((k - 1) as nat) + q;
        vstd::arithmetic::div_mod::lemma_fundamental_div_mod(n as int, 16);
        assert(n == 16 * q + d);
        assert(16 * a1 + d == a * pow16(k as nat) + n) by (nonlinear_arith)
            requires
                pow16(k as nat) == 16 * pow16((k - 1) as nat),
                a1 == a * pow16((k - 1) as nat) + q,
                n == 16 * q + d,
        ;
        assert(a1 <= 16 * a1 + d);
        lemma_run_hex_rec(a, q, tail);
        assert(is_hex_digit(c) && c != CR && hex_value(c) == d);
        assert(tail.skip(1) =~= rest);
        assert(spec_body_run(Parser::Chunked(ChunkState::Size), a1, tail) == spec_body_run(
            Parser::Chunked(ChunkState::Size),
            a1 * 16 + d,
            rest,
        ));
        assert(a1 * 16 + d == a * pow16(k as nat) + n) by (nonlinear_arith)
            requires
                16 * a1 + d == a * pow16(k as nat) + n,
        ;
    }
}

/// Feeding a complete hex size line prefix sets the accumulated size.
proof fn lemma_run_sizeline(n: nat, rest: Seq<u8>)
    requires
        n <= u64::MAX,
    ensures
        spec_body_run(Parser::Chunked(ChunkState::Size), 0, hex_digits(n) + rest)
            == spec_body_run(Parser::Chunked(ChunkState::Size), n, rest),
{
    reveal_with_fuel(spec_body_run, 3);
    if n == 0 {
        let w = hex_digits(0) + rest;
        assert(w[0] == 48);
        assert(w.skip(1) =~= rest);
        assert(is_hex_digit(48) && hex_value(48) == 0);
    } else {
        lemma_run_hex_rec(0, n, rest);
        assert(0 * pow16(hex_digits_rec(n).len()) + n == n) by (nonlinear_arith);
    }
}

/// One non-empty chunk frame passes its content through and returns the
/// decoder to the size state.
#[verifier::rlimit(100)]
proof fn lemma_run_frame(c: Seq<u8>, rest: Seq<u8>)
    requires
        1 <= c.len() <= u64::MAX,
    ensures
        spec_body_run(Parser::Chunked(ChunkState::Size), 0, chunk_frame(c) + rest) == (
        match spec_body_run(Parser::Chunked(ChunkState::Size), 0, rest) {
            Some((p, r, o)) => Some((p, r, c + o)),
            None => None::<(Parser, nat, Seq<u8>)>,
        }),
{
    reveal_with_fuel(spec_body_run, 4);
    let n = c.len();
    let after_size = seq![CR, LF] + c + seq![CR, LF] + rest;
    assert(chunk_frame(c) + rest =~= hex_digits(n) + (seq![CR, LF] + (c + (seq![CR, LF]
        + rest))));
    assert(seq![CR, LF] + (c + (seq![CR, LF] + rest)) =~= after_size);
    lemma_run_sizeline(n, seq![CR, LF] + (c + (seq![CR, LF] + rest)));
    // the size line's CRLF
    assert(after_size.skip(1) =~= seq![LF] + (c + (seq![CR, LF] + rest)));
    assert((seq![LF] + (c + (seq![CR, LF] + rest))).skip(1) =~= c + (seq![CR, LF] + rest));
    assert(spec_body_run(Parser::Chunked(ChunkState::Size), n, after_size) == spec_body_run(
        Parser::Chunked(ChunkState::Content),
        n,
        c + (seq![CR, LF] + rest),
    ));
    // the content passes through
    lemma_run_data(
        Parser::Chunked(ChunkState::Content),
        n,
        c + (seq![CR, LF] + rest),
        n,
    );
    assert((c + (seq![CR, LF] + rest)).take(n as int) =~= c);
    assert((c + (seq![CR, LF] + rest)).skip(n as int) =~= seq![CR, LF] + rest);
    // the chunk's closing CRLF
    assert((seq![CR, LF] + rest).skip(1) =~= seq![LF] + rest);
    assert((seq![LF] + rest).skip(1) =~= rest);
    assert(spec_body_run(Parser::Chunked(ChunkState::ContentCR), 0, seq![CR, LF] + rest)
        == spec_body_run(Parser::Chunked(ChunkState::Size), 0, rest));
}

/// The terminal zero-size chunk ends the body.
proof fn lemma_run_terminal()
    ensures
        spec_body_run(Parser::Chunked(ChunkState::Size), 0, chunk_frame(Seq::<u8>::empty()))
            == Some((Parser::Done, 0nat, Seq::<u8>::empty())),
{
    reveal_with_fuel(spec_body_run, 7);
    let w = chunk_frame(Seq::<u8>::empty());
    assert(w =~= seq![48u8, CR, LF, CR, LF]);
    assert(w.skip(1) =~= seq![CR, LF, CR, LF]);
    assert(seq![CR, LF, CR, LF].skip(1) =~= seq![LF, CR, LF]);
    assert(seq![LF, CR, LF].skip(1) =~= seq![CR, LF]);
    assert(seq![CR, LF].skip(1) =~= seq![LF]);
    assert(seq![LF].skip(1) =~= Seq::<u8>::empty());
    assert(is_hex_digit(48) && hex_value(48) == 0);
}

/// Round trip of the chunked transfer coding: any list of non-empty chunks
/// (each within the 64-bit size bound), framed on the wire and closed by
/// the terminal zero-size chunk, decodes to exactly the concatenation of
/// the chunks' content, ending in `Done`.
pub proof fn lemma_chunked_round_trip(chunks: Seq<Seq<u8>>)
    requires
        forall|i: int| 0 <= i < chunks.len() ==> 1 <= (#[trigger] chunks[i]).len() <= u64::MAX,
    ensures
        spec_body_run(
            Parser::Chunked(ChunkState::Size),
            0,
            frames_of(chunks) + chunk_frame(Seq::<u8>::empty()),
        ) == Some((Parser::Done, 0nat, concat_of(chunks))),
    decreases chunks.len(),
{
    if chunks.len() == 0 {
        assert(frames_of(chunks) + chunk_frame(Seq::<u8>::empty()) =~= chunk_frame(
            Seq::<u8>::empty(),
        ));
        lemma_run_terminal();
        assert(concat_of(chunks) =~= Seq::<u8>::empty());
    } else {
        let c0 = chunks[0];
        let restc = chunks.skip(1);
        lemma_chunked_round_trip(restc);
        let tailw = frames_of(restc) + chunk_frame(Seq::<u8>::empty());
        lemma_run_frame(c0, tailw);
        assert(frames_of(chunks) + chunk_frame(Seq::<u8>::empty()) =~= chunk_frame(c0)
            + tailw);
        assert(c0 + concat_of(restc) == concat_of(chunks));
    }
}

} // verus!
