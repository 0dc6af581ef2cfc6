//! Body encoder: frames caller content into fixed-length or chunked wire
//! bytes.
//!
//! The encoder never performs I/O.  Every operation returns the wire bytes
//! it produced; the caller delivers them to its transport, in order (the
//! partial-write loop lives with the caller, see `BufferWriteState`).  In
//! fixed-length mode content passes straight through, bounded by the
//! declared length.  In chunked mode content is staged in a fixed 1300-byte
//! buffer that reserves five leading bytes for the hex size line and two
//! trailing bytes for the closing CRLF, so one chunk carries at most 1293
//! content bytes; a chunk is framed and handed out when the buffer fills,
//! on flush, and on close, which also appends the terminal `0\r\n\r\n`.

use vstd::prelude::*;
use vstd::pervasive::VecAdditionalExecFns;

use crate::chunked::CR;
use crate::chunked::LF;
use crate::chunked::chunk_frame;
use crate::chunked::hex_digit_char;
use crate::chunked::hex_digits;
use crate::chunked::hex_digits_rec;
use crate::errors::EncodeError;
use crate::headers::FramingError;
use crate::headers::Headers;
use crate::headers::length_from_headers;
use crate::headers::spec_length_from_headers;

verus! {

/// Total staging buffer size for one chunk.
pub const BUFFER_LEN: usize = 1300;

/// Bytes reserved in front of the content for the hex size and its CRLF.
pub const BUFFER_HEAD: usize = 5;

/// Bytes reserved after the content for the closing CRLF.
pub const BUFFER_TAIL: usize = 2;

/// Most content bytes one chunk can carry.
pub const MAX_CHUNK: usize = 1293;

/// Mathematical model of a body encoder.
pub enum EncModel {
    Fixed { remaining: nat },
    Chunked { staged: Seq<u8>, closing: bool },
    Failed,
    Closed,
}

/// Staging state of the chunked encoder: one in-flight chunk.
pub struct Chunked {
    buffer: Vec<u8>,
    buffered: usize,
    closing: bool,
}

impl Chunked {
    /// Content bytes staged for the next chunk.
    pub closed spec fn staged(&self) -> Seq<u8> {
        self.buffer@.subrange(BUFFER_HEAD as int, BUFFER_HEAD + self.buffered)
    }

    /// End of body has been signalled; no further content is accepted.
    pub closed spec fn is_closing(&self) -> bool {
        self.closing
    }

    pub open spec fn wf(&self) -> bool {
        &&& self.staged().len() <= MAX_CHUNK
        &&& (self.is_closing() ==> self.staged().len() == 0)
    }

    /// The staging buffer's representation invariant, kept abstract.
    pub closed spec fn inv(&self) -> bool {
        &&& self.buffer@.len() == BUFFER_LEN
        &&& self.buffered <= MAX_CHUNK
    }

    fn new() -> (r: Chunked)
        ensures
            r.wf(),
            r.inv(),
            r.staged() == Seq::<u8>::empty(),
            !r.is_closing(),
    {
        let r = Chunked { buffer: vec![0u8; BUFFER_LEN], buffered: 0, closing: false };
        proof {
            assert(r.staged() =~= Seq::<u8>::empty());
        }
        r
    }

    /// Stages as much of `buf` as fits beside the already staged content.
    fn append(&mut self, buf: &[u8]) -> (n: usize)
        requires
            old(self).wf(),
            old(self).inv(),
            !old(self).is_closing(),
        ensures
            final(self).wf(),
            final(self).inv(),
            !final(self).is_closing(),
            n == (if buf@.len() <= MAX_CHUNK - old(self).staged().len() {
                buf@.len() as int
            } else {
                MAX_CHUNK - old(self).staged().len()
            }),
            final(self).staged() == old(self).staged() + buf@.take(n as int),
    {
        let ghost buf0 = self.buffer@;
        let b0 = self.buffered;
        let space = MAX_CHUNK - self.buffered;
        let n = if buf.len() <= space {
            buf.len()
        } else {
            space
        };
        let mut j: usize = 0;
        while j < n
            invariant
                j <= n,
                n <= buf@.len(),
                b0 + n <= MAX_CHUNK,
                self.buffered == b0,
                self.closing == old(self).closing,
                self.buffer@.len() == BUFFER_LEN,
                forall|m: int| 0 <= m < BUFFER_HEAD + b0 ==> self.buffer@[m] == buf0[m],
                forall|m: int| 0 <= m < j ==> self.buffer@[BUFFER_HEAD + b0 + m] == buf@[m],
            decreases n - j,
        {
            self.buffer.set(BUFFER_HEAD + b0 + j, *vstd::slice::slice_index_get(buf, j));
            j = j + 1;
        }
        self.buffered = b0 + n;
        proof {
            assert(self.staged() =~= old(self).staged() + buf@.take(n as int));
        }
        n
    }

    /// Writes the size line and trailing CRLF around the staged content and
    /// hands the framed chunk out, leaving the stage empty.  Framing the
    /// empty stage yields the terminal chunk.
    fn finalize_chunk(&mut self) -> (w: Vec<u8>)
        requires
            old(self).wf(),
            old(self).inv(),
        ensures
            final(self).wf(),
            final(self).inv(),
            final(self).is_closing() == old(self).is_closing(),
            w@ == chunk_frame(old(self).staged()),
            final(self).staged() == Seq::<u8>::empty(),
    {
        let ghost staged0 = self.staged();
        let b = self.buffered;
        self.buffer.set(BUFFER_HEAD - 2, CR);
        self.buffer.set(BUFFER_HEAD - 1, LF);
        self.buffer.set(BUFFER_HEAD + b, CR);
        self.buffer.set(BUFFER_HEAD + b + 1, LF);
        let ghost mid = self.buffer@;
        proof {
            assert(mid.subrange(BUFFER_HEAD as int, BUFFER_HEAD + b) =~= staged0);
            assert(mid[BUFFER_HEAD - 2] == CR);
            assert(mid[BUFFER_HEAD - 1] == LF);
            assert(mid[BUFFER_HEAD + b] == CR);
            assert(mid[BUFFER_HEAD + b + 1] == LF);
        }
        let mut start: usize = BUFFER_HEAD - 2;
        if b == 0 {
            start = start - 1;
            self.buffer.set(start, 48);
            proof {
                assert(self.buffer@.subrange(start as int, BUFFER_HEAD - 2) =~= hex_digits(0));
            }
        } else {
            let mut v: usize = b;
            proof {
                assert(self.buffer@.subrange(start as int, start as int) =~= Seq::<u8>::empty());
                assert(hex_digits_rec(v as nat) + self.buffer@.subrange(
                    start as int,
                    BUFFER_HEAD - 2,
                ) =~= hex_digits_rec(b as nat));
            }
            while v > 0
                invariant
                    start <= BUFFER_HEAD - 2,
                    self.buffer@.len() == BUFFER_LEN,
                    self.buffered == b,
                    self.closing == old(self).closing,
                    0 < b <= MAX_CHUNK,
                    start == 3 ==> v == b,
                    start == 2 ==> v <= 255,
                    start == 1 ==> v <= 15,
                    start == 0 ==> v == 0,
                    hex_digits_rec(v as nat) + self.buffer@.subrange(
                        start as int,
                        BUFFER_HEAD - 2,
                    ) == hex_digits_rec(b as nat),
                    forall|m: int|
                        BUFFER_HEAD - 2 <= m < BUFFER_LEN ==> self.buffer@[m] == mid[m],
                decreases v,
            {
                let ghost v_old = v as nat;
                let ghost pre = self.buffer@;
                let digit = v % 16;
                v = v / 16;
                start = start - 1;
                let c: u8 = if digit < 10 {
                    48 + digit as u8
                } else {
                    55 + digit as u8
                };
                self.buffer.set(start, c);
                proof {
                    assert(hex_digits_rec(v_old) == hex_digits_rec((v_old / 16) as nat).push(
                        hex_digit_char((v_old % 16) as nat),
                    ));
                    assert(c == hex_digit_char((digit as nat)));
                    assert(self.buffer@.subrange(start as int, BUFFER_HEAD - 2) =~= seq![c]
                        + pre.subrange(start + 1, BUFFER_HEAD - 2));
                    assert(hex_digits_rec(v as nat) + self.buffer@.subrange(
                        start as int,
                        BUFFER_HEAD - 2,
                    ) =~= hex_digits_rec(b as nat));
                }
            }
            proof {
                assert(self.buffer@.subrange(start as int, BUFFER_HEAD - 2) =~= hex_digits(
                    b as nat,
                ));
            }
        }
        let end = BUFFER_HEAD + b + BUFFER_TAIL;
        let w = vstd::slice::slice_to_vec(
            vstd::slice::slice_subrange(self.buffer.as_slice(), start, end),
        );
        self.buffered = 0;
        proof {
            let bv = self.buffer@;
            assert(forall|m: int|
                BUFFER_HEAD - 2 <= m < BUFFER_LEN ==> bv[m] == mid[m]);
            assert(bv.subrange(start as int, end as int) =~= bv.subrange(
                start as int,
                BUFFER_HEAD - 2,
            ) + bv.subrange(BUFFER_HEAD - 2, BUFFER_HEAD as int) + bv.subrange(
                BUFFER_HEAD as int,
                BUFFER_HEAD + b,
            ) + bv.subrange(BUFFER_HEAD + b, end as int));
            assert(bv.subrange(BUFFER_HEAD - 2, BUFFER_HEAD as int) =~= seq![CR, LF]);
            assert(bv.subrange(BUFFER_HEAD as int, BUFFER_HEAD + b) =~= staged0);
            assert(bv.subrange(BUFFER_HEAD + b, end as int) =~= seq![CR, LF]);
            assert(bv.subrange(start as int, BUFFER_HEAD - 2) == hex_digits(staged0.len()));
            assert(w@ == chunk_frame(staged0));
            assert(self.staged() =~= Seq::<u8>::empty());
        }
        w
    }

    /// Accepts content bytes; when the stage fills, the framed chunk comes
    /// back as wire bytes to send.
    fn write_chunked(&mut self, buf: &[u8]) -> (r: Result<(usize, Vec<u8>), EncodeError>)
        requires
            old(self).wf(),
            old(self).inv(),
        ensures
            final(self).wf(),
            final(self).inv(),
            final(self).is_closing() == old(self).is_closing(),
            old(self).is_closing() && buf@.len() > 0 ==> r == Err::<(usize, Vec<u8>), EncodeError>(
                EncodeError::InvalidData,
            ) && final(self).staged() == old(self).staged(),
            !(old(self).is_closing() && buf@.len() > 0) ==> ({
                let n: int = if buf@.len() <= MAX_CHUNK - old(self).staged().len() {
                    buf@.len() as int
                } else {
                    MAX_CHUNK - old(self).staged().len()
                };
                r matches Ok(p) && p.0 == n && (if old(self).staged().len() + n == MAX_CHUNK {
                    p.1@ == chunk_frame(old(self).staged() + buf@.take(n)) && final(self).staged()
                        == Seq::<u8>::empty()
                } else {
                    p.1@ == Seq::<u8>::empty() && final(self).staged() == old(self).staged()
                        + buf@.take(n)
                })
            }),
    {
        if self.closing {
            if buf.len() > 0 {
                return Err(EncodeError::InvalidData);
            }
            proof {
                assert(self.staged() + buf@.take(0) =~= self.staged());
            }
            return Ok((0, Vec::new()));
        }
        let n = self.append(buf);
        if self.buffered == MAX_CHUNK {
            let w = self.finalize_chunk();
            Ok((n, w))
        } else {
            Ok((n, Vec::new()))
        }
    }

    /// Frames whatever is staged, if anything, and hands it out.
    fn flush_chunked(&mut self) -> (w: Vec<u8>)
        requires
            old(self).wf(),
            old(self).inv(),
        ensures
            final(self).wf(),
            final(self).inv(),
            final(self).is_closing() == old(self).is_closing(),
            final(self).staged() == Seq::<u8>::empty(),
            w@ == (if old(self).staged().len() > 0 {
                chunk_frame(old(self).staged())
            } else {
                Seq::<u8>::empty()
            }),
    {
        if self.buffered > 0 {
            self.finalize_chunk()
        } else {
            proof {
                assert(self.staged() =~= Seq::<u8>::empty());
            }
            Vec::new()
        }
    }

    /// Signals end of body: frames any staged content, then the terminal
    /// zero-size chunk.  Once latched, further closes produce nothing.
    fn close_chunked(&mut self) -> (w: Vec<u8>)
        requires
            old(self).wf(),
            old(self).inv(),
        ensures
            final(self).wf(),
            final(self).inv(),
            final(self).is_closing(),
            final(self).staged() == Seq::<u8>::empty(),
            w@ == (if old(self).is_closing() {
                Seq::<u8>::empty()
            } else if old(self).staged().len() > 0 {
                chunk_frame(old(self).staged()) + chunk_frame(Seq::<u8>::empty())
            } else {
                chunk_frame(Seq::<u8>::empty())
            }),
    {
        if self.closing {
            proof {
                assert(self.staged() =~= Seq::<u8>::empty());
            }
            return Vec::new();
        }
        let mut w: Vec<u8> = if self.buffered > 0 {
            self.finalize_chunk()
        } else {
            Vec::new()
        };
        self.closing = true;
        proof {
            assert(self.staged() =~= Seq::<u8>::empty());
        }
        let mut t = self.finalize_chunk();
        w.append(&mut t);
        proof {
            if old(self).staged().len() == 0 {
                assert(Seq::<u8>::empty() + chunk_frame(Seq::<u8>::empty()) =~= chunk_frame(
                    Seq::<u8>::empty(),
                ));
                assert(old(self).staged() =~= Seq::<u8>::empty());
            }
        }
        w
    }
}

/// Encoder for a message body: fixed-length pass-through or chunked
/// framing, with sticky terminal states.
pub enum BodyEncodeState {
    Fixed { remaining: u64 },
    Chunked(Chunked),
    Failed,
    Closed,
}

impl BodyEncodeState {
    /// Mathematical model of the encoder.
    pub closed spec fn model(&self) -> EncModel {
        match self {
            BodyEncodeState::Fixed { remaining } => EncModel::Fixed {
                remaining: *remaining as nat,
            },
            BodyEncodeState::Chunked(c) => EncModel::Chunked {
                staged: c.staged(),
                closing: c.is_closing(),
            },
            BodyEncodeState::Failed => EncModel::Failed,
            BodyEncodeState::Closed => EncModel::Closed,
        }
    }

    pub open spec fn wf(&self) -> bool {
        match self.model() {
            EncModel::Chunked { staged, closing } => staged.len() <= MAX_CHUNK && (closing
                ==> staged.len() == 0),
            _ => true,
        }
    }

    /// Representation invariant of the staging buffer, kept abstract.
    pub closed spec fn inv(&self) -> bool {
        match self {
            BodyEncodeState::Chunked(c) => c.inv(),
            _ => true,
        }
    }

    /// An encoder for a body of `length` bytes, or for a chunked body when
    /// no length is declared.
    pub fn new(length: Option<u64>) -> (r: Self)
        ensures
            r.wf(),
            r.inv(),
            r.model() == (match length {
                Some(n) => EncModel::Fixed { remaining: n as nat },
                None => EncModel::Chunked { staged: Seq::<u8>::empty(), closing: false },
            }),
    {
        match length {
            Some(n) => BodyEncodeState::Fixed { remaining: n },
            None => BodyEncodeState::Chunked(Chunked::new()),
        }
    }

    /// An encoder for the framing the headers declare: chunked transfer
    /// coding, or a fixed `Content-Length` (zero with neither header).
    pub fn from_headers(headers: &Headers) -> (r: Result<Self, FramingError>)
        ensures
            (match spec_length_from_headers(headers.model()) {
                Ok(length) => r matches Ok(d) && d.wf() && d.inv() && d.model() == (match length {
                    Some(n) => EncModel::Fixed { remaining: n as nat },
                    None => EncModel::Chunked { staged: Seq::<u8>::empty(), closing: false },
                }),
                Err(e) => r == Err::<Self, FramingError>(e),
            }),
    {
        match length_from_headers(headers) {
            Ok(length) => Ok(Self::new(length)),
            Err(e) => Err(e),
        }
    }

    /// Accepts up to `buf.len()` content bytes, returning how many were
    /// accepted together with the wire bytes to send now.  In fixed-length
    /// mode content passes straight through, never beyond the declared
    /// length; writing more after the length is used up is a `BodyOverflow`
    /// and fails the encoder.  In chunked mode content is staged and comes
    /// out framed whenever a chunk fills; writing after close is
    /// `InvalidData`.
    pub fn write(&mut self, buf: &[u8]) -> (r: Result<(usize, Vec<u8>), EncodeError>)
        requires
            old(self).wf(),
            old(self).inv(),
        ensures
            final(self).wf(),
            final(self).inv(),
            (match old(self).model() {
                EncModel::Failed => r == Err::<(usize, Vec<u8>), EncodeError>(
                    EncodeError::BrokenPipe,
                ) && final(self).model() == old(self).model(),
                EncModel::Closed => r == Err::<(usize, Vec<u8>), EncodeError>(
                    EncodeError::BrokenPipe,
                ) && final(self).model() == old(self).model(),
                EncModel::Fixed { remaining } => {
                    if remaining == 0 && buf@.len() > 0 {
                        r == Err::<(usize, Vec<u8>), EncodeError>(EncodeError::BodyOverflow)
                            && final(self).model() == EncModel::Failed
                    } else {
                        let n: int = if buf@.len() <= remaining {
                            buf@.len() as int
                        } else {
                            remaining as int
                        };
                        &&& r matches Ok(p) && p.0 == n && p.1@ == buf@.take(n)
                        &&& final(self).model() == (EncModel::Fixed {
                            remaining: (remaining - n) as nat,
                        })
                    }
                },
                EncModel::Chunked { staged, closing } => {
                    if closing && buf@.len() > 0 {
                        r == Err::<(usize, Vec<u8>), EncodeError>(EncodeError::InvalidData)
                            && final(self).model() == old(self).model()
                    } else {
                        let n: int = if buf@.len() <= MAX_CHUNK - staged.len() {
                            buf@.len() as int
                        } else {
                            MAX_CHUNK - staged.len()
                        };
                        r matches Ok(p) && p.0 == n && (if staged.len() + n == MAX_CHUNK {
                            p.1@ == chunk_frame(staged + buf@.take(n)) && final(self).model()
                                == (EncModel::Chunked { staged: Seq::<u8>::empty(), closing })
                        } else {
                            p.1@ == Seq::<u8>::empty() && final(self).model() == (
                            EncModel::Chunked { staged: staged + buf@.take(n), closing })
                        })
                    }
                },
            }),
    {
        let mut cur = BodyEncodeState::Failed;
        core::mem::swap(self, &mut cur);
        match cur {
            BodyEncodeState::Fixed { remaining } => {
                if remaining == 0 {
                    if buf.len() == 0 {
                        *self = BodyEncodeState::Fixed { remaining: 0 };
                        proof {
                            assert(buf@.take(0) =~= Seq::<u8>::empty());
                        }
                        Ok((0, Vec::new()))
                    } else {
                        *self = BodyEncodeState::Failed;
                        Err(EncodeError::BodyOverflow)
                    }
                } else {
                    let n: usize = if (buf.len() as u64) <= remaining {
                        buf.len()
                    } else {
                        remaining as usize
                    };
                    let wire = vstd::slice::slice_to_vec(vstd::slice::slice_subrange(buf, 0, n));
                    *self = BodyEncodeState::Fixed { remaining: remaining - n as u64 };
                    proof {
                        assert(wire@ =~= buf@.take(n as int));
                    }
                    Ok((n, wire))
                }
            },
            BodyEncodeState::Chunked(mut c) => {
                let r = c.write_chunked(buf);
                *self = BodyEncodeState::Chunked(c);
                r
            },
            BodyEncodeState::Failed => {
                *self = BodyEncodeState::Failed;
                Err(EncodeError::BrokenPipe)
            },
            BodyEncodeState::Closed => {
                *self = BodyEncodeState::Closed;
                Err(EncodeError::BrokenPipe)
            },
        }
    }

    /// Makes every accepted byte ready for the wire: in chunked mode the
    /// staged content, if any, is framed and handed out.  The caller then
    /// flushes its transport.
    pub fn flush(&mut self) -> (r: Result<Vec<u8>, EncodeError>)
        requires
            old(self).wf(),
            old(self).inv(),
        ensures
            final(self).wf(),
            final(self).inv(),
            (match old(self).model() {
                EncModel::Failed => r == Err::<Vec<u8>, EncodeError>(EncodeError::BrokenPipe)
                    && final(self).model() == old(self).model(),
                EncModel::Closed => r == Err::<Vec<u8>, EncodeError>(EncodeError::BrokenPipe)
                    && final(self).model() == old(self).model(),
                EncModel::Fixed { remaining } => r matches Ok(w) && w@ == Seq::<u8>::empty()
                    && final(self).model() == old(self).model(),
                EncModel::Chunked { staged, closing } => {
                    &&& r matches Ok(w) && w@ == (if staged.len() > 0 {
                        chunk_frame(staged)
                    } else {
                        Seq::<u8>::empty()
                    })
                    &&& final(self).model() == (EncModel::Chunked {
                        staged: Seq::<u8>::empty(),
                        closing,
                    })
                },
            }),
    {
        let mut cur = BodyEncodeState::Failed;
        core::mem::swap(self, &mut cur);
        match cur {
            BodyEncodeState::Fixed { remaining } => {
                *self = BodyEncodeState::Fixed { remaining };
                Ok(Vec::new())
            },
            BodyEncodeState::Chunked(mut c) => {
                let w = c.flush_chunked();
                *self = BodyEncodeState::Chunked(c);
                Ok(w)
            },
            BodyEncodeState::Failed => {
                *self = BodyEncodeState::Failed;
                Err(EncodeError::BrokenPipe)
            },
            BodyEncodeState::Closed => {
                *self = BodyEncodeState::Closed;
                Err(EncodeError::BrokenPipe)
            },
        }
    }

    /// Signals end of body.  A fixed-length encoder may close early; a
    /// chunked encoder frames any staged content and appends the terminal
    /// zero-size chunk.  Closing twice is harmless.
    pub fn close(&mut self) -> (r: Result<Vec<u8>, EncodeError>)
        requires
            old(self).wf(),
            old(self).inv(),
        ensures
            final(self).wf(),
            final(self).inv(),
            (match old(self).model() {
                EncModel::Failed => r == Err::<Vec<u8>, EncodeError>(EncodeError::BrokenPipe)
                    && final(self).model() == old(self).model(),
                EncModel::Closed => r matches Ok(w) && w@ == Seq::<u8>::empty() && final(self).model() == old(self).model(),
                EncModel::Fixed { remaining } => r matches Ok(w) && w@ == Seq::<u8>::empty()
                    && final(self).model() == EncModel::Closed,
                EncModel::Chunked { staged, closing } => {
                    &&& r matches Ok(w) && w@ == (if closing {
                        Seq::<u8>::empty()
                    } else if staged.len() > 0 {
                        chunk_frame(staged) + chunk_frame(Seq::<u8>::empty())
                    } else {
                        chunk_frame(Seq::<u8>::empty())
                    })
                    &&& final(self).model() == (EncModel::Chunked {
                        staged: Seq::<u8>::empty(),
                        closing: true,
                    })
                },
            }),
    {
        let mut cur = BodyEncodeState::Failed;
        core::mem::swap(self, &mut cur);
        match cur {
            BodyEncodeState::Fixed { remaining } => {
                *self = BodyEncodeState::Closed;
                Ok(Vec::new())
            },
            BodyEncodeState::Chunked(mut c) => {
                let w = c.close_chunked();
                *self = BodyEncodeState::Chunked(c);
                Ok(w)
            },
            BodyEncodeState::Failed => {
                *self = BodyEncodeState::Failed;
                Err(EncodeError::BrokenPipe)
            },
            BodyEncodeState::Closed => {
                *self = BodyEncodeState::Closed;
                Ok(Vec::new())
            },
        }
    }

    /// The encoder refuses all further content.
    pub fn is_terminated(&self) -> (r: bool)
        ensures
            r == (self.model() == EncModel::Failed || self.model() == EncModel::Closed),
    {
        match self {
            BodyEncodeState::Failed => true,
            BodyEncodeState::Closed => true,
            _ => false,
        }
    }
}

} // verus!

