//! Incremental scanner for a fixed terminator byte sequence.
//!
//! The scanner watches a stream of byte chunks for the first occurrence of a
//! terminator (such as the `\r\n\r\n` that ends an HTTP head).  It keeps only
//! the length of the longest suffix of the bytes seen so far that is a prefix
//! of the terminator, so a caller can always ask how many more bytes may be
//! read without any risk of reading past the terminator.

use vstd::prelude::*;

verus! {

/// `k` bytes at the end of `s` equal the first `k` bytes of `t`.
pub open spec fn is_overlap(s: Seq<u8>, t: Seq<u8>, k: int) -> bool {
    &&& 0 <= k <= t.len()
    &&& k <= s.len()
    &&& s.skip(s.len() - k) == t.take(k)
}

/// The largest `k <= bound` such that `is_overlap(s, t, k)` holds.
pub open spec fn max_overlap_upto(s: Seq<u8>, t: Seq<u8>, bound: nat) -> nat
    decreases bound,
{
    if bound == 0 {
        0
    } else if is_overlap(s, t, bound as int) {
        bound
    } else {
        max_overlap_upto(s, t, (bound - 1) as nat)
    }
}

/// The length of the longest suffix of `s` that is a prefix of `t`.
pub open spec fn spec_overlap(s: Seq<u8>, t: Seq<u8>) -> nat {
    if s.len() <= t.len() {
        max_overlap_upto(s, t, s.len())
    } else {
        max_overlap_upto(s, t, t.len())
    }
}

/// The whole terminator appears at the very end of `s`.
pub open spec fn ends_with_terminator(s: Seq<u8>, t: Seq<u8>) -> bool {
    is_overlap(s, t, t.len() as int)
}

/// The terminator appears nowhere strictly inside `s` (an occurrence at the
/// very end is allowed).
pub open spec fn no_interior_occurrence(s: Seq<u8>, t: Seq<u8>) -> bool {
    forall|p: int|
        0 <= p && p + t.len() < s.len() ==> #[trigger] s.subrange(p, p + t.len() as int) != t
}

proof fn lemma_max_overlap_upto(s: Seq<u8>, t: Seq<u8>, bound: nat)
    ensures
        max_overlap_upto(s, t, bound) <= bound,
        is_overlap(s, t, max_overlap_upto(s, t, bound) as int),
        forall|k: int| max_overlap_upto(s, t, bound) < k <= bound ==> !is_overlap(s, t, k),
    decreases bound,
{
    assert(s.skip(s.len() - 0) =~= t.take(0));
    if bound != 0 && !is_overlap(s, t, bound as int) {
        lemma_max_overlap_upto(s, t, (bound - 1) as nat);
    }
}

/// `spec_overlap` is the true maximum: it is an overlap, and every overlap
/// length is bounded by it.
pub proof fn lemma_spec_overlap(s: Seq<u8>, t: Seq<u8>)
    ensures
        spec_overlap(s, t) <= s.len(),
        spec_overlap(s, t) <= t.len(),
        is_overlap(s, t, spec_overlap(s, t) as int),
        forall|k: int| is_overlap(s, t, k) ==> k <= spec_overlap(s, t),
{
    let bound: nat = if s.len() <= t.len() {
        s.len()
    } else {
        t.len()
    };
    lemma_max_overlap_upto(s, t, bound);
}

/// Appending one byte relates overlaps of the longer and the shorter
/// sequence: the last `k` bytes of `s + [b]` match `t.take(k)` exactly when
/// `b` continues a `k - 1`-byte overlap of `s`.
proof fn lemma_overlap_push(s: Seq<u8>, t: Seq<u8>, b: u8, k: int)
    requires
        1 <= k <= t.len(),
        k <= s.len() + 1,
    ensures
        is_overlap(s.push(b), t, k) <==> (t[k - 1] == b && is_overlap(s, t, k - 1)),
{
    let sp = s.push(b);
    assert(sp.skip(sp.len() - k) =~= s.skip(s.len() - (k - 1)).push(b));
    assert(t.take(k) =~= t.take(k - 1).push(t[k - 1]));
    if t[k - 1] == b && is_overlap(s, t, k - 1) {
        assert(sp.skip(sp.len() - k) =~= t.take(k));
    }
    if is_overlap(sp, t, k) {
        assert(s.skip(s.len() - (k - 1)) =~= sp.skip(sp.len() - k).take(k - 1));
        assert(t.take(k - 1) =~= t.take(k).take(k - 1));
        assert(sp.skip(sp.len() - k)[k - 1] == t.take(k)[k - 1]);
    }
}

/// One new byte can extend the longest overlap by at most one.
proof fn lemma_overlap_push_bound(s: Seq<u8>, t: Seq<u8>, b: u8)
    ensures
        spec_overlap(s.push(b), t) <= spec_overlap(s, t) + 1,
{
    let k = spec_overlap(s.push(b), t) as int;
    lemma_spec_overlap(s.push(b), t);
    lemma_spec_overlap(s, t);
    if k >= 1 {
        lemma_overlap_push(s, t, b, k);
    }
}

/// Within a sequence that already overlaps the terminator by `ov` bytes, a
/// shorter overlap candidate can be tested against the terminator itself.
proof fn lemma_overlap_within(s: Seq<u8>, t: Seq<u8>, ov: int, j: int)
    requires
        is_overlap(s, t, ov),
        0 <= j <= ov,
    ensures
        is_overlap(s, t, j) <==> t.take(ov).skip(ov - j) == t.take(j),
{
    assert(s.skip(s.len() - j) =~= s.skip(s.len() - ov).skip(ov - j));
}

/// Incremental matcher for a fixed terminator byte sequence across
/// fragmented reads.
pub struct TerminatorOverlap {
    terminator: Vec<u8>,
    overlap: usize,
    seen: Ghost<Seq<u8>>,
}

impl TerminatorOverlap {
    /// The terminator being searched for.
    pub closed spec fn term(&self) -> Seq<u8> {
        self.terminator@
    }

    /// All bytes processed so far.
    pub closed spec fn processed(&self) -> Seq<u8> {
        self.seen@
    }

    /// The current overlap, as tracked by the scanner.
    pub closed spec fn overlap(&self) -> nat {
        self.overlap as nat
    }

    /// The scanner's invariant: the tracked overlap is the longest suffix of
    /// the processed bytes that is a prefix of the terminator, and the
    /// terminator has never appeared strictly inside the processed bytes.
    pub open spec fn wf(&self) -> bool {
        &&& self.overlap() == spec_overlap(self.processed(), self.term())
        &&& no_interior_occurrence(self.processed(), self.term())
    }

    /// How many terminator bytes are still unmatched.
    pub open spec fn spec_remaining(&self) -> nat {
        (self.term().len() - self.overlap()) as nat
    }

    pub fn new(terminator: &[u8]) -> (r: TerminatorOverlap)
        ensures
            r.wf(),
            r.term() == terminator@,
            r.processed() == Seq::<u8>::empty(),
            r.overlap() == 0,
    {
        proof {
            lemma_spec_overlap(Seq::<u8>::empty(), terminator@);
        }
        TerminatorOverlap {
            terminator: vstd::slice::slice_to_vec(terminator),
            overlap: 0,
            seen: Ghost(Seq::empty()),
        }
    }

    /// Minimum number of bytes that must still be read before the terminator
    /// can possibly be complete; reading this many bytes can never go past
    /// the terminator.
    pub fn remaining(&self) -> (r: usize)
        requires
            self.wf(),
        ensures
            r == self.spec_remaining(),
    {
        proof {
            lemma_spec_overlap(self.processed(), self.term());
        }
        self.terminator.len() - self.overlap
    }

    /// True once the complete terminator has been processed.
    pub fn done(&self) -> (r: bool)
        requires
            self.wf(),
        ensures
            r == ends_with_terminator(self.processed(), self.term()),
    {
        proof {
            lemma_spec_overlap(self.processed(), self.term());
        }
        self.overlap == self.terminator.len()
    }

    /// The largest number of bytes that may be read into a buffer of length
    /// `buf_len` without any risk of reading past the terminator.
    pub fn max_read_buf(&self, buf_len: usize) -> (r: usize)
        requires
            self.wf(),
        ensures
            r == if buf_len <= self.spec_remaining() {
                buf_len as nat
            } else {
                self.spec_remaining()
            },
    {
        let remaining = self.remaining();
        if buf_len <= remaining {
            buf_len
        } else {
            remaining
        }
    }

    /// Scans a chunk of newly read bytes.  The chunk must not be larger than
    /// `remaining()`, which is how a caller is prevented from ever reading
    /// past the terminator: the terminator can only ever complete exactly at
    /// the end of a full-length chunk.
    pub fn process(&mut self, data: &[u8])
        requires
            old(self).wf(),
            data@.len() <= old(self).spec_remaining(),
        ensures
            final(self).wf(),
            final(self).term() == old(self).term(),
            final(self).processed() == old(self).processed() + data@,
            ends_with_terminator(final(self).processed(), final(self).term()) ==> data@.len()
                == old(self).spec_remaining(),
    {
        let ghost s0 = self.seen@;
        let ghost t = self.terminator@;
        let ghost ov0 = self.overlap as nat;
        let mut i: usize = 0;
        proof {
            assert(s0 + data@.take(0) =~= s0);
            lemma_spec_overlap(s0, t);
        }
        while i < data.len()
            invariant
                i <= data@.len(),
                data@.len() <= t.len() - ov0,
                self.terminator@ == t,
                self.seen@ == s0 + data@.take(i as int),
                self.overlap == spec_overlap(self.seen@, t),
                self.overlap <= ov0 + i,
                no_interior_occurrence(self.seen@, t),
            decreases data@.len() - i,
        {
            let b = *vstd::slice::slice_index_get(data, i);
            let ghost s_cur = self.seen@;
            let new_overlap = overlap_extend(&self.terminator, self.overlap, b, Ghost(s_cur));
            proof {
                lemma_overlap_push_bound(s_cur, t, b);
                let s_next = s_cur.push(b);
                assert(s_next =~= s0 + data@.take(i + 1));
                // A new interior occurrence would have to end exactly at the
                // old end of the processed bytes, which would mean the
                // overlap was already complete there -- impossible, because
                // the overlap grows by at most one per byte and the chunk
                // fits inside the previously remaining terminator bytes.
                assert forall|p: int|
                    0 <= p && p + t.len() < s_next.len() implies #[trigger] s_next.subrange(
                    p,
                    p + t.len() as int,
                ) != t by {
                    if p + t.len() < s_cur.len() {
                        assert(s_next.subrange(p, p + t.len() as int) =~= s_cur.subrange(
                            p,
                            p + t.len() as int,
                        ));
                    } else {
                        if s_next.subrange(p, p + t.len() as int) == t {
                            assert(s_cur.skip(s_cur.len() - t.len()) =~= s_next.subrange(
                                p,
                                p + t.len() as int,
                            ));
                            assert(t.take(t.len() as int) =~= t);
                            assert(is_overlap(s_cur, t, t.len() as int));
                            lemma_spec_overlap(s_cur, t);
                        }
                    }
                }
            }
            self.overlap = new_overlap;
            self.seen = Ghost(s_cur.push(b));
            i = i + 1;
        }
        proof {
            assert(data@.take(data@.len() as int) =~= data@);
            if ends_with_terminator(self.processed(), t) {
                lemma_spec_overlap(self.processed(), t);
            }
        }
    }
}

/// Longest overlap after one more byte, computed from the previous overlap
/// and the terminator alone.
fn overlap_extend(t: &Vec<u8>, ov: usize, b: u8, s: Ghost<Seq<u8>>) -> (r: usize)
    requires
        ov == spec_overlap(s@, t@),
        ov < t@.len(),
    ensures
        r == spec_overlap(s@.push(b), t@),
{
    let n = t.len();
    let mut k: usize = ov + 1;
    while k >= 1
        invariant
            k <= ov + 1,
            ov < n == t@.len(),
            ov == spec_overlap(s@, t@),
            ov < t@.len(),
            forall|j: int| k < j <= ov + 1 ==> !is_overlap(s@.push(b), t@, j),
        decreases k,
    {
        proof {
            lemma_spec_overlap(s@, t@);
            lemma_overlap_push(s@, t@, b, k as int);
            lemma_overlap_within(s@, t@, ov as int, k as int - 1);
        }
        if t[k - 1] == b && take_ends_with(t, ov, k - 1) {
            proof {
                assert(is_overlap(s@.push(b), t@, k as int));
                lemma_spec_overlap(s@.push(b), t@);
                assert forall|j: int| is_overlap(s@.push(b), t@, j) implies j <= k as int by {
                    if j > ov + 1 {
                        lemma_overlap_push(s@, t@, b, j);
                    }
                }
            }
            return k;
        }
        k = k - 1;
    }
    proof {
        lemma_spec_overlap(s@.push(b), t@);
        lemma_spec_overlap(s@, t@);
        let m = spec_overlap(s@.push(b), t@) as int;
        if m > 0 {
            if m > ov + 1 {
                lemma_overlap_push(s@, t@, b, m);
            }
            assert(!is_overlap(s@.push(b), t@, m));
            assert(false);
        }
    }
    0
}

/// Whether the last `j` bytes of `t.take(ov)` equal the first `j` bytes of
/// `t`: a suffix-against-prefix comparison of the terminator with itself.
fn take_ends_with(t: &Vec<u8>, ov: usize, j: usize) -> (r: bool)
    requires
        j <= ov <= t@.len(),
    ensures
        r == (t@.take(ov as int).skip(ov - j) == t@.take(j as int)),
{
    let mut i: usize = 0;
    while i < j
        invariant
            i <= j <= ov <= t@.len(),
            forall|m: int| 0 <= m < i ==> t@[ov - j + m] == #[trigger] t@[m],
        decreases j - i,
    {
        if t[ov - j + i] != t[i] {
            proof {
                assert(t@.take(ov as int).skip(ov - j)[i as int] != t@.take(j as int)[i as int]);
            }
            return false;
        }
        i = i + 1;
    }
    proof {
        assert(t@.take(ov as int).skip(ov - j) =~= t@.take(j as int));
    }
    true
}

} // verus!
