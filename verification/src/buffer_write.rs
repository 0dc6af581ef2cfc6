//! State of a partial-write loop: a buffer and a completion cursor.
//!
//! A caller repeatedly takes the unwritten remainder, attempts to write it
//! to its transport, and reports back how many bytes the transport
//! accepted; the cursor advances until the buffer is fully written.  The
//! buffer never changes while it is being drained.

use vstd::prelude::*;

verus! {

/// A buffer being driven to a transport, with a completion cursor.
pub struct BufferWriteState {
    buffer: Vec<u8>,
    completion: usize,
}

impl BufferWriteState {
    /// The whole buffer being written.
    pub closed spec fn data(&self) -> Seq<u8> {
        self.buffer@
    }

    /// How many leading bytes have been accepted by the transport.
    pub closed spec fn written(&self) -> nat {
        self.completion as nat
    }

    pub open spec fn wf(&self) -> bool {
        self.written() <= self.data().len()
    }

    pub fn new(buffer: Vec<u8>) -> (r: BufferWriteState)
        ensures
            r.wf(),
            r.data() == buffer@,
            r.written() == 0,
    {
        BufferWriteState { buffer, completion: 0 }
    }

    /// Everything has been written.
    pub fn is_complete(&self) -> (r: bool)
        requires
            self.wf(),
        ensures
            r == (self.written() == self.data().len()),
    {
        self.completion == self.buffer.len()
    }

    /// The bytes still to be written.
    pub fn pending(&self) -> (r: &[u8])
        requires
            self.wf(),
        ensures
            r@ == self.data().skip(self.written() as int),
    {
        vstd::slice::slice_subrange(self.buffer.as_slice(), self.completion, self.buffer.len())
    }

    /// The transport accepted `n` more bytes of the pending remainder.
    pub fn advance(&mut self, n: usize)
        requires
            old(self).wf(),
            n <= old(self).data().len() - old(self).written(),
        ensures
            final(self).wf(),
            final(self).data() == old(self).data(),
            final(self).written() == old(self).written() + n,
    {
        let l = self.buffer.len();
        proof {
            assert(self.completion + n <= l);
        }
        self.completion = self.completion + n;
    }
}

} // verus!
