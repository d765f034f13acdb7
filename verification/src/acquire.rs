//! Bounded in-memory acquisition of a non-seekable input, with the
//! disk-spill decision at a fixed threshold.
//!
//! A seekable input is memory-mapped by the caller and never passes through
//! here. A non-seekable one (a pipe, interactive standard input) is read
//! chunk by chunk into this buffer; when the stream ends first, the byte
//! view is served from memory, and when the threshold is reached first, the
//! caller persists the bytes held here plus the remainder of the stream to
//! a temporary file and maps that file. Either way the consumer sees one
//! contiguous view of the whole input, and exactly one backing store holds
//! it.

use vstd::prelude::*;
use crate::scalar::emit;

verus! {

/// The in-memory buffering threshold for standard input.
pub const MAX_BUF_SIZE: usize = 4 * 1024 * 1024;

/// The bounded in-memory stage of standard-input acquisition.
pub struct SpillBuffer {
    data: Vec<u8>,
    limit: usize,
}

impl View for SpillBuffer {
    type V = Seq<u8>;

    closed spec fn view(&self) -> Seq<u8> {
        self.data@
    }
}

impl SpillBuffer {
    /// The spill threshold this buffer was created with.
    pub closed spec fn spec_limit(&self) -> usize {
        self.limit
    }

    /// A buffer that spills once it holds `limit` bytes.
    pub fn new(limit: usize) -> (r: SpillBuffer)
        ensures
            r@ == Seq::<u8>::empty(),
            r.spec_limit() == limit,
    {
        SpillBuffer { data: Vec::new(), limit }
    }

    /// A buffer with the standard-input spill threshold.
    pub fn with_default_limit() -> (r: SpillBuffer)
        ensures
            r@ == Seq::<u8>::empty(),
            r.spec_limit() == MAX_BUF_SIZE,
    {
        SpillBuffer::new(MAX_BUF_SIZE)
    }

    /// Room left before the threshold. The read loop asks the stream for at
    /// most this many bytes, so a chunk can never overshoot the threshold.
    pub fn room(&self) -> (n: usize)
        requires
            self@.len() <= self.spec_limit(),
        ensures
            n == self.spec_limit() - self@.len(),
    {
        self.limit - self.data.len()
    }

    /// Append one chunk read from the stream. Returns true exactly when the
    /// buffer now holds `limit` bytes, which is the caller's signal to
    /// persist everything read so far and the rest of the stream to a
    /// temporary file.
    pub fn push_chunk(&mut self, chunk: &[u8]) -> (spill: bool)
        requires
            old(self)@.len() + chunk@.len() <= old(self).spec_limit(),
        ensures
            final(self)@ == old(self)@ + chunk@,
            final(self).spec_limit() == old(self).spec_limit(),
            spill == (final(self)@.len() == final(self).spec_limit()),
    {
        emit(&mut self.data, chunk, 0, chunk.len());
        proof {
            assert(chunk@.subrange(0, chunk@.len() as int) =~= chunk@);
        }
        self.data.len() == self.limit
    }

    /// The buffered bytes: scanned directly when the stream ended below the
    /// threshold, or written out first when spilling.
    pub fn bytes(&self) -> (s: &[u8])
        ensures
            s@ == self@,
    {
        self.data.as_slice()
    }

    /// Number of bytes buffered so far.
    pub fn len(&self) -> (n: usize)
        ensures
            n == self@.len(),
    {
        self.data.len()
    }
}

} // verus!
