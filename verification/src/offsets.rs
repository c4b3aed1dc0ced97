//! The buffer that holds the offsets found by the scanner: a `SmallVec` with
//! room for 64 offsets before it moves to the heap.
//!
//! The contracts of `new`, `push` and `as_slice` are not proved. They state
//! what the `smallvec` crate does, and the rest of the library is verified
//! against them.

use smallvec::SmallVec;
use vstd::prelude::*;
use vstd::slice::slice_to_vec;

verus! {

/// A growable run of offsets, kept inline while it is short. It is a
/// `smallvec::SmallVec<[usize; 64]>`; the verifier does not look inside it
/// and knows of it only what the contracts below say of `held`.
#[verifier::external_body]
pub struct OffsetBuffer {
    inner: SmallVec<[usize; 64]>,
}

/// The offsets that the buffer holds, first pushed first.
pub uninterp spec fn held(buffer: OffsetBuffer) -> Seq<usize>;

impl OffsetBuffer {
    /// `SmallVec::new`: the buffer it makes holds nothing. Its one check, on
    /// the size of the inline array, holds for every array of `usize`.
    #[verifier::external_body]
    pub(crate) fn new() -> (buffer: OffsetBuffer)
        ensures
            held(buffer) == Seq::<usize>::empty(),
    {
        OffsetBuffer { inner: SmallVec::new() }
    }

    /// `SmallVec::push`: the offset is added behind those already held, which
    /// stay as they are. Like `Vec::push` it gives up only where the grown
    /// buffer cannot be had: the allocator has no memory for it, or its size
    /// in bytes would not fit in `isize`.
    #[verifier::external_body]
    pub(crate) fn push(&mut self, offset: usize)
        ensures
            held(*final(self)) == held(*old(self)).push(offset),
    {
        self.inner.push(offset)
    }

    /// `SmallVec::as_slice`: the slice it lends holds the same offsets in the
    /// same order.
    #[verifier::external_body]
    pub(crate) fn as_slice(&self) -> (offsets: &[usize])
        ensures
            offsets@ == held(*self),
    {
        self.inner.as_slice()
    }

    /// The offsets held, copied out in their order.
    pub fn to_vec(&self) -> (offsets: Vec<usize>)
        ensures
            offsets@ == held(*self),
    {
        slice_to_vec(self.as_slice())
    }
}

} // verus!
