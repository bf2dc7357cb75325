//! The fundamental unit handed out and taken back by the allocator.
//!
//! The allocator traffics in *slices*, not raw pointers. A [`Slice`] is a
//! `(ptr, len)` pair of `u64`s, so the length stays beside every address.

use vstd::prelude::*;

verus! {

/// A contiguous region of memory, described as a base address and a length.
///
/// A `Slice` carries no provenance of its own. The slices returned by
/// [`allocate`](crate::CadAlloc::allocate) name the payload of a block; a slice built
/// by hand is only good for address arithmetic, or to reconstruct an address the
/// caller already owns.
///
/// The all-zero slice ([`Slice::null`]) is reserved to mean "no region".
#[derive(Clone, Copy, PartialEq, Eq, Hash, Debug, Default, Structural)]
pub struct Slice {
    /// Base address of the region.
    pub ptr: u64,
    /// Length of the region, in bytes.
    pub len: u64,
}

impl Slice {
    /// The null slice: base `0`, length `0`. Returned to signal failure.
    pub fn null() -> (r: Self)
        ensures
            r == (Slice { ptr: 0, len: 0 }),
    {
        Self { ptr: 0, len: 0 }
    }

    /// The set of addresses the region covers, when it does not wrap the address
    /// space.
    pub open spec fn covers(self, addr: int) -> bool {
        self.ptr <= addr < self.ptr + self.len
    }

    /// Constructs a slice from a base address and a length.
    pub fn new(ptr: u64, len: u64) -> (r: Self)
        ensures
            r == (Slice { ptr, len }),
    {
        Self { ptr, len }
    }

    /// Returns `true` if this is a null slice (base `0`).
    pub fn is_null(&self) -> (r: bool)
        ensures
            r == (self.ptr == 0),
    {
        self.ptr == 0
    }

    /// Returns the address one past the end of the region (`ptr + len`).
    ///
    /// The addition is wrapping; a well-formed slice never wraps the address
    /// space, so a wrapped result indicates a malformed slice.
    pub fn end(&self) -> (r: u64)
        ensures
            self.ptr + self.len <= u64::MAX ==> r == self.ptr + self.len,
            self.ptr + self.len > u64::MAX ==> r == self.ptr + self.len - u64::MAX - 1,
    {
        self.ptr.wrapping_add(self.len)
    }

    /// Returns `true` if `addr` lies within `[ptr, ptr + len)`.
    ///
    /// A slice that wraps the address space contains nothing.
    pub fn contains(&self, addr: u64) -> (r: bool)
        ensures
            self.ptr + self.len <= u64::MAX ==> r == self.covers(addr as int),
            self.ptr + self.len > u64::MAX ==> !r,
    {
        addr >= self.ptr && addr < self.end()
    }
}

} // verus!
