//! The entry points a configuration exports to C and other callers.
//!
//! The methods on [`CadAlloc`] are generic over the [`Config`], so they cannot
//! carry a symbol name of their own. An exported entry point picks one
//! configuration and calls the function here of the same purpose.
//!
//! # ABI
//!
//! - [`Slice`] is passed and returned by value.
//! - [`c_alloc`] returns the null slice (a zero `ptr`) on failure.
//! - [`c_realloc`] returns the resized payload, or the null slice on failure
//!   (leaving the block valid); a null input acts like [`c_alloc`].
//! - [`c_free`] returns nothing; freeing the null slice is a no-op.
//! - [`c_init`] and [`c_verify`] return `0` on success, or a positive code
//!   otherwise:
//!   - init: `1` = misaligned heap, `2` = heap too small.
//!   - verify: `1` = bad or absent marker, `2` = configuration mismatch.
//!
//! The allocator is stateless (its state lives in the heap), so the handle is
//! constructed on each call for free.

use crate::allocator::{CadAlloc, InitError, VerifyError};
use crate::atomic::Atomics;
use crate::config::{region_base, region_end, region_size, stable_region, valid_config, Config};
use crate::effects::{allocs, freeable, frees, reallocs};
use crate::fingerprint::{fingerprint, MAGIC};
use crate::memory::{
    block_at, covers_region, fingerprint_at, in_use, initialized, magic_at, prepared, state_of,
};
use crate::slice::Slice;
use crate::state::{control_size, fresh_state};
use vstd::prelude::*;

verus! {

impl InitError {
    /// The status code of the error.
    pub fn code(self) -> (r: i32)
        ensures
            r == (match self {
                InitError::MisalignedHeap => 1i32,
                InitError::HeapTooSmall => 2i32,
            }),
    {
        match self {
            InitError::MisalignedHeap => 1,
            InitError::HeapTooSmall => 2,
        }
    }
}

impl VerifyError {
    /// The status code of the error.
    pub fn code(self) -> (r: i32)
        ensures
            r == (match self {
                VerifyError::BadMagic => 1i32,
                VerifyError::ConfigMismatch => 2i32,
            }),
    {
        match self {
            VerifyError::BadMagic => 1,
            VerifyError::ConfigMismatch => 2,
        }
    }
}

/// Prepares the heap. Returns `0` on success, or the code of the [`InitError`]
/// (`1` misaligned, `2` too small).
pub fn c_init<C: Config>(mem: &mut C::Atomics) -> (r: i32)
    requires
        valid_config::<C>(),
        stable_region::<C>(),
        region_base::<C>() % C::MIN_ALIGN as int == 0 && region_size::<C>() >= control_size::<C>()
            ==> region_end::<C>() <= u64::MAX && covers_region::<C>(old(mem).words()),
    ensures
        r == (if region_base::<C>() % C::MIN_ALIGN as int != 0 {
            1i32
        } else if region_size::<C>() < control_size::<C>() {
            2i32
        } else {
            0i32
        }),
        r != 0 ==> final(mem).words() == old(mem).words(),
        r == 0 ==> {
            let w = old(mem).words();
            let w2 = final(mem).words();
            &&& prepared::<C>(w2)
            &&& state_of::<C>(w2) == fresh_state::<C>()
            &&& initialized::<C>(w, w2)
        },
{
    match CadAlloc::<C>::new().init(mem) {
        Ok(()) => 0,
        Err(e) => e.code(),
    }
}

/// Allocates `size` bytes (`MIN_ALIGN`-aligned). Returns the payload slice, or the
/// null slice (zero `ptr`) on failure.
pub fn c_alloc<C: Config>(mem: &mut C::Atomics, size: u64) -> (r: Slice)
    requires
        valid_config::<C>(),
        prepared::<C>(old(mem).words()),
    ensures
        allocs::<C>(old(mem).words(), final(mem).words(), size as int, r),
{
    CadAlloc::<C>::new().allocate(mem, size)
}

/// Resizes `block` to `new_size` bytes. Returns the (possibly moved) payload slice,
/// or the null slice on failure (the block is left valid). A null `block`
/// acts like [`c_alloc`].
pub fn c_realloc<C: Config>(mem: &mut C::Atomics, block: Slice, new_size: u64) -> (r: Slice)
    requires
        valid_config::<C>(),
        prepared::<C>(old(mem).words()),
        block.ptr != 0 ==> block.ptr >= C::MIN_ALIGN && in_use::<C>(
            old(mem).words(),
            block_at::<C>(old(mem).words(), block.ptr as int),
        ),
    ensures
        reallocs::<C>(
            old(mem).words(),
            final(mem).words(),
            block.ptr as int,
            new_size as int,
            r,
        ),
{
    CadAlloc::<C>::new().realloc(mem, block, new_size)
}

/// Returns a block previously handed out by [`c_alloc`]. Freeing the null slice is
/// a no-op.
pub fn c_free<C: Config>(mem: &mut C::Atomics, block: Slice)
    requires
        valid_config::<C>(),
        block.ptr != 0 ==> prepared::<C>(old(mem).words()),
        freeable::<C>(old(mem).words(), block.ptr as int),
    ensures
        frees::<C>(old(mem).words(), final(mem).words(), block.ptr as int),
{
    CadAlloc::<C>::new().free(mem, block)
}

/// Checks the heap marker and configuration fingerprint. Returns `0` on success, or
/// the code of the [`VerifyError`] (`1` bad marker, `2` configuration mismatch).
pub fn c_verify<C: Config>(mem: &C::Atomics) -> (r: i32)
    requires
        valid_config::<C>(),
        stable_region::<C>(),
        fingerprint_at::<C>() <= u64::MAX,
        mem.words().contains_key(magic_at::<C>()),
        mem.words().contains_key(fingerprint_at::<C>()),
    ensures
        r == (if mem.words()[magic_at::<C>()] != MAGIC {
            1i32
        } else if mem.words()[fingerprint_at::<C>()] != fingerprint::<C>() {
            2i32
        } else {
            0i32
        }),
{
    match CadAlloc::<C>::new().verify(mem) {
        Ok(()) => 0,
        Err(e) => e.code(),
    }
}

} // verus!
