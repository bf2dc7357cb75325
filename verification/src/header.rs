//! Block headers: one word packing a block's total size and its flags.
//!
//! Block sizes are always multiples of `MIN_ALIGN` (`> 8`, so `>= 16`), hence the
//! low 4 bits of a header word are always zero and carry the block's flags: no
//! shifting, and `size` keeps its full magnitude.

use vstd::prelude::*;

verus! {

/// The bits of a header word that carry flags.
pub const FLAG_MASK: u64 = 0xF;

/// Free flag (bit 0 of a block header). Bits 1..4 are reserved.
pub const FREE: u64 = 1;

/// "In use" flag (bit 0 clear).
pub const USED: u64 = 0;

/// The header word of a block of `size` bytes.
pub open spec fn header_word(size: int, free: bool) -> u64 {
    (size + if free {
        FREE as int
    } else {
        USED as int
    }) as u64
}

/// Packs a total block `size` (a multiple of `MIN_ALIGN`) and a `flag` into a
/// header word.
pub fn pack(size: u64, flag: u64) -> (r: u64)
    ensures
        r == size | (flag & FLAG_MASK),
        size % 16 == 0 ==> r == size + flag % 16,
{
    assert(size % 16 == 0 ==> (size | (flag & 0xF)) == size + flag % 16) by (bit_vector);
    size | (flag & FLAG_MASK)
}

/// Extracts the total block size from a header word.
pub fn header_size(header: u64) -> (r: u64)
    ensures
        r == header - header % 16,
{
    assert(header & !0xFu64 == header - header % 16) by (bit_vector);
    header & !FLAG_MASK
}

/// Returns `true` if the header's block is marked free.
pub fn header_is_free(header: u64) -> (r: bool)
    ensures
        r == (header % 16 == FREE),
{
    assert(header & 0xFu64 == header % 16) by (bit_vector);
    (header & FLAG_MASK) == FREE
}

} // verus!
