//! What a heap holds, and what each operation does to it.
//!
//! A [`HeapState`] is the mathematical content of a prepared heap: the free
//! blocks of every bin, in list order, and the bump address above which nothing
//! has been carved yet. The functions here say what an operation makes of it; the
//! [`memory`](crate::memory) module says how it is laid out in words.

use crate::bits::{lemma_mod_add_sub, lemma_multiples_close, lemma_round_up, round_up};
use crate::classes::{
    bin_of, block_exact, boundary, carvable, class_align, class_size, last_bin_to, lemma_bin_of,
    lemma_bin_of_unique, lemma_boundary_order, lemma_class, lemma_octave, need_of, odd_bin,
    oversized, request_size,
};
use crate::config::{
    bin_total, lemma_bin_counts, lemma_config_logs, region_base, region_end, region_size,
    stable_region, valid_config, Config,
};
use vstd::arithmetic::div_mod::lemma_mod_multiples_basic;
use vstd::prelude::*;

verus! {

// --- geometry ---------------------------------------------------------------

/// Bytes of metadata (marker and configuration fingerprint) preceding the bin
/// heads.
pub const META_BYTES: u64 = 16;

/// Bytes reserved for the control region at the base of the heap: the metadata,
/// one word for each bin head, the bump pointer and the lock.
pub open spec fn control_size<C: Config>() -> int {
    round_up(META_BYTES + (bin_total::<C>() + 2) * 8, C::MIN_ALIGN as int)
}

/// The address at which the payload area starts.
pub open spec fn payload_start<C: Config>() -> int {
    region_base::<C>() + control_size::<C>()
}

/// The managed region can hold a heap: it is aligned, has room for the control
/// region, and its end is an address.
pub open spec fn valid_region<C: Config>() -> bool {
    &&& stable_region::<C>()
    &&& region_base::<C>() % C::MIN_ALIGN as int == 0
    &&& control_size::<C>() <= region_size::<C>()
    &&& region_end::<C>() <= u64::MAX
}

// --- blocks -----------------------------------------------------------------

/// A block: the address of its header and its total size, header included.
pub struct Block {
    /// Address of the header.
    pub addr: int,
    /// Total size in bytes.
    pub size: int,
}

impl Block {
    /// One past the last address of the block.
    pub open spec fn end(self) -> int {
        self.addr + self.size
    }
}

/// The blocks have no address in common.
pub open spec fn apart(a: Block, b: Block) -> bool {
    a.end() <= b.addr || b.end() <= a.addr
}

/// The block has a size that can stand alone, at an address that its class
/// allows.
pub open spec fn placed<C: Config>(b: Block) -> bool {
    &&& b.size > 0
    &&& block_exact::<C>(b.size)
    &&& b.size % C::MIN_ALIGN as int == 0
    &&& b.addr % class_align::<C>(bin_of::<C>(b.size)) == 0
}

// --- heap states ------------------------------------------------------------

/// The free blocks of each bin, first to last, and the bump address.
#[verifier::ext_equal]
pub struct HeapState {
    /// The free blocks, by bin.
    pub bins: Seq<Seq<Block>>,
    /// The address from which nothing has been carved yet.
    pub bump: int,
}

impl HeapState {
    /// Whether there is a free block at position `i` of bin `k`.
    pub open spec fn has(self, k: int, i: int) -> bool {
        0 <= k < self.bins.len() && 0 <= i < self.bins[k].len()
    }

    /// The state with `b` in front of its bin.
    pub open spec fn push<C: Config>(self, b: Block) -> HeapState {
        let k = bin_of::<C>(b.size);
        HeapState { bins: self.bins.update(k, seq![b] + self.bins[k]), bump: self.bump }
    }

    /// The state without the block at position `i` of bin `k`.
    pub open spec fn remove(self, k: int, i: int) -> HeapState {
        HeapState { bins: self.bins.update(k, self.bins[k].remove(i)), bump: self.bump }
    }

    /// The state with another bump address.
    pub open spec fn with_bump(self, bump: int) -> HeapState {
        HeapState { bins: self.bins, bump }
    }

    /// No free block has an address in `[lo, hi)`.
    pub open spec fn clear(self, lo: int, hi: int) -> bool {
        forall|k: int, i: int|
            self.has(k, i) ==> (#[trigger] self.bins[k][i]).end() <= lo || hi <= self.bins[k][i].addr
    }

    /// The block lies in the carved part of the payload area and overlaps no free
    /// block: what is true of every block handed out.
    pub open spec fn holds<C: Config>(self, b: Block) -> bool {
        &&& placed::<C>(b)
        &&& payload_start::<C>() <= b.addr
        &&& b.end() <= self.bump
        &&& self.clear(b.addr, b.end())
    }

    /// Every free block is in its bin and in the carved part of the payload
    /// area.
    pub open spec fn blocks_ok<C: Config>(self) -> bool {
        forall|k: int, i: int|
            self.has(k, i) ==> {
                let b = #[trigger] self.bins[k][i];
                &&& placed::<C>(b)
                &&& bin_of::<C>(b.size) == k
                &&& payload_start::<C>() <= b.addr
                &&& b.end() <= self.bump
            }
    }

    /// No two free blocks overlap.
    pub open spec fn disjoint(self) -> bool {
        forall|k: int, i: int, l: int, j: int|
            self.has(k, i) && self.has(l, j) && !(k == l && i == j) ==> apart(
                #[trigger] self.bins[k][i],
                #[trigger] self.bins[l][j],
            )
    }

    /// The invariant of heap states.
    pub open spec fn wf<C: Config>(self) -> bool {
        &&& self.bins.len() == bin_total::<C>()
        &&& payload_start::<C>() <= self.bump <= region_end::<C>()
        &&& self.bump % C::MIN_ALIGN as int == 0
        &&& self.blocks_ok::<C>()
        &&& self.disjoint()
    }
}

/// The state of a heap from which nothing has been carved.
pub open spec fn fresh_state<C: Config>() -> HeapState {
    HeapState {
        bins: Seq::new(bin_total::<C>() as nat, |k: int| Seq::<Block>::empty()),
        bump: payload_start::<C>(),
    }
}

// --- carving ----------------------------------------------------------------

/// The state after carving `[lo, end)` into free blocks, from the top down, each
/// the largest that fits.
pub open spec fn carve_down<C: Config>(st: HeapState, lo: int, end: int) -> HeapState
    decreases end - lo,
{
    let size = carvable::<C>(end, end - lo).0;
    if end - lo < C::MIN_ALIGN || size <= 0 || size > end - lo {
        st
    } else {
        carve_down::<C>(st.push::<C>(Block { addr: end - size, size }), lo, end - size)
    }
}

/// The state after carving the excess of the block at `addr`, which ends at
/// `end`, beyond its first `need` bytes, and where the block ends then.
///
/// Free blocks are carved from the top down, each the largest that fits; after
/// `CARVE_MAX` of them carving stops as soon as what is left can stand alone.
pub open spec fn carve_tail<C: Config>(
    st: HeapState,
    addr: int,
    need: int,
    end: int,
    count: int,
) -> (HeapState, int)
    decreases end - addr - need,
{
    let excess = end - addr - need;
    let size = carvable::<C>(end, excess).0;
    if excess < C::MIN_ALIGN || (count >= C::CARVE_MAX && block_exact::<C>(end - addr)) || size <= 0
        || size > excess {
        (st, end)
    } else {
        carve_tail::<C>(
            st.push::<C>(Block { addr: end - size, size }),
            addr,
            need,
            end - size,
            count + 1,
        )
    }
}

/// The largest size up to `size` that can stand alone.
pub open spec fn exact_floor<C: Config>(size: int) -> int {
    if block_exact::<C>(size) {
        size
    } else {
        class_size::<C>(last_bin_to::<C>(0, size, oversized::<C>() - 1))
    }
}

/// The state after cutting a used block down to `need` bytes, and the size that
/// the block keeps: all of it if the excess is below `SPLIT_MIN`, else what
/// carving leaves of it.
pub open spec fn split<C: Config>(st: HeapState, b: Block, need: int) -> (HeapState, int) {
    if b.size - need < C::SPLIT_MIN {
        (st, b.size)
    } else {
        let (st2, end) = carve_tail::<C>(st, b.addr, need, b.end(), 0);
        (st2, exact_floor::<C>(end - b.addr))
    }
}

// --- operations -------------------------------------------------------------

/// A fresh block of `size` bytes from the bump region, at an address that is a
/// multiple of `align`; the gap below it is carved into free blocks. `None`, and
/// no change, if the region has no room.
pub open spec fn bump_block<C: Config>(st: HeapState, align: int, size: int) -> (
    HeapState,
    Option<Block>,
) {
    let addr = round_up(st.bump, align);
    if addr + size <= region_end::<C>() {
        (
            carve_down::<C>(st.with_bump(addr + size), st.bump, addr),
            Some(Block { addr, size }),
        )
    } else {
        (st, None)
    }
}

/// Taking a block of the fixed bin `k`: the first of the bin, else a fresh one.
pub open spec fn take_fixed<C: Config>(st: HeapState, k: int) -> (HeapState, Option<Block>) {
    if st.bins[k].len() > 0 {
        (st.remove(k, 0), Some(st.bins[k][0]))
    } else {
        bump_block::<C>(st, class_align::<C>(k), class_size::<C>(k))
    }
}

/// The first position from `i` on of a block with at least `need` bytes, or the
/// length of the list.
pub open spec fn first_fit(list: Seq<Block>, need: int, i: int) -> int
    decreases list.len() - i,
{
    if i >= list.len() || list[i].size >= need {
        i
    } else {
        first_fit(list, need, i + 1)
    }
}

/// Taking an oversized block of at least `need` bytes: the first of the
/// oversized bin that is large enough, cut down to size, else a fresh one.
pub open spec fn take_oversized<C: Config>(st: HeapState, need: int) -> (
    HeapState,
    Option<Block>,
) {
    let k = oversized::<C>();
    let i = first_fit(st.bins[k], need, 0);
    if i < st.bins[k].len() {
        let b = st.bins[k][i];
        let (st2, size) = split::<C>(st.remove(k, i), b, need);
        (st2, Some(Block { addr: b.addr, size }))
    } else {
        bump_block::<C>(st, C::EXP_CEIL as int, need)
    }
}

/// Allocating at least `size` payload bytes: the state after, and the block
/// handed out, if any.
#[verifier::opaque]
pub open spec fn allocated<C: Config>(st: HeapState, size: int) -> (HeapState, Option<Block>) {
    let need = need_of::<C>(size);
    if need > u64::MAX {
        (st, None)
    } else if need > C::EXP_CEIL {
        take_oversized::<C>(st, need)
    } else {
        take_fixed::<C>(st, bin_of::<C>(need))
    }
}

/// Resizing a block in use to hold at least `size` payload bytes: the state after,
/// and the block that holds them then, if any.
///
/// A block that is large enough is cut down to size where it stands; else another
/// is allocated and the block is freed. Without a block nothing changes.
pub open spec fn reallocated<C: Config>(st: HeapState, b: Block, size: int) -> (
    HeapState,
    Option<Block>,
) {
    let total = request_size::<C>(size);
    if need_of::<C>(size) > u64::MAX {
        (st, None)
    } else if b.size >= total {
        let (st2, kept) = split::<C>(st, b, total);
        (st2, Some(Block { addr: b.addr, size: kept }))
    } else {
        match allocated::<C>(st, size) {
            (st1, Some(d)) => (st1.push::<C>(b), Some(d)),
            (_, None) => (st, None),
        }
    }
}

// --- invariants -------------------------------------------------------------

/// What holds of the geometry.
pub proof fn lemma_geometry<C: Config>()
    requires
        valid_config::<C>(),
    ensures
        control_size::<C>() % C::MIN_ALIGN as int == 0,
        META_BYTES + (bin_total::<C>() + 2) * 8 <= control_size::<C>() <= u64::MAX,
        META_BYTES + (bin_total::<C>() + 2) * 8 + C::MIN_ALIGN - 1 <= u64::MAX,
        valid_region::<C>() ==> payload_start::<C>() % C::MIN_ALIGN as int == 0,
{
    lemma_bin_counts::<C>();
    lemma_config_logs::<C>();
    lemma_round_up(META_BYTES + (bin_total::<C>() + 2) * 8, C::MIN_ALIGN as int);
    if valid_region::<C>() {
        lemma_mod_add_sub(region_base::<C>(), control_size::<C>(), C::MIN_ALIGN as int);
    }
}

/// Each size goes to the bin of its own class: the class of a bin maps back to
/// that bin, or, for the odd bin, to the next one, which has the same class.
pub proof fn lemma_bin_of_class<C: Config>(bin: int)
    requires
        valid_config::<C>(),
        0 <= bin < oversized::<C>(),
    ensures
        !odd_bin::<C>(bin) ==> bin_of::<C>(class_size::<C>(bin)) == bin,
        class_size::<C>(bin_of::<C>(class_size::<C>(bin))) == class_size::<C>(bin),
        bin_of::<C>(class_size::<C>(bin)) < oversized::<C>(),
{
    lemma_class::<C>(bin);
    if odd_bin::<C>(bin) {
        lemma_class::<C>(bin + 1);
        lemma_boundary_order::<C>(bin, bin + 1);
        lemma_bin_of_unique::<C>(class_size::<C>(bin), bin + 1);
    } else {
        if bin > 0 {
            lemma_boundary_order::<C>(bin - 1, bin);
        }
        lemma_bin_of_unique::<C>(class_size::<C>(bin), bin);
    }
}

/// No multiple of `MIN_ALIGN` lies between the boundaries around the odd bin.
proof fn lemma_odd_gap<C: Config>(k: int, size: int)
    requires
        valid_config::<C>(),
        odd_bin::<C>(k),
        k < oversized::<C>(),
        size % C::MIN_ALIGN as int == 0,
    ensures
        !(boundary::<C>(k - 1) < size <= boundary::<C>(k)),
{
    lemma_bin_counts::<C>();
    lemma_config_logs::<C>();
    lemma_class::<C>(k);
    lemma_octave::<C>(k);
    lemma_octave::<C>(k - 1);
    let m = C::MIN_ALIGN as int;
    assert(boundary::<C>(k - 1) == m);
    assert(boundary::<C>(k) == m + m / 2);
    lemma_mod_multiples_basic(1, m);
    if m < size <= m + m / 2 {
        lemma_multiples_close(size, m, m);
    }
}

/// The bin of a multiple of `MIN_ALIGN` is never the odd one.
pub proof fn lemma_bin_of_multiple<C: Config>(size: int)
    requires
        valid_config::<C>(),
        size % C::MIN_ALIGN as int == 0,
        0 < size <= C::EXP_CEIL,
    ensures
        !odd_bin::<C>(bin_of::<C>(size)),
        bin_of::<C>(class_size::<C>(bin_of::<C>(size))) == bin_of::<C>(size),
{
    lemma_bin_of::<C>(size);
    lemma_bin_counts::<C>();
    let k = bin_of::<C>(size);
    if odd_bin::<C>(k) {
        lemma_odd_gap::<C>(k, size);
    }
    lemma_bin_of_class::<C>(k);
}

} // verus!
