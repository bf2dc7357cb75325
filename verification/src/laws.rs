//! What holds of the allocator as a whole.
//!
//! Each law relates several operations, or speaks of every state. What a single
//! operation promises is in its own contract; the laws here are stated over the
//! same models.

use crate::classes::{
    bin_of, block_exact, carvable, class_align, class_size, last_bin_to, lemma_bin_of,
    lemma_boundary_order, lemma_class, lemma_class_order, lemma_last_bin_to, need_of, odd_bin,
    oversized, request_size,
};
use crate::config::{lemma_bin_counts, lemma_config_logs, region_base, valid_config, Config};
use crate::effects::{allocs, freeable, frees, lemma_found, reallocs};
use crate::fingerprint::{fingerprint, lemma_fingerprint_faithful, same_layout, MAGIC};
use crate::header::{header_word, FREE};
use crate::invariants::{lemma_allocated, lemma_need, lemma_placed, lemma_push, lemma_split};
use crate::memory::{
    block_at, fingerprint_at, front, in_use, keeps_block, lemma_block_words, lemma_state_unique,
    list_start, magic_at, prepared, represents, state_of,
};
use crate::slice::Slice;
use crate::state::{
    allocated, apart, first_fit, lemma_bin_of_class, payload_start, placed, reallocated, split,
    valid_region, Block, HeapState,
};
use crate::words::{stack_popped, words_allocated};
use vstd::prelude::*;

verus! {

// --- size classes -----------------------------------------------------------

/// The classes are multiples of `MIN_ALIGN` and strictly increase from bin to bin,
/// with one exception: where the first octave is `MIN_ALIGN` itself, its upper half
/// is rounded up to the next octave, so that two neighbouring bins share a class.
pub proof fn law_classes_increase<C: Config>(a: int, b: int)
    requires
        valid_config::<C>(),
        0 <= a < b < oversized::<C>(),
        !odd_bin::<C>(a),
    ensures
        class_size::<C>(a) < class_size::<C>(b),
        class_size::<C>(a) % C::MIN_ALIGN as int == 0,
        class_size::<C>(b) % C::MIN_ALIGN as int == 0,
{
    lemma_boundary_order::<C>(a, b);
    lemma_class::<C>(a);
    lemma_class::<C>(b);
}

/// A class maps back to its own bin, but for that one exception.
pub proof fn law_classes_round_trip<C: Config>(bin: int)
    requires
        valid_config::<C>(),
        0 <= bin < oversized::<C>(),
        !odd_bin::<C>(bin),
    ensures
        bin_of::<C>(class_size::<C>(bin)) == bin,
{
    lemma_bin_of_class::<C>(bin);
}

/// The bin of a size is the first whose class holds it; only sizes above
/// `EXP_CEIL` are oversized.
pub proof fn law_bin_fits<C: Config>(size: int, bin: int)
    requires
        valid_config::<C>(),
        0 <= bin < oversized::<C>(),
        !odd_bin::<C>(bin),
    ensures
        bin_of::<C>(size) == oversized::<C>() <==> size > C::EXP_CEIL,
        size <= C::EXP_CEIL ==> size <= class_size::<C>(bin_of::<C>(size)),
        bin < bin_of::<C>(size) ==> class_size::<C>(bin) < size,
{
    lemma_bin_of::<C>(size);
    lemma_class::<C>(bin);
    let k = bin_of::<C>(size);
    if bin < k - 1 {
        lemma_boundary_order::<C>(bin, k - 1);
    }
}

/// What is carved off the end of a region is as large as can be: no fixed class
/// that fits in the region, and whose alignment its end meets, is larger.
pub proof fn law_carves_the_largest<C: Config>(end: int, len: int, bin: int)
    requires
        valid_config::<C>(),
        0 <= len <= end,
        0 <= bin < oversized::<C>(),
        class_size::<C>(bin) <= len,
        end % class_align::<C>(bin) == 0,
    ensures
        class_size::<C>(bin) <= carvable::<C>(end, len).0,
{
    lemma_class::<C>(bin);
    let cap = if len > C::EXP_CEIL { C::EXP_CEIL as int } else { len };
    let top = oversized::<C>() - 1;
    lemma_last_bin_to::<C>(end, cap, top);
    let r = last_bin_to::<C>(end, cap, top);
    if bin <= r {
        lemma_class_order::<C>(bin, r);
    }
}

// --- headers ----------------------------------------------------------------

/// A header holds the size and the flag apart: what was packed is read back.
pub proof fn law_header_round_trip(size: int, free: bool)
    requires
        0 <= size <= u64::MAX,
        size % 16 == 0,
    ensures
        header_word(size, free) - header_word(size, free) % 16 == size,
        (header_word(size, free) % 16 == FREE) == free,
{
}

// --- the stamp --------------------------------------------------------------

/// A prepared heap verifies, and goes on doing so whatever is allocated, freed or
/// resized in it: being prepared implies the stamp.
pub proof fn law_prepared_verifies<C: Config>(w: Map<int, u64>)
    requires
        valid_config::<C>(),
        prepared::<C>(w),
    ensures
        w[magic_at::<C>()] == MAGIC,
        w[fingerprint_at::<C>()] == fingerprint::<C>(),
{
    let st = choose|st: HeapState| represents::<C>(w, st);
    assert(represents::<C>(w, st));
}

/// A heap that was prepared with one layout carries the marker, but not the
/// fingerprint, of any other one over the same region: a configuration with other
/// layout constants refuses it. Left out are values of `CARVE_MAX` that are
/// `2971215073` or more apart, among which fingerprints can coincide.
pub proof fn law_other_layouts_are_refused<C: Config, D: Config>(w: Map<int, u64>)
    requires
        valid_config::<C>(),
        valid_config::<D>(),
        prepared::<C>(w),
        region_base::<C>() == region_base::<D>(),
        !same_layout::<C, D>(),
        -2971215073 < C::CARVE_MAX - D::CARVE_MAX < 2971215073,
    ensures
        w[magic_at::<D>()] == MAGIC,
        w[fingerprint_at::<D>()] != fingerprint::<D>(),
{
    law_prepared_verifies::<C>(w);
    lemma_fingerprint_faithful::<C, D>();
}

// --- blocks -----------------------------------------------------------------

/// Every block in use starts at a multiple of its class alignment (`EXP_CEIL` for
/// an oversized one), has a size that is exactly its class or above `EXP_CEIL`, and
/// lies in the payload area.
pub proof fn law_blocks_are_placed<C: Config>(w: Map<int, u64>, b: Block)
    requires
        valid_config::<C>(),
        prepared::<C>(w),
        in_use::<C>(w, b),
    ensures
        b.size > C::EXP_CEIL ==> b.addr % C::EXP_CEIL as int == 0,
        b.size <= C::EXP_CEIL ==> b.addr % class_align::<C>(bin_of::<C>(b.size)) == 0,
        b.size <= C::EXP_CEIL ==> class_size::<C>(bin_of::<C>(b.size)) == b.size,
        b.addr % C::MIN_ALIGN as int == 0,
        payload_start::<C>() <= b.addr,
        b.end() <= crate::config::region_end::<C>(),
{
    let st = state_of::<C>(w);
    assert(represents::<C>(w, st));
    lemma_placed::<C>(b);
    lemma_bin_of::<C>(b.size);
    lemma_bin_counts::<C>();
}

/// The blocks of the set are all in use, and no two of them overlap.
pub open spec fn live<C: Config>(w: Map<int, u64>, blocks: Set<Block>) -> bool {
    &&& forall|b: Block| #[trigger] blocks.contains(b) ==> in_use::<C>(w, b)
    &&& forall|b: Block, c: Block| #[trigger]
        blocks.contains(b) && #[trigger] blocks.contains(c) && b != c ==> apart(b, c)
}

/// Allocation adds its block to the live ones: it overlaps none of them, and each
/// keeps its contents. If there is no block, they stay as they are.
pub proof fn law_allocation_keeps_blocks_apart<C: Config>(
    w: Map<int, u64>,
    w2: Map<int, u64>,
    size: int,
    r: Slice,
    blocks: Set<Block>,
)
    requires
        valid_config::<C>(),
        prepared::<C>(w),
        allocs::<C>(w, w2, size, r),
        live::<C>(w, blocks),
    ensures
        forall|c: Block| #[trigger] blocks.contains(c) ==> keeps_block::<C>(w, w2, c),
        r.ptr == 0 ==> live::<C>(w2, blocks),
        r.ptr != 0 ==> {
            let b = Block { addr: r.ptr - C::MIN_ALIGN, size: r.len + C::MIN_ALIGN };
            !blocks.contains(b) && live::<C>(w2, blocks.insert(b))
        },
{
    let taken = allocated::<C>(state_of::<C>(w), size).1;
    assert forall|c: Block| #[trigger] blocks.contains(c) implies keeps_block::<C>(w, w2, c) by {
        assert(in_use::<C>(w, c));
    }
    if taken is Some {
        let b = taken->Some_0;
        lemma_placed::<C>(b);
        assert(b == Block { addr: r.ptr - C::MIN_ALIGN, size: r.len + C::MIN_ALIGN });
        assert forall|c: Block| #[trigger] blocks.contains(c) implies apart(b, c) by {
            assert(in_use::<C>(w, c));
        }
    }
}

/// Freeing a live block takes it out of the set; the others keep their contents.
pub proof fn law_freeing_keeps_blocks_apart<C: Config>(
    w: Map<int, u64>,
    w2: Map<int, u64>,
    b: Block,
    blocks: Set<Block>,
)
    requires
        valid_config::<C>(),
        prepared::<C>(w),
        live::<C>(w, blocks),
        blocks.contains(b),
        frees::<C>(w, w2, b.addr + C::MIN_ALIGN),
    ensures
        live::<C>(w2, blocks.remove(b)),
        forall|c: Block| #[trigger]
            blocks.remove(b).contains(c) ==> keeps_block::<C>(w, w2, c),
{
    law_block_found::<C>(w, b);
    assert forall|c: Block| #[trigger] blocks.remove(b).contains(c) implies keeps_block::<C>(
        w,
        w2,
        c,
    ) by {
        assert(blocks.contains(c) && c != b);
        assert(apart(b, c));
        assert(in_use::<C>(w, c) && apart(b, c));
    }
}

/// Resizing a live block puts the resized one in its place; the others keep their
/// contents.
pub proof fn law_resizing_keeps_blocks_apart<C: Config>(
    w: Map<int, u64>,
    w2: Map<int, u64>,
    b: Block,
    size: int,
    r: Slice,
    blocks: Set<Block>,
)
    requires
        valid_config::<C>(),
        prepared::<C>(w),
        live::<C>(w, blocks),
        blocks.contains(b),
        reallocs::<C>(w, w2, b.addr + C::MIN_ALIGN, size, r),
    ensures
        forall|c: Block| #[trigger]
            blocks.remove(b).contains(c) ==> keeps_block::<C>(w, w2, c),
        r.ptr == 0 ==> live::<C>(w2, blocks),
        r.ptr != 0 ==> live::<C>(
            w2,
            blocks.remove(b).insert(
                Block { addr: r.ptr - C::MIN_ALIGN, size: r.len + C::MIN_ALIGN },
            ),
        ),
{
    law_block_found::<C>(w, b);
    let taken = reallocated::<C>(state_of::<C>(w), b, size).1;
    assert forall|c: Block| #[trigger] blocks.remove(b).contains(c) implies keeps_block::<C>(
        w,
        w2,
        c,
    ) && (taken matches Some(d) ==> apart(d, c)) by {
        assert(blocks.contains(c) && c != b);
        assert(apart(b, c));
        assert(in_use::<C>(w, c) && apart(b, c));
    }
    if taken is Some {
        let d = taken->Some_0;
        lemma_placed::<C>(d);
        assert(d == Block { addr: r.ptr - C::MIN_ALIGN, size: r.len + C::MIN_ALIGN });
    }
}

/// The header of a block in use leads back to the block, which may be freed.
pub proof fn law_block_found<C: Config>(w: Map<int, u64>, b: Block)
    requires
        valid_config::<C>(),
        prepared::<C>(w),
        in_use::<C>(w, b),
    ensures
        block_at::<C>(w, b.addr + C::MIN_ALIGN) == b,
        w[b.addr] % 16 != FREE,
        b.addr > 0,
        freeable::<C>(w, b.addr + C::MIN_ALIGN),
{
    lemma_found::<C>(w, b);
}

/// A request for a class whose bin has a free block changes two words: the head of
/// the bin takes the next block's address, with the tag advanced, and the block's
/// header is marked used.
pub proof fn law_reuse_pops_the_bin<C: Config>(
    w: Map<int, u64>,
    w2: Map<int, u64>,
    size: int,
    r: Slice,
)
    requires
        valid_config::<C>(),
        prepared::<C>(w),
        size >= 0,
        need_of::<C>(size) <= C::EXP_CEIL,
        list_start::<C>(w, bin_of::<C>(need_of::<C>(size))) != 0,
        allocs::<C>(w, w2, size, r),
    ensures
        ({
            let k = bin_of::<C>(need_of::<C>(size));
            let first = list_start::<C>(w, k);
            &&& r.ptr == first + C::MIN_ALIGN
            &&& w2 == stack_popped::<C>(w, k).insert(
                first,
                header_word(class_size::<C>(k), false),
            )
        }),
{
    let st = state_of::<C>(w);
    let k = bin_of::<C>(need_of::<C>(size));
    lemma_need::<C>(size);
    lemma_bin_counts::<C>();
    reveal(words_allocated);
    reveal(allocated);
    assert(list_start::<C>(w, k) == front(st.bins[k]));
}

/// Freeing is determined by the address alone: the length of the slice is ignored,
/// and the words are the same whatever it is.
pub proof fn law_free_ignores_length<C: Config>(
    w: Map<int, u64>,
    w2: Map<int, u64>,
    w3: Map<int, u64>,
    s: Slice,
    t: Slice,
)
    requires
        s.ptr == t.ptr,
        frees::<C>(w, w2, s.ptr as int),
        frees::<C>(w, w3, t.ptr as int),
    ensures
        w2 == w3,
{
}

/// Resizing the null slice is allocating: from the same heap both return the same
/// slice and leave the same words.
pub proof fn law_realloc_of_null_allocates<C: Config>(
    w: Map<int, u64>,
    w2: Map<int, u64>,
    w3: Map<int, u64>,
    size: int,
    r: Slice,
    q: Slice,
)
    requires
        reallocs::<C>(w, w2, 0, size, r),
        allocs::<C>(w, w3, size, q),
    ensures
        r == q,
        w2 == w3,
{
}

/// Freeing a block a second time is refused: it changes nothing.
pub proof fn law_double_free_is_refused<C: Config>(
    w: Map<int, u64>,
    w2: Map<int, u64>,
    w3: Map<int, u64>,
    b: Block,
)
    requires
        valid_config::<C>(),
        prepared::<C>(w),
        in_use::<C>(w, b),
        frees::<C>(w, w2, b.addr + C::MIN_ALIGN),
        frees::<C>(w2, w3, b.addr + C::MIN_ALIGN),
    ensures
        freeable::<C>(w2, b.addr + C::MIN_ALIGN),
        w3 == w2,
{
    law_block_found::<C>(w, b);
    let st = state_of::<C>(w);
    assert(represents::<C>(w, st));
    lemma_block_words::<C>(w, st, b);
    assert(w2.dom() == w.dom());
}

// --- reuse ------------------------------------------------------------------

/// A freed block is the next one handed out for a request of its class, and the
/// heap is then in the state it was in before: freeing and allocating undo each
/// other. This holds of fixed classes, and of an oversized block whose excess over
/// the request is below `SPLIT_MIN`.
pub proof fn law_freed_block_is_reused<C: Config>(st: HeapState, b: Block, size: int)
    requires
        valid_config::<C>(),
        st.wf::<C>(),
        st.holds::<C>(b),
        0 <= size,
        need_of::<C>(size) <= u64::MAX,
        request_size::<C>(size) == b.size || (need_of::<C>(size) > C::EXP_CEIL && 0 <= b.size
            - need_of::<C>(size) < C::SPLIT_MIN),
    ensures
        allocated::<C>(st.push::<C>(b), size) == (st, Some(b)),
{
    reveal(allocated);
    let need = need_of::<C>(size);
    let k = bin_of::<C>(b.size);
    let st1 = st.push::<C>(b);
    lemma_need::<C>(size);
    lemma_placed::<C>(b);
    lemma_push::<C>(st, b);
    lemma_bin_of::<C>(b.size);
    lemma_bin_of::<C>(need);
    assert(st1.bins[k] =~= seq![b] + st.bins[k]);
    assert(st1.bins[k].remove(0) =~= st.bins[k]);
    assert(st1.remove(k, 0).bins =~= st.bins);
    assert(st1.remove(k, 0) == st);
    if need > C::EXP_CEIL {
        lemma_config_logs::<C>();
        crate::bits::lemma_is_pow2(C::SPLIT_MIN as int);
        assert(k == oversized::<C>());
        assert(first_fit(st1.bins[k], need, 0) == 0);
    }
}

/// An oversized block that was freed last serves the next oversized request that
/// it is large enough for, at the same address.
pub proof fn law_freed_oversized_block_serves<C: Config>(st: HeapState, b: Block, size: int)
    requires
        valid_config::<C>(),
        st.wf::<C>(),
        st.holds::<C>(b),
        0 <= size,
        C::EXP_CEIL < need_of::<C>(size) <= b.size,
        need_of::<C>(size) <= u64::MAX,
    ensures
        allocated::<C>(st.push::<C>(b), size) == ({
            let (st2, kept) = split::<C>(st, b, need_of::<C>(size));
            (st2, Some(Block { addr: b.addr, size: kept }))
        }),
{
    reveal(allocated);
    let need = need_of::<C>(size);
    let k = oversized::<C>();
    let st1 = st.push::<C>(b);
    lemma_bin_counts::<C>();
    lemma_push::<C>(st, b);
    lemma_bin_of::<C>(b.size);
    assert(st1.bins[k] =~= seq![b] + st.bins[k]);
    assert(st1.bins[k].remove(0) =~= st.bins[k]);
    assert(st1.remove(k, 0).bins =~= st.bins);
    assert(st1.remove(k, 0) == st);
    assert(first_fit(st1.bins[k], need, 0) == 0);
}

/// Blocks are never coalesced: what serves a request of a fixed class is a free
/// block of exactly that class, or comes fresh from above the bump address. A free
/// block of another class is never merged or cut to serve it.
pub proof fn law_no_coalescing<C: Config>(st: HeapState, size: int)
    requires
        valid_config::<C>(),
        valid_region::<C>(),
        st.wf::<C>(),
        0 <= size,
        need_of::<C>(size) <= C::EXP_CEIL,
    ensures
        ({
            let k = bin_of::<C>(need_of::<C>(size));
            let (st2, taken) = allocated::<C>(st, size);
            &&& taken matches Some(b) ==> {
                &&& b.size == class_size::<C>(k)
                &&& st.bins[k].len() > 0 ==> b == st.bins[k][0] && st2 == st.remove(k, 0)
                &&& st.bins[k].len() == 0 ==> st.bump <= b.addr && st2.bump == b.end()
            }
            &&& taken is None ==> st.bins[k].len() == 0
        }),
{
    reveal(allocated);
    lemma_need::<C>(size);
    lemma_allocated::<C>(st, size);
    let k = bin_of::<C>(need_of::<C>(size));
    lemma_bin_of::<C>(need_of::<C>(size));
    lemma_bin_of_class::<C>(k);
    lemma_class::<C>(k);
    crate::invariants::lemma_take_fixed::<C>(st, k);
    if st.bins[k].len() == 0 {
        crate::bits::lemma_is_pow2(class_align::<C>(k));
        crate::bits::lemma_round_up(st.bump, class_align::<C>(k));
        crate::invariants::lemma_bump_block::<C>(st, class_align::<C>(k), class_size::<C>(k));
    }
}

/// Freeing a block and asking for its class again gives the same slice, and the
/// heap is back in the state it was in.
pub proof fn law_free_then_allocate<C: Config>(
    w: Map<int, u64>,
    w2: Map<int, u64>,
    w3: Map<int, u64>,
    b: Block,
    size: int,
    r: Slice,
)
    requires
        valid_config::<C>(),
        prepared::<C>(w),
        in_use::<C>(w, b),
        0 <= size,
        need_of::<C>(size) <= u64::MAX,
        request_size::<C>(size) == b.size,
        frees::<C>(w, w2, b.addr + C::MIN_ALIGN),
        allocs::<C>(w2, w3, size, r),
    ensures
        r.ptr == b.addr + C::MIN_ALIGN,
        r.len == b.size - C::MIN_ALIGN,
        in_use::<C>(w3, b),
        state_of::<C>(w3) == state_of::<C>(w),
{
    let st = state_of::<C>(w);
    assert(represents::<C>(w, st));
    law_block_found::<C>(w, b);
    law_freed_block_is_reused::<C>(st, b, size);
}

/// The payload of a block in use belongs to whoever holds it: a store into it
/// leaves the heap prepared, in the same state, and every other block as it was.
pub proof fn law_payload_is_private<C: Config>(w: Map<int, u64>, b: Block, a: int, v: u64)
    requires
        valid_config::<C>(),
        prepared::<C>(w),
        in_use::<C>(w, b),
        b.addr + C::MIN_ALIGN <= a,
        a + 8 <= b.end(),
    ensures
        prepared::<C>(w.insert(a, v)),
        state_of::<C>(w.insert(a, v)) == state_of::<C>(w),
        in_use::<C>(w.insert(a, v), b),
        forall|c: Block| #[trigger]
            in_use::<C>(w, c) && apart(b, c) ==> keeps_block::<C>(w, w.insert(a, v), c),
{
    let st = state_of::<C>(w);
    let w2 = w.insert(a, v);
    assert(represents::<C>(w, st));
    lemma_config_logs::<C>();
    crate::memory::lemma_addresses::<C>();
    crate::effects::lemma_store_payload::<C>(w, st, b, a, v);
    lemma_state_unique::<C>(w2, st);
    assert forall|c: Block| #[trigger] in_use::<C>(w, c) && apart(b, c) implies keeps_block::<C>(
        w,
        w2,
        c,
    ) by {
        lemma_placed::<C>(c);
        assert(w2[c.addr] == w[c.addr]);
    }
}

// --- resizing ---------------------------------------------------------------

/// Resizing keeps a block where it is exactly if the block is large enough; a
/// block that has to grow always moves, to memory that it does not overlap, and
/// its own memory is freed.
pub proof fn law_growth_moves<C: Config>(st: HeapState, b: Block, size: int)
    requires
        valid_config::<C>(),
        valid_region::<C>(),
        st.wf::<C>(),
        st.holds::<C>(b),
        0 <= size,
    ensures
        ({
            let (st2, taken) = reallocated::<C>(st, b, size);
            &&& st2.wf::<C>()
            &&& taken is None ==> st2 == st
            &&& taken matches Some(d) ==> {
                &&& d.addr == b.addr <==> request_size::<C>(size) <= b.size
                &&& d.size >= request_size::<C>(size)
                &&& st2.holds::<C>(d)
                &&& d.addr == b.addr ==> d.size <= b.size
                &&& d.addr != b.addr ==> apart(b, d) && st2.bins[bin_of::<C>(b.size)][0] == b
            }
            &&& request_size::<C>(size) <= b.size && need_of::<C>(size) <= u64::MAX
                ==> taken is Some
        }),
{
    lemma_need::<C>(size);
    lemma_placed::<C>(b);
    let total = request_size::<C>(size);
    if b.size >= total {
        lemma_split::<C>(st, b, total);
    } else {
        lemma_allocated::<C>(st, size);
        let (st1, taken) = allocated::<C>(st, size);
        if taken is Some {
            let d = taken->Some_0;
            assert(apart(d, b));
            lemma_placed::<C>(d);
            assert(st1.holds::<C>(b));
            lemma_push::<C>(st1, b);
            assert(st1.clear(d.addr, d.end()));
            assert(st1.push::<C>(b).holds::<C>(d));
        }
    }
}

/// With `SPLIT_MIN` at its default, `EXP_CEIL`, shrinking a block of a fixed class
/// leaves it whole.
pub proof fn law_fixed_shrink_keeps_the_block<C: Config>(st: HeapState, b: Block, size: int)
    requires
        valid_config::<C>(),
        placed::<C>(b),
        0 <= size,
        need_of::<C>(size) <= u64::MAX,
        request_size::<C>(size) <= b.size <= C::EXP_CEIL,
        C::SPLIT_MIN == C::EXP_CEIL,
    ensures
        reallocated::<C>(st, b, size) == (st, Some(b)),
{
    lemma_need::<C>(size);
}

// --- carving ----------------------------------------------------------------

/// Carving the excess of a block keeps at least what is needed, in a block that
/// can stand alone where it is, and touches no other block.
pub proof fn law_split_keeps_enough<C: Config>(st: HeapState, b: Block, need: int, c: Block)
    requires
        valid_config::<C>(),
        valid_region::<C>(),
        st.wf::<C>(),
        st.holds::<C>(b),
        0 < need <= b.size,
        need % C::MIN_ALIGN as int == 0,
        block_exact::<C>(need),
        st.holds::<C>(c),
        apart(b, c),
    ensures
        ({
            let (st2, size) = split::<C>(st, b, need);
            &&& need <= size <= b.size
            &&& b.size - need < C::SPLIT_MIN ==> size == b.size && st2 == st
            &&& st2.wf::<C>()
            &&& st2.holds::<C>(Block { addr: b.addr, size })
            &&& st2.holds::<C>(c)
        }),
{
    lemma_split::<C>(st, b, need);
    lemma_placed::<C>(c);
    assert(st.clear(c.addr, c.end()));
}

} // verus!
