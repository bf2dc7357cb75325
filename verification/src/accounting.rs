//! Where the memory of a heap is: in free blocks, in blocks handed out, or in
//! slivers too small for any class.

use crate::bits::{lemma_mod_add_sub, round_up};
use crate::classes::{
    bin_of, block_exact, carvable, class_align, class_size, lemma_bin_of, lemma_class, need_of,
    oversized, request_size,
};
use crate::config::{lemma_bin_counts, lemma_config_logs, linear_count, valid_config, Config};
use crate::invariants::{
    lemma_allocated, lemma_bump_block, lemma_carvable, lemma_carve_tail, lemma_exact_floor,
    lemma_first_fit, lemma_need, lemma_placed, lemma_push, lemma_raised_bump, lemma_remove,
    lemma_split,
};
use crate::laws::law_carves_the_largest;
use crate::state::{
    allocated, bump_block, carve_down, carve_tail, exact_floor, first_fit, fresh_state,
    lemma_bin_of_class, payload_start, reallocated, split, valid_region, Block, HeapState,
};
use vstd::prelude::*;

verus! {

// --- gaps -------------------------------------------------------------------

/// The address lies in a free block.
pub open spec fn is_free(st: HeapState, a: int) -> bool {
    exists|k: int, i: int|
        st.has(k, i) && (#[trigger] st.bins[k][i]).addr <= a < st.bins[k][i].end()
}

/// Where carving the gap `[lo, end)` down stops.
pub open spec fn carved_to<C: Config>(lo: int, end: int) -> int
    decreases end - lo,
{
    let size = carvable::<C>(end, end - lo).0;
    if end - lo < C::MIN_ALIGN || size <= 0 || size > end - lo {
        end
    } else {
        carved_to::<C>(lo, end - size)
    }
}

/// A free block stays free, at its place from the end of its list, when another is
/// put in front.
proof fn lemma_push_keeps_free<C: Config>(st: HeapState, b: Block, a: int)
    requires
        0 <= bin_of::<C>(b.size) < st.bins.len(),
        is_free(st, a) || b.addr <= a < b.end(),
    ensures
        is_free(st.push::<C>(b), a),
{
    let st2 = st.push::<C>(b);
    let kb = bin_of::<C>(b.size);
    assert(st2.bins[kb] =~= seq![b] + st.bins[kb]);
    if b.addr <= a < b.end() {
        assert(st2.has(kb, 0));
        assert(st2.bins[kb][0] == b);
    } else {
        let (k, i) = choose|k: int, i: int|
            st.has(k, i) && (#[trigger] st.bins[k][i]).addr <= a < st.bins[k][i].end();
        let j = if k == kb { i + 1 } else { i };
        assert(st2.has(k, j));
        assert(st2.bins[k][j] == st.bins[k][i]);
    }
}

/// Blocks of the smallest class can start at any multiple of `MIN_ALIGN`: there are
/// linear classes, or the first octave is not above twice `MIN_ALIGN`.
pub open spec fn smallest_fits_anywhere<C: Config>() -> bool {
    C::LNR_FLOOR < C::EXP_FLOOR || C::EXP_FLOOR <= 2 * C::MIN_ALIGN
}

/// The smallest class is `MIN_ALIGN`: nothing that is aligned is too small for a
/// class.
pub open spec fn no_slivers<C: Config>() -> bool {
    C::LNR_FLOOR == C::MIN_ALIGN
}

/// Where blocks of the smallest class can start at any multiple of `MIN_ALIGN`,
/// anything at least as large can be carved.
proof fn lemma_carves_something<C: Config>(end: int, len: int)
    requires
        valid_config::<C>(),
        C::LNR_FLOOR <= len <= end,
        smallest_fits_anywhere::<C>(),
        end % C::MIN_ALIGN as int == 0,
    ensures
        carvable::<C>(end, len).0 > 0,
{
    lemma_config_logs::<C>();
    lemma_bin_counts::<C>();
    lemma_class::<C>(0);
    crate::classes::lemma_boundary_step::<C>(0);
    if C::LNR_FLOOR < C::EXP_FLOOR {
        assert(0 < linear_count::<C>()) by (nonlinear_arith)
            requires
                linear_count::<C>() * C::MIN_ALIGN == C::EXP_FLOOR - C::LNR_FLOOR,
                C::LNR_FLOOR < C::EXP_FLOOR,
                C::MIN_ALIGN > 0,
        ;
    } else {
        assert(linear_count::<C>() == 0) by (nonlinear_arith)
            requires
                linear_count::<C>() * C::MIN_ALIGN == 0,
                C::MIN_ALIGN > 0,
        ;
        crate::classes::lemma_octave::<C>(0);
    }
    law_carves_the_largest::<C>(end, len, 0);
}

/// Carving a gap wastes nothing above the point where it stops: every address from
/// there on lies in a free block. Where blocks of the smallest class can start
/// anywhere, it stops less than that class from the low end, and exactly at the low
/// end where the smallest class is `MIN_ALIGN`.
pub proof fn law_gap_becomes_free<C: Config>(st: HeapState, lo: int, end: int, a: int)
    requires
        valid_config::<C>(),
        valid_region::<C>(),
        st.wf::<C>(),
        payload_start::<C>() <= lo <= end <= st.bump,
        lo % C::MIN_ALIGN as int == 0,
        end % C::MIN_ALIGN as int == 0,
        st.clear(lo, end),
    ensures
        lo <= carved_to::<C>(lo, end) <= end,
        carved_to::<C>(lo, end) <= a < end ==> is_free(carve_down::<C>(st, lo, end), a),
        is_free(st, a) ==> is_free(carve_down::<C>(st, lo, end), a),
        smallest_fits_anywhere::<C>() ==> carved_to::<C>(lo, end) - lo < C::LNR_FLOOR,
        no_slivers::<C>() ==> carved_to::<C>(lo, end) == lo,
        carved_to::<C>(lo, end) % C::MIN_ALIGN as int == 0,
    decreases end - lo,
{
    lemma_config_logs::<C>();
    lemma_mod_add_sub(end, lo, C::MIN_ALIGN as int);
    crate::memory::lemma_addresses::<C>();
    lemma_carvable::<C>(end, end - lo);
    let size = carvable::<C>(end, end - lo).0;
    if end - lo >= C::LNR_FLOOR && smallest_fits_anywhere::<C>() {
        lemma_carves_something::<C>(end, end - lo);
    }
    if end - lo < C::MIN_ALIGN {
        crate::bits::lemma_multiples_close(end, lo, C::MIN_ALIGN as int);
    } else if size > 0 {
        let b = Block { addr: end - size, size };
        assert(st.holds::<C>(b));
        lemma_placed::<C>(b);
        lemma_push::<C>(st, b);
        let st2 = st.push::<C>(b);
        assert(st.clear(lo, end - size));
        assert(st2.clear(lo, end - size));
        if is_free(st, a) || b.addr <= a < b.end() {
            lemma_push_keeps_free::<C>(st, b, a);
        }
        law_gap_becomes_free::<C>(st2, lo, end - size, a);
    }
}

// --- excess -----------------------------------------------------------------

/// Carving the excess of a block frees every address from where the block ends
/// then, and what was free stays so. Where blocks of the smallest class can start
/// anywhere, the block ends at a size that can stand alone, or less than that class
/// above what is needed.
proof fn lemma_excess_becomes_free<C: Config>(
    st: HeapState,
    addr: int,
    need: int,
    end: int,
    count: int,
    a: int,
)
    requires
        valid_config::<C>(),
        valid_region::<C>(),
        st.wf::<C>(),
        payload_start::<C>() <= addr,
        0 < need <= end - addr,
        end <= st.bump,
        addr % C::MIN_ALIGN as int == 0,
        need % C::MIN_ALIGN as int == 0,
        end % C::MIN_ALIGN as int == 0,
        st.clear(addr, end),
        block_exact::<C>(need),
    ensures
        ({
            let (st2, end2) = carve_tail::<C>(st, addr, need, end, count);
            &&& is_free(st, a) ==> is_free(st2, a)
            &&& end2 <= a < end ==> is_free(st2, a)
            &&& smallest_fits_anywhere::<C>() ==> block_exact::<C>(end2 - addr) || end2 - addr - need
                < C::LNR_FLOOR
            &&& no_slivers::<C>() ==> block_exact::<C>(end2 - addr)
        }),
    decreases end - addr - need,
{
    let m = C::MIN_ALIGN as int;
    let excess = end - addr - need;
    lemma_config_logs::<C>();
    crate::memory::lemma_addresses::<C>();
    lemma_mod_add_sub(addr, need, m);
    lemma_mod_add_sub(end, addr + need, m);
    lemma_carvable::<C>(end, excess);
    let size = carvable::<C>(end, excess).0;
    if excess < m {
        crate::bits::lemma_multiples_close(end, addr + need, m);
    } else {
        if excess >= C::LNR_FLOOR && smallest_fits_anywhere::<C>() {
            lemma_carves_something::<C>(end, excess);
        }
        if !(count >= C::CARVE_MAX && block_exact::<C>(end - addr)) && size > 0 {
            let b = Block { addr: end - size, size };
            assert(st.holds::<C>(b));
            lemma_placed::<C>(b);
            lemma_push::<C>(st, b);
            let st2 = st.push::<C>(b);
            assert(st.clear(addr, end - size));
            assert(st2.clear(addr, end - size));
            if is_free(st, a) || b.addr <= a < b.end() {
                lemma_push_keeps_free::<C>(st, b, a);
            }
            lemma_excess_becomes_free::<C>(st2, addr, need, end - size, count + 1, a);
        }
    }
}

/// Where carving the excess of a block stops: the end of the block, if nothing is
/// carved.
pub open spec fn cut_to<C: Config>(st: HeapState, b: Block, need: int) -> int {
    if b.size - need < C::SPLIT_MIN {
        b.end()
    } else {
        carve_tail::<C>(st, b.addr, need, b.end(), 0).1
    }
}

/// What is lost when a block is cut down: what lies between the block then and where
/// carving stopped.
pub open spec fn split_sliver<C: Config>(st: HeapState, b: Block, need: int) -> Block {
    let end = b.addr + split::<C>(st, b, need).1;
    Block { addr: end, size: cut_to::<C>(st, b, need) - end }
}

/// A stretch that is too small for any class.
pub open spec fn is_sliver<C: Config>(s: Block) -> bool {
    0 <= s.size < C::LNR_FLOOR && s.size % C::MIN_ALIGN as int == 0
}

/// The address lies in the stretch.
pub open spec fn covers(s: Block, a: int) -> bool {
    s.addr <= a < s.end()
}

/// Cutting a block down wastes little, where blocks of the smallest class can start
/// anywhere: of the addresses that it gives up, all are free but for one stretch
/// below that class.
pub proof fn law_split_wastes_little<C: Config>(st: HeapState, b: Block, need: int, a: int)
    requires
        valid_config::<C>(),
        valid_region::<C>(),
        st.wf::<C>(),
        st.holds::<C>(b),
        0 < need <= b.size,
        need % C::MIN_ALIGN as int == 0,
        block_exact::<C>(need),
        smallest_fits_anywhere::<C>(),
    ensures
        ({
            let (st2, size) = split::<C>(st, b, need);
            let s = split_sliver::<C>(st, b, need);
            &&& is_sliver::<C>(s)
            &&& is_free(st, a) ==> is_free(st2, a)
            &&& b.addr + size <= a < b.end() ==> is_free(st2, a) || covers(s, a)
        }),
{
    lemma_config_logs::<C>();
    lemma_split::<C>(st, b, need);
    lemma_placed::<C>(b);
    if b.size - need >= C::SPLIT_MIN {
        lemma_mod_add_sub(b.addr, b.size, C::MIN_ALIGN as int);
        lemma_carve_tail::<C>(st, b.addr, need, b.end(), 0);
        lemma_excess_becomes_free::<C>(st, b.addr, need, b.end(), 0, a);
        let (st2, end) = carve_tail::<C>(st, b.addr, need, b.end(), 0);
        lemma_mod_add_sub(end, b.addr, C::MIN_ALIGN as int);
        lemma_exact_floor::<C>(end - b.addr, need);
        lemma_mod_add_sub(
            end - b.addr,
            exact_floor::<C>(end - b.addr),
            C::MIN_ALIGN as int,
        );
    } else {
        vstd::arithmetic::div_mod::lemma_small_mod(0, C::MIN_ALIGN as nat);
    }
}

// --- nothing leaks ----------------------------------------------------------

/// The address lies in one of the blocks.
pub open spec fn is_held(blocks: Set<Block>, a: int) -> bool {
    exists|b: Block| #[trigger] blocks.contains(b) && b.addr <= a < b.end()
}

/// Every address that was carved lies in a free block, in one of `blocks`, or in one
/// of the stretches that are `lost`.
pub open spec fn accounted<C: Config>(
    st: HeapState,
    blocks: Set<Block>,
    lost: Set<Block>,
) -> bool {
    forall|a: int|
        #![trigger is_free(st, a)]
        #![trigger is_held(blocks, a)]
        payload_start::<C>() <= a < st.bump ==> is_free(st, a) || is_held(blocks, a) || is_held(
            lost,
            a,
        )
}

/// What is lost when a fresh block is carved: what is left of the gap below it.
pub open spec fn fresh_sliver<C: Config>(st: HeapState, align: int, size: int) -> Block {
    let addr = round_up(st.bump, align);
    Block { addr: st.bump, size: carved_to::<C>(st.bump, addr) - st.bump }
}

/// What is lost by an allocation: nothing, if a block of a fixed bin serves it.
pub open spec fn allocation_sliver<C: Config>(st: HeapState, size: int) -> Block {
    let need = need_of::<C>(size);
    let k = bin_of::<C>(need);
    let i = first_fit(st.bins[k], need, 0);
    if need > C::EXP_CEIL {
        if i < st.bins[k].len() {
            split_sliver::<C>(st.remove(k, i), st.bins[k][i], need)
        } else {
            fresh_sliver::<C>(st, C::EXP_CEIL as int, need)
        }
    } else if st.bins[k].len() > 0 {
        Block { addr: st.bump, size: 0 }
    } else {
        fresh_sliver::<C>(st, class_align::<C>(k), class_size::<C>(k))
    }
}

/// What is lost by resizing a block.
pub open spec fn resize_sliver<C: Config>(st: HeapState, b: Block, size: int) -> Block {
    if b.size >= request_size::<C>(size) {
        split_sliver::<C>(st, b, request_size::<C>(size))
    } else {
        allocation_sliver::<C>(st, size)
    }
}

/// The address lies in the block that was taken, if any.
pub open spec fn is_taken(taken: Option<Block>, a: int) -> bool {
    taken matches Some(b) && b.addr <= a < b.end()
}

/// What was free is, but for the block that is removed.
proof fn lemma_remove_keeps_free(st: HeapState, k: int, i: int, a: int)
    requires
        st.has(k, i),
        is_free(st, a),
    ensures
        is_free(st.remove(k, i), a) || st.bins[k][i].addr <= a < st.bins[k][i].end(),
{
    let st2 = st.remove(k, i);
    let (l, j) = choose|l: int, j: int|
        st.has(l, j) && (#[trigger] st.bins[l][j]).addr <= a < st.bins[l][j].end();
    if !(l == k && j == i) {
        let q = if l == k && j > i { j - 1 } else { j };
        assert(st2.has(l, q));
        assert(st2.bins[l][q] == st.bins[l][j]);
    }
}

/// A fresh block leaves free what was, and frees the gap below it but for a sliver.
proof fn lemma_fresh_keeps_free<C: Config>(st: HeapState, align: int, size: int, a: int)
    requires
        valid_config::<C>(),
        valid_region::<C>(),
        st.wf::<C>(),
        vstd::arithmetic::power2::is_pow2(align),
        align >= C::MIN_ALIGN,
        size > 0,
        block_exact::<C>(size),
        size % C::MIN_ALIGN as int == 0,
        align == class_align::<C>(bin_of::<C>(size)),
        smallest_fits_anywhere::<C>(),
        bump_block::<C>(st, align, size).1 is Some,
    ensures
        ({
            let (st2, taken) = bump_block::<C>(st, align, size);
            let s = fresh_sliver::<C>(st, align, size);
            &&& is_sliver::<C>(s)
            &&& is_free(st, a) || st.bump <= a < st2.bump ==> is_free(st2, a) || is_taken(taken, a)
                || covers(s, a)
        }),
{
    lemma_bump_block::<C>(st, align, size);
    let (st2, taken) = bump_block::<C>(st, align, size);
    let b = taken->Some_0;
    let st1 = st.with_bump(b.end());
    crate::bits::lemma_is_pow2(align);
    crate::bits::lemma_round_up(st.bump, align);
    crate::bits::lemma_aligned_down(b.addr, align, C::MIN_ALIGN as int);
    lemma_mod_add_sub(b.addr, size, C::MIN_ALIGN as int);
    lemma_raised_bump::<C>(st, b.end());
    if is_free(st, a) {
        let (k, i) = choose|k: int, i: int|
            st.has(k, i) && (#[trigger] st.bins[k][i]).addr <= a < st.bins[k][i].end();
        assert(st1.has(k, i) && st1.bins[k][i] == st.bins[k][i]);
        assert(is_free(st1, a));
    }
    law_gap_becomes_free::<C>(st1, st.bump, b.addr, a);
    lemma_mod_add_sub(carved_to::<C>(st.bump, b.addr), st.bump, C::MIN_ALIGN as int);
}

/// Allocation loses no more than a sliver: what was free, and what is carved from
/// above the bump address, is free afterwards, belongs to the block handed out, or
/// lies in the sliver.
proof fn lemma_allocation_loses_little<C: Config>(st: HeapState, size: int, a: int)
    requires
        valid_config::<C>(),
        valid_region::<C>(),
        st.wf::<C>(),
        0 <= size,
        smallest_fits_anywhere::<C>(),
        allocated::<C>(st, size).1 is Some,
    ensures
        ({
            let (st2, taken) = allocated::<C>(st, size);
            let s = allocation_sliver::<C>(st, size);
            &&& is_sliver::<C>(s)
            &&& is_free(st, a) || st.bump <= a < st2.bump ==> is_free(st2, a) || is_taken(taken, a)
                || covers(s, a)
        }),
{
    reveal(allocated);
    lemma_need::<C>(size);
    lemma_bin_counts::<C>();
    lemma_config_logs::<C>();
    let need = need_of::<C>(size);
    lemma_bin_of::<C>(need);
    if need > C::EXP_CEIL {
        let k = oversized::<C>();
        let i = first_fit(st.bins[k], need, 0);
        lemma_first_fit(st.bins[k], need, 0);
        if i < st.bins[k].len() {
            let b = st.bins[k][i];
            assert(st.has(k, i));
            lemma_remove::<C>(st, k, i);
            let st1 = st.remove(k, i);
            lemma_split::<C>(st1, b, need);
            if is_free(st, a) {
                lemma_remove_keeps_free(st, k, i, a);
            }
            law_split_wastes_little::<C>(st1, b, need, a);
        } else {
            lemma_fresh_keeps_free::<C>(st, C::EXP_CEIL as int, need, a);
        }
    } else {
        let k = bin_of::<C>(need);
        lemma_class::<C>(k);
        lemma_bin_of_class::<C>(k);
        if st.bins[k].len() > 0 {
            assert(st.has(k, 0));
            vstd::arithmetic::div_mod::lemma_small_mod(0, C::MIN_ALIGN as nat);
            if is_free(st, a) {
                lemma_remove_keeps_free(st, k, 0, a);
            }
        } else {
            lemma_fresh_keeps_free::<C>(st, class_align::<C>(k), class_size::<C>(k), a);
        }
    }
}

/// A fresh heap has nothing to account for.
pub proof fn law_fresh_heap_is_accounted<C: Config>()
    ensures
        accounted::<C>(fresh_state::<C>(), Set::empty(), Set::empty()),
{
}

/// Where the smallest class is `MIN_ALIGN` there are no slivers: what is accounted
/// for with them is accounted for without.
pub proof fn law_no_slivers_nothing_lost<C: Config>(
    st: HeapState,
    blocks: Set<Block>,
    lost: Set<Block>,
)
    requires
        valid_config::<C>(),
        no_slivers::<C>(),
        forall|s: Block| #[trigger] lost.contains(s) ==> is_sliver::<C>(s),
        accounted::<C>(st, blocks, lost),
    ensures
        accounted::<C>(st, blocks, Set::empty()),
{
    assert forall|a: int|
        #![trigger is_free(st, a)]
        #![trigger is_held(blocks, a)]
        payload_start::<C>() <= a < st.bump implies is_free(st, a) || is_held(blocks, a) by {
        if is_held(lost, a) {
            let s = choose|s: Block| #[trigger] lost.contains(s) && s.addr <= a < s.end();
            vstd::arithmetic::div_mod::lemma_small_mod(s.size as nat, C::MIN_ALIGN as nat);
        }
    }
}

/// Allocation leaks no more than a stretch that is too small for any class, where
/// blocks of the smallest class can start anywhere: if every address that was carved
/// was accounted for, it still is when the block handed out is added to the live
/// ones, and that stretch to the lost ones.
pub proof fn law_allocation_leaks_little<C: Config>(
    st: HeapState,
    size: int,
    blocks: Set<Block>,
    lost: Set<Block>,
)
    requires
        valid_config::<C>(),
        valid_region::<C>(),
        st.wf::<C>(),
        0 <= size,
        smallest_fits_anywhere::<C>(),
        accounted::<C>(st, blocks, lost),
    ensures
        ({
            let (st2, taken) = allocated::<C>(st, size);
            let s = allocation_sliver::<C>(st, size);
            &&& taken is None ==> accounted::<C>(st2, blocks, lost)
            &&& taken matches Some(b) ==> is_sliver::<C>(s) && accounted::<C>(
                st2,
                blocks.insert(b),
                lost.insert(s),
            )
        }),
{
    let (st2, taken) = allocated::<C>(st, size);
    let s = allocation_sliver::<C>(st, size);
    lemma_allocated::<C>(st, size);
    if taken is Some {
        let b = taken->Some_0;
        let all = blocks.insert(b);
        let gone = lost.insert(s);
        lemma_allocation_loses_little::<C>(st, size, 0);
        assert(all.contains(b) && gone.contains(s));
        assert forall|a: int|
            #![trigger is_free(st2, a)]
            #![trigger is_held(all, a)]
            payload_start::<C>() <= a < st2.bump implies is_free(st2, a) || is_held(all, a)
            || is_held(gone, a) by {
            lemma_allocation_loses_little::<C>(st, size, a);
            if !(is_free(st, a) || st.bump <= a) {
                assert(is_held(blocks, a) || is_held(lost, a));
                lemma_held_more(blocks, b, a);
                lemma_held_more(lost, s, a);
            }
        }
    }
}

/// What lies in one of some blocks lies in one of more.
proof fn lemma_held_more(blocks: Set<Block>, b: Block, a: int)
    ensures
        is_held(blocks, a) ==> is_held(blocks.insert(b), a),
{
    if is_held(blocks, a) {
        let c = choose|c: Block| #[trigger] blocks.contains(c) && c.addr <= a < c.end();
        assert(blocks.insert(b).contains(c));
    }
}

/// Freeing leaks nothing: the block goes from the live ones to the free ones.
pub proof fn law_freeing_leaks_nothing<C: Config>(
    st: HeapState,
    b: Block,
    blocks: Set<Block>,
    lost: Set<Block>,
)
    requires
        valid_config::<C>(),
        st.wf::<C>(),
        st.holds::<C>(b),
        accounted::<C>(st, blocks, lost),
    ensures
        accounted::<C>(st.push::<C>(b), blocks.remove(b), lost),
{
    let st2 = st.push::<C>(b);
    let rest = blocks.remove(b);
    lemma_placed::<C>(b);
    assert forall|a: int|
        #![trigger is_free(st2, a)]
        #![trigger is_held(rest, a)]
        payload_start::<C>() <= a < st2.bump implies is_free(st2, a) || is_held(rest, a)
        || is_held(lost, a) by {
        if is_free(st, a) || b.addr <= a < b.end() {
            lemma_push_keeps_free::<C>(st, b, a);
        } else if is_held(blocks, a) {
            let c = choose|c: Block| #[trigger] blocks.contains(c) && c.addr <= a < c.end();
            assert(rest.contains(c));
        }
    }
}

/// Resizing leaks no more than a stretch that is too small for any class, where
/// blocks of the smallest class can start anywhere.
pub proof fn law_resizing_leaks_little<C: Config>(
    st: HeapState,
    b: Block,
    size: int,
    blocks: Set<Block>,
    lost: Set<Block>,
)
    requires
        valid_config::<C>(),
        valid_region::<C>(),
        st.wf::<C>(),
        st.holds::<C>(b),
        0 <= size,
        smallest_fits_anywhere::<C>(),
        accounted::<C>(st, blocks, lost),
        blocks.contains(b),
    ensures
        ({
            let (st2, taken) = reallocated::<C>(st, b, size);
            let s = resize_sliver::<C>(st, b, size);
            &&& taken is None ==> accounted::<C>(st2, blocks, lost)
            &&& taken matches Some(d) ==> is_sliver::<C>(s) && accounted::<C>(
                st2,
                blocks.remove(b).insert(d),
                lost.insert(s),
            )
        }),
{
    let total = request_size::<C>(size);
    lemma_need::<C>(size);
    lemma_placed::<C>(b);
    if need_of::<C>(size) > u64::MAX {
    } else if b.size >= total {
        let (st2, kept) = split::<C>(st, b, total);
        let d = Block { addr: b.addr, size: kept };
        let s = split_sliver::<C>(st, b, total);
        let all = blocks.remove(b).insert(d);
        let gone = lost.insert(s);
        lemma_split::<C>(st, b, total);
        law_split_wastes_little::<C>(st, b, total, 0);
        assert(all.contains(d) && gone.contains(s));
        assert forall|a: int|
            #![trigger is_free(st2, a)]
            #![trigger is_held(all, a)]
            payload_start::<C>() <= a < st2.bump implies is_free(st2, a) || is_held(all, a)
            || is_held(gone, a) by {
            law_split_wastes_little::<C>(st, b, total, a);
            lemma_held_more(lost, s, a);
            if !(b.addr <= a < b.end()) && !is_free(st, a) && is_held(blocks, a) {
                let c = choose|c: Block| #[trigger] blocks.contains(c) && c.addr <= a < c.end();
                assert(all.contains(c));
            }
        }
    } else {
        let (st1, taken) = allocated::<C>(st, size);
        lemma_allocated::<C>(st, size);
        law_allocation_leaks_little::<C>(st, size, blocks, lost);
        if taken is Some {
            let d = taken->Some_0;
            let s = allocation_sliver::<C>(st, size);
            law_freeing_leaks_nothing::<C>(st1, b, blocks.insert(d), lost.insert(s));
            assert(d != b);
            assert(blocks.insert(d).remove(b) =~= blocks.remove(b).insert(d));
        }
    }
}

} // verus!
