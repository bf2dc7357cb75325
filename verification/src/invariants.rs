//! Every operation keeps the heap's invariant, and every block handed out.

use crate::bits::{lemma_aligned_down, lemma_mod_add_sub, lemma_round_up, round_up};
use crate::classes::{
    bin_of, block_exact, carvable, class_align, class_size, last_bin_to, lemma_bin_of,
    lemma_boundary_order, lemma_class, lemma_class_order, lemma_floor_bin, lemma_last_bin_to,
    lemma_octave, need_of, octave, odd_bin, oversized, request_size,
};
use crate::config::{
    lemma_bin_counts, lemma_config_logs, linear_count, region_end, valid_config, Config,
};
use crate::state::{
    allocated, apart, bump_block, carve_down, carve_tail, exact_floor, first_fit,
    lemma_bin_of_class, lemma_bin_of_multiple, lemma_geometry, payload_start, placed, split,
    take_fixed, take_oversized, valid_region, Block, HeapState,
};
use vstd::arithmetic::power2::is_pow2;
use vstd::prelude::*;

verus! {

/// What was clear of free blocks outside `[lo, hi)` still is.
pub open spec fn keeps_clear(st: HeapState, st2: HeapState, lo: int, hi: int) -> bool {
    forall|x: int, y: int| #[trigger]
        st.clear(x, y) && (y <= lo || hi <= x) ==> st2.clear(x, y)
}

// --- alignments -------------------------------------------------------------

/// The alignment of every bin is a power of two from `MIN_ALIGN` to `EXP_CEIL`,
/// and does not decrease from bin to bin.
pub proof fn lemma_align_order<C: Config>(a: int, b: int)
    requires
        valid_config::<C>(),
        0 <= a <= b <= oversized::<C>(),
    ensures
        is_pow2(class_align::<C>(a)),
        C::MIN_ALIGN <= class_align::<C>(a) <= class_align::<C>(b) <= C::EXP_CEIL,
{
    lemma_bin_counts::<C>();
    lemma_config_logs::<C>();
    if a < oversized::<C>() {
        lemma_class::<C>(a);
    }
    if b < oversized::<C>() {
        lemma_class::<C>(b);
        if a >= linear_count::<C>() {
            lemma_octave::<C>(a);
            lemma_octave::<C>(b);
            crate::bits::lemma_pow2_monotonic(
                crate::bits::log2(octave::<C>(a)),
                crate::bits::log2(octave::<C>(b)),
            );
        }
    }
}

/// A larger size is not in an earlier bin.
pub proof fn lemma_bin_of_order<C: Config>(a: int, b: int)
    requires
        valid_config::<C>(),
        a <= b,
    ensures
        bin_of::<C>(a) <= bin_of::<C>(b),
{
    lemma_bin_of::<C>(a);
    lemma_bin_of::<C>(b);
    let j = bin_of::<C>(a);
    let k = bin_of::<C>(b);
    if k < j {
        if k < j - 1 {
            lemma_boundary_order::<C>(k, j - 1);
        }
    }
}

/// A block that is placed stays placed when it is cut down to a smaller size
/// that can stand alone.
pub proof fn lemma_placed_smaller<C: Config>(b: Block, size: int)
    requires
        valid_config::<C>(),
        placed::<C>(b),
        0 < size <= b.size,
        block_exact::<C>(size),
        size % C::MIN_ALIGN as int == 0,
    ensures
        placed::<C>(Block { addr: b.addr, size }),
{
    lemma_bin_of_order::<C>(size, b.size);
    lemma_bin_of::<C>(size);
    lemma_bin_of::<C>(b.size);
    let j = bin_of::<C>(size);
    let k = bin_of::<C>(b.size);
    lemma_align_order::<C>(j, k);
    lemma_align_order::<C>(k, k);
    lemma_aligned_down(b.addr, class_align::<C>(k), class_align::<C>(j));
}

/// Every placed block is aligned to `MIN_ALIGN` and at least that large.
pub proof fn lemma_placed<C: Config>(b: Block)
    requires
        valid_config::<C>(),
        placed::<C>(b),
    ensures
        b.addr % C::MIN_ALIGN as int == 0,
        b.size >= C::LNR_FLOOR,
        b.size >= C::MIN_ALIGN >= 16,
        0 <= bin_of::<C>(b.size) <= oversized::<C>(),
{
    lemma_config_logs::<C>();
    lemma_bin_of::<C>(b.size);
    let k = bin_of::<C>(b.size);
    lemma_align_order::<C>(k, k);
    lemma_aligned_down(b.addr, class_align::<C>(k), C::MIN_ALIGN as int);
    if b.size <= C::EXP_CEIL {
        lemma_class::<C>(k);
    }
}

// --- single steps -----------------------------------------------------------

/// Putting a block handed out back in its bin.
pub proof fn lemma_push<C: Config>(st: HeapState, b: Block)
    requires
        valid_config::<C>(),
        st.wf::<C>(),
        st.holds::<C>(b),
    ensures
        st.push::<C>(b).wf::<C>(),
        keeps_clear(st, st.push::<C>(b), b.addr, b.end()),
        st.push::<C>(b).bins[bin_of::<C>(b.size)][0] == b,
{
    lemma_placed::<C>(b);
    let k0 = bin_of::<C>(b.size);
    let st2 = st.push::<C>(b);
    assert(st2.bins[k0][0] == b);
    assert forall|k: int, i: int| st2.has(k, i) implies {
        let c = #[trigger] st2.bins[k][i];
        &&& c == b && k == k0 && i == 0 || st.has(k, if k == k0 { i - 1 } else { i }) && c
            == st.bins[k][if k == k0 { i - 1 } else { i }]
    } by {}
    assert(st2.blocks_ok::<C>());
    assert(st2.disjoint()) by {
        assert forall|k: int, i: int, l: int, j: int|
            st2.has(k, i) && st2.has(l, j) && !(k == l && i == j) implies apart(
            #[trigger] st2.bins[k][i],
            #[trigger] st2.bins[l][j],
        ) by {
            let p = if k == k0 { i - 1 } else { i };
            let q = if l == k0 { j - 1 } else { j };
            if !(k == k0 && i == 0) {
                assert(st.has(k, p) && st2.bins[k][i] == st.bins[k][p]);
            }
            if !(l == k0 && j == 0) {
                assert(st.has(l, q) && st2.bins[l][j] == st.bins[l][q]);
            }
        }
    }
    assert forall|x: int, y: int| #[trigger]
        st.clear(x, y) && (y <= b.addr || b.end() <= x) implies st2.clear(x, y) by {
        assert forall|k: int, i: int| st2.has(k, i) implies (#[trigger] st2.bins[k][i]).end() <= x
            || y <= st2.bins[k][i].addr by {
            let p = if k == k0 { i - 1 } else { i };
            if !(k == k0 && i == 0) {
                assert(st.has(k, p) && st2.bins[k][i] == st.bins[k][p]);
            }
        }
    }
}

/// Taking a free block out of its bin: it may then be handed out.
pub proof fn lemma_remove<C: Config>(st: HeapState, k: int, i: int)
    requires
        valid_config::<C>(),
        st.wf::<C>(),
        st.has(k, i),
    ensures
        st.remove(k, i).wf::<C>(),
        st.remove(k, i).holds::<C>(st.bins[k][i]),
        forall|x: int, y: int| #[trigger] st.clear(x, y) ==> st.remove(k, i).clear(x, y),
        forall|c: Block| #[trigger]
            st.holds::<C>(c) ==> st.remove(k, i).holds::<C>(c) && apart(c, st.bins[k][i]),
{
    let st2 = st.remove(k, i);
    let b = st.bins[k][i];
    assert forall|l: int, j: int| st2.has(l, j) implies {
        let q = if l == k && j >= i { j + 1 } else { j };
        &&& st.has(l, q)
        &&& #[trigger] st2.bins[l][j] == st.bins[l][q]
        &&& !(l == k && q == i)
    } by {}
    assert(st2.blocks_ok::<C>());
    assert(st2.disjoint()) by {
        assert forall|l: int, j: int, m: int, n: int|
            st2.has(l, j) && st2.has(m, n) && !(l == m && j == n) implies apart(
            #[trigger] st2.bins[l][j],
            #[trigger] st2.bins[m][n],
        ) by {
            let p = if l == k && j >= i { j + 1 } else { j };
            let q = if m == k && n >= i { n + 1 } else { n };
            assert(st2.bins[l][j] == st.bins[l][p]);
            assert(st2.bins[m][n] == st.bins[m][q]);
            assert(!(l == m && p == q));
        }
    }
    assert(placed::<C>(b));
    assert(st2.clear(b.addr, b.end())) by {
        assert forall|l: int, j: int| st2.has(l, j) implies (#[trigger] st2.bins[l][j]).end()
            <= b.addr || b.end() <= st2.bins[l][j].addr by {
            let q = if l == k && j >= i { j + 1 } else { j };
            assert(st2.bins[l][j] == st.bins[l][q]);
        }
    }
    assert forall|x: int, y: int| #[trigger] st.clear(x, y) implies st2.clear(x, y) by {
        assert forall|l: int, j: int| st2.has(l, j) implies (#[trigger] st2.bins[l][j]).end() <= x
            || y <= st2.bins[l][j].addr by {
            let q = if l == k && j >= i { j + 1 } else { j };
            assert(st2.bins[l][j] == st.bins[l][q]);
        }
    }
}

/// What can be carved is placed, and goes to the bin named with it.
pub proof fn lemma_carvable<C: Config>(end: int, len: int)
    requires
        valid_config::<C>(),
        0 <= len <= end,
        end % C::MIN_ALIGN as int == 0,
        len % C::MIN_ALIGN as int == 0,
    ensures
        ({
            let (size, bin) = carvable::<C>(end, len);
            &&& 0 <= size <= len
            &&& size > 0 ==> placed::<C>(Block { addr: end - size, size })
            &&& size > 0 ==> bin == bin_of::<C>(size)
            &&& 0 <= bin <= oversized::<C>()
        }),
{
    lemma_config_logs::<C>();
    lemma_bin_counts::<C>();
    let m = C::MIN_ALIGN as int;
    let z = C::EXP_CEIL as int;
    let start = round_up(end - len, z);
    lemma_round_up(end - len, z);
    if len > z && end - start > z {
        let size = end - start;
        lemma_bin_of::<C>(size);
        lemma_aligned_down(start, z, m);
        lemma_mod_add_sub(end, start, m);
    } else {
        let cap = if len > z { z } else { len };
        let top = oversized::<C>() - 1;
        lemma_last_bin_to::<C>(end, cap, top);
        let bin = last_bin_to::<C>(end, cap, top);
        if bin >= 0 {
            lemma_class::<C>(bin);
            if odd_bin::<C>(bin) {
                // The next bin has the same class and alignment.
                lemma_class::<C>(bin + 1);
                lemma_octave::<C>(bin);
                lemma_octave::<C>(bin + 1);
                assert(class_size::<C>(bin + 1) <= cap);
            }
            lemma_bin_of_class::<C>(bin);
            lemma_mod_add_sub(end, class_size::<C>(bin), class_align::<C>(bin));
        }
    }
}

/// Carving a clear stretch of the payload area into free blocks.
pub proof fn lemma_carve_down<C: Config>(st: HeapState, lo: int, end: int)
    requires
        valid_config::<C>(),
        valid_region::<C>(),
        st.wf::<C>(),
        payload_start::<C>() <= lo <= end <= st.bump,
        lo % C::MIN_ALIGN as int == 0,
        end % C::MIN_ALIGN as int == 0,
        st.clear(lo, end),
    ensures
        carve_down::<C>(st, lo, end).wf::<C>(),
        carve_down::<C>(st, lo, end).bump == st.bump,
        keeps_clear(st, carve_down::<C>(st, lo, end), lo, end),
    decreases end - lo,
{
    lemma_config_logs::<C>();
    lemma_geometry::<C>();
    lemma_mod_add_sub(end, lo, C::MIN_ALIGN as int);
    lemma_carvable::<C>(end, end - lo);
    let size = carvable::<C>(end, end - lo).0;
    if !(end - lo < C::MIN_ALIGN || size <= 0) {
        let b = Block { addr: end - size, size };
        assert(st.clear(b.addr, b.end()));
        lemma_push::<C>(st, b);
        lemma_placed::<C>(b);
        let st2 = st.push::<C>(b);
        assert(st.clear(lo, end - size));
        lemma_carve_down::<C>(st2, lo, end - size);
    }
}

/// Carving the excess of a block that is in use.
pub proof fn lemma_carve_tail<C: Config>(
    st: HeapState,
    addr: int,
    need: int,
    end: int,
    count: int,
)
    requires
        valid_config::<C>(),
        valid_region::<C>(),
        st.wf::<C>(),
        payload_start::<C>() <= addr,
        0 < need <= end - addr,
        end <= st.bump,
        addr % C::MIN_ALIGN as int == 0,
        need % C::MIN_ALIGN as int == 0,
        end % C::MIN_ALIGN as int == 0,
        st.clear(addr, end),
    ensures
        ({
            let (st2, end2) = carve_tail::<C>(st, addr, need, end, count);
            &&& st2.wf::<C>()
            &&& st2.bump == st.bump
            &&& addr + need <= end2 <= end
            &&& end2 % C::MIN_ALIGN as int == 0
            &&& st2.clear(addr, end2)
            &&& keeps_clear(st, st2, addr + need, end)
        }),
    decreases end - addr - need,
{
    lemma_config_logs::<C>();
    lemma_geometry::<C>();
    let m = C::MIN_ALIGN as int;
    let excess = end - addr - need;
    lemma_mod_add_sub(end, addr, m);
    lemma_mod_add_sub(end - addr, need, m);
    lemma_carvable::<C>(end, excess);
    let size = carvable::<C>(end, excess).0;
    if !(excess < C::MIN_ALIGN || (count >= C::CARVE_MAX && block_exact::<C>(end - addr)) || size
        <= 0) {
        let b = Block { addr: end - size, size };
        assert(st.clear(b.addr, b.end()));
        lemma_push::<C>(st, b);
        lemma_placed::<C>(b);
        let st2 = st.push::<C>(b);
        assert(st.clear(addr, end - size));
        lemma_carve_tail::<C>(st2, addr, need, end - size, count + 1);
    }
}

/// The largest size that can stand alone is not below any other such size.
pub proof fn lemma_exact_floor<C: Config>(size: int, need: int)
    requires
        valid_config::<C>(),
        size % C::MIN_ALIGN as int == 0,
        0 < need <= size,
        block_exact::<C>(need),
    ensures
        need <= exact_floor::<C>(size) <= size,
        block_exact::<C>(exact_floor::<C>(size)),
        exact_floor::<C>(size) % C::MIN_ALIGN as int == 0,
{
    if !block_exact::<C>(size) {
        let top = oversized::<C>() - 1;
        let k = bin_of::<C>(need);
        lemma_bin_of::<C>(need);
        lemma_class::<C>(k);
        lemma_floor_bin::<C>(size);
        lemma_last_bin_to::<C>(0, size, top);
        let r = last_bin_to::<C>(0, size, top);
        lemma_bin_of_class::<C>(r);
        lemma_class::<C>(r);
        if k <= r {
            lemma_class_order::<C>(k, r);
        } else {
            assert(0int % class_align::<C>(k) == 0);
        }
    }
}

/// Cutting a block in use down to `need` bytes.
pub proof fn lemma_split<C: Config>(st: HeapState, b: Block, need: int)
    requires
        valid_config::<C>(),
        valid_region::<C>(),
        st.wf::<C>(),
        st.holds::<C>(b),
        0 < need <= b.size,
        need % C::MIN_ALIGN as int == 0,
        block_exact::<C>(need),
    ensures
        ({
            let (st2, size) = split::<C>(st, b, need);
            &&& st2.wf::<C>()
            &&& st2.bump == st.bump
            &&& need <= size <= b.size
            &&& st2.holds::<C>(Block { addr: b.addr, size })
            &&& keeps_clear(st, st2, b.addr + need, b.end())
        }),
{
    lemma_placed::<C>(b);
    lemma_mod_add_sub(b.addr, b.size, C::MIN_ALIGN as int);
    if b.size - need >= C::SPLIT_MIN {
        lemma_carve_tail::<C>(st, b.addr, need, b.end(), 0);
        let (st2, end) = carve_tail::<C>(st, b.addr, need, b.end(), 0);
        let size = exact_floor::<C>(end - b.addr);
        lemma_mod_add_sub(end, b.addr, C::MIN_ALIGN as int);
        lemma_exact_floor::<C>(end - b.addr, need);
        lemma_placed_smaller::<C>(b, size);
        assert(st2.clear(b.addr, b.addr + size));
    }
}

/// Raising the bump address keeps the invariant; what lies between is clear.
pub proof fn lemma_raised_bump<C: Config>(st: HeapState, bump: int)
    requires
        valid_config::<C>(),
        st.wf::<C>(),
        st.bump <= bump <= region_end::<C>(),
        bump % C::MIN_ALIGN as int == 0,
    ensures
        st.with_bump(bump).wf::<C>(),
        st.with_bump(bump).clear(st.bump, bump),
{
    let st1 = st.with_bump(bump);
    assert forall|k: int, i: int| st1.has(k, i) implies {
        let c = #[trigger] st1.bins[k][i];
        &&& placed::<C>(c)
        &&& bin_of::<C>(c.size) == k
        &&& payload_start::<C>() <= c.addr
        &&& c.end() <= st.bump
    } by {
        assert(st.has(k, i) && st.bins[k][i] == st1.bins[k][i]);
    }
    assert forall|k: int, i: int, l: int, j: int|
        st1.has(k, i) && st1.has(l, j) && !(k == l && i == j) implies apart(
        #[trigger] st1.bins[k][i],
        #[trigger] st1.bins[l][j],
    ) by {
        assert(st.has(k, i) && st.has(l, j));
        assert(apart(st.bins[k][i], st.bins[l][j]));
    }
}

/// Taking a fresh block from the bump region.
pub proof fn lemma_bump_block<C: Config>(st: HeapState, align: int, size: int)
    requires
        valid_config::<C>(),
        valid_region::<C>(),
        st.wf::<C>(),
        is_pow2(align),
        align >= C::MIN_ALIGN,
        size > 0,
        block_exact::<C>(size),
        size % C::MIN_ALIGN as int == 0,
        align == class_align::<C>(bin_of::<C>(size)),
    ensures
        ({
            let (st2, taken) = bump_block::<C>(st, align, size);
            &&& st2.wf::<C>()
            &&& st2.bump >= st.bump
            &&& taken is None ==> st2 == st
            &&& taken matches Some(b) ==> {
                &&& st2.holds::<C>(b)
                &&& st.bump <= b.addr
                &&& b.end() == st2.bump
            }
            &&& forall|x: int, y: int| #[trigger]
                st.clear(x, y) && y <= st.bump ==> st2.clear(x, y)
        }),
{
    lemma_config_logs::<C>();
    lemma_geometry::<C>();
    let m = C::MIN_ALIGN as int;
    let addr = round_up(st.bump, align);
    crate::bits::lemma_is_pow2(align);
    lemma_round_up(st.bump, align);
    if addr + size <= region_end::<C>() {
        let raised = st.with_bump(addr + size);
        lemma_aligned_down(addr, align, m);
        lemma_mod_add_sub(addr, size, m);
        lemma_raised_bump::<C>(st, addr + size);
        assert(raised.clear(st.bump, addr));
        assert(raised.clear(addr, addr + size));
        lemma_carve_down::<C>(raised, st.bump, addr);
        let st2 = carve_down::<C>(raised, st.bump, addr);
        assert forall|x: int, y: int| #[trigger] st.clear(x, y) && y <= st.bump implies st2.clear(
            x,
            y,
        ) by {
            assert(raised.clear(x, y)) by {
                assert forall|k: int, i: int| raised.has(k, i) implies (#[trigger] raised.bins[k][i]).end()
                    <= x || y <= raised.bins[k][i].addr by {
                    assert(st.has(k, i));
                    assert(st.bins[k][i].end() <= x || y <= st.bins[k][i].addr);
                }
            }
        }
    }
}

/// What the search for the first fit finds.
pub proof fn lemma_first_fit(list: Seq<Block>, need: int, i: int)
    requires
        0 <= i <= list.len(),
    ensures
        i <= first_fit(list, need, i) <= list.len(),
        first_fit(list, need, i) < list.len() ==> list[first_fit(list, need, i)].size >= need,
        forall|j: int| i <= j < first_fit(list, need, i) ==> (#[trigger] list[j]).size < need,
    decreases list.len() - i,
{
    if i < list.len() && list[i].size < need {
        lemma_first_fit(list, need, i + 1);
    }
}

/// What allocating does, whichever way the block is found.
pub open spec fn serves<C: Config>(
    st: HeapState,
    st2: HeapState,
    taken: Option<Block>,
    total: int,
) -> bool {
    &&& st2.wf::<C>()
    &&& st2.bump >= st.bump
    &&& taken is None ==> st2 == st
    &&& taken matches Some(b) ==> {
        &&& b.size >= total
        &&& st2.holds::<C>(b)
    }
    &&& forall|c: Block| #[trigger]
        st.holds::<C>(c) ==> st2.holds::<C>(c) && (taken matches Some(b) ==> apart(b, c))
}

/// Taking a block of a fixed bin.
pub proof fn lemma_take_fixed<C: Config>(st: HeapState, k: int)
    requires
        valid_config::<C>(),
        valid_region::<C>(),
        st.wf::<C>(),
        0 <= k < oversized::<C>(),
        !odd_bin::<C>(k),
    ensures
        ({
            let (st2, taken) = take_fixed::<C>(st, k);
            &&& serves::<C>(st, st2, taken, class_size::<C>(k))
            &&& taken matches Some(b) ==> b.size == class_size::<C>(k)
        }),
{
    lemma_bin_counts::<C>();
    lemma_bin_of_class::<C>(k);
    lemma_class::<C>(k);
    let (st2, taken) = take_fixed::<C>(st, k);
    if st.bins[k].len() > 0 {
        assert(st.has(k, 0));
        lemma_remove::<C>(st, k, 0);
        let b = st.bins[k][0];
        assert(placed::<C>(b) && bin_of::<C>(b.size) == k);
        lemma_bin_of::<C>(b.size);
    } else {
        lemma_bump_block::<C>(st, class_align::<C>(k), class_size::<C>(k));
        assert forall|c: Block| #[trigger] st.holds::<C>(c) implies st2.holds::<C>(c) && (
        taken matches Some(b) ==> apart(b, c)) by {
            assert(st.clear(c.addr, c.end()));
        }
    }
}

/// Taking an oversized block.
pub proof fn lemma_take_oversized<C: Config>(st: HeapState, need: int)
    requires
        valid_config::<C>(),
        valid_region::<C>(),
        st.wf::<C>(),
        need > C::EXP_CEIL,
        need % C::MIN_ALIGN as int == 0,
    ensures
        ({
            let (st2, taken) = take_oversized::<C>(st, need);
            serves::<C>(st, st2, taken, need)
        }),
{
    lemma_bin_counts::<C>();
    lemma_bin_of::<C>(need);
    let k = oversized::<C>();
    lemma_align_order::<C>(k, k);
    let (st2, taken) = take_oversized::<C>(st, need);
    lemma_first_fit(st.bins[k], need, 0);
    let i = first_fit(st.bins[k], need, 0);
    if i < st.bins[k].len() {
        assert(st.has(k, i));
        lemma_remove::<C>(st, k, i);
        let b = st.bins[k][i];
        let st1 = st.remove(k, i);
        lemma_split::<C>(st1, b, need);
        assert forall|c: Block| #[trigger] st.holds::<C>(c) implies st2.holds::<C>(c) && (
        taken matches Some(t) ==> apart(t, c)) by {
            assert(st1.holds::<C>(c));
            assert(st1.clear(c.addr, c.end()));
        }
    } else {
        lemma_bump_block::<C>(st, C::EXP_CEIL as int, need);
        assert forall|c: Block| #[trigger] st.holds::<C>(c) implies st2.holds::<C>(c) && (
        taken matches Some(t) ==> apart(t, c)) by {
            assert(st.clear(c.addr, c.end()));
        }
    }
}

/// What a request needs: room for the payload and the header, in multiples of
/// `MIN_ALIGN`.
pub proof fn lemma_need<C: Config>(size: int)
    requires
        valid_config::<C>(),
        size >= 0,
    ensures
        need_of::<C>(size) % C::MIN_ALIGN as int == 0,
        size + C::MIN_ALIGN <= need_of::<C>(size) < size + 2 * C::MIN_ALIGN,
        request_size::<C>(size) >= need_of::<C>(size),
        block_exact::<C>(request_size::<C>(size)),
        request_size::<C>(size) % C::MIN_ALIGN as int == 0,
        need_of::<C>(size) <= C::EXP_CEIL ==> {
            let k = bin_of::<C>(need_of::<C>(size));
            &&& 0 <= k < oversized::<C>()
            &&& !odd_bin::<C>(k)
            &&& bin_of::<C>(request_size::<C>(size)) == k
        },
{
    lemma_config_logs::<C>();
    let m = C::MIN_ALIGN as int;
    lemma_round_up(size, m);
    vstd::arithmetic::div_mod::lemma_mod_multiples_basic(1, m);
    lemma_mod_add_sub(round_up(size, m), m, m);
    let need = need_of::<C>(size);
    lemma_bin_of::<C>(need);
    if need <= C::EXP_CEIL {
        lemma_bin_of_multiple::<C>(need);
        lemma_class::<C>(bin_of::<C>(need));
    }
}

/// Allocation keeps the invariant. A block that is handed out has room for the
/// request and its header, and overlaps no free block and no block handed out
/// before; all of those stay as they were. Without a block nothing changes.
pub proof fn lemma_allocated<C: Config>(st: HeapState, size: int)
    requires
        valid_config::<C>(),
        valid_region::<C>(),
        st.wf::<C>(),
        size >= 0,
    ensures
        ({
            let (st2, taken) = allocated::<C>(st, size);
            &&& serves::<C>(st, st2, taken, request_size::<C>(size))
            &&& need_of::<C>(size) <= C::EXP_CEIL ==> (taken matches Some(b)
                ==> b.size == request_size::<C>(size))
        }),
{
    reveal(allocated);
    lemma_need::<C>(size);
    let need = need_of::<C>(size);
    if need > u64::MAX {
    } else if need > C::EXP_CEIL {
        lemma_take_oversized::<C>(st, need);
    } else {
        lemma_take_fixed::<C>(st, bin_of::<C>(need));
    }
}

} // verus!
