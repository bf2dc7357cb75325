//! What callers are promised, whatever way the allocator goes about it.
//!
//! The laws here say what an operation yields in terms of the constants of the
//! configuration, the bounds of the region, the free lists and the bump address: what
//! the size classes are, when a request succeeds, which block serves it, what a cut
//! block gives back, and what stays as it was.

use crate::bits::{
    lemma_is_pow2, lemma_mod_add_sub, lemma_multiples_close, lemma_round_up, log2, round_up,
};
use crate::classes::{
    bin_of, block_exact, carvable, class_align, class_size, last_bin_to, lemma_bin_of,
    lemma_boundary_order, lemma_class, lemma_class_order, lemma_last_bin_to, lemma_octave, need_of,
    odd_bin, oversized, request_size,
};
use crate::config::{
    bin_total, first_violation, heap_base_is, heap_size_is, lemma_bin_counts, lemma_config_logs,
    region_base, region_end, region_size, stable_region, valid_config, Config,
};
use crate::effects::{allocs, frees, reallocs};
use crate::fingerprint::{fingerprint, MAGIC};
use crate::global::{resized, served};
use crate::invariants::{
    lemma_align_order, lemma_allocated, lemma_bump_block, lemma_carvable, lemma_carve_tail,
    lemma_exact_floor, lemma_first_fit, lemma_need, lemma_placed, lemma_push, lemma_raised_bump,
    lemma_remove, lemma_split,
};
use crate::memory::{
    bump_at, fingerprint_at, front, front_of, head_at, in_use, initialized, lemma_retagged_fits,
    list_start, lock_at, magic_at, prepared, represents, retagged, state_of,
};
use crate::slice::Slice;
use crate::state::{
    allocated, bump_block, carve_down, carve_tail, exact_floor, first_fit, lemma_bin_of_class,
    lemma_geometry, payload_start, split, valid_region, Block, HeapState,
};
use crate::words::{stack_popped, stack_pushed, zeroed};
use vstd::arithmetic::power2::{is_pow2, pow2};
use vstd::prelude::*;

verus! {

// --- sizes ------------------------------------------------------------------

/// Rounding up gives the smallest multiple that is not below the number.
pub proof fn law_rounding_up_is_least(x: int, align: int, y: int)
    requires
        align > 0,
        x <= y,
        y % align == 0,
    ensures
        round_up(x, align) % align == 0,
        x <= round_up(x, align) <= y,
{
    lemma_round_up(x, align);
    if y < round_up(x, align) {
        lemma_multiples_close(round_up(x, align), y, align);
    }
}

/// A request needs the smallest multiple of `MIN_ALIGN` that holds its bytes and a
/// header of `MIN_ALIGN` bytes.
pub proof fn law_need_is_least<C: Config>(size: int, total: int)
    requires
        valid_config::<C>(),
        total >= size + C::MIN_ALIGN,
        total % C::MIN_ALIGN as int == 0,
    ensures
        size + C::MIN_ALIGN <= need_of::<C>(size) <= total,
        need_of::<C>(size) % C::MIN_ALIGN as int == 0,
{
    let m = C::MIN_ALIGN as int;
    lemma_round_up(size, m);
    vstd::arithmetic::div_mod::lemma_mod_multiples_basic(1, m);
    lemma_mod_add_sub(round_up(size, m), m, m);
    if total < need_of::<C>(size) {
        lemma_multiples_close(need_of::<C>(size), total, m);
    }
}

/// The classes: from `LNR_FLOOR` to below `EXP_FLOOR` in steps of `MIN_ALIGN`, then
/// `2^n` and `3 * 2^(n - 1)` for every octave from `EXP_FLOOR` on, the last of them
/// `EXP_CEIL`. The one that is no multiple of `MIN_ALIGN` is rounded up to one.
pub proof fn law_classes_are<C: Config>(bin: int)
    requires
        valid_config::<C>(),
        0 <= bin < oversized::<C>(),
    ensures
        ({
            let linear = (C::EXP_FLOOR - C::LNR_FLOOR) / C::MIN_ALIGN as int;
            let j = bin - linear;
            let base = C::EXP_FLOOR * pow2((j / 2) as nat);
            &&& bin < linear ==> class_size::<C>(bin) == C::LNR_FLOOR + bin * C::MIN_ALIGN
            &&& bin >= linear && j % 2 == 0 ==> class_size::<C>(bin) == base
            &&& bin >= linear && j % 2 == 1 ==> class_size::<C>(bin) == round_up(
                base + base / 2,
                C::MIN_ALIGN as int,
            )
            &&& class_size::<C>(oversized::<C>() - 1) == C::EXP_CEIL
            &&& class_size::<C>(0) == C::LNR_FLOOR
            &&& bin_total::<C>() == oversized::<C>() + 1
        }),
{
    let top = oversized::<C>() - 1;
    lemma_bin_counts::<C>();
    lemma_class::<C>(bin);
    lemma_class::<C>(top);
    lemma_class::<C>(0);
    crate::classes::lemma_boundary_step::<C>(bin);
    crate::classes::lemma_boundary_step::<C>(top);
    crate::classes::lemma_boundary_step::<C>(0);
    if odd_bin::<C>(top) {
        lemma_octave::<C>(top);
    }
}

/// The alignments: `MIN_ALIGN` for the linear classes, half the octave for the others
/// but never below `MIN_ALIGN`, and `EXP_CEIL` for oversized blocks.
pub proof fn law_alignments_are<C: Config>(bin: int)
    requires
        valid_config::<C>(),
        0 <= bin <= oversized::<C>(),
    ensures
        ({
            let linear = (C::EXP_FLOOR - C::LNR_FLOOR) / C::MIN_ALIGN as int;
            let base = C::EXP_FLOOR * pow2(((bin - linear) / 2) as nat);
            &&& bin < linear ==> class_align::<C>(bin) == C::MIN_ALIGN
            &&& linear <= bin < oversized::<C>() ==> class_align::<C>(bin) == (if base / 2
                >= C::MIN_ALIGN {
                base / 2
            } else {
                C::MIN_ALIGN as int
            })
            &&& class_align::<C>(oversized::<C>()) == C::EXP_CEIL
        }),
{
    lemma_bin_counts::<C>();
}

/// A request is served with a block of the smallest class that holds what it needs,
/// and with exactly what it needs if that is above `EXP_CEIL`.
pub proof fn law_request_is_least<C: Config>(size: int, bin: int)
    requires
        valid_config::<C>(),
        0 <= size,
    ensures
        need_of::<C>(size) > C::EXP_CEIL ==> request_size::<C>(size) == need_of::<C>(size)
            && bin_of::<C>(need_of::<C>(size)) == oversized::<C>(),
        need_of::<C>(size) <= C::EXP_CEIL ==> {
            let k = bin_of::<C>(need_of::<C>(size));
            &&& 0 <= k < oversized::<C>()
            &&& request_size::<C>(size) == class_size::<C>(k)
            &&& need_of::<C>(size) <= request_size::<C>(size)
            &&& 0 <= bin < oversized::<C>() && class_size::<C>(bin) >= need_of::<C>(size)
                ==> request_size::<C>(size) <= class_size::<C>(bin)
        },
{
    let need = need_of::<C>(size);
    let k = bin_of::<C>(need);
    lemma_need::<C>(size);
    lemma_bin_of::<C>(need);
    if need <= C::EXP_CEIL && 0 <= bin < oversized::<C>() && class_size::<C>(bin) >= need {
        lemma_class::<C>(bin);
        lemma_class::<C>(k);
        if k <= bin {
            lemma_class_order::<C>(k, bin);
        } else {
            if bin < k - 1 {
                lemma_boundary_order::<C>(bin, k - 1);
            }
            // The boundary of `bin` is below the need and its class is not, so it is
            // the one that is rounded up.
            assert(odd_bin::<C>(bin));
            if bin + 1 < k - 1 {
                lemma_boundary_order::<C>(bin + 1, k - 1);
            }
            lemma_multiples_close(need, 2 * C::MIN_ALIGN, C::MIN_ALIGN as int);
        }
    }
}

// --- carving ----------------------------------------------------------------

/// A block of `size` bytes can stand alone: it is oversized, or of a class.
#[verifier::opaque]
pub open spec fn stands_alone<C: Config>(size: int) -> bool {
    size > C::EXP_CEIL || exists|bin: int|
        0 <= bin < oversized::<C>() && #[trigger] class_size::<C>(bin) == size
}

/// How large an oversized block is that ends at `end` and starts at the first multiple
/// of `EXP_CEIL` of the last `len` bytes.
pub open spec fn oversized_part<C: Config>(end: int, len: int) -> int {
    end - round_up(end - len, C::EXP_CEIL as int)
}

/// A block of the class fits in the last `len` bytes before `end`.
pub open spec fn class_fits<C: Config>(end: int, len: int, bin: int) -> bool {
    0 <= bin < oversized::<C>() && class_size::<C>(bin) <= len && end % class_align::<C>(bin) == 0
}

/// No block can be made of the last `len` bytes before `end`.
#[verifier::opaque]
pub open spec fn nothing_fits<C: Config>(end: int, len: int) -> bool {
    &&& len > C::EXP_CEIL ==> oversized_part::<C>(end, len) <= C::EXP_CEIL
    &&& forall|bin: int| !#[trigger] class_fits::<C>(end, len, bin)
}

/// The largest block that can be made of the last `len` bytes before `end`, so that it
/// ends there, has `size` bytes: the oversized part of them where there is one, and
/// else the largest class that fits.
#[verifier::opaque]
pub open spec fn is_largest<C: Config>(end: int, len: int, size: int) -> bool {
    if len > C::EXP_CEIL && oversized_part::<C>(end, len) > C::EXP_CEIL {
        size == oversized_part::<C>(end, len)
    } else {
        &&& exists|bin: int| #[trigger]
            class_fits::<C>(end, len, bin) && class_size::<C>(bin) == size
        &&& forall|bin: int| #[trigger]
            class_fits::<C>(end, len, bin) ==> class_size::<C>(bin) <= size
    }
}

/// A size can stand alone exactly if it goes to a bin of its own class.
proof fn lemma_stands_alone<C: Config>(size: int)
    requires
        valid_config::<C>(),
    ensures
        stands_alone::<C>(size) <==> block_exact::<C>(size),
{
    reveal(stands_alone);
    lemma_bin_of::<C>(size);
    if size <= C::EXP_CEIL {
        if block_exact::<C>(size) {
            assert(class_size::<C>(bin_of::<C>(size)) == size);
        }
        if stands_alone::<C>(size) {
            let bin = choose|bin: int|
                0 <= bin < oversized::<C>() && #[trigger] class_size::<C>(bin) == size;
            lemma_bin_of_class::<C>(bin);
        }
    }
}

/// What can be carved is the largest block that can be made, and nothing exactly if
/// none can.
pub proof fn law_carvable_is_largest<C: Config>(end: int, len: int)
    requires
        valid_config::<C>(),
        0 <= len <= end,
    ensures
        ({
            let size = carvable::<C>(end, len).0;
            &&& size > 0 ==> is_largest::<C>(end, len, size)
            &&& size <= 0 <==> nothing_fits::<C>(end, len)
        }),
{
    reveal(is_largest);
    reveal(nothing_fits);
    let size = carvable::<C>(end, len).0;
    let z = C::EXP_CEIL as int;
    let top = oversized::<C>() - 1;
    lemma_bin_counts::<C>();
    lemma_config_logs::<C>();
    if !(len > z && oversized_part::<C>(end, len) > z) {
        let cap = if len > z { z } else { len };
        lemma_last_bin_to::<C>(end, cap, top);
        let r = last_bin_to::<C>(end, cap, top);
        assert forall|bin: int| #[trigger] class_fits::<C>(end, len, bin) implies r >= 0
            && class_size::<C>(bin) <= size by {
            lemma_class::<C>(bin);
            if bin <= r {
                lemma_class_order::<C>(bin, r);
            }
        }
        if r >= 0 {
            lemma_class::<C>(r);
            assert(class_fits::<C>(end, len, r));
        }
    }
}

/// Where the stretch ends that is left once the first `i` pieces are cut off its end.
pub open spec fn left_after(pieces: Seq<Block>, end: int, i: int) -> int {
    if i <= 0 {
        end
    } else {
        pieces[i - 1].addr
    }
}

/// The pieces are cut off the end of the stretch `[from, end)`, one below the other,
/// each the largest that can be.
#[verifier::opaque]
pub open spec fn cut_off<C: Config>(pieces: Seq<Block>, from: int, end: int) -> bool {
    forall|i: int|
        0 <= i < pieces.len() ==> {
            let b = #[trigger] pieces[i];
            let e = left_after(pieces, end, i);
            &&& b.size > 0
            &&& from <= b.addr
            &&& b.end() == e
            &&& is_largest::<C>(e, e - from, b.size)
        }
}

/// The free lists once the pieces have been put in front of the lists of their classes,
/// one after the other.
pub open spec fn lists_with<C: Config>(bins: Seq<Seq<Block>>, pieces: Seq<Block>) -> Seq<
    Seq<Block>,
>
    decreases pieces.len(),
{
    if pieces.len() == 0 {
        bins
    } else {
        let before = lists_with::<C>(bins, pieces.drop_last());
        let b = pieces.last();
        let k = bin_of::<C>(b.size);
        before.update(k, seq![b] + before[k])
    }
}

proof fn lemma_lists_with_first<C: Config>(bins: Seq<Seq<Block>>, b: Block, rest: Seq<Block>)
    ensures
        ({
            let k = bin_of::<C>(b.size);
            lists_with::<C>(bins, seq![b] + rest) == lists_with::<C>(
                bins.update(k, seq![b] + bins[k]),
                rest,
            )
        }),
    decreases rest.len(),
{
    let all = seq![b] + rest;
    let k = bin_of::<C>(b.size);
    if rest.len() == 0 {
        assert(all.drop_last() =~= Seq::<Block>::empty());
        assert(all.last() == b);
        assert(lists_with::<C>(bins, all.drop_last()) == bins);
    } else {
        assert(all.drop_last() =~= seq![b] + rest.drop_last());
        assert(all.last() == rest.last());
        lemma_lists_with_first::<C>(bins, b, rest.drop_last());
    }
}

/// Pieces below a first one.
proof fn lemma_cut_off_first<C: Config>(b: Block, rest: Seq<Block>, from: int, end: int)
    requires
        cut_off::<C>(rest, from, b.addr),
        b.size > 0,
        from <= b.addr,
        b.end() == end,
        is_largest::<C>(end, end - from, b.size),
    ensures
        cut_off::<C>(seq![b] + rest, from, end),
        forall|i: int|
            1 <= i <= rest.len() + 1 ==> #[trigger] left_after(seq![b] + rest, end, i)
                == left_after(rest, b.addr, i - 1),
{
    reveal(cut_off);
    let all = seq![b] + rest;
    assert forall|i: int| 1 <= i <= rest.len() + 1 implies #[trigger] left_after(all, end, i)
        == left_after(rest, b.addr, i - 1) by {}
    assert forall|i: int| 0 <= i < all.len() implies {
        let c = #[trigger] all[i];
        let e = left_after(all, end, i);
        &&& c.size > 0
        &&& from <= c.addr
        &&& c.end() == e
        &&& is_largest::<C>(e, e - from, c.size)
    } by {
        if i > 0 {
            assert(all[i] == rest[i - 1]);
            assert(left_after(all, end, i) == left_after(rest, b.addr, i - 1));
        }
    }
}

/// What carving a gap frees.
proof fn lemma_gap_pieces<C: Config>(st: HeapState, lo: int, end: int) -> (pieces: Seq<Block>)
    requires
        valid_config::<C>(),
        valid_region::<C>(),
        st.wf::<C>(),
        payload_start::<C>() <= lo <= end <= st.bump,
        lo % C::MIN_ALIGN as int == 0,
        end % C::MIN_ALIGN as int == 0,
        st.clear(lo, end),
    ensures
        carve_down::<C>(st, lo, end).bins == lists_with::<C>(st.bins, pieces),
        carve_down::<C>(st, lo, end).bump == st.bump,
        cut_off::<C>(pieces, lo, end),
        ({
            let e = left_after(pieces, end, pieces.len() as int);
            lo <= e <= end && nothing_fits::<C>(e, e - lo)
        }),
    decreases end - lo,
{
    lemma_config_logs::<C>();
    lemma_geometry::<C>();
    crate::memory::lemma_addresses::<C>();
    lemma_mod_add_sub(end, lo, C::MIN_ALIGN as int);
    lemma_carvable::<C>(end, end - lo);
    law_carvable_is_largest::<C>(end, end - lo);
    let size = carvable::<C>(end, end - lo).0;
    if end - lo < C::MIN_ALIGN || size <= 0 {
        if end - lo < C::MIN_ALIGN {
            lemma_too_small::<C>(end, end - lo);
        }
        assert(cut_off::<C>(Seq::empty(), lo, end)) by {
            reveal(cut_off);
        }
        Seq::empty()
    } else {
        let b = Block { addr: end - size, size };
        assert(st.clear(b.addr, b.end()));
        lemma_push::<C>(st, b);
        lemma_placed::<C>(b);
        assert(st.clear(lo, end - size));
        let rest = lemma_gap_pieces::<C>(st.push::<C>(b), lo, end - size);
        lemma_cut_off_first::<C>(b, rest, lo, end);
        lemma_lists_with_first::<C>(st.bins, b, rest);
        let n = rest.len() as int;
        assert(left_after(seq![b] + rest, end, n + 1) == left_after(rest, b.addr, n));
        seq![b] + rest
    }
}

/// Nothing can be made of less than `MIN_ALIGN` bytes.
proof fn lemma_too_small<C: Config>(end: int, len: int)
    requires
        valid_config::<C>(),
        len < C::MIN_ALIGN,
    ensures
        nothing_fits::<C>(end, len),
{
    reveal(nothing_fits);
    lemma_config_logs::<C>();
    assert forall|bin: int| !#[trigger] class_fits::<C>(end, len, bin) by {
        if 0 <= bin < oversized::<C>() {
            lemma_class::<C>(bin);
        }
    }
}

/// What carving the excess of a block frees.
proof fn lemma_excess_pieces<C: Config>(
    st: HeapState,
    addr: int,
    need: int,
    end: int,
    count: int,
) -> (pieces: Seq<Block>)
    requires
        valid_config::<C>(),
        valid_region::<C>(),
        st.wf::<C>(),
        payload_start::<C>() <= addr,
        0 < need <= end - addr,
        end <= st.bump,
        addr % C::MIN_ALIGN as int == 0,
        need % C::MIN_ALIGN as int == 0,
        end % C::MIN_ALIGN as int == 0,
        st.clear(addr, end),
    ensures
        ({
            let (st2, end2) = carve_tail::<C>(st, addr, need, end, count);
            &&& st2.bins == lists_with::<C>(st.bins, pieces)
            &&& st2.bump == st.bump
            &&& cut_off::<C>(pieces, addr + need, end)
            &&& end2 == left_after(pieces, end, pieces.len() as int)
            &&& addr + need <= end2 <= end
            &&& forall|i: int|
                0 <= i < pieces.len() ==> count + i < C::CARVE_MAX || !stands_alone::<C>(
                    #[trigger] left_after(pieces, end, i) - addr,
                )
            &&& nothing_fits::<C>(end2, end2 - addr - need) || (count + pieces.len()
                >= C::CARVE_MAX && stands_alone::<C>(end2 - addr))
        }),
    decreases end - addr - need,
{
    let m = C::MIN_ALIGN as int;
    let excess = end - addr - need;
    lemma_config_logs::<C>();
    lemma_geometry::<C>();
    crate::memory::lemma_addresses::<C>();
    lemma_mod_add_sub(end, addr, m);
    lemma_mod_add_sub(end - addr, need, m);
    lemma_carvable::<C>(end, excess);
    law_carvable_is_largest::<C>(end, excess);
    lemma_stands_alone::<C>(end - addr);
    let size = carvable::<C>(end, excess).0;
    if excess < C::MIN_ALIGN || (count >= C::CARVE_MAX && block_exact::<C>(end - addr)) || size
        <= 0 {
        if excess < C::MIN_ALIGN {
            lemma_too_small::<C>(end, excess);
        }
        assert(cut_off::<C>(Seq::empty(), addr + need, end)) by {
            reveal(cut_off);
        }
        Seq::empty()
    } else {
        let b = Block { addr: end - size, size };
        assert(st.clear(b.addr, b.end()));
        lemma_push::<C>(st, b);
        lemma_placed::<C>(b);
        assert(st.clear(addr, end - size));
        let st1 = st.push::<C>(b);
        let rest = lemma_excess_pieces::<C>(st1, addr, need, end - size, count + 1);
        lemma_cut_off_first::<C>(b, rest, addr + need, end);
        lemma_lists_with_first::<C>(st.bins, b, rest);
        let all = seq![b] + rest;
        let n = rest.len() as int;
        assert(left_after(all, end, n + 1) == left_after(rest, b.addr, n));
        assert forall|i: int| 0 <= i < all.len() implies count + i < C::CARVE_MAX
            || !stands_alone::<C>(#[trigger] left_after(all, end, i) - addr) by {
            if i > 0 {
                assert(left_after(all, end, i) == left_after(rest, b.addr, i - 1));
            }
        }
        all
    }
}

/// The block `b` is cut down to `kept` bytes, of which `need` are needed, and `pieces`
/// are cut off its end: none if the excess is below `SPLIT_MIN`. Else the largest
/// possible pieces are cut off one after another. It ends where nothing more can be cut
/// off, or after `CARVE_MAX` pieces with what can stand alone, and not before. The block
/// keeps the largest part of what is left that can stand alone.
pub open spec fn gives_back<C: Config>(b: Block, need: int, kept: int, pieces: Seq<Block>) -> bool {
    let n = pieces.len() as int;
    let left = left_after(pieces, b.end(), n) - b.addr;
    if b.size - need < C::SPLIT_MIN {
        kept == b.size && n == 0
    } else {
        &&& cut_off::<C>(pieces, b.addr + need, b.end())
        &&& forall|i: int|
            0 <= i < n ==> i < C::CARVE_MAX || !stands_alone::<C>(
                #[trigger] left_after(pieces, b.end(), i) - b.addr,
            )
        &&& nothing_fits::<C>(b.addr + left, left - need) || (n >= C::CARVE_MAX && stands_alone::<
            C,
        >(left))
        &&& need <= kept <= left <= b.size
        &&& stands_alone::<C>(kept)
        &&& forall|size: int| #[trigger] stands_alone::<C>(size) && size <= left ==> size <= kept
    }
}

/// Cutting a block down gives its excess back.
pub proof fn law_cutting_gives_back<C: Config>(st: HeapState, b: Block, need: int) -> (pieces: Seq<
    Block,
>)
    requires
        valid_config::<C>(),
        valid_region::<C>(),
        st.wf::<C>(),
        st.holds::<C>(b),
        0 < need <= b.size,
        need % C::MIN_ALIGN as int == 0,
        block_exact::<C>(need),
    ensures
        ({
            let (st2, kept) = split::<C>(st, b, need);
            &&& gives_back::<C>(b, need, kept, pieces)
            &&& st2.bins == lists_with::<C>(st.bins, pieces)
            &&& st2.bump == st.bump
            &&& b.size - need >= C::SPLIT_MIN && C::CARVE_MAX > 0 && !nothing_fits::<C>(
                b.end(),
                b.size - need,
            ) ==> kept < b.size
        }),
{
    lemma_placed::<C>(b);
    lemma_mod_add_sub(b.addr, b.size, C::MIN_ALIGN as int);
    if b.size - need < C::SPLIT_MIN {
        Seq::empty()
    } else {
        let pieces = lemma_excess_pieces::<C>(st, b.addr, need, b.end(), 0);
        let n = pieces.len() as int;
        let left = left_after(pieces, b.end(), n) - b.addr;
        lemma_carve_tail::<C>(st, b.addr, need, b.end(), 0);
        lemma_mod_add_sub(left + b.addr, b.addr, C::MIN_ALIGN as int);
        lemma_exact_floor::<C>(left, need);
        let kept = exact_floor::<C>(left);
        lemma_stands_alone::<C>(kept);
        assert forall|size: int| #[trigger] stands_alone::<C>(size) && size <= left implies size
            <= kept by {
            lemma_floor_is_largest::<C>(left, need, size);
        }
        if n > 0 {
            lemma_below_first::<C>(pieces, b.addr + need, b.end(), n);
        }
        pieces
    }
}

/// What is left gets less with every piece.
proof fn lemma_below_first<C: Config>(pieces: Seq<Block>, from: int, end: int, i: int)
    requires
        cut_off::<C>(pieces, from, end),
        1 <= i <= pieces.len(),
    ensures
        left_after(pieces, end, i) < end,
    decreases i,
{
    reveal(cut_off);
    assert(pieces[i - 1].size > 0);
    if i > 1 {
        lemma_below_first::<C>(pieces, from, end, i - 1);
    }
}

/// No size up to `size` that can stand alone is above the largest.
proof fn lemma_floor_is_largest<C: Config>(size: int, need: int, other: int)
    requires
        valid_config::<C>(),
        size % C::MIN_ALIGN as int == 0,
        0 < need <= size,
        block_exact::<C>(need),
        stands_alone::<C>(other),
        other <= size,
    ensures
        other <= exact_floor::<C>(size),
{
    reveal(stands_alone);
    lemma_stands_alone::<C>(size);
    lemma_exact_floor::<C>(size, need);
    if !block_exact::<C>(size) {
        let top = oversized::<C>() - 1;
        let bin = choose|bin: int|
            0 <= bin < oversized::<C>() && #[trigger] class_size::<C>(bin) == other;
        lemma_last_bin_to::<C>(0, size, top);
        let r = last_bin_to::<C>(0, size, top);
        lemma_class::<C>(bin);
        if bin <= r {
            lemma_class_order::<C>(bin, r);
        } else {
            assert(0int % class_align::<C>(bin) == 0) by {
                vstd::arithmetic::div_mod::lemma_small_mod(0, class_align::<C>(bin) as nat);
            }
        }
    }
}

// --- allocating -------------------------------------------------------------

/// Some free block of the bin that serves a request for `size` bytes is large enough.
pub open spec fn free_block_fits<C: Config>(st: HeapState, size: int) -> bool {
    let need = need_of::<C>(size);
    exists|i: int|
        0 <= i < st.bins[bin_of::<C>(need)].len() && (#[trigger] st.bins[bin_of::<C>(need)][i]).size
            >= need
}

/// The region has room above the bump address for a block that serves a request for
/// `size` bytes, at the alignment of its class.
pub open spec fn region_has_room<C: Config>(st: HeapState, size: int) -> bool {
    let k = bin_of::<C>(need_of::<C>(size));
    round_up(st.bump, class_align::<C>(k)) + request_size::<C>(size) <= region_base::<C>()
        + region_size::<C>()
}

/// What serves a request.
proof fn lemma_outcome<C: Config>(st: HeapState, size: int)
    requires
        valid_config::<C>(),
        valid_region::<C>(),
        st.wf::<C>(),
        size >= 0,
        need_of::<C>(size) <= u64::MAX,
    ensures
        ({
            let need = need_of::<C>(size);
            let total = request_size::<C>(size);
            let k = bin_of::<C>(need);
            let align = class_align::<C>(k);
            let i = first_fit(st.bins[k], need, 0);
            let (st2, taken) = allocated::<C>(st, size);
            &&& 0 <= k < st.bins.len()
            &&& total > 0 && total % C::MIN_ALIGN as int == 0 && block_exact::<C>(total)
            &&& bin_of::<C>(total) == k
            &&& is_pow2(align) && align >= C::MIN_ALIGN
            &&& free_block_fits::<C>(st, size) <==> i < st.bins[k].len()
            &&& free_block_fits::<C>(st, size) ==> st.has(k, i) && st.bins[k][i].size >= total && {
                let b = st.bins[k][i];
                if need <= C::EXP_CEIL {
                    i == 0 && b.size == total && (st2, taken) == (st.remove(k, 0), Some(b))
                } else {
                    let (st3, kept) = split::<C>(st.remove(k, i), b, need);
                    (st2, taken) == (st3, Some(Block { addr: b.addr, size: kept }))
                }
            }
            &&& !free_block_fits::<C>(st, size) ==> (st2, taken) == bump_block::<C>(
                st,
                align,
                total,
            )
        }),
{
    let need = need_of::<C>(size);
    let k = bin_of::<C>(need);
    let list = st.bins[k];
    reveal(allocated);
    lemma_need::<C>(size);
    lemma_bin_counts::<C>();
    lemma_bin_of::<C>(need);
    lemma_align_order::<C>(k, k);
    lemma_first_fit(list, need, 0);
    let i = first_fit(list, need, 0);
    if need <= C::EXP_CEIL {
        lemma_class::<C>(k);
        lemma_bin_of_class::<C>(k);
        if list.len() > 0 {
            assert(st.has(k, 0));
            let b = list[0];
            assert(bin_of::<C>(b.size) == k);
            lemma_placed::<C>(b);
            lemma_bin_of::<C>(b.size);
            assert(b.size == class_size::<C>(k));
            assert(first_fit(list, need, 0) == 0);
        }
    }
    if i < list.len() {
        assert(st.has(k, i));
        assert(list[i].size >= need);
    }
    if free_block_fits::<C>(st, size) {
        let j = choose|j: int|
            0 <= j < st.bins[bin_of::<C>(need)].len() && (#[trigger] st.bins[bin_of::<C>(
                need,
            )][j]).size >= need;
        assert(i < list.len());
    }
}

/// A request fails only on exhaustion: no free block of its bin is large enough, and
/// the region has no room above the bump address; or what it needs is above every
/// address. Nothing changes then.
pub proof fn law_request_fails_only_on_exhaustion<C: Config>(
    w: Map<int, u64>,
    w2: Map<int, u64>,
    size: int,
    r: Slice,
)
    requires
        valid_config::<C>(),
        prepared::<C>(w),
        size >= 0,
        allocs::<C>(w, w2, size, r),
    ensures
        r.ptr == 0 <==> {
            ||| need_of::<C>(size) > u64::MAX
            ||| !free_block_fits::<C>(state_of::<C>(w), size) && !region_has_room::<C>(
                state_of::<C>(w),
                size,
            )
        },
        r.ptr == 0 ==> r.len == 0 && w2 == w,
{
    let st = state_of::<C>(w);
    assert(represents::<C>(w, st));
    lemma_fails_only::<C>(st, size);
}

/// A request that a free block of its bin is large enough for takes the first such
/// block of the list, wherever in the list that is, and leaves the bump address alone.
/// A block of a class is taken whole. An oversized one is cut down to what is needed,
/// and its excess goes to the free lists.
pub proof fn law_request_takes_the_first_fit<C: Config>(
    w: Map<int, u64>,
    w2: Map<int, u64>,
    size: int,
    r: Slice,
    i: int,
) -> (pieces: Seq<Block>)
    requires
        valid_config::<C>(),
        prepared::<C>(w),
        size >= 0,
        need_of::<C>(size) <= u64::MAX,
        allocs::<C>(w, w2, size, r),
        ({
            let list = state_of::<C>(w).bins[bin_of::<C>(need_of::<C>(size))];
            &&& 0 <= i < list.len()
            &&& list[i].size >= need_of::<C>(size)
            &&& forall|j: int| 0 <= j < i ==> (#[trigger] list[j]).size < need_of::<C>(size)
        }),
    ensures
        ({
            let st = state_of::<C>(w);
            let st2 = state_of::<C>(w2);
            let need = need_of::<C>(size);
            let k = bin_of::<C>(need);
            let b = st.bins[k][i];
            let rest = st.bins.update(k, st.bins[k].remove(i));
            let kept = r.len + C::MIN_ALIGN;
            &&& r.ptr == b.addr + C::MIN_ALIGN
            &&& need <= kept <= b.size
            &&& st2.bump == st.bump
            &&& st2.bins == lists_with::<C>(rest, pieces)
            &&& need <= C::EXP_CEIL ==> i == 0 && kept == b.size && pieces.len() == 0
            &&& need > C::EXP_CEIL ==> gives_back::<C>(b, need, kept, pieces)
            &&& need > C::EXP_CEIL && b.size - need >= C::SPLIT_MIN && C::CARVE_MAX > 0
                && !nothing_fits::<C>(b.end(), b.size - need) ==> kept < b.size
        }),
{
    let st = state_of::<C>(w);
    let need = need_of::<C>(size);
    let k = bin_of::<C>(need);
    let b = st.bins[k][i];
    assert(represents::<C>(w, st));
    lemma_outcome::<C>(st, size);
    lemma_need::<C>(size);
    lemma_first_fit(st.bins[k], need, 0);
    assert(free_block_fits::<C>(st, size));
    assert(first_fit(st.bins[k], need, 0) == i);
    assert(st.has(k, i));
    lemma_remove::<C>(st, k, i);
    lemma_placed::<C>(b);
    if need <= C::EXP_CEIL {
        Seq::empty()
    } else {
        lemma_split::<C>(st.remove(k, i), b, need);
        law_cutting_gives_back::<C>(st.remove(k, i), b, need)
    }
}

/// A request that no free block serves takes a block right above the bump address, at
/// the first address with the alignment of its class, and moves the bump address past
/// it. The gap in between goes to the free lists, cut into the largest possible pieces,
/// until nothing more can be cut off.
pub proof fn law_request_takes_a_fresh_block<C: Config>(
    w: Map<int, u64>,
    w2: Map<int, u64>,
    size: int,
    r: Slice,
) -> (pieces: Seq<Block>)
    requires
        valid_config::<C>(),
        prepared::<C>(w),
        size >= 0,
        need_of::<C>(size) <= u64::MAX,
        allocs::<C>(w, w2, size, r),
        !free_block_fits::<C>(state_of::<C>(w), size),
        region_has_room::<C>(state_of::<C>(w), size),
    ensures
        ({
            let st = state_of::<C>(w);
            let st2 = state_of::<C>(w2);
            let addr = round_up(st.bump, class_align::<C>(bin_of::<C>(need_of::<C>(size))));
            let e = left_after(pieces, addr, pieces.len() as int);
            &&& r.ptr == addr + C::MIN_ALIGN
            &&& r.len == request_size::<C>(size) - C::MIN_ALIGN
            &&& st2.bump == addr + request_size::<C>(size)
            &&& st2.bins == lists_with::<C>(st.bins, pieces)
            &&& cut_off::<C>(pieces, st.bump, addr)
            &&& st.bump <= e <= addr
            &&& nothing_fits::<C>(e, e - st.bump)
        }),
{
    let st = state_of::<C>(w);
    let need = need_of::<C>(size);
    let total = request_size::<C>(size);
    let k = bin_of::<C>(need);
    let align = class_align::<C>(k);
    let addr = round_up(st.bump, align);
    assert(represents::<C>(w, st));
    lemma_outcome::<C>(st, size);
    lemma_bump_block::<C>(st, align, total);
    lemma_is_pow2(align);
    lemma_round_up(st.bump, align);
    lemma_config_logs::<C>();
    lemma_geometry::<C>();
    crate::bits::lemma_aligned_down(addr, align, C::MIN_ALIGN as int);
    lemma_mod_add_sub(addr, total, C::MIN_ALIGN as int);
    lemma_raised_bump::<C>(st, addr + total);
    let raised = st.with_bump(addr + total);
    assert(raised.clear(st.bump, addr));
    lemma_placed::<C>(Block { addr, size: total });
    lemma_gap_pieces::<C>(raised, st.bump, addr)
}

/// When a request fails.
proof fn lemma_fails_only<C: Config>(st: HeapState, size: int)
    requires
        valid_config::<C>(),
        valid_region::<C>(),
        st.wf::<C>(),
        size >= 0,
    ensures
        allocated::<C>(st, size).1 is None <==> {
            ||| need_of::<C>(size) > u64::MAX
            ||| !free_block_fits::<C>(st, size) && !region_has_room::<C>(st, size)
        },
        allocated::<C>(st, size).1 matches Some(b) ==> b.addr > 0 && b.end() <= u64::MAX && b.size
            > C::MIN_ALIGN - 1,
{
    lemma_allocated::<C>(st, size);
    lemma_config_logs::<C>();
    crate::memory::lemma_addresses::<C>();
    if need_of::<C>(size) > u64::MAX {
        reveal(allocated);
    } else {
        lemma_outcome::<C>(st, size);
    }
    if allocated::<C>(st, size).1 is Some {
        lemma_placed::<C>(allocated::<C>(st, size).1->Some_0);
    }
}

// --- freeing ----------------------------------------------------------------

/// A block in use that is freed is put in front of the list of its class, and marked
/// free. Every other list, the bump address, and every word but its header, its link
/// and the head of the list stay as they were.
pub proof fn law_free_puts_in_front<C: Config>(w: Map<int, u64>, w2: Map<int, u64>, b: Block)
    requires
        valid_config::<C>(),
        prepared::<C>(w),
        in_use::<C>(w, b),
        frees::<C>(w, w2, b.addr + C::MIN_ALIGN),
    ensures
        ({
            let st = state_of::<C>(w);
            let st2 = state_of::<C>(w2);
            let k = bin_of::<C>(b.size);
            &&& prepared::<C>(w2)
            &&& st2.bump == st.bump
            &&& st2.bins == st.bins.update(k, seq![b] + st.bins[k])
            &&& w2[b.addr] % 16 == 1
            &&& w2[b.addr] - 1 == b.size
            &&& w2.dom() == w.dom()
            &&& forall|a: int|
                #![trigger w2[a]]
                a != b.addr && a != b.addr + 8 && a != region_base::<C>() + 16 + 8 * k ==> w2[a]
                    == w[a]
        }),
{
    let st = state_of::<C>(w);
    assert(represents::<C>(w, st));
    crate::effects::lemma_found::<C>(w, b);
    crate::memory::lemma_block_words::<C>(w, st, b);
    lemma_placed::<C>(b);
}

/// Freeing null, or a block that is marked free, changes nothing.
pub proof fn law_free_refuses<C: Config>(w: Map<int, u64>, w2: Map<int, u64>, ptr: int)
    requires
        frees::<C>(w, w2, ptr),
        ptr == 0 || w[ptr - C::MIN_ALIGN] % 16 == 1,
    ensures
        w2 == w,
{
}

// --- resizing ---------------------------------------------------------------

/// Resizing fails only on exhaustion: where the block is too small for the request, and
/// allocating it fails; or what it needs is above every address. Nothing changes then.
/// A block that is large enough stays where it is.
pub proof fn law_resize_fails_only_on_exhaustion<C: Config>(
    w: Map<int, u64>,
    w2: Map<int, u64>,
    b: Block,
    size: int,
    r: Slice,
)
    requires
        valid_config::<C>(),
        prepared::<C>(w),
        in_use::<C>(w, b),
        size >= 0,
        reallocs::<C>(w, w2, b.addr + C::MIN_ALIGN, size, r),
    ensures
        r.ptr == 0 <==> {
            ||| need_of::<C>(size) > u64::MAX
            ||| {
                &&& b.size < request_size::<C>(size)
                &&& !free_block_fits::<C>(state_of::<C>(w), size)
                &&& !region_has_room::<C>(state_of::<C>(w), size)
            }
        },
        r.ptr == 0 ==> r.len == 0 && w2 == w,
        need_of::<C>(size) <= u64::MAX && b.size >= request_size::<C>(size) ==> r.ptr == b.addr
            + C::MIN_ALIGN,
{
    let st = state_of::<C>(w);
    assert(represents::<C>(w, st));
    crate::effects::lemma_found::<C>(w, b);
    crate::memory::lemma_block_words::<C>(w, st, b);
    lemma_placed::<C>(b);
    lemma_fails_only::<C>(st, size);
    lemma_need::<C>(size);
    lemma_config_logs::<C>();
    if need_of::<C>(size) <= u64::MAX && b.size >= request_size::<C>(size) {
        lemma_split::<C>(st, b, request_size::<C>(size));
    }
}

/// Growing a block is allocating: where the block is too small, resizing it gives the
/// very slice that allocating from the same heap gives, if that gives one, and the
/// block itself is then the first of its list.
pub proof fn law_growing_is_allocating<C: Config>(
    w: Map<int, u64>,
    w1: Map<int, u64>,
    w2: Map<int, u64>,
    b: Block,
    size: int,
    q: Slice,
    r: Slice,
)
    requires
        valid_config::<C>(),
        prepared::<C>(w),
        in_use::<C>(w, b),
        size >= 0,
        b.size < request_size::<C>(size),
        allocs::<C>(w, w1, size, q),
        reallocs::<C>(w, w2, b.addr + C::MIN_ALIGN, size, r),
    ensures
        r == q,
        r.ptr != 0 ==> {
            let st1 = state_of::<C>(w1);
            let st2 = state_of::<C>(w2);
            let k = bin_of::<C>(b.size);
            &&& st2.bump == st1.bump
            &&& st2.bins == st1.bins.update(k, seq![b] + st1.bins[k])
        },
{
    let st = state_of::<C>(w);
    assert(represents::<C>(w, st));
    crate::effects::lemma_found::<C>(w, b);
    lemma_placed::<C>(b);
    reveal(allocated);
}

/// Resizing keeps the contents: every word of the payload that the old block and the
/// new one have room for is the same afterwards.
pub proof fn law_contents_survive<C: Config>(
    w: Map<int, u64>,
    w2: Map<int, u64>,
    b: Block,
    size: int,
    r: Slice,
    i: int,
)
    requires
        valid_config::<C>(),
        prepared::<C>(w),
        in_use::<C>(w, b),
        reallocs::<C>(w, w2, b.addr + C::MIN_ALIGN, size, r),
        r.ptr != 0,
        0 <= i,
        8 * i + 8 <= b.size - C::MIN_ALIGN,
        8 * i + 8 <= r.len,
    ensures
        w2[r.ptr + 8 * i] == w[b.addr + C::MIN_ALIGN + 8 * i],
        r.len >= size,
{
    assert(represents::<C>(w, state_of::<C>(w)));
    crate::effects::lemma_found::<C>(w, b);
    lemma_placed::<C>(b);
    assert(crate::effects::word_from(w2, r.ptr as int, i) == crate::effects::word_from(
        w,
        b.addr + C::MIN_ALIGN,
        i,
    ));
}

/// Shrinking a block gives its excess back.
pub proof fn law_shrinking_gives_back<C: Config>(
    w: Map<int, u64>,
    w2: Map<int, u64>,
    b: Block,
    size: int,
    r: Slice,
) -> (pieces: Seq<Block>)
    requires
        valid_config::<C>(),
        prepared::<C>(w),
        in_use::<C>(w, b),
        size >= 0,
        need_of::<C>(size) <= u64::MAX,
        request_size::<C>(size) <= b.size,
        reallocs::<C>(w, w2, b.addr + C::MIN_ALIGN, size, r),
    ensures
        ({
            let st = state_of::<C>(w);
            let st2 = state_of::<C>(w2);
            let need = request_size::<C>(size);
            let kept = r.len + C::MIN_ALIGN;
            &&& r.ptr == b.addr + C::MIN_ALIGN
            &&& gives_back::<C>(b, need, kept, pieces)
            &&& st2.bins == lists_with::<C>(st.bins, pieces)
            &&& st2.bump == st.bump
            &&& b.size - need >= C::SPLIT_MIN && C::CARVE_MAX > 0 && !nothing_fits::<C>(
                b.end(),
                b.size - need,
            ) ==> kept < b.size
        }),
{
    let st = state_of::<C>(w);
    assert(represents::<C>(w, st));
    crate::effects::lemma_found::<C>(w, b);
    lemma_placed::<C>(b);
    lemma_need::<C>(size);
    lemma_config_logs::<C>();
    lemma_split::<C>(st, b, request_size::<C>(size));
    law_cutting_gives_back::<C>(st, b, request_size::<C>(size))
}

// --- the region -------------------------------------------------------------

/// The region is the one that the configuration names.
pub proof fn law_region_is_the_configured_one<C: Config>(base: u64, size: u64)
    requires
        stable_region::<C>(),
        heap_base_is::<C>(base),
        heap_size_is::<C>(size),
    ensures
        region_base::<C>() == base,
        region_end::<C>() == base + size,
{
}

/// The control words stand at the base of the region, one after another: the marker,
/// the fingerprint, a head for every bin, the bump pointer, and the lock. The payload
/// area starts at the first multiple of `MIN_ALIGN` behind them.
pub proof fn law_control_words_are_in_order<C: Config>(k: int)
    requires
        valid_config::<C>(),
    ensures
        ({
            let base = region_base::<C>();
            let bins = bin_total::<C>();
            &&& magic_at::<C>() == base
            &&& fingerprint_at::<C>() == base + 8
            &&& head_at::<C>(k) == base + 16 + 8 * k
            &&& bump_at::<C>() == base + 16 + 8 * bins
            &&& lock_at::<C>() == base + 24 + 8 * bins
            &&& payload_start::<C>() == base + round_up(32 + 8 * bins, C::MIN_ALIGN as int)
        }),
{
}

/// Preparing a heap writes the control words and no others: the marker and the
/// fingerprint, empty lists, the start of the payload area as the bump address, and a
/// free lock.
pub proof fn law_preparing_writes_the_control_words<C: Config>(
    w: Map<int, u64>,
    w2: Map<int, u64>,
    k: int,
    a: int,
)
    requires
        valid_config::<C>(),
        valid_region::<C>(),
        initialized::<C>(w, w2),
    ensures
        ({
            let base = region_base::<C>();
            let bins = bin_total::<C>();
            &&& w2[base] == 0x434F_4C4C_4144_4143
            &&& w2[base + 8] == fingerprint::<C>()
            &&& 0 <= k < bins ==> w2[base + 16 + 8 * k] == 0
            &&& w2[base + 16 + 8 * bins] == base + round_up(32 + 8 * bins, C::MIN_ALIGN as int)
            &&& w2[base + 24 + 8 * bins] == 0
            &&& a < base || base + 32 + 8 * bins <= a ==> w2[a] == w[a]
            &&& w2.dom() == w.dom()
        }),
{
    lemma_bin_counts::<C>();
    if 0 <= k < bin_total::<C>() {
        assert(w2[head_at::<C>(k)] == 0);
    }
}

/// The words of a prepared heap hold its bump address and the first block of every
/// list, and its lock is free.
pub proof fn law_words_hold_the_state<C: Config>(w: Map<int, u64>, k: int)
    requires
        valid_config::<C>(),
        prepared::<C>(w),
        0 <= k < bin_total::<C>(),
    ensures
        ({
            let st = state_of::<C>(w);
            let base = region_base::<C>();
            let bins = bin_total::<C>();
            let head = w[base + 16 + 8 * k] as int;
            let first = if k < bins - 1 {
                head - head % C::MIN_ALIGN as int
            } else {
                head
            };
            &&& st.bins.len() == bins
            &&& w[base + 16 + 8 * bins] == st.bump
            &&& w[base + 24 + 8 * bins] == 0
            &&& first == (if st.bins[k].len() > 0 {
                st.bins[k][0].addr
            } else {
                0
            })
        }),
{
    let st = state_of::<C>(w);
    assert(represents::<C>(w, st));
    assert(list_start::<C>(w, k) == front(st.bins[k]));
}

/// A slice that is handed out is aligned, has room for the request, lies in the payload
/// area below the end of the region, and stands behind a header that says how long its
/// block is and that it is used. No block in use overlaps it, and none of their words
/// has changed.
pub proof fn law_slices_are_sound<C: Config>(
    w: Map<int, u64>,
    w2: Map<int, u64>,
    size: int,
    r: Slice,
    c: Block,
    a: int,
)
    requires
        valid_config::<C>(),
        prepared::<C>(w),
        size >= 0,
        allocs::<C>(w, w2, size, r),
        r.ptr != 0,
        in_use::<C>(w, c),
    ensures
        r.ptr % C::MIN_ALIGN == 0,
        r.len >= size,
        payload_start::<C>() + C::MIN_ALIGN <= r.ptr,
        r.ptr + r.len <= region_end::<C>(),
        w2[r.ptr - C::MIN_ALIGN] == r.len + C::MIN_ALIGN,
        in_use::<C>(w2, Block { addr: r.ptr - C::MIN_ALIGN, size: r.len + C::MIN_ALIGN }),
        in_use::<C>(w2, c),
        c.end() <= r.ptr - C::MIN_ALIGN || r.ptr + r.len <= c.addr,
        c.addr <= a && a + 8 <= c.end() ==> w2[a] == w[a],
{
    let st = state_of::<C>(w);
    let st2 = state_of::<C>(w2);
    assert(represents::<C>(w, st));
    assert(represents::<C>(w2, st2));
    let b = allocated::<C>(st, size).1->Some_0;
    lemma_placed::<C>(b);
    crate::memory::lemma_block_words::<C>(w2, st2, b);
    assert(crate::memory::keeps_block::<C>(w, w2, c));
}

// --- the stacks -------------------------------------------------------------

/// Every update of the head of a fixed bin advances its tag, and the head names the
/// block.
pub proof fn law_updates_advance_the_tag<C: Config>(head: int, addr: int)
    requires
        valid_config::<C>(),
        head >= 0,
        addr >= 0,
        addr % C::MIN_ALIGN as int == 0,
    ensures
        retagged::<C>(head, addr) % C::MIN_ALIGN as int == (head + 1) % C::MIN_ALIGN as int,
        front_of::<C>(retagged::<C>(head, addr)) == addr,
        front_of::<C>(head) == head - head % C::MIN_ALIGN as int,
{
    let m = C::MIN_ALIGN as int;
    let tag = (head + 1) % m;
    vstd::arithmetic::div_mod::lemma_mod_bound(head + 1, m);
    vstd::arithmetic::div_mod::lemma_add_mod_noop(addr, tag, m);
    vstd::arithmetic::div_mod::lemma_small_mod(tag as nat, m as nat);
}

/// A push makes the block the first of the stack, and links it to the one that was.
/// Only its link and the head change.
pub proof fn law_push_links_the_block<C: Config>(
    w: Map<int, u64>,
    w2: Map<int, u64>,
    k: int,
    block: int,
    a: int,
)
    requires
        valid_config::<C>(),
        0 <= k < oversized::<C>(),
        block > 0,
        block + 8 <= u64::MAX,
        block % C::MIN_ALIGN as int == 0,
        block + 8 != head_at::<C>(k),
        w2 == stack_pushed::<C>(w, k, block),
    ensures
        list_start::<C>(w2, k) == block,
        w2[block + 8] == list_start::<C>(w, k),
        w2[head_at::<C>(k)] as int % C::MIN_ALIGN as int == (w[head_at::<C>(k)] as int + 1)
            % C::MIN_ALIGN as int,
        a != block + 8 && a != head_at::<C>(k) ==> w2[a] == w[a],
{
    let head = w[head_at::<C>(k)] as int;
    law_updates_advance_the_tag::<C>(head, block);
    lemma_retagged_fits::<C>(head, block);
    vstd::arithmetic::div_mod::lemma_mod_bound(head, C::MIN_ALIGN as int);
    vstd::arithmetic::div_mod::lemma_mod_decreases(head as nat, C::MIN_ALIGN as nat);
}

/// A pop makes the block that the first is linked to the first of the stack. Only the
/// head changes.
pub proof fn law_pop_unlinks_the_first<C: Config>(
    w: Map<int, u64>,
    w2: Map<int, u64>,
    k: int,
    a: int,
)
    requires
        valid_config::<C>(),
        0 <= k < oversized::<C>(),
        w[list_start::<C>(w, k) + 8] % C::MIN_ALIGN == 0,
        w2 == stack_popped::<C>(w, k),
    ensures
        list_start::<C>(w2, k) == w[list_start::<C>(w, k) + 8],
        w2[head_at::<C>(k)] as int % C::MIN_ALIGN as int == (w[head_at::<C>(k)] as int + 1)
            % C::MIN_ALIGN as int,
        a != head_at::<C>(k) ==> w2[a] == w[a],
{
    let head = w[head_at::<C>(k)] as int;
    let next = w[list_start::<C>(w, k) + 8] as int;
    law_updates_advance_the_tag::<C>(head, next);
    lemma_retagged_fits::<C>(head, next);
}

// --- the stamp --------------------------------------------------------------

/// The marker spells `CADALLOC` in the bytes of the word, and the fingerprint is mixed
/// from the logarithms of the five powers of two, six bits each, and `CARVE_MAX`.
pub proof fn law_stamp_is<C: Config>()
    requires
        valid_config::<C>(),
    ensures
        MAGIC == 0x434F_4C4C_4144_4143,
        ({
            let logs = (log2(C::MIN_ALIGN as int) + 0x40 * log2(C::LNR_FLOOR as int) + 0x1000
                * log2(C::EXP_FLOOR as int) + 0x4_0000 * log2(C::EXP_CEIL as int) + 0x100_0000
                * log2(C::SPLIT_MIN as int)) as u64;
            let seed = logs ^ C::CARVE_MAX.wrapping_mul(0x9E37_79B9_7F4A_7C15);
            let a = (seed ^ (seed >> 30)).wrapping_mul(0xBF58_476D_1CE4_E5B9);
            let b = (a ^ (a >> 27)).wrapping_mul(0x94D0_49BB_1331_11EB);
            fingerprint::<C>() == b ^ (b >> 31)
        }),
{
}

/// Two layouts have the same fingerprint exactly if all of their constants are the
/// same. Left out are values of `CARVE_MAX` that are `2971215073` or more apart.
pub proof fn law_fingerprints_tell_layouts_apart<C: Config, D: Config>()
    requires
        valid_config::<C>(),
        valid_config::<D>(),
        -2971215073 < C::CARVE_MAX - D::CARVE_MAX < 2971215073,
    ensures
        fingerprint::<C>() == fingerprint::<D>() <==> {
            &&& C::MIN_ALIGN == D::MIN_ALIGN
            &&& C::LNR_FLOOR == D::LNR_FLOOR
            &&& C::EXP_FLOOR == D::EXP_FLOOR
            &&& C::EXP_CEIL == D::EXP_CEIL
            &&& C::SPLIT_MIN == D::SPLIT_MIN
            &&& C::CARVE_MAX == D::CARVE_MAX
        },
{
    crate::fingerprint::lemma_fingerprint_faithful::<C, D>();
}

/// The constants of a configuration are valid exactly if they are powers of two, the
/// sizes in order, and `MIN_ALIGN` above 8; `CARVE_MAX` may be anything.
pub proof fn law_valid_constants<C: Config>()
    ensures
        valid_config::<C>() <==> {
            &&& is_pow2(C::MIN_ALIGN as int) && is_pow2(C::LNR_FLOOR as int)
            &&& is_pow2(C::EXP_FLOOR as int) && is_pow2(C::EXP_CEIL as int)
            &&& is_pow2(C::SPLIT_MIN as int)
            &&& 8 < C::MIN_ALIGN <= C::LNR_FLOOR <= C::EXP_FLOOR <= C::EXP_CEIL
        },
        valid_config::<C>() <==> first_violation::<C>() is None,
{
}

// --- the global allocator ---------------------------------------------------

/// A global allocator is answered as `allocate` answers, unless it asks for more than
/// `MIN_ALIGN`, or the heap does not carry the stamp: then it gets null.
pub proof fn law_global_requests_are_allocations<C: Config>(
    w: Map<int, u64>,
    w2: Map<int, u64>,
    size: int,
    align: int,
    q: Slice,
)
    requires
        allocs::<C>(w, w2, size, q),
    ensures
        served::<C>(w, size, align) == (if align > C::MIN_ALIGN || w[region_base::<C>()]
            != 0x434F_4C4C_4144_4143 || w[region_base::<C>() + 8] != fingerprint::<C>() {
            Slice { ptr: 0, len: 0 }
        } else {
            q
        }),
{
}

/// A global allocator's resizing is `realloc`.
pub proof fn law_global_resizing_is_realloc<C: Config>(
    w: Map<int, u64>,
    w2: Map<int, u64>,
    ptr: int,
    size: int,
    r: Slice,
)
    requires
        reallocs::<C>(w, w2, ptr, size, r),
    ensures
        resized::<C>(w, ptr, size) == r,
{
}

/// Zeroing zeroes the bytes that were asked for and no others, where byte `j` of a word
/// is its `j`th lowest.
pub proof fn law_zeroing_zeroes_the_bytes(w: Map<int, u64>, ptr: int, size: int, a: int)
    requires
        ptr % 8 == 0,
        0 <= size,
    ensures
        ({
            let word = a - a % 8;
            let scale = pow2((8 * (a % 8)) as nat) as int;
            let before = (w[word] as int / scale) % 256;
            let after = (zeroed(w, ptr, size)[word] as int / scale) % 256;
            &&& ptr <= a < ptr + size ==> after == 0
            &&& !(ptr <= a < ptr + size) ==> after == before
        }),
{
    crate::words::lemma_zeroes_bytes(w, ptr, size);
    assert(crate::words::byte_at(zeroed(w, ptr, size), a) == (if ptr <= a < ptr + size {
        0
    } else {
        crate::words::byte_at(w, a)
    }));
}

} // verus!
