//! Size classes: which bin holds which block size, and how blocks are aligned.

use crate::allocator::CadAlloc;
use crate::bits::{
    align_up, exp2, ilog2, lemma_aligned_down, lemma_is_pow2, lemma_log2_order, lemma_mod_add_sub,
    lemma_multiples_close, lemma_pow2_divides, lemma_pow2_is_pow2, lemma_pow2_monotonic,
    lemma_pow2_values, lemma_round_up, lemma_u64_pow2_log, log2, lowest_bit, round_up,
};
use crate::config::{
    bin_total, exp_count, lemma_bin_counts, lemma_config_logs, linear_count, num_bins, num_exp,
    num_linear, valid_config, Config,
};
use vstd::arithmetic::div_mod::{lemma_fundamental_div_mod, lemma_mod_multiples_basic};
use vstd::arithmetic::power2::{
    is_pow2, lemma_pow2_adds, lemma_pow2_strictly_increases, lemma_pow2_unfold, pow2,
};
use vstd::prelude::*;

verus! {

// --- what the classes are ---------------------------------------------------

/// The oversized bin, which follows the bins of the fixed classes.
pub open spec fn oversized<C: Config>() -> int {
    bin_total::<C>() - 1
}

/// The power of two that starts the octave of the exponential bin `bin`.
pub open spec fn octave<C: Config>(bin: int) -> int {
    C::EXP_FLOOR * pow2(((bin - linear_count::<C>()) / 2) as nat)
}

/// The boundary that a fixed bin stands for: the linear steps of `MIN_ALIGN` from
/// `LNR_FLOOR`, then `2^n` and `1.5 * 2^n` for each octave from `EXP_FLOOR`.
pub open spec fn boundary<C: Config>(bin: int) -> int {
    if bin < linear_count::<C>() {
        C::LNR_FLOOR + bin * C::MIN_ALIGN
    } else if (bin - linear_count::<C>()) % 2 == 0 {
        octave::<C>(bin)
    } else {
        octave::<C>(bin) + octave::<C>(bin) / 2
    }
}

/// The total size of every block in a fixed bin: its boundary, as a multiple of
/// `MIN_ALIGN`.
pub open spec fn class_size<C: Config>(bin: int) -> int {
    round_up(boundary::<C>(bin), C::MIN_ALIGN as int)
}

/// The address alignment of every block in a bin: `MIN_ALIGN` for linear bins,
/// half the octave for exponential ones (but never below `MIN_ALIGN`), and
/// `EXP_CEIL` for the oversized bin.
pub open spec fn class_align<C: Config>(bin: int) -> int {
    if bin < linear_count::<C>() {
        C::MIN_ALIGN as int
    } else if bin < oversized::<C>() {
        if octave::<C>(bin) / 2 < C::MIN_ALIGN {
            C::MIN_ALIGN as int
        } else {
            octave::<C>(bin) / 2
        }
    } else {
        C::EXP_CEIL as int
    }
}

/// The first bin from `bin` on whose boundary is at least `size`.
pub open spec fn first_bin_from<C: Config>(size: int, bin: int) -> int
    decreases oversized::<C>() - bin,
{
    if bin >= oversized::<C>() {
        oversized::<C>()
    } else if size <= boundary::<C>(bin) {
        bin
    } else {
        first_bin_from::<C>(size, bin + 1)
    }
}

/// The bin of a block of `size` bytes: the first whose boundary is at least
/// `size`, and the oversized bin when there is none.
pub open spec fn bin_of<C: Config>(size: int) -> int {
    first_bin_from::<C>(size, 0)
}

/// Whether blocks of `size` bytes can stand alone: oversized, or exactly one of
/// the fixed classes.
pub open spec fn block_exact<C: Config>(size: int) -> bool {
    size > C::EXP_CEIL || class_size::<C>(bin_of::<C>(size)) == size
}

/// The last of the bins up to `bin` whose class fits in `cap` bytes and whose
/// alignment `end` meets, or `-1`.
pub open spec fn last_bin_to<C: Config>(end: int, cap: int, bin: int) -> int
    decreases bin + 1,
{
    if bin < 0 {
        -1
    } else if class_size::<C>(bin) <= cap && end % class_align::<C>(bin) == 0 {
        bin
    } else {
        last_bin_to::<C>(end, cap, bin - 1)
    }
}

/// The size and bin of the largest block that can be carved off a region of `len`
/// bytes so that the block ends where the region does, at `end`.
///
/// A region above `EXP_CEIL` gives one oversized block, whose start is the
/// region's rounded up to `EXP_CEIL`; if that would leave no more than `EXP_CEIL`
/// bytes, and for smaller regions, it is the largest fixed class that fits and
/// whose alignment `end` meets. `(0, 0)` if there is none.
pub open spec fn carvable<C: Config>(end: int, len: int) -> (int, int) {
    let whole = end - round_up(end - len, C::EXP_CEIL as int);
    if len > C::EXP_CEIL && whole > C::EXP_CEIL {
        (whole, oversized::<C>())
    } else {
        let cap = if len > C::EXP_CEIL { C::EXP_CEIL as int } else { len };
        let bin = last_bin_to::<C>(end, cap, oversized::<C>() - 1);
        if bin < 0 {
            (0, 0)
        } else {
            (class_size::<C>(bin), bin)
        }
    }
}

/// The total block size that a request for `size` payload bytes needs: the
/// payload rounded up to `MIN_ALIGN`, and a `MIN_ALIGN` header.
pub open spec fn need_of<C: Config>(size: int) -> int {
    round_up(size, C::MIN_ALIGN as int) + C::MIN_ALIGN
}

/// The total size of the block carved for a request of `size` payload bytes: the
/// containing class, or exactly what it needs when oversized.
pub open spec fn request_size<C: Config>(size: int) -> int {
    let need = need_of::<C>(size);
    if need > C::EXP_CEIL {
        need
    } else {
        class_size::<C>(bin_of::<C>(need))
    }
}

/// The one bin whose boundary is no multiple of `MIN_ALIGN`: when there is
/// nothing below the exponential classes, the first octave is `MIN_ALIGN` and
/// its upper half is rounded up to the next octave.
pub open spec fn odd_bin<C: Config>(bin: int) -> bool {
    C::EXP_FLOOR == C::MIN_ALIGN && bin == linear_count::<C>() + 1
}

// --- facts about the classes ------------------------------------------------

/// The octaves are powers of two between `EXP_FLOOR` and `EXP_CEIL`.
pub proof fn lemma_octave<C: Config>(bin: int)
    requires
        valid_config::<C>(),
        linear_count::<C>() <= bin < oversized::<C>(),
    ensures
        is_pow2(octave::<C>(bin)),
        C::EXP_FLOOR <= octave::<C>(bin) <= C::EXP_CEIL,
        octave::<C>(bin) == pow2(
            (log2(C::EXP_FLOOR as int) + (bin - linear_count::<C>()) / 2) as nat,
        ),
        log2(octave::<C>(bin)) == log2(C::EXP_FLOOR as int) + (bin - linear_count::<C>()) / 2,
        is_pow2(octave::<C>(bin) / 2),
        octave::<C>(bin) % 2 == 0,
        octave::<C>(bin) >= 16,
        bin <= linear_count::<C>() + 1 ==> octave::<C>(bin) == C::EXP_FLOOR,
        bin + 1 < oversized::<C>() && (bin - linear_count::<C>()) % 2 == 1 ==> octave::<C>(bin + 1)
            == 2 * octave::<C>(bin) && octave::<C>(bin + 1) <= C::EXP_CEIL,
        bin + 1 < oversized::<C>() && (bin - linear_count::<C>()) % 2 == 0 ==> octave::<C>(bin + 1)
            == octave::<C>(bin),
        bin + 1 < oversized::<C>() ==> octave::<C>(bin) <= C::EXP_CEIL / 2,
        bin + 1 == oversized::<C>() ==> octave::<C>(bin) == C::EXP_CEIL && (bin - linear_count::<
            C,
        >()) % 2 == 0,
{
    lemma_config_logs::<C>();
    lemma_u64_pow2_log(C::EXP_FLOOR);
    lemma_u64_pow2_log(C::EXP_CEIL);
    let f = log2(C::EXP_FLOOR as int);
    let c = log2(C::EXP_CEIL as int);
    let j = bin - linear_count::<C>();
    let o = (j / 2) as nat;
    assert(f + o <= c);
    lemma_pow2_adds(f, o);
    lemma_pow2_is_pow2(f + o);
    lemma_pow2_monotonic(f, f + o);
    lemma_pow2_monotonic(f + o, c);
    lemma_pow2_unfold(f + o);
    lemma_pow2_is_pow2((f + o - 1) as nat);
    lemma_pow2_values();
    lemma_pow2_monotonic(4, f + o);
    assert(octave::<C>(bin) == pow2(f + o));
    if j <= 1 {
        assert(o == 0);
    }
    if bin + 1 < oversized::<C>() {
        assert(f + o + 1 <= c);
        lemma_pow2_unfold(f + o + 1);
        lemma_pow2_adds(f, o + 1);
        lemma_pow2_monotonic(f + o + 1, c);
        if j % 2 == 1 {
            assert((bin + 1 - linear_count::<C>()) / 2 == o + 1);
        } else {
            assert((bin + 1 - linear_count::<C>()) / 2 == o);
        }
    } else {
        assert(f + o == c);
    }
}

/// Each boundary is below the next; the first is `LNR_FLOOR`, the last `EXP_CEIL`.
pub proof fn lemma_boundary_step<C: Config>(bin: int)
    requires
        valid_config::<C>(),
        0 <= bin < oversized::<C>(),
    ensures
        C::LNR_FLOOR <= boundary::<C>(bin) <= C::EXP_CEIL,
        bin + 1 < oversized::<C>() ==> boundary::<C>(bin) < boundary::<C>(bin + 1),
        bin + 1 == oversized::<C>() ==> boundary::<C>(bin) == C::EXP_CEIL,
        bin == 0 ==> boundary::<C>(bin) == C::LNR_FLOOR,
        bin < linear_count::<C>() <==> boundary::<C>(bin) < C::EXP_FLOOR,
        bin < linear_count::<C>() ==> boundary::<C>(bin) <= C::EXP_FLOOR - C::MIN_ALIGN,
        boundary::<C>(bin) % C::MIN_ALIGN as int == 0 || odd_bin::<C>(bin),
{
    lemma_bin_counts::<C>();
    lemma_config_logs::<C>();
    let nl = linear_count::<C>();
    let m = C::MIN_ALIGN as int;
    lemma_pow2_divides(m, C::LNR_FLOOR as int);
    lemma_pow2_divides(m, C::EXP_FLOOR as int);
    if bin < nl {
        assert(bin * m <= (nl - 1) * m) by (nonlinear_arith)
            requires
                bin <= nl - 1,
                m > 0,
        ;
        assert((nl - 1) * m == nl * m - m) by (nonlinear_arith);
        assert((bin + 1) * m == bin * m + m) by (nonlinear_arith);
        assert(bin * m >= 0) by (nonlinear_arith)
            requires
                bin >= 0,
                m > 0,
        ;
        lemma_mod_multiples_basic(bin, m);
        lemma_mod_add_sub(C::LNR_FLOOR as int, bin * m, m);
        if bin + 1 == nl {
            lemma_octave::<C>(nl);
            assert(boundary::<C>(nl) == octave::<C>(nl));
        }
        if bin == 0 {
            assert(0 * m == 0);
        }
    } else {
        lemma_octave::<C>(bin);
        if bin + 1 < oversized::<C>() {
            lemma_octave::<C>(bin + 1);
        }
        let o = octave::<C>(bin);
        lemma_pow2_divides(m, o);
        if (bin - nl) % 2 == 1 {
            if o / 2 >= m {
                lemma_pow2_divides(m, o / 2);
                lemma_mod_add_sub(o, o / 2, m);
            } else {
                // The octave is a power of two between MIN_ALIGN and 2 * MIN_ALIGN.
                lemma_log2_order(m, o);
                lemma_log2_order(m, o / 2);
                lemma_is_pow2(o);
                lemma_is_pow2(o / 2);
                lemma_is_pow2(m);
                lemma_pow2_unfold(log2(o));
                lemma_pow2_is_pow2((log2(o) - 1) as nat);
                assert(log2(o) == log2(m));
                lemma_log2_order(C::EXP_FLOOR as int, o);
                lemma_log2_order(m, C::EXP_FLOOR as int);
                lemma_is_pow2(C::EXP_FLOOR as int);
                assert(C::EXP_FLOOR == m);
                assert((bin - nl) / 2 == 0);
            }
        }
        if bin == 0 {
            assert(nl == 0);
            assert(0 * m == 0);
        }
    }
}

/// The boundaries are strictly increasing.
pub proof fn lemma_boundary_order<C: Config>(a: int, b: int)
    requires
        valid_config::<C>(),
        0 <= a < b < oversized::<C>(),
    ensures
        boundary::<C>(a) < boundary::<C>(b),
    decreases b - a,
{
    lemma_boundary_step::<C>(a);
    if a + 1 < b {
        lemma_boundary_order::<C>(a + 1, b);
    }
}

/// A class is its boundary, but for the odd bin; its size is a multiple of its
/// alignment, which is a power of two from `MIN_ALIGN` to `EXP_CEIL`.
pub proof fn lemma_class<C: Config>(bin: int)
    requires
        valid_config::<C>(),
        0 <= bin < oversized::<C>(),
    ensures
        C::LNR_FLOOR <= boundary::<C>(bin) <= class_size::<C>(bin) <= C::EXP_CEIL,
        !odd_bin::<C>(bin) ==> class_size::<C>(bin) == boundary::<C>(bin),
        odd_bin::<C>(bin) ==> class_size::<C>(bin) == 2 * C::MIN_ALIGN && bin + 1 < oversized::<
            C,
        >() && boundary::<C>(bin + 1) == 2 * C::MIN_ALIGN,
        class_size::<C>(bin) % C::MIN_ALIGN as int == 0,
        is_pow2(class_align::<C>(bin)),
        C::MIN_ALIGN <= class_align::<C>(bin) <= C::EXP_CEIL,
        class_size::<C>(bin) % class_align::<C>(bin) == 0,
{
    lemma_boundary_step::<C>(bin);
    lemma_bin_counts::<C>();
    lemma_config_logs::<C>();
    let m = C::MIN_ALIGN as int;
    let nl = linear_count::<C>();
    lemma_round_up(boundary::<C>(bin), m);
    if bin >= nl {
        lemma_octave::<C>(bin);
        let o = octave::<C>(bin);
        if odd_bin::<C>(bin) {
            assert(boundary::<C>(bin) == m + m / 2);
            assert(m % 2 == 0) by {
                lemma_pow2_values();
                lemma_pow2_is_pow2(1);
                lemma_pow2_divides(2, m);
            }
            lemma_mod_multiples_basic(2, m);
            lemma_multiples_close(class_size::<C>(bin), 2 * m, m);
            assert(bin + 1 < oversized::<C>());
            assert(octave::<C>(bin + 1) == 2 * m);
            assert((bin + 1 - nl) % 2 == 0);
        } else if o / 2 < m {
            // Only the first octave can be that small, and its upper half is odd.
            lemma_log2_order(m, o);
            lemma_is_pow2(o);
            lemma_is_pow2(m);
            lemma_log2_order(m, o / 2);
            lemma_pow2_unfold(log2(o));
            lemma_pow2_is_pow2((log2(o) - 1) as nat);
            lemma_mod_multiples_basic(1, m);
        } else {
            lemma_pow2_divides(o / 2, o);
            lemma_mod_add_sub(o, o / 2, o / 2);
        }
    }
}

/// The classes do not decrease from bin to bin.
pub proof fn lemma_class_order<C: Config>(a: int, b: int)
    requires
        valid_config::<C>(),
        0 <= a <= b < oversized::<C>(),
    ensures
        class_size::<C>(a) <= class_size::<C>(b),
{
    lemma_class::<C>(a);
    lemma_class::<C>(b);
    if a < b {
        lemma_boundary_order::<C>(a, b);
        if odd_bin::<C>(a) && a + 1 < b {
            lemma_boundary_order::<C>(a + 1, b);
        }
    }
}

/// What the search for a bin finds.
proof fn lemma_first_bin_from<C: Config>(size: int, bin: int)
    requires
        valid_config::<C>(),
        0 <= bin <= oversized::<C>(),
        bin > 0 ==> boundary::<C>(bin - 1) < size,
    ensures
        bin <= first_bin_from::<C>(size, bin) <= oversized::<C>(),
        first_bin_from::<C>(size, bin) < oversized::<C>() ==> size <= boundary::<C>(
            first_bin_from::<C>(size, bin),
        ),
        first_bin_from::<C>(size, bin) > 0 ==> boundary::<C>(first_bin_from::<C>(size, bin) - 1)
            < size,
    decreases oversized::<C>() - bin,
{
    if bin < oversized::<C>() && size > boundary::<C>(bin) {
        lemma_first_bin_from::<C>(size, bin + 1);
    }
}

/// The bin of a size is the one whose boundary is the smallest that is at least
/// the size; above `EXP_CEIL` it is the oversized bin.
pub proof fn lemma_bin_of<C: Config>(size: int)
    requires
        valid_config::<C>(),
    ensures
        0 <= bin_of::<C>(size) <= oversized::<C>(),
        bin_of::<C>(size) == oversized::<C>() <==> size > C::EXP_CEIL,
        bin_of::<C>(size) < oversized::<C>() ==> size <= boundary::<C>(bin_of::<C>(size))
            <= class_size::<C>(bin_of::<C>(size)),
        bin_of::<C>(size) > 0 ==> boundary::<C>(bin_of::<C>(size) - 1) < size,
{
    lemma_bin_counts::<C>();
    lemma_first_bin_from::<C>(size, 0);
    lemma_boundary_step::<C>(oversized::<C>() - 1);
    let k = bin_of::<C>(size);
    if k < oversized::<C>() {
        lemma_class::<C>(k);
    }
}

/// A bin whose boundary is at least `size` and whose predecessor's is not is the
/// bin of `size`.
pub proof fn lemma_bin_of_unique<C: Config>(size: int, bin: int)
    requires
        valid_config::<C>(),
        0 <= bin < oversized::<C>(),
        size <= boundary::<C>(bin),
        bin > 0 ==> boundary::<C>(bin - 1) < size,
    ensures
        bin_of::<C>(size) == bin,
{
    lemma_bin_of::<C>(size);
    let k = bin_of::<C>(size);
    lemma_boundary_step::<C>(bin);
    if k < bin {
        if k < bin - 1 {
            lemma_boundary_order::<C>(k, bin - 1);
        }
    } else if k > bin {
        if bin < k - 1 {
            lemma_boundary_order::<C>(bin, k - 1);
        }
    }
}

/// What the search for the last fitting bin finds.
pub proof fn lemma_last_bin_to<C: Config>(end: int, cap: int, bin: int)
    requires
        -1 <= bin,
    ensures
        -1 <= last_bin_to::<C>(end, cap, bin) <= bin,
        last_bin_to::<C>(end, cap, bin) >= 0 ==> {
            let r = last_bin_to::<C>(end, cap, bin);
            class_size::<C>(r) <= cap && end % class_align::<C>(r) == 0
        },
        forall|k: int|
            last_bin_to::<C>(end, cap, bin) < k <= bin ==> !(#[trigger] class_size::<C>(k) <= cap
                && end % class_align::<C>(k) == 0),
    decreases bin + 1,
{
    if bin >= 0 && !(class_size::<C>(bin) <= cap && end % class_align::<C>(bin) == 0) {
        lemma_last_bin_to::<C>(end, cap, bin - 1);
    }
}

/// A bin that fits, above which none does, is what the search finds.
pub proof fn lemma_last_bin_to_unique<C: Config>(end: int, cap: int, bin: int, r: int)
    requires
        -1 <= r <= bin,
        r >= 0 ==> class_size::<C>(r) <= cap && end % class_align::<C>(r) == 0,
        forall|k: int|
            r < k <= bin ==> !(#[trigger] class_size::<C>(k) <= cap && end % class_align::<C>(k)
                == 0),
    ensures
        last_bin_to::<C>(end, cap, bin) == r,
    decreases bin - r,
{
    if r < bin {
        assert(!(class_size::<C>(bin) <= cap && end % class_align::<C>(bin) == 0));
        lemma_last_bin_to_unique::<C>(end, cap, bin - 1, r);
    }
}

/// The largest class that fits in `size` bytes is that of the bin of `size`, or else
/// of the bin before it, or, where that is the odd one and still too large, of the
/// one before.
pub proof fn lemma_floor_bin<C: Config>(size: int)
    requires
        valid_config::<C>(),
        C::LNR_FLOOR <= size <= C::EXP_CEIL,
    ensures
        0 <= bin_of::<C>(size) < oversized::<C>(),
        class_size::<C>(bin_of::<C>(size)) > size ==> bin_of::<C>(size) > 0,
        class_size::<C>(bin_of::<C>(size)) > size && class_size::<C>(bin_of::<C>(size) - 1) > size
            ==> bin_of::<C>(size) > 1,
        last_bin_to::<C>(0, size, oversized::<C>() - 1) == (if class_size::<C>(bin_of::<C>(size))
            <= size {
            bin_of::<C>(size)
        } else if class_size::<C>(bin_of::<C>(size) - 1) <= size {
            bin_of::<C>(size) - 1
        } else {
            bin_of::<C>(size) - 2
        }),
        class_size::<C>(last_bin_to::<C>(0, size, oversized::<C>() - 1)) <= size,
{
    lemma_bin_of::<C>(size);
    lemma_config_logs::<C>();
    lemma_bin_counts::<C>();
    let k = bin_of::<C>(size);
    lemma_class::<C>(k);
    lemma_boundary_step::<C>(k);
    let m = C::MIN_ALIGN as int;
    if k > 0 {
        lemma_class::<C>(k - 1);
    } else {
        lemma_pow2_divides(m, C::LNR_FLOOR as int);
    }
    let r = if class_size::<C>(k) <= size {
        k
    } else if class_size::<C>(k - 1) <= size {
        k - 1
    } else {
        k - 2
    };
    if r == k - 2 {
        // The bin before is the odd one, and the first of all is before that.
        assert(odd_bin::<C>(k - 1));
        assert(linear_count::<C>() == 0) by (nonlinear_arith)
            requires
                linear_count::<C>() * C::MIN_ALIGN == C::EXP_FLOOR - C::LNR_FLOOR,
                C::EXP_FLOOR == C::MIN_ALIGN,
                C::LNR_FLOOR >= C::MIN_ALIGN,
                C::MIN_ALIGN > 0,
                linear_count::<C>() >= 0,
        ;
        lemma_class::<C>(0);
        lemma_boundary_step::<C>(0);
    }
    lemma_class::<C>(r);
    assert(0int % class_align::<C>(r) == 0);
    assert forall|j: int| r < j <= oversized::<C>() - 1 implies !(#[trigger] class_size::<C>(j)
        <= size && 0int % class_align::<C>(j) == 0) by {
        lemma_class::<C>(j);
        if j > k {
            lemma_boundary_order::<C>(k, j);
        }
    }
    lemma_last_bin_to_unique::<C>(0, size, oversized::<C>() - 1, r);
}

/// Alignment to a power of two is a comparison with the lowest set bit.
proof fn lemma_aligned_iff(end: int, low: int, a: int)
    requires
        is_pow2(low),
        is_pow2(a),
        end % low == 0,
        end % (2 * low) != 0,
    ensures
        end % a == 0 <==> a <= low,
{
    if a <= low {
        lemma_aligned_down(end, low, a);
    } else {
        lemma_double(low);
        lemma_log2_order(low, a);
        lemma_log2_order(2 * low, a);
        if end % a == 0 {
            lemma_aligned_down(end, a, 2 * low);
        }
    }
}

/// Twice a power of two is the next one.
pub proof fn lemma_double(x: int)
    requires
        is_pow2(x),
    ensures
        x > 0,
        is_pow2(2 * x),
        log2(2 * x) == log2(x) + 1,
{
    lemma_is_pow2(x);
    lemma_pow2_unfold(log2(x) + 1);
    lemma_pow2_is_pow2(log2(x) + 1);
}

/// A region end meets the alignment of an exponential class exactly if the
/// class is at most three times the lowest set bit of the end.
proof fn lemma_exp_aligned<C: Config>(end: int, low: int, bin: int)
    requires
        valid_config::<C>(),
        linear_count::<C>() <= bin < oversized::<C>(),
        is_pow2(low),
        low >= C::MIN_ALIGN,
        end % low == 0,
        end % (2 * low) != 0,
    ensures
        end % class_align::<C>(bin) == 0 <==> boundary::<C>(bin) <= 3 * low,
        end % class_align::<C>(bin) == 0 <==> class_size::<C>(bin) <= 3 * low,
{
    lemma_octave::<C>(bin);
    lemma_class::<C>(bin);
    lemma_aligned_iff(end, low, class_align::<C>(bin));
    let o = octave::<C>(bin);
    if o > 2 * low {
        lemma_double(low);
        lemma_double(2 * low);
        lemma_log2_order(2 * low, o);
        lemma_log2_order(4 * low, o);
    }
    if odd_bin::<C>(bin) {
        assert(o == C::MIN_ALIGN);
    }
}

// --- the maps ---------------------------------------------------------------

/// Returns the total block size of the size class held by `bin`.
///
/// For the oversized bin (`bin == num_bins() - 1`) there is no fixed class size,
/// so this returns [`u64::MAX`].
pub fn bin_class<C: Config>(bin: u64) -> (r: u64)
    requires
        valid_config::<C>(),
    ensures
        bin < oversized::<C>() ==> r == class_size::<C>(bin as int),
        bin >= oversized::<C>() ==> r == u64::MAX,
{
    proof {
        lemma_bin_counts::<C>();
        lemma_config_logs::<C>();
    }
    let linear = num_linear::<C>();
    if bin < linear {
        proof {
            lemma_class::<C>(bin as int);
            assert(bin * C::MIN_ALIGN <= linear * C::MIN_ALIGN) by (nonlinear_arith)
                requires
                    bin <= linear,
            ;
        }
        C::LNR_FLOOR + bin * C::MIN_ALIGN
    } else if bin < linear + num_exp::<C>() {
        let j: u64 = bin - linear;
        let f = ilog2(C::EXP_FLOOR);
        proof {
            lemma_octave::<C>(bin as int);
            lemma_class::<C>(bin as int);
            lemma_boundary_step::<C>(bin as int);
        }
        let base = exp2(f + j / 2);
        let raw: u64 = if j % 2 == 0 {
            base
        } else {
            base + base / 2
        };
        assert(raw == boundary::<C>(bin as int));
        align_up(raw, C::MIN_ALIGN)
    } else {
        u64::MAX
    }
}

/// Maps a total block `size` to the bin whose class is the smallest that is
/// `>= size` (a ceiling map), or the oversized bin when `size > EXP_CEIL`.
///
/// Because every class value maps to itself, this doubles as the placement map
/// when freeing a block of a known class size.
pub fn bin_index<C: Config>(size: u64) -> (r: u64)
    requires
        valid_config::<C>(),
    ensures
        r == bin_of::<C>(size as int),
{
    proof {
        lemma_bin_counts::<C>();
        lemma_config_logs::<C>();
        lemma_boundary_step::<C>(0);
    }
    let min: u64 = C::MIN_ALIGN;
    if size <= C::LNR_FLOOR {
        proof {
            lemma_bin_of_unique::<C>(size as int, 0);
        }
        0
    } else if size < C::EXP_FLOOR {
        // Smallest linear class >= size: ceil((size - LNR_FLOOR) / MIN_ALIGN).
        // For size just below EXP_FLOOR this yields the first exponential bin
        // (class EXP_FLOOR), which is exactly what fits.
        let d: u64 = size - C::LNR_FLOOR;
        let r: u64 = (d - 1) / min + 1;
        proof {
            let q = (d - 1) as int / min as int;
            lemma_fundamental_div_mod(d - 1, min as int);
            let nl = linear_count::<C>();
            assert(q * min < d && d <= q * min + min) by (nonlinear_arith)
                requires
                    d - 1 == min * q + (d - 1) as int % min as int,
                    0 <= (d - 1) as int % (min as int) < min,
            ;
            assert(q < nl) by (nonlinear_arith)
                requires
                    q * min < d,
                    d < nl * min,
                    min > 0,
            ;
            assert((q + 1) * min == q * min + min) by (nonlinear_arith);
            if q + 1 == nl {
                lemma_boundary_step::<C>(q + 1);
            }
            lemma_bin_of_unique::<C>(size as int, q + 1);
        }
        r
    } else if size <= C::EXP_CEIL {
        let m = ilog2(size);
        let base = exp2(m);
        let f = ilog2(C::EXP_FLOOR);
        proof {
            lemma_u64_pow2_log(C::EXP_FLOOR);
            lemma_u64_pow2_log(C::EXP_CEIL);
            lemma_pow2_is_pow2(m as nat);
            lemma_pow2_unfold(m as nat + 1);
            let c = log2(C::EXP_CEIL as int);
            if m < f {
                lemma_pow2_monotonic(m as nat + 1, f as nat);
            }
            if m > c {
                lemma_pow2_strictly_increases(c, m as nat);
            }
            if m < c {
                lemma_pow2_monotonic(m as nat + 1, c);
            } else {
                assert(size == base);
            }
        }
        let (oct, within): (u64, u64) = if size == base {
            (m - f, 0)
        } else if size <= base + base / 2 {
            (m - f, 1)
        } else {
            (m + 1 - f, 0)
        };
        let r: u64 = num_linear::<C>() + 2 * oct + within;
        proof {
            let nl = linear_count::<C>();
            assert(0 <= r - nl < exp_count::<C>());
            lemma_octave::<C>(r as int);
            lemma_boundary_step::<C>(r as int);
            assert((r - nl) / 2 == oct && (r - nl) % 2 == within);
            if r > nl {
                lemma_octave::<C>(r - 1);
                if within == 0 {
                    lemma_pow2_adds(f as nat, oct as nat);
                    assert((r - 1 - nl) / 2 == oct - 1 && (r - 1 - nl) % 2 == 1);
                    lemma_pow2_unfold((f + oct) as nat);
                } else {
                    assert((r - 1 - nl) / 2 == oct && (r - 1 - nl) % 2 == 0);
                }
            } else if r > 0 {
                lemma_boundary_step::<C>(r - 1);
            }
            lemma_bin_of_unique::<C>(size as int, r as int);
        }
        r
    } else {
        proof {
            lemma_bin_of::<C>(size as int);
        }
        num_bins::<C>() - 1
    }
}

impl<C: Config> CadAlloc<C> {
    /// The number of bins.
    pub fn bin_count() -> (r: u64)
        requires
            valid_config::<C>(),
        ensures
            r == bin_total::<C>(),
    {
        num_bins::<C>()
    }

    /// The oversized bin index.
    pub fn oversize_bin() -> (r: u64)
        requires
            valid_config::<C>(),
        ensures
            r == oversized::<C>(),
    {
        proof {
            lemma_bin_counts::<C>();
        }
        num_bins::<C>() - 1
    }

    /// The fixed bin whose class is the *largest* `<= size` (a floor map), for
    /// `LNR_FLOOR <= size <= EXP_CEIL`.
    pub fn floor_bin(size: u64) -> (r: u64)
        requires
            valid_config::<C>(),
            C::LNR_FLOOR <= size <= C::EXP_CEIL,
        ensures
            r == last_bin_to::<C>(0, size as int, oversized::<C>() - 1),
            r < oversized::<C>(),
            class_size::<C>(r as int) <= size,
            forall|k: int|
                r < k < oversized::<C>() ==> #[trigger] class_size::<C>(k) > size,
    {
        proof {
            lemma_floor_bin::<C>(size as int);
            lemma_last_bin_to::<C>(0, size as int, oversized::<C>() - 1);
            assert forall|k: int| 0 <= k < oversized::<C>() implies 0int % #[trigger] class_align::<
                C,
            >(k) == 0 by {
                lemma_class::<C>(k);
            }
        }
        let ceil = bin_index::<C>(size);
        if bin_class::<C>(ceil) <= size {
            ceil
        } else if bin_class::<C>(ceil - 1) <= size {
            ceil - 1
        } else {
            // Two bins share a class: the one before them is smaller.
            ceil - 2
        }
    }

    /// Whether `size` bytes form a valid stand-alone block: an oversized region
    /// (`> EXP_CEIL`, whose exact size lives in its header) or a size that is
    /// *exactly* one of the fixed classes. A fixed-range size that is not a class
    /// is invalid: freeing places a block by the ceiling of its size, so it would
    /// be reused as a larger class and overrun its neighbour.
    pub fn is_block_exact(size: u64) -> (r: bool)
        requires
            valid_config::<C>(),
        ensures
            r == block_exact::<C>(size as int),
    {
        proof {
            lemma_bin_of::<C>(size as int);
        }
        size > C::EXP_CEIL || bin_class::<C>(bin_index::<C>(size)) == size
    }

    /// The address alignment required of a block in `bin`: `MIN_ALIGN` for linear
    /// bins, half the octave base (`2^(n-1)` for octave `2^n`) for exponential
    /// bins, and `EXP_CEIL` for the oversized bin; never below `MIN_ALIGN`.
    pub fn align_of_bin(bin: u64) -> (r: u64)
        requires
            valid_config::<C>(),
        ensures
            r == class_align::<C>(bin as int),
    {
        proof {
            lemma_bin_counts::<C>();
            lemma_config_logs::<C>();
        }
        let linear = num_linear::<C>();
        if bin < linear {
            C::MIN_ALIGN
        } else if bin < linear + num_exp::<C>() {
            let oct: u64 = (bin - linear) / 2;
            let base_log2: u64 = ilog2(C::EXP_FLOOR) + oct;
            proof {
                lemma_octave::<C>(bin as int);
                lemma_u64_pow2_log(octave::<C>(bin as int) as u64);
                lemma_pow2_unfold(base_log2 as nat);
            }
            let align = exp2(base_log2 - 1);
            if align < C::MIN_ALIGN {
                C::MIN_ALIGN
            } else {
                align
            }
        } else {
            C::EXP_CEIL
        }
    }

    /// The largest block that can be carved off ending at address `end` from a
    /// region of `len` bytes: `(size, bin)`, or `(0, 0)` if nothing fits. The
    /// placement `end - size` meets the class alignment.
    ///
    /// A region `> EXP_CEIL` yields one oversized block, aligned to `EXP_CEIL`:
    /// its start is `end - len` rounded up to that alignment, and the misaligned
    /// prefix is left for the next carve. If that rounding would shrink the
    /// block into the fixed range, the region is carved as fixed classes instead.
    ///
    /// Otherwise the class is bounded by both `len` and alignment, computed in
    /// O(1): alignment constrains only exponential classes (linear ones need
    /// just `MIN_ALIGN`, which `end` has). An exponential class in octave `2^n`
    /// is aligned to `2^(n-1)`, which divides `end` exactly if it is at most the
    /// lowest set bit of `end`; the largest such class is three times that bit.
    pub fn largest_carvable(end: u64, len: u64) -> (r: (u64, u64))
        requires
            valid_config::<C>(),
            0 < end,
            len > C::EXP_CEIL ==> len <= end,
            end % C::MIN_ALIGN == 0,
        ensures
            (r.0 as int, r.1 as int) == carvable::<C>(end as int, len as int),
    {
        let ghost top = oversized::<C>() - 1;
        proof {
            lemma_bin_counts::<C>();
            lemma_config_logs::<C>();
        }
        if len < C::LNR_FLOOR {
            proof {
                assert forall|k: int| -1 < k <= top implies !(#[trigger] class_size::<C>(k) <= len
                    && end as int % class_align::<C>(k) == 0) by {
                    lemma_class::<C>(k);
                }
                lemma_last_bin_to_unique::<C>(end as int, len as int, top, -1);
            }
            return (0, 0);
        }
        let mut cap: u64 = len;
        if len > C::EXP_CEIL {
            let start = align_up(end - len, C::EXP_CEIL);
            proof {
                lemma_round_up(end - len, C::EXP_CEIL as int);
            }
            let size: u64 = end - start;
            if size > C::EXP_CEIL {
                return (size, Self::oversize_bin());
            }
            // Rounding dropped it into the fixed range; carve fixed classes.
            cap = C::EXP_CEIL;
        }
        let low = lowest_bit(end);
        proof {
            lemma_aligned_iff(end as int, low as int, C::MIN_ALIGN as int);
            assert forall|k: int| 0 <= k <= top implies (#[trigger] class_size::<C>(k)
                >= C::LNR_FLOOR && (end as int % class_align::<C>(k) == 0 <==> (k < linear_count::<
                C,
            >() || class_size::<C>(k) <= 3 * low)) && (k < linear_count::<C>() <==> class_size::<
                C,
            >(k) < C::EXP_FLOOR)) by {
                lemma_class::<C>(k);
                lemma_boundary_step::<C>(k);
                if k >= linear_count::<C>() {
                    lemma_exp_aligned::<C>(end as int, low as int, k);
                }
            }
        }
        let limit: u64 = if cap < C::EXP_FLOOR {
            // Linear target: alignment does not bind.
            cap
        } else {
            let exp_cap: u64 = if low <= u64::MAX / 3 {
                3 * low
            } else {
                u64::MAX
            };
            if cap < exp_cap {
                cap
            } else if exp_cap >= C::EXP_FLOOR {
                exp_cap
            } else {
                // No exponential class is aligned at `end`; fall back to the
                // largest linear class, which is always aligned.
                C::EXP_FLOOR - C::MIN_ALIGN
            }
        };
        if limit < C::LNR_FLOOR {
            // No linear classes, and alignment excludes every exponential class.
            proof {
                assert forall|k: int| -1 < k <= top implies !(#[trigger] class_size::<C>(k) <= cap
                    && end as int % class_align::<C>(k) == 0) by {
                    lemma_class::<C>(k);
                    lemma_boundary_step::<C>(k);
                }
                lemma_last_bin_to_unique::<C>(end as int, cap as int, top, -1);
            }
            return (0, 0);
        }
        let bin = Self::floor_bin(limit);
        proof {
            lemma_class::<C>(bin as int);
            assert forall|k: int| bin < k <= top implies !(#[trigger] class_size::<C>(k) <= cap
                && end as int % class_align::<C>(k) == 0) by {
                lemma_class::<C>(k);
                lemma_boundary_step::<C>(k);
            }
            lemma_last_bin_to_unique::<C>(end as int, cap as int, top, bin as int);
        }
        (bin_class::<C>(bin), bin)
    }

    /// The total block size that a `size`-byte request needs: the payload rounded
    /// up to `MIN_ALIGN`, plus the header. `None` when that exceeds every address.
    pub fn block_need(size: u64) -> (r: Option<u64>)
        requires
            valid_config::<C>(),
        ensures
            r is Some <==> need_of::<C>(size as int) <= u64::MAX,
            r matches Some(need) ==> need == need_of::<C>(size as int),
    {
        proof {
            lemma_config_logs::<C>();
            lemma_round_up(size as int, C::MIN_ALIGN as int);
        }
        if size > u64::MAX - (C::MIN_ALIGN - 1) {
            return None;
        }
        let rounded = align_up(size, C::MIN_ALIGN);
        if rounded > u64::MAX - C::MIN_ALIGN {
            return None;
        }
        Some(rounded + C::MIN_ALIGN)
    }

    /// The exact total block size [`allocate`](CadAlloc::allocate) would carve for a
    /// `size`-byte request: the containing fixed class, or the header-rounded
    /// need for an oversized request. `None` when that exceeds every address.
    pub fn request_block_size(size: u64) -> (r: Option<u64>)
        requires
            valid_config::<C>(),
        ensures
            r is Some <==> need_of::<C>(size as int) <= u64::MAX,
            r matches Some(total) ==> total == request_size::<C>(size as int),
    {
        let need: u64 = match Self::block_need(size) {
            Some(need) => need,
            None => {
                return None;
            },
        };
        let bin = bin_index::<C>(need);
        proof {
            lemma_bin_of::<C>(need as int);
        }
        if bin == Self::oversize_bin() {
            Some(need)
        } else {
            Some(bin_class::<C>(bin))
        }
    }
}

} // verus!
