//! The configuration fingerprint stamped on an initialized heap.

use crate::bits::{ilog2, lemma_u64_pow2_log, log2};
use crate::config::{lemma_config_logs, valid_config, Config};
use vstd::arithmetic::div_mod::{
    lemma_fundamental_div_mod, lemma_mul_mod_noop_left, lemma_small_mod,
};
use vstd::prelude::*;

verus! {

/// The `"CADALLOC"` marker word (8 ASCII bytes, little-endian) written at the
/// very front of an initialized heap.
pub const MAGIC: u64 = 0x434F_4C4C_4144_4143;

/// The multiplier of the second mixing step.
pub const MIX_A: u64 = 0xBF58_476D_1CE4_E5B9;

/// The inverse of `MIX_A` modulo `2^64`.
pub const MIX_A_INVERSE: u64 = 0x96DE_1B17_3F11_9089;

/// The multiplier of the third mixing step.
pub const MIX_B: u64 = 0x94D0_49BB_1331_11EB;

/// The inverse of `MIX_B` modulo `2^64`.
pub const MIX_B_INVERSE: u64 = 0x3196_42B2_D24D_8EC3;

/// The odd multiplier that spreads `CARVE_MAX` over the word.
pub const GOLDEN: u64 = 0x9E37_79B9_7F4A_7C15;

/// The inverse of `GOLDEN` modulo `2^64`.
pub const GOLDEN_INVERSE: u64 = 0xF1DE_83E1_9937_733D;

/// The SplitMix64 finalizer.
pub open spec fn mixed(z: u64) -> u64 {
    let a = (z ^ (z >> 30)).wrapping_mul(MIX_A);
    let b = (a ^ (a >> 27)).wrapping_mul(MIX_B);
    b ^ (b >> 31)
}

/// What [`mixed`] turned into `y`.
pub open spec fn unmixed(y: u64) -> u64 {
    let b = (y ^ (y >> 31) ^ (y >> 62)).wrapping_mul(MIX_B_INVERSE);
    let a = (b ^ (b >> 27) ^ (b >> 54)).wrapping_mul(MIX_A_INVERSE);
    a ^ (a >> 30) ^ (a >> 60)
}

/// The base-2 logarithms of the power-of-two constants, six bits each.
pub open spec fn packed_logs<C: Config>() -> u64 {
    (log2(C::MIN_ALIGN as int) + 0x40 * log2(C::LNR_FLOOR as int) + 0x1000 * log2(
        C::EXP_FLOOR as int,
    ) + 0x4_0000 * log2(C::EXP_CEIL as int) + 0x100_0000 * log2(C::SPLIT_MIN as int)) as u64
}

/// What the fingerprint of a configuration is mixed from.
pub open spec fn fingerprint_seed<C: Config>() -> u64 {
    packed_logs::<C>() ^ C::CARVE_MAX.wrapping_mul(GOLDEN)
}

/// The fingerprint of a configuration.
pub open spec fn fingerprint<C: Config>() -> u64 {
    mixed(fingerprint_seed::<C>())
}

/// The constants that define a heap's layout are the same.
pub open spec fn same_layout<C: Config, D: Config>() -> bool {
    &&& C::MIN_ALIGN == D::MIN_ALIGN
    &&& C::LNR_FLOOR == D::LNR_FLOOR
    &&& C::EXP_FLOOR == D::EXP_FLOOR
    &&& C::EXP_CEIL == D::EXP_CEIL
    &&& C::SPLIT_MIN == D::SPLIT_MIN
    &&& C::CARVE_MAX == D::CARVE_MAX
}

/// Multiplying by an odd number and then by its inverse changes nothing.
proof fn lemma_mul_inverse(x: u64, k: u64, inverse: u64)
    requires
        (k * inverse) % 0x1_0000_0000_0000_0000 == 1,
    ensures
        x.wrapping_mul(k).wrapping_mul(inverse) == x,
        x.wrapping_mul(inverse).wrapping_mul(k) == x,
{
    let m: int = 0x1_0000_0000_0000_0000;
    assert(k * inverse == inverse * k) by (nonlinear_arith);
    lemma_mul_undo(x as int, k as int, inverse as int);
    lemma_mul_undo(x as int, inverse as int, k as int);
}

/// Modulo `2^64`, multiplying by `k` and then by its inverse changes nothing.
proof fn lemma_mul_undo(x: int, k: int, inverse: int)
    requires
        (k * inverse) % 0x1_0000_0000_0000_0000 == 1,
        0 <= x < 0x1_0000_0000_0000_0000,
    ensures
        (((x * k) % 0x1_0000_0000_0000_0000) * inverse) % 0x1_0000_0000_0000_0000 == x,
{
    let m: int = 0x1_0000_0000_0000_0000;
    lemma_mul_mod_noop_left(x * k, inverse, m);
    assert((x * k) * inverse == (k * inverse) * x) by (nonlinear_arith);
    lemma_mul_mod_noop_left(k * inverse, x, m);
    assert(1 * x == x);
    lemma_small_mod(x as nat, m as nat);
}

/// The SplitMix64 finalizer is a bijection on 64-bit words: every word is the
/// image of exactly one.
pub proof fn lemma_mixed_bijective(z: u64)
    ensures
        unmixed(mixed(z)) == z,
        mixed(unmixed(z)) == z,
{
    assert((MIX_A * MIX_A_INVERSE) % 0x1_0000_0000_0000_0000 == 1) by (nonlinear_arith);
    assert((MIX_B * MIX_B_INVERSE) % 0x1_0000_0000_0000_0000 == 1) by (nonlinear_arith);
    let x = z ^ (z >> 30);
    assert(x ^ (x >> 30) ^ (x >> 60) == z) by (bit_vector)
        requires
            x == z ^ (z >> 30),
    ;
    let a = x.wrapping_mul(MIX_A);
    lemma_mul_inverse(x, MIX_A, MIX_A_INVERSE);
    let y = a ^ (a >> 27);
    assert(y ^ (y >> 27) ^ (y >> 54) == a) by (bit_vector)
        requires
            y == a ^ (a >> 27),
    ;
    let b = y.wrapping_mul(MIX_B);
    lemma_mul_inverse(y, MIX_B, MIX_B_INVERSE);
    let w = b ^ (b >> 31);
    assert(w ^ (w >> 31) ^ (w >> 62) == b) by (bit_vector)
        requires
            w == b ^ (b >> 31),
    ;
    assert(unmixed(mixed(z)) == z);

    let p = z ^ (z >> 31) ^ (z >> 62);
    assert(p ^ (p >> 31) == z) by (bit_vector)
        requires
            p == z ^ (z >> 31) ^ (z >> 62),
    ;
    let q = p.wrapping_mul(MIX_B_INVERSE);
    lemma_mul_inverse(p, MIX_B, MIX_B_INVERSE);
    let r = q ^ (q >> 27) ^ (q >> 54);
    assert(r ^ (r >> 27) == q) by (bit_vector)
        requires
            r == q ^ (q >> 27) ^ (q >> 54),
    ;
    let s = r.wrapping_mul(MIX_A_INVERSE);
    lemma_mul_inverse(r, MIX_A, MIX_A_INVERSE);
    let t = s ^ (s >> 30) ^ (s >> 60);
    assert(t ^ (t >> 30) == s) by (bit_vector)
        requires
            t == s ^ (s >> 30) ^ (s >> 60),
    ;
}

/// The packed logarithms lose nothing: they are equal exactly if the five
/// power-of-two constants are.
pub proof fn lemma_packed_logs_lossless<C: Config, D: Config>()
    requires
        valid_config::<C>(),
        valid_config::<D>(),
    ensures
        packed_logs::<C>() < 0x4000_0000,
        packed_logs::<C>() == packed_logs::<D>() <==> {
            &&& C::MIN_ALIGN == D::MIN_ALIGN
            &&& C::LNR_FLOOR == D::LNR_FLOOR
            &&& C::EXP_FLOOR == D::EXP_FLOOR
            &&& C::EXP_CEIL == D::EXP_CEIL
            &&& C::SPLIT_MIN == D::SPLIT_MIN
        },
{
    lemma_config_logs::<C>();
    lemma_config_logs::<D>();
    lemma_u64_pow2_log(C::MIN_ALIGN);
    lemma_u64_pow2_log(D::MIN_ALIGN);
    lemma_u64_pow2_log(C::LNR_FLOOR);
    lemma_u64_pow2_log(D::LNR_FLOOR);
    lemma_u64_pow2_log(C::EXP_FLOOR);
    lemma_u64_pow2_log(D::EXP_FLOOR);
    lemma_u64_pow2_log(C::EXP_CEIL);
    lemma_u64_pow2_log(D::EXP_CEIL);
    lemma_u64_pow2_log(C::SPLIT_MIN);
    lemma_u64_pow2_log(D::SPLIT_MIN);
    let e = log2(C::SPLIT_MIN as int) as int;
    let d = log2(C::EXP_CEIL as int) + 0x40 * e;
    let c = log2(C::EXP_FLOOR as int) + 0x40 * d;
    let b = log2(C::LNR_FLOOR as int) + 0x40 * c;
    let v = log2(D::SPLIT_MIN as int) as int;
    let u = log2(D::EXP_CEIL as int) + 0x40 * v;
    let t = log2(D::EXP_FLOOR as int) + 0x40 * u;
    let s = log2(D::LNR_FLOOR as int) + 0x40 * t;
    assert(packed_logs::<C>() == log2(C::MIN_ALIGN as int) + 0x40 * b);
    assert(packed_logs::<D>() == log2(D::MIN_ALIGN as int) + 0x40 * s);
    if packed_logs::<C>() == packed_logs::<D>() {
        lemma_digit(log2(C::MIN_ALIGN as int) as int, b, log2(D::MIN_ALIGN as int) as int, s);
        lemma_digit(log2(C::LNR_FLOOR as int) as int, c, log2(D::LNR_FLOOR as int) as int, t);
        lemma_digit(log2(C::EXP_FLOOR as int) as int, d, log2(D::EXP_FLOOR as int) as int, u);
        lemma_digit(log2(C::EXP_CEIL as int) as int, e, log2(D::EXP_CEIL as int) as int, v);
    }
}

/// The lowest digit to base 64 and the rest are determined by the number.
proof fn lemma_digit(a: int, rest: int, b: int, other: int)
    requires
        0 <= a < 0x40,
        0 <= b < 0x40,
        a + 0x40 * rest == b + 0x40 * other,
    ensures
        a == b,
        rest == other,
{
}

/// Configurations with the same layout constants have the same fingerprint, and
/// fingerprints collide exactly where the seeds do. In particular two
/// configurations that differ only in `CARVE_MAX`, or only in the power-of-two
/// constants, always have different fingerprints.
pub proof fn lemma_fingerprint_distinct<C: Config, D: Config>()
    requires
        valid_config::<C>(),
        valid_config::<D>(),
    ensures
        same_layout::<C, D>() ==> fingerprint::<C>() == fingerprint::<D>(),
        fingerprint::<C>() == fingerprint::<D>() <==> fingerprint_seed::<C>() == fingerprint_seed::<
            D,
        >(),
        C::CARVE_MAX == D::CARVE_MAX && !same_layout::<C, D>() ==> fingerprint::<C>()
            != fingerprint::<D>(),
        packed_logs::<C>() == packed_logs::<D>() && !same_layout::<C, D>() ==> fingerprint::<C>()
            != fingerprint::<D>(),
{
    lemma_mixed_bijective(fingerprint_seed::<C>());
    lemma_mixed_bijective(fingerprint_seed::<D>());
    lemma_packed_logs_lossless::<C, D>();
    let p = packed_logs::<C>();
    let q = packed_logs::<D>();
    let g = C::CARVE_MAX.wrapping_mul(GOLDEN);
    let h = D::CARVE_MAX.wrapping_mul(GOLDEN);
    assert(g == h && p ^ g == q ^ h ==> p == q) by (bit_vector);
    assert(p == q && p ^ g == q ^ h ==> g == h) by (bit_vector);
    assert((GOLDEN * GOLDEN_INVERSE) % 0x1_0000_0000_0000_0000 == 1) by (nonlinear_arith);
    lemma_mul_inverse(C::CARVE_MAX, GOLDEN, GOLDEN_INVERSE);
    lemma_mul_inverse(D::CARVE_MAX, GOLDEN, GOLDEN_INVERSE);
}

/// Multiples of the odd multiplier by less than `2971215073` stay at least `2^30`
/// away from the multiples of `2^64`.
///
/// `701408733 / 1134903170` and `1836311903 / 2971215073` are neighbouring
/// convergents of the multiplier over `2^64`, from above and below, so `(d, m)` is an
/// integer combination of the two.
proof fn lemma_multiplier_spreads(d: int, m: int)
    requires
        0 < d < 2971215073,
    ensures
        d * GOLDEN - m * 0x1_0000_0000_0000_0000 >= 0x4000_0000 || d * GOLDEN - m
            * 0x1_0000_0000_0000_0000 <= -0x4000_0000,
{
    let a = d * 1836311903 - m * 2971215073;
    let b = m * 1134903170 - d * 701408733;
    assert(d == a * 1134903170 + b * 2971215073);
    assert(m == a * 701408733 + b * 1836311903);
    assert(d * GOLDEN - m * 0x1_0000_0000_0000_0000 == a * 6189034922 - b * 50920843);
    if b > 0 {
        assert(a < 0);
    } else {
        assert(a > 0);
    }
}

/// Where two values of `CARVE_MAX` are less than `2971215073` apart, no choice of
/// the power-of-two constants makes up for the difference.
proof fn lemma_seeds_distinct(c: u64, d: u64, p: u64, q: u64)
    requires
        d < c,
        c - d < 2971215073,
        p < 0x4000_0000,
        q < 0x4000_0000,
    ensures
        p ^ c.wrapping_mul(GOLDEN) != q ^ d.wrapping_mul(GOLDEN),
{
    let g = c.wrapping_mul(GOLDEN);
    let h = d.wrapping_mul(GOLDEN);
    if p ^ g == q ^ h {
        assert(g < h + 0x4000_0000 && h < g + 0x4000_0000) by (bit_vector)
            requires
                p ^ g == q ^ h,
                p < 0x4000_0000,
                q < 0x4000_0000,
        ;
        let w = 0x1_0000_0000_0000_0000int;
        lemma_fundamental_div_mod(c * GOLDEN, w);
        lemma_fundamental_div_mod(d * GOLDEN, w);
        let m = (c * GOLDEN) / w - (d * GOLDEN) / w;
        assert((c - d) * GOLDEN == c * GOLDEN - d * GOLDEN) by (nonlinear_arith);
        assert(g == (c * GOLDEN) % w && h == (d * GOLDEN) % w);
        lemma_multiplier_spreads(c - d, m);
    }
}

/// Configurations whose values of `CARVE_MAX` are less than `2971215073` apart have
/// the same fingerprint exactly if they have the same layout constants.
pub proof fn lemma_fingerprint_faithful<C: Config, D: Config>()
    requires
        valid_config::<C>(),
        valid_config::<D>(),
        -2971215073 < C::CARVE_MAX - D::CARVE_MAX < 2971215073,
    ensures
        fingerprint::<C>() == fingerprint::<D>() <==> same_layout::<C, D>(),
{
    lemma_fingerprint_distinct::<C, D>();
    lemma_packed_logs_lossless::<C, D>();
    lemma_packed_logs_lossless::<D, C>();
    if C::CARVE_MAX < D::CARVE_MAX {
        lemma_seeds_distinct(D::CARVE_MAX, C::CARVE_MAX, packed_logs::<D>(), packed_logs::<C>());
    } else if D::CARVE_MAX < C::CARVE_MAX {
        lemma_seeds_distinct(C::CARVE_MAX, D::CARVE_MAX, packed_logs::<C>(), packed_logs::<D>());
    }
}

/// The SplitMix64 finalizer, a bijective 64-bit avalanche mixer.
pub fn splitmix64(z: u64) -> (r: u64)
    ensures
        r == mixed(z),
{
    let a: u64 = (z ^ (z >> 30)).wrapping_mul(MIX_A);
    let b: u64 = (a ^ (a >> 27)).wrapping_mul(MIX_B);
    b ^ (b >> 31)
}

/// A 64-bit fingerprint of the layout-defining configuration constants.
///
/// The power-of-two constants carry only their exponent, so their base-2
/// logarithms (each `< 64`, i.e. 6 bits) are packed losslessly into 30 bits;
/// `CARVE_MAX` is folded in by an odd multiplier, and the result is run through
/// the [`splitmix64`] finalizer to avalanche the bits.
pub fn config_fingerprint<C: Config>() -> (r: u64)
    requires
        valid_config::<C>(),
    ensures
        r == fingerprint::<C>(),
{
    proof {
        lemma_config_logs::<C>();
        lemma_u64_pow2_log(C::SPLIT_MIN);
    }
    let a: u64 = ilog2(C::MIN_ALIGN);
    let b: u64 = ilog2(C::LNR_FLOOR);
    let c: u64 = ilog2(C::EXP_FLOOR);
    let d: u64 = ilog2(C::EXP_CEIL);
    let e: u64 = ilog2(C::SPLIT_MIN);
    let packed: u64 = a | (b << 6) | (c << 12) | (d << 18) | (e << 24);
    assert(packed == a + 0x40 * b + 0x1000 * c + 0x4_0000 * d + 0x100_0000 * e) by (bit_vector)
        requires
            packed == a | (b << 6) | (c << 12) | (d << 18) | (e << 24),
            a < 64,
            b < 64,
            c < 64,
            d < 64,
            e < 64,
    ;
    splitmix64(packed ^ C::CARVE_MAX.wrapping_mul(GOLDEN))
}

} // verus!
