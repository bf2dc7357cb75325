//! Powers of two, rounding and masking.
//!
//! Every size and alignment the allocator handles is built from powers of two.
//! This module states what the bit tricks on them compute in plain arithmetic.

use vstd::arithmetic::div_mod::{lemma_fundamental_div_mod, lemma_mod_multiples_basic};
use vstd::arithmetic::logarithm::{
    lemma_log0, lemma_log_is_ordered, lemma_log_nonnegative, lemma_log_pow, lemma_log_s, log,
};
use vstd::arithmetic::power::pow;
use vstd::arithmetic::power2::{
    is_pow2, is_pow2_equiv, is_pow2_exists, lemma_pow2, lemma_pow2_adds, lemma_pow2_pos,
    lemma_pow2_strictly_increases, lemma_pow2_unfold, pow2,
};
use vstd::bits::{
    lemma_u64_low_bits_mask_is_mod, lemma_u64_pow2_no_overflow, lemma_u64_shl_is_mul,
    lemma_u64_shr_is_div, low_bits_mask,
};
use vstd::prelude::*;
use vstd::std_specs::bits::{axiom_u64_leading_zeros, axiom_u64_trailing_zeros};

verus! {

/// The base-2 logarithm of `x`, rounded down.
pub open spec fn log2(x: int) -> nat {
    log(2, x) as nat
}

/// The smallest multiple of `align` that is at least `x`.
pub open spec fn round_up(x: int, align: int) -> int {
    if x % align == 0 {
        x
    } else {
        x - x % align + align
    }
}

/// The bounds `2^n <= x < 2^(n + 1)` determine the logarithm of `x`.
pub proof fn lemma_log2_unique(x: int, n: nat)
    requires
        pow2(n) <= x < pow2(n + 1),
    ensures
        log2(x) == n,
{
    lemma_pow2_pos(n);
    lemma_pow2(n);
    lemma_pow2(n + 1);
    lemma_log_pow(2, n);
    lemma_log_pow(2, n + 1);
    lemma_log_is_ordered(2, pow2(n) as int, x);
    if log(2, x) > n {
        lemma_log_bounds(x);
        if log2(x) > n + 1 {
            lemma_pow2_strictly_increases(n + 1, log2(x));
        }
        assert(false);
    }
}

/// `2^log2(x) <= x < 2^(log2(x) + 1)`.
pub proof fn lemma_log_bounds(x: int)
    requires
        x > 0,
    ensures
        log(2, x) >= 0,
        pow2(log2(x)) <= x < pow2(log2(x) + 1),
    decreases x,
{
    lemma_log_nonnegative(2, x);
    if x < 2 {
        lemma_log0(2, x);
        assert(pow2(0) == 1 && pow2(1) == 2) by {
            lemma_pow2_values();
        }
    } else {
        lemma_log_bounds(x / 2);
        lemma_log_s(2, x);
        lemma_pow2_unfold(log2(x));
        lemma_pow2_unfold(log2(x) + 1);
    }
}

/// The first powers of two.
pub proof fn lemma_pow2_values()
    ensures
        pow2(0) == 1,
        pow2(1) == 2,
        pow2(2) == 4,
        pow2(3) == 8,
        pow2(4) == 16,
        pow2(63) == 0x8000_0000_0000_0000,
        pow2(64) == 0x1_0000_0000_0000_0000,
{
    vstd::arithmetic::power2::lemma2_to64();
    vstd::arithmetic::power2::lemma2_to64_rest();
}

/// `2^a <= 2^b` for `a <= b`.
pub proof fn lemma_pow2_monotonic(a: nat, b: nat)
    requires
        a <= b,
    ensures
        pow2(a) <= pow2(b),
{
    if a < b {
        lemma_pow2_strictly_increases(a, b);
    }
}

/// A power of two is two to its own logarithm.
pub proof fn lemma_is_pow2(x: int)
    requires
        is_pow2(x),
    ensures
        x > 0,
        x == pow2(log2(x)),
{
    is_pow2_equiv(x);
    let n = choose|n: nat| pow(2, n) == x;
    lemma_pow2(n);
    lemma_pow2_pos(n);
    lemma_pow2_strictly_increases(n, n + 1);
    lemma_log2_unique(x, n);
}

/// Two to any exponent is a power of two, with that exponent as its logarithm.
pub proof fn lemma_pow2_is_pow2(n: nat)
    ensures
        is_pow2(pow2(n) as int),
        log2(pow2(n) as int) == n,
        pow2(n) > 0,
{
    lemma_pow2(n);
    assert(is_pow2_exists(pow2(n) as int));
    is_pow2_equiv(pow2(n) as int);
    lemma_pow2_pos(n);
    lemma_pow2_strictly_increases(n, n + 1);
    lemma_log2_unique(pow2(n) as int, n);
}

/// A power of two that fits a `u64` has a logarithm below 64.
pub proof fn lemma_u64_pow2_log(x: u64)
    requires
        is_pow2(x as int),
    ensures
        x > 0,
        log2(x as int) < 64,
        x == pow2(log2(x as int)),
{
    lemma_is_pow2(x as int);
    lemma_pow2_values();
    if log2(x as int) >= 64 {
        lemma_pow2_monotonic(64, log2(x as int));
    }
}

/// The order of powers of two is that of their logarithms.
pub proof fn lemma_log2_order(a: int, b: int)
    requires
        is_pow2(a),
        is_pow2(b),
    ensures
        a <= b <==> log2(a) <= log2(b),
        a < b <==> log2(a) < log2(b),
{
    lemma_is_pow2(a);
    lemma_is_pow2(b);
    if log2(a) < log2(b) {
        lemma_pow2_strictly_increases(log2(a), log2(b));
    }
    if log2(b) < log2(a) {
        lemma_pow2_strictly_increases(log2(b), log2(a));
    }
}

/// A smaller power of two divides a larger one.
pub proof fn lemma_pow2_divides(a: int, b: int)
    requires
        is_pow2(a),
        is_pow2(b),
        a <= b,
    ensures
        a > 0,
        b % a == 0,
{
    lemma_is_pow2(a);
    lemma_is_pow2(b);
    lemma_log2_order(a, b);
    let d = (log2(b) - log2(a)) as nat;
    lemma_pow2_adds(log2(a), d);
    assert(b == pow2(d) * a) by (nonlinear_arith)
        requires
            b == pow2(log2(a)) * pow2(d),
            a == pow2(log2(a)),
    ;
    lemma_mod_multiples_basic(pow2(d) as int, a);
}

/// A multiple of a multiple of `a` is a multiple of `a`.
pub proof fn lemma_divides_trans(x: int, b: int, a: int)
    requires
        a > 0,
        b > 0,
        b % a == 0,
        x % b == 0,
    ensures
        x % a == 0,
{
    lemma_fundamental_div_mod(x, b);
    lemma_fundamental_div_mod(b, a);
    let q = (x / b) * (b / a);
    assert(x == q * a) by (nonlinear_arith)
        requires
            x == b * (x / b),
            b == a * (b / a),
            q == (x / b) * (b / a),
    ;
    lemma_mod_multiples_basic(q, a);
}

/// A multiple of a power of two is a multiple of every smaller one.
pub proof fn lemma_aligned_down(x: int, b: int, a: int)
    requires
        is_pow2(a),
        is_pow2(b),
        a <= b,
        x % b == 0,
    ensures
        x % a == 0,
{
    lemma_pow2_divides(a, b);
    lemma_divides_trans(x, b, a);
}

/// Sums and differences of multiples are multiples.
pub proof fn lemma_mod_add_sub(x: int, y: int, a: int)
    requires
        a > 0,
        x % a == 0,
        y % a == 0,
    ensures
        (x + y) % a == 0,
        (x - y) % a == 0,
{
    lemma_fundamental_div_mod(x, a);
    lemma_fundamental_div_mod(y, a);
    let p = x / a + y / a;
    let q = x / a - y / a;
    assert(x + y == p * a) by (nonlinear_arith)
        requires
            x == a * (x / a),
            y == a * (y / a),
            p == x / a + y / a,
    ;
    assert(x - y == q * a) by (nonlinear_arith)
        requires
            x == a * (x / a),
            y == a * (y / a),
            q == x / a - y / a,
    ;
    lemma_mod_multiples_basic(p, a);
    lemma_mod_multiples_basic(q, a);
}

/// What rounding up yields: a multiple, at least `x`, less than one step above.
pub proof fn lemma_round_up(x: int, align: int)
    requires
        align > 0,
    ensures
        round_up(x, align) % align == 0,
        x <= round_up(x, align) < x + align,
{
    lemma_fundamental_div_mod(x, align);
    let q = x / align;
    if x % align != 0 {
        assert(round_up(x, align) == (q + 1) * align) by (nonlinear_arith)
            requires
                x == align * q + x % align,
                round_up(x, align) == x - x % align + align,
        ;
        lemma_mod_multiples_basic(q + 1, align);
    }
}

/// Two multiples of `a` less than `a` apart are equal.
pub proof fn lemma_multiples_close(x: int, y: int, a: int)
    requires
        a > 0,
        x % a == 0,
        y % a == 0,
        -a < x - y < a,
    ensures
        x == y,
{
    lemma_mod_add_sub(x, y, a);
    lemma_fundamental_div_mod(x - y, a);
    let q = (x - y) / a;
    assert(q == 0) by (nonlinear_arith)
        requires
            x - y == a * q,
            -a < x - y < a,
            a > 0,
    ;
}

/// `x & (p - 1)` is the remainder by the power of two `p`, and `x & !(p - 1)`
/// is what is left.
pub proof fn lemma_mask(x: u64, p: u64)
    requires
        is_pow2(p as int),
    ensures
        p > 0,
        x & ((p - 1) as u64) == x % p,
        x & !((p - 1) as u64) == x - x % p,
{
    lemma_u64_pow2_log(p);
    let n = log2(p as int);
    lemma_u64_low_bits_mask_is_mod(x, n);
    assert(low_bits_mask(n) == p - 1);
    let m = (p - 1) as u64;
    assert(x & !m == x - (x & m)) by (bit_vector);
}

/// Setting the bits of a value below `p` in a multiple of `p` adds it.
pub proof fn lemma_or_is_add(x: u64, t: u64, p: u64)
    requires
        is_pow2(p as int),
        x % p == 0,
        t < p,
    ensures
        x | t == x + t,
{
    lemma_mask(x, p);
    lemma_mask(t, p);
    let m = (p - 1) as u64;
    assert(t % p == t) by {
        vstd::arithmetic::div_mod::lemma_small_mod(t as nat, p as nat);
    }
    assert(x | t == x + t) by (bit_vector)
        requires
            x & m == 0,
            t & m == t,
    ;
}

/// Rounds `x` up to a multiple of the power-of-two `align`.
pub fn align_up(x: u64, align: u64) -> (r: u64)
    requires
        is_pow2(align as int),
        x + align - 1 <= u64::MAX,
    ensures
        r == round_up(x as int, align as int),
{
    proof {
        lemma_u64_pow2_log(align);
        let y = (x + (align - 1)) as u64;
        lemma_mask(y, align);
        lemma_round_up(x as int, align as int);
        lemma_fundamental_div_mod(y as int, align as int);
        assert((y - y % align) as int % align as int == 0) by {
            let q = y as int / align as int;
            assert(y - y % align == q * align) by (nonlinear_arith)
                requires
                    y as int == align * q + y as int % align as int,
            ;
            lemma_mod_multiples_basic(q, align as int);
        }
        lemma_multiples_close((y - y % align) as int, round_up(x as int, align as int), align as int);
    }
    (x + (align - 1)) & !(align - 1)
}

/// The base-2 logarithm of `x`, rounded down.
pub fn ilog2(x: u64) -> (r: u64)
    requires
        x > 0,
    ensures
        r == log2(x as int),
        r < 64,
        pow2(r as nat) <= x < pow2(r as nat + 1),
{
    proof {
        axiom_u64_leading_zeros(x);
    }
    let lz: u64 = x.leading_zeros() as u64;
    let r: u64 = 63 - lz;
    proof {
        lemma_pow2_values();
        assert((x >> r) & 1u64 != 0 ==> x >> r != 0) by (bit_vector);
        lemma_u64_shr_is_div(x, r);
        lemma_pow2_pos(r as nat);
        lemma_pow2_pos(r as nat + 1);
        if x < pow2(r as nat) {
            vstd::arithmetic::div_mod::lemma_basic_div(x as int, pow2(r as nat) as int);
        }
        if r < 63 {
            let s: u64 = (r + 1) as u64;
            lemma_u64_shr_is_div(x, s);
            lemma_fundamental_div_mod(x as int, pow2(s as nat) as int);
            assert(x as int / pow2(s as nat) as int == 0);
            assert(x < pow2(s as nat)) by (nonlinear_arith)
                requires
                    x as int == pow2(s as nat) * 0 + x as int % pow2(s as nat) as int,
                    x as int % (pow2(s as nat) as int) < pow2(s as nat),
            ;
        }
        lemma_log2_unique(x as int, r as nat);
    }
    r
}

/// Two to the power `n`.
pub fn exp2(n: u64) -> (r: u64)
    requires
        n < 64,
    ensures
        r == pow2(n as nat),
{
    proof {
        lemma_u64_pow2_no_overflow(n as nat);
        lemma_u64_shl_is_mul(1, n);
    }
    1u64 << n
}

/// Whether `x` is a power of two.
pub fn is_power_of_two(x: u64) -> (r: bool)
    ensures
        r == is_pow2(x as int),
{
    if x == 0 {
        proof {
            if is_pow2(0) {
                lemma_is_pow2(0);
            }
        }
        return false;
    }
    let n = ilog2(x);
    let p = exp2(n);
    proof {
        lemma_pow2_is_pow2(n as nat);
        if is_pow2(x as int) {
            lemma_is_pow2(x as int);
        }
    }
    p == x
}

/// The largest power of two that divides `x`.
pub fn lowest_bit(x: u64) -> (r: u64)
    requires
        x > 0,
    ensures
        is_pow2(r as int),
        x as int % r as int == 0,
        x as int % (2 * r) != 0,
        r <= x,
{
    proof {
        axiom_u64_trailing_zeros(x);
    }
    let n: u64 = x.trailing_zeros() as u64;
    let r = exp2(n);
    proof {
        lemma_pow2_is_pow2(n as nat);
        let q: u64 = x >> n;
        lemma_u64_shr_is_div(x, n);
        lemma_low_zeros(x, n, (64 - n) as u64);
        assert(q & 1 == 1 ==> q % 2 == 1) by (bit_vector);
        lemma_fundamental_div_mod(x as int, r as int);
        assert(x == r * q);
        lemma_mod_multiples_basic(q as int, r as int);
        assert(x as int % (2 * r) != 0) by {
            if x as int % (2 * r) == 0 {
                lemma_fundamental_div_mod(x as int, 2 * r);
                let h = x as int / (2 * r);
                assert(q == 2 * h) by (nonlinear_arith)
                    requires
                        x == r * q,
                        x == (2 * r) * h,
                        r > 0,
                ;
            }
        }
        assert(r <= x) by (nonlinear_arith)
            requires
                x == r * q,
                q >= 1,
                r > 0,
        ;
    }
    r
}

/// A value whose low `n` bits are zero is a multiple of `2^n`.
proof fn lemma_low_zeros(x: u64, n: u64, s: u64)
    requires
        n < 64,
        s == 64 - n,
        x << s == 0,
    ensures
        x as int % pow2(n as nat) as int == 0,
{
    lemma_u64_low_bits_mask_is_mod(x, n as nat);
    lemma_u64_pow2_no_overflow(n as nat);
    lemma_u64_shl_is_mul(1, n);
    let p = pow2(n as nat) as u64;
    assert(p == 1u64 << n);
    lemma_pow2_is_pow2(n as nat);
    lemma_mask(x, p);
    let m = (p - 1) as u64;
    assert(x & m == 0) by (bit_vector)
        requires
            n < 64,
            s == 64 - n,
            m == (1u64 << n) - 1,
            x << s == 0,
    ;
}

} // verus!
