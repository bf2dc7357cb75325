//! The configuration surface: the single trait a user implements to stand up an
//! allocator, plus validation of its constants.
//!
//! ## Size classes
//!
//! A request size maps to one of three regions, delimited by the four
//! constants (all of which must be powers of two):
//!
//! * **Linear** — from [`LNR_FLOOR`](Config::LNR_FLOOR) up to
//!   [`EXP_FLOOR`](Config::EXP_FLOOR), classes step by
//!   [`MIN_ALIGN`](Config::MIN_ALIGN). Small allocations, tightly spaced.
//! * **Exponential** — from [`EXP_FLOOR`](Config::EXP_FLOOR) up to
//!   [`EXP_CEIL`](Config::EXP_CEIL), each power-of-two octave `[2^n, 2^(n+1))`
//!   is split into two classes: `2^n` and `3 * 2^(n-1)` (i.e. `1.5 * 2^n`).
//! * **Oversized** — anything larger than [`EXP_CEIL`](Config::EXP_CEIL) spills
//!   into a single oversized bucket.
//!
//! [`MIN_ALIGN`](Config::MIN_ALIGN) is also the minimum alignment of *every*
//! allocation, so it must be greater than `2^3` (i.e. at least 16).
//!
//! ## Heap region
//!
//! [`HEAP_BASE`](Config::HEAP_BASE) / [`HEAP_SIZE`](Config::HEAP_SIZE) describe
//! the region the allocator manages *when it is known at compile time*. When the
//! region is only known at runtime, leave those at `0` ("not applicable") and
//! override [`heap_base`](Config::heap_base) / [`heap_size`](Config::heap_size).

use crate::atomic::Atomics;
use crate::bits::{ilog2, is_power_of_two, lemma_log2_order, lemma_u64_pow2_log, log2};
use vstd::arithmetic::power2::is_pow2;
use vstd::prelude::*;

verus! {

/// The complete configuration of an allocator.
///
/// A `Config` is a zero-sized policy type carrying only associated constants,
/// an [`Atomics`] backend, and (optionally) heap accessors. See the
/// [module documentation](self) for the size-class scheme.
///
/// The four size constants plus `SPLIT_MIN` must all be **powers of two**, and
/// the size constants must satisfy
/// `MIN_ALIGN <= LNR_FLOOR <= EXP_FLOOR <= EXP_CEIL`, with `MIN_ALIGN > 8`.
/// (`CARVE_MAX` is unconstrained.) [`assert_config_valid`] checks these rules.
pub trait Config {
    /// The atomic backend that holds the heap's words.
    type Atomics: Atomics;

    /// Minimum alignment of every allocation, and the step of the linear size
    /// classes. Must be a power of two greater than `2^3` (so, at least 16).
    const MIN_ALIGN: u64;

    /// Smallest allocation class. Must be a power of two and `>= MIN_ALIGN`.
    const LNR_FLOOR: u64;

    /// Boundary between the linear and exponential regions. Must be a power of
    /// two and `>= LNR_FLOOR`.
    const EXP_FLOOR: u64;

    /// Largest managed class; requests above this spill into the oversized
    /// bucket. Must be a power of two and `>= EXP_FLOOR`.
    const EXP_CEIL: u64;

    /// Minimum excess, in bytes, worth carving off a block into a separate free
    /// block instead of retaining as internal slack. Must be a power of two.
    const SPLIT_MIN: u64 = Self::EXP_CEIL;

    /// Number of blocks to carve out of a block that is too large for the
    /// request before the rest may be kept as slack.
    const CARVE_MAX: u64 = 2;

    /// Compile-time base address of the managed heap, or `0` if the base is
    /// only known at runtime.
    const HEAP_BASE: u64 = 0;

    /// Compile-time size of the managed heap, or `0` if only known at runtime.
    const HEAP_SIZE: u64 = 0;

    /// Runtime base address of the managed heap.
    ///
    /// Defaults to the compile-time [`HEAP_BASE`](Config::HEAP_BASE). Override
    /// when the region is discovered at runtime.
    fn heap_base() -> (r: u64)
        default_ensures
            r == Self::HEAP_BASE,
    {
        Self::HEAP_BASE
    }

    /// Runtime size of the managed heap.
    ///
    /// Defaults to the compile-time [`HEAP_SIZE`](Config::HEAP_SIZE). Override
    /// when the region is discovered at runtime.
    fn heap_size() -> (r: u64)
        default_ensures
            r == Self::HEAP_SIZE,
    {
        Self::HEAP_SIZE
    }
}

/// A rule that the constants of a [`Config`] break.
#[derive(Clone, Copy, PartialEq, Eq, Debug, Structural)]
pub enum ConfigError {
    /// `MIN_ALIGN` must be a power of two.
    MinAlignNotPowerOfTwo,
    /// `MIN_ALIGN` must be greater than 8.
    MinAlignTooSmall,
    /// `LNR_FLOOR` must be a power of two.
    LnrFloorNotPowerOfTwo,
    /// `LNR_FLOOR` must be at least `MIN_ALIGN`.
    LnrFloorBelowMinAlign,
    /// `EXP_FLOOR` must be a power of two.
    ExpFloorNotPowerOfTwo,
    /// `EXP_FLOOR` must be at least `LNR_FLOOR`.
    ExpFloorBelowLnrFloor,
    /// `EXP_CEIL` must be a power of two.
    ExpCeilNotPowerOfTwo,
    /// `EXP_CEIL` must be at least `EXP_FLOOR`.
    ExpCeilBelowExpFloor,
    /// `SPLIT_MIN` must be a power of two.
    SplitMinNotPowerOfTwo,
}

/// The rules on the constants of a configuration.
pub open spec fn valid_config<C: Config>() -> bool {
    &&& is_pow2(C::MIN_ALIGN as int)
    &&& C::MIN_ALIGN > 8
    &&& is_pow2(C::LNR_FLOOR as int)
    &&& C::LNR_FLOOR >= C::MIN_ALIGN
    &&& is_pow2(C::EXP_FLOOR as int)
    &&& C::EXP_FLOOR >= C::LNR_FLOOR
    &&& is_pow2(C::EXP_CEIL as int)
    &&& C::EXP_CEIL >= C::EXP_FLOOR
    &&& is_pow2(C::SPLIT_MIN as int)
}

/// The first rule that the constants of a configuration break.
pub open spec fn first_violation<C: Config>() -> Option<ConfigError> {
    if !is_pow2(C::MIN_ALIGN as int) {
        Some(ConfigError::MinAlignNotPowerOfTwo)
    } else if C::MIN_ALIGN <= 8 {
        Some(ConfigError::MinAlignTooSmall)
    } else if !is_pow2(C::LNR_FLOOR as int) {
        Some(ConfigError::LnrFloorNotPowerOfTwo)
    } else if C::LNR_FLOOR < C::MIN_ALIGN {
        Some(ConfigError::LnrFloorBelowMinAlign)
    } else if !is_pow2(C::EXP_FLOOR as int) {
        Some(ConfigError::ExpFloorNotPowerOfTwo)
    } else if C::EXP_FLOOR < C::LNR_FLOOR {
        Some(ConfigError::ExpFloorBelowLnrFloor)
    } else if !is_pow2(C::EXP_CEIL as int) {
        Some(ConfigError::ExpCeilNotPowerOfTwo)
    } else if C::EXP_CEIL < C::EXP_FLOOR {
        Some(ConfigError::ExpCeilBelowExpFloor)
    } else if !is_pow2(C::SPLIT_MIN as int) {
        Some(ConfigError::SplitMinNotPowerOfTwo)
    } else {
        None
    }
}

/// Whether [`heap_base`](Config::heap_base) can return `base`.
pub open spec fn heap_base_is<C: Config>(base: u64) -> bool {
    call_ensures(C::heap_base, (), base)
}

/// Whether [`heap_size`](Config::heap_size) can return `size`.
pub open spec fn heap_size_is<C: Config>(size: u64) -> bool {
    call_ensures(C::heap_size, (), size)
}

/// The heap accessors always give the same answer.
pub open spec fn stable_region<C: Config>() -> bool {
    &&& forall|a: u64, b: u64| heap_base_is::<C>(a) && heap_base_is::<C>(b) ==> a == b
    &&& forall|a: u64, b: u64| heap_size_is::<C>(a) && heap_size_is::<C>(b) ==> a == b
}

/// The address at which the managed region starts.
pub open spec fn region_base<C: Config>() -> int {
    (choose|base: u64| heap_base_is::<C>(base)) as int
}

/// The length of the managed region, in bytes.
pub open spec fn region_size<C: Config>() -> int {
    (choose|size: u64| heap_size_is::<C>(size)) as int
}

/// One past the last address of the managed region.
pub open spec fn region_end<C: Config>() -> int {
    region_base::<C>() + region_size::<C>()
}

/// The number of linear size classes.
pub open spec fn linear_count<C: Config>() -> int {
    (C::EXP_FLOOR - C::LNR_FLOOR) / C::MIN_ALIGN as int
}

/// The number of exponential size classes: two for each octave below
/// `EXP_CEIL`, and `EXP_CEIL` itself.
pub open spec fn exp_count<C: Config>() -> int {
    2 * (log2(C::EXP_CEIL as int) - log2(C::EXP_FLOOR as int)) + 1
}

/// The number of bins: one for each size class, and the oversized one.
pub open spec fn bin_total<C: Config>() -> int {
    linear_count::<C>() + exp_count::<C>() + 1
}

/// Checks a [`Config`]'s constants, reporting the first rule they break.
pub fn assert_config_valid<C: Config>() -> (r: Result<(), ConfigError>)
    ensures
        r is Ok <==> valid_config::<C>(),
        r is Err <==> first_violation::<C>() is Some,
        r matches Err(e) ==> first_violation::<C>() == Some(e),
{
    if !is_power_of_two(C::MIN_ALIGN) {
        return Err(ConfigError::MinAlignNotPowerOfTwo);
    }
    if C::MIN_ALIGN <= 8 {
        return Err(ConfigError::MinAlignTooSmall);
    }
    if !is_power_of_two(C::LNR_FLOOR) {
        return Err(ConfigError::LnrFloorNotPowerOfTwo);
    }
    if C::LNR_FLOOR < C::MIN_ALIGN {
        return Err(ConfigError::LnrFloorBelowMinAlign);
    }
    if !is_power_of_two(C::EXP_FLOOR) {
        return Err(ConfigError::ExpFloorNotPowerOfTwo);
    }
    if C::EXP_FLOOR < C::LNR_FLOOR {
        return Err(ConfigError::ExpFloorBelowLnrFloor);
    }
    if !is_power_of_two(C::EXP_CEIL) {
        return Err(ConfigError::ExpCeilNotPowerOfTwo);
    }
    if C::EXP_CEIL < C::EXP_FLOOR {
        return Err(ConfigError::ExpCeilBelowExpFloor);
    }
    if !is_power_of_two(C::SPLIT_MIN) {
        return Err(ConfigError::SplitMinNotPowerOfTwo);
    }
    Ok(())
}

/// Returns the compile-time heap base of `C`.
///
/// This is [`Config::HEAP_BASE`]; it is `0` when the base is only known at
/// runtime, in which case use [`Config::heap_base`] instead.
pub fn const_heap_base<C: Config>() -> (r: u64)
    ensures
        r == C::HEAP_BASE,
{
    C::HEAP_BASE
}

/// Returns the compile-time heap size of `C`.
///
/// This is [`Config::HEAP_SIZE`]; it is `0` when the size is only known at
/// runtime, in which case use [`Config::heap_size`] instead.
pub fn const_heap_size<C: Config>() -> (r: u64)
    ensures
        r == C::HEAP_SIZE,
{
    C::HEAP_SIZE
}

/// The base-2 logarithms of the size constants are ordered as they are, and
/// below 64.
pub proof fn lemma_config_logs<C: Config>()
    requires
        valid_config::<C>(),
    ensures
        4 <= log2(C::MIN_ALIGN as int) <= log2(C::LNR_FLOOR as int) <= log2(C::EXP_FLOOR as int)
            <= log2(C::EXP_CEIL as int) <= 63,
        C::MIN_ALIGN >= 16,
        C::EXP_CEIL <= 0x8000_0000_0000_0000,
{
    lemma_u64_pow2_log(C::MIN_ALIGN);
    lemma_u64_pow2_log(C::EXP_CEIL);
    lemma_log2_order(C::MIN_ALIGN as int, C::LNR_FLOOR as int);
    lemma_log2_order(C::LNR_FLOOR as int, C::EXP_FLOOR as int);
    lemma_log2_order(C::EXP_FLOOR as int, C::EXP_CEIL as int);
    crate::bits::lemma_pow2_values();
    crate::bits::lemma_pow2_is_pow2(3);
    crate::bits::lemma_pow2_is_pow2(4);
    lemma_log2_order(8, C::MIN_ALIGN as int);
    lemma_log2_order(16, C::MIN_ALIGN as int);
    crate::bits::lemma_pow2_monotonic(log2(C::EXP_CEIL as int), 63);
}

/// The bin counts are small enough to compute with.
pub proof fn lemma_bin_counts<C: Config>()
    requires
        valid_config::<C>(),
    ensures
        0 <= linear_count::<C>() < 0x1000_0000_0000_0000,
        linear_count::<C>() * C::MIN_ALIGN == C::EXP_FLOOR - C::LNR_FLOOR,
        1 <= exp_count::<C>() <= 127,
        2 <= bin_total::<C>() < 0x1000_0000_0000_0080,
{
    lemma_config_logs::<C>();
    let m = C::MIN_ALIGN as int;
    let d = C::EXP_FLOOR - C::LNR_FLOOR;
    lemma_u64_pow2_log(C::MIN_ALIGN);
    crate::bits::lemma_pow2_divides(m, C::LNR_FLOOR as int);
    crate::bits::lemma_pow2_divides(m, C::EXP_FLOOR as int);
    crate::bits::lemma_mod_add_sub(C::EXP_FLOOR as int, C::LNR_FLOOR as int, m);
    vstd::arithmetic::div_mod::lemma_fundamental_div_mod(d, m);
    let q = d / m;
    assert(q * m == d && 0 <= q < 0x1000_0000_0000_0000) by (nonlinear_arith)
        requires
            d == m * q,
            0 <= d < 0x1_0000_0000_0000_0000,
            m >= 16,
    ;
}

/// Number of linear size classes.
pub fn num_linear<C: Config>() -> (r: u64)
    requires
        valid_config::<C>(),
    ensures
        r == linear_count::<C>(),
{
    (C::EXP_FLOOR - C::LNR_FLOOR) / C::MIN_ALIGN
}

/// Number of exponential size classes.
pub fn num_exp<C: Config>() -> (r: u64)
    requires
        valid_config::<C>(),
    ensures
        r == exp_count::<C>(),
{
    proof {
        lemma_config_logs::<C>();
    }
    2 * (ilog2(C::EXP_CEIL) - ilog2(C::EXP_FLOOR)) + 1
}

/// Number of bins: one per size class, and the oversized bin, which is the last.
pub fn num_bins<C: Config>() -> (r: u64)
    requires
        valid_config::<C>(),
    ensures
        r == bin_total::<C>(),
{
    proof {
        lemma_bin_counts::<C>();
    }
    num_linear::<C>() + num_exp::<C>() + 1
}

} // verus!
