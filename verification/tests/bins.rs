use cadalloc::classes::{bin_class, bin_index};
use cadalloc::config::num_bins;
use cadalloc::{CadAlloc, Config, CoreAtomics};

struct TestConfig;

impl Config for TestConfig {
    type Atomics = CoreAtomics;

    const MIN_ALIGN: u64 = 16;
    const LNR_FLOOR: u64 = 32;
    const EXP_FLOOR: u64 = 256;
    const EXP_CEIL: u64 = 65536;

    const HEAP_BASE: u64 = 0x1_0000;
    const HEAP_SIZE: u64 = 0x10_0000;
}

type C = TestConfig;

#[test]
fn bin_classes_are_ordered_and_aligned() {
    let fixed = num_bins::<TestConfig>() - 1;
    let mut prev = 0;
    for k in 0..fixed {
        let c = bin_class::<TestConfig>(k);
        assert!(c > prev, "bin {k} class {c} not increasing from {prev}");
        assert_eq!(c % TestConfig::MIN_ALIGN, 0, "bin {k} class {c} misaligned");
        prev = c;
    }
    // First/last known classes (14 linear: bins 0..13 = 32..240; exp from bin 14).
    assert_eq!(bin_class::<TestConfig>(0), 32);
    assert_eq!(bin_class::<TestConfig>(13), 240);
    assert_eq!(bin_class::<TestConfig>(14), 256);
    assert_eq!(bin_class::<TestConfig>(15), 384);
    assert_eq!(bin_class::<TestConfig>(fixed - 1), 65536);
    assert_eq!(bin_class::<TestConfig>(fixed), u64::MAX); // oversized sentinel
}

#[test]
fn bin_index_round_trips_every_class() {
    let fixed = num_bins::<TestConfig>() - 1;
    for k in 0..fixed {
        let c = bin_class::<TestConfig>(k);
        assert_eq!(bin_index::<TestConfig>(c), k, "class {c} did not map back to bin {k}");
    }
}

#[test]
fn bin_index_always_fits() {
    for s in [
        1u64, 15, 16, 17, 100, 240, 241, 255, 256, 257, 384, 385, 512, 4096, 65535, 65536,
    ] {
        let k = bin_index::<TestConfig>(s);
        assert!(k < num_bins::<TestConfig>() - 1, "size {s} unexpectedly oversized");
        assert!(bin_class::<TestConfig>(k) >= s, "bin {k} class too small for {s}");
    }
    // Above EXP_CEIL is the oversized bin.
    assert_eq!(bin_index::<TestConfig>(65537), num_bins::<TestConfig>() - 1);
    assert_eq!(bin_index::<TestConfig>(1 << 30), num_bins::<TestConfig>() - 1);
}

#[test]
fn bin_index_is_the_first_that_fits() {
    // The bin of a size is the first whose class holds it, for every size around
    // every class.
    let fixed = num_bins::<C>() - 1;
    for k in 0..fixed {
        let c = bin_class::<C>(k);
        assert_eq!(bin_index::<C>(c - 1), k);
        assert_eq!(bin_index::<C>(c + 1), k + 1);
    }
    assert_eq!(bin_index::<C>(0), 0);
    assert_eq!(bin_index::<C>(u64::MAX), fixed);
}

fn align_up(x: u64, a: u64) -> u64 {
    (x + (a - 1)) & !(a - 1)
}

// The alignment a class of size `v` demands.
fn class_align(v: u64) -> u64 {
    if v < C::EXP_FLOOR {
        C::MIN_ALIGN
    } else {
        let a = 1u64 << (v.ilog2() - 1);
        if a < C::MIN_ALIGN {
            C::MIN_ALIGN
        } else {
            a
        }
    }
}

// Ground truth: a region past EXP_CEIL is one oversized block aligned to
// EXP_CEIL (falling back to fixed if that rounding shrinks it into the fixed
// range); otherwise the largest fixed class fitting `len` and aligned at
// `end`.
fn reference(end: u64, len: u64) -> u64 {
    let mut cap = len;
    if len > C::EXP_CEIL {
        let size = end - align_up(end - len, C::EXP_CEIL);
        if size > C::EXP_CEIL {
            return size;
        }
        cap = C::EXP_CEIL;
    }
    let mut best = 0;
    let fixed = num_bins::<C>() - 1;
    let mut bin = 0;
    while bin < fixed {
        let c = bin_class::<C>(bin);
        if c <= cap && end % class_align(c) == 0 && c > best {
            best = c;
        }
        bin += 1;
    }
    best
}

#[test]
fn largest_carvable_matches_brute_force() {
    for ez in 4..21u32 {
        // Three addresses whose largest power-of-two divisor is exactly 2^ez,
        // kept well above the largest tested `len` so `end - len` is valid.
        for m in 0..3u64 {
            let end = ((2 * m + 1) + (1u64 << 20)) << ez;
            for &len in &[
                1u64, 16, 100, 240, 255, 256, 300, 500, 768, 1000, 2048, 3000, 4096, 6144, 60000,
                65536, 70000, 200000,
            ] {
                let (size, bin) = CadAlloc::<C>::largest_carvable(end, len);
                let expected = reference(end, len);
                assert_eq!(size, expected, "end={end:#x} len={len}: size mismatch");
                if size == 0 {
                    continue;
                }
                if bin == num_bins::<C>() - 1 {
                    assert!(size > C::EXP_CEIL, "oversized bin holds a small block");
                    assert_eq!((end - size) % C::EXP_CEIL, 0, "oversized misaligned");
                } else {
                    assert_eq!(bin_class::<C>(bin), size, "bin/size disagree");
                    assert_eq!(end % class_align(size), 0, "carved block misaligned");
                }
            }
        }
    }
}

#[test]
fn request_sizes() {
    // Payload rounded up to 16, plus a 16-byte header, in the first class that
    // holds it.
    assert_eq!(CadAlloc::<C>::request_block_size(0), Some(32));
    assert_eq!(CadAlloc::<C>::request_block_size(16), Some(32));
    assert_eq!(CadAlloc::<C>::request_block_size(17), Some(48));
    assert_eq!(CadAlloc::<C>::request_block_size(100), Some(128));
    assert_eq!(CadAlloc::<C>::request_block_size(240), Some(256));
    assert_eq!(CadAlloc::<C>::request_block_size(241), Some(384));
    assert_eq!(CadAlloc::<C>::request_block_size(65520), Some(65536));
    // Oversized requests get exactly what they need.
    assert_eq!(CadAlloc::<C>::request_block_size(65521), Some(65552));
    assert_eq!(CadAlloc::<C>::request_block_size(70_000), Some(70_016));
    // No total that fits 64 bits.
    assert_eq!(CadAlloc::<C>::request_block_size(u64::MAX), None);
    assert_eq!(CadAlloc::<C>::request_block_size(u64::MAX - 15), None);
    assert_eq!(CadAlloc::<C>::request_block_size(u64::MAX - 31), Some(u64::MAX - 15));
    assert_eq!(CadAlloc::<C>::block_need(100), Some(128));
    assert_eq!(CadAlloc::<C>::block_need(241), Some(272));
    assert_eq!(CadAlloc::<C>::block_need(u64::MAX), None);
}

#[test]
fn floors_and_exact_sizes() {
    assert_eq!(CadAlloc::<C>::floor_bin(32), 0);
    assert_eq!(CadAlloc::<C>::floor_bin(47), 0);
    assert_eq!(CadAlloc::<C>::floor_bin(48), 1);
    assert_eq!(CadAlloc::<C>::floor_bin(255), 13);
    assert_eq!(CadAlloc::<C>::floor_bin(256), 14);
    assert_eq!(CadAlloc::<C>::floor_bin(511), 15);
    assert_eq!(CadAlloc::<C>::floor_bin(65536), 30);
    assert!(CadAlloc::<C>::is_block_exact(256));
    assert!(!CadAlloc::<C>::is_block_exact(272));
    assert!(CadAlloc::<C>::is_block_exact(384));
    assert!(!CadAlloc::<C>::is_block_exact(65535));
    assert!(CadAlloc::<C>::is_block_exact(65537));
    assert_eq!(CadAlloc::<C>::oversize_bin(), 31);
}

#[test]
fn alignments_by_bin() {
    assert_eq!(CadAlloc::<C>::align_of_bin(0), 16);
    assert_eq!(CadAlloc::<C>::align_of_bin(13), 16);
    assert_eq!(CadAlloc::<C>::align_of_bin(14), 128); // 256
    assert_eq!(CadAlloc::<C>::align_of_bin(15), 128); // 384
    assert_eq!(CadAlloc::<C>::align_of_bin(16), 256); // 512
    assert_eq!(CadAlloc::<C>::align_of_bin(30), 32768); // 65536
    assert_eq!(CadAlloc::<C>::align_of_bin(31), 65536); // oversized
}

/// No linear classes, and a first octave whose upper half is no multiple of
/// `MIN_ALIGN`.
struct Odd;

impl Config for Odd {
    type Atomics = CoreAtomics;
    const MIN_ALIGN: u64 = 16;
    const LNR_FLOOR: u64 = 16;
    const EXP_FLOOR: u64 = 16;
    const EXP_CEIL: u64 = 64;
}

#[test]
fn an_odd_first_octave_is_rounded_up() {
    assert_eq!(num_bins::<Odd>(), 6);
    assert_eq!(bin_class::<Odd>(0), 16);
    assert_eq!(bin_class::<Odd>(1), 32);
    assert_eq!(bin_class::<Odd>(2), 32);
    assert_eq!(bin_class::<Odd>(3), 48);
    assert_eq!(bin_class::<Odd>(4), 64);
    assert_eq!(bin_index::<Odd>(32), 2);
}

#[test]
fn floors_skip_the_rounded_class() {
    assert_eq!(CadAlloc::<Odd>::floor_bin(16), 0);
    assert_eq!(CadAlloc::<Odd>::floor_bin(24), 0);
    assert_eq!(CadAlloc::<Odd>::floor_bin(25), 0); // not bin 1, whose class is 32
    assert_eq!(CadAlloc::<Odd>::floor_bin(31), 0);
    assert_eq!(CadAlloc::<Odd>::floor_bin(32), 2);
    assert_eq!(CadAlloc::<Odd>::floor_bin(47), 2);
    assert_eq!(CadAlloc::<Odd>::floor_bin(48), 3);
    assert_eq!(CadAlloc::<Odd>::largest_carvable(64, 25), (16, 0));
    assert_eq!(CadAlloc::<Odd>::largest_carvable(64, 31), (16, 0));
    assert_eq!(CadAlloc::<Odd>::largest_carvable(64, 32), (32, 2));
    assert_eq!(CadAlloc::<Odd>::largest_carvable(64, 15), (0, 0));
}
