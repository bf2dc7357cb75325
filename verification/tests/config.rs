use cadalloc::config::{num_bins, num_exp, num_linear};
use cadalloc::{
    assert_config_valid, const_heap_base, const_heap_size, CadAlloc, Config, ConfigError,
    CoreAtomics, Slice,
};

/// A representative configuration used to exercise the config surface.
struct TestConfig;

impl Config for TestConfig {
    type Atomics = CoreAtomics;

    const MIN_ALIGN: u64 = 16;
    const LNR_FLOOR: u64 = 32;
    const EXP_FLOOR: u64 = 256;
    const EXP_CEIL: u64 = 65536;

    const HEAP_BASE: u64 = 0x1_0000;
    const HEAP_SIZE: u64 = 0x10_0000;
}

#[test]
fn const_heap_accessors_read_compile_time_values() {
    assert_eq!(const_heap_base::<TestConfig>(), 0x1_0000);
    assert_eq!(const_heap_size::<TestConfig>(), 0x10_0000);
    assert_eq!(TestConfig::heap_base(), 0x1_0000);
    assert_eq!(TestConfig::heap_size(), 0x10_0000);
}

#[test]
fn slice_null_and_bounds() {
    assert!(Slice::null().is_null());
    let s = Slice::new(0x1000, 0x100);
    assert!(!s.is_null());
    assert_eq!(s.end(), 0x1100);
    assert!(s.contains(0x1000));
    assert!(s.contains(0x10FF));
    assert!(!s.contains(0x1100));
}

#[test]
fn slice_edges() {
    assert_eq!(Slice::null(), Slice::new(0, 0));
    assert_eq!(Slice::default(), Slice::null());
    // A null base is null whatever the length; an empty slice covers nothing.
    assert!(Slice::new(0, 64).is_null());
    let empty = Slice::new(0x1000, 0);
    assert!(!empty.is_null());
    assert!(!empty.contains(0x1000));
    assert!(!empty.contains(0x0FFF));
    // The end of a slice at the top of the address space wraps.
    assert_eq!(Slice::new(u64::MAX, 1).end(), 0);
    assert_eq!(Slice::new(u64::MAX, 2).end(), 1);
}

#[test]
fn bin_counts_are_statically_computed() {
    // MIN_ALIGN=16, LNR_FLOOR=32, EXP_FLOOR=256, EXP_CEIL=65536:
    // linear = (256-32)/16 = 14; exp = 2*(16-8)+1 = 17; +1 oversized = 32.
    assert_eq!(num_linear::<TestConfig>(), 14);
    assert_eq!(num_exp::<TestConfig>(), 17);
    assert_eq!(num_bins::<TestConfig>(), 32);
    assert_eq!(CadAlloc::<TestConfig>::bin_count(), 32);
}

/// Everything at the smallest admissible value: one exponential class and no
/// linear ones.
struct Smallest;

impl Config for Smallest {
    type Atomics = CoreAtomics;
    const MIN_ALIGN: u64 = 16;
    const LNR_FLOOR: u64 = 16;
    const EXP_FLOOR: u64 = 16;
    const EXP_CEIL: u64 = 16;
}

#[test]
fn smallest_configuration() {
    assert_eq!(assert_config_valid::<Smallest>(), Ok(()));
    assert_eq!(num_linear::<Smallest>(), 0);
    assert_eq!(num_exp::<Smallest>(), 1);
    assert_eq!(num_bins::<Smallest>(), 2);
    // The defaults of the optional constants.
    assert_eq!(Smallest::SPLIT_MIN, 16);
    assert_eq!(Smallest::CARVE_MAX, 2);
    assert_eq!(Smallest::HEAP_BASE, 0);
    assert_eq!(Smallest::HEAP_SIZE, 0);
    assert_eq!(Smallest::heap_base(), 0);
    assert_eq!(Smallest::heap_size(), 0);
}

/// The region is only known at run time.
struct AtRunTime;

impl Config for AtRunTime {
    type Atomics = CoreAtomics;
    const MIN_ALIGN: u64 = 16;
    const LNR_FLOOR: u64 = 32;
    const EXP_FLOOR: u64 = 256;
    const EXP_CEIL: u64 = 4096;
    fn heap_base() -> u64 {
        0x7000
    }
    fn heap_size() -> u64 {
        0x2000
    }
}

#[test]
fn run_time_region_overrides_the_constants() {
    assert_eq!(AtRunTime::heap_base(), 0x7000);
    assert_eq!(AtRunTime::heap_size(), 0x2000);
    assert_eq!(const_heap_base::<AtRunTime>(), 0);
    assert_eq!(const_heap_size::<AtRunTime>(), 0);
}

struct AlignNotPower;
impl Config for AlignNotPower {
    type Atomics = CoreAtomics;
    const MIN_ALIGN: u64 = 24;
    const LNR_FLOOR: u64 = 32;
    const EXP_FLOOR: u64 = 256;
    const EXP_CEIL: u64 = 4096;
}

struct AlignTooSmall;
impl Config for AlignTooSmall {
    type Atomics = CoreAtomics;
    const MIN_ALIGN: u64 = 8;
    const LNR_FLOOR: u64 = 32;
    const EXP_FLOOR: u64 = 256;
    const EXP_CEIL: u64 = 4096;
}

struct FloorNotPower;
impl Config for FloorNotPower {
    type Atomics = CoreAtomics;
    const MIN_ALIGN: u64 = 16;
    const LNR_FLOOR: u64 = 48;
    const EXP_FLOOR: u64 = 256;
    const EXP_CEIL: u64 = 4096;
}

struct FloorBelowAlign;
impl Config for FloorBelowAlign {
    type Atomics = CoreAtomics;
    const MIN_ALIGN: u64 = 32;
    const LNR_FLOOR: u64 = 16;
    const EXP_FLOOR: u64 = 256;
    const EXP_CEIL: u64 = 4096;
}

struct ExpFloorNotPower;
impl Config for ExpFloorNotPower {
    type Atomics = CoreAtomics;
    const MIN_ALIGN: u64 = 16;
    const LNR_FLOOR: u64 = 32;
    const EXP_FLOOR: u64 = 0;
    const EXP_CEIL: u64 = 4096;
}

struct ExpFloorBelowFloor;
impl Config for ExpFloorBelowFloor {
    type Atomics = CoreAtomics;
    const MIN_ALIGN: u64 = 16;
    const LNR_FLOOR: u64 = 64;
    const EXP_FLOOR: u64 = 32;
    const EXP_CEIL: u64 = 4096;
}

struct CeilNotPower;
impl Config for CeilNotPower {
    type Atomics = CoreAtomics;
    const MIN_ALIGN: u64 = 16;
    const LNR_FLOOR: u64 = 32;
    const EXP_FLOOR: u64 = 256;
    const EXP_CEIL: u64 = 4097;
}

struct CeilBelowExpFloor;
impl Config for CeilBelowExpFloor {
    type Atomics = CoreAtomics;
    const MIN_ALIGN: u64 = 16;
    const LNR_FLOOR: u64 = 32;
    const EXP_FLOOR: u64 = 256;
    const EXP_CEIL: u64 = 128;
}

struct SplitNotPower;
impl Config for SplitNotPower {
    type Atomics = CoreAtomics;
    const MIN_ALIGN: u64 = 16;
    const LNR_FLOOR: u64 = 32;
    const EXP_FLOOR: u64 = 256;
    const EXP_CEIL: u64 = 4096;
    const SPLIT_MIN: u64 = 100;
}

#[test]
fn each_broken_rule_is_named() {
    assert_eq!(assert_config_valid::<TestConfig>(), Ok(()));
    assert_eq!(assert_config_valid::<AlignNotPower>(), Err(ConfigError::MinAlignNotPowerOfTwo));
    assert_eq!(assert_config_valid::<AlignTooSmall>(), Err(ConfigError::MinAlignTooSmall));
    assert_eq!(assert_config_valid::<FloorNotPower>(), Err(ConfigError::LnrFloorNotPowerOfTwo));
    assert_eq!(assert_config_valid::<FloorBelowAlign>(), Err(ConfigError::LnrFloorBelowMinAlign));
    assert_eq!(
        assert_config_valid::<ExpFloorNotPower>(),
        Err(ConfigError::ExpFloorNotPowerOfTwo)
    );
    assert_eq!(
        assert_config_valid::<ExpFloorBelowFloor>(),
        Err(ConfigError::ExpFloorBelowLnrFloor)
    );
    assert_eq!(assert_config_valid::<CeilNotPower>(), Err(ConfigError::ExpCeilNotPowerOfTwo));
    assert_eq!(
        assert_config_valid::<CeilBelowExpFloor>(),
        Err(ConfigError::ExpCeilBelowExpFloor)
    );
    assert_eq!(assert_config_valid::<SplitNotPower>(), Err(ConfigError::SplitMinNotPowerOfTwo));
}
