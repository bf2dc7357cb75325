use cadalloc::ffi::{c_alloc, c_free, c_init, c_realloc, c_verify};
use cadalloc::{Config, CoreAtomics, InitError, Slice, VerifyError};

const HEAP_N: u64 = 1 << 16;
const BASE: u64 = 0x2_0040;

struct FfiConfig;

impl Config for FfiConfig {
    type Atomics = CoreAtomics;
    const MIN_ALIGN: u64 = 16;
    const LNR_FLOOR: u64 = 32;
    const EXP_FLOOR: u64 = 256;
    const EXP_CEIL: u64 = 4096;
    fn heap_base() -> u64 {
        BASE
    }
    fn heap_size() -> u64 {
        HEAP_N
    }
}

#[test]
fn ffi_shims_round_trip() {
    let mut mem = CoreAtomics::new(BASE, (HEAP_N / 8) as usize);
    // BadMagic before init, then the full round trip through the C entry points.
    assert_eq!(c_verify::<FfiConfig>(&mem), 1);
    assert_eq!(c_init::<FfiConfig>(&mut mem), 0);
    assert_eq!(c_verify::<FfiConfig>(&mem), 0);

    let s = c_alloc::<FfiConfig>(&mut mem, 100);
    assert!(!s.is_null());
    assert!(s.len >= 100);
    c_free::<FfiConfig>(&mut mem, s);

    // Reuse after free (LIFO), exercising both alloc and free shims.
    let s2 = c_alloc::<FfiConfig>(&mut mem, 100);
    assert_eq!(s2.ptr, s.ptr);

    // realloc shim: grow, then free through the shim.
    let s3 = c_realloc::<FfiConfig>(&mut mem, s2, 2000);
    assert!(!s3.is_null());
    assert!(s3.len >= 2000);
    c_free::<FfiConfig>(&mut mem, s3);

    // realloc(NULL, ...) behaves like alloc.
    let s4 = c_realloc::<FfiConfig>(&mut mem, Slice::null(), 64);
    assert!(!s4.is_null());
    c_free::<FfiConfig>(&mut mem, s4);
}

struct Misaligned;
impl Config for Misaligned {
    type Atomics = CoreAtomics;
    const MIN_ALIGN: u64 = 16;
    const LNR_FLOOR: u64 = 32;
    const EXP_FLOOR: u64 = 256;
    const EXP_CEIL: u64 = 4096;
    const HEAP_BASE: u64 = BASE + 8;
    const HEAP_SIZE: u64 = HEAP_N;
}

struct Tiny;
impl Config for Tiny {
    type Atomics = CoreAtomics;
    const MIN_ALIGN: u64 = 16;
    const LNR_FLOOR: u64 = 32;
    const EXP_FLOOR: u64 = 256;
    const EXP_CEIL: u64 = 4096;
    const HEAP_BASE: u64 = BASE;
    const HEAP_SIZE: u64 = 16;
}

struct Other;
impl Config for Other {
    type Atomics = CoreAtomics;
    const MIN_ALIGN: u64 = 16;
    const LNR_FLOOR: u64 = 32;
    const EXP_FLOOR: u64 = 256;
    const EXP_CEIL: u64 = 4096;
    const CARVE_MAX: u64 = 3;
    const HEAP_BASE: u64 = BASE;
    const HEAP_SIZE: u64 = HEAP_N;
}

#[test]
fn status_codes() {
    let mut mem = CoreAtomics::new(BASE, (HEAP_N / 8) as usize);
    assert_eq!(c_init::<Misaligned>(&mut mem), 1);
    assert_eq!(c_init::<Tiny>(&mut mem), 2);
    assert_eq!(c_init::<FfiConfig>(&mut mem), 0);
    assert_eq!(c_verify::<Other>(&mem), 2);
    assert_eq!(InitError::MisalignedHeap.code(), 1);
    assert_eq!(InitError::HeapTooSmall.code(), 2);
    assert_eq!(VerifyError::BadMagic.code(), 1);
    assert_eq!(VerifyError::ConfigMismatch.code(), 2);
}
