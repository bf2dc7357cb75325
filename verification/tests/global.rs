use cadalloc::{Atomics, CadAlloc, Config, CoreAtomics};

const HEAP_N: u64 = 1 << 16;
const BASE: u64 = 0x3_0040;

struct GaConfig;

impl Config for GaConfig {
    type Atomics = CoreAtomics;
    const MIN_ALIGN: u64 = 16;
    const LNR_FLOOR: u64 = 32;
    const EXP_FLOOR: u64 = 256;
    const EXP_CEIL: u64 = 4096;
    fn heap_base() -> u64 {
        BASE
    }
    fn heap_size() -> u64 {
        HEAP_N
    }
}

fn byte(mem: &CoreAtomics, addr: u64) -> u8 {
    (mem.atomic_load(addr & !7) >> (8 * (addr % 8))) as u8
}

fn write_bytes(mem: &mut CoreAtomics, addr: u64, val: u8, count: u64) {
    for a in addr..addr + count {
        let shift = 8 * (a % 8);
        let word = mem.atomic_load(a & !7) & !(0xFF << shift);
        mem.atomic_store(a & !7, word | ((val as u64) << shift));
    }
}

#[test]
fn global_alloc_impl_round_trips() {
    let mut mem = CoreAtomics::new(BASE, (HEAP_N / 8) as usize);
    let a = CadAlloc::<GaConfig>::new();
    a.init(&mut mem).expect("init");

    // Alignment beyond MIN_ALIGN is unsatisfiable and refused (null).
    assert_eq!(a.global_alloc(&mut mem, 64, 256), 0);

    // A zeroed allocation must zero even a *reused, dirty* block: dirty one, free
    // it, then the zeroed alloc reclaims it (LIFO) cleared.
    let d = a.global_alloc(&mut mem, 100, 8);
    assert_ne!(d, 0);
    write_bytes(&mut mem, d, 0xFF, 100);
    a.global_dealloc(&mut mem, d);
    let z = a.global_alloc_zeroed(&mut mem, 100, 8);
    assert_eq!(z, d, "freed block of the same class should be reused");
    for i in 0..100 {
        assert_eq!(byte(&mem, z + i), 0, "alloc_zeroed left byte {i} dirty");
    }
    a.global_dealloc(&mut mem, z);

    // A normal allocation is non-null, MIN_ALIGN-aligned, and writable.
    let p = a.global_alloc(&mut mem, 100, 8);
    assert_ne!(p, 0);
    assert_eq!(p % 16, 0, "not MIN_ALIGN-aligned");
    write_bytes(&mut mem, p, 0xAB, 100);

    // realloc grows (relocating past EXP_CEIL), preserving the old bytes.
    let p2 = a.global_realloc(&mut mem, p, 100, 5000);
    assert_ne!(p2, 0);
    for i in 0..100 {
        assert_eq!(byte(&mem, p2 + i), 0xAB, "realloc lost byte {i}");
    }

    a.global_dealloc(&mut mem, p2);
    assert_eq!(a.verify(&mem), Ok(()));
}

#[test]
fn allocating_before_init_returns_null() {
    let mut mem = CoreAtomics::new(BASE, (HEAP_N / 8) as usize);
    let a = CadAlloc::<GaConfig>::new();
    for _ in 0..3 {
        assert_eq!(a.global_alloc(&mut mem, 100, 8), 0);
        assert_eq!(a.global_alloc_zeroed(&mut mem, 100, 8), 0);
    }
    for i in 0..HEAP_N / 8 {
        assert_eq!(mem.atomic_load(BASE + 8 * i), 0);
    }
    a.init(&mut mem).expect("init");
    assert_ne!(a.global_alloc(&mut mem, 100, 16), 0);
}

#[test]
fn null_is_left_alone() {
    let mut mem = CoreAtomics::new(BASE, (HEAP_N / 8) as usize);
    let a = CadAlloc::<GaConfig>::new();
    a.init(&mut mem).expect("init");
    a.global_dealloc(&mut mem, 0);
    // Zero bytes are still a block, of the smallest class.
    let p = a.global_alloc_zeroed(&mut mem, 0, 1);
    assert_ne!(p, 0);
    let q = a.global_realloc(&mut mem, 0, 0, 10);
    assert_eq!(q, p + 32);
    // A resize that fails leaves the memory valid.
    assert_eq!(a.global_realloc(&mut mem, q, 10, HEAP_N), 0);
    assert_eq!(a.global_realloc(&mut mem, q, 10, 16), q);
}

#[test]
fn zeroing_stops_at_the_request() {
    let mut mem = CoreAtomics::new(BASE, (HEAP_N / 8) as usize);
    let a = CadAlloc::<GaConfig>::new();
    a.init(&mut mem).expect("init");
    // The class of 128, with 112 payload bytes.
    let d = a.global_alloc(&mut mem, 112, 8);
    for size in 97..=112u64 {
        write_bytes(&mut mem, d, 0xFF, 112);
        a.global_dealloc(&mut mem, d);
        assert_eq!(a.global_alloc_zeroed(&mut mem, size, 8), d);
        for i in 0..112 {
            let expected = if i < size { 0 } else { 0xFF };
            assert_eq!(byte(&mem, d + i), expected, "size {size}, byte {i}");
        }
    }
    // The smallest class.
    let d = a.global_alloc(&mut mem, 16, 8);
    for size in 0..=16u64 {
        write_bytes(&mut mem, d, 0xA5, 16);
        a.global_dealloc(&mut mem, d);
        assert_eq!(a.global_alloc_zeroed(&mut mem, size, 8), d);
        for i in 0..16 {
            let expected = if i < size { 0 } else { 0xA5 };
            assert_eq!(byte(&mem, d + i), expected, "size {size}, byte {i}");
        }
    }
}
