use cadalloc::header::{header_is_free, header_size, pack, FREE, USED};
use cadalloc::{Atomics, CadAlloc, Config, CoreAtomics, InitError, Slice, VerifyError};

/// `"CADALLOC"` as a little-endian u64, computed independently of the crate.
const MAGIC_LE: u64 = u64::from_le_bytes(*b"CADALLOC");

const HEAP_N: u64 = 1 << 16;

/// An address that is 64-byte aligned, and no more.
const BASE: u64 = 0x1_0040;

fn heap() -> CoreAtomics {
    CoreAtomics::new(BASE, (HEAP_N / 8) as usize)
}

/// A small `EXP_CEIL`, so the oversized path is reachable within the buffer.
struct HeapConfig;

impl Config for HeapConfig {
    type Atomics = CoreAtomics;

    const MIN_ALIGN: u64 = 16;
    const LNR_FLOOR: u64 = 32;
    const EXP_FLOOR: u64 = 256;
    const EXP_CEIL: u64 = 4096;

    fn heap_base() -> u64 {
        BASE
    }
    fn heap_size() -> u64 {
        HEAP_N
    }
}

/// Same heap as `HeapConfig` but a different `EXP_CEIL`, so its fingerprint
/// differs.
struct MismatchConfig;

impl Config for MismatchConfig {
    type Atomics = CoreAtomics;
    const MIN_ALIGN: u64 = 16;
    const LNR_FLOOR: u64 = 32;
    const EXP_FLOOR: u64 = 256;
    const EXP_CEIL: u64 = 8192; // differs from HeapConfig's 4096
    fn heap_base() -> u64 {
        BASE
    }
    fn heap_size() -> u64 {
        HEAP_N
    }
}

/// Returns `true` if the payloads `[ptr, ptr+len)` of `a` and `b` overlap.
fn overlap(a: Slice, b: Slice) -> bool {
    a.ptr < b.ptr + b.len && b.ptr < a.ptr + a.len
}

fn fill(mem: &mut CoreAtomics, s: Slice, token: u64) {
    for i in 0..s.len / 8 {
        mem.atomic_store(s.ptr + 8 * i, token);
    }
}

fn check_prefix(mem: &CoreAtomics, s: Slice, token: u64, words: u64) {
    for i in 0..words {
        assert_eq!(mem.atomic_load(s.ptr + 8 * i), token, "corruption at word {i}");
    }
}

/// Every word of the heap.
fn words(mem: &CoreAtomics) -> Vec<u64> {
    (0..HEAP_N / 8).map(|i| mem.atomic_load(BASE + 8 * i)).collect()
}

#[test]
fn allocator_alloc_free_reuse() {
    let mut mem = heap();
    let a = CadAlloc::<HeapConfig>::new();

    // A pristine (zeroed) heap has no marker.
    assert_eq!(a.verify(&mem), Err(VerifyError::BadMagic));

    a.init(&mut mem).expect("init");

    // After init the marker and fingerprint check out...
    assert_eq!(a.verify(&mem), Ok(()));
    assert_eq!(CadAlloc::<HeapConfig>::magic(), MAGIC_LE);
    // ...but a different configuration is rejected.
    assert_eq!(
        CadAlloc::<MismatchConfig>::new().verify(&mem),
        Err(VerifyError::ConfigMismatch)
    );

    // Basic fixed-class allocation.
    let s1 = a.allocate(&mut mem, 100);
    assert!(!s1.is_null());
    assert_eq!(s1.ptr % 16, 0, "payload must be MIN_ALIGN-aligned");
    assert!(s1.len >= 100, "capacity {} < requested 100", s1.len);

    // A second allocation must not overlap the first.
    let s2 = a.allocate(&mut mem, 100);
    assert!(!s2.is_null());
    assert_ne!(s1.ptr, s2.ptr);
    assert!(
        s2.ptr >= s1.ptr + s1.len || s1.ptr >= s2.ptr + s2.len,
        "blocks overlap"
    );

    // Freeing then re-allocating the same class reuses the block (LIFO).
    let p1 = s1.ptr;
    a.free(&mut mem, s1);
    let s3 = a.allocate(&mut mem, 100);
    assert_eq!(s3.ptr, p1, "freed block should be reused");

    a.free(&mut mem, s2);
    a.free(&mut mem, s3);

    // Oversized path: > EXP_CEIL (4096).
    let big = a.allocate(&mut mem, 5000);
    assert!(!big.is_null());
    assert!(big.len >= 5000);
    let bp = big.ptr;
    a.free(&mut mem, big);
    // First-fit on the oversized list should recover the same block.
    let big2 = a.allocate(&mut mem, 5000);
    assert_eq!(big2.ptr, bp, "oversized block should be reused");
    a.free(&mut mem, big2);
}

struct Misaligned;
impl Config for Misaligned {
    type Atomics = CoreAtomics;
    const MIN_ALIGN: u64 = 16;
    const LNR_FLOOR: u64 = 32;
    const EXP_FLOOR: u64 = 256;
    const EXP_CEIL: u64 = 4096;
    fn heap_base() -> u64 {
        BASE + 8 // deliberately off-alignment
    }
    fn heap_size() -> u64 {
        HEAP_N
    }
}

struct Tiny;
impl Config for Tiny {
    type Atomics = CoreAtomics;
    const MIN_ALIGN: u64 = 16;
    const LNR_FLOOR: u64 = 32;
    const EXP_FLOOR: u64 = 256;
    const EXP_CEIL: u64 = 4096;
    fn heap_base() -> u64 {
        BASE
    }
    fn heap_size() -> u64 {
        16 // far too small for the control region
    }
}

#[test]
fn init_rejects_bad_heap() {
    let mut mem = heap();
    assert_eq!(
        CadAlloc::<Misaligned>::new().init(&mut mem),
        Err(InitError::MisalignedHeap)
    );
    assert_eq!(CadAlloc::<Tiny>::new().init(&mut mem), Err(InitError::HeapTooSmall));
    // Nothing was written.
    for i in 0..HEAP_N / 8 {
        assert_eq!(mem.atomic_load(BASE + 8 * i), 0);
    }
}

#[test]
fn the_control_region_is_laid_out_in_words() {
    let mut mem = heap();
    let a = CadAlloc::<HeapConfig>::default();
    // 14 linear, 9 exponential, 1 oversized; 16 bytes of metadata, a word for each
    // bin, the bump pointer and the lock, rounded up to 16.
    assert_eq!(CadAlloc::<HeapConfig>::bin_count(), 24);
    assert_eq!(CadAlloc::<HeapConfig>::control_bytes(), 224);
    for i in 0..HEAP_N / 8 {
        mem.atomic_store(BASE + 8 * i, 0xDEAD);
    }
    assert_eq!(a.init(&mut mem), Ok(()));
    assert_eq!(mem.atomic_load(BASE), MAGIC_LE);
    assert_eq!(mem.atomic_load(BASE + 8), CadAlloc::<HeapConfig>::config_hash());
    for k in 0..24 {
        assert_eq!(mem.atomic_load(BASE + 16 + 8 * k), 0);
    }
    assert_eq!(mem.atomic_load(BASE + 16 + 8 * 24), BASE + 224); // bump
    assert_eq!(mem.atomic_load(BASE + 16 + 8 * 25), 0); // lock
    // The payload area is left as it was.
    assert_eq!(mem.atomic_load(BASE + 224), 0xDEAD);
    assert_eq!(mem.atomic_load(BASE + HEAP_N - 8), 0xDEAD);

    // The first block starts where the payload area does; its header holds its
    // size, and freeing sets the flag and links it.
    let s = a.allocate(&mut mem, 100);
    assert_eq!(s, Slice::new(BASE + 224 + 16, 112));
    assert_eq!(mem.atomic_load(BASE + 224), 128);
    assert_eq!(mem.atomic_load(BASE + 16 + 8 * 24), BASE + 224 + 128);
    a.free(&mut mem, s);
    assert_eq!(mem.atomic_load(BASE + 224), 129);
    assert_eq!(mem.atomic_load(BASE + 232), 0);
    // Bin 6 (class 128) names the block, with tag 1.
    assert_eq!(mem.atomic_load(BASE + 16 + 8 * 6), (BASE + 224) | 1);
    assert_eq!(a.allocate(&mut mem, 112), s);
    assert_eq!(mem.atomic_load(BASE + 16 + 8 * 6), 2);
}

#[test]
fn fingerprints_tell_layouts_apart() {
    // Computed by hand from the logarithms 4, 5, 8, 12, 12 and CARVE_MAX 2.
    let packed: u64 = 4 | (5 << 6) | (8 << 12) | (12 << 18) | (12 << 24);
    let mut z = packed ^ 2u64.wrapping_mul(0x9E37_79B9_7F4A_7C15);
    z = (z ^ (z >> 30)).wrapping_mul(0xBF58_476D_1CE4_E5B9);
    z = (z ^ (z >> 27)).wrapping_mul(0x94D0_49BB_1331_11EB);
    z ^= z >> 31;
    assert_eq!(CadAlloc::<HeapConfig>::config_hash(), z);
    assert_ne!(CadAlloc::<HeapConfig>::config_hash(), CadAlloc::<MismatchConfig>::config_hash());
    assert_ne!(CadAlloc::<HeapConfig>::config_hash(), CadAlloc::<CarveConfig>::config_hash());
    // The finalizer's published value for zero's successor in the sequence.
    assert_eq!(cadalloc::fingerprint::splitmix64(0), 0);
    assert_eq!(
        cadalloc::fingerprint::splitmix64(0x9E37_79B9_7F4A_7C15),
        0xE220_A839_7B1D_CDAF
    );
}

#[test]
fn headers_pack_size_and_flag() {
    assert_eq!(pack(4096, FREE), 4097);
    assert_eq!(pack(4096, USED), 4096);
    assert_eq!(header_size(4097), 4096);
    assert_eq!(header_size(4096), 4096);
    assert!(header_is_free(4097));
    assert!(!header_is_free(4096));
    assert!(!header_is_free(4099)); // reserved bits
}

#[test]
fn a_double_free_is_refused() {
    let mut mem = heap();
    let a = CadAlloc::<HeapConfig>::new();
    a.init(&mut mem).expect("init");
    let s = a.allocate(&mut mem, 100);
    assert!(!s.is_null());
    assert!(!a.is_refused(&mem, s));
    a.free(&mut mem, s);
    assert!(a.is_refused(&mem, s));
    assert!(!a.is_refused(&mem, Slice::null()));
    let before = words(&mem);
    a.free(&mut mem, s); // refused: nothing changes
    assert_eq!(words(&mem), before);
    // The block is handed out once.
    let t = a.allocate(&mut mem, 100);
    let u = a.allocate(&mut mem, 100);
    assert_eq!(t.ptr, s.ptr);
    assert_ne!(u.ptr, s.ptr);
    // Freeing the null slice is a no-op.
    a.free(&mut mem, Slice::null());
    assert_eq!(a.verify(&mem), Ok(()));
}

#[test]
fn freeing_null_needs_no_prepared_heap() {
    let mut mem = heap();
    let a = CadAlloc::<HeapConfig>::new();
    let before = words(&mem);
    a.free(&mut mem, Slice::null());
    assert_eq!(words(&mem), before);
    assert_eq!(a.verify(&mem), Err(VerifyError::BadMagic));
}

#[test]
fn init_writes_the_control_words_alone() {
    let mut mem = heap();
    for i in 0..HEAP_N / 8 {
        mem.atomic_store(BASE + 8 * i, 0xAAAA_0000 + i);
    }
    let a = CadAlloc::<HeapConfig>::new();
    a.init(&mut mem).expect("init");
    let bins = CadAlloc::<HeapConfig>::bin_count();
    for k in 0..bins {
        assert_eq!(mem.atomic_load(BASE + 16 + 8 * k), 0, "head {k} is not empty");
    }
    let start = BASE + CadAlloc::<HeapConfig>::control_bytes();
    assert_eq!(mem.atomic_load(BASE + 16 + 8 * bins), start); // bump
    assert_eq!(mem.atomic_load(BASE + 24 + 8 * bins), 0); // lock
    for i in 4 + bins..HEAP_N / 8 {
        assert_eq!(mem.atomic_load(BASE + 8 * i), 0xAAAA_0000 + i, "word {i} changed");
    }
}

#[test]
fn freeing_ignores_the_length() {
    let a = CadAlloc::<HeapConfig>::new();
    let mut after: Vec<Vec<u64>> = Vec::new();
    for len in [0, 1, 100, 112, u64::MAX] {
        let mut mem = heap();
        a.init(&mut mem).expect("init");
        let s = a.allocate(&mut mem, 100);
        a.free(&mut mem, Slice::new(s.ptr, len));
        after.push(words(&mem));
    }
    for w in &after {
        assert_eq!(*w, after[0]);
    }
}

#[test]
fn resizing_null_is_allocating() {
    let a = CadAlloc::<HeapConfig>::new();
    for size in [0, 100, 300, 5000, 1 << 20, u64::MAX] {
        let mut mem = heap();
        let mut other = heap();
        a.init(&mut mem).expect("init");
        a.init(&mut other).expect("init");
        let s = a.allocate(&mut mem, size);
        let t = a.realloc(&mut other, Slice::null(), size);
        assert_eq!(s, t);
        assert_eq!(words(&mem), words(&other));
    }
}

#[test]
fn a_small_excess_changes_no_word() {
    let mut mem = heap();
    let a = CadAlloc::<HeapConfig>::new();
    a.init(&mut mem).expect("init");
    let s = a.allocate(&mut mem, 100);
    fill(&mut mem, s, 0x5678);
    let before = words(&mem);
    for size in [112, 100, 96, 1, 0] {
        assert_eq!(a.realloc(&mut mem, s, size), s);
        assert_eq!(words(&mem), before, "resizing to {size} wrote a word");
    }
}

#[test]
fn reuse_and_free_advance_the_tag() {
    let mut mem = heap();
    let a = CadAlloc::<HeapConfig>::new();
    a.init(&mut mem).expect("init");
    let head = BASE + 16 + 8 * 6; // the bin of the class of 128
    let s = a.allocate(&mut mem, 100);
    assert_eq!(mem.atomic_load(head), 0);
    let block = s.ptr - 16;
    for round in 0..20u64 {
        let before = words(&mem);
        a.free(&mut mem, s);
        assert_eq!(mem.atomic_load(head), block + (2 * round + 1) % 16);
        // The header, the link and the head change, and nothing else.
        let changed: Vec<u64> = (0..HEAP_N / 8)
            .map(|i| BASE + 8 * i)
            .filter(|addr| mem.atomic_load(*addr) != before[((*addr - BASE) / 8) as usize])
            .collect();
        assert!(changed.iter().all(|addr| [head, block, block + 8].contains(addr)));
        assert_eq!(a.allocate(&mut mem, 100), s);
        assert_eq!(mem.atomic_load(head), (2 * round + 2) % 16);
    }
}

#[test]
fn requests_that_cannot_be_met_return_null() {
    let mut mem = heap();
    let a = CadAlloc::<HeapConfig>::new();
    a.init(&mut mem).expect("init");
    let bump = mem.atomic_load(BASE + 16 + 8 * 24);
    for size in [HEAP_N, u64::MAX, u64::MAX - 15, u64::MAX - 31, 1 << 63] {
        assert!(a.allocate(&mut mem, size).is_null());
    }
    assert_eq!(mem.atomic_load(BASE + 16 + 8 * 24), bump);
    // Exhaust the heap; the lock is free again and what was freed is served.
    let mut last = Slice::null();
    loop {
        let s = a.allocate(&mut mem, 1000);
        if s.is_null() {
            break;
        }
        last = s;
    }
    assert_eq!(mem.atomic_load(BASE + 16 + 8 * 25), 0);
    a.free(&mut mem, last);
    assert_eq!(a.allocate(&mut mem, 1000), last);
    assert!(a.allocate(&mut mem, 1000).is_null());
    // A failed realloc leaves the block alone.
    fill(&mut mem, last, 0x55);
    assert!(a.realloc(&mut mem, last, 3000).is_null());
    assert!(a.realloc(&mut mem, last, u64::MAX).is_null());
    check_prefix(&mem, last, 0x55, last.len / 8);
}

#[test]
fn realloc_grows_shrinks_relocates() {
    let mut mem = heap();
    let a = CadAlloc::<HeapConfig>::new();
    a.init(&mut mem).expect("init");

    // realloc(NULL, ...) behaves like alloc.
    let n = a.realloc(&mut mem, Slice::null(), 50);
    assert!(!n.is_null());
    a.free(&mut mem, n);

    // Grow relocates and preserves the old contents.
    let s = a.allocate(&mut mem, 64);
    assert!(!s.is_null());
    for i in 0..8u64 {
        mem.atomic_store(s.ptr + 8 * i, 0x0706_0504_0302_0100 + i * 0x0808_0808_0808_0808);
    }
    let g = a.realloc(&mut mem, s, 2000);
    assert!(!g.is_null());
    assert!(g.len >= 2000);
    for i in 0..64u64 {
        let word = mem.atomic_load(g.ptr + (i & !7));
        assert_eq!((word >> (8 * (i % 8))) as u8, i as u8);
    }
    a.free(&mut mem, g);

    // Shrink within the fixed classes stays in place (default SPLIT_MIN keeps
    // the leftover as internal slack).
    let f = a.allocate(&mut mem, 2000);
    let cap = f.len;
    let t = a.realloc(&mut mem, f, 100);
    assert_eq!(t.ptr, f.ptr, "fixed shrink should not move");
    assert_eq!(t.len, cap, "fixed shrink keeps the whole block");
    a.free(&mut mem, t);

    // Oversized shrink stays in place and shrinks; a follow-up allocation is
    // valid and disjoint from the retained block.
    let big = a.allocate(&mut mem, 12000);
    assert!(big.len >= 12000);
    let sh = a.realloc(&mut mem, big, 5000);
    assert_eq!(sh.ptr, big.ptr, "oversized shrink stays in place");
    assert!(sh.len >= 5000 && sh.len < big.len, "block actually shrank");
    let other = a.allocate(&mut mem, 3000);
    assert!(!other.is_null());
    assert!(!overlap(sh, other), "new allocation overlaps the retained block");
    a.free(&mut mem, other);
    a.free(&mut mem, sh);
}

/// A low `SPLIT_MIN` so a fixed-range excess (`<= EXP_CEIL`) gets carved into
/// several class-exact blocks rather than kept as slack.
struct CarveConfig;

impl Config for CarveConfig {
    type Atomics = CoreAtomics;
    const MIN_ALIGN: u64 = 16;
    const LNR_FLOOR: u64 = 32;
    const EXP_FLOOR: u64 = 256;
    const EXP_CEIL: u64 = 4096;
    const SPLIT_MIN: u64 = 256; // < EXP_CEIL: carve fixed-range excess
    const CARVE_MAX: u64 = 8; // enough iterations to fully decompose it
    fn heap_base() -> u64 {
        BASE
    }
    fn heap_size() -> u64 {
        HEAP_N
    }
}

#[test]
fn fixed_range_carve_is_non_overlapping() {
    let mut mem = heap();
    let a = CadAlloc::<CarveConfig>::new();
    a.init(&mut mem).expect("init");
    assert_eq!(cadalloc::assert_config_valid::<CarveConfig>(), Ok(()));

    // A max-class (4096) block shrunk to a small class leaves a ~3968-byte
    // fixed-range excess, which is carved into class-exact free blocks.
    let big = a.allocate(&mut mem, 4080);
    assert!(!big.is_null());
    let small = a.realloc(&mut mem, big, 100);
    assert_eq!(small.ptr, big.ptr, "shrink stays in place");
    assert!(small.len >= 100 && small.len < 4080, "block shrank");

    // Allocate a spread of sizes: some reuse the carved pieces, some bump. None
    // may overlap the retained block or each other, and all must be MIN_ALIGN
    // aligned and inside the heap.
    let heap_lo = BASE;
    let heap_hi = heap_lo + HEAP_N;
    let mut live = [Slice::null(); 25];
    live[0] = small;
    for k in 1..live.len() {
        let sz = 16 + (k as u64 % 6) * 130;
        let s = a.allocate(&mut mem, sz);
        assert!(!s.is_null(), "alloc {k} failed");
        assert_eq!(s.ptr % 16, 0, "payload misaligned");
        assert!(s.ptr >= heap_lo && s.ptr + s.len <= heap_hi, "out of heap");
        for prev in &live[..k] {
            assert!(!overlap(s, *prev), "allocation {k} overlaps an earlier one");
        }
        live[k] = s;
    }
    for s in live {
        a.free(&mut mem, s);
    }
}

#[test]
fn a_split_keeps_what_is_needed() {
    let mut mem = heap();
    let a = CadAlloc::<CarveConfig>::new();
    a.init(&mut mem).expect("init");
    let big = a.allocate(&mut mem, 4080);
    fill(&mut mem, big, 0xABCD);
    // 128 bytes are needed; the carved pieces tile the rest exactly.
    let small = a.realloc(&mut mem, big, 100);
    assert_eq!(small, Slice::new(big.ptr, 112));
    check_prefix(&mem, small, 0xABCD, 14);
    // The excess of 3968 bytes is there for the taking: 3072 + 768 + 128.
    let bump = mem.atomic_load(BASE + 16 + 8 * 24);
    let mut total = 0;
    for size in [3072u64, 768, 128] {
        let s = a.allocate(&mut mem, size - 16);
        assert_eq!(s.len, size - 16);
        assert!(s.ptr > big.ptr && s.ptr + s.len <= big.ptr + big.len);
        total += size;
    }
    assert_eq!(total, 3968);
    assert_eq!(mem.atomic_load(BASE + 16 + 8 * 24), bump, "nothing came from the bump region");
}

const ALIGN_HEAP_N: u64 = 1 << 20;

struct AlignConfig;

impl Config for AlignConfig {
    type Atomics = CoreAtomics;
    const MIN_ALIGN: u64 = 16;
    const LNR_FLOOR: u64 = 32;
    const EXP_FLOOR: u64 = 256;
    const EXP_CEIL: u64 = 65536;
    fn heap_base() -> u64 {
        BASE
    }
    fn heap_size() -> u64 {
        ALIGN_HEAP_N
    }
}

#[test]
fn bump_aligns_exponential_blocks() {
    let mut mem = CoreAtomics::new(BASE, (ALIGN_HEAP_N / 8) as usize);
    let a = CadAlloc::<AlignConfig>::new();
    a.init(&mut mem).expect("init");

    // Each exponential block's header must sit on its class alignment: half the
    // octave base (`2^(n-1)` for a block in the `2^n` octave).
    for &sz in &[300u64, 500, 2000, 5000, 9000] {
        let s = a.allocate(&mut mem, sz);
        assert!(!s.is_null());
        let header = s.ptr - 16; // block start
        let class = s.len + 16; // class-exact block size
        assert!(class >= AlignConfig::EXP_FLOOR, "not exponential: {class}");
        let align = 1u64 << (class.ilog2() - 1);
        assert_eq!(
            header % align,
            0,
            "class {class} header {header:#x} not {align}-aligned"
        );
        a.free(&mut mem, s);
    }

    // Oversized blocks (> EXP_CEIL) align to EXP_CEIL.
    for &sz in &[70_000u64, 100_000, 200_000] {
        let s = a.allocate(&mut mem, sz);
        assert!(!s.is_null());
        assert!(s.len + 16 > AlignConfig::EXP_CEIL, "not oversized");
        assert_eq!(
            (s.ptr - 16) % AlignConfig::EXP_CEIL,
            0,
            "oversized header {:#x} not EXP_CEIL-aligned",
            s.ptr - 16
        );
        a.free(&mut mem, s);
    }
}

#[test]
fn the_alignment_gap_is_not_lost() {
    let mut mem = CoreAtomics::new(BASE, (ALIGN_HEAP_N / 8) as usize);
    let a = CadAlloc::<AlignConfig>::new();
    a.init(&mut mem).expect("init");
    // The first 512-byte block is aligned to 256; the gap below it is carved into
    // free blocks, which serve small requests without moving the bump pointer.
    let bump_word = BASE + 16 + 8 * 32;
    let lo = mem.atomic_load(bump_word);
    let s = a.allocate(&mut mem, 496);
    assert_eq!(s.len, 496);
    let hdr = s.ptr - 16;
    assert_eq!(hdr % 256, 0);
    assert!(hdr > lo);
    let bump = mem.atomic_load(bump_word);
    assert_eq!(bump, hdr + 512);
    let gap = hdr - lo;
    assert_eq!(gap, 160);
    let piece = a.allocate(&mut mem, gap - 16);
    assert_eq!(piece, Slice::new(lo + 16, gap - 16));
    assert_eq!(mem.atomic_load(bump_word), bump);
}

#[test]
fn oversized_blocks_are_served_first_fit() {
    let mut mem = heap();
    let a = CadAlloc::<HeapConfig>::new();
    a.init(&mut mem).expect("init");
    let small = a.allocate(&mut mem, 5000);
    let large = a.allocate(&mut mem, 9000);
    let bump = mem.atomic_load(BASE + 16 + 8 * 24);
    a.free(&mut mem, large);
    a.free(&mut mem, small);
    // The list is small, large; the first that fits is the second.
    let s = a.allocate(&mut mem, 9000);
    assert_eq!(s, large);
    // The small one is taken next, though it is larger than needed: the excess is
    // below SPLIT_MIN.
    let t = a.allocate(&mut mem, 4500);
    assert_eq!(t, small);
    // Nothing is left that fits: the next comes from the bump region.
    let u = a.allocate(&mut mem, 4500);
    assert!(u.ptr - 16 >= bump);
    assert_eq!((u.ptr - 16) % 4096, 0);
    assert_eq!(u.len + 16, 4528);
}

#[test]
fn blocks_are_not_coalesced() {
    let mut mem = heap();
    let a = CadAlloc::<HeapConfig>::new();
    a.init(&mut mem).expect("init");
    // Two neighbouring 64-byte blocks do not make a 128-byte one.
    let s = a.allocate(&mut mem, 48);
    let t = a.allocate(&mut mem, 48);
    assert_eq!(t.ptr, s.ptr + 64);
    a.free(&mut mem, s);
    a.free(&mut mem, t);
    let u = a.allocate(&mut mem, 100);
    assert_eq!(u.ptr, t.ptr + 64);
    // The last freed is served first.
    assert_eq!(a.allocate(&mut mem, 48), t);
    assert_eq!(a.allocate(&mut mem, 48), s);
}

#[test]
fn growth_moves_and_frees_the_old_block() {
    let mut mem = heap();
    let a = CadAlloc::<HeapConfig>::new();
    a.init(&mut mem).expect("init");
    let s = a.allocate(&mut mem, 64);
    fill(&mut mem, s, 0x1234);
    // 64 + 16 bytes are the class of 80; up to there it stays.
    assert_eq!(a.realloc(&mut mem, s, 64), s);
    assert_eq!(a.realloc(&mut mem, s, 1), s);
    let g = a.realloc(&mut mem, s, 65);
    assert!(!overlap(g, s));
    assert_eq!(g.len, 80);
    check_prefix(&mem, g, 0x1234, 8);
    // The old block is the next of its class.
    assert_eq!(a.allocate(&mut mem, 64), s);
}

/// The smallest class is `MIN_ALIGN`, so that no memory is too small for a class.
struct Lossless;

impl Config for Lossless {
    type Atomics = CoreAtomics;
    const MIN_ALIGN: u64 = 16;
    const LNR_FLOOR: u64 = 16;
    const EXP_FLOOR: u64 = 128;
    const EXP_CEIL: u64 = 1024;
    const SPLIT_MIN: u64 = 64;
    fn heap_base() -> u64 {
        BASE
    }
    fn heap_size() -> u64 {
        HEAP_N
    }
}

/// The bytes in free blocks, found by walking every list.
fn free_bytes<C: Config>(mem: &CoreAtomics) -> u64 {
    let mut total = 0;
    for k in 0..CadAlloc::<C>::bin_count() {
        let mut block = mem.atomic_load(BASE + 16 + 8 * k) & !15;
        while block != 0 {
            let header = mem.atomic_load(block);
            assert_eq!(header & 15, 1, "a used block is in a list");
            assert_eq!(cadalloc::classes::bin_index::<C>(header & !15), k);
            total += header & !15;
            block = mem.atomic_load(block + 8);
        }
    }
    total
}

/// Runs a mix of operations, and hands `check` what is lost after each: the bytes
/// below the bump pointer that are neither held nor free.
fn churn<C: Config<Atomics = CoreAtomics>>(check: impl Fn(u64, u64)) {
    let mut mem = heap();
    let a = CadAlloc::<C>::new();
    a.init(&mut mem).expect("init");
    let start = BASE + CadAlloc::<C>::control_bytes();
    let bump_word = BASE + 16 + 8 * CadAlloc::<C>::bin_count();
    let mut live: Vec<Slice> = Vec::new();
    let mut rng = 0x2545_F491_4F6C_DD1Du64;
    let mut lost = 0u64;
    for _ in 0..600 {
        rng ^= rng << 13;
        rng ^= rng >> 7;
        rng ^= rng << 17;
        let size = (rng >> 8) % 3000;
        if rng % 10 < 5 || live.is_empty() {
            let s = a.allocate(&mut mem, size);
            if !s.is_null() {
                live.push(s);
            }
        } else {
            let i = (rng >> 40) as usize % live.len();
            let s = live.swap_remove(i);
            if rng % 10 < 8 {
                a.free(&mut mem, s);
            } else {
                let g = a.realloc(&mut mem, s, size);
                live.push(if g.is_null() { s } else { g });
            }
        }
        let held: u64 = live.iter().map(|s| s.len + 16).sum();
        let now = mem.atomic_load(bump_word) - start - held - free_bytes::<C>(&mem);
        check(lost, now);
        lost = now;
    }
}

#[test]
fn no_memory_is_lost() {
    churn::<Lossless>(|_, now| assert_eq!(now, 0));
}

/// The smallest class is above `MIN_ALIGN`, so that 16 bytes may be left over.
struct Slivers;

impl Config for Slivers {
    type Atomics = CoreAtomics;
    const MIN_ALIGN: u64 = 16;
    const LNR_FLOOR: u64 = 32;
    const EXP_FLOOR: u64 = 128;
    const EXP_CEIL: u64 = 1024;
    const SPLIT_MIN: u64 = 64;
    fn heap_base() -> u64 {
        BASE
    }
    fn heap_size() -> u64 {
        HEAP_N
    }
}

#[test]
fn an_operation_loses_less_than_the_smallest_class() {
    churn::<Slivers>(|before, now| assert!(now == before || now == before + 16));
}

#[test]
fn interleaved_workers_do_not_corrupt_each_other() {
    const N: u64 = 4 << 20;
    struct Stress;
    impl Config for Stress {
        type Atomics = CoreAtomics;
        const MIN_ALIGN: u64 = 16;
        const LNR_FLOOR: u64 = 32;
        const EXP_FLOOR: u64 = 256;
        const EXP_CEIL: u64 = 8192; // low enough that the churn hits oversized too
        fn heap_base() -> u64 {
            BASE
        }
        fn heap_size() -> u64 {
            N
        }
    }
    let mut mem = CoreAtomics::new(BASE, (N / 8) as usize);
    let a = CadAlloc::<Stress>::new();
    a.init(&mut mem).expect("init");
    let mut token = 1u64;
    let mut live: Vec<Vec<(Slice, u64)>> = vec![Vec::new(); 8];
    let mut rngs: Vec<u64> = (0..8u64)
        .map(|t| 0x9E37_79B9_7F4A_7C15u64 ^ (t + 1).wrapping_mul(0xD1B5_4A32_D192_ED03))
        .collect();
    for op in 0..4000usize {
        let t = op % 8;
        let mut next = || {
            let mut rng = rngs[t];
            rng ^= rng << 13;
            rng ^= rng >> 7;
            rng ^= rng << 17;
            rngs[t] = rng;
            rng
        };
        let roll = next() % 100;
        if roll < 45 || live[t].is_empty() {
            // Allocate; sizes span linear, exponential, and oversized.
            let size = 8 + next() % 12_000;
            let s = a.allocate(&mut mem, size);
            if !s.is_null() {
                assert_eq!(s.ptr % 16, 0, "payload misaligned");
                assert!(s.len >= size);
                fill(&mut mem, s, token);
                live[t].push((s, token));
                token += 1;
            }
        } else if roll < 80 {
            // Free a random live block, checking it first.
            let i = (next() as usize) % live[t].len();
            let (s, tok) = live[t].swap_remove(i);
            check_prefix(&mem, s, tok, s.len / 8);
            a.free(&mut mem, s);
        } else {
            // Reallocate a random live block; the retained prefix must survive
            // the (possibly relocating) resize.
            let i = (next() as usize) % live[t].len();
            let (s, tok) = live[t][i];
            let new_size = 8 + next() % (2 * s.len.max(16));
            let g = a.realloc(&mut mem, s, new_size);
            if g.is_null() {
                check_prefix(&mem, s, tok, s.len / 8);
            } else {
                check_prefix(&mem, g, tok, s.len.min(g.len) / 8);
                fill(&mut mem, g, token);
                live[t][i] = (g, token);
                token += 1;
            }
        }
    }
    // Return everything still held so the heap ends drained.
    for held in live {
        for (s, tok) in held {
            check_prefix(&mem, s, tok, s.len / 8);
            a.free(&mut mem, s);
        }
    }
    // Metadata survived the churn, and the heap can still serve requests.
    assert_eq!(a.verify(&mem), Ok(()));
    let s = a.allocate(&mut mem, 64);
    assert!(!s.is_null(), "heap unusable after stress");
    a.free(&mut mem, s);
}
