use cadalloc::{Atomics, CadAlloc, Config, CoreAtomics};
use loom::sync::atomic::AtomicU64;
use loom::sync::atomic::Ordering::SeqCst;
use loom::sync::Arc;

/// Synthetic heap base; bin 0's head lives at `BASE + 16`.
const BASE: u64 = 0x1_0000;
/// A handful of `u64` cells: head plus a couple of block `next` slots.
const CELLS: usize = 32;

/// A tiny "heap" of loom atomics, addressed by synthetic `u64` addresses.
struct LoomHeap {
    words: Vec<AtomicU64>,
}

impl LoomHeap {
    fn new() -> Self {
        let mut words = Vec::with_capacity(CELLS);
        for _ in 0..CELLS {
            words.push(AtomicU64::new(0));
        }
        Self { words }
    }

    fn at(&self, addr: u64) -> &AtomicU64 {
        &self.words[((addr - BASE) / 8) as usize]
    }
}

/// One thread's handle on the shared words, so loom can instrument every access
/// the allocator makes to the bins.
struct LoomAtomics(Arc<LoomHeap>);

impl Atomics for LoomAtomics {
    fn atomic_load(&self, addr: u64) -> u64 {
        self.0.at(addr).load(SeqCst)
    }
    fn atomic_store(&mut self, addr: u64, val: u64) {
        self.0.at(addr).store(val, SeqCst);
    }
    fn atomic_cas(&mut self, addr: u64, current: u64, new: u64) -> u64 {
        match self.0.at(addr).compare_exchange(current, new, SeqCst, SeqCst) {
            Ok(p) | Err(p) => p,
        }
    }
    fn atomic_cas_weak(&mut self, addr: u64, current: u64, new: u64) -> (u64, bool) {
        match self.0.at(addr).compare_exchange_weak(current, new, SeqCst, SeqCst) {
            Ok(p) => (p, true),
            Err(p) => {
                // Let the thread go on that this one may be waiting for.
                loom::thread::yield_now();
                (p, false)
            }
        }
    }
}

struct LoomConfig;

impl Config for LoomConfig {
    type Atomics = LoomAtomics;
    const MIN_ALIGN: u64 = 16;
    const LNR_FLOOR: u64 = 32;
    const EXP_FLOOR: u64 = 256;
    const EXP_CEIL: u64 = 65536;
    const HEAP_BASE: u64 = BASE;
    const HEAP_SIZE: u64 = (CELLS as u64) * 8;
}

// Two distinct, MIN_ALIGN-aligned block headers, each with room for a `next` word
// at `+8`, clear of bin 0's head at BASE+16.
const A: u64 = BASE + 64;
const B: u64 = BASE + 96;

#[test]
fn treiber_stack_push_pop_conserves_blocks() {
    loom::model(|| {
        let heap = Arc::new(LoomHeap::new());

        let h1 = heap.clone();
        let t1 = loom::thread::spawn(move || {
            let mut mem = LoomAtomics(h1);
            let a = CadAlloc::<LoomConfig>::new();
            a.push_fixed(&mut mem, 0, A);
            a.pop_fixed(&mut mem, 0)
        });
        let h2 = heap.clone();
        let t2 = loom::thread::spawn(move || {
            let mut mem = LoomAtomics(h2);
            let a = CadAlloc::<LoomConfig>::new();
            a.push_fixed(&mut mem, 0, B);
            a.pop_fixed(&mut mem, 0)
        });

        let r1 = t1.join().unwrap();
        let r2 = t2.join().unwrap();

        // Two pushes and two pops, so, for any interleaving, both pops must
        // succeed, together remove exactly {A, B}, and leave the stack empty.
        // A lost update, a duplicated pop, or an ABA slip breaks one of these.
        let mut mem = LoomAtomics(heap.clone());
        let a = CadAlloc::<LoomConfig>::new();
        assert_eq!(a.pop_fixed(&mut mem, 0), 0, "stack not empty after both pops");
        assert!(r1 != 0 && r2 != 0, "a pop lost its block: {r1:#x}, {r2:#x}");
        assert_ne!(r1, r2, "the same block was popped twice");
        let mut got = [r1, r2];
        got.sort_unstable();
        assert_eq!(got, [A, B], "popped blocks are not {{A, B}}");
    });
}

/// Few bins, so that a whole heap fits the cells.
struct SmallConfig;

impl Config for SmallConfig {
    type Atomics = LoomAtomics;
    const MIN_ALIGN: u64 = 16;
    const LNR_FLOOR: u64 = 32;
    const EXP_FLOOR: u64 = 32;
    const EXP_CEIL: u64 = 64;
    const HEAP_BASE: u64 = BASE;
    const HEAP_SIZE: u64 = (CELLS as u64) * 8;
}

#[test]
fn threads_share_a_heap() {
    let mut model = loom::model::Builder::new();
    model.preemption_bound = Some(2);
    model.check(|| {
        let heap = Arc::new(LoomHeap::new());
        let a = CadAlloc::<SmallConfig>::new();
        a.init(&mut LoomAtomics(heap.clone())).unwrap();

        // Both threads find the bin empty, contend for the refill lock and take
        // fresh blocks; one of them gives its block back.
        let h1 = heap.clone();
        let t1 = loom::thread::spawn(move || {
            let mut mem = LoomAtomics(h1);
            let a = CadAlloc::<SmallConfig>::new();
            let s = a.allocate(&mut mem, 16);
            assert!(!s.is_null());
            mem.atomic_store(s.ptr, 1);
            assert_eq!(mem.atomic_load(s.ptr), 1, "another thread has the same block");
            s
        });
        let mut mem = LoomAtomics(heap.clone());
        let s = a.allocate(&mut mem, 16);
        assert!(!s.is_null());
        mem.atomic_store(s.ptr, 2);
        assert_eq!(mem.atomic_load(s.ptr), 2, "another thread has the same block");
        a.free(&mut mem, s);

        let t = t1.join().unwrap();
        assert_eq!(mem.atomic_load(t.ptr), 1);
        assert_eq!(a.verify(&mem), Ok(()));
        // The freed block comes back, unless the other thread has got it.
        let u = a.allocate(&mut mem, 16);
        assert!(!u.is_null());
        assert_ne!(u.ptr, t.ptr);
    });
}

struct PlainConfig;

impl Config for PlainConfig {
    type Atomics = CoreAtomics;
    const MIN_ALIGN: u64 = 16;
    const LNR_FLOOR: u64 = 32;
    const EXP_FLOOR: u64 = 256;
    const EXP_CEIL: u64 = 65536;
    const HEAP_BASE: u64 = BASE;
    const HEAP_SIZE: u64 = (CELLS as u64) * 8;
}

#[test]
fn the_tag_advances_with_every_update() {
    let mut mem = CoreAtomics::new(BASE, CELLS);
    let a = CadAlloc::<PlainConfig>::new();
    let head = BASE + 16;
    assert_eq!(a.pop_fixed(&mut mem, 0), 0);
    assert_eq!(mem.atomic_load(head), 0);
    // The same block goes in and out; the head differs every time until the tag
    // has come round, after MIN_ALIGN updates.
    let mut seen = Vec::new();
    for i in 0..8u64 {
        a.push_fixed(&mut mem, 0, A);
        assert_eq!(mem.atomic_load(head), A + 2 * i + 1);
        assert!(!seen.contains(&mem.atomic_load(head)));
        seen.push(mem.atomic_load(head));
        assert_eq!(mem.atomic_load(A + 8), 0);
        assert_eq!(a.pop_fixed(&mut mem, 0), A);
        assert_eq!(mem.atomic_load(head), (2 * i + 2) % 16);
    }
    a.push_fixed(&mut mem, 0, A);
    assert_eq!(mem.atomic_load(head), seen[0]);
    a.push_fixed(&mut mem, 0, B);
    assert_eq!(mem.atomic_load(B + 8), A);
    assert_eq!(a.pop_fixed(&mut mem, 0), B);
    assert_eq!(a.pop_fixed(&mut mem, 0), A);
    assert_eq!(a.pop_fixed(&mut mem, 0), 0);
}
