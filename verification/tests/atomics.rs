use cadalloc::{Atomics, CoreAtomics};

#[test]
fn core_atomics_round_trip() {
    // A single 64-bit word.
    let addr: u64 = 0x1000;
    let mut cell = CoreAtomics::new(addr, 1);
    cell.atomic_store(addr, 10);
    assert_eq!(cell.atomic_load(addr), 10);
    assert_eq!(cell.atomic_add(addr, 5), 10);
    assert_eq!(cell.atomic_load(addr), 15);
    assert_eq!(cell.atomic_cas(addr, 15, 20), 15);
    assert_eq!(cell.atomic_load(addr), 20);
    assert_eq!(cell.atomic_cas(addr, 99, 0), 20); // no-op: 20 != 99
    assert_eq!(cell.atomic_swap(addr, 7), 20);
    assert_eq!(cell.atomic_dec(addr), 7);
    assert_eq!(cell.atomic_load(addr), 6);

    // Bitwise fetch operations return the previous value.
    cell.atomic_store(addr, 0b1010);
    assert_eq!(cell.atomic_or(addr, 0b0100), 0b1010);
    assert_eq!(cell.atomic_load(addr), 0b1110);
    assert_eq!(cell.atomic_and(addr, 0b1100), 0b1110);
    assert_eq!(cell.atomic_load(addr), 0b1100);

    // Weak compare-and-swap: loop to absorb spurious failure.
    loop {
        let (read, ok) = cell.atomic_cas_weak(addr, 0b1100, 42);
        assert_eq!(read, 0b1100);
        if ok {
            break;
        }
    }
    assert_eq!(cell.atomic_load(addr), 42);
    // A mismatched expected value fails (never spuriously succeeds).
    let (read, ok) = cell.atomic_cas_weak(addr, 999, 0);
    assert!(!ok);
    assert_eq!(read, 42);
}

#[test]
fn arithmetic_wraps() {
    let addr: u64 = 0x1008;
    let mut cells = CoreAtomics::new(0x1000, 2);
    assert_eq!(cells.atomic_dec(addr), 0);
    assert_eq!(cells.atomic_load(addr), u64::MAX);
    assert_eq!(cells.atomic_inc(addr), u64::MAX);
    assert_eq!(cells.atomic_load(addr), 0);
    assert_eq!(cells.atomic_sub(addr, 3), 0);
    assert_eq!(cells.atomic_load(addr), u64::MAX - 2);
    assert_eq!(cells.atomic_add(addr, 5), u64::MAX - 2);
    assert_eq!(cells.atomic_load(addr), 2);
    // The other word is left alone.
    assert_eq!(cells.atomic_load(0x1000), 0);
}

/// A backend that implements only what must be implemented, and fails every other
/// weak compare-and-swap.
struct Bare {
    word: u64,
    refuse: bool,
}

impl Atomics for Bare {
    fn atomic_load(&self, _addr: u64) -> u64 {
        self.word
    }
    fn atomic_store(&mut self, _addr: u64, val: u64) {
        self.word = val;
    }
    fn atomic_cas(&mut self, _addr: u64, current: u64, new: u64) -> u64 {
        let read = self.word;
        if read == current {
            self.word = new;
        }
        read
    }
    fn atomic_cas_weak(&mut self, addr: u64, current: u64, new: u64) -> (u64, bool) {
        self.refuse = !self.refuse;
        if self.refuse {
            return (self.word, false);
        }
        let read = self.atomic_cas(addr, current, new);
        (read, read == current)
    }
}

#[test]
fn derived_operations_have_defaults() {
    let mut cell = Bare { word: 7, refuse: false };
    assert_eq!(cell.atomic_swap(0, 9), 7);
    assert_eq!(cell.atomic_add(0, u64::MAX), 9);
    assert_eq!(cell.atomic_load(0), 8);
    assert_eq!(cell.atomic_sub(0, 9), 8);
    assert_eq!(cell.atomic_load(0), u64::MAX);
    assert_eq!(cell.atomic_inc(0), u64::MAX);
    assert_eq!(cell.atomic_dec(0), 0);
    assert_eq!(cell.atomic_and(0, 0xFF), u64::MAX);
    assert_eq!(cell.atomic_or(0, 0xF00), 0xFF);
    assert_eq!(cell.atomic_load(0), 0xFFF);
    assert_eq!(cell.atomic_cas_weak(0, 0xFFF, 1), (0xFFF, false));
    assert_eq!(cell.atomic_cas_weak(0, 0xFFF, 1), (0xFFF, true));
    assert_eq!(cell.atomic_load(0), 1);
}
