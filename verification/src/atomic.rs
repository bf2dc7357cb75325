//! The atomic primitives the allocator is built on.
//!
//! The allocator keeps all of its state in 64-bit words *inside the managed
//! region* and reaches them only through the [`Atomics`] trait. A
//! [`Config`](crate::Config) names the backend it wants: anything that can load,
//! store and compare-and-swap a word by its address will do, so the region need
//! not lie in the caller's own address space.
//!
//! ## What you must implement
//!
//! Only three operations are fundamental: [`atomic_load`](Atomics::atomic_load),
//! [`atomic_store`](Atomics::atomic_store), and
//! [`atomic_cas`](Atomics::atomic_cas). The rest have default implementations
//! built from them. Override them when the target has a cheaper native
//! instruction (`fetch_add`, `swap`, a compare-and-swap that may fail
//! spuriously).
//!
//! ## What the contracts describe
//!
//! The contracts describe one thread of operations: what a word holds is what
//! was last written to it. A backend whose words other threads write as well
//! must make every operation sequentially consistent.

use vstd::prelude::*;

verus! {

/// An operation that may write a word.
#[derive(Clone, Copy, PartialEq, Eq, Debug, Structural)]
pub enum Write {
    /// None yet.
    Never,
    /// The word was stored, whatever it held.
    Store {
        /// Its address.
        addr: u64,
        /// What was stored.
        val: u64,
    },
    /// The word was compared and swapped, in one step.
    Swap {
        /// Its address.
        addr: u64,
        /// What it was compared with.
        current: u64,
        /// What was to take its place.
        new: u64,
        /// Whether the swap took place.
        done: bool,
    },
}

/// Atomic operations on 64-bit words, addressed by number.
pub trait Atomics: Sized {
    /// The words this backend governs, by address. A backend that verified code
    /// is to use says which they are.
    open spec fn words(&self) -> Map<int, u64> {
        Map::empty()
    }

    /// How many more times a weak compare-and-swap may fail although the word
    /// held the expected value.
    open spec fn spurious_failures(&self) -> nat {
        0
    }

    /// The last store, or compare-and-swap, of a word.
    open spec fn last_write(&self) -> Write {
        Write::Never
    }

    /// Atomically loads the word at `addr`.
    fn atomic_load(&self, addr: u64) -> (r: u64)
        requires
            self.words().contains_key(addr as int),
        ensures
            r == self.words()[addr as int],
    ;

    /// Atomically stores `val` to the word at `addr`.
    fn atomic_store(&mut self, addr: u64, val: u64)
        requires
            old(self).words().contains_key(addr as int),
        ensures
            final(self).words() == old(self).words().insert(addr as int, val),
            final(self).spurious_failures() == old(self).spurious_failures(),
            final(self).last_write() == (Write::Store { addr, val }),
    ;

    /// Atomic compare-and-swap.
    ///
    /// If the word at `addr` equals `current`, replaces it with `new`. Returns
    /// the value that was read *before* the attempt: the swap succeeded if and
    /// only if the returned value equals `current`.
    fn atomic_cas(&mut self, addr: u64, current: u64, new: u64) -> (r: u64)
        requires
            old(self).words().contains_key(addr as int),
        ensures
            r == old(self).words()[addr as int],
            r == current ==> final(self).words() == old(self).words().insert(addr as int, new),
            r != current ==> final(self).words() == old(self).words(),
            final(self).spurious_failures() == old(self).spurious_failures(),
            final(self).last_write() == (Write::Swap { addr, current, new, done: r == current }),
    ;

    /// Atomic compare-and-swap that may fail spuriously.
    ///
    /// Returns the value that was read and whether the swap took place. It never
    /// takes place when the word differs from `current`; when they are equal it
    /// may still fail, finitely often.
    fn atomic_cas_weak(&mut self, addr: u64, current: u64, new: u64) -> (r: (u64, bool))
        requires
            old(self).words().contains_key(addr as int),
        ensures
            r.0 == old(self).words()[addr as int],
            r.1 ==> r.0 == current && final(self).words() == old(self).words().insert(
                addr as int,
                new,
            ),
            !r.1 ==> final(self).words() == old(self).words(),
            final(self).spurious_failures() <= old(self).spurious_failures(),
            final(self).last_write() == (Write::Swap { addr, current, new, done: r.1 }),
            !r.1 && r.0 == current ==> final(self).spurious_failures() < old(
                self,
            ).spurious_failures(),
    {
        let read = self.atomic_cas(addr, current, new);
        (read, read == current)
    }

    /// Atomically stores `val` and returns the previous value.
    fn atomic_swap(&mut self, addr: u64, val: u64) -> (r: u64)
        requires
            old(self).words().contains_key(addr as int),
        ensures
            r == old(self).words()[addr as int],
            final(self).words() == old(self).words().insert(addr as int, val),
            final(self).spurious_failures() == old(self).spurious_failures(),
            final(self).last_write() == (Write::Swap { addr, current: r, new: val, done: true }),
    {
        loop
            invariant
                self.words() == old(self).words(),
                self.words().contains_key(addr as int),
                self.spurious_failures() == old(self).spurious_failures(),
            decreases 0nat,
        {
            let cur: u64 = self.atomic_load(addr);
            if self.atomic_cas(addr, cur, val) == cur {
                return cur;
            }
        }
    }

    /// Atomically adds `val` (wrapping) and returns the previous value.
    fn atomic_add(&mut self, addr: u64, val: u64) -> (r: u64)
        requires
            old(self).words().contains_key(addr as int),
        ensures
            r == old(self).words()[addr as int],
            final(self).words() == old(self).words().insert(addr as int, r.wrapping_add(val)),
            final(self).spurious_failures() == old(self).spurious_failures(),
            final(self).last_write() == (Write::Swap {
                addr,
                current: r,
                new: r.wrapping_add(val),
                done: true,
            }),
    {
        loop
            invariant
                self.words() == old(self).words(),
                self.words().contains_key(addr as int),
                self.spurious_failures() == old(self).spurious_failures(),
            decreases 0nat,
        {
            let cur: u64 = self.atomic_load(addr);
            let new: u64 = cur.wrapping_add(val);
            if self.atomic_cas(addr, cur, new) == cur {
                return cur;
            }
        }
    }

    /// Atomically subtracts `val` (wrapping) and returns the previous value.
    fn atomic_sub(&mut self, addr: u64, val: u64) -> (r: u64)
        requires
            old(self).words().contains_key(addr as int),
        ensures
            r == old(self).words()[addr as int],
            final(self).words() == old(self).words().insert(addr as int, r.wrapping_sub(val)),
            final(self).spurious_failures() == old(self).spurious_failures(),
            final(self).last_write() == (Write::Swap {
                addr,
                current: r,
                new: r.wrapping_sub(val),
                done: true,
            }),
    {
        loop
            invariant
                self.words() == old(self).words(),
                self.words().contains_key(addr as int),
                self.spurious_failures() == old(self).spurious_failures(),
            decreases 0nat,
        {
            let cur: u64 = self.atomic_load(addr);
            let new: u64 = cur.wrapping_sub(val);
            if self.atomic_cas(addr, cur, new) == cur {
                return cur;
            }
        }
    }

    /// Atomically increments the word at `addr` by one, returning the previous
    /// value.
    fn atomic_inc(&mut self, addr: u64) -> (r: u64)
        requires
            old(self).words().contains_key(addr as int),
        ensures
            r == old(self).words()[addr as int],
            final(self).words() == old(self).words().insert(addr as int, r.wrapping_add(1)),
            final(self).spurious_failures() == old(self).spurious_failures(),
            final(self).last_write() == (Write::Swap {
                addr,
                current: r,
                new: r.wrapping_add(1),
                done: true,
            }),
    {
        self.atomic_add(addr, 1)
    }

    /// Atomically decrements the word at `addr` by one, returning the previous
    /// value.
    fn atomic_dec(&mut self, addr: u64) -> (r: u64)
        requires
            old(self).words().contains_key(addr as int),
        ensures
            r == old(self).words()[addr as int],
            final(self).words() == old(self).words().insert(addr as int, r.wrapping_sub(1)),
            final(self).spurious_failures() == old(self).spurious_failures(),
            final(self).last_write() == (Write::Swap {
                addr,
                current: r,
                new: r.wrapping_sub(1),
                done: true,
            }),
    {
        self.atomic_sub(addr, 1)
    }

    /// Atomically sets the bits of `val` and returns the previous value.
    fn atomic_or(&mut self, addr: u64, val: u64) -> (r: u64)
        requires
            old(self).words().contains_key(addr as int),
        ensures
            r == old(self).words()[addr as int],
            final(self).words() == old(self).words().insert(addr as int, r | val),
            final(self).spurious_failures() == old(self).spurious_failures(),
            final(self).last_write() == (Write::Swap {
                addr,
                current: r,
                new: r | val,
                done: true,
            }),
    {
        loop
            invariant
                self.words() == old(self).words(),
                self.words().contains_key(addr as int),
                self.spurious_failures() == old(self).spurious_failures(),
            decreases 0nat,
        {
            let cur: u64 = self.atomic_load(addr);
            let new: u64 = cur | val;
            if self.atomic_cas(addr, cur, new) == cur {
                return cur;
            }
        }
    }

    /// Atomically keeps only the bits of `val` and returns the previous value.
    fn atomic_and(&mut self, addr: u64, val: u64) -> (r: u64)
        requires
            old(self).words().contains_key(addr as int),
        ensures
            r == old(self).words()[addr as int],
            final(self).words() == old(self).words().insert(addr as int, r & val),
            final(self).spurious_failures() == old(self).spurious_failures(),
            final(self).last_write() == (Write::Swap {
                addr,
                current: r,
                new: r & val,
                done: true,
            }),
    {
        loop
            invariant
                self.words() == old(self).words(),
                self.words().contains_key(addr as int),
                self.spurious_failures() == old(self).spurious_failures(),
            decreases 0nat,
        {
            let cur: u64 = self.atomic_load(addr);
            let new: u64 = cur & val;
            if self.atomic_cas(addr, cur, new) == cur {
                return cur;
            }
        }
    }
}

/// An [`Atomics`] backend that owns the words of one region.
///
/// Exclusive access is what makes each operation atomic, so swapping, adding and
/// subtracting are plain updates rather than compare-and-swap loops, and a weak
/// compare-and-swap never fails spuriously.
#[derive(Debug)]
pub struct CoreAtomics {
    base: u64,
    cells: Vec<u64>,
    last: Write,
}

impl CoreAtomics {
    /// Address of the first word.
    pub closed spec fn base(&self) -> u64 {
        self.base
    }

    /// Values of the words, in address order.
    pub closed spec fn cells(&self) -> Seq<u64> {
        self.cells@
    }

    /// A region of `count` zeroed words, the first at address `base`.
    pub fn new(base: u64, count: usize) -> (r: Self)
        ensures
            r.base() == base,
            r.cells() == Seq::new(count as nat, |i: int| 0u64),
            forall|addr: int| #[trigger]
                r.words().contains_key(addr) <==> {
                    &&& base <= addr < base + 8 * count
                    &&& (addr - base) % 8 == 0
                },
            forall|addr: int| #[trigger]
                r.words().contains_key(addr) ==> r.words()[addr] == 0,
    {
        CoreAtomics { base, cells: vec![0u64; count], last: Write::Never }
    }

    /// The position among the cells of the word at `addr`.
    fn position(&self, addr: u64) -> (r: usize)
        requires
            self.words().contains_key(addr as int),
        ensures
            r < self.cells.len(),
            r as int == (addr - self.base) / 8,
            addr == self.base + 8 * r,
    {
        ((addr - self.base) / 8) as usize
    }

    /// Replaces the word at `addr`, returning the previous value.
    fn replace(&mut self, addr: u64, val: u64) -> (r: u64)
        requires
            old(self).words().contains_key(addr as int),
        ensures
            r == old(self).words()[addr as int],
            final(self).words() == old(self).words().insert(addr as int, val),
    {
        let i: usize = self.position(addr);
        let r: u64 = self.cells[i];
        self.cells.set(i, val);
        assert(self.words() =~= old(self).words().insert(addr as int, val));
        r
    }
}

impl Atomics for CoreAtomics {
    closed spec fn words(&self) -> Map<int, u64> {
        Map::new(
            |addr: int|
                self.base <= addr < self.base + 8 * self.cells@.len() && (addr - self.base) % 8
                    == 0,
            |addr: int| self.cells@[(addr - self.base) / 8],
        )
    }

    open spec fn spurious_failures(&self) -> nat {
        0
    }

    closed spec fn last_write(&self) -> Write {
        self.last
    }

    fn atomic_load(&self, addr: u64) -> u64 {
        let i: usize = self.position(addr);
        self.cells[i]
    }

    fn atomic_store(&mut self, addr: u64, val: u64) {
        let _ = self.replace(addr, val);
        self.last = Write::Store { addr, val };
    }

    fn atomic_cas(&mut self, addr: u64, current: u64, new: u64) -> u64 {
        let read: u64 = self.atomic_load(addr);
        if read == current {
            let _ = self.replace(addr, new);
        }
        self.last = Write::Swap { addr, current, new, done: read == current };
        read
    }

    fn atomic_swap(&mut self, addr: u64, val: u64) -> u64 {
        let read: u64 = self.replace(addr, val);
        self.last = Write::Swap { addr, current: read, new: val, done: true };
        read
    }

    fn atomic_add(&mut self, addr: u64, val: u64) -> u64 {
        let read: u64 = self.atomic_load(addr);
        self.atomic_swap(addr, read.wrapping_add(val))
    }

    fn atomic_sub(&mut self, addr: u64, val: u64) -> u64 {
        let read: u64 = self.atomic_load(addr);
        self.atomic_swap(addr, read.wrapping_sub(val))
    }
}

} // verus!
