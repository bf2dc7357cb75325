//! How an operation reaches words that other threads use too.
//!
//! A [`Session`] is the only way to the words while an operation changes the lists of a
//! heap. It keeps to the protocol that threads rely on, whatever the words hold:
//!
//! - the refill lock is taken by a compare-and-swap that found it free, once in an
//!   operation, and released by who has taken it;
//! - the bump pointer and the oversized list are read and written by who has taken the
//!   lock;
//! - the head of a fixed bin is only loaded and swapped, in the steps of
//!   [`accesses`](crate::accesses): what takes its place follows from the head that was
//!   loaded, and the swap finds that very head.

use crate::accesses::{accesses, Local};
use crate::allocator::CadAlloc;
use crate::atomic::{Atomics, Write};
use crate::classes::oversized;
use crate::config::{lemma_bin_counts, valid_config, Config};
use crate::interleaving::{acquires, law_lock_is_exclusive, lock_ok, releases, Lock, Step};
use crate::memory::{bump_at, front_of, head_at, lemma_addresses, lock_at, retagged};
use crate::state::{payload_start, valid_region};
use vstd::prelude::*;

verus! {

/// What a thread has done so far.
pub struct Thread {
    /// It has the refill lock.
    pub held: bool,
    /// It has had the refill lock. It does not take it a second time: what it has found
    /// out with the lock need not hold when it has released it.
    pub entered: bool,
    /// The bins that it has found empty since it has the lock, or from the beginning if
    /// it has not had it.
    pub empty: Set<int>,
    /// The bin that it pushes onto or pops from.
    pub bin: int,
    /// What it knows of that bin.
    pub local: Local,
}

/// A thread's access to the words of a heap, from the first step of an operation to the
/// last.
pub struct Session<'a, C: Config> {
    mem: &'a mut C::Atomics,
    thread: Ghost<Thread>,
}

/// A word that a thread may load or store at any time: none that the lock protects
/// unless it has taken the lock, and never the lock itself or the head of a fixed bin.
pub open spec fn open_word<C: Config>(addr: int, held: bool) -> bool {
    ||| addr < head_at::<C>(0)
    ||| lock_at::<C>() < addr
    ||| held && (addr == bump_at::<C>() || addr == head_at::<C>(oversized::<C>()))
}

/// What a thread does to the words next.
pub enum Access {
    /// It loads a word.
    Load { addr: int },
    /// It stores a word.
    Store { addr: int, val: u64 },
    /// It tries to take the refill lock, and has it then or not.
    TryLock { taken: bool },
    /// It releases the refill lock.
    Release,
    /// It takes a step of a push or a pop.
    Stack { step: Step },
}

/// A thread makes an access: the words become `w2`, and the thread `s2`.
pub open spec fn makes<C: Config>(
    w: Map<int, u64>,
    s: Thread,
    w2: Map<int, u64>,
    s2: Thread,
    access: Access,
) -> bool {
    match access {
        Access::Load { addr } => open_word::<C>(addr, s.held) && w2 == w && s2 == s,
        Access::Store { addr, val } => {
            &&& open_word::<C>(addr, s.held)
            &&& w2 == w.insert(addr, val)
            &&& s2 == s
        },
        Access::TryLock { taken: true } => {
            &&& !s.held && !s.entered
            &&& w[lock_at::<C>()] == 0
            &&& w2 == w.insert(lock_at::<C>(), 1)
            &&& s2 == (Thread { held: true, entered: true, empty: Set::empty(), ..s })
        },
        Access::TryLock { taken: false } => !s.held && !s.entered && w2 == w && s2 == s,
        Access::Release => {
            &&& s.held
            &&& w2 == w.insert(lock_at::<C>(), 0)
            &&& s2 == (Thread { held: false, ..s })
        },
        Access::Stack { step } => {
            &&& accesses::<C>(w, s.local, w2, s2.local, s2.bin, step)
            &&& step is StartPush || step is StartPop || s2.bin == s.bin
            &&& s2 == (Thread { empty: s2.empty, bin: s2.bin, local: s2.local, ..s })
            &&& s2.empty == if step is Load && s2.local is Idle {
                s.empty.insert(s.bin)
            } else {
                s.empty
            }
        },
    }
}

impl<'a, C: Config> Session<'a, C> {
    /// What the words hold.
    pub closed spec fn words(&self) -> Map<int, u64> {
        self.mem.words()
    }

    /// How many more times a weak compare-and-swap may fail spuriously.
    pub closed spec fn spurious_failures(&self) -> nat {
        self.mem.spurious_failures()
    }

    /// The last store, or compare-and-swap, of a word.
    pub closed spec fn last_write(&self) -> Write {
        self.mem.last_write()
    }

    /// The words that it reaches.
    pub closed spec fn cell(&self) -> &'a mut C::Atomics {
        self.mem
    }

    /// What the thread has done so far.
    pub closed spec fn thread(&self) -> Thread {
        self.thread@
    }

    /// Whether the thread has the refill lock.
    pub open spec fn held(&self) -> bool {
        self.thread().held
    }

    /// Whether the thread has had the refill lock.
    pub open spec fn entered(&self) -> bool {
        self.thread().entered
    }

    /// Whether the thread has found bin `k` empty since it has the lock.
    pub open spec fn found_empty(&self, k: int) -> bool {
        self.thread().empty.contains(k)
    }

    /// The bin that the thread pushes onto or pops from.
    pub open spec fn bin(&self) -> int {
        self.thread().bin
    }

    /// What the thread knows of that bin.
    pub open spec fn local(&self) -> Local {
        self.thread().local
    }

    /// The thread is between operations on bins, and has the lock or not.
    pub open spec fn rests(&self, held: bool) -> bool {
        self.held() == held && self.local() is Idle
    }

    /// Begins to use the words, without the lock.
    pub(crate) fn open(mem: &'a mut C::Atomics) -> (s: Self)
        ensures
            s.words() == old(mem).words(),
            s.spurious_failures() == old(mem).spurious_failures(),
            s.last_write() == old(mem).last_write(),
            s.rests(false),
            !s.entered(),
            *final(s.cell()) == *final(mem),
    {
        let ghost thread = Thread {
            held: false,
            entered: false,
            empty: Set::empty(),
            bin: 0,
            local: Local::Idle,
        };
        Session { mem, thread: Ghost(thread) }
    }

    /// Ends using the words, without the lock.
    pub(crate) fn close(self)
        requires
            self.rests(false),
        ensures
            final(self.cell()).words() == self.words(),
            final(self.cell()).spurious_failures() == self.spurious_failures(),
            final(self.cell()).last_write() == self.last_write(),
    {
    }

    /// Loads a word that no other thread writes meanwhile.
    pub(crate) fn load(&mut self, addr: u64) -> (r: u64)
        requires
            open_word::<C>(addr as int, old(self).held()),
            old(self).words().contains_key(addr as int),
        ensures
            r == old(self).words()[addr as int],
            final(self).words() == old(self).words(),
            final(self).spurious_failures() == old(self).spurious_failures(),
            final(self).thread() == old(self).thread(),
            makes::<C>(
                old(self).words(),
                old(self).thread(),
                final(self).words(),
                final(self).thread(),
                Access::Load { addr: addr as int },
            ),
            *final(final(self).cell()) == *final(old(self).cell()),
    {
        self.mem.atomic_load(addr)
    }

    /// Stores a word that no other thread reads or writes meanwhile.
    pub(crate) fn store(&mut self, addr: u64, val: u64)
        requires
            open_word::<C>(addr as int, old(self).held()),
            old(self).words().contains_key(addr as int),
        ensures
            final(self).words() == old(self).words().insert(addr as int, val),
            final(self).spurious_failures() == old(self).spurious_failures(),
            final(self).last_write() == (Write::Store { addr, val }),
            final(self).thread() == old(self).thread(),
            makes::<C>(
                old(self).words(),
                old(self).thread(),
                final(self).words(),
                final(self).thread(),
                Access::Store { addr: addr as int, val },
            ),
            *final(final(self).cell()) == *final(old(self).cell()),
    {
        self.mem.atomic_store(addr, val);
    }

    // --- the refill lock ----------------------------------------------------

    /// Tries to take the refill lock, whatever it holds: by one compare-and-swap, which
    /// takes it only if it was free. A thread that finds it taken has nothing.
    pub(crate) fn try_lock(&mut self, addr: u64) -> (r: bool)
        requires
            addr == lock_at::<C>(),
            !old(self).held(),
            !old(self).entered(),
            old(self).words().contains_key(lock_at::<C>()),
        ensures
            r ==> old(self).words()[lock_at::<C>()] == 0 && final(self).words() == old(
                self,
            ).words().insert(lock_at::<C>(), 1),
            !r ==> final(self).words() == old(self).words(),
            !r && old(self).words()[lock_at::<C>()] == 0 ==> old(self).spurious_failures()
                > final(self).spurious_failures(),
            final(self).last_write() == (Write::Swap { addr, current: 0, new: 1, done: r }),
            final(self).thread() == (if r {
                Thread { held: true, entered: true, empty: Set::empty(), ..old(self).thread() }
            } else {
                old(self).thread()
            }),
            makes::<C>(
                old(self).words(),
                old(self).thread(),
                final(self).words(),
                final(self).thread(),
                Access::TryLock { taken: r },
            ),
            *final(final(self).cell()) == *final(old(self).cell()),
            forall|t: int, holders: Set<int>|
                r ==> #[trigger] acquires(
                    Lock { word: old(self).words()[lock_at::<C>()] as int, holders },
                    Lock {
                        word: final(self).words()[lock_at::<C>()] as int,
                        holders: holders.insert(t),
                    },
                    t,
                ),
    {
        let r: bool = CadAlloc::<C>::new().cas_weak(&mut *self.mem, addr, 0, 1);
        proof {
            if r {
                self.thread@ = Thread {
                    held: true,
                    entered: true,
                    empty: Set::empty(),
                    ..self.thread@
                };
            }
        }
        r
    }

    /// Releases the refill lock, which the thread has taken.
    pub(crate) fn release(&mut self, addr: u64)
        requires
            addr == lock_at::<C>(),
            old(self).held(),
            old(self).words().contains_key(lock_at::<C>()),
        ensures
            final(self).words() == old(self).words().insert(lock_at::<C>(), 0),
            final(self).spurious_failures() == old(self).spurious_failures(),
            final(self).last_write() == (Write::Store { addr, val: 0 }),
            final(self).thread() == (Thread { held: false, ..old(self).thread() }),
            makes::<C>(
                old(self).words(),
                old(self).thread(),
                final(self).words(),
                final(self).thread(),
                Access::Release,
            ),
            *final(final(self).cell()) == *final(old(self).cell()),
            forall|t: int, holders: Set<int>|
                holders.contains(t) ==> #[trigger] releases(
                    Lock { word: old(self).words()[lock_at::<C>()] as int, holders },
                    Lock {
                        word: final(self).words()[lock_at::<C>()] as int,
                        holders: holders.remove(t),
                    },
                    t,
                ),
    {
        self.mem.atomic_store(addr, 0);
        proof {
            self.thread@ = Thread { held: false, ..self.thread@ };
        }
    }

    // --- the stacks ---------------------------------------------------------

    /// Begins to push a block onto bin `k`.
    pub(crate) fn begin_push(&mut self, Ghost(k): Ghost<int>, Ghost(block): Ghost<int>)
        requires
            old(self).local() is Idle,
        ensures
            final(self).words() == old(self).words(),
            final(self).spurious_failures() == old(self).spurious_failures(),
            final(self).thread() == (Thread {
                bin: k,
                local: Local::Push { block },
                ..old(self).thread()
            }),
            makes::<C>(
                old(self).words(),
                old(self).thread(),
                final(self).words(),
                final(self).thread(),
                Access::Stack { step: Step::StartPush { block } },
            ),
            *final(final(self).cell()) == *final(old(self).cell()),
            accesses::<C>(
                old(self).words(),
                old(self).local(),
                final(self).words(),
                final(self).local(),
                k,
                Step::StartPush { block },
            ),
    {
        proof {
            self.thread@ = Thread { bin: k, local: Local::Push { block }, ..self.thread@ };
        }
    }

    /// Begins to pop a block from bin `k`.
    pub(crate) fn begin_pop(&mut self, Ghost(k): Ghost<int>)
        requires
            old(self).local() is Idle,
        ensures
            final(self).words() == old(self).words(),
            final(self).spurious_failures() == old(self).spurious_failures(),
            final(self).thread() == (Thread { bin: k, local: Local::Pop, ..old(self).thread() }),
            makes::<C>(
                old(self).words(),
                old(self).thread(),
                final(self).words(),
                final(self).thread(),
                Access::Stack { step: Step::StartPop },
            ),
            *final(final(self).cell()) == *final(old(self).cell()),
            accesses::<C>(
                old(self).words(),
                old(self).local(),
                final(self).words(),
                final(self).local(),
                k,
                Step::StartPop,
            ),
    {
        proof {
            self.thread@ = Thread { bin: k, local: Local::Pop, ..self.thread@ };
        }
    }

    /// Loads the head of the bin, at `addr`: one access, for either operation. A pop
    /// that finds the bin empty ends.
    pub(crate) fn load_head(&mut self, addr: u64) -> (head: u64)
        requires
            addr == head_at::<C>(old(self).bin()),
            old(self).local() is Push || old(self).local() is Pop,
            old(self).words().contains_key(addr as int),
        ensures
            head == old(self).words()[addr as int],
            final(self).words() == old(self).words(),
            final(self).spurious_failures() == old(self).spurious_failures(),
            final(self).thread() == (Thread {
                empty: if old(self).local() is Pop && front_of::<C>(head as int) == 0 {
                    old(self).thread().empty.insert(old(self).bin())
                } else {
                    old(self).thread().empty
                },
                local: final(self).local(),
                ..old(self).thread()
            }),
            accesses::<C>(
                old(self).words(),
                old(self).local(),
                final(self).words(),
                final(self).local(),
                old(self).bin(),
                Step::Load,
            ),
            makes::<C>(
                old(self).words(),
                old(self).thread(),
                final(self).words(),
                final(self).thread(),
                Access::Stack { step: Step::Load },
            ),
            *final(final(self).cell()) == *final(old(self).cell()),
    {
        let head: u64 = self.mem.atomic_load(addr);
        proof {
            let before = self.thread@;
            self.thread@ = match before.local {
                Local::Push { block } => Thread {
                    local: Local::PushLoaded { block, head: head as int },
                    ..before
                },
                _ => if front_of::<C>(head as int) == 0 {
                    Thread { empty: before.empty.insert(before.bin), local: Local::Idle, ..before }
                } else {
                    Thread { local: Local::PopLoaded { head: head as int }, ..before }
                },
            };
        }
        head
    }

    /// Stores the address in the head that was loaded to the second word of the block
    /// that is pushed, at `addr`: one access.
    pub(crate) fn link_block(&mut self, addr: u64, first: u64, Ghost(head): Ghost<int>)
        requires
            old(self).local() == (Local::PushLoaded { block: addr - 8, head }),
            first == front_of::<C>(head),
            old(self).words().contains_key(addr as int),
        ensures
            final(self).words() == old(self).words().insert(addr as int, first),
            final(self).spurious_failures() == old(self).spurious_failures(),
            final(self).thread() == (Thread {
                local: Local::PushLinked { block: addr - 8, head },
                ..old(self).thread()
            }),
            accesses::<C>(
                old(self).words(),
                old(self).local(),
                final(self).words(),
                final(self).local(),
                old(self).bin(),
                Step::Link,
            ),
            makes::<C>(
                old(self).words(),
                old(self).thread(),
                final(self).words(),
                final(self).thread(),
                Access::Stack { step: Step::Link },
            ),
            *final(final(self).cell()) == *final(old(self).cell()),
    {
        self.mem.atomic_store(addr, first);
        proof {
            self.thread@ = Thread {
                local: Local::PushLinked { block: addr - 8, head },
                ..self.thread@
            };
        }
    }

    /// Loads the second word of the block that the head names that was loaded, at
    /// `addr`: one access.
    pub(crate) fn load_link(&mut self, addr: u64, Ghost(head): Ghost<int>) -> (next: u64)
        requires
            old(self).local() == (Local::PopLoaded { head }),
            addr == front_of::<C>(head) + 8,
            old(self).words().contains_key(addr as int),
        ensures
            next == old(self).words()[addr as int],
            final(self).words() == old(self).words(),
            final(self).spurious_failures() == old(self).spurious_failures(),
            final(self).thread() == (Thread {
                local: Local::PopRead { head, next: next as int },
                ..old(self).thread()
            }),
            accesses::<C>(
                old(self).words(),
                old(self).local(),
                final(self).words(),
                final(self).local(),
                old(self).bin(),
                Step::Read,
            ),
            makes::<C>(
                old(self).words(),
                old(self).thread(),
                final(self).words(),
                final(self).thread(),
                Access::Stack { step: Step::Read },
            ),
            *final(final(self).cell()) == *final(old(self).cell()),
    {
        let next: u64 = self.mem.atomic_load(addr);
        proof {
            self.thread@ = Thread {
                local: Local::PopRead { head, next: next as int },
                ..self.thread@
            };
        }
        next
    }

    /// Swaps the head of the bin, at `addr`, from the one that was loaded to one that
    /// names the block at `to`, with the tag advanced, and says whether it did: one
    /// compare-and-swap, for either operation. One that fails begins anew.
    pub(crate) fn swap_head(
        &mut self,
        addr: u64,
        head: u64,
        new: u64,
        Ghost(to): Ghost<int>,
    ) -> (r: bool)
        requires
            addr == head_at::<C>(old(self).bin()),
            old(self).local() == (Local::PushLinked { block: to, head: head as int })
                || old(self).local() == (Local::PopRead { head: head as int, next: to }),
            new == retagged::<C>(head as int, to),
            old(self).words().contains_key(addr as int),
        ensures
            r ==> old(self).words()[addr as int] == head && final(self).words() == old(
                self,
            ).words().insert(addr as int, new),
            !r ==> final(self).words() == old(self).words(),
            !r && old(self).words()[addr as int] == head ==> old(self).spurious_failures()
                > final(self).spurious_failures(),
            final(self).last_write() == (Write::Swap { addr, current: head, new, done: r }),
            final(self).thread() == (Thread {
                local: if r {
                    Local::Idle
                } else if old(self).local() is PushLinked {
                    Local::Push { block: to }
                } else {
                    Local::Pop
                },
                ..old(self).thread()
            }),
            accesses::<C>(
                old(self).words(),
                old(self).local(),
                final(self).words(),
                final(self).local(),
                old(self).bin(),
                if r {
                    Step::Swap
                } else {
                    Step::Retry
                },
            ),
            makes::<C>(
                old(self).words(),
                old(self).thread(),
                final(self).words(),
                final(self).thread(),
                Access::Stack {
                    step: if r {
                        Step::Swap
                    } else {
                        Step::Retry
                    },
                },
            ),
            *final(final(self).cell()) == *final(old(self).cell()),
    {
        let r: bool = CadAlloc::<C>::new().cas_weak(&mut *self.mem, addr, head, new);
        proof {
            self.thread@ = Thread {
                local: if r {
                    Local::Idle
                } else if self.thread@.local is PushLinked {
                    Local::Push { block: to }
                } else {
                    Local::Pop
                },
                ..self.thread@
            };
        }
        r
    }
}

// --- several threads --------------------------------------------------------

/// The thread works on a fixed bin, and on a block of the payload.
pub open spec fn on_fixed_bin<C: Config>(s: Thread) -> bool {
    &&& 0 <= s.bin < oversized::<C>()
    &&& s.local matches Local::PushLoaded { block, .. } ==> payload_start::<C>() <= block
}

/// The threads that have the refill lock.
pub open spec fn holders(threads: Map<int, Thread>) -> Set<int> {
    Set::new(|t: int| threads.contains_key(t) && threads[t].held)
}

/// The refill lock as the words and the threads show it.
pub open spec fn lock_of<C: Config>(w: Map<int, u64>, threads: Map<int, Thread>) -> Lock {
    Lock { word: w[lock_at::<C>()] as int, holders: holders(threads) }
}

/// What only the thread that has the refill lock may load or store, and what no thread
/// may: the bump pointer and the oversized list are the lock's; the lock itself and the
/// heads of the fixed bins are only swapped. Words of the payload are free.
pub proof fn law_lock_protects<C: Config>(held: bool)
    requires
        valid_config::<C>(),
        valid_region::<C>(),
    ensures
        open_word::<C>(bump_at::<C>(), held) <==> held,
        open_word::<C>(head_at::<C>(oversized::<C>()), held) <==> held,
        !open_word::<C>(lock_at::<C>(), held),
        forall|k: int|
            0 <= k < oversized::<C>() ==> !open_word::<C>(#[trigger] head_at::<C>(k), held),
        forall|a: int| payload_start::<C>() <= a ==> #[trigger] open_word::<C>(a, held),
{
    lemma_addresses::<C>();
    lemma_bin_counts::<C>();
}

/// Whatever the words hold, the lock word changes in two ways only: from `0` to `1` by
/// the compare-and-swap of a thread that has the lock then, and to `0` by the thread
/// that had it. The bump pointer and the oversized list change only by a thread that
/// has the lock, and the head of a fixed bin only by a swap of the very head that the
/// thread has loaded.
pub proof fn law_lock_word_moves<C: Config>(
    w: Map<int, u64>,
    s: Thread,
    w2: Map<int, u64>,
    s2: Thread,
    access: Access,
    k: int,
)
    requires
        valid_config::<C>(),
        valid_region::<C>(),
        on_fixed_bin::<C>(s2),
        on_fixed_bin::<C>(s),
        makes::<C>(w, s, w2, s2, access),
        0 <= k < oversized::<C>(),
    ensures
        !s.held && s2.held ==> access == (Access::TryLock { taken: true }) && w[lock_at::<C>()] == 0
            && w2[lock_at::<C>()] == 1,
        s.held && !s2.held ==> access is Release && w2[lock_at::<C>()] == 0,
        s.held == s2.held ==> w2[lock_at::<C>()] == w[lock_at::<C>()],
        !s.held ==> w2[bump_at::<C>()] == w[bump_at::<C>()],
        !s.held ==> w2[head_at::<C>(oversized::<C>())] == w[head_at::<C>(oversized::<C>())],
        w2[head_at::<C>(k)] != w[head_at::<C>(k)] ==> {
            &&& access == (Access::Stack { step: Step::Swap })
            &&& s.bin == k
            &&& s.local matches Local::PushLinked { block, head } ==> w[head_at::<C>(k)] == head
            &&& s.local matches Local::PopRead { head, next } ==> w[head_at::<C>(k)] == head
        },
{
    lemma_addresses::<C>();
    lemma_bin_counts::<C>();
}

/// However many threads use a heap, and in whatever order they make their accesses, no
/// two of them have the refill lock at once: every access takes the lock, releases it
/// or leaves it as it is.
pub proof fn law_one_thread_has_the_lock<C: Config>(
    w: Map<int, u64>,
    threads: Map<int, Thread>,
    w2: Map<int, u64>,
    t: int,
    s2: Thread,
    access: Access,
)
    requires
        valid_config::<C>(),
        valid_region::<C>(),
        threads.contains_key(t),
        on_fixed_bin::<C>(threads[t]),
        on_fixed_bin::<C>(s2),
        makes::<C>(w, threads[t], w2, s2, access),
        lock_ok(lock_of::<C>(w, threads)),
    ensures
        ({
            let before = lock_of::<C>(w, threads);
            let after = lock_of::<C>(w2, threads.insert(t, s2));
            &&& lock_ok(after)
            &&& acquires(before, after, t) || releases(before, after, t) || after == before
            &&& acquires(before, after, t) <==> access == (Access::TryLock { taken: true })
            &&& releases(before, after, t) <==> access is Release
        }),
{
    let before = lock_of::<C>(w, threads);
    let threads2 = threads.insert(t, s2);
    let after = lock_of::<C>(w2, threads2);
    law_lock_word_moves::<C>(w, threads[t], w2, s2, access, 0);
    if s2.held && !threads[t].held {
        assert(after.holders =~= before.holders.insert(t));
        law_lock_is_exclusive(before, after, t);
    } else if threads[t].held && !s2.held {
        assert(after.holders =~= before.holders.remove(t));
        law_lock_is_exclusive(before, after, t);
    } else {
        assert(after.holders =~= before.holders);
    }
}

} // verus!
