//! Why threads that share a heap never share memory.
//!
//! A push or a pop of a bin takes effect in one step, and the refill lock is
//! exclusive: [`interleaving`](crate::interleaving) shows both. Here the blocks of a
//! whole heap move between the free lists and the threads in such steps, and the
//! bump pointer is loaded and stored, in two steps, by a thread that holds the lock.
//! Whatever the order of the steps, no two blocks ever overlap.
//!
//! The model is tied to the operations in [`steps`](crate::steps): each of them is a
//! run of such steps.

use crate::interleaving::{acquires, law_lock_is_exclusive, lock_ok, releases, Lock};
use crate::state::{apart, Block};
use vstd::prelude::*;

verus! {

// --- the model --------------------------------------------------------------

/// A heap that threads share.
pub struct Shared {
    /// Where the payload area starts.
    pub start: int,
    /// The bump pointer.
    pub bump: int,
    /// Where the memory ends that threads have taken: the bump pointer, or what a
    /// thread that holds the lock is about to store to it.
    pub top: int,
    /// Blocks above this size are in the list that the lock protects.
    pub ceil: int,
    /// The refill lock.
    pub lock: Lock,
    /// What a thread that holds the lock has loaded from the bump pointer.
    pub seen: Map<int, int>,
    /// What a thread that holds the lock is about to store to the bump pointer.
    pub claimed: Map<int, int>,
    /// The blocks in the free lists.
    pub free: Set<Block>,
    /// The blocks that each thread has to itself: handed out to it, or about to be.
    pub owned: Map<int, Set<Block>>,
}

/// Where a block can be: in the free lists, or with a thread.
pub enum Place {
    /// In the free lists.
    Free,
    /// With the thread.
    With(int),
}

impl Shared {
    /// Whether the block is at the place.
    pub open spec fn at(self, p: Place, b: Block) -> bool {
        match p {
            Place::Free => self.free.contains(b),
            Place::With(t) => self.owned.contains_key(t) && self.owned[t].contains(b),
        }
    }
}

/// The blocks are apart, and lie in `[lo, hi)`.
pub open spec fn tiles(pieces: Set<Block>, lo: int, hi: int) -> bool {
    &&& forall|b: Block| #[trigger] pieces.contains(b) ==> b.size > 0 && lo <= b.addr && b.end() <= hi
    &&& forall|b: Block, c: Block| #[trigger]
        pieces.contains(b) && #[trigger] pieces.contains(c) && b != c ==> apart(b, c)
}

/// A step of one thread.
pub enum Move {
    /// Takes the refill lock.
    Acquire,
    /// Releases the refill lock.
    Release,
    /// Loads the bump pointer, holding the lock.
    LoadBump,
    /// Takes the memory between what it has loaded and `to`, as `pieces`, holding the
    /// lock. This touches no word.
    Claim { to: int, pieces: Set<Block> },
    /// Stores where the memory ends that it has taken to the bump pointer, holding the
    /// lock.
    StoreBump,
    /// Puts a block that it owns in its free list, holding the lock if it protects
    /// the list.
    Give { block: Block },
    /// Takes a block out of its free list, holding the lock if it protects the list.
    Take { block: Block },
    /// Cuts a block that it owns into `pieces`.
    Cut { block: Block, pieces: Set<Block> },
}

/// Thread `t` makes `step`, which changes the heap from `s` to `s2`.
pub open spec fn makes(s: Shared, s2: Shared, t: int, step: Move) -> bool {
    &&& s.owned.contains_key(t)
    &&& match step {
        Move::Acquire => {
            &&& acquires(s.lock, s2.lock, t)
            &&& s2 == (Shared { lock: s2.lock, ..s })
        },
        Move::Release => {
            &&& releases(s.lock, s2.lock, t)
            &&& !s.claimed.contains_key(t)
            &&& s2 == (Shared { lock: s2.lock, seen: s.seen.remove(t), ..s })
        },
        Move::LoadBump => {
            &&& s.lock.holders.contains(t)
            &&& !s.claimed.contains_key(t)
            &&& s2 == (Shared { seen: s.seen.insert(t, s.bump), ..s })
        },
        Move::Claim { to, pieces } => {
            &&& s.lock.holders.contains(t)
            &&& s.seen.contains_key(t)
            &&& s.seen[t] <= to
            &&& tiles(pieces, s.seen[t], to)
            &&& s2 == (Shared {
                top: to,
                seen: s.seen.remove(t),
                claimed: s.claimed.insert(t, to),
                owned: s.owned.insert(t, s.owned[t].union(pieces)),
                ..s
            })
        },
        Move::StoreBump => {
            &&& s.lock.holders.contains(t)
            &&& s.claimed.contains_key(t)
            &&& s2 == (Shared { bump: s.claimed[t], claimed: s.claimed.remove(t), ..s })
        },
        Move::Give { block } => {
            &&& s.owned[t].contains(block)
            &&& block.size > s.ceil ==> s.lock.holders.contains(t)
            &&& s2 == (Shared {
                free: s.free.insert(block),
                owned: s.owned.insert(t, s.owned[t].remove(block)),
                ..s
            })
        },
        Move::Take { block } => {
            &&& s.free.contains(block)
            &&& block.size > s.ceil ==> s.lock.holders.contains(t)
            &&& s2 == (Shared {
                free: s.free.remove(block),
                owned: s.owned.insert(t, s.owned[t].insert(block)),
                ..s
            })
        },
        Move::Cut { block, pieces } => {
            &&& s.owned[t].contains(block)
            &&& tiles(pieces, block.addr, block.end())
            &&& s2 == (Shared {
                owned: s.owned.insert(t, s.owned[t].remove(block).union(pieces)),
                ..s
            })
        },
    }
}

// --- the invariant ----------------------------------------------------------

/// Every block lies in the part of the payload area that threads have taken.
pub open spec fn within(s: Shared) -> bool {
    forall|p: Place, b: Block| #[trigger]
        s.at(p, b) ==> b.size > 0 && s.start <= b.addr && b.end() <= s.top
}

/// No two blocks overlap, wherever they are; no block is in two places.
pub open spec fn separate(s: Shared) -> bool {
    forall|p: Place, b: Block, q: Place, c: Block| #[trigger]
        s.at(p, b) && #[trigger] s.at(q, c) && !(p == q && b == c) ==> apart(b, c)
}

/// A thread that has loaded the bump pointer, or is about to store it, holds the lock
/// and knows where the taken memory ends; that is the bump pointer, unless a thread is
/// about to store it.
pub open spec fn bump_ok(s: Shared) -> bool {
    &&& s.start <= s.bump <= s.top
    &&& forall|t: int| #[trigger]
        s.seen.contains_key(t) ==> s.lock.holders.contains(t) && s.seen[t] == s.top
    &&& forall|t: int| #[trigger]
        s.claimed.contains_key(t) ==> s.lock.holders.contains(t) && s.claimed[t] == s.top
    &&& s.bump == s.top || exists|t: int| #[trigger] s.claimed.contains_key(t)
}

/// The invariant of a shared heap: its blocks are separate, and whoever moves the
/// bump pointer has it to itself.
pub open spec fn shared_ok(s: Shared) -> bool {
    &&& lock_ok(s.lock)
    &&& bump_ok(s)
    &&& within(s)
    &&& separate(s)
}

// --- laws -------------------------------------------------------------------

/// Blocks that a thread gains, from memory that nothing else has, are separate from
/// all others.
proof fn lemma_gain(s: Shared, s2: Shared, t: int, pieces: Set<Block>, lo: int, hi: int)
    requires
        within(s),
        separate(s),
        s.start <= lo,
        hi <= s2.top,
        s2.start == s.start,
        s.top <= s2.top,
        tiles(pieces, lo, hi),
        forall|p: Place, b: Block| #[trigger]
            s2.at(p, b) ==> (p == Place::With(t) && pieces.contains(b)) || (s.at(p, b) && (b.end()
                <= lo || hi <= b.addr)),
    ensures
        within(s2),
        separate(s2),
{
    assert forall|p: Place, b: Block, q: Place, c: Block| #[trigger]
        s2.at(p, b) && #[trigger] s2.at(q, c) && !(p == q && b == c) implies apart(b, c) by {
        if s.at(p, b) && s.at(q, c) {
            assert(apart(b, c));
        }
    }
}

/// Every step keeps the lock exclusive, and the bump pointer with who holds it.
proof fn lemma_bump_step(s: Shared, s2: Shared, t: int, step: Move)
    requires
        shared_ok(s),
        makes(s, s2, t, step),
    ensures
        lock_ok(s2.lock),
        bump_ok(s2),
{
    if step is Acquire || step is Release {
        law_lock_is_exclusive(s.lock, s2.lock, t);
    }
    assert forall|u: int| #[trigger] s2.seen.contains_key(u) implies s2.lock.holders.contains(u)
        && s2.seen[u] == s2.top by {
        if u != t {
            assert(s.seen.contains_key(u));
            assert(s.lock.holders.contains(u));
        } else if step is LoadBump {
            if s.bump != s.top {
                let v = choose|v: int| #[trigger] s.claimed.contains_key(v);
                assert(s.lock.holders.contains(v) && s.lock.holders.contains(t));
            }
        } else {
            assert(s.seen.contains_key(u));
        }
    }
    assert forall|u: int| #[trigger] s2.claimed.contains_key(u) implies {
        &&& s2.lock.holders.contains(u)
        &&& s2.claimed[u] == s2.top
    } by {
        if u != t {
            assert(s.claimed.contains_key(u));
            assert(s.lock.holders.contains(u));
        }
    }
    if s2.bump != s2.top {
        if step is Claim {
            assert(s2.claimed.contains_key(t));
        } else {
            let v = choose|v: int| #[trigger] s.claimed.contains_key(v);
            assert(s.lock.holders.contains(v));
            assert(s2.claimed.contains_key(v));
        }
    }
}

/// Every step of every thread keeps the invariant: in particular, the blocks that
/// threads have never overlap each other or a free block.
pub proof fn law_threads_never_share_memory(s: Shared, s2: Shared, t: int, step: Move)
    requires
        shared_ok(s),
        makes(s, s2, t, step),
    ensures
        shared_ok(s2),
{
    lemma_bump_step(s, s2, t, step);
    match step {
        Move::Acquire => {
            lemma_same_places(s, s2);
        },
        Move::Release => {
            lemma_same_places(s, s2);
        },
        Move::LoadBump => {
            lemma_same_places(s, s2);
        },
        Move::StoreBump => {
            lemma_same_places(s, s2);
        },
        Move::Claim { to, pieces } => {
            assert(s.seen[t] == s.top);
            assert forall|p: Place, b: Block| #[trigger] s2.at(p, b) implies {
                ||| p == Place::With(t) && pieces.contains(b)
                ||| s.at(p, b) && (b.end() <= s.top || to <= b.addr)
            } by {
                if !(p == Place::With(t) && pieces.contains(b)) {
                    assert(s.at(p, b));
                }
            }
            lemma_gain(s, s2, t, pieces, s.top, to);
        },
        Move::Give { block } => {
            lemma_moved(s, s2, block, Place::With(t), Place::Free);
        },
        Move::Take { block } => {
            lemma_moved(s, s2, block, Place::Free, Place::With(t));
        },
        Move::Cut { block, pieces } => {
            assert(s.at(Place::With(t), block));
            assert forall|p: Place, b: Block| #[trigger] s2.at(p, b) implies {
                ||| p == Place::With(t) && pieces.contains(b)
                ||| s.at(p, b) && (b.end() <= block.addr || block.end() <= b.addr)
            } by {
                if !(p == Place::With(t) && pieces.contains(b)) {
                    assert(s.at(p, b));
                    assert(apart(b, block));
                }
            }
            lemma_gain(s, s2, t, pieces, block.addr, block.end());
        },
    }
}

/// The heaps of a history, each made from the one before by a step of some thread.
pub open spec fn is_history(run: Seq<Shared>, threads: Seq<int>, steps: Seq<Move>) -> bool {
    &&& run.len() == steps.len() + 1
    &&& run.len() == threads.len() + 1
    &&& forall|i: int|
        #![trigger steps[i]]
        0 <= i < steps.len() ==> makes(run[i], run[i + 1], threads[i], steps[i])
}

/// Whatever steps threads make, in whatever order, from a heap in order they lead to
/// one in order.
pub proof fn law_histories_never_share_memory(
    run: Seq<Shared>,
    threads: Seq<int>,
    steps: Seq<Move>,
)
    requires
        is_history(run, threads, steps),
        shared_ok(run[0]),
    ensures
        shared_ok(run.last()),
    decreases steps.len(),
{
    let n = steps.len() as int;
    if n > 0 {
        let before = run.drop_last();
        assert forall|i: int|
            #![trigger steps.drop_last()[i]]
            0 <= i < steps.drop_last().len() implies makes(
            before[i],
            before[i + 1],
            threads.drop_last()[i],
            steps.drop_last()[i],
        ) by {
            assert(steps[i] == steps.drop_last()[i]);
        }
        law_histories_never_share_memory(before, threads.drop_last(), steps.drop_last());
        assert(before.last() == run[n - 1]);
        let step = steps[n - 1];
        law_threads_never_share_memory(run[n - 1], run[n], threads[n - 1], step);
    }
}

/// Nothing moves.
proof fn lemma_same_places(s: Shared, s2: Shared)
    requires
        within(s),
        separate(s),
        s2.free == s.free,
        s2.owned == s.owned,
        s2.start == s.start,
        s2.top == s.top,
    ensures
        within(s2),
        separate(s2),
{
    assert forall|p: Place, b: Block| #[trigger] s2.at(p, b) implies s.at(p, b) by {}
    assert forall|p: Place, b: Block, q: Place, c: Block| #[trigger]
        s2.at(p, b) && #[trigger] s2.at(q, c) && !(p == q && b == c) implies apart(b, c) by {
        assert(s.at(p, b) && s.at(q, c));
    }
}

/// One block moves from one place to another.
proof fn lemma_moved(s: Shared, s2: Shared, block: Block, from: Place, to: Place)
    requires
        within(s),
        separate(s),
        s.at(from, block),
        from != to,
        s2.start == s.start,
        s2.top == s.top,
        forall|p: Place, b: Block| #[trigger]
            s2.at(p, b) ==> (p == to && b == block) || (s.at(p, b) && !(p == from && b == block)),
    ensures
        within(s2),
        separate(s2),
{
    assert forall|p: Place, b: Block, q: Place, c: Block| #[trigger]
        s2.at(p, b) && #[trigger] s2.at(q, c) && !(p == q && b == c) implies apart(b, c) by {
        if p == to && b == block {
            assert(s.at(q, c) && !(q == from && c == block));
            assert(apart(block, c));
        } else if q == to && c == block {
            assert(s.at(p, b) && !(p == from && b == block));
            assert(apart(b, block));
        } else {
            assert(s.at(p, b) && s.at(q, c));
        }
    }
}

/// A heap from which nothing has been carved, and that nobody has locked, is in
/// order.
pub proof fn law_fresh_heap_is_ok(s: Shared)
    requires
        s.start == s.bump == s.top,
        s.lock == (Lock { word: 0, holders: Set::empty() }),
        s.seen == Map::<int, int>::empty(),
        s.claimed == Map::<int, int>::empty(),
        s.free == Set::<Block>::empty(),
        forall|t: int| #[trigger]
            s.owned.contains_key(t) ==> s.owned[t] == Set::<Block>::empty(),
    ensures
        shared_ok(s),
{
}

/// Two threads' blocks are apart.
pub proof fn law_owners_are_separate(s: Shared, t: int, u: int, b: Block, c: Block)
    requires
        shared_ok(s),
        t != u,
        s.owned.contains_key(t) && s.owned[t].contains(b),
        s.owned.contains_key(u) && s.owned[u].contains(c),
    ensures
        apart(b, c),
{
    assert(s.at(Place::With(t), b) && s.at(Place::With(u), c));
}

} // verus!
