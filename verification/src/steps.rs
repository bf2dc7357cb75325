//! The operations as runs of the steps in which threads alternate.
//!
//! [`sharing`](crate::sharing) models the steps that move blocks between the free
//! lists and the threads. Here each operation on a heap state is shown to be a run
//! of such steps of the thread that performs it, when no other thread comes in
//! between.

use crate::bits::{lemma_aligned_down, lemma_is_pow2, lemma_mod_add_sub, lemma_round_up, round_up};
use crate::classes::{
    bin_of, block_exact, carvable, class_align, class_size, lemma_bin_of, lemma_class, need_of,
    odd_bin, oversized, request_size,
};
use crate::config::{lemma_bin_counts, lemma_config_logs, region_end, valid_config, Config};
use crate::interleaving::Lock;
use crate::invariants::{
    lemma_align_order, lemma_allocated, lemma_carvable, lemma_carve_down, lemma_carve_tail,
    lemma_exact_floor, lemma_first_fit, lemma_need, lemma_placed, lemma_push, lemma_raised_bump,
    lemma_remove,
};
use crate::sharing::{
    is_history, law_histories_never_share_memory, makes, shared_ok, tiles, Move, Place, Shared,
};
use crate::state::{
    allocated, apart, bump_block, carve_down, carve_tail, first_fit, lemma_bin_of_class,
    lemma_geometry, payload_start, reallocated, split, take_fixed, take_oversized, valid_region,
    Block, HeapState,
};
use vstd::arithmetic::power2::is_pow2;
use vstd::prelude::*;

verus! {

// --- runs of one thread -----------------------------------------------------

/// Thread `t` can lead the heap from `s` to `s2` by steps of its own.
pub open spec fn reaches(s: Shared, s2: Shared, t: int) -> bool {
    exists|run: Seq<Shared>, steps: Seq<Move>| #[trigger] leads(s, s2, t, run, steps)
}

/// The steps of thread `t` lead the heap from `s` to `s2`, by way of `run`.
pub open spec fn leads(s: Shared, s2: Shared, t: int, run: Seq<Shared>, steps: Seq<Move>) -> bool {
    &&& is_history(run, Seq::new(steps.len(), |i: int| t), steps)
    &&& run[0] == s
    &&& run.last() == s2
}

/// No step leads nowhere else.
proof fn lemma_stay(s: Shared, t: int)
    ensures
        reaches(s, s, t),
{
    assert(leads(s, s, t, seq![s], Seq::empty()));
}

/// A step leads on.
proof fn lemma_step(s: Shared, mid: Shared, s2: Shared, t: int, step: Move)
    requires
        reaches(s, mid, t),
        makes(mid, s2, t, step),
    ensures
        reaches(s, s2, t),
{
    let (run, steps) = choose|run: Seq<Shared>, steps: Seq<Move>| #[trigger]
        leads(s, mid, t, run, steps);
    let run2 = run.push(s2);
    let steps2 = steps.push(step);
    assert forall|i: int|
        #![trigger steps2[i]]
        0 <= i < steps2.len() implies makes(run2[i], run2[i + 1], t, steps2[i]) by {
        if i < steps.len() {
            assert(steps2[i] == steps[i]);
        }
    }
    assert(leads(s, s2, t, run2, steps2));
}

/// Runs follow each other.
proof fn lemma_join(s: Shared, mid: Shared, s2: Shared, t: int)
    requires
        reaches(s, mid, t),
        reaches(mid, s2, t),
    ensures
        reaches(s, s2, t),
{
    let (run, steps) = choose|run: Seq<Shared>, steps: Seq<Move>| #[trigger]
        leads(mid, s2, t, run, steps);
    lemma_join_at(s, mid, t, run, steps, steps.len() as int);
}

/// A run and the first `n` steps of one that follows it.
proof fn lemma_join_at(
    s: Shared,
    mid: Shared,
    t: int,
    run: Seq<Shared>,
    steps: Seq<Move>,
    n: int,
)
    requires
        reaches(s, mid, t),
        is_history(run, Seq::new(steps.len(), |i: int| t), steps),
        run[0] == mid,
        0 <= n <= steps.len(),
    ensures
        reaches(s, run[n], t),
    decreases n,
{
    if n > 0 {
        lemma_join_at(s, mid, t, run, steps, n - 1);
        let step = steps[n - 1];
        lemma_step(s, run[n - 1], run[n], t, step);
    }
}

// --- heap states ------------------------------------------------------------

/// The blocks in the free lists.
pub open spec fn free_blocks(st: HeapState) -> Set<Block> {
    Set::new(|b: Block| exists|k: int, i: int| st.has(k, i) && #[trigger] st.bins[k][i] == b)
}

/// The shared heap in the state `st`, where threads have the blocks that `owned`
/// gives them, and none has begun anything.
pub open spec fn shared_of<C: Config>(st: HeapState, owned: Map<int, Set<Block>>) -> Shared {
    Shared {
        start: payload_start::<C>(),
        bump: st.bump,
        top: st.bump,
        ceil: C::EXP_CEIL as int,
        lock: Lock { word: 0, holders: Set::empty() },
        seen: Map::empty(),
        claimed: Map::empty(),
        free: free_blocks(st),
        owned,
    }
}

/// The shared heap while thread `t` holds the refill lock.
pub open spec fn locked_of<C: Config>(st: HeapState, owned: Map<int, Set<Block>>, t: int)
    -> Shared {
    Shared {
        lock: Lock { word: 1, holders: Set::empty().insert(t) },
        ..shared_of::<C>(st, owned)
    }
}

/// What threads have once `t` has been handed the block, if there is one.
pub open spec fn gains(owned: Map<int, Set<Block>>, t: int, taken: Option<Block>) -> Map<
    int,
    Set<Block>,
> {
    match taken {
        Some(b) => owned.insert(t, owned[t].insert(b)),
        None => owned,
    }
}

/// What threads have once `t` has given up the block.
pub open spec fn loses(owned: Map<int, Set<Block>>, t: int, b: Block) -> Map<int, Set<Block>> {
    owned.insert(t, owned[t].remove(b))
}

/// All of the blocks but `b` itself lie apart from it, and none is empty.
spec fn alone(blocks: Set<Block>, b: Block) -> bool {
    forall|c: Block| #[trigger] blocks.contains(c) ==> c.size > 0 && (c == b || apart(c, b))
}

proof fn lemma_free_push<C: Config>(st: HeapState, b: Block)
    requires
        0 <= bin_of::<C>(b.size) < st.bins.len(),
    ensures
        free_blocks(st.push::<C>(b)) == free_blocks(st).insert(b),
{
    let k0 = bin_of::<C>(b.size);
    let st2 = st.push::<C>(b);
    assert forall|c: Block| free_blocks(st2).contains(c) <==> free_blocks(st).insert(b).contains(
        c,
    ) by {
        if free_blocks(st2).contains(c) && c != b {
            let (k, i) = choose|k: int, i: int| st2.has(k, i) && #[trigger] st2.bins[k][i] == c;
            let p = if k == k0 { i - 1 } else { i };
            assert(st.has(k, p) && st.bins[k][p] == c);
        }
        if free_blocks(st).contains(c) {
            let (k, i) = choose|k: int, i: int| st.has(k, i) && #[trigger] st.bins[k][i] == c;
            let p = if k == k0 { i + 1 } else { i };
            assert(st2.has(k, p) && st2.bins[k][p] == c);
        }
        assert(st2.has(k0, 0) && st2.bins[k0][0] == b);
    }
    assert(free_blocks(st2) =~= free_blocks(st).insert(b));
}

proof fn lemma_free_remove<C: Config>(st: HeapState, k: int, i: int)
    requires
        valid_config::<C>(),
        st.wf::<C>(),
        st.has(k, i),
    ensures
        free_blocks(st).contains(st.bins[k][i]),
        free_blocks(st.remove(k, i)) == free_blocks(st).remove(st.bins[k][i]),
{
    let b = st.bins[k][i];
    let st2 = st.remove(k, i);
    assert forall|c: Block| free_blocks(st2).contains(c) <==> free_blocks(st).remove(b).contains(
        c,
    ) by {
        if free_blocks(st2).contains(c) {
            let (l, j) = choose|l: int, j: int| st2.has(l, j) && #[trigger] st2.bins[l][j] == c;
            let q = if l == k && j >= i { j + 1 } else { j };
            assert(st.has(l, q) && st.bins[l][q] == c);
            assert(apart(st.bins[k][i], st.bins[l][q]));
            assert(b.size > 0);
        }
        if free_blocks(st).contains(c) && c != b {
            let (l, j) = choose|l: int, j: int| st.has(l, j) && #[trigger] st.bins[l][j] == c;
            let q = if l == k && j > i { j - 1 } else { j };
            assert(st2.has(l, q) && st2.bins[l][q] == c);
        }
    }
    assert(free_blocks(st2) =~= free_blocks(st).remove(b));
}

// --- carving ----------------------------------------------------------------

/// Thread `t`, which holds the lock, cuts `c` off the end of a block of its own and
/// gives it up; it keeps `rest`, if that is not empty.
proof fn lemma_cut_and_give<C: Config>(
    s: Shared,
    st: HeapState,
    t: int,
    whole: Block,
    rest: Block,
    c: Block,
)
    requires
        s.free == free_blocks(st),
        s.owned.contains_key(t),
        s.lock.holders.contains(t),
        s.owned[t].contains(whole),
        alone(s.owned[t], whole),
        rest.addr == whole.addr,
        rest.size >= 0,
        rest.end() == c.addr,
        c.size > 0,
        c.end() == whole.end(),
        0 <= bin_of::<C>(c.size) < st.bins.len(),
    ensures
        ({
            let others = s.owned[t].remove(whole);
            let kept = if rest.size > 0 {
                others.insert(rest)
            } else {
                others
            };
            &&& reaches(
                s,
                Shared {
                    free: free_blocks(st.push::<C>(c)),
                    owned: s.owned.insert(t, kept),
                    ..s
                },
                t,
            )
            &&& alone(kept, rest)
            &&& !others.contains(rest)
        }),
{
    let others = s.owned[t].remove(whole);
    let pieces = if rest.size > 0 {
        set![rest, c]
    } else {
        set![c]
    };
    let kept = if rest.size > 0 {
        others.insert(rest)
    } else {
        others
    };
    assert(tiles(pieces, whole.addr, whole.end()));
    let s1 = Shared { owned: s.owned.insert(t, others.union(pieces)), ..s };
    let s2 = Shared {
        free: s.free.insert(c),
        owned: s1.owned.insert(t, s1.owned[t].remove(c)),
        ..s1
    };
    assert(!others.contains(c) && !others.contains(rest)) by {
        if others.contains(c) {
            assert(s.owned[t].contains(c));
        }
        if others.contains(rest) {
            assert(s.owned[t].contains(rest));
        }
    }
    lemma_stay(s, t);
    lemma_step(s, s, s1, t, Move::Cut { block: whole, pieces });
    lemma_step(s, s1, s2, t, Move::Give { block: c });
    lemma_free_push::<C>(st, c);
    assert(s1.owned[t].remove(c) =~= kept);
    assert(s2.owned =~= s.owned.insert(t, kept));
    assert forall|x: Block| #[trigger] kept.contains(x) implies x.size > 0 && (x == rest || apart(
        x,
        rest,
    )) by {
        if x != rest {
            assert(s.owned[t].contains(x));
        }
    }
}

/// Carving a gap that the thread has is a run.
proof fn lemma_carve_down_run<C: Config>(s: Shared, st: HeapState, t: int, lo: int, end: int)
    requires
        valid_config::<C>(),
        valid_region::<C>(),
        st.wf::<C>(),
        payload_start::<C>() <= lo <= end <= st.bump,
        lo % C::MIN_ALIGN as int == 0,
        end % C::MIN_ALIGN as int == 0,
        st.clear(lo, end),
        s.free == free_blocks(st),
        s.owned.contains_key(t),
        s.lock.holders.contains(t),
        lo < end ==> s.owned[t].contains(Block { addr: lo, size: end - lo }),
        alone(s.owned[t], Block { addr: lo, size: end - lo }),
    ensures
        reaches(
            s,
            Shared {
                free: free_blocks(carve_down::<C>(st, lo, end)),
                owned: loses(s.owned, t, Block { addr: lo, size: end - lo }),
                ..s
            },
            t,
        ),
    decreases end - lo,
{
    let gap = Block { addr: lo, size: end - lo };
    lemma_config_logs::<C>();
    lemma_geometry::<C>();
    lemma_mod_add_sub(end, lo, C::MIN_ALIGN as int);
    lemma_carvable::<C>(end, end - lo);
    let size = carvable::<C>(end, end - lo).0;
    let s2 = Shared {
        free: free_blocks(carve_down::<C>(st, lo, end)),
        owned: loses(s.owned, t, gap),
        ..s
    };
    lemma_stay(s, t);
    if end - lo < C::MIN_ALIGN || size <= 0 {
        if lo < end {
            let pieces = Set::<Block>::empty();
            assert(s.owned[t].remove(gap).union(pieces) =~= s.owned[t].remove(gap));
            lemma_step(s, s, s2, t, Move::Cut { block: gap, pieces });
        } else {
            assert(!s.owned[t].contains(gap));
            assert(s.owned[t].remove(gap) =~= s.owned[t]);
            assert(s2.owned =~= s.owned);
        }
    } else {
        let c = Block { addr: end - size, size };
        let rest = Block { addr: lo, size: end - size - lo };
        let others = s.owned[t].remove(gap);
        let kept = if rest.size > 0 {
            others.insert(rest)
        } else {
            others
        };
        let st1 = st.push::<C>(c);
        assert(st.clear(c.addr, c.end()));
        lemma_push::<C>(st, c);
        lemma_placed::<C>(c);
        assert(st.clear(lo, end - size));
        lemma_bin_of::<C>(size);
        lemma_bin_counts::<C>();
        lemma_cut_and_give::<C>(s, st, t, gap, rest, c);
        let s1 = Shared { free: free_blocks(st1), owned: s.owned.insert(t, kept), ..s };
        lemma_carve_down_run::<C>(s1, st1, t, lo, end - size);
        assert(kept.remove(rest) =~= others);
        assert(loses(s1.owned, t, rest) =~= loses(s.owned, t, gap));
        lemma_join(s, s1, s2, t);
    }
}

/// Carving the excess of a block that the thread has is a run.
proof fn lemma_carve_tail_run<C: Config>(
    s: Shared,
    st: HeapState,
    t: int,
    addr: int,
    need: int,
    end: int,
    count: int,
)
    requires
        valid_config::<C>(),
        valid_region::<C>(),
        st.wf::<C>(),
        payload_start::<C>() <= addr,
        0 < need <= end - addr,
        end <= st.bump,
        addr % C::MIN_ALIGN as int == 0,
        need % C::MIN_ALIGN as int == 0,
        end % C::MIN_ALIGN as int == 0,
        st.clear(addr, end),
        s.free == free_blocks(st),
        s.owned.contains_key(t),
        s.lock.holders.contains(t),
        s.owned[t].contains(Block { addr, size: end - addr }),
        alone(s.owned[t], Block { addr, size: end - addr }),
    ensures
        ({
            let (st2, end2) = carve_tail::<C>(st, addr, need, end, count);
            let others = s.owned[t].remove(Block { addr, size: end - addr });
            reaches(
                s,
                Shared {
                    free: free_blocks(st2),
                    owned: s.owned.insert(t, others.insert(Block { addr, size: end2 - addr })),
                    ..s
                },
                t,
            )
        }),
    decreases end - addr - need,
{
    let whole = Block { addr, size: end - addr };
    let others = s.owned[t].remove(whole);
    let m = C::MIN_ALIGN as int;
    let excess = end - addr - need;
    lemma_config_logs::<C>();
    lemma_geometry::<C>();
    lemma_mod_add_sub(end, addr, m);
    lemma_mod_add_sub(end - addr, need, m);
    lemma_carvable::<C>(end, excess);
    let size = carvable::<C>(end, excess).0;
    let (st2, end2) = carve_tail::<C>(st, addr, need, end, count);
    let s2 = Shared {
        free: free_blocks(st2),
        owned: s.owned.insert(t, others.insert(Block { addr, size: end2 - addr })),
        ..s
    };
    if excess < C::MIN_ALIGN || (count >= C::CARVE_MAX && block_exact::<C>(end - addr)) || size
        <= 0 {
        lemma_stay(s, t);
        assert(others.insert(whole) =~= s.owned[t]);
        assert(s2.owned =~= s.owned);
    } else {
        let c = Block { addr: end - size, size };
        let rest = Block { addr, size: end - size - addr };
        let st1 = st.push::<C>(c);
        assert(st.clear(c.addr, c.end()));
        lemma_push::<C>(st, c);
        lemma_placed::<C>(c);
        assert(st.clear(addr, end - size));
        lemma_bin_of::<C>(size);
        lemma_bin_counts::<C>();
        lemma_cut_and_give::<C>(s, st, t, whole, rest, c);
        let s1 = Shared {
            free: free_blocks(st1),
            owned: s.owned.insert(t, others.insert(rest)),
            ..s
        };
        lemma_carve_tail_run::<C>(s1, st1, t, addr, need, end - size, count + 1);
        assert(others.insert(rest).remove(rest) =~= others);
        assert(s1.owned.insert(t, others.insert(Block { addr, size: end2 - addr })) =~= s2.owned);
        lemma_join(s, s1, s2, t);
    }
}

/// Cutting a block that the thread has down to size, under the lock, is a run.
proof fn lemma_split_run<C: Config>(s: Shared, st: HeapState, t: int, b: Block, need: int)
    requires
        valid_config::<C>(),
        valid_region::<C>(),
        st.wf::<C>(),
        st.holds::<C>(b),
        0 < need <= b.size,
        need % C::MIN_ALIGN as int == 0,
        block_exact::<C>(need),
        s.free == free_blocks(st),
        s.owned.contains_key(t),
        s.lock.holders.contains(t),
        s.owned[t].contains(b),
        alone(s.owned[t], b),
    ensures
        ({
            let (st2, size) = split::<C>(st, b, need);
            let kept = Block { addr: b.addr, size };
            reaches(
                s,
                Shared {
                    free: free_blocks(st2),
                    owned: gains(loses(s.owned, t, b), t, Some(kept)),
                    ..s
                },
                t,
            )
        }),
{
    let (st2, size) = split::<C>(st, b, need);
    let kept = Block { addr: b.addr, size };
    let others = s.owned[t].remove(b);
    let s2 = Shared {
        free: free_blocks(st2),
        owned: gains(loses(s.owned, t, b), t, Some(kept)),
        ..s
    };
    assert(s2.owned =~= s.owned.insert(t, others.insert(kept)));
    lemma_placed::<C>(b);
    lemma_mod_add_sub(b.addr, b.size, C::MIN_ALIGN as int);
    if b.size - need < C::SPLIT_MIN {
        lemma_stay(s, t);
        assert(others.insert(b) =~= s.owned[t]);
        assert(s2.owned =~= s.owned);
    } else {
        lemma_carve_tail::<C>(st, b.addr, need, b.end(), 0);
        let end = carve_tail::<C>(st, b.addr, need, b.end(), 0).1;
        let whole = Block { addr: b.addr, size: end - b.addr };
        lemma_mod_add_sub(end, b.addr, C::MIN_ALIGN as int);
        lemma_exact_floor::<C>(end - b.addr, need);
        assert(Block { addr: b.addr, size: b.end() - b.addr } == b);
        lemma_carve_tail_run::<C>(s, st, t, b.addr, need, b.end(), 0);
        let s1 = Shared {
            free: free_blocks(st2),
            owned: s.owned.insert(t, others.insert(whole)),
            ..s
        };
        let pieces = set![kept];
        assert(!others.contains(whole)) by {
            if others.contains(whole) {
                assert(s.owned[t].contains(whole));
            }
        }
        assert(tiles(pieces, whole.addr, whole.end()));
        assert(s1.owned[t].remove(whole).union(pieces) =~= others.insert(kept));
        assert(s1.owned.insert(t, others.insert(kept)) =~= s2.owned);
        lemma_step(s, s1, s2, t, Move::Cut { block: whole, pieces });
    }
}

// --- the operations ---------------------------------------------------------

/// The blocks of a thread lie apart in a heap that is in order.
proof fn lemma_alone(s: Shared, t: int, b: Block)
    requires
        shared_ok(s),
        s.owned.contains_key(t),
    ensures
        s.owned[t].contains(b) ==> alone(s.owned[t], b),
        s.free.contains(b) ==> !s.owned[t].contains(b) && alone(s.owned[t].insert(b), b),
{
    if s.owned[t].contains(b) {
        assert(s.at(Place::With(t), b));
        assert forall|c: Block| #[trigger] s.owned[t].contains(c) implies c.size > 0 && (c == b
            || apart(c, b)) by {
            assert(s.at(Place::With(t), c));
        }
    }
    if s.free.contains(b) {
        assert(s.at(Place::Free, b));
        assert forall|c: Block| #[trigger] s.owned[t].contains(c) implies c.size > 0 && apart(
            c,
            b,
        ) by {
            assert(s.at(Place::With(t), c));
        }
    }
}

/// A thread takes the lock of a heap that nobody has locked.
proof fn lemma_lock<C: Config>(st: HeapState, owned: Map<int, Set<Block>>, t: int)
    requires
        owned.contains_key(t),
    ensures
        reaches(shared_of::<C>(st, owned), locked_of::<C>(st, owned, t), t),
{
    let s = shared_of::<C>(st, owned);
    lemma_stay(s, t);
    lemma_step(s, s, locked_of::<C>(st, owned, t), t, Move::Acquire);
}

/// A thread that has nothing begun releases the lock.
proof fn lemma_unlock<C: Config>(
    s: Shared,
    st: HeapState,
    owned: Map<int, Set<Block>>,
    t: int,
    seen: Map<int, int>,
)
    requires
        owned.contains_key(t),
        reaches(s, Shared { seen, ..locked_of::<C>(st, owned, t) }, t),
        seen.remove(t) == Map::<int, int>::empty(),
    ensures
        reaches(s, shared_of::<C>(st, owned), t),
{
    let s1 = Shared { seen, ..locked_of::<C>(st, owned, t) };
    let s2 = shared_of::<C>(st, owned);
    assert(s1.lock.holders.remove(t) =~= Set::<int>::empty());
    lemma_step(s, s1, s2, t, Move::Release);
}

/// Putting a block that the thread has in its list is a run: one step for a fixed
/// class, and for an oversized block one step under the lock.
pub proof fn law_freeing_is_a_run<C: Config>(
    st: HeapState,
    owned: Map<int, Set<Block>>,
    t: int,
    b: Block,
)
    requires
        valid_config::<C>(),
        st.wf::<C>(),
        st.holds::<C>(b),
        owned.contains_key(t),
        owned[t].contains(b),
    ensures
        reaches(
            shared_of::<C>(st, owned),
            shared_of::<C>(st.push::<C>(b), loses(owned, t, b)),
            t,
        ),
        b.size <= C::EXP_CEIL ==> makes(
            shared_of::<C>(st, owned),
            shared_of::<C>(st.push::<C>(b), loses(owned, t, b)),
            t,
            Move::Give { block: b },
        ),
{
    let s = shared_of::<C>(st, owned);
    let st2 = st.push::<C>(b);
    let step = Move::Give { block: b };
    lemma_placed::<C>(b);
    lemma_bin_of::<C>(b.size);
    lemma_bin_counts::<C>();
    lemma_free_push::<C>(st, b);
    if b.size <= C::EXP_CEIL {
        lemma_stay(s, t);
        lemma_step(s, s, shared_of::<C>(st2, loses(owned, t, b)), t, step);
    } else {
        let s1 = locked_of::<C>(st, owned, t);
        let s2 = locked_of::<C>(st2, loses(owned, t, b), t);
        lemma_lock::<C>(st, owned, t);
        lemma_step(s, s1, s2, t, step);
        assert(s2.seen.remove(t) =~= s2.seen);
        lemma_unlock::<C>(s, st2, loses(owned, t, b), t, s2.seen);
    }
}

/// Cutting a block that the thread has down to size is a run.
pub proof fn law_cutting_is_a_run<C: Config>(
    st: HeapState,
    owned: Map<int, Set<Block>>,
    t: int,
    b: Block,
    need: int,
)
    requires
        valid_config::<C>(),
        valid_region::<C>(),
        st.wf::<C>(),
        st.holds::<C>(b),
        0 < need <= b.size,
        need % C::MIN_ALIGN as int == 0,
        block_exact::<C>(need),
        owned.contains_key(t),
        owned[t].contains(b),
        shared_ok(shared_of::<C>(st, owned)),
    ensures
        ({
            let (st2, size) = split::<C>(st, b, need);
            let kept = Block { addr: b.addr, size };
            reaches(
                shared_of::<C>(st, owned),
                shared_of::<C>(st2, gains(loses(owned, t, b), t, Some(kept))),
                t,
            )
        }),
{
    let s = shared_of::<C>(st, owned);
    let s1 = locked_of::<C>(st, owned, t);
    let (st2, size) = split::<C>(st, b, need);
    let kept = Block { addr: b.addr, size };
    let owned2 = gains(loses(owned, t, b), t, Some(kept));
    let s2 = locked_of::<C>(st2, owned2, t);
    lemma_lock::<C>(st, owned, t);
    lemma_alone(s, t, b);
    lemma_split_run::<C>(s1, st, t, b, need);
    crate::invariants::lemma_split::<C>(st, b, need);
    assert(s2 == Shared { free: free_blocks(st2), owned: owned2, ..s1 });
    lemma_join(s, s1, s2, t);
    assert(s2.seen.remove(t) =~= s2.seen);
    lemma_unlock::<C>(s, st2, owned2, t, s2.seen);
}

/// Taking the block at position `i` of bin `k`, in one step.
proof fn lemma_take<C: Config>(s: Shared, st: HeapState, t: int, k: int, i: int)
    requires
        valid_config::<C>(),
        st.wf::<C>(),
        st.has(k, i),
        s.free == free_blocks(st),
        s.owned.contains_key(t),
        st.bins[k][i].size > s.ceil ==> s.lock.holders.contains(t),
    ensures
        makes(
            s,
            Shared {
                free: free_blocks(st.remove(k, i)),
                owned: gains(s.owned, t, Some(st.bins[k][i])),
                ..s
            },
            t,
            Move::Take { block: st.bins[k][i] },
        ),
{
    lemma_free_remove::<C>(st, k, i);
}

/// Taking a fresh block is a run under the lock: the bump pointer is loaded, what
/// lies between is taken, the gap is carved, and the bump pointer is stored.
proof fn lemma_bump_run<C: Config>(
    st: HeapState,
    owned: Map<int, Set<Block>>,
    t: int,
    align: int,
    size: int,
)
    requires
        valid_config::<C>(),
        valid_region::<C>(),
        st.wf::<C>(),
        is_pow2(align),
        align >= C::MIN_ALIGN,
        size > 0,
        size % C::MIN_ALIGN as int == 0,
        owned.contains_key(t),
        shared_ok(shared_of::<C>(st, owned)),
    ensures
        ({
            let (st2, taken) = bump_block::<C>(st, align, size);
            reaches(
                shared_of::<C>(st, owned),
                shared_of::<C>(st2, gains(owned, t, taken)),
                t,
            )
        }),
{
    let s = shared_of::<C>(st, owned);
    let s1 = locked_of::<C>(st, owned, t);
    let seen = Map::<int, int>::empty().insert(t, st.bump);
    let s2 = Shared { seen, ..s1 };
    lemma_lock::<C>(st, owned, t);
    lemma_step(s, s1, s2, t, Move::LoadBump);
    assert(seen.remove(t) =~= Map::<int, int>::empty());
    let addr = round_up(st.bump, align);
    lemma_is_pow2(align);
    lemma_round_up(st.bump, align);
    if addr + size <= region_end::<C>() {
        lemma_claim_run::<C>(s, st, owned, t, addr, size, align);
    } else {
        lemma_unlock::<C>(s, st, owned, t, seen);
    }
}

/// What follows the load of the bump pointer, where the region has room.
proof fn lemma_claim_run<C: Config>(
    s: Shared,
    st: HeapState,
    owned: Map<int, Set<Block>>,
    t: int,
    addr: int,
    size: int,
    align: int,
)
    requires
        valid_config::<C>(),
        valid_region::<C>(),
        st.wf::<C>(),
        is_pow2(align),
        align >= C::MIN_ALIGN,
        addr % align == 0,
        st.bump <= addr,
        addr + size <= region_end::<C>(),
        size > 0,
        size % C::MIN_ALIGN as int == 0,
        owned.contains_key(t),
        shared_ok(shared_of::<C>(st, owned)),
        reaches(
            s,
            Shared {
                seen: Map::<int, int>::empty().insert(t, st.bump),
                ..locked_of::<C>(st, owned, t)
            },
            t,
        ),
    ensures
        reaches(
            s,
            shared_of::<C>(
                carve_down::<C>(st.with_bump(addr + size), st.bump, addr),
                gains(owned, t, Some(Block { addr, size })),
            ),
            t,
        ),
{
    let m = C::MIN_ALIGN as int;
    let to = addr + size;
    let none = Map::<int, int>::empty();
    let gap = Block { addr: st.bump, size: addr - st.bump };
    let b = Block { addr, size };
    let raised = st.with_bump(to);
    let st2 = carve_down::<C>(raised, st.bump, addr);
    let s2 = Shared { seen: none.insert(t, st.bump), ..locked_of::<C>(st, owned, t) };
    let pieces = if st.bump < addr {
        set![gap, b]
    } else {
        set![b]
    };
    lemma_config_logs::<C>();
    lemma_geometry::<C>();
    lemma_aligned_down(addr, align, m);
    lemma_mod_add_sub(addr, size, m);
    lemma_raised_bump::<C>(st, to);
    assert(raised.clear(st.bump, addr));
    lemma_carve_down::<C>(raised, st.bump, addr);
    assert(tiles(pieces, st.bump, to));
    let s3 = Shared {
        top: to,
        seen: none,
        claimed: none.insert(t, to),
        owned: owned.insert(t, owned[t].union(pieces)),
        ..s2
    };
    assert(s2.seen.remove(t) =~= none);
    lemma_step(s, s2, s3, t, Move::Claim { to, pieces });
    assert(free_blocks(raised) =~= free_blocks(st)) by {
        assert forall|c: Block| free_blocks(raised).contains(c) <==> free_blocks(st).contains(
            c,
        ) by {
            if free_blocks(st).contains(c) {
                let (k, i) = choose|k: int, i: int| st.has(k, i) && #[trigger] st.bins[k][i] == c;
                assert(raised.has(k, i) && raised.bins[k][i] == c);
            }
            if free_blocks(raised).contains(c) {
                let (k, i) = choose|k: int, i: int|
                    raised.has(k, i) && #[trigger] raised.bins[k][i] == c;
                assert(st.has(k, i) && st.bins[k][i] == c);
            }
        }
    }
    assert forall|c: Block| #[trigger] s3.owned[t].contains(c) implies c.size > 0 && (c == gap
        || apart(c, gap)) && (owned[t].contains(c) ==> c.end() <= st.bump) by {
        if owned[t].contains(c) {
            assert(shared_of::<C>(st, owned).at(Place::With(t), c));
        }
    }
    lemma_carve_down_run::<C>(s3, raised, t, st.bump, addr);
    let owned2 = gains(owned, t, Some(b));
    let s4 = Shared { free: free_blocks(st2), owned: loses(s3.owned, t, gap), ..s3 };
    assert(owned[t].union(pieces).remove(gap) =~= owned[t].insert(b)) by {
        if owned[t].contains(gap) {
            assert(s3.owned[t].contains(gap));
        }
    }
    assert(s4.owned =~= owned2);
    lemma_join(s, s3, s4, t);
    let s5 = locked_of::<C>(st2, owned2, t);
    assert(s4.claimed.remove(t) =~= none);
    lemma_step(s, s4, s5, t, Move::StoreBump);
    assert(none.remove(t) =~= none);
    lemma_unlock::<C>(s, st2, owned2, t, none);
}

/// Taking a block of a fixed class is a run: one step for a block of its bin, and for
/// a fresh one a run under the lock.
pub proof fn law_taking_a_class_is_a_run<C: Config>(
    st: HeapState,
    owned: Map<int, Set<Block>>,
    t: int,
    k: int,
)
    requires
        valid_config::<C>(),
        valid_region::<C>(),
        st.wf::<C>(),
        0 <= k < oversized::<C>(),
        !odd_bin::<C>(k),
        owned.contains_key(t),
        shared_ok(shared_of::<C>(st, owned)),
    ensures
        ({
            let (st2, taken) = take_fixed::<C>(st, k);
            reaches(
                shared_of::<C>(st, owned),
                shared_of::<C>(st2, gains(owned, t, taken)),
                t,
            )
        }),
        st.bins[k].len() > 0 ==> makes(
            shared_of::<C>(st, owned),
            shared_of::<C>(st.remove(k, 0), gains(owned, t, Some(st.bins[k][0]))),
            t,
            Move::Take { block: st.bins[k][0] },
        ),
{
    let s = shared_of::<C>(st, owned);
    let (st2, taken) = take_fixed::<C>(st, k);
    lemma_bin_counts::<C>();
    if st.bins[k].len() > 0 {
        let b = st.bins[k][0];
        assert(st.has(k, 0));
        assert(bin_of::<C>(b.size) == k);
        lemma_bin_of::<C>(b.size);
        lemma_take::<C>(s, st, t, k, 0);
        lemma_stay(s, t);
        lemma_step(s, s, shared_of::<C>(st2, gains(owned, t, taken)), t, Move::Take { block: b });
    } else {
        lemma_class::<C>(k);
        lemma_bin_of_class::<C>(k);
        lemma_align_order::<C>(k, k);
        lemma_bump_run::<C>(st, owned, t, class_align::<C>(k), class_size::<C>(k));
    }
}

/// Taking an oversized block is a run under the lock.
pub proof fn law_taking_oversized_is_a_run<C: Config>(
    st: HeapState,
    owned: Map<int, Set<Block>>,
    t: int,
    need: int,
)
    requires
        valid_config::<C>(),
        valid_region::<C>(),
        st.wf::<C>(),
        need > C::EXP_CEIL,
        need % C::MIN_ALIGN as int == 0,
        owned.contains_key(t),
        shared_ok(shared_of::<C>(st, owned)),
    ensures
        ({
            let (st2, taken) = take_oversized::<C>(st, need);
            reaches(
                shared_of::<C>(st, owned),
                shared_of::<C>(st2, gains(owned, t, taken)),
                t,
            )
        }),
{
    let k = oversized::<C>();
    let s = shared_of::<C>(st, owned);
    let (st2, taken) = take_oversized::<C>(st, need);
    let i = first_fit(st.bins[k], need, 0);
    lemma_bin_counts::<C>();
    lemma_bin_of::<C>(need);
    lemma_align_order::<C>(k, k);
    lemma_first_fit(st.bins[k], need, 0);
    if i < st.bins[k].len() {
        assert(st.has(k, i));
        let b = st.bins[k][i];
        let st1 = st.remove(k, i);
        let owned1 = gains(owned, t, Some(b));
        let owned2 = gains(owned, t, taken);
        let s1 = locked_of::<C>(st, owned, t);
        let s2 = locked_of::<C>(st1, owned1, t);
        let s3 = locked_of::<C>(st2, owned2, t);
        lemma_remove::<C>(st, k, i);
        lemma_free_remove::<C>(st, k, i);
        lemma_alone(s, t, b);
        lemma_lock::<C>(st, owned, t);
        lemma_take::<C>(s1, st, t, k, i);
        lemma_step(s, s1, s2, t, Move::Take { block: b });
        lemma_split_run::<C>(s2, st1, t, b, need);
        crate::invariants::lemma_split::<C>(st1, b, need);
        assert(owned[t].insert(b).remove(b) =~= owned[t]);
        assert(gains(loses(owned1, t, b), t, taken) =~= owned2);
        assert(s3 == Shared { free: free_blocks(st2), owned: owned2, ..s2 });
        lemma_join(s, s2, s3, t);
        assert(s3.seen.remove(t) =~= s3.seen);
        lemma_unlock::<C>(s, st2, owned2, t, s3.seen);
    } else {
        lemma_bump_run::<C>(st, owned, t, C::EXP_CEIL as int, need);
    }
}

/// Allocating is a run.
pub proof fn law_allocating_is_a_run<C: Config>(
    st: HeapState,
    owned: Map<int, Set<Block>>,
    t: int,
    size: int,
)
    requires
        valid_config::<C>(),
        valid_region::<C>(),
        st.wf::<C>(),
        size >= 0,
        owned.contains_key(t),
        shared_ok(shared_of::<C>(st, owned)),
    ensures
        ({
            let (st2, taken) = allocated::<C>(st, size);
            reaches(
                shared_of::<C>(st, owned),
                shared_of::<C>(st2, gains(owned, t, taken)),
                t,
            )
        }),
{
    let need = need_of::<C>(size);
    reveal(allocated);
    lemma_need::<C>(size);
    if need > u64::MAX {
        lemma_stay(shared_of::<C>(st, owned), t);
    } else if need > C::EXP_CEIL {
        law_taking_oversized_is_a_run::<C>(st, owned, t, need);
    } else {
        law_taking_a_class_is_a_run::<C>(st, owned, t, bin_of::<C>(need));
    }
}

/// Resizing a block that the thread has is a run; it has the resized one in its place
/// then, if there is one.
pub proof fn law_resizing_is_a_run<C: Config>(
    st: HeapState,
    owned: Map<int, Set<Block>>,
    t: int,
    b: Block,
    size: int,
)
    requires
        valid_config::<C>(),
        valid_region::<C>(),
        st.wf::<C>(),
        st.holds::<C>(b),
        size >= 0,
        owned.contains_key(t),
        owned[t].contains(b),
        shared_ok(shared_of::<C>(st, owned)),
    ensures
        ({
            let (st2, taken) = reallocated::<C>(st, b, size);
            reaches(
                shared_of::<C>(st, owned),
                shared_of::<C>(
                    st2,
                    if taken is Some {
                        gains(loses(owned, t, b), t, taken)
                    } else {
                        owned
                    },
                ),
                t,
            )
        }),
{
    let s = shared_of::<C>(st, owned);
    let total = request_size::<C>(size);
    lemma_need::<C>(size);
    if need_of::<C>(size) > u64::MAX {
        lemma_stay(s, t);
    } else if b.size >= total {
        law_cutting_is_a_run::<C>(st, owned, t, b, total);
    } else {
        let (st1, taken) = allocated::<C>(st, size);
        lemma_allocated::<C>(st, size);
        law_allocating_is_a_run::<C>(st, owned, t, size);
        if taken is Some {
            let d = taken->Some_0;
            let owned1 = gains(owned, t, taken);
            assert(st.holds::<C>(b));
            assert(apart(d, b));
            lemma_placed::<C>(b);
            law_freeing_is_a_run::<C>(st1, owned1, t, b);
            assert(owned[t].insert(d).remove(b) =~= owned[t].remove(b).insert(d));
            assert(loses(owned1, t, b) =~= gains(loses(owned, t, b), t, taken));
            lemma_join(s, shared_of::<C>(st1, owned1), shared_of::<C>(
                st1.push::<C>(b),
                loses(owned1, t, b),
            ), t);
        } else {
            lemma_stay(s, t);
        }
    }
}

/// Along the run of an operation the heap stays in order.
pub proof fn law_runs_stay_in_order(s: Shared, s2: Shared, t: int)
    requires
        shared_ok(s),
        reaches(s, s2, t),
    ensures
        shared_ok(s2),
{
    let (run, steps) = choose|run: Seq<Shared>, steps: Seq<Move>| #[trigger]
        leads(s, s2, t, run, steps);
    law_histories_never_share_memory(run, Seq::new(steps.len(), |i: int| t), steps);
}

} // verus!
