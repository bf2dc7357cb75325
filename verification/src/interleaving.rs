//! What holds when several threads share a heap.
//!
//! The contracts of the operations describe one thread at a time. This module
//! models the steps in which threads can alternate: the loads, stores and
//! compare-and-swaps of [`push_fixed`](crate::CadAlloc::push_fixed) and
//! [`pop_fixed`](crate::CadAlloc::pop_fixed) on one bin, in any order, and those
//! that take and release the refill lock. Memory is sequentially consistent, as an
//! [`Atomics`](crate::Atomics) backend that is shared has to make it.
//!
//! The head of a bin carries a tag in its alignment bits, which every update
//! advances. The tag has `MIN_ALIGN` values, so a pop can mistake a head for the one
//! it has read only if a multiple of `MIN_ALIGN` updates happened in between: a pop
//! is *timely* if there were fewer.
//!
//! The laws are laws of the model. [`accesses`](crate::accesses) ties it to the words:
//! each access that a thread makes to a word of the bin is a step of the model.

use crate::config::{valid_config, Config};
use crate::memory::{front_of, retagged};
use vstd::arithmetic::div_mod::{
    lemma_add_mod_noop, lemma_fundamental_div_mod, lemma_mod_bound, lemma_small_mod,
};
use vstd::prelude::*;

verus! {

// --- the model --------------------------------------------------------------

/// How far a thread has come with an operation on the bin.
pub enum Phase {
    /// Between operations.
    Idle,
    /// About to load the head, to push `block`.
    Push { block: int },
    /// Has loaded `head`, after `at` updates of it.
    PushLoaded { block: int, head: int, at: int },
    /// Has stored the link of `block`; about to swap the head.
    PushLinked { block: int, head: int, at: int },
    /// About to load the head, to pop.
    Pop,
    /// Has loaded `head`, after `at` updates of it.
    PopLoaded { head: int, at: int },
    /// Has read the link of the first block; about to swap the head.
    PopRead { head: int, next: int, at: int },
}

/// A bin that threads share.
pub struct Bin {
    /// The head word: the address of the first block, or `0`, and the tag.
    pub head: int,
    /// The link word of each block.
    pub links: Map<int, int>,
    /// The blocks on the stack, the last pushed first.
    pub list: Seq<int>,
    /// How often the head has been updated.
    pub updates: int,
    /// What each thread is doing.
    pub phases: Map<int, Phase>,
    /// The blocks that each thread has to itself.
    pub owned: Map<int, Set<int>>,
}

impl Bin {
    /// The bin with thread `t` in another phase.
    pub open spec fn with_phase(self, t: int, phase: Phase) -> Bin {
        Bin { phases: self.phases.insert(t, phase), ..self }
    }
}

/// A step of one thread.
pub enum Step {
    /// Begins to push a block that it owns.
    StartPush { block: int },
    /// Begins to pop.
    StartPop,
    /// Loads the head, for either operation.
    Load,
    /// Stores the link of the block that it pushes.
    Link,
    /// Reads the link of the block that it has found first.
    Read,
    /// Swaps the head, finding the value that it has loaded.
    Swap,
    /// Fails to swap the head, and begins anew: the head had changed, or the swap
    /// failed spuriously.
    Retry,
}

/// The address part of a head word.
pub open spec fn address<C: Config>(head: int) -> int {
    front_of::<C>(head)
}

/// Thread `t` takes `step`, which changes the bin from `s` to `s2`.
pub open spec fn takes<C: Config>(s: Bin, s2: Bin, t: int, step: Step) -> bool {
    &&& s.phases.contains_key(t)
    &&& s.owned.contains_key(t)
    &&& match (step, s.phases[t]) {
        (Step::StartPush { block }, Phase::Idle) => {
            &&& s.owned[t].contains(block)
            &&& s2 == s.with_phase(t, Phase::Push { block })
        },
        (Step::StartPop, Phase::Idle) => s2 == s.with_phase(t, Phase::Pop),
        (Step::Load, Phase::Push { block }) => s2 == s.with_phase(
            t,
            Phase::PushLoaded { block, head: s.head, at: s.updates },
        ),
        (Step::Load, Phase::Pop) => s2 == s.with_phase(
            t,
            if address::<C>(s.head) == 0 {
                Phase::Idle
            } else {
                Phase::PopLoaded { head: s.head, at: s.updates }
            },
        ),
        (Step::Link, Phase::PushLoaded { block, head, at }) => {
            s2 == (Bin {
                links: s.links.insert(block, address::<C>(head)),
                ..s.with_phase(t, Phase::PushLinked { block, head, at })
            })
        },
        (Step::Read, Phase::PopLoaded { head, at }) => s2 == s.with_phase(
            t,
            Phase::PopRead { head, next: s.links[address::<C>(head)], at },
        ),
        (Step::Swap, Phase::PushLinked { block, head, at }) => {
            &&& s.head == head
            &&& s2 == (Bin {
                head: retagged::<C>(head, block),
                list: seq![block] + s.list,
                updates: s.updates + 1,
                owned: s.owned.insert(t, s.owned[t].remove(block)),
                ..s.with_phase(t, Phase::Idle)
            })
        },
        (Step::Swap, Phase::PopRead { head, next, at }) => {
            &&& s.head == head
            &&& s2 == (Bin {
                head: retagged::<C>(head, next),
                list: s.list.skip(1),
                updates: s.updates + 1,
                owned: s.owned.insert(t, s.owned[t].insert(address::<C>(head))),
                ..s.with_phase(t, Phase::Idle)
            })
        },
        (Step::Retry, Phase::PushLinked { block, head, at }) => s2 == s.with_phase(
            t,
            Phase::Push { block },
        ),
        (Step::Retry, Phase::PopRead { head, next, at }) => s2 == s.with_phase(t, Phase::Pop),
        _ => false,
    }
}

/// A pop that swaps the head does so before the tag can have come round.
pub open spec fn timely<C: Config>(s: Bin, t: int, step: Step) -> bool {
    step is Swap && s.phases[t] is PopRead ==> s.updates - s.phases[t]->PopRead_at < C::MIN_ALIGN
}

// --- the invariant ----------------------------------------------------------

/// The address of a block.
pub open spec fn block_address<C: Config>(a: int) -> bool {
    a > 0 && a % C::MIN_ALIGN as int == 0
}

/// The address of the block after position `i` on the stack, or `0`.
pub open spec fn below(list: Seq<int>, i: int) -> int {
    if i + 1 < list.len() {
        list[i + 1]
    } else {
        0
    }
}

/// The words hold the stack.
pub open spec fn stack_ok<C: Config>(s: Bin) -> bool {
    &&& s.updates >= 0
    &&& s.head >= 0
    &&& s.head % C::MIN_ALIGN as int == s.updates % C::MIN_ALIGN as int
    &&& address::<C>(s.head) == below(s.list, -1)
    &&& forall|i: int| 0 <= i < s.list.len() ==> block_address::<C>(#[trigger] s.list[i])
    &&& forall|i: int|
        0 <= i < s.list.len() ==> s.links[#[trigger] s.list[i]] == below(s.list, i)
    &&& forall|i: int, j: int|
        0 <= i < j < s.list.len() ==> #[trigger] s.list[i] != #[trigger] s.list[j]
}

/// No block is on the stack and owned by a thread, or owned by two.
pub open spec fn owners_ok<C: Config>(s: Bin) -> bool {
    &&& forall|t: int, b: int|
        #![trigger s.owned[t].contains(b)]
        s.owned.contains_key(t) && s.owned[t].contains(b) ==> block_address::<C>(b)
            && !s.list.contains(b)
    &&& forall|t: int, u: int, b: int|
        #![trigger s.owned[t].contains(b), s.owned[u].contains(b)]
        s.owned.contains_key(t) && s.owned.contains_key(u) && s.owned[t].contains(b)
            && s.owned[u].contains(b) ==> t == u
}

/// What a thread remembers of the head was the head at the time, and still is if
/// there was no update since.
pub open spec fn remembers<C: Config>(s: Bin, head: int, at: int) -> bool {
    &&& 0 <= at <= s.updates
    &&& head >= 0
    &&& head % C::MIN_ALIGN as int == at % C::MIN_ALIGN as int
    &&& at == s.updates ==> head == s.head
}

/// What a thread relies on in its phase.
pub open spec fn phase_ok<C: Config>(s: Bin, t: int) -> bool {
    match s.phases[t] {
        Phase::Idle => true,
        Phase::Push { block } => s.owned[t].contains(block),
        Phase::PushLoaded { block, head, at } => {
            &&& s.owned[t].contains(block)
            &&& remembers::<C>(s, head, at)
        },
        Phase::PushLinked { block, head, at } => {
            &&& s.owned[t].contains(block)
            &&& remembers::<C>(s, head, at)
            &&& s.links[block] == address::<C>(head)
        },
        Phase::Pop => true,
        Phase::PopLoaded { head, at } => {
            &&& remembers::<C>(s, head, at)
            &&& address::<C>(head) != 0
        },
        Phase::PopRead { head, next, at } => {
            &&& remembers::<C>(s, head, at)
            &&& address::<C>(head) != 0
            &&& at == s.updates ==> next == below(s.list, 0)
        },
    }
}

/// The invariant of a shared bin.
pub open spec fn bin_ok<C: Config>(s: Bin) -> bool {
    &&& stack_ok::<C>(s)
    &&& owners_ok::<C>(s)
    &&& s.owned.dom() == s.phases.dom()
    &&& forall|t: int| #[trigger] s.phases.contains_key(t) ==> phase_ok::<C>(s, t)
}

// --- arithmetic of tags -----------------------------------------------------

/// A head made from an aligned address has that address and the next tag.
proof fn lemma_retagged<C: Config>(head: int, updates: int, addr: int)
    requires
        valid_config::<C>(),
        head >= 0,
        addr >= 0,
        addr % C::MIN_ALIGN as int == 0,
        head % C::MIN_ALIGN as int == updates % C::MIN_ALIGN as int,
    ensures
        retagged::<C>(head, addr) >= 0,
        address::<C>(retagged::<C>(head, addr)) == addr,
        retagged::<C>(head, addr) % C::MIN_ALIGN as int == (updates + 1) % C::MIN_ALIGN as int,
{
    let m = C::MIN_ALIGN as int;
    let tag = (head + 1) % m;
    lemma_mod_bound(head + 1, m);
    lemma_add_mod_noop(addr, tag, m);
    lemma_small_mod(tag as nat, m as nat);
    lemma_add_mod_noop(head, 1, m);
    lemma_add_mod_noop(updates, 1, m);
}

/// Tags that agree after fewer than `MIN_ALIGN` updates are of the same update.
pub proof fn lemma_same_tag<C: Config>(at: int, updates: int)
    requires
        valid_config::<C>(),
        0 <= at <= updates,
        updates - at < C::MIN_ALIGN,
        at % C::MIN_ALIGN as int == updates % C::MIN_ALIGN as int,
    ensures
        at == updates,
{
    let m = C::MIN_ALIGN as int;
    lemma_fundamental_div_mod(at, m);
    lemma_fundamental_div_mod(updates, m);
    let d = updates / m - at / m;
    assert(updates - at == m * d) by (nonlinear_arith)
        requires
            at == m * (at / m) + at % m,
            updates == m * (updates / m) + updates % m,
            at % m == updates % m,
            d == updates / m - at / m,
    ;
    assert(d == 0) by (nonlinear_arith)
        requires
            0 <= m * d < m,
            m > 0,
    ;
}

// --- laws of the stack ------------------------------------------------------

/// Steps that leave the stack alone keep the invariant.
proof fn lemma_quiet_step<C: Config>(s: Bin, s2: Bin, t: int, step: Step)
    requires
        valid_config::<C>(),
        bin_ok::<C>(s),
        takes::<C>(s, s2, t, step),
        !(step is Swap),
    ensures
        bin_ok::<C>(s2),
{
    assert(phase_ok::<C>(s, t));
    assert(s2.phases.dom() =~= s.phases.dom());
    assert(s2.list == s.list && s2.owned == s.owned);
    if step is Link {
        let block = s.phases[t]->PushLoaded_block;
        assert(s.owned[t].contains(block));
        assert forall|i: int| 0 <= i < s2.list.len() implies s2.links[#[trigger] s2.list[i]]
            == below(s2.list, i) by {
            assert(s.list.contains(s.list[i]));
            assert(s.list[i] != block);
        }
        assert forall|u: int| #[trigger] s2.phases.contains_key(u) implies phase_ok::<C>(s2, u) by {
            assert(s.phases.contains_key(u));
            assert(phase_ok::<C>(s, u));
            if u != t && s.phases[u] is PushLinked {
                let other = s.phases[u]->PushLinked_block;
                assert(s.owned[u].contains(other));
                if other == block {
                    assert(s.owned[t].contains(other));
                }
            }
        }
    } else {
        assert forall|u: int| #[trigger] s2.phases.contains_key(u) implies phase_ok::<C>(s2, u) by {
            assert(s.phases.contains_key(u));
            assert(phase_ok::<C>(s, u));
            if u == t && step is Read {
                let head = s.phases[t]->PopLoaded_head;
                if s.phases[t]->PopLoaded_at == s.updates {
                    assert(s.list.len() > 0);
                    assert(s.links[s.list[0]] == below(s.list, 0));
                }
            }
        }
    }
}

/// A push that swaps the head keeps the invariant, whenever it does.
proof fn lemma_push_step<C: Config>(s: Bin, s2: Bin, t: int)
    requires
        valid_config::<C>(),
        bin_ok::<C>(s),
        takes::<C>(s, s2, t, Step::Swap),
        s.phases[t] is PushLinked,
    ensures
        bin_ok::<C>(s2),
{
    assert(phase_ok::<C>(s, t));
    let block = s.phases[t]->PushLinked_block;
    assert(s.owned[t].contains(block));
    lemma_retagged::<C>(s.head, s.updates, block);
    assert(s2.phases.dom() =~= s.phases.dom());
    assert(s2.owned.dom() =~= s2.phases.dom());
    assert(s2.list[0] == block);
    assert forall|i: int| 0 <= i < s2.list.len() implies block_address::<C>(#[trigger] s2.list[i])
        && s2.links[s2.list[i]] == below(s2.list, i) by {
        if i > 0 {
            assert(s2.list[i] == s.list[i - 1]);
        }
    }
    assert forall|i: int, j: int| 0 <= i < j < s2.list.len() implies #[trigger] s2.list[i]
        != #[trigger] s2.list[j] by {
        assert(s2.list[j] == s.list[j - 1]);
        assert(s.list.contains(s.list[j - 1]));
        if i > 0 {
            assert(s2.list[i] == s.list[i - 1]);
        }
    }
    assert forall|u: int, b: int|
        #![trigger s2.owned[u].contains(b)]
        s2.owned.contains_key(u) && s2.owned[u].contains(b) implies block_address::<C>(b)
        && !s2.list.contains(b) by {
        assert(s.owned[u].contains(b));
        if b == block {
            assert(s.owned[t].contains(b));
        }
        if s2.list.contains(b) {
            let i = choose|i: int| 0 <= i < s2.list.len() && s2.list[i] == b;
            if i > 0 {
                assert(s.list[i - 1] == b);
                assert(s.list.contains(b));
            }
        }
    }
    assert forall|u: int, v: int, b: int|
        #![trigger s2.owned[u].contains(b), s2.owned[v].contains(b)]
        s2.owned.contains_key(u) && s2.owned.contains_key(v) && s2.owned[u].contains(b)
            && s2.owned[v].contains(b) implies u == v by {
        assert(s.owned[u].contains(b) && s.owned[v].contains(b));
    }
    assert forall|u: int| #[trigger] s2.phases.contains_key(u) implies phase_ok::<C>(s2, u) by {
        assert(s.phases.contains_key(u));
        assert(phase_ok::<C>(s, u));
    }
}

/// A timely pop that swaps the head keeps the invariant, and takes the first block
/// of the stack.
pub proof fn lemma_pop_step<C: Config>(s: Bin, s2: Bin, t: int)
    requires
        valid_config::<C>(),
        bin_ok::<C>(s),
        takes::<C>(s, s2, t, Step::Swap),
        s.phases[t] is PopRead,
        timely::<C>(s, t, Step::Swap),
    ensures
        bin_ok::<C>(s2),
        s.list.len() > 0,
        address::<C>(s.head) == s.list[0],
{
    assert(phase_ok::<C>(s, t));
    let at = s.phases[t]->PopRead_at;
    let next = s.phases[t]->PopRead_next;
    lemma_same_tag::<C>(at, s.updates);
    assert(s.list.len() > 0);
    assert(next == below(s.list, 0));
    let popped = s.list[0];
    assert(s.list.contains(popped));
    if s.list.len() > 1 {
        assert(block_address::<C>(s.list[1]));
    } else {
        lemma_small_mod(0, C::MIN_ALIGN as nat);
    }
    lemma_retagged::<C>(s.head, s.updates, next);
    assert(s2.phases.dom() =~= s.phases.dom());
    assert(s2.owned.dom() =~= s2.phases.dom());
    assert forall|i: int| 0 <= i < s2.list.len() implies block_address::<C>(#[trigger] s2.list[i])
        && s2.links[s2.list[i]] == below(s2.list, i) by {
        assert(s2.list[i] == s.list[i + 1]);
    }
    assert forall|i: int, j: int| 0 <= i < j < s2.list.len() implies #[trigger] s2.list[i]
        != #[trigger] s2.list[j] by {
        assert(s2.list[i] == s.list[i + 1]);
        assert(s2.list[j] == s.list[j + 1]);
    }
    assert forall|u: int, b: int|
        #![trigger s2.owned[u].contains(b)]
        s2.owned.contains_key(u) && s2.owned[u].contains(b) implies block_address::<C>(b)
        && !s2.list.contains(b) by {
        if s2.list.contains(b) {
            let i = choose|i: int| 0 <= i < s2.list.len() && s2.list[i] == b;
            assert(s.list[i + 1] == b);
            assert(s.list.contains(b));
        }
        if b != popped {
            assert(s.owned[u].contains(b));
        }
    }
    assert forall|u: int, v: int, b: int|
        #![trigger s2.owned[u].contains(b), s2.owned[v].contains(b)]
        s2.owned.contains_key(u) && s2.owned.contains_key(v) && s2.owned[u].contains(b)
            && s2.owned[v].contains(b) implies u == v by {
        if b == popped {
            assert(!s.owned[u].contains(b) || u == t);
            assert(!s.owned[v].contains(b) || v == t);
        } else {
            assert(s.owned[u].contains(b) && s.owned[v].contains(b));
        }
    }
    assert forall|u: int| #[trigger] s2.phases.contains_key(u) implies phase_ok::<C>(s2, u) by {
        assert(s.phases.contains_key(u));
        assert(phase_ok::<C>(s, u));
    }
}

/// Every step of every thread keeps the invariant, if pops are timely: the words
/// hold a proper stack, and no block is on it twice, or on it and owned, or owned
/// by two threads.
pub proof fn law_steps_keep_the_bin<C: Config>(s: Bin, s2: Bin, t: int, step: Step)
    requires
        valid_config::<C>(),
        bin_ok::<C>(s),
        takes::<C>(s, s2, t, step),
        timely::<C>(s, t, step),
    ensures
        bin_ok::<C>(s2),
{
    if !(step is Swap) {
        lemma_quiet_step::<C>(s, s2, t, step);
    } else if s.phases[t] is PushLinked {
        lemma_push_step::<C>(s, s2, t);
    } else {
        lemma_pop_step::<C>(s, s2, t);
    }
}

/// The operations take effect at the swap, as if each were one step: a push puts
/// its block on top of the stack, a timely pop takes the top one, and a pop finds
/// the bin empty only when it is. Nothing else changes the stack.
pub proof fn law_operations_are_atomic<C: Config>(s: Bin, s2: Bin, t: int, step: Step)
    requires
        valid_config::<C>(),
        bin_ok::<C>(s),
        takes::<C>(s, s2, t, step),
        timely::<C>(s, t, step),
    ensures
        !(step is Swap) ==> s2.list == s.list && s2.owned == s.owned,
        step is Swap && s.phases[t] is PushLinked ==> ({
            let block = s.phases[t]->PushLinked_block;
            &&& s2.list == seq![block] + s.list
            &&& s.owned[t].contains(block)
            &&& s2.owned == s.owned.insert(t, s.owned[t].remove(block))
        }),
        step is Swap && s.phases[t] is PopRead ==> ({
            &&& s.list.len() > 0
            &&& s.list == seq![s.list[0]] + s2.list
            &&& s2.owned == s.owned.insert(t, s.owned[t].insert(s.list[0]))
        }),
        step is Load && s.phases[t] is Pop ==> (s2.phases[t] is Idle <==> s.list.len() == 0),
{
    if step is Swap && s.phases[t] is PushLinked {
        assert(phase_ok::<C>(s, t));
    }
    if step is Swap && s.phases[t] is PopRead {
        lemma_pop_step::<C>(s, s2, t);
        assert(s.list =~= seq![s.list[0]] + s2.list);
    }
    if step is Load && s.phases[t] is Pop && s.list.len() > 0 {
        assert(block_address::<C>(s.list[0]));
    }
}

/// The block is on the stack, or some thread owns it.
pub open spec fn somewhere(s: Bin, b: int) -> bool {
    s.list.contains(b) || exists|t: int| s.owned.contains_key(t) && #[trigger] s.owned[t].contains(b)
}

/// Blocks are conserved: a step neither loses one nor makes one up.
pub proof fn law_blocks_are_conserved<C: Config>(s: Bin, s2: Bin, t: int, step: Step, b: int)
    requires
        valid_config::<C>(),
        bin_ok::<C>(s),
        takes::<C>(s, s2, t, step),
        timely::<C>(s, t, step),
    ensures
        somewhere(s, b) <==> somewhere(s2, b),
{
    law_operations_are_atomic::<C>(s, s2, t, step);
    if step is Swap {
        if s.phases[t] is PushLinked {
            let block = s.phases[t]->PushLinked_block;
            assert(s2.list[0] == block);
            assert forall|i: int| 0 <= i < s.list.len() implies s2.list[i + 1] == s.list[i] by {}
            lemma_moved_block(s, s2, t, b, block);
        } else {
            let block = s.list[0];
            assert forall|i: int| 0 <= i < s2.list.len() implies s.list[i + 1] == s2.list[i] by {}
            lemma_moved_block(s2, s, t, b, block);
        }
    }
}

/// One block moves from thread `t` in `s` to the stack in `s2`.
proof fn lemma_moved_block(s: Bin, s2: Bin, t: int, b: int, block: int)
    requires
        s.owned.contains_key(t),
        s2.owned.contains_key(t),
        s.owned[t].contains(block),
        s2.list == seq![block] + s.list,
        forall|u: int| #[trigger] s.owned.contains_key(u) <==> s2.owned.contains_key(u),
        forall|u: int| u != t ==> #[trigger] s.owned[u] == s2.owned[u],
        forall|x: int|
            x != block ==> (#[trigger] s.owned[t].contains(x) <==> s2.owned[t].contains(x)),
    ensures
        somewhere(s, b) <==> somewhere(s2, b),
{
    assert(s2.list[0] == block);
    if s.list.contains(b) {
        let i = choose|i: int| 0 <= i < s.list.len() && s.list[i] == b;
        assert(s2.list[i + 1] == b);
        assert(s2.list.contains(b));
    }
    if s2.list.contains(b) {
        let i = choose|i: int| 0 <= i < s2.list.len() && s2.list[i] == b;
        if i > 0 {
            assert(s.list[i - 1] == b);
            assert(s.list.contains(b));
        } else {
            assert(s.owned[t].contains(b));
        }
    }
    if b == block {
        assert(s2.list.contains(b));
        assert(s.owned[t].contains(b));
    } else {
        if exists|u: int| s.owned.contains_key(u) && #[trigger] s.owned[u].contains(b) {
            let u = choose|u: int| s.owned.contains_key(u) && #[trigger] s.owned[u].contains(b);
            assert(s2.owned.contains_key(u));
            assert(s.owned[u] == s2.owned[u] || u == t);
            assert(s2.owned[u].contains(b));
        }
        if exists|u: int| s2.owned.contains_key(u) && #[trigger] s2.owned[u].contains(b) {
            let u = choose|u: int| s2.owned.contains_key(u) && #[trigger] s2.owned[u].contains(b);
            assert(s.owned.contains_key(u));
            assert(s.owned[u] == s2.owned[u] || u == t);
            assert(s.owned[u].contains(b));
        }
    }
}

/// The bins of a run, each made from the one before by a step of some thread.
pub open spec fn is_run<C: Config>(run: Seq<Bin>, threads: Seq<int>, steps: Seq<Step>) -> bool {
    &&& run.len() == steps.len() + 1
    &&& run.len() == threads.len() + 1
    &&& forall|i: int|
        #![trigger steps[i]]
        0 <= i < steps.len() ==> takes::<C>(run[i], run[i + 1], threads[i], steps[i]) && timely::<
            C,
        >(run[i], threads[i], steps[i])
}

/// However long threads push and pop, and in whatever order their steps fall, the
/// bin stays in order and every block stays in exactly one place, if pops are
/// timely.
pub proof fn law_runs_conserve_blocks<C: Config>(
    run: Seq<Bin>,
    threads: Seq<int>,
    steps: Seq<Step>,
    b: int,
)
    requires
        valid_config::<C>(),
        is_run::<C>(run, threads, steps),
        bin_ok::<C>(run[0]),
    ensures
        bin_ok::<C>(run.last()),
        somewhere(run[0], b) <==> somewhere(run.last(), b),
    decreases steps.len(),
{
    let n = steps.len() as int;
    if n > 0 {
        let before = run.drop_last();
        assert(is_run::<C>(before, threads.drop_last(), steps.drop_last())) by {
            assert forall|i: int|
                #![trigger steps.drop_last()[i]]
                0 <= i < steps.drop_last().len() implies takes::<C>(
                before[i],
                before[i + 1],
                threads.drop_last()[i],
                steps.drop_last()[i],
            ) && timely::<C>(before[i], threads.drop_last()[i], steps.drop_last()[i]) by {
                assert(steps[i] == steps.drop_last()[i]);
            }
        }
        law_runs_conserve_blocks::<C>(before, threads.drop_last(), steps.drop_last(), b);
        assert(before.last() == run[n - 1]);
        let step = steps[n - 1];
        law_steps_keep_the_bin::<C>(run[n - 1], run[n], threads[n - 1], step);
        law_blocks_are_conserved::<C>(run[n - 1], run[n], threads[n - 1], step, b);
    }
}

/// A swap finds another head than the one loaded only if some thread has updated
/// the head in between: whenever an operation has to begin anew on that account,
/// another has completed.
pub proof fn law_failure_means_progress<C: Config>(s: Bin, t: int)
    requires
        bin_ok::<C>(s),
        s.phases.contains_key(t),
    ensures
        s.phases[t] matches Phase::PushLinked { block, head, at } ==> (s.head != head ==> at
            < s.updates),
        s.phases[t] matches Phase::PopRead { head, next, at } ==> (s.head != head ==> at
            < s.updates),
{
    assert(phase_ok::<C>(s, t));
}

/// A bin that nothing was pushed onto yet, and whose threads own different blocks
/// and have begun nothing, is in order.
pub proof fn law_fresh_bin_is_ok<C: Config>(s: Bin)
    requires
        valid_config::<C>(),
        s.head == 0,
        s.updates == 0,
        s.list.len() == 0,
        s.owned.dom() == s.phases.dom(),
        forall|t: int| #[trigger] s.phases.contains_key(t) ==> s.phases[t] is Idle,
        forall|t: int, b: int|
            #![trigger s.owned[t].contains(b)]
            s.owned.contains_key(t) && s.owned[t].contains(b) ==> block_address::<C>(b),
        forall|t: int, u: int, b: int|
            #![trigger s.owned[t].contains(b), s.owned[u].contains(b)]
            s.owned.contains_key(t) && s.owned.contains_key(u) && s.owned[t].contains(b)
                && s.owned[u].contains(b) ==> t == u,
    ensures
        bin_ok::<C>(s),
{
    lemma_small_mod(0, C::MIN_ALIGN as nat);
}

// --- the refill lock --------------------------------------------------------

/// The refill lock, and the threads that hold it.
pub struct Lock {
    /// The lock word.
    pub word: int,
    /// The threads that have taken the lock and not released it.
    pub holders: Set<int>,
}

/// Thread `t` takes the lock: its compare-and-swap found `0` and stored `1`.
pub open spec fn acquires(s: Lock, s2: Lock, t: int) -> bool {
    s.word == 0 && s2 == Lock { word: 1, holders: s.holders.insert(t) }
}

/// Thread `t`, which holds the lock, releases it by storing `0`.
pub open spec fn releases(s: Lock, s2: Lock, t: int) -> bool {
    s.holders.contains(t) && s2 == Lock { word: 0, holders: s.holders.remove(t) }
}

/// No two threads hold the lock, and the word says whether one does.
pub open spec fn lock_ok(s: Lock) -> bool {
    &&& s.word == 0 <==> s.holders == Set::<int>::empty()
    &&& forall|t: int, u: int|
        #![trigger s.holders.contains(t), s.holders.contains(u)]
        s.holders.contains(t) && s.holders.contains(u) ==> t == u
}

/// The refill lock is exclusive: taking and releasing it never leaves two threads
/// with it.
pub proof fn law_lock_is_exclusive(s: Lock, s2: Lock, t: int)
    requires
        lock_ok(s),
        acquires(s, s2, t) || releases(s, s2, t),
    ensures
        lock_ok(s2),
        acquires(s, s2, t) ==> forall|u: int| #[trigger] s2.holders.contains(u) ==> u == t,
{
    if acquires(s, s2, t) {
        assert(s2.holders.contains(t));
    } else {
        assert(s2.holders =~= Set::<int>::empty());
    }
}

} // verus!
