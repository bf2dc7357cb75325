//! The free lists: pushing, popping and searching the words that hold them.
//!
//! Fixed size-class bins are Treiber stacks driven by compare-and-swap, with a
//! tag in the low (always-zero) alignment bits of each bin head. The oversized
//! list is a plain linked list, used under the refill lock.

use crate::accesses::{accesses, Local};
use crate::allocator::CadAlloc;
use crate::atomic::{Atomics, Write};
use crate::bits::{lemma_mask, lemma_or_is_add};
use crate::classes::{bin_of, oversized};
use crate::config::{lemma_bin_counts, lemma_config_logs, stable_region, valid_config, Config};
use crate::header::{header_size, header_word, pack, FREE};
use crate::interleaving::Step;
use crate::invariants::{lemma_first_fit, lemma_placed, lemma_remove};
use crate::memory::{
    after, bump_at, front, front_of, head_at, lemma_addresses, lemma_block_words, lemma_link_push,
    lemma_link_remove, lemma_store_outside, linked, list_start, lock_at, lock_held, represents,
    retagged, same_outside,
};
use crate::session::{Session, Thread};
use crate::state::{apart, first_fit, payload_start, valid_region, Block, HeapState};
use crate::words::{freed_in, link_addr, linked_in, stack_popped, stack_pushed};
use vstd::prelude::*;

verus! {

// --- what the words say of a list --------------------------------------------

/// The node at position `i` of a free list, as the words have it.
pub open spec fn list_node(w: Map<int, u64>, list: Seq<Block>, i: int) -> bool {
    let b = list[i];
    &&& 0 < b.addr
    &&& b.addr + 8 <= u64::MAX
    &&& w.contains_key(b.addr)
    &&& w.contains_key(b.addr + 8)
    &&& w[b.addr] - w[b.addr] % 16 == b.size
    &&& w[b.addr + 8] == after(list, i)
}

// --- Treiber stacks (fixed-class bins) ---------------------------------------

impl<C: Config> CadAlloc<C> {
    /// The address in the head word of a fixed bin, without its tag.
    fn head_address(head: u64) -> (r: u64)
        requires
            valid_config::<C>(),
        ensures
            r == front_of::<C>(head as int),
    {
        let mask: u64 = C::MIN_ALIGN - 1;
        proof {
            lemma_mask(head, C::MIN_ALIGN);
        }
        head & !mask
    }

    /// The head word that takes the place of `head`: `addr`, with the tag
    /// advanced.
    fn next_head(head: u64, addr: u64) -> (r: u64)
        requires
            valid_config::<C>(),
            head < u64::MAX,
            addr % C::MIN_ALIGN == 0,
        ensures
            r == retagged::<C>(head as int, addr as int),
    {
        let mask: u64 = C::MIN_ALIGN - 1;
        proof {
            lemma_mask((head + 1) as u64, C::MIN_ALIGN);
            lemma_or_is_add(addr, ((head + 1) as u64) & mask, C::MIN_ALIGN);
        }
        addr | ((head + 1) & mask)
    }

    /// Loads the head of bin `k`: one access, for either operation.
    fn load_head(&self, mem: &mut Session<C>, k: u64) -> (head: u64)
        requires
            valid_config::<C>(),
            stable_region::<C>(),
            head_at::<C>(k as int) <= u64::MAX,
            old(mem).words().contains_key(head_at::<C>(k as int)),
            old(mem).bin() == k,
            old(mem).local() is Push || old(mem).local() is Pop,
        ensures
            head == old(mem).words()[head_at::<C>(k as int)],
            final(mem).words() == old(mem).words(),
            accesses::<C>(
                old(mem).words(),
                old(mem).local(),
                final(mem).words(),
                final(mem).local(),
                k as int,
                Step::Load,
            ),
            final(mem).spurious_failures() == old(mem).spurious_failures(),
            final(mem).thread() == (Thread {
                empty: if old(mem).local() is Pop && front_of::<C>(head as int) == 0 {
                    old(mem).thread().empty.insert(k as int)
                } else {
                    old(mem).thread().empty
                },
                local: final(mem).local(),
                ..old(mem).thread()
            }),
            *final(final(mem).cell()) == *final(old(mem).cell()),
    {
        mem.load_head(self.bin_head(k))
    }

    /// Stores the address in `head` to the second word of a block that is pushed onto
    /// bin `k`: one access.
    fn link_block(&self, mem: &mut Session<C>, block: u64, head: u64, Ghost(k): Ghost<int>)
        requires
            valid_config::<C>(),
            block + 8 <= u64::MAX,
            old(mem).words().contains_key(block + 8),
            old(mem).bin() == k,
            old(mem).local() == (Local::PushLoaded { block: block as int, head: head as int }),
        ensures
            final(mem).words() == old(mem).words().insert(
                block + 8,
                front_of::<C>(head as int) as u64,
            ),
            final(mem).thread() == (Thread {
                local: Local::PushLinked { block: block as int, head: head as int },
                ..old(mem).thread()
            }),
            accesses::<C>(
                old(mem).words(),
                old(mem).local(),
                final(mem).words(),
                final(mem).local(),
                k,
                Step::Link,
            ),
            final(mem).spurious_failures() == old(mem).spurious_failures(),
            *final(final(mem).cell()) == *final(old(mem).cell()),
    {
        mem.link_block(block + 8, Self::head_address(head), Ghost(head as int));
    }

    /// Loads the second word of the block that `head` names, the head of bin `k`: one
    /// access.
    fn load_link(&self, mem: &mut Session<C>, head: u64, Ghost(k): Ghost<int>) -> (next: u64)
        requires
            valid_config::<C>(),
            front_of::<C>(head as int) + 8 <= u64::MAX,
            old(mem).words().contains_key(front_of::<C>(head as int) + 8),
            old(mem).bin() == k,
            old(mem).local() == (Local::PopLoaded { head: head as int }),
        ensures
            next == old(mem).words()[front_of::<C>(head as int) + 8],
            final(mem).words() == old(mem).words(),
            final(mem).thread() == (Thread {
                local: Local::PopRead { head: head as int, next: next as int },
                ..old(mem).thread()
            }),
            accesses::<C>(
                old(mem).words(),
                old(mem).local(),
                final(mem).words(),
                final(mem).local(),
                k,
                Step::Read,
            ),
            final(mem).spurious_failures() == old(mem).spurious_failures(),
            *final(final(mem).cell()) == *final(old(mem).cell()),
    {
        mem.load_link(Self::head_address(head) + 8, Ghost(head as int))
    }

    /// Swaps the head of bin `k` from `head` to one that names the block at `addr`,
    /// with the tag advanced, and says whether it did: one access, for either
    /// operation.
    fn swap_head(&self, mem: &mut Session<C>, k: u64, head: u64, addr: u64) -> (r: bool)
        requires
            valid_config::<C>(),
            stable_region::<C>(),
            head_at::<C>(k as int) <= u64::MAX,
            old(mem).words().contains_key(head_at::<C>(k as int)),
            head < u64::MAX,
            addr % C::MIN_ALIGN == 0,
            old(mem).bin() == k,
            old(mem).local() == (Local::PushLinked { block: addr as int, head: head as int })
                || old(mem).local() == (Local::PopRead { head: head as int, next: addr as int }),
        ensures
            r ==> old(mem).words()[head_at::<C>(k as int)] == head && final(mem).words() == old(
                mem,
            ).words().insert(
                head_at::<C>(k as int),
                retagged::<C>(head as int, addr as int) as u64,
            ),
            !r ==> final(mem).words() == old(mem).words(),
            accesses::<C>(
                old(mem).words(),
                old(mem).local(),
                final(mem).words(),
                final(mem).local(),
                k as int,
                if r {
                    Step::Swap
                } else {
                    Step::Retry
                },
            ),
            !r && old(mem).words()[head_at::<C>(k as int)] == head ==> old(mem).spurious_failures()
                > final(mem).spurious_failures(),
            final(mem).last_write() == (Write::Swap {
                addr: head_at::<C>(k as int) as u64,
                current: head,
                new: retagged::<C>(head as int, addr as int) as u64,
                done: r,
            }),
            final(mem).thread() == (Thread {
                local: if r {
                    Local::Idle
                } else if old(mem).local() is PushLinked {
                    Local::Push { block: addr as int }
                } else {
                    Local::Pop
                },
                ..old(mem).thread()
            }),
            *final(final(mem).cell()) == *final(old(mem).cell()),
    {
        mem.swap_head(self.bin_head(k), head, Self::next_head(head, addr), Ghost(addr as int))
    }

    /// Pushes a block onto bin `k`'s stack: the block's second word takes the
    /// address that was first, and the head takes the block's, with the tag
    /// advanced. The block is private to the caller until published by the final
    /// compare-and-swap.
    pub fn push_fixed(&self, mem: &mut C::Atomics, k: u64, block: u64)
        requires
            valid_config::<C>(),
            stable_region::<C>(),
            head_at::<C>(k as int) <= u64::MAX,
            block % C::MIN_ALIGN == 0,
            block + 8 <= u64::MAX,
            block + 8 != head_at::<C>(k as int),
            old(mem).words().contains_key(head_at::<C>(k as int)),
            old(mem).words().contains_key(block + 8),
            old(mem).words()[head_at::<C>(k as int)] < u64::MAX,
        ensures
            final(mem).words() == stack_pushed::<C>(old(mem).words(), k as int, block as int),
            final(mem).last_write() == (Write::Swap {
                addr: head_at::<C>(k as int) as u64,
                current: old(mem).words()[head_at::<C>(k as int)],
                new: retagged::<C>(
                    old(mem).words()[head_at::<C>(k as int)] as int,
                    block as int,
                ) as u64,
                done: true,
            }),
    {
        let mut session = Session::<C>::open(mem);
        self.push_in(&mut session, k, block);
        session.close();
    }

    /// Pushes a block onto bin `k`'s stack, in the steps of a push.
    pub(crate) fn push_in(&self, mem: &mut Session<C>, k: u64, block: u64)
        requires
            valid_config::<C>(),
            stable_region::<C>(),
            head_at::<C>(k as int) <= u64::MAX,
            block % C::MIN_ALIGN == 0,
            block + 8 <= u64::MAX,
            block + 8 != head_at::<C>(k as int),
            old(mem).words().contains_key(head_at::<C>(k as int)),
            old(mem).words().contains_key(block + 8),
            old(mem).words()[head_at::<C>(k as int)] < u64::MAX,
            old(mem).local() is Idle,
        ensures
            final(mem).words() == stack_pushed::<C>(old(mem).words(), k as int, block as int),
            final(mem).last_write() == (Write::Swap {
                addr: head_at::<C>(k as int) as u64,
                current: old(mem).words()[head_at::<C>(k as int)],
                new: retagged::<C>(
                    old(mem).words()[head_at::<C>(k as int)] as int,
                    block as int,
                ) as u64,
                done: true,
            }),
            final(mem).rests(old(mem).held()),
            final(mem).entered() == old(mem).entered(),
            *final(final(mem).cell()) == *final(old(mem).cell()),
    {
        let ghost w = old(mem).words();
        let ghost h = w[head_at::<C>(k as int)];
        mem.begin_push(Ghost(k as int), Ghost(block as int));
        loop
            invariant
                valid_config::<C>(),
                stable_region::<C>(),
                head_at::<C>(k as int) <= u64::MAX,
                block + 8 != head_at::<C>(k as int),
                block % C::MIN_ALIGN == 0,
                block + 8 <= u64::MAX,
                w == old(mem).words(),
                w.contains_key(head_at::<C>(k as int)),
                w.contains_key(block + 8),
                h == w[head_at::<C>(k as int)],
                h < u64::MAX,
                mem.words() == w || mem.words() == w.insert(
                    block + 8,
                    front_of::<C>(h as int) as u64,
                ),
                mem.bin() == k,
                mem.local() == (Local::Push { block: block as int }),
                mem.held() == old(mem).held(),
                mem.entered() == old(mem).entered(),
                *final(mem.cell()) == *final(old(mem).cell()),
            decreases mem.spurious_failures(),
        {
            let old_head: u64 = self.load_head(mem, k);
            self.link_block(mem, block, old_head, Ghost(k as int));
            proof {
                assert(mem.words() =~= w.insert(block + 8, front_of::<C>(h as int) as u64));
            }
            if self.swap_head(mem, k, old_head, block) {
                return;
            }
        }
    }

    /// Pops a block from bin `k`'s stack, or returns `0` if it is empty. The head
    /// takes the address in the block's second word, with the tag advanced.
    pub fn pop_fixed(&self, mem: &mut C::Atomics, k: u64) -> (r: u64)
        requires
            valid_config::<C>(),
            stable_region::<C>(),
            k < oversized::<C>(),
            head_at::<C>(k as int) <= u64::MAX,
            old(mem).words().contains_key(head_at::<C>(k as int)),
            ({
                let first = list_start::<C>(old(mem).words(), k as int);
                first != 0 ==> {
                    &&& first + 8 <= u64::MAX
                    &&& old(mem).words().contains_key(first + 8)
                    &&& old(mem).words()[first + 8] % C::MIN_ALIGN == 0
                    &&& old(mem).words()[head_at::<C>(k as int)] < u64::MAX
                }
            }),
        ensures
            r == list_start::<C>(old(mem).words(), k as int),
            r == 0 ==> final(mem).words() == old(mem).words(),
            r != 0 ==> final(mem).words() == stack_popped::<C>(old(mem).words(), k as int),
            r != 0 ==> final(mem).last_write() == (Write::Swap {
                addr: head_at::<C>(k as int) as u64,
                current: old(mem).words()[head_at::<C>(k as int)],
                new: retagged::<C>(
                    old(mem).words()[head_at::<C>(k as int)] as int,
                    old(mem).words()[r + 8] as int,
                ) as u64,
                done: true,
            }),
    {
        let mut session = Session::<C>::open(mem);
        let r: u64 = self.pop_in(&mut session, k);
        session.close();
        r
    }

    /// Pops a block from bin `k`'s stack, in the steps of a pop, or returns `0` if it is
    /// empty.
    pub(crate) fn pop_in(&self, mem: &mut Session<C>, k: u64) -> (r: u64)
        requires
            valid_config::<C>(),
            stable_region::<C>(),
            k < oversized::<C>(),
            head_at::<C>(k as int) <= u64::MAX,
            old(mem).words().contains_key(head_at::<C>(k as int)),
            ({
                let first = list_start::<C>(old(mem).words(), k as int);
                first != 0 ==> {
                    &&& first + 8 <= u64::MAX
                    &&& old(mem).words().contains_key(first + 8)
                    &&& old(mem).words()[first + 8] % C::MIN_ALIGN == 0
                    &&& old(mem).words()[head_at::<C>(k as int)] < u64::MAX
                }
            }),
            old(mem).local() is Idle,
        ensures
            r == list_start::<C>(old(mem).words(), k as int),
            r == 0 ==> final(mem).words() == old(mem).words(),
            r != 0 ==> final(mem).words() == stack_popped::<C>(old(mem).words(), k as int),
            r != 0 ==> final(mem).last_write() == (Write::Swap {
                addr: head_at::<C>(k as int) as u64,
                current: old(mem).words()[head_at::<C>(k as int)],
                new: retagged::<C>(
                    old(mem).words()[head_at::<C>(k as int)] as int,
                    old(mem).words()[r + 8] as int,
                ) as u64,
                done: true,
            }),
            r == 0 ==> final(mem).found_empty(k as int),
            final(mem).rests(old(mem).held()),
            final(mem).entered() == old(mem).entered(),
            *final(final(mem).cell()) == *final(old(mem).cell()),
    {
        let ghost w = old(mem).words();
        mem.begin_pop(Ghost(k as int));
        loop
            invariant
                valid_config::<C>(),
                stable_region::<C>(),
                k < oversized::<C>(),
                head_at::<C>(k as int) <= u64::MAX,
                mem.words() == w,
                w == old(mem).words(),
                w.contains_key(head_at::<C>(k as int)),
                ({
                    let first = list_start::<C>(w, k as int);
                    first != 0 ==> {
                        &&& first + 8 <= u64::MAX
                        &&& w.contains_key(first + 8)
                        &&& w[first + 8] % C::MIN_ALIGN == 0
                        &&& w[head_at::<C>(k as int)] < u64::MAX
                    }
                }),
                mem.bin() == k,
                mem.local() == Local::Pop,
                mem.held() == old(mem).held(),
                mem.entered() == old(mem).entered(),
                *final(mem.cell()) == *final(old(mem).cell()),
            decreases mem.spurious_failures(),
        {
            let old_head: u64 = self.load_head(mem, k);
            let old_addr: u64 = Self::head_address(old_head);
            if old_addr == 0 {
                return 0;
            }
            // Speculative read; a failed compare-and-swap discards it. Offset 8
            // is header padding, never payload.
            let next: u64 = self.load_link(mem, old_head, Ghost(k as int));
            if self.swap_head(mem, k, old_head, next) {
                return old_addr;
            }
        }
    }
}

/// An aligned address with a tag in its alignment bits: masking the tag off gives
/// the address back.
proof fn lemma_tagged<C: Config>(addr: int, tag: int)
    requires
        valid_config::<C>(),
        addr % C::MIN_ALIGN as int == 0,
        0 <= tag < C::MIN_ALIGN,
    ensures
        (addr + tag) % C::MIN_ALIGN as int == tag,
{
    vstd::arithmetic::div_mod::lemma_add_mod_noop(addr, tag, C::MIN_ALIGN as int);
    vstd::arithmetic::div_mod::lemma_small_mod(tag as nat, C::MIN_ALIGN as nat);
}

/// Popping a fixed bin that has a block: the head names the first block, and the
/// head that the pop leaves names the one after it.
pub proof fn lemma_pop<C: Config>(w: Map<int, u64>, st: HeapState, k: int)
    requires
        valid_config::<C>(),
        represents::<C>(w, st),
        0 <= k < oversized::<C>(),
    ensures
        w.contains_key(head_at::<C>(k)),
        list_start::<C>(w, k) == front(st.bins[k]),
        front(st.bins[k]) != 0 <==> st.bins[k].len() > 0,
        st.bins[k].len() > 0 ==> ({
            let b = st.bins[k][0];
            let head = w[head_at::<C>(k)];
            let v = (w[b.addr + 8] + (head + 1) % C::MIN_ALIGN as int) as u64;
            &&& head < u64::MAX
            &&& 0 < b.addr
            &&& b.addr + 16 <= u64::MAX
            &&& b.size % 16 == 0
            &&& w.contains_key(b.addr)
            &&& w.contains_key(b.addr + 8)
            &&& w[b.addr + 8] % C::MIN_ALIGN == 0
            &&& linked::<C>(w.insert(head_at::<C>(k), v), st.remove(k, 0))
        }),
{
    lemma_addresses::<C>();
    lemma_bin_counts::<C>();
    lemma_config_logs::<C>();
    assert(head_at::<C>(k) % 8 == 0);
    assert(list_start::<C>(w, k) == front(st.bins[k]));
    if st.bins[k].len() > 0 {
        assert(st.has(k, 0));
        let b = st.bins[k][0];
        let head = w[head_at::<C>(k)];
        let m = C::MIN_ALIGN as int;
        lemma_block_words::<C>(w, st, b);
        lemma_placed::<C>(b);
        vstd::arithmetic::div_mod::lemma_mod_bound(head as int, m);
        let next = after(st.bins[k], 0);
        reveal(after);
        if st.bins[k].len() > 1 {
            assert(st.has(k, 1));
            lemma_block_words::<C>(w, st, st.bins[k][1]);
            lemma_placed::<C>(st.bins[k][1]);
        } else {
            vstd::arithmetic::div_mod::lemma_small_mod(0, C::MIN_ALIGN as nat);
        }
        vstd::arithmetic::div_mod::lemma_mod_bound(head + 1, m);
        lemma_tagged::<C>(next, (head + 1) % m);
        let v = (next + (head + 1) % m) as u64;
        lemma_link_remove::<C>(w, st, k, 0, v);
    }
}

// --- the oversized list (under the refill lock) ------------------------------

impl<C: Config> CadAlloc<C> {
    /// Links an already-headered free block onto the front of the oversized
    /// list. The caller must hold the refill lock.
    fn push_oversize_locked(&self, mem: &mut Session<C>, addr: u64)
        requires
            old(mem).rests(true),
            valid_config::<C>(),
            valid_region::<C>(),
            addr + 8 <= u64::MAX,
            payload_start::<C>() <= addr,
            old(mem).words().contains_key(addr + 8),
            old(mem).words().contains_key(head_at::<C>(oversized::<C>())),
            lock_held::<C>(old(mem).words()),
        ensures
            final(mem).rests(true),
            *final(final(mem).cell()) == *final(old(mem).cell()),
            final(mem).words() == old(mem).words().insert(
                addr + 8,
                old(mem).words()[head_at::<C>(oversized::<C>())],
            ).insert(head_at::<C>(oversized::<C>()), addr),
    {
        proof {
            lemma_bin_counts::<C>();
        }
        let head: u64 = self.bin_head(Self::oversize_bin());
        let first: u64 = mem.load(head);
        mem.store(addr + 8, first);
        mem.store(head, addr);
    }

    /// First-fit search of the oversized free list: the address of the word that
    /// names the first block of at least `need` bytes, and the block's address,
    /// or `0` if there is none. The caller must hold the refill lock.
    pub(crate) fn find_fit(
        &self,
        mem: &mut Session<C>,
        need: u64,
        Ghost(list): Ghost<Seq<Block>>,
    ) -> (r: (u64, u64))
        requires
            old(mem).rests(true),
            valid_config::<C>(),
            valid_region::<C>(),
            lock_held::<C>(old(mem).words()),
            old(mem).words().contains_key(head_at::<C>(oversized::<C>())),
            list_start::<C>(old(mem).words(), oversized::<C>()) == front(list),
            forall|i: int| 0 <= i < list.len() ==> #[trigger] list_node(old(mem).words(), list, i),
            forall|i: int|
                0 <= i < list.len() ==> payload_start::<C>() <= (#[trigger] list[i]).addr,
        ensures
            final(mem).words() == old(mem).words(),
            final(mem).rests(true),
            *final(final(mem).cell()) == *final(old(mem).cell()),
            ({
                let i = first_fit(list, need as int, 0);
                &&& 0 <= i <= list.len()
                &&& i < list.len() ==> r.0 == link_addr::<C>(list, i) && r.1 == list[i].addr
                    && r.1 != 0
                &&& i == list.len() ==> r.1 == 0
            }),
    {
        proof {
            lemma_bin_counts::<C>();
            lemma_addresses::<C>();
            lemma_first_fit(list, need as int, 0);
        }
        let head: u64 = self.bin_head(Self::oversize_bin());
        // `prev_link` is the address of the word that points at `cur`.
        let mut prev_link: u64 = head;
        let mut cur: u64 = mem.load(head);
        let ghost mut i: int = 0;
        proof {
            if list.len() > 0 {
                assert(list_node(mem.words(), list, 0));
            }
        }
        while cur != 0
            invariant
                head == head_at::<C>(oversized::<C>()),
                0 <= i <= list.len(),
                cur == if i < list.len() { list[i].addr } else { 0 },
                prev_link == link_addr::<C>(list, i),
                first_fit(list, need as int, 0) == first_fit(list, need as int, i),
                forall|j: int| 0 <= j < list.len() ==> #[trigger] list_node(mem.words(), list, j),
                forall|j: int|
                    0 <= j < list.len() ==> payload_start::<C>() <= (#[trigger] list[j]).addr,
                lock_at::<C>() < payload_start::<C>(),
                mem.words() == old(mem).words(),
                mem.rests(true),
                *final(mem.cell()) == *final(old(mem).cell()),
            decreases list.len() - i,
        {
            assert(list_node(mem.words(), list, i));
            if header_size(mem.load(cur)) >= need {
                return (prev_link, cur);
            }
            prev_link = cur + 8;
            cur = mem.load(cur + 8);
            proof {
                reveal(after);
                i = i + 1;
            }
        }
        proof {
            if i < list.len() {
                assert(list_node(mem.words(), list, i));
            }
        }
        (prev_link, 0)
    }
}

/// The oversized list can be walked.
pub proof fn lemma_list_nodes<C: Config>(w: Map<int, u64>, st: HeapState)
    requires
        valid_config::<C>(),
        represents::<C>(w, st),
    ensures
        ({
            let k = oversized::<C>();
            let list = st.bins[k];
            &&& w.contains_key(head_at::<C>(k))
            &&& list_start::<C>(w, k) == front(list)
            &&& forall|i: int| 0 <= i < list.len() ==> #[trigger] list_node(w, list, i)
            &&& forall|i: int|
                0 <= i < list.len() ==> payload_start::<C>() <= (#[trigger] list[i]).addr
            &&& 0 <= k < st.bins.len()
        }),
{
    let k = oversized::<C>();
    let list = st.bins[k];
    lemma_addresses::<C>();
    lemma_bin_counts::<C>();
    assert(head_at::<C>(k) % 8 == 0);
    assert(list_start::<C>(w, k) == front(list));
    assert forall|i: int| 0 <= i < list.len() implies #[trigger] list_node(w, list, i)
        && payload_start::<C>() <= list[i].addr by {
        assert(st.has(k, i));
        lemma_block_words::<C>(w, st, st.bins[k][i]);
    }
}

/// The word at `a` is neither in the oversized block at position `i` nor the one
/// that names it.
pub open spec fn outside_unlinked<C: Config>(st: HeapState, i: int, a: int) -> bool {
    let b = st.bins[oversized::<C>()][i];
    &&& b.end() <= a || a + 8 <= b.addr
    &&& a != link_addr::<C>(st.bins[oversized::<C>()], i)
}

/// Taking an oversized block off the list.
pub proof fn lemma_unlink<C: Config>(w: Map<int, u64>, st: HeapState, i: int)
    requires
        valid_config::<C>(),
        represents::<C>(w, st),
        st.has(oversized::<C>(), i),
    ensures
        ({
            let k = oversized::<C>();
            let b = st.bins[k][i];
            let link = link_addr::<C>(st.bins[k], i);
            let w1 = w.insert(link, w[b.addr + 8]);
            &&& 0 < b.addr
            &&& b.end() <= u64::MAX
            &&& b.size >= 16
            &&& w.contains_key(b.addr)
            &&& w.contains_key(b.addr + 8)
            &&& w.contains_key(link)
            &&& link < payload_start::<C>() ==> head_at::<C>(0) <= link < bump_at::<C>()
            &&& w1[b.addr] - w1[b.addr] % 16 == b.size
            &&& st.remove(k, i).wf::<C>()
            &&& st.remove(k, i).holds::<C>(b)
            &&& st.remove(k, i).bump == st.bump
            &&& linked::<C>(w1, st.remove(k, i))
        }),
        forall|a: int|
            payload_start::<C>() <= a && a + 8 <= st.bump && st.clear(a, a + 8)
                ==> #[trigger] outside_unlinked::<C>(st, i, a),
{
    let k = oversized::<C>();
    let b = st.bins[k][i];
    let link = link_addr::<C>(st.bins[k], i);
    lemma_addresses::<C>();
    lemma_bin_counts::<C>();
    assert(head_at::<C>(k) % 8 == 0);
    lemma_block_words::<C>(w, st, b);
    if i > 0 {
        let c = st.bins[k][i - 1];
        assert(st.has(k, i - 1));
        lemma_block_words::<C>(w, st, c);
        assert(apart(c, b));
    }
    lemma_remove::<C>(st, k, i);
    lemma_link_remove::<C>(w, st, k, i, w[b.addr + 8]);
    assert forall|a: int|
        payload_start::<C>() <= a && a + 8 <= st.bump && st.clear(
            a,
            a + 8,
        ) implies #[trigger] outside_unlinked::<C>(st, i, a) by {
        assert(b.end() <= a || a + 8 <= b.addr);
        if i > 0 {
            let c = st.bins[k][i - 1];
            assert(c.end() <= a || a + 8 <= c.addr);
        }
    }
}

// --- freeing into a list -----------------------------------------------------

impl<C: Config> CadAlloc<C> {
    /// Links a block that is marked free in front of its bin. For an oversized
    /// block the caller must hold the refill lock.
    pub(crate) fn link_free(
        &self,
        mem: &mut Session<C>,
        bin: u64,
        addr: u64,
        Ghost(b): Ghost<Block>,
        Ghost(st): Ghost<HeapState>,
    )
        requires
            old(mem).local() is Idle,
            bin == oversized::<C>() ==> old(mem).held(),
            valid_config::<C>(),
            valid_region::<C>(),
            st.wf::<C>(),
            linked::<C>(old(mem).words(), st),
            bin == oversized::<C>() ==> lock_held::<C>(old(mem).words()),
            st.holds::<C>(b),
            old(mem).words()[b.addr] == header_word(b.size, true),
            addr == b.addr,
            bin == bin_of::<C>(b.size),
        ensures
            final(mem).rests(old(mem).held()),
            *final(final(mem).cell()) == *final(old(mem).cell()),
            final(mem).words() == linked_in::<C>(old(mem).words(), b),
            linked::<C>(final(mem).words(), st.push::<C>(b)),
            same_outside::<C>(old(mem).words(), final(mem).words(), b.addr + 8, b.addr + 16),
            bin != oversized::<C>() ==> final(mem).last_write() == (Write::Swap {
                addr: head_at::<C>(bin as int) as u64,
                current: old(mem).words()[head_at::<C>(bin as int)],
                new: retagged::<C>(
                    old(mem).words()[head_at::<C>(bin as int)] as int,
                    b.addr,
                ) as u64,
                done: true,
            }),
    {
        let ghost w = mem.words();
        proof {
            lemma_addresses::<C>();
            lemma_bin_counts::<C>();
            lemma_placed::<C>(b);
            lemma_block_words::<C>(w, st, b);
            lemma_config_logs::<C>();
            assert(head_at::<C>(bin as int) % 8 == 0);
            assert(list_start::<C>(w, bin as int) == front(st.bins[bin as int]));
            if st.bins[bin as int].len() > 0 {
                assert(st.has(bin as int, 0));
                lemma_block_words::<C>(w, st, st.bins[bin as int][0]);
                lemma_placed::<C>(st.bins[bin as int][0]);
            }
        }
        if bin == Self::oversize_bin() {
            self.push_oversize_locked(mem, addr);
            proof {
                lemma_link_push::<C>(w, st, b, addr);
            }
        } else {
            proof {
                let head = w[head_at::<C>(bin as int)];
                let m = C::MIN_ALIGN as int;
                assert(head < u64::MAX) by {
                    vstd::arithmetic::div_mod::lemma_mod_bound(head as int, m);
                }
            }
            self.push_in(mem, bin, addr);
            proof {
                let head = w[head_at::<C>(bin as int)];
                let m = C::MIN_ALIGN as int;
                let v = (addr + (head + 1) % m) as u64;
                vstd::arithmetic::div_mod::lemma_mod_bound(head + 1, m);
                lemma_tagged::<C>(addr as int, (head + 1) % m);
                lemma_link_push::<C>(w, st, b, v);
            }
        }
        proof {
            assert(mem.words().dom() =~= w.dom());
        }
    }

    /// Marks a block free and links it in front of its bin. The caller must hold
    /// the refill lock.
    pub(crate) fn carve_off(
        &self,
        mem: &mut Session<C>,
        bin: u64,
        addr: u64,
        size: u64,
        Ghost(st): Ghost<HeapState>,
    )
        requires
            old(mem).rests(true),
            valid_config::<C>(),
            valid_region::<C>(),
            st.wf::<C>(),
            linked::<C>(old(mem).words(), st),
            lock_held::<C>(old(mem).words()),
            st.holds::<C>(Block { addr: addr as int, size: size as int }),
            bin == bin_of::<C>(size as int),
        ensures
            final(mem).rests(true),
            *final(final(mem).cell()) == *final(old(mem).cell()),
            final(mem).words() == freed_in::<C>(
                old(mem).words(),
                Block { addr: addr as int, size: size as int },
            ),
            linked::<C>(
                final(mem).words(),
                st.push::<C>(Block { addr: addr as int, size: size as int }),
            ),
            same_outside::<C>(
                old(mem).words(),
                final(mem).words(),
                addr as int,
                addr + size,
            ),
    {
        let ghost b = Block { addr: addr as int, size: size as int };
        let ghost w = mem.words();
        proof {
            lemma_addresses::<C>();
            lemma_block_words::<C>(w, st, b);
        }
        mem.store(addr, pack(size, FREE));
        proof {
            lemma_store_outside::<C>(w, st, addr as int, header_word(size as int, true));
            assert(mem.words().dom() =~= w.dom());
        }
        self.link_free(mem, bin, addr, Ghost(b), Ghost(st));
    }
}

} // verus!
