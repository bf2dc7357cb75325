//! Taking blocks: from the free lists, or fresh from the bump region, with what is
//! left over carved into free blocks.

use crate::allocator::CadAlloc;
use crate::bits::{
    align_up, lemma_aligned_down, lemma_is_pow2, lemma_mod_add_sub, lemma_round_up, round_up,
};
use crate::classes::{
    bin_class, bin_of, block_exact, class_align, lemma_bin_of, lemma_class, odd_bin, oversized,
};
use crate::config::{lemma_bin_counts, lemma_config_logs, valid_config, Config};
use crate::header::{header_size, header_word, pack, USED};
use crate::invariants::{
    lemma_align_order, lemma_bump_block, lemma_carvable, lemma_carve_down, lemma_exact_floor,
    lemma_first_fit, lemma_placed, lemma_push, lemma_raised_bump, lemma_remove, lemma_split,
    lemma_take_fixed, lemma_take_oversized,
};
use crate::lists::{lemma_list_nodes, lemma_pop, lemma_unlink, outside_unlinked};
use crate::memory::{
    after, bump_at, keeps_used, lemma_addresses, lemma_block_words, lemma_store_outside, linked,
    lock_at, lock_held, represents, same_outside,
};
use crate::session::Session;
use crate::state::{
    bump_block, carve_down, carve_tail, first_fit, lemma_bin_of_class, payload_start, split,
    take_fixed, take_oversized, valid_region, Block, HeapState,
};
use crate::words::{
    bumped, cut, fixed_taken, gap_carved, lemma_cut_under_lock, lemma_lock_aside_gap, link_addr,
    oversized_taken, tail_carved,
};
use vstd::arithmetic::power2::is_pow2;
use vstd::prelude::*;

verus! {

/// The address of a block, or `0` for none.
pub open spec fn block_addr(b: Option<Block>) -> int {
    match b {
        Some(b) => b.addr,
        None => 0,
    }
}

/// Marking a block used at its final size, once its tail is carved, changes no free
/// list.
proof fn lemma_cut_done<C: Config>(
    w: Map<int, u64>,
    w1: Map<int, u64>,
    st: HeapState,
    b: Block,
    end: int,
    size: int,
)
    requires
        valid_config::<C>(),
        valid_region::<C>(),
        st.wf::<C>(),
        linked::<C>(w1, st),
        same_outside::<C>(w, w1, end, b.end()),
        w1.contains_key(b.addr),
        b.addr % 8 == 0,
        payload_start::<C>() <= b.addr,
        b.addr + 8 <= b.addr + size <= end <= b.end() <= st.bump,
        st.clear(b.addr, end),
    ensures
        ({
            let header = header_word(size, false);
            &&& linked::<C>(w1.insert(b.addr, header), st)
            &&& same_outside::<C>(
                w.insert(b.addr, header),
                w1.insert(b.addr, header),
                b.addr + size,
                b.end(),
            )
        }),
{
    let header = header_word(size, false);
    lemma_addresses::<C>();
    lemma_store_outside::<C>(w1, st, b.addr, header);
    assert(w1.insert(b.addr, header).dom() =~= w.insert(b.addr, header).dom());
}

// --- carving (under the refill lock) -----------------------------------------

impl<C: Config> CadAlloc<C> {
    /// Frees the alignment gap `[lo, hi)` left when the bump pointer is rounded
    /// up so an exponential block lands on its class alignment. Carves the gap
    /// into class-exact, aligned free blocks, largest first, *without* a
    /// `CARVE_MAX` bound (the gap is bounded: smaller than the block's class).
    /// A sub-class sliver at the low end is only possible when
    /// `LNR_FLOOR > MIN_ALIGN`, and is then unavoidable dead space. The caller
    /// holds the refill lock.
    fn carve_gap(&self, mem: &mut Session<C>, lo: u64, hi: u64, Ghost(st): Ghost<HeapState>)
        requires
            old(mem).rests(true),
            valid_config::<C>(),
            valid_region::<C>(),
            st.wf::<C>(),
            linked::<C>(old(mem).words(), st),
            lock_held::<C>(old(mem).words()),
            payload_start::<C>() <= lo <= hi <= st.bump,
            lo % C::MIN_ALIGN == 0,
            hi % C::MIN_ALIGN == 0,
            st.clear(lo as int, hi as int),
        ensures
            final(mem).rests(true),
            *final(final(mem).cell()) == *final(old(mem).cell()),
            final(mem).words() == gap_carved::<C>(old(mem).words(), lo as int, hi as int),
            linked::<C>(final(mem).words(), carve_down::<C>(st, lo as int, hi as int)),
            same_outside::<C>(old(mem).words(), final(mem).words(), lo as int, hi as int),
    {
        let ghost w = mem.words();
        let ghost mut cur = st;
        let mut end: u64 = hi;
        while end - lo >= C::MIN_ALIGN
            invariant
                valid_config::<C>(),
                valid_region::<C>(),
                payload_start::<C>() <= lo <= end <= hi <= cur.bump,
                lo % C::MIN_ALIGN == 0,
                end % C::MIN_ALIGN == 0,
                cur.wf::<C>(),
                cur.clear(lo as int, end as int),
                linked::<C>(mem.words(), cur),
                lock_held::<C>(mem.words()),
                mem.rests(true),
                *final(mem.cell()) == *final(old(mem).cell()),
                carve_down::<C>(cur, lo as int, end as int) == carve_down::<C>(
                    st,
                    lo as int,
                    hi as int,
                ),
                gap_carved::<C>(mem.words(), lo as int, end as int) == gap_carved::<C>(
                    w,
                    lo as int,
                    hi as int,
                ),
                same_outside::<C>(w, mem.words(), lo as int, hi as int),
            ensures
                carve_down::<C>(cur, lo as int, end as int) == cur,
                gap_carved::<C>(mem.words(), lo as int, end as int) == mem.words(),
            decreases end,
        {
            proof {
                lemma_addresses::<C>();
                lemma_mod_add_sub(end as int, lo as int, C::MIN_ALIGN as int);
                lemma_carvable::<C>(end as int, end - lo);
            }
            let (size, bin) = Self::largest_carvable(end, end - lo);
            if size == 0 {
                break;
            }
            let ghost b = Block { addr: end - size, size: size as int };
            proof {
                lemma_placed::<C>(b);
                lemma_push::<C>(cur, b);
            }
            end = end - size;
            self.carve_off(mem, bin, end, size, Ghost(cur));
            proof {
                assert(cur.clear(lo as int, end as int));
                cur = cur.push::<C>(b);
            }
        }
    }

    /// Carves the excess of an in-use block `[block, block + bsize)` beyond
    /// `need` into free blocks, marks the block used at its final size, and
    /// returns that size. The caller must hold the refill lock.
    ///
    /// If the excess is below `SPLIT_MIN` the whole block is kept (the excess
    /// stays as internal slack). Otherwise blocks are carved from the *top* of
    /// the excess, largest first (see
    /// [`largest_carvable`](Self::largest_carvable)), for roughly `CARVE_MAX`
    /// iterations; every carved block is class-exact (or one oversized block) and
    /// aligned, so it lands in the correct free list.
    ///
    /// The retained block must itself stay a valid block: an oversized region,
    /// or an *exact* fixed class. [`free`](CadAlloc::free) later maps its header
    /// size to a bin by ceiling, so any other size would be reused as a larger
    /// class and overrun its neighbour. So carving may run a few iterations past
    /// `CARVE_MAX` to reach a valid retained size, and a final uncarvable sliver
    /// becomes dead space rather than inflating the block.
    pub(crate) fn split_and_free_tail(
        &self,
        mem: &mut Session<C>,
        block: u64,
        bsize: u64,
        need: u64,
        Ghost(st): Ghost<HeapState>,
    ) -> (r: u64)
        requires
            old(mem).rests(true),
            valid_config::<C>(),
            valid_region::<C>(),
            st.wf::<C>(),
            linked::<C>(old(mem).words(), st),
            lock_held::<C>(old(mem).words()),
            st.holds::<C>(Block { addr: block as int, size: bsize as int }),
            0 < need <= bsize,
            need % C::MIN_ALIGN == 0,
            block_exact::<C>(need as int),
        ensures
            final(mem).rests(true),
            *final(final(mem).cell()) == *final(old(mem).cell()),
            ({
                let b = Block { addr: block as int, size: bsize as int };
                let (st2, size) = split::<C>(st, b, need as int);
                &&& r == size
                &&& final(mem).words() == cut::<C>(old(mem).words(), b, need as int)
                &&& b.size - need < C::SPLIT_MIN ==> final(mem).words() == old(mem).words().insert(
                    b.addr,
                    header_word(b.size, false),
                )
                &&& linked::<C>(final(mem).words(), st2)
                &&& final(mem).words()[b.addr] == header_word(size, false)
                &&& same_outside::<C>(
                    old(mem).words().insert(b.addr, header_word(size, false)),
                    final(mem).words(),
                    b.addr + size,
                    b.end(),
                )
            }),
    {
        let ghost b = Block { addr: block as int, size: bsize as int };
        let ghost w = mem.words();
        proof {
            lemma_addresses::<C>();
            lemma_placed::<C>(b);
            lemma_block_words::<C>(w, st, b);
            lemma_config_logs::<C>();
            lemma_split::<C>(st, b, need as int);
        }
        if bsize - need < C::SPLIT_MIN {
            mem.store(block, pack(bsize, USED));
            proof {
                lemma_store_outside::<C>(w, st, b.addr, header_word(b.size, false));
            }
            return bsize;
        }
        let ptr: u64 = block + need;
        let mut end: u64 = block + bsize;
        let mut iter: u64 = 0;
        let ghost mut cur = st;
        proof {
            lemma_mod_add_sub(b.addr, b.size, C::MIN_ALIGN as int);
            lemma_mod_add_sub(b.addr, need as int, C::MIN_ALIGN as int);
        }
        // Carve class-exact (or oversized) blocks off the top. `CARVE_MAX` bounds
        // the work, but the retained block `[block, end)` must itself stay a
        // valid block: an oversized region or an exact class may keep its slack
        // and stop, whereas any other size must be carved down further. Reaching
        // a valid size costs only a few extra carves past the budget.
        while end - ptr >= C::MIN_ALIGN && (iter < C::CARVE_MAX || !Self::is_block_exact(
            end - block,
        ))
            invariant
                valid_config::<C>(),
                valid_region::<C>(),
                payload_start::<C>() <= block < ptr <= end <= block + bsize <= cur.bump,
                ptr == block + need,
                block % C::MIN_ALIGN == 0,
                ptr % C::MIN_ALIGN == 0,
                end % C::MIN_ALIGN == 0,
                iter <= u64::MAX - (end - ptr),
                cur.wf::<C>(),
                cur.clear(block as int, end as int),
                linked::<C>(mem.words(), cur),
                lock_held::<C>(mem.words()),
                mem.rests(true),
                *final(mem.cell()) == *final(old(mem).cell()),
                carve_tail::<C>(cur, block as int, need as int, end as int, iter as int)
                    == carve_tail::<C>(st, block as int, need as int, block + bsize, 0),
                tail_carved::<C>(mem.words(), block as int, need as int, end as int, iter as int)
                    == tail_carved::<C>(w, block as int, need as int, block + bsize, 0),
                same_outside::<C>(w, mem.words(), end as int, block + bsize),
            ensures
                carve_tail::<C>(cur, block as int, need as int, end as int, iter as int) == (
                    cur,
                    end as int,
                ),
                tail_carved::<C>(mem.words(), block as int, need as int, end as int, iter as int)
                    == (mem.words(), end as int),
            decreases end,
        {
            proof {
                lemma_addresses::<C>();
                lemma_mod_add_sub(end as int, ptr as int, C::MIN_ALIGN as int);
                lemma_carvable::<C>(end as int, end - ptr);
            }
            let (size, bin) = Self::largest_carvable(end, end - ptr);
            if size == 0 {
                break;
            }
            let ghost c = Block { addr: end - size, size: size as int };
            proof {
                lemma_placed::<C>(c);
                lemma_push::<C>(cur, c);
            }
            end = end - size;
            self.carve_off(mem, bin, end, size, Ghost(cur));
            proof {
                assert(cur.clear(block as int, end as int));
                cur = cur.push::<C>(c);
            }
            iter = iter + 1;
        }
        // If only an unavoidable sliver was left uncarvable, the retained size
        // may still be non-exact; drop to the largest class that fits and leave
        // the sliver as dead space, keeping the block class-exact.
        let mut alloc_size: u64 = end - block;
        proof {
            lemma_mod_add_sub(end as int, block as int, C::MIN_ALIGN as int);
            lemma_exact_floor::<C>(alloc_size as int, need as int);
        }
        if !Self::is_block_exact(alloc_size) {
            proof {
                lemma_bin_of::<C>(need as int);
                lemma_placed_size::<C>(need as int);
            }
            alloc_size = bin_class::<C>(Self::floor_bin(alloc_size));
        }
        let ghost w1 = mem.words();
        proof {
            lemma_aligned_size::<C>(alloc_size as int);
        }
        mem.store(block, pack(alloc_size, USED));
        proof {
            lemma_cut_done::<C>(w, w1, cur, b, end as int, alloc_size as int);
        }
        alloc_size
    }

    /// Carves a fresh block of `size` bytes, at a multiple of `align`, from the
    /// bump region, and frees the gap below it. Returns the block's address, or
    /// `0` if the heap is exhausted. The caller must hold the refill lock, and have
    /// found the bin of a fixed class empty since it holds it: another thread may have
    /// freed into it before.
    fn carve_fresh(&self, mem: &mut Session<C>, align: u64, size: u64, Ghost(st): Ghost<HeapState>)
        -> (r: u64)
        requires
            old(mem).rests(true),
            valid_config::<C>(),
            represents::<C>(old(mem).words(), st),
            lock_held::<C>(old(mem).words()),
            size > 0,
            block_exact::<C>(size as int),
            size % C::MIN_ALIGN == 0,
            align == class_align::<C>(bin_of::<C>(size as int)),
            size <= C::EXP_CEIL ==> old(mem).found_empty(bin_of::<C>(size as int)),
        ensures
            final(mem).rests(true),
            *final(final(mem).cell()) == *final(old(mem).cell()),
            ({
                let w = old(mem).words();
                let w2 = final(mem).words();
                let (st2, taken) = bump_block::<C>(st, align as int, size as int);
                &&& represents::<C>(w2, st2)
                &&& r == block_addr(taken)
                &&& taken is None ==> w2 == w
                &&& taken matches Some(b) ==> w2 == bumped::<C>(w, b.addr, b.size)
                &&& w2[lock_at::<C>()] == w[lock_at::<C>()]
                &&& keeps_used::<C>(w, w2, st)
            }),
    {
        let ghost w = mem.words();
        proof {
            lemma_addresses::<C>();
            lemma_bin_of::<C>(size as int);
            lemma_bin_counts::<C>();
            lemma_align_order::<C>(bin_of::<C>(size as int), bin_of::<C>(size as int));
            lemma_bump_block::<C>(st, align as int, size as int);
            lemma_round_up(st.bump, align as int);
            if st.bump + (align - 1) > u64::MAX {
                lemma_round_up_past(st.bump as u64, align);
            }
        }
        let bump: u64 = mem.load(self.bump_addr());
        let end: u64 = self.heap_end();
        if bump > u64::MAX - (align - 1) {
            return 0;
        }
        let aligned: u64 = align_up(bump, align);
        if size > end || aligned > end - size {
            return 0;
        }
        let ghost st1 = st.with_bump(aligned + size);
        proof {
            lemma_aligned_down(aligned as int, align as int, C::MIN_ALIGN as int);
            lemma_mod_add_sub(aligned as int, size as int, C::MIN_ALIGN as int);
            lemma_raised_bump::<C>(st, aligned + size);
            assert(st1.clear(bump as int, aligned as int));
            assert(linked::<C>(w, st1)) by {
                assert forall|k: int, i: int| st1.has(k, i) implies {
                    let c = #[trigger] st1.bins[k][i];
                    &&& w[c.addr] == header_word(c.size, true)
                    &&& w[c.addr + 8] == after(st1.bins[k], i)
                } by {
                    assert(st.has(k, i));
                    assert(st.bins[k][i] == st1.bins[k][i]);
                }
            }
            lemma_carve_down::<C>(st1, bump as int, aligned as int);
        }
        self.carve_gap(mem, bump, aligned, Ghost(st1));
        let ghost st2 = carve_down::<C>(st1, bump as int, aligned as int);
        let ghost w1 = mem.words();
        mem.store(self.bump_addr(), aligned + size);
        proof {
            lemma_store_outside::<C>(w1, st2, bump_at::<C>(), (aligned + size) as u64);
            assert(mem.words().dom() =~= w.dom());
        }
        aligned
    }
}

/// An address whose rounding up needs more than 64 bits is rounded up past the
/// last address.
proof fn lemma_round_up_past(x: u64, align: u64)
    requires
        is_pow2(align as int),
        x + (align - 1) > u64::MAX,
    ensures
        round_up(x as int, align as int) > u64::MAX,
{
    let a = align as int;
    let top = 0x1_0000_0000_0000_0000int;
    lemma_is_pow2(a);
    crate::bits::lemma_pow2_values();
    crate::bits::lemma_pow2_is_pow2(64);
    crate::bits::lemma_pow2_divides(a, top);
    lemma_round_up(x as int, a);
    if round_up(x as int, a) < top {
        crate::bits::lemma_multiples_close(round_up(x as int, a), top, a);
    }
}

/// A size that can stand alone is at least the smallest class.
proof fn lemma_placed_size<C: Config>(size: int)
    requires
        valid_config::<C>(),
        size > 0,
        block_exact::<C>(size),
    ensures
        size >= C::LNR_FLOOR,
{
    lemma_bin_counts::<C>();
    lemma_bin_of::<C>(size);
    if size <= C::EXP_CEIL {
        lemma_class::<C>(bin_of::<C>(size));
    }
}

/// A multiple of `MIN_ALIGN` leaves the flag bits of a header clear.
pub proof fn lemma_aligned_size<C: Config>(size: int)
    requires
        valid_config::<C>(),
        size % C::MIN_ALIGN as int == 0,
    ensures
        size % 16 == 0,
{
    lemma_config_logs::<C>();
    crate::bits::lemma_pow2_values();
    crate::bits::lemma_pow2_is_pow2(4);
    lemma_aligned_down(size, C::MIN_ALIGN as int, 16);
}

/// Moving the bump pointer under the lock leaves the words that it would leave
/// without.
proof fn lemma_bumped_locked<C: Config>(w: Map<int, u64>, b: Block)
    requires
        valid_config::<C>(),
        valid_region::<C>(),
        w.contains_key(lock_at::<C>()),
        w[lock_at::<C>()] == 0,
        payload_start::<C>() <= w[bump_at::<C>()],
    ensures
        bumped::<C>(w.insert(lock_at::<C>(), 1), b.addr, b.size).insert(lock_at::<C>(), 0)
            == bumped::<C>(w, b.addr, b.size),
{
    lemma_addresses::<C>();
    let bump = w[bump_at::<C>()] as int;
    lemma_lock_aside_gap::<C>(w, bump, b.addr, 1);
    lemma_lock_aside_gap::<C>(w, bump, b.addr, 0);
    assert(w.insert(lock_at::<C>(), 0) =~= w);
    assert(bumped::<C>(w.insert(lock_at::<C>(), 1), b.addr, b.size).insert(lock_at::<C>(), 0)
        =~= bumped::<C>(w, b.addr, b.size));
}

/// Taking an oversized block under the lock leaves the words that it would leave
/// without.
proof fn lemma_cut_locked<C: Config>(w: Map<int, u64>, st: HeapState, i: int, need: int)
    requires
        valid_config::<C>(),
        represents::<C>(w, st),
        w[lock_at::<C>()] == 0,
        st.has(oversized::<C>(), i),
        0 <= need,
    ensures
        ({
            let list = st.bins[oversized::<C>()];
            let link = link_addr::<C>(list, i);
            let b = list[i];
            let w1 = w.insert(lock_at::<C>(), 1);
            cut::<C>(w1.insert(link, w1[b.addr + 8]), b, need).insert(lock_at::<C>(), 0) == cut::<
                C,
            >(w.insert(link, w[b.addr + 8]), b, need)
        }),
{
    let list = st.bins[oversized::<C>()];
    let link = link_addr::<C>(list, i);
    let b = list[i];
    let w1 = w.insert(lock_at::<C>(), 1);
    let u = w.insert(link, w[b.addr + 8]);
    lemma_addresses::<C>();
    lemma_unlink::<C>(w, st, i);
    assert(w.contains_key(lock_at::<C>()));
    assert(w1.insert(link, w1[b.addr + 8]) =~= u.insert(lock_at::<C>(), 1));
    lemma_cut_under_lock::<C>(u, b, need);
}

// --- taking blocks -----------------------------------------------------------

impl<C: Config> CadAlloc<C> {
    /// Allocates a fixed-class block from `bin`, returning its address (header),
    /// or `0` if the heap is exhausted. Blocks in a fixed bin are always exactly
    /// the class size, so the returned block is stamped used at the class size.
    pub(crate) fn alloc_fixed(
        &self,
        mem: &mut Session<C>,
        bin: u64,
        Ghost(st): Ghost<HeapState>,
    ) -> (r: u64)
        requires
            old(mem).rests(false),
            !old(mem).entered(),
            valid_config::<C>(),
            represents::<C>(old(mem).words(), st),
            old(mem).words()[lock_at::<C>()] == 0,
            bin < oversized::<C>(),
            !odd_bin::<C>(bin as int),
        ensures
            final(mem).rests(false),
            *final(final(mem).cell()) == *final(old(mem).cell()),
            ({
                let w = old(mem).words();
                let w2 = final(mem).words();
                let (st2, taken) = take_fixed::<C>(st, bin as int);
                &&& w2 == fixed_taken::<C>(w, bin as int)
                &&& represents::<C>(w2, st2)
                &&& w2[lock_at::<C>()] == 0
                &&& r == block_addr(taken)
                &&& taken is None ==> w2 == w
                &&& taken matches Some(b) ==> w2[b.addr] == header_word(b.size, false)
                &&& keeps_used::<C>(w, w2, st)
            }),
    {
        let class: u64 = bin_class::<C>(bin);
        let ghost w = mem.words();
        let ghost k = bin as int;
        let ghost b = st.bins[k][0];
        proof {
            lemma_addresses::<C>();
            lemma_bin_counts::<C>();
            lemma_take_fixed::<C>(st, k);
            lemma_bin_of_class::<C>(k);
            lemma_class::<C>(k);
            lemma_pop::<C>(w, st, k);
        }
        // Fast path: a free block already in the bin.
        let block: u64 = self.pop_in(mem, bin);
        if block != 0 {
            let ghost w1 = mem.words();
            proof {
                lemma_remove::<C>(st, k, 0);
            }
            mem.store(block, pack(class, USED));
            proof {
                lemma_store_outside::<C>(w1, st.remove(k, 0), b.addr, header_word(b.size, false));
                assert(mem.words().dom() =~= w.dom());
            }
            return block;
        }
        // Slow path: look again under the lock (another thread may have freed
        // into this bin), else carve a fresh class-sized block from the bump
        // region. Exponential blocks must land on their class alignment, so the
        // bump pointer is rounded up and the gap freed; linear bins have
        // `MIN_ALIGN` alignment, for which the round-up is a no-op.
        let align: u64 = Self::align_of_bin(bin);
        self.lock(mem);
        let ghost w1 = mem.words();
        proof {
            lemma_store_outside::<C>(w, st, lock_at::<C>(), 1);
            assert(w1.dom() =~= w.dom());
            lemma_pop::<C>(w1, st, k);
        }
        let mut block: u64 = self.pop_in(mem, bin);
        if block == 0 {
            block = self.carve_fresh(mem, align, class, Ghost(st));
        }
        let ghost (st2, taken) = take_fixed::<C>(st, k);
        let ghost w2 = mem.words();
        self.unlock(mem);
        let ghost w3 = mem.words();
        proof {
            lemma_store_outside::<C>(w2, st2, lock_at::<C>(), 0);
            assert(w3.dom() =~= w.dom());
        }
        // The block is private to us now (not in any list), so it is safe to
        // stamp the header after releasing the lock.
        if block != 0 {
            let ghost c = taken->Some_0;
            proof {
                lemma_block_words::<C>(w3, st2, c);
            }
            mem.store(block, pack(class, USED));
            proof {
                lemma_store_outside::<C>(w3, st2, c.addr, header_word(c.size, false));
                assert(mem.words().dom() =~= w.dom());
                lemma_bumped_locked::<C>(w, c);
                assert(mem.words() =~= fixed_taken::<C>(w, k));
            }
        } else {
            proof {
                if taken is Some {
                    lemma_block_words::<C>(w3, st2, taken->Some_0);
                }
                assert(w3 =~= w);
            }
        }
        block
    }

    /// Takes the block at position `i` of the oversized list, which the word at
    /// `link` names, off the list, and carves its excess beyond `need`. The
    /// caller must hold the refill lock.
    fn take_fit(
        &self,
        mem: &mut Session<C>,
        link: u64,
        block: u64,
        need: u64,
        Ghost(st): Ghost<HeapState>,
        Ghost(i): Ghost<int>,
    )
        requires
            old(mem).rests(true),
            valid_config::<C>(),
            represents::<C>(old(mem).words(), st),
            lock_held::<C>(old(mem).words()),
            st.has(oversized::<C>(), i),
            need > C::EXP_CEIL,
            need % C::MIN_ALIGN == 0,
            ({
                let list = st.bins[oversized::<C>()];
                &&& link == link_addr::<C>(list, i)
                &&& block == list[i].addr
                &&& need <= list[i].size
            }),
        ensures
            final(mem).rests(true),
            *final(final(mem).cell()) == *final(old(mem).cell()),
            ({
                let k = oversized::<C>();
                let b = st.bins[k][i];
                let w = old(mem).words();
                let w2 = final(mem).words();
                let (st2, size) = split::<C>(st.remove(k, i), b, need as int);
                &&& w2 == cut::<C>(w.insert(link as int, w[b.addr + 8]), b, need as int)
                &&& represents::<C>(w2, st2)
                &&& w2[b.addr] == header_word(size, false)
                &&& w2[lock_at::<C>()] == w[lock_at::<C>()]
                &&& keeps_used::<C>(w, w2, st)
            }),
    {
        let ghost w = mem.words();
        let ghost k = oversized::<C>();
        let ghost b = st.bins[k][i];
        let ghost st1 = st.remove(k, i);
        proof {
            lemma_addresses::<C>();
            lemma_unlink::<C>(w, st, i);
            lemma_split::<C>(st1, b, need as int);
        }
        let next: u64 = mem.load(block + 8);
        mem.store(link, next);  // unlink
        let bsize: u64 = header_size(mem.load(block));
        let _ = self.split_and_free_tail(mem, block, bsize, need, Ghost(st1));
        proof {
            let w2 = mem.words();
            assert(w2.dom() =~= w.dom());
            assert forall|a: int|
                #![trigger w2[a]]
                payload_start::<C>() <= a && a + 8 <= st.bump && st.clear(a, a + 8) implies w2[a]
                == w[a] by {
                assert(outside_unlinked::<C>(st, i, a));
            }
        }
    }

    /// Allocates an oversized block of total size `need` (`> EXP_CEIL`): a
    /// first-fit search of the oversized free list, else a bump carve. A block
    /// larger than needed has its excess carved (see `split_and_free_tail`).
    /// Returns the block address (header, marked used), or `0` on exhaustion.
    pub(crate) fn alloc_oversize(
        &self,
        mem: &mut Session<C>,
        need: u64,
        Ghost(st): Ghost<HeapState>,
    ) -> (r: u64)
        requires
            old(mem).rests(false),
            !old(mem).entered(),
            valid_config::<C>(),
            represents::<C>(old(mem).words(), st),
            old(mem).words()[lock_at::<C>()] == 0,
            need > C::EXP_CEIL,
            need % C::MIN_ALIGN == 0,
        ensures
            final(mem).rests(false),
            *final(final(mem).cell()) == *final(old(mem).cell()),
            ({
                let w = old(mem).words();
                let w2 = final(mem).words();
                let (st2, taken) = take_oversized::<C>(st, need as int);
                &&& w2 == oversized_taken::<C>(w, st.bins[oversized::<C>()], need as int)
                &&& represents::<C>(w2, st2)
                &&& w2[lock_at::<C>()] == 0
                &&& r == block_addr(taken)
                &&& taken is None ==> w2 == w
                &&& taken matches Some(b) ==> w2[b.addr] == header_word(b.size, false)
                &&& keeps_used::<C>(w, w2, st)
            }),
    {
        let ghost w = mem.words();
        let ghost list = st.bins[oversized::<C>()];
        let ghost i = first_fit(list, need as int, 0);
        let ghost (st2, taken) = take_oversized::<C>(st, need as int);
        proof {
            lemma_addresses::<C>();
            lemma_bin_counts::<C>();
            lemma_bin_of::<C>(need as int);
            lemma_first_fit(list, need as int, 0);
            lemma_take_oversized::<C>(st, need as int);
        }
        self.lock(mem);
        let ghost w1 = mem.words();
        proof {
            lemma_store_outside::<C>(w, st, lock_at::<C>(), 1);
            lemma_list_nodes::<C>(w1, st);
        }
        let (link, chosen) = self.find_fit(mem, need, Ghost(list));
        let block: u64 = if chosen != 0 {
            self.take_fit(mem, link, chosen, need, Ghost(st), Ghost(i));
            chosen
        } else {
            // Bump a fresh block, aligned to EXP_CEIL; free the resulting gap.
            let fresh: u64 = self.carve_fresh(mem, C::EXP_CEIL, need, Ghost(st));
            if fresh != 0 {
                let ghost w2 = mem.words();
                proof {
                    lemma_block_words::<C>(w2, st2, taken->Some_0);
                }
                mem.store(fresh, pack(need, USED));
                proof {
                    lemma_store_outside::<C>(
                        w2,
                        st2,
                        taken->Some_0.addr,
                        header_word(need as int, false),
                    );
                }
            }
            fresh
        };
        let ghost w4 = mem.words();
        self.unlock(mem);
        proof {
            lemma_store_outside::<C>(w4, st2, lock_at::<C>(), 0);
            assert(mem.words().dom() =~= w.dom());
            if taken is Some {
                lemma_block_words::<C>(w4, st2, taken->Some_0);
                if i < list.len() {
                    lemma_cut_locked::<C>(w, st, i, need as int);
                    assert(mem.words() =~= oversized_taken::<C>(w, list, need as int));
                } else {
                    lemma_bumped_locked::<C>(w, taken->Some_0);
                    assert(mem.words() =~= oversized_taken::<C>(w, list, need as int));
                }
            } else {
                assert(mem.words() =~= w);
            }
        }
        block
    }
}

} // verus!
