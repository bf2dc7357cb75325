//! Serving a program's global allocator.
//!
//! The methods here take and return plain addresses, as a global allocator does,
//! and a request comes with the alignment it demands.
//!
//! # You must call [`init`](CadAlloc::init) first
//!
//! A global allocator is used the moment anything allocates, and
//! [`init`](CadAlloc::init), which stamps the heap and positions the bump pointer,
//! is **not** run automatically. Call it once, from a single thread, before the
//! first allocation. Allocating before that fails (returns null).
//!
//! # Alignment
//!
//! Payloads are aligned to `MIN_ALIGN` (always `>= 16`), and nothing stronger is
//! promised. A request that demands `align > MIN_ALIGN` therefore **cannot be
//! satisfied and returns null**. Raise `MIN_ALIGN` in the configuration to widen
//! the ceiling if such requests matter.

use crate::allocator::{lemma_payload, CadAlloc};
use crate::atomic::Atomics;
use crate::bits::exp2;
use crate::carving::lemma_aligned_size;
use crate::config::{lemma_config_logs, stable_region, valid_config, Config};
use crate::effects::{
    allocs, freeable, frees, hands_out, lemma_found, lemma_store_payload, payload_of, reallocs,
};
use crate::invariants::lemma_placed;
use crate::memory::{
    block_at, fingerprint_at, in_use, keeps_block, lemma_addresses, lemma_block_words,
    lemma_state_unique, lock_at, magic_at, prepared, represents, stamped, state_of,
};
use crate::slice::Slice;
use crate::state::{allocated, apart, payload_start, reallocated, Block};
use crate::words::{
    cleared, lemma_cleared, lemma_words_zeroed, lemma_zeroed_outside, lemma_zeroes_bytes,
    words_allocated, words_zeroed, zeroed, zeroes_bytes,
};
use vstd::arithmetic::power2::lemma_pow2_pos;
use vstd::prelude::*;

verus! {

/// The heap can be asked for memory: its stamp can be read, and a heap that
/// carries the stamp is prepared.
pub open spec fn servable<C: Config>(w: Map<int, u64>) -> bool {
    &&& stable_region::<C>()
    &&& fingerprint_at::<C>() <= u64::MAX
    &&& w.contains_key(magic_at::<C>())
    &&& w.contains_key(fingerprint_at::<C>())
    &&& stamped::<C>(w) ==> prepared::<C>(w)
}

/// The slice that a request for `size` bytes, aligned to `align`, is answered
/// with: null where the alignment cannot be met or the heap is not initialized.
pub open spec fn served<C: Config>(w: Map<int, u64>, size: int, align: int) -> Slice {
    if align > C::MIN_ALIGN || !stamped::<C>(w) {
        Slice { ptr: 0, len: 0 }
    } else {
        payload_of::<C>(allocated::<C>(state_of::<C>(w), size).1)
    }
}

/// The slice over what the memory at `ptr` is resized to.
pub open spec fn resized<C: Config>(w: Map<int, u64>, ptr: int, size: int) -> Slice {
    if ptr == 0 {
        payload_of::<C>(allocated::<C>(state_of::<C>(w), size).1)
    } else {
        payload_of::<C>(
            reallocated::<C>(state_of::<C>(w), block_at::<C>(w, ptr), size).1,
        )
    }
}

/// The words that hold the first `size` payload bytes of a block lie in it.
proof fn lemma_span<C: Config>(w: Map<int, u64>, b: Block, size: int)
    requires
        valid_config::<C>(),
        prepared::<C>(w),
        in_use::<C>(w, b),
        0 <= size <= b.size - C::MIN_ALIGN,
    ensures
        (b.addr + C::MIN_ALIGN) % 8 == 0,
        b.addr + 8 <= b.addr + C::MIN_ALIGN,
        b.addr + C::MIN_ALIGN + 8 * ((size + 7) / 8) <= b.end() <= u64::MAX,
{
    lemma_config_logs::<C>();
    lemma_placed::<C>(b);
    lemma_block_words::<C>(w, state_of::<C>(w), b);
    lemma_payload::<C>(b);
    lemma_aligned_size::<C>(b.addr + C::MIN_ALIGN);
    lemma_aligned_size::<C>(C::MIN_ALIGN as int);
}

/// Zeroing the first payload bytes of a block leaves it in use, and the others as they
/// were.
proof fn lemma_zeroed<C: Config>(w: Map<int, u64>, size: int, b: Block)
    requires
        valid_config::<C>(),
        prepared::<C>(w),
        in_use::<C>(w, b),
        0 <= size <= b.size - C::MIN_ALIGN,
        state_of::<C>(zeroed(w, b.addr + C::MIN_ALIGN, size)) == state_of::<C>(w),
    ensures
        ({
            let w2 = zeroed(w, b.addr + C::MIN_ALIGN, size);
            &&& in_use::<C>(w2, b)
            &&& forall|c: Block| #[trigger]
                in_use::<C>(w, c) && apart(b, c) ==> keeps_block::<C>(w, w2, c)
        }),
{
    let ptr = b.addr + C::MIN_ALIGN;
    let w2 = zeroed(w, ptr, size);
    lemma_span::<C>(w, b, size);
    lemma_zeroed_outside(w, ptr, size, b.addr);
    assert forall|c: Block| #[trigger] in_use::<C>(w, c) && apart(b, c) implies keeps_block::<C>(
        w,
        w2,
        c,
    ) by {
        lemma_placed::<C>(c);
        assert forall|a: int| #![trigger w2[a]] c.addr <= a && a + 8 <= c.end() implies w2[a]
            == w[a] by {
            lemma_zeroed_outside(w, ptr, size, a);
        }
        assert(w2[c.addr] == w[c.addr]);
    }
}

/// Blocks that keep their contents twice keep them.
proof fn lemma_keeps_twice<C: Config>(
    w: Map<int, u64>,
    w1: Map<int, u64>,
    w2: Map<int, u64>,
    b: Block,
)
    requires
        forall|c: Block| #[trigger]
            in_use::<C>(w, c) ==> keeps_block::<C>(w, w1, c) && apart(b, c),
        forall|c: Block| #[trigger]
            in_use::<C>(w1, c) && apart(b, c) ==> keeps_block::<C>(w1, w2, c),
    ensures
        forall|c: Block| #[trigger]
            in_use::<C>(w, c) ==> keeps_block::<C>(w, w2, c) && apart(b, c),
{
    assert forall|c: Block| #[trigger] in_use::<C>(w, c) implies keeps_block::<C>(w, w2, c)
        && apart(b, c) by {
        assert(keeps_block::<C>(w, w1, c));
        assert(keeps_block::<C>(w1, w2, c));
        assert forall|a: int| #![trigger w2[a]] c.addr <= a && a + 8 <= c.end() implies w2[a]
            == w[a] by {
            assert(w1[a] == w[a]);
        }
    }
}

impl<C: Config> CadAlloc<C> {
    /// Allocates `size` bytes aligned to `align`, returning their address, or `0`
    /// on failure.
    pub fn global_alloc(&self, mem: &mut C::Atomics, size: u64, align: u64) -> (r: u64)
        requires
            valid_config::<C>(),
            servable::<C>(old(mem).words()),
        ensures
            r == served::<C>(old(mem).words(), size as int, align as int).ptr,
            align > C::MIN_ALIGN || !stamped::<C>(old(mem).words()) ==> final(mem).words() == old(
                mem,
            ).words(),
            align <= C::MIN_ALIGN && stamped::<C>(old(mem).words()) ==> allocs::<C>(
                old(mem).words(),
                final(mem).words(),
                size as int,
                served::<C>(old(mem).words(), size as int, align as int),
            ),
    {
        // Only `MIN_ALIGN` is guaranteed; stronger alignment is unsatisfiable.
        if align > C::MIN_ALIGN {
            return 0;
        }
        if self.verify(mem).is_err() {
            return 0;
        }
        self.allocate(mem, size).ptr
    }

    /// Allocates `size` zeroed bytes aligned to `align`, returning their address,
    /// or `0` on failure. No other byte of the block is written.
    pub fn global_alloc_zeroed(&self, mem: &mut C::Atomics, size: u64, align: u64) -> (r: u64)
        requires
            valid_config::<C>(),
            servable::<C>(old(mem).words()),
        ensures
            r == served::<C>(old(mem).words(), size as int, align as int).ptr,
            r == 0 ==> final(mem).words() == old(mem).words(),
            r != 0 ==> {
                let w = old(mem).words();
                let w2 = final(mem).words();
                let (st2, taken) = allocated::<C>(state_of::<C>(w), size as int);
                let b = taken->Some_0;
                let w1 = words_allocated::<C>(w, size as int);
                &&& taken is Some
                &&& w2 == zeroed(w1, r as int, size as int)
                &&& zeroes_bytes(w1, w2, r as int, size as int)
                &&& prepared::<C>(w2)
                &&& state_of::<C>(w2) == st2
                &&& hands_out::<C>(
                    w2,
                    b,
                    size as int,
                    served::<C>(w, size as int, align as int),
                )
                &&& forall|c: Block| #[trigger]
                    in_use::<C>(w, c) ==> keeps_block::<C>(w, w2, c) && apart(b, c)
            },
    {
        let ghost w = mem.words();
        let r: u64 = self.global_alloc(mem, size, align);
        if r == 0 {
            return 0;
        }
        let ghost w1 = mem.words();
        let ghost b = allocated::<C>(state_of::<C>(w), size as int).1->Some_0;
        self.zero_payload(mem, r, size, Ghost(b));
        proof {
            lemma_span::<C>(w1, b, size as int);
            lemma_zeroed::<C>(w1, size as int, b);
            lemma_zeroes_bytes(w1, r as int, size as int);
            lemma_keeps_twice::<C>(w, w1, mem.words(), b);
            lemma_found::<C>(mem.words(), b);
        }
        r
    }

    /// Zeroes the first `size` payload bytes of the block `b`.
    fn zero_payload(&self, mem: &mut C::Atomics, ptr: u64, size: u64, Ghost(b): Ghost<Block>)
        requires
            valid_config::<C>(),
            prepared::<C>(old(mem).words()),
            in_use::<C>(old(mem).words(), b),
            ptr == b.addr + C::MIN_ALIGN,
            size <= b.size - C::MIN_ALIGN,
        ensures
            prepared::<C>(final(mem).words()),
            state_of::<C>(final(mem).words()) == state_of::<C>(old(mem).words()),
            final(mem).words() == zeroed(old(mem).words(), ptr as int, size as int),
    {
        let ghost w = mem.words();
        proof {
            lemma_span::<C>(w, b, size as int);
        }
        self.zero_words(mem, ptr, size / 8, Ghost(b));
        if size % 8 != 0 {
            proof {
                lemma_words_zeroed(w, ptr as int, (size / 8) as int, ptr + 8 * (size / 8));
            }
            self.clear_bytes(mem, ptr + 8 * (size / 8), size % 8, Ghost(b));
        }
    }

    /// Zeroes the first `n` bytes of the word at `addr`, which lies in the payload of
    /// the block `b`, and leaves its other bytes.
    fn clear_bytes(&self, mem: &mut C::Atomics, addr: u64, n: u64, Ghost(b): Ghost<Block>)
        requires
            valid_config::<C>(),
            prepared::<C>(old(mem).words()),
            state_of::<C>(old(mem).words()).holds::<C>(b),
            addr % 8 == 0,
            b.addr + 8 <= addr,
            addr + 8 <= b.end(),
            n < 8,
        ensures
            prepared::<C>(final(mem).words()),
            state_of::<C>(final(mem).words()) == state_of::<C>(old(mem).words()),
            final(mem).words() == old(mem).words().insert(
                addr as int,
                cleared(old(mem).words()[addr as int], n as int),
            ),
    {
        let ghost w = mem.words();
        let ghost st = state_of::<C>(w);
        proof {
            lemma_addresses::<C>();
            assert(w.contains_key(addr as int));
            lemma_cleared(w[addr as int], n as int, 0);
            lemma_pow2_pos((8 * n) as nat);
            lemma_store_payload::<C>(w, st, b, addr as int, cleared(w[addr as int], n as int));
        }
        let word: u64 = mem.atomic_load(addr);
        mem.atomic_store(addr, word - word % exp2(8 * n));
        proof {
            lemma_state_unique::<C>(mem.words(), st);
        }
    }

    /// Zeroes `count` words from `ptr` on, which lie in the payload of the block
    /// `b`.
    fn zero_words(&self, mem: &mut C::Atomics, ptr: u64, count: u64, Ghost(b): Ghost<Block>)
        requires
            valid_config::<C>(),
            prepared::<C>(old(mem).words()),
            in_use::<C>(old(mem).words(), b),
            ptr % 8 == 0,
            b.addr + 8 <= ptr,
            ptr + 8 * count <= b.end(),
        ensures
            prepared::<C>(final(mem).words()),
            state_of::<C>(final(mem).words()) == state_of::<C>(old(mem).words()),
            final(mem).words() == words_zeroed(old(mem).words(), ptr as int, count as int),
    {
        let ghost w = mem.words();
        let ghost st = state_of::<C>(w);
        proof {
            lemma_addresses::<C>();
        }
        let mut i: u64 = 0;
        while i < count
            invariant
                valid_config::<C>(),
                i <= count,
                represents::<C>(mem.words(), st),
                mem.words()[lock_at::<C>()] == 0,
                lock_at::<C>() < payload_start::<C>(),
                st.holds::<C>(b),
                ptr % 8 == 0,
                b.addr + 8 <= ptr,
                ptr + 8 * count <= b.end(),
                mem.words() == words_zeroed(w, ptr as int, i as int),
            decreases count - i,
        {
            let ghost w1 = mem.words();
            proof {
                lemma_addresses::<C>();
                assert(w1.contains_key(ptr + 8 * i));
                lemma_store_payload::<C>(w1, st, b, ptr + 8 * i, 0);
            }
            mem.atomic_store(ptr + 8 * i, 0);
            i = i + 1;
        }
        proof {
            lemma_state_unique::<C>(mem.words(), st);
        }
    }

    /// Frees the memory at `ptr`, an address handed out by this allocator. Null is
    /// left alone.
    pub fn global_dealloc(&self, mem: &mut C::Atomics, ptr: u64)
        requires
            valid_config::<C>(),
            ptr != 0 ==> prepared::<C>(old(mem).words()),
            freeable::<C>(old(mem).words(), ptr as int),
        ensures
            frees::<C>(old(mem).words(), final(mem).words(), ptr as int),
    {
        if ptr == 0 {
            return;
        }
        // `free` reads the block's true size from its header and ignores the
        // slice length.
        self.free(mem, Slice::new(ptr, 0));
    }

    /// Resizes the memory at `ptr`, of which `size` bytes were asked for, to
    /// `new_size` bytes, returning its address then, or `0` on failure, which
    /// leaves `ptr` valid.
    pub fn global_realloc(&self, mem: &mut C::Atomics, ptr: u64, size: u64, new_size: u64) -> (r:
        u64)
        requires
            valid_config::<C>(),
            prepared::<C>(old(mem).words()),
            ptr != 0 ==> ptr >= C::MIN_ALIGN && in_use::<C>(
                old(mem).words(),
                block_at::<C>(old(mem).words(), ptr as int),
            ),
        ensures
            r == resized::<C>(old(mem).words(), ptr as int, new_size as int).ptr,
            reallocs::<C>(
                old(mem).words(),
                final(mem).words(),
                ptr as int,
                new_size as int,
                resized::<C>(old(mem).words(), ptr as int, new_size as int),
            ),
    {
        self.realloc(mem, Slice::new(ptr, size), new_size).ptr
    }
}

} // verus!
