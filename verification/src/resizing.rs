//! Resizing blocks: in place where the block is large enough, else by moving.

use crate::allocator::{lemma_payload, CadAlloc};
use crate::atomic::Atomics;
use crate::carving::lemma_aligned_size;
use crate::classes::{block_exact, need_of, request_size};
use crate::config::{lemma_config_logs, valid_config, Config};
use crate::effects::{carries_over, lemma_found, lemma_store_payload, reallocs, smaller, word_from};
use crate::header::header_size;
use crate::invariants::{lemma_need, lemma_placed, lemma_split};
use crate::memory::{
    block_at, in_use, keeps_block, lemma_addresses, lemma_block_words, lemma_state_unique,
    lemma_store_outside, lock_at, prepared, represents, state_of,
};
use crate::session::Session;
use crate::slice::Slice;
use crate::state::{allocated, apart, payload_start, split, Block};
use crate::words::{copied, cut, freed_in, lemma_cut_under_lock};
use vstd::prelude::*;

verus! {

impl<C: Config> CadAlloc<C> {
    /// Resizes `block` to hold at least `new_size` payload bytes, `MIN_ALIGN`-
    /// aligned, returning a [`Slice`] over the result (possibly the same address,
    /// possibly moved), or the null slice on failure.
    ///
    /// Follows C `realloc` conventions: reallocating the null slice is
    /// equivalent to [`allocate`](CadAlloc::allocate), and on failure the
    /// block is left untouched (not freed). Because blocks are never
    /// coalesced, growth beyond the current block relocates: a fresh block is
    /// allocated, the payload is copied, and the old block is freed. Shrinking
    /// stays in place, splitting off the tail only when the leftover is worth it
    /// (the `SPLIT_MIN` / `CARVE_MAX` rule, so with the default `SPLIT_MIN` a
    /// shrink within the fixed classes just keeps the block and its slack).
    pub fn realloc(&self, mem: &mut C::Atomics, block: Slice, new_size: u64) -> (r: Slice)
        requires
            valid_config::<C>(),
            prepared::<C>(old(mem).words()),
            block.ptr != 0 ==> block.ptr >= C::MIN_ALIGN && in_use::<C>(
                old(mem).words(),
                block_at::<C>(old(mem).words(), block.ptr as int),
            ),
        ensures
            reallocs::<C>(
                old(mem).words(),
                final(mem).words(),
                block.ptr as int,
                new_size as int,
                r,
            ),
    {
        if block.is_null() {
            return self.allocate(mem, new_size);
        }
        let ghost w = mem.words();
        let ghost st = state_of::<C>(w);
        let ghost b = block_at::<C>(w, block.ptr as int);
        proof {
            lemma_config_logs::<C>();
            lemma_block_words::<C>(w, st, b);
            lemma_placed::<C>(b);
            lemma_payload::<C>(b);
            lemma_need::<C>(new_size as int);
        }
        let hdr: u64 = block.ptr - C::MIN_ALIGN;
        let cur_size: u64 = header_size(self.load(mem, hdr));
        let target: u64 = match Self::request_block_size(new_size) {
            Some(total) => total,
            None => {
                proof {
                    lemma_unchanged::<C>(w);
                }
                return Slice::null();
            },
        };
        if cur_size >= target {
            // Fits in place. Carve the excess only when it clears SPLIT_MIN;
            // otherwise avoid the lock and keep the block whole.
            if cur_size - target < C::SPLIT_MIN {
                proof {
                    lemma_unchanged::<C>(w);
                }
                return Slice::new(block.ptr, cur_size - C::MIN_ALIGN);
            }
            let alloc_size: u64 = self.shrink(mem, hdr, cur_size, target);
            proof {
                lemma_found::<C>(mem.words(), Block { addr: b.addr, size: alloc_size as int });
            }
            return Slice::new(block.ptr, alloc_size - C::MIN_ALIGN);
        }
        self.grow(mem, block, cur_size, new_size)
    }

    /// Moves a block in use to one with room for `new_size` payload bytes.
    fn grow(&self, mem: &mut C::Atomics, block: Slice, cur_size: u64, new_size: u64) -> (r: Slice)
        requires
            valid_config::<C>(),
            prepared::<C>(old(mem).words()),
            block.ptr != 0,
            ({
                let b = block_at::<C>(old(mem).words(), block.ptr as int);
                &&& in_use::<C>(old(mem).words(), b)
                &&& cur_size == b.size
                &&& b.size < request_size::<C>(new_size as int)
                &&& need_of::<C>(new_size as int) <= u64::MAX
            }),
        ensures
            reallocs::<C>(
                old(mem).words(),
                final(mem).words(),
                block.ptr as int,
                new_size as int,
                r,
            ),
    {
        let ghost w = mem.words();
        let ghost st = state_of::<C>(w);
        let ghost b = block_at::<C>(w, block.ptr as int);
        proof {
            lemma_placed::<C>(b);
        }
        // Allocate first so a failure leaves the block valid.
        let dst: Slice = self.allocate(mem, new_size);
        let ghost w1 = mem.words();
        proof {
            assert(keeps_block::<C>(w, w1, b));
        }
        let r: Slice = self.relocate(mem, block, cur_size - C::MIN_ALIGN, dst);
        proof {
            if dst.ptr != 0 {
                let d = allocated::<C>(st, new_size as int).1->Some_0;
                lemma_moved::<C>(w, w1, mem.words(), b, d);
                lemma_found::<C>(mem.words(), d);
            }
        }
        r
    }

    /// Carves the excess of a block in use beyond `need`, under the refill lock,
    /// and returns the size that the block keeps.
    fn shrink(&self, mem: &mut C::Atomics, block: u64, bsize: u64, need: u64) -> (r: u64)
        requires
            valid_config::<C>(),
            prepared::<C>(old(mem).words()),
            in_use::<C>(old(mem).words(), Block { addr: block as int, size: bsize as int }),
            0 < need <= bsize,
            need % C::MIN_ALIGN == 0,
            block_exact::<C>(need as int),
        ensures
            ({
                let w = old(mem).words();
                let w2 = final(mem).words();
                let b = Block { addr: block as int, size: bsize as int };
                let (st2, size) = split::<C>(state_of::<C>(w), b, need as int);
                &&& r == size
                &&& need <= size <= bsize
                &&& prepared::<C>(w2)
                &&& state_of::<C>(w2) == st2
                &&& in_use::<C>(w2, Block { addr: b.addr, size })
                &&& w2 == cut::<C>(w, b, need as int)
                &&& forall|a: int|
                    #![trigger w2[a]]
                    b.addr + 8 <= a && a + 8 <= b.addr + size ==> w2[a] == w[a]
                &&& forall|c: Block| #[trigger]
                    in_use::<C>(w, c) && apart(b, c) ==> keeps_block::<C>(w, w2, c)
            }),
    {
        let ghost w = mem.words();
        let ghost st = state_of::<C>(w);
        let ghost b = Block { addr: block as int, size: bsize as int };
        let ghost (st2, size) = split::<C>(st, b, need as int);
        proof {
            lemma_addresses::<C>();
            lemma_placed::<C>(b);
            lemma_split::<C>(st, b, need as int);
            lemma_store_outside::<C>(w, st, lock_at::<C>(), 1);
        }
        let mut session = Session::<C>::open(mem);
        self.lock(&mut session);
        let r: u64 = self.split_and_free_tail(&mut session, block, bsize, need, Ghost(st));
        let ghost w1 = session.words();
        self.unlock(&mut session);
        session.close();
        proof {
            let w2 = mem.words();
            lemma_store_outside::<C>(w1, st2, lock_at::<C>(), 0);
            lemma_cut_under_lock::<C>(w, b, need as int);
            assert(represents::<C>(w2, st2));
            lemma_state_unique::<C>(w2, st2);
            assert forall|c: Block| #[trigger]
                in_use::<C>(w, c) && apart(b, c) implies keeps_block::<C>(w, w2, c) by {
                lemma_placed::<C>(c);
                assert(st.clear(c.addr, c.end()));
                assert(st2.clear(c.addr, c.end()));
                assert(st2.holds::<C>(c));
                assert(w2[c.addr] == w[c.addr]);
            }
        }
        r
    }

    /// Copies the first `count` words from `src` on to `dst` on, which lies in
    /// the payload of the block `d`.
    fn copy_words(
        &self,
        mem: &mut C::Atomics,
        src: u64,
        dst: u64,
        count: u64,
        Ghost(b): Ghost<Block>,
        Ghost(d): Ghost<Block>,
    )
        requires
            valid_config::<C>(),
            prepared::<C>(old(mem).words()),
            in_use::<C>(old(mem).words(), b),
            in_use::<C>(old(mem).words(), d),
            apart(b, d),
            src % 8 == 0,
            dst % 8 == 0,
            b.addr + 8 <= src,
            src + 8 * count <= b.end(),
            d.addr + 8 <= dst,
            dst + 8 * count <= d.end(),
        ensures
            prepared::<C>(final(mem).words()),
            state_of::<C>(final(mem).words()) == state_of::<C>(old(mem).words()),
            final(mem).words() == copied(old(mem).words(), src as int, dst as int, count as int),
            final(mem).words().dom() == old(mem).words().dom(),
            carries_over(
                old(mem).words(),
                src as int,
                final(mem).words(),
                dst as int,
                8 * count,
            ),
            forall|a: int|
                #![trigger final(mem).words()[a]]
                a < dst || dst + 8 * count <= a ==> final(mem).words()[a] == old(mem).words()[a],
    {
        let ghost w = mem.words();
        let ghost st = state_of::<C>(w);
        proof {
            lemma_addresses::<C>();
        }
        let mut i: u64 = 0;
        while i < count
            invariant
                valid_config::<C>(),
                i <= count,
                represents::<C>(w, st),
                represents::<C>(mem.words(), st),
                mem.words()[lock_at::<C>()] == 0,
                lock_at::<C>() < payload_start::<C>(),
                mem.words().dom() == w.dom(),
                st.holds::<C>(b),
                st.holds::<C>(d),
                apart(b, d),
                src % 8 == 0,
                dst % 8 == 0,
                b.addr + 8 <= src,
                src + 8 * count <= b.end(),
                d.addr + 8 <= dst,
                dst + 8 * count <= d.end(),
                mem.words() == copied(w, src as int, dst as int, i as int),
                carries_over(w, src as int, mem.words(), dst as int, 8 * i),
                forall|a: int|
                    #![trigger mem.words()[a]]
                    a < dst || dst + 8 * i <= a ==> mem.words()[a] == w[a],
            decreases count - i,
        {
            let ghost w1 = mem.words();
            proof {
                lemma_addresses::<C>();
                assert(w1.contains_key(src + 8 * i));
                assert(w1.contains_key(dst + 8 * i));
            }
            let word: u64 = self.load(mem, src + 8 * i);
            self.store(mem, dst + 8 * i, word);
            proof {
                let w2 = mem.words();
                lemma_store_payload::<C>(w1, st, d, dst + 8 * i, word);
                assert(w2.dom() =~= w.dom());
                assert(w1[src + 8 * i] == w[src + 8 * i]);
                assert forall|j: int| 0 <= j && 8 * j + 8 <= 8 * (i + 1) implies #[trigger] word_from(
                    w2,
                    dst as int,
                    j,
                ) == word_from(w, src as int, j) by {
                    if j < i {
                        assert(word_from(w1, dst as int, j) == word_from(w, src as int, j));
                    }
                }
            }
            i = i + 1;
        }
        proof {
            lemma_state_unique::<C>(w, st);
            lemma_state_unique::<C>(mem.words(), st);
        }
    }

    /// Copies `src`'s first `src_usable` payload bytes into `dst`, frees `src`,
    /// and returns `dst`: the tail of the relocating path. A null `dst`
    /// (allocation failed) leaves `src` untouched and returns the null slice,
    /// per C `realloc`.
    #[verifier::rlimit(30)]
    fn relocate(&self, mem: &mut C::Atomics, src: Slice, src_usable: u64, dst: Slice) -> (r: Slice)
        requires
            valid_config::<C>(),
            prepared::<C>(old(mem).words()),
            dst.ptr != 0 ==> {
                let b = Block { addr: src.ptr - C::MIN_ALIGN, size: src_usable + C::MIN_ALIGN };
                let d = Block { addr: dst.ptr - C::MIN_ALIGN, size: dst.len + C::MIN_ALIGN };
                &&& in_use::<C>(old(mem).words(), b)
                &&& in_use::<C>(old(mem).words(), d)
                &&& apart(b, d)
            },
        ensures
            dst.ptr == 0 ==> r == (Slice { ptr: 0, len: 0 }) && final(mem).words() == old(
                mem,
            ).words(),
            dst.ptr != 0 ==> {
                let w = old(mem).words();
                let w2 = final(mem).words();
                let b = Block { addr: src.ptr - C::MIN_ALIGN, size: src_usable + C::MIN_ALIGN };
                let d = Block { addr: dst.ptr - C::MIN_ALIGN, size: dst.len + C::MIN_ALIGN };
                let len = smaller(src_usable as int, dst.len as int);
                &&& r == dst
                &&& w2 == freed_in::<C>(copied(w, src.ptr as int, dst.ptr as int, len / 8), b)
                &&& prepared::<C>(w2)
                &&& state_of::<C>(w2) == state_of::<C>(w).push::<C>(b)
                &&& in_use::<C>(w2, d)
                &&& forall|a: int|
                    #![trigger w2[a]]
                    dst.ptr + len <= a && a + 8 <= d.end() ==> w2[a] == w[a]
                &&& carries_over(
                    w,
                    src.ptr as int,
                    w2,
                    dst.ptr as int,
                    len,
                )
                &&& forall|c: Block| #[trigger]
                    in_use::<C>(w, c) && apart(b, c) && apart(d, c) ==> keeps_block::<C>(w, w2, c)
            },
    {
        if dst.is_null() {
            return Slice::null();
        }
        let ghost w = mem.words();
        let ghost st = state_of::<C>(w);
        let ghost b = Block { addr: src.ptr - C::MIN_ALIGN, size: src_usable + C::MIN_ALIGN };
        let ghost d = Block { addr: dst.ptr - C::MIN_ALIGN, size: dst.len + C::MIN_ALIGN };
        proof {
            lemma_config_logs::<C>();
            lemma_block_words::<C>(w, st, b);
            lemma_block_words::<C>(w, st, d);
            lemma_payload::<C>(b);
            lemma_payload::<C>(d);
            lemma_placed::<C>(b);
            lemma_placed::<C>(d);
            lemma_aligned_size::<C>(src.ptr as int);
            lemma_aligned_size::<C>(dst.ptr as int);
        }
        let copy: u64 = if src_usable < dst.len {
            src_usable
        } else {
            dst.len
        };
        self.copy_words(mem, src.ptr, dst.ptr, copy / 8, Ghost(b), Ghost(d));
        let ghost w1 = mem.words();
        proof {
            lemma_copied::<C>(w, w1, b, d, copy as int);
            lemma_block_words::<C>(w1, st, b);
        }
        self.free(mem, src);
        proof {
            lemma_copy_kept::<C>(w, w1, mem.words(), b, d, copy as int);
            let w2 = mem.words();
            assert(keeps_block::<C>(w1, w2, d));
            assert forall|a: int|
                #![trigger w2[a]]
                dst.ptr + copy <= a && a + 8 <= d.end() implies w2[a] == w[a] by {
                assert(w2[a] == w1[a]);
            }
        }
        dst
    }
}

/// Blocks in use keep their contents where no word changes.
proof fn lemma_unchanged<C: Config>(w: Map<int, u64>)
    ensures
        forall|c: Block| #[trigger] in_use::<C>(w, c) ==> keeps_block::<C>(w, w, c),
{
}

/// Copying into the payload of `d` leaves every block in use.
proof fn lemma_copied<C: Config>(
    w: Map<int, u64>,
    w1: Map<int, u64>,
    b: Block,
    d: Block,
    len: int,
)
    requires
        valid_config::<C>(),
        prepared::<C>(w1),
        in_use::<C>(w, b),
        in_use::<C>(w, d),
        apart(b, d),
        state_of::<C>(w1) == state_of::<C>(w),
        0 <= len <= d.size - C::MIN_ALIGN,
        forall|a: int|
            #![trigger w1[a]]
            a < d.addr + C::MIN_ALIGN || d.addr + C::MIN_ALIGN + len <= a ==> w1[a] == w[a],
    ensures
        in_use::<C>(w1, b),
        in_use::<C>(w1, d),
        block_at::<C>(w1, b.addr + C::MIN_ALIGN) == b,
        forall|c: Block| #[trigger] in_use::<C>(w, c) && apart(d, c) ==> keeps_block::<C>(w, w1, c),
{
    lemma_config_logs::<C>();
    lemma_placed::<C>(b);
    lemma_placed::<C>(d);
    assert(w1[b.addr] == w[b.addr]);
    assert(w1[d.addr] == w[d.addr]);
    lemma_aligned_size::<C>(b.size);
    assert forall|c: Block| #[trigger] in_use::<C>(w, c) && apart(d, c) implies keeps_block::<C>(
        w,
        w1,
        c,
    ) by {
        lemma_placed::<C>(c);
        assert(w1[c.addr] == w[c.addr]);
    }
}

/// Freeing `b` after its contents were copied to `d` keeps the copy, and what the
/// other blocks hold.
proof fn lemma_copy_kept<C: Config>(
    w: Map<int, u64>,
    w1: Map<int, u64>,
    w2: Map<int, u64>,
    b: Block,
    d: Block,
    len: int,
)
    requires
        valid_config::<C>(),
        in_use::<C>(w1, d),
        apart(b, d),
        0 <= len <= d.size - C::MIN_ALIGN,
        forall|c: Block| #[trigger]
            in_use::<C>(w, c) && apart(d, c) ==> keeps_block::<C>(w, w1, c),
        forall|c: Block| #[trigger]
            in_use::<C>(w1, c) && apart(b, c) ==> keeps_block::<C>(w1, w2, c),
        carries_over(w, b.addr + C::MIN_ALIGN, w1, d.addr + C::MIN_ALIGN, 8 * (len / 8)),
    ensures
        in_use::<C>(w2, d),
        carries_over(w, b.addr + C::MIN_ALIGN, w2, d.addr + C::MIN_ALIGN, len),
        forall|c: Block| #[trigger]
            in_use::<C>(w, c) && apart(b, c) && apart(d, c) ==> keeps_block::<C>(w, w2, c),
{
    let from = b.addr + C::MIN_ALIGN;
    let to = d.addr + C::MIN_ALIGN;
    assert(keeps_block::<C>(w1, w2, d));
    assert forall|i: int| 0 <= i && 8 * i + 8 <= len implies #[trigger] word_from(w2, to, i)
        == word_from(w, from, i) by {
        assert(word_from(w1, to, i) == word_from(w, from, i));
        assert(w2[to + 8 * i] == w1[to + 8 * i]);
    }
    assert forall|c: Block| #[trigger]
        in_use::<C>(w, c) && apart(b, c) && apart(d, c) implies keeps_block::<C>(w, w2, c) by {
        assert(keeps_block::<C>(w, w1, c));
        assert(keeps_block::<C>(w1, w2, c));
        assert forall|a: int| #![trigger w2[a]] c.addr <= a && a + 8 <= c.end() implies w2[a]
            == w[a] by {
            assert(w1[a] == w[a]);
        }
    }
}

/// Allocating `d`, copying the contents of `b` to it and freeing `b`: the contents
/// carry over, and the other blocks in use keep theirs.
proof fn lemma_moved<C: Config>(
    w: Map<int, u64>,
    w1: Map<int, u64>,
    w2: Map<int, u64>,
    b: Block,
    d: Block,
)
    requires
        valid_config::<C>(),
        in_use::<C>(w, b),
        forall|c: Block| #[trigger]
            in_use::<C>(w, c) ==> keeps_block::<C>(w, w1, c) && apart(d, c),
        forall|c: Block| #[trigger]
            in_use::<C>(w1, c) && apart(b, c) && apart(d, c) ==> keeps_block::<C>(w1, w2, c),
        carries_over(
            w1,
            b.addr + C::MIN_ALIGN,
            w2,
            d.addr + C::MIN_ALIGN,
            smaller(b.size, d.size) - C::MIN_ALIGN,
        ),
    ensures
        forall|c: Block| #[trigger]
            in_use::<C>(w, c) && apart(b, c) ==> keeps_block::<C>(w, w2, c) && apart(d, c),
        carries_over(
            w,
            b.addr + C::MIN_ALIGN,
            w2,
            d.addr + C::MIN_ALIGN,
            smaller(b.size, d.size) - C::MIN_ALIGN,
        ),
{
    let from = b.addr + C::MIN_ALIGN;
    let to = d.addr + C::MIN_ALIGN;
    assert forall|c: Block| #[trigger] in_use::<C>(w, c) && apart(b, c) implies keeps_block::<C>(
        w,
        w2,
        c,
    ) && apart(d, c) by {
        assert(keeps_block::<C>(w, w1, c));
        assert(keeps_block::<C>(w1, w2, c));
        assert forall|a: int| #![trigger w2[a]] c.addr <= a && a + 8 <= c.end() implies w2[a]
            == w[a] by {
            assert(w1[a] == w[a]);
        }
    }
    assert(keeps_block::<C>(w, w1, b));
    assert forall|i: int|
        0 <= i && 8 * i + 8 <= smaller(b.size, d.size) - C::MIN_ALIGN implies #[trigger] word_from(
        w2,
        to,
        i,
    ) == word_from(w, from, i) by {
        assert(word_from(w2, to, i) == word_from(w1, from, i));
        assert(w1[from + 8 * i] == w[from + 8 * i]);
    }
}

} // verus!
