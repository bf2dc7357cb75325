//! What each operation writes.
//!
//! The functions here give the words of a heap after an operation from those
//! before it, word for word: the headers, the links, the heads of the bins with
//! their tags, and the bump pointer. What they make of the heap's state is said in
//! [`state`](crate::state).

use crate::bits::round_up;
use crate::classes::{
    bin_of, block_exact, carvable, class_align, class_size, lemma_bin_of, need_of, oversized,
    request_size,
};
use crate::config::{lemma_bin_counts, region_end, valid_config, Config};
use crate::effects::smaller;
use crate::header::{header_word, FREE};
use crate::memory::{
    block_at, bump_at, front_of, head_at, lemma_addresses, list_start, lock_at, retagged, state_of,
};
use crate::state::{allocated, exact_floor, first_fit, payload_start, valid_region, Block};
use vstd::arithmetic::div_mod::{
    lemma_div_basics, lemma_div_denominator, lemma_div_multiples_vanish, lemma_div_pos_is_pos,
    lemma_fundamental_div_mod, lemma_mod_bound, lemma_mod_decreases, lemma_mod_multiples_basic,
};
use vstd::arithmetic::power2::{lemma2_to64, lemma_pow2_adds, lemma_pow2_pos, pow2};
use vstd::prelude::*;

verus! {

// --- free lists -------------------------------------------------------------

/// The words after pushing a block on the stack of the fixed bin `k`: the block's
/// second word takes the address that was first, and the head takes the block's,
/// with the tag advanced.
pub open spec fn stack_pushed<C: Config>(w: Map<int, u64>, k: int, block: int) -> Map<int, u64> {
    let head = w[head_at::<C>(k)] as int;
    w.insert(block + 8, front_of::<C>(head) as u64).insert(
        head_at::<C>(k),
        retagged::<C>(head, block) as u64,
    )
}

/// The words after popping the first block off the stack of the fixed bin `k`: the
/// head takes the address in the block's second word, with the tag advanced.
pub open spec fn stack_popped<C: Config>(w: Map<int, u64>, k: int) -> Map<int, u64> {
    let head = w[head_at::<C>(k)] as int;
    w.insert(head_at::<C>(k), retagged::<C>(head, w[front_of::<C>(head) + 8] as int) as u64)
}

/// The words after linking a block in front of its bin.
pub open spec fn linked_in<C: Config>(w: Map<int, u64>, b: Block) -> Map<int, u64> {
    let k = bin_of::<C>(b.size);
    if k < oversized::<C>() {
        stack_pushed::<C>(w, k, b.addr)
    } else {
        w.insert(b.addr + 8, w[head_at::<C>(k)]).insert(head_at::<C>(k), b.addr as u64)
    }
}

/// The words after marking a block free and linking it in front of its bin.
pub open spec fn freed_in<C: Config>(w: Map<int, u64>, b: Block) -> Map<int, u64> {
    linked_in::<C>(w.insert(b.addr, header_word(b.size, true)), b)
}

/// The address of the word that names the block at position `i` of the oversized
/// list.
pub open spec fn link_addr<C: Config>(list: Seq<Block>, i: int) -> int {
    if i == 0 {
        head_at::<C>(oversized::<C>())
    } else {
        list[i - 1].addr + 8
    }
}

// --- carving ----------------------------------------------------------------

/// The words after carving `[lo, end)` into free blocks, from the top down, each
/// the largest that fits.
pub open spec fn gap_carved<C: Config>(w: Map<int, u64>, lo: int, end: int) -> Map<int, u64>
    decreases end - lo,
{
    let size = carvable::<C>(end, end - lo).0;
    if end - lo < C::MIN_ALIGN || size <= 0 || size > end - lo {
        w
    } else {
        gap_carved::<C>(freed_in::<C>(w, Block { addr: end - size, size }), lo, end - size)
    }
}

/// The words after carving the excess of the block at `addr`, which ends at `end`,
/// beyond its first `need` bytes, and where the block ends then.
pub open spec fn tail_carved<C: Config>(
    w: Map<int, u64>,
    addr: int,
    need: int,
    end: int,
    count: int,
) -> (Map<int, u64>, int)
    decreases end - addr - need,
{
    let excess = end - addr - need;
    let size = carvable::<C>(end, excess).0;
    if excess < C::MIN_ALIGN || (count >= C::CARVE_MAX && block_exact::<C>(end - addr)) || size <= 0
        || size > excess {
        (w, end)
    } else {
        tail_carved::<C>(
            freed_in::<C>(w, Block { addr: end - size, size }),
            addr,
            need,
            end - size,
            count + 1,
        )
    }
}

/// The words after cutting a block down to `need` bytes and marking it used: only
/// its header changes if the excess is below `SPLIT_MIN`.
pub open spec fn cut<C: Config>(w: Map<int, u64>, b: Block, need: int) -> Map<int, u64> {
    if b.size - need < C::SPLIT_MIN {
        w.insert(b.addr, header_word(b.size, false))
    } else {
        let (w2, end) = tail_carved::<C>(w, b.addr, need, b.end(), 0);
        w2.insert(b.addr, header_word(exact_floor::<C>(end - b.addr), false))
    }
}

// --- allocating -------------------------------------------------------------

/// The words after moving the bump pointer past a fresh block of `size` bytes at
/// `addr`, and carving the gap below it.
pub open spec fn bumped<C: Config>(w: Map<int, u64>, addr: int, size: int) -> Map<int, u64> {
    gap_carved::<C>(w, w[bump_at::<C>()] as int, addr).insert(bump_at::<C>(), (addr + size) as u64)
}

/// The words after taking a fresh block, if the region has room, and marking it
/// used.
pub open spec fn fresh_taken<C: Config>(w: Map<int, u64>, align: int, size: int) -> Map<int, u64> {
    let addr = round_up(w[bump_at::<C>()] as int, align);
    if addr + size <= region_end::<C>() {
        bumped::<C>(w, addr, size).insert(addr, header_word(size, false))
    } else {
        w
    }
}

/// The words after taking a block of the fixed bin `k`.
pub open spec fn fixed_taken<C: Config>(w: Map<int, u64>, k: int) -> Map<int, u64> {
    let first = list_start::<C>(w, k);
    if first != 0 {
        stack_popped::<C>(w, k).insert(first, header_word(class_size::<C>(k), false))
    } else {
        fresh_taken::<C>(w, class_align::<C>(k), class_size::<C>(k))
    }
}

/// The words after taking an oversized block of at least `need` bytes, where `list`
/// is the oversized list: the word that named it names the one after it.
pub open spec fn oversized_taken<C: Config>(
    w: Map<int, u64>,
    list: Seq<Block>,
    need: int,
) -> Map<int, u64> {
    let i = first_fit(list, need, 0);
    if i < list.len() {
        let b = list[i];
        cut::<C>(w.insert(link_addr::<C>(list, i), w[b.addr + 8]), b, need)
    } else {
        fresh_taken::<C>(w, C::EXP_CEIL as int, need)
    }
}

/// The words after a request for `size` bytes.
#[verifier::opaque]
pub open spec fn words_allocated<C: Config>(w: Map<int, u64>, size: int) -> Map<int, u64> {
    let need = need_of::<C>(size);
    if need > u64::MAX {
        w
    } else if need > C::EXP_CEIL {
        oversized_taken::<C>(w, state_of::<C>(w).bins[oversized::<C>()], need)
    } else {
        fixed_taken::<C>(w, bin_of::<C>(need))
    }
}

// --- freeing and resizing ---------------------------------------------------

/// The words after freeing `ptr`: the same, for null and for what is free already.
pub open spec fn words_freed<C: Config>(w: Map<int, u64>, ptr: int) -> Map<int, u64> {
    if ptr == 0 || w[ptr - C::MIN_ALIGN] % 16 == FREE {
        w
    } else {
        freed_in::<C>(w, block_at::<C>(w, ptr))
    }
}

/// The words after copying the first `count` words from `from` on to `to` on.
pub open spec fn copied(w: Map<int, u64>, from: int, to: int, count: int) -> Map<int, u64>
    decreases count,
{
    if count <= 0 {
        w
    } else {
        copied(w, from, to, count - 1).insert(to + 8 * (count - 1), w[from + 8 * (count - 1)])
    }
}

/// The words after zeroing the first `count` words from `ptr` on.
pub open spec fn words_zeroed(w: Map<int, u64>, ptr: int, count: int) -> Map<int, u64>
    decreases count,
{
    if count <= 0 {
        w
    } else {
        words_zeroed(w, ptr, count - 1).insert(ptr + 8 * (count - 1), 0)
    }
}

/// The word with its first `n` bytes zeroed. The bytes of a word are in
/// little-endian order: the first is the lowest.
pub open spec fn cleared(v: u64, n: int) -> u64 {
    (v - v as int % pow2((8 * n) as nat) as int) as u64
}

/// The words after zeroing the first `size` bytes from `ptr` on: of a last word that
/// they do not fill, the other bytes stay as they are.
pub open spec fn zeroed(w: Map<int, u64>, ptr: int, size: int) -> Map<int, u64> {
    let last = ptr + 8 * (size / 8);
    if size % 8 == 0 {
        words_zeroed(w, ptr, size / 8)
    } else {
        words_zeroed(w, ptr, size / 8).insert(last, cleared(w[last], size % 8))
    }
}

/// Byte `j` of a word.
pub open spec fn byte_of(v: u64, j: int) -> int {
    (v as int / pow2((8 * j) as nat) as int) % 256
}

/// The byte at address `a`.
pub open spec fn byte_at(w: Map<int, u64>, a: int) -> int {
    byte_of(w[a - a % 8], a % 8)
}

/// Zeroing the first `size` bytes from `ptr` on changed the words from `w` to `w2`.
pub open spec fn zeroes_bytes(w: Map<int, u64>, w2: Map<int, u64>, ptr: int, size: int) -> bool {
    forall|a: int| #[trigger]
        byte_at(w2, a) == (if ptr <= a < ptr + size {
            0
        } else {
            byte_at(w, a)
        })
}

/// The words after resizing what is at `ptr` to hold `size` bytes. A block that is
/// large enough is left alone if its excess is below `SPLIT_MIN`, and else cut down;
/// one that is not is copied, as far as it goes, to the block that is allocated, and
/// freed.
pub open spec fn words_reallocated<C: Config>(w: Map<int, u64>, ptr: int, size: int) -> Map<
    int,
    u64,
> {
    let b = block_at::<C>(w, ptr);
    let total = request_size::<C>(size);
    if ptr == 0 {
        words_allocated::<C>(w, size)
    } else if need_of::<C>(size) > u64::MAX {
        w
    } else if b.size >= total {
        if b.size - total < C::SPLIT_MIN {
            w
        } else {
            cut::<C>(w, b, total)
        }
    } else {
        match allocated::<C>(state_of::<C>(w), size).1 {
            Some(d) => freed_in::<C>(
                copied(
                    words_allocated::<C>(w, size),
                    ptr,
                    d.addr + C::MIN_ALIGN,
                    (smaller(b.size, d.size) - C::MIN_ALIGN) / 8,
                ),
                b,
            ),
            None => w,
        }
    }
}

// --- the lock word ----------------------------------------------------------

/// Freeing a block does not depend on the lock word, or change it.
proof fn lemma_lock_aside_freed<C: Config>(w: Map<int, u64>, b: Block, v: u64)
    requires
        valid_config::<C>(),
        valid_region::<C>(),
        payload_start::<C>() <= b.addr,
    ensures
        freed_in::<C>(w.insert(lock_at::<C>(), v), b) == freed_in::<C>(w, b).insert(
            lock_at::<C>(),
            v,
        ),
{
    let k = bin_of::<C>(b.size);
    lemma_addresses::<C>();
    lemma_bin_counts::<C>();
    lemma_bin_of::<C>(b.size);
    assert(head_at::<C>(k) < bump_at::<C>());
    assert(freed_in::<C>(w.insert(lock_at::<C>(), v), b) =~= freed_in::<C>(w, b).insert(
        lock_at::<C>(),
        v,
    ));
}

/// Carving a gap does not depend on the lock word, or change it.
pub proof fn lemma_lock_aside_gap<C: Config>(w: Map<int, u64>, lo: int, end: int, v: u64)
    requires
        valid_config::<C>(),
        valid_region::<C>(),
        payload_start::<C>() <= lo,
    ensures
        gap_carved::<C>(w.insert(lock_at::<C>(), v), lo, end) == gap_carved::<C>(
            w,
            lo,
            end,
        ).insert(lock_at::<C>(), v),
    decreases end - lo,
{
    let size = carvable::<C>(end, end - lo).0;
    if !(end - lo < C::MIN_ALIGN || size <= 0 || size > end - lo) {
        let b = Block { addr: end - size, size };
        lemma_lock_aside_freed::<C>(w, b, v);
        lemma_lock_aside_gap::<C>(freed_in::<C>(w, b), lo, end - size, v);
    }
}

/// Carving the excess of a block does not depend on the lock word, or change it.
proof fn lemma_lock_aside_tail<C: Config>(
    w: Map<int, u64>,
    addr: int,
    need: int,
    end: int,
    count: int,
    v: u64,
)
    requires
        valid_config::<C>(),
        valid_region::<C>(),
        payload_start::<C>() <= addr,
        0 <= need,
    ensures
        ({
            let (w2, end2) = tail_carved::<C>(w, addr, need, end, count);
            tail_carved::<C>(w.insert(lock_at::<C>(), v), addr, need, end, count) == (
                w2.insert(lock_at::<C>(), v),
                end2,
            )
        }),
    decreases end - addr - need,
{
    let excess = end - addr - need;
    let size = carvable::<C>(end, excess).0;
    if !(excess < C::MIN_ALIGN || (count >= C::CARVE_MAX && block_exact::<C>(end - addr)) || size
        <= 0 || size > excess) {
        let b = Block { addr: end - size, size };
        lemma_lock_aside_freed::<C>(w, b, v);
        lemma_lock_aside_tail::<C>(freed_in::<C>(w, b), addr, need, end - size, count + 1, v);
    }
}

/// Cutting a block down under the lock leaves the words that it would leave without.
pub proof fn lemma_cut_under_lock<C: Config>(w: Map<int, u64>, b: Block, need: int)
    requires
        valid_config::<C>(),
        valid_region::<C>(),
        w.contains_key(lock_at::<C>()),
        w[lock_at::<C>()] == 0,
        payload_start::<C>() <= b.addr,
        0 <= need,
    ensures
        cut::<C>(w.insert(lock_at::<C>(), 1), b, need).insert(lock_at::<C>(), 0) == cut::<C>(
            w,
            b,
            need,
        ),
{
    lemma_lock_aside_cut::<C>(w, b, need, 1);
    lemma_lock_aside_cut::<C>(w, b, need, 0);
    assert(w.insert(lock_at::<C>(), 0) =~= w);
    assert(cut::<C>(w.insert(lock_at::<C>(), 1), b, need).insert(lock_at::<C>(), 0) =~= cut::<C>(
        w,
        b,
        need,
    ));
}

/// Cutting a block down does not depend on the lock word, or change it.
proof fn lemma_lock_aside_cut<C: Config>(w: Map<int, u64>, b: Block, need: int, v: u64)
    requires
        valid_config::<C>(),
        valid_region::<C>(),
        payload_start::<C>() <= b.addr,
        0 <= need,
    ensures
        cut::<C>(w.insert(lock_at::<C>(), v), b, need) == cut::<C>(w, b, need).insert(
            lock_at::<C>(),
            v,
        ),
{
    lemma_addresses::<C>();
    lemma_lock_aside_tail::<C>(w, b.addr, need, b.end(), 0, v);
    assert(cut::<C>(w.insert(lock_at::<C>(), v), b, need) =~= cut::<C>(w, b, need).insert(
        lock_at::<C>(),
        v,
    ));
}

// --- zeroing ----------------------------------------------------------------

/// Clearing the first bytes of a word leaves the others.
pub proof fn lemma_cleared(v: u64, n: int, j: int)
    requires
        0 <= n < 8,
        0 <= j < 8,
    ensures
        0 <= v as int % pow2((8 * n) as nat) as int <= v,
        byte_of(cleared(v, n), j) == (if j < n {
            0
        } else {
            byte_of(v, j)
        }),
{
    let x = v as int;
    let p = pow2((8 * n) as nat) as int;
    let d = pow2((8 * j) as nat) as int;
    lemma_pow2_pos((8 * n) as nat);
    lemma_pow2_pos((8 * j) as nat);
    lemma_fundamental_div_mod(x, p);
    lemma_mod_bound(x, p);
    lemma_div_pos_is_pos(x, p);
    lemma_mod_decreases(v as nat, p as nat);
    let q = x / p;
    assert(cleared(v, n) == p * q);
    if j < n {
        let m = pow2((8 * (n - j)) as nat) as int;
        let m1 = pow2((8 * (n - j) - 8) as nat) as int;
        lemma_pow2_adds((8 * j) as nat, (8 * (n - j)) as nat);
        lemma_pow2_adds(8, (8 * (n - j) - 8) as nat);
        lemma2_to64();
        assert(p * q == d * (m * q)) by (nonlinear_arith)
            requires
                p == d * m,
        ;
        lemma_div_multiples_vanish(m * q, d);
        assert(m * q == 256 * (m1 * q)) by (nonlinear_arith)
            requires
                m == 256 * m1,
        ;
        lemma_mod_multiples_basic(m1 * q, 256);
        assert(256 * (m1 * q) == (m1 * q) * 256);
    } else {
        let m = pow2((8 * (j - n)) as nat) as int;
        lemma_pow2_pos((8 * (j - n)) as nat);
        lemma_pow2_adds((8 * n) as nat, (8 * (j - n)) as nat);
        lemma_div_denominator(p * q, p, m);
        lemma_div_denominator(x, p, m);
        lemma_div_multiples_vanish(q, p);
    }
}

/// Which words zeroing changes.
pub proof fn lemma_words_zeroed(w: Map<int, u64>, ptr: int, count: int, a: int)
    requires
        ptr % 8 == 0,
        a % 8 == 0,
        0 <= count,
    ensures
        words_zeroed(w, ptr, count)[a] == (if ptr <= a < ptr + 8 * count {
            0
        } else {
            w[a]
        }),
    decreases count,
{
    if count > 0 {
        lemma_words_zeroed(w, ptr, count - 1, a);
    }
}

/// Zeroing leaves the words beyond it alone.
pub proof fn lemma_zeroed_outside(w: Map<int, u64>, ptr: int, size: int, a: int)
    requires
        0 <= size,
        a < ptr || ptr + 8 * ((size + 7) / 8) <= a,
    ensures
        zeroed(w, ptr, size)[a] == w[a],
{
    lemma_words_zeroed_outside(w, ptr, size / 8, a);
}

proof fn lemma_words_zeroed_outside(w: Map<int, u64>, ptr: int, count: int, a: int)
    requires
        a < ptr || ptr + 8 * count <= a,
    ensures
        words_zeroed(w, ptr, count)[a] == w[a],
    decreases count,
{
    if count > 0 {
        lemma_words_zeroed_outside(w, ptr, count - 1, a);
    }
}

/// Zeroing bytes zeroes them and no others.
pub proof fn lemma_zeroes_bytes(w: Map<int, u64>, ptr: int, size: int)
    requires
        ptr % 8 == 0,
        0 <= size,
    ensures
        zeroes_bytes(w, zeroed(w, ptr, size), ptr, size),
{
    let w2 = zeroed(w, ptr, size);
    let last = ptr + 8 * (size / 8);
    assert forall|a: int| #[trigger]
        byte_at(w2, a) == (if ptr <= a < ptr + size {
            0
        } else {
            byte_at(w, a)
        }) by {
        let c = a - a % 8;
        lemma_words_zeroed(w, ptr, size / 8, c);
        if size % 8 != 0 && c == last {
            lemma_cleared(w[last], size % 8, a % 8);
        } else if w2[c] == 0 && ptr <= c < last {
            lemma_pow2_pos((8 * (a % 8)) as nat);
            lemma_div_basics(pow2((8 * (a % 8)) as nat) as int);
        }
    }
}

} // verus!
