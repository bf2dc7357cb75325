//! What the public operations do to the words of a prepared heap.
//!
//! The state functions of [`state`](crate::state) say which blocks are free
//! afterwards; here it is said of the words: what is returned, and what stays as
//! it was.

use crate::classes::{bin_of, oversized, request_size};
use crate::config::{bin_total, valid_config, Config};
use crate::header::{header_word, FREE};
use crate::invariants::{lemma_placed, serves};
use crate::memory::{
    block_at, head_at, in_use, keeps_block, keeps_used, lemma_block_words, lemma_state_unique,
    lemma_store_outside, prepared, represents, retagged, same_outside, state_of,
};
use crate::slice::Slice;
use crate::state::{allocated, apart, reallocated, Block, HeapState};
use crate::words::{words_allocated, words_freed, words_reallocated};
use vstd::prelude::*;

verus! {

/// The slice over the payload of a block; the null slice for none.
pub open spec fn payload_of<C: Config>(b: Option<Block>) -> Slice {
    match b {
        Some(b) => Slice {
            ptr: (b.addr + C::MIN_ALIGN) as u64,
            len: (b.size - C::MIN_ALIGN) as u64,
        },
        None => Slice { ptr: 0, len: 0 },
    }
}

/// The slice over the payload of `b` is a proper one, with room for `size` bytes.
pub open spec fn hands_out<C: Config>(w: Map<int, u64>, b: Block, size: int, r: Slice) -> bool {
    &&& in_use::<C>(w, b)
    &&& r.ptr == b.addr + C::MIN_ALIGN
    &&& r.len == b.size - C::MIN_ALIGN
    &&& r.ptr != 0
    &&& r.ptr % C::MIN_ALIGN == 0
    &&& r.len >= size
    &&& block_at::<C>(w, r.ptr as int) == b
    &&& freeable::<C>(w, r.ptr as int)
}

/// `r` is the outcome of a request for `size` bytes that changed the words from
/// `w` to `w2`.
///
/// A block that is handed out overlaps no block in use, and all of those keep
/// their contents. If there is none, no word has changed.
pub open spec fn allocs<C: Config>(w: Map<int, u64>, w2: Map<int, u64>, size: int, r: Slice)
    -> bool {
    let (st2, taken) = allocated::<C>(state_of::<C>(w), size);
    &&& w2 == words_allocated::<C>(w, size)
    &&& prepared::<C>(w2)
    &&& state_of::<C>(w2) == st2
    &&& r == payload_of::<C>(taken)
    &&& taken is None ==> w2 == w
    &&& taken matches Some(b) ==> hands_out::<C>(w2, b, size, r)
    &&& forall|c: Block| #[trigger]
        in_use::<C>(w, c) ==> keeps_block::<C>(w, w2, c) && (taken matches Some(b) ==> apart(b, c))
}

/// `ptr` may be freed: it is null, or has a header that says free, or is the
/// payload of a block in use.
pub open spec fn freeable<C: Config>(w: Map<int, u64>, ptr: int) -> bool {
    ptr != 0 ==> {
        &&& ptr >= C::MIN_ALIGN
        &&& w.contains_key(ptr - C::MIN_ALIGN)
        &&& w[ptr - C::MIN_ALIGN] % 16 == FREE || in_use::<C>(w, block_at::<C>(w, ptr))
    }
}

/// Linking `b` in front of its bin changed the heads of the bins from those in `w` to
/// those in `w2`: its bin's names `b`, with the tag of a fixed bin advanced, and every
/// other is as it was.
pub open spec fn heads_name<C: Config>(w: Map<int, u64>, w2: Map<int, u64>, b: Block) -> bool {
    let k = bin_of::<C>(b.size);
    &&& w2[head_at::<C>(k)] == (if k < oversized::<C>() {
        retagged::<C>(w[head_at::<C>(k)] as int, b.addr)
    } else {
        b.addr
    })
    &&& forall|j: int|
        0 <= j < bin_total::<C>() && j != k ==> w2[#[trigger] head_at::<C>(j)] == w[head_at::<C>(
            j,
        )]
}

/// Freeing `ptr` changed the words from `w` to `w2`.
///
/// Null and what is free already are left alone. A block in use goes to the front
/// of its bin; only its header words and the head of the bin change.
pub open spec fn frees<C: Config>(w: Map<int, u64>, w2: Map<int, u64>, ptr: int) -> bool {
    if ptr == 0 || w[ptr - C::MIN_ALIGN] % 16 == FREE {
        w2 == w
    } else {
        let b = block_at::<C>(w, ptr);
        &&& w2 == words_freed::<C>(w, ptr)
        &&& prepared::<C>(w2)
        &&& state_of::<C>(w2) == state_of::<C>(w).push::<C>(b)
        &&& w2[b.addr] == header_word(b.size, true)
        &&& heads_name::<C>(w, w2, b)
        &&& same_outside::<C>(w, w2, b.addr, b.addr + 16)
        &&& forall|c: Block| #[trigger]
            in_use::<C>(w, c) && apart(b, c) ==> keeps_block::<C>(w, w2, c)
    }
}

/// The `i`th word from `ptr` on.
pub open spec fn word_from(w: Map<int, u64>, ptr: int, i: int) -> u64 {
    w[ptr + 8 * i]
}

/// The first `len` bytes from `to` on are now what those from `from` on were.
pub open spec fn carries_over(
    w: Map<int, u64>,
    from: int,
    w2: Map<int, u64>,
    to: int,
    len: int,
) -> bool {
    forall|i: int| 0 <= i && 8 * i + 8 <= len ==> #[trigger] word_from(w2, to, i) == word_from(
        w,
        from,
        i,
    )
}

/// The smaller of the two.
pub open spec fn smaller(a: int, b: int) -> int {
    if a < b {
        a
    } else {
        b
    }
}

/// `r` is the outcome of resizing the block at `ptr` to `size` bytes, which
/// changed the words from `w` to `w2`.
///
/// The contents carry over, as far as there is room for them; every other block
/// in use keeps its own, and is not overlapped. If the request fails, or the block
/// fits with an excess below `SPLIT_MIN`, no word has changed.
pub open spec fn reallocs<C: Config>(
    w: Map<int, u64>,
    w2: Map<int, u64>,
    ptr: int,
    size: int,
    r: Slice,
) -> bool {
    if ptr == 0 {
        allocs::<C>(w, w2, size, r)
    } else {
        let b = block_at::<C>(w, ptr);
        let (st2, taken) = reallocated::<C>(state_of::<C>(w), b, size);
        &&& w2 == words_reallocated::<C>(w, ptr, size)
        &&& prepared::<C>(w2)
        &&& state_of::<C>(w2) == st2
        &&& r == payload_of::<C>(taken)
        &&& taken is None ==> w2 == w
        &&& request_size::<C>(size) <= b.size && b.size - request_size::<C>(size) < C::SPLIT_MIN
            ==> w2 == w
        &&& taken matches Some(d) ==> {
            &&& hands_out::<C>(w2, d, size, r)
            &&& carries_over(w, ptr, w2, r.ptr as int, smaller(b.size, d.size) - C::MIN_ALIGN)
        }
        &&& forall|c: Block| #[trigger]
            in_use::<C>(w, c) && apart(b, c) ==> keeps_block::<C>(w, w2, c) && (
            taken matches Some(d) ==> apart(d, c))
    }
}

// --- lemmas -----------------------------------------------------------------

/// What allocation keeps.
pub proof fn lemma_keeps_blocks<C: Config>(
    w: Map<int, u64>,
    w2: Map<int, u64>,
    st: HeapState,
    st2: HeapState,
    taken: Option<Block>,
    total: int,
)
    requires
        valid_config::<C>(),
        represents::<C>(w, st),
        represents::<C>(w2, st2),
        serves::<C>(st, st2, taken, total),
        keeps_used::<C>(w, w2, st),
    ensures
        state_of::<C>(w) == st,
        state_of::<C>(w2) == st2,
        forall|c: Block| #[trigger]
            in_use::<C>(w, c) ==> keeps_block::<C>(w, w2, c) && (taken matches Some(b) ==> apart(
                b,
                c,
            )),
{
    lemma_state_unique::<C>(w, st);
    lemma_state_unique::<C>(w2, st2);
    assert forall|c: Block| #[trigger] in_use::<C>(w, c) implies keeps_block::<C>(w, w2, c) && (
    taken matches Some(b) ==> apart(b, c)) by {
        assert(st.holds::<C>(c));
        lemma_placed::<C>(c);
        assert forall|a: int| #![trigger w2[a]] c.addr <= a && a + 8 <= c.end() implies w2[a]
            == w[a] by {
            assert(st.clear(a, a + 8));
        }
        assert(w2[c.addr] == w[c.addr]);
    }
}

/// The header of a block in use leads back to the block.
pub proof fn lemma_found<C: Config>(w: Map<int, u64>, b: Block)
    requires
        valid_config::<C>(),
        prepared::<C>(w),
        in_use::<C>(w, b),
    ensures
        block_at::<C>(w, b.addr + C::MIN_ALIGN) == b,
        w[b.addr] % 16 != FREE,
        b.addr > 0,
        freeable::<C>(w, b.addr + C::MIN_ALIGN),
{
    let st = state_of::<C>(w);
    assert(represents::<C>(w, st));
    lemma_block_words::<C>(w, st, b);
}

/// A store into the payload of a block in use leaves the state as it is.
pub proof fn lemma_store_payload<C: Config>(
    w: Map<int, u64>,
    st: HeapState,
    b: Block,
    a: int,
    v: u64,
)
    requires
        valid_config::<C>(),
        represents::<C>(w, st),
        st.holds::<C>(b),
        b.addr <= a,
        a + 8 <= b.end(),
    ensures
        represents::<C>(w.insert(a, v), st),
{
    crate::memory::lemma_addresses::<C>();
    assert(st.clear(a, a + 8));
    lemma_store_outside::<C>(w, st, a, v);
}

} // verus!
