//! How a heap state is laid out in words.
//!
//! ```text
//! heap_base ->  [ "CADALLOC" ][ config fingerprint ]
//!               [ bin head 0 ][ bin head 1 ] … [ bin head NUM_BINS-1 ]
//!               [ bump ][ lock ]
//!   (aligned) -> [ ------------------ payload area ------------------ ]
//! heap_base + heap_size ->
//! ```
//!
//! Each bin head is the address of the first free block in that bin (`0` when
//! empty), with the low alignment bits of a fixed bin's head used as a tag that
//! every update advances. A block begins with a `MIN_ALIGN`-byte header region:
//! its first word is the header, its second holds the address of the next free
//! block while the block is free.

use crate::bits::lemma_aligned_down;
use crate::classes::{bin_of, oversized};
use crate::config::{
    bin_total, lemma_bin_counts, lemma_config_logs, region_base, region_end, valid_config, Config,
};
use crate::fingerprint::{fingerprint, MAGIC};
use crate::header::header_word;
use crate::invariants::{lemma_placed, lemma_push};
use crate::state::{
    apart, lemma_geometry, payload_start, placed, valid_region, Block, HeapState, META_BYTES,
};
use vstd::prelude::*;

verus! {

/// Address of the marker word.
pub open spec fn magic_at<C: Config>() -> int {
    region_base::<C>()
}

/// Address of the configuration-fingerprint word.
pub open spec fn fingerprint_at<C: Config>() -> int {
    region_base::<C>() + 8
}

/// Address of the head word of bin `k`.
pub open spec fn head_at<C: Config>(k: int) -> int {
    region_base::<C>() + META_BYTES + k * 8
}

/// Address of the bump-pointer word.
pub open spec fn bump_at<C: Config>() -> int {
    region_base::<C>() + META_BYTES + bin_total::<C>() * 8
}

/// Address of the refill-lock word.
pub open spec fn lock_at<C: Config>() -> int {
    region_base::<C>() + META_BYTES + (bin_total::<C>() + 1) * 8
}

/// Every aligned word of the managed region is there.
pub open spec fn covers_region<C: Config>(w: Map<int, u64>) -> bool {
    forall|a: int|
        region_base::<C>() <= a && a + 8 <= region_end::<C>() && a % 8 == 0 ==> #[trigger]
            w.contains_key(a)
}

/// The address in the head word of a fixed bin, without its tag.
pub open spec fn front_of<C: Config>(head: int) -> int {
    head - head % C::MIN_ALIGN as int
}

/// The head word of a fixed bin that takes the place of `head`: it names the block
/// at `addr`, and its tag is advanced.
pub open spec fn retagged<C: Config>(head: int, addr: int) -> int {
    addr + (head + 1) % C::MIN_ALIGN as int
}

/// The address of the first free block of bin `k`, or `0`: its head without the
/// tag that the head of a fixed bin carries.
pub open spec fn list_start<C: Config>(w: Map<int, u64>, k: int) -> int {
    let head = w[head_at::<C>(k)];
    if k < oversized::<C>() {
        front_of::<C>(head as int)
    } else {
        head as int
    }
}

/// The address of the first block of a list, or `0`.
pub open spec fn front(list: Seq<Block>) -> int {
    if list.len() > 0 {
        list[0].addr
    } else {
        0
    }
}

/// The address of the block after position `i` of a list, or `0`.
#[verifier::opaque]
pub open spec fn after(list: Seq<Block>, i: int) -> int {
    if i + 1 < list.len() {
        list[i + 1].addr
    } else {
        0
    }
}

/// Every bin head names the first block of its list.
pub open spec fn heads_ok<C: Config>(w: Map<int, u64>, st: HeapState) -> bool {
    forall|k: int|
        0 <= k < bin_total::<C>() ==> #[trigger] list_start::<C>(w, k) == front(st.bins[k])
}

/// Every free block has a header that says so and a link to the next.
pub open spec fn links_ok<C: Config>(w: Map<int, u64>, st: HeapState) -> bool {
    forall|k: int, i: int|
        st.has(k, i) ==> {
            let b = #[trigger] st.bins[k][i];
            &&& w[b.addr] == header_word(b.size, true)
            &&& w[b.addr + 8] == after(st.bins[k], i)
        }
}

/// The refill lock is taken.
pub open spec fn lock_held<C: Config>(w: Map<int, u64>) -> bool {
    w[lock_at::<C>()] == 1
}

/// The words hold the free lists of the state.
pub open spec fn linked<C: Config>(w: Map<int, u64>, st: HeapState) -> bool {
    &&& covers_region::<C>(w)
    &&& heads_ok::<C>(w, st)
    &&& links_ok::<C>(w, st)
}

/// The heap carries the marker and the fingerprint of the configuration.
pub open spec fn stamped<C: Config>(w: Map<int, u64>) -> bool {
    &&& w[magic_at::<C>()] == MAGIC
    &&& w[fingerprint_at::<C>()] == fingerprint::<C>()
}

/// The words are those of a heap in state `st`.
pub open spec fn represents<C: Config>(w: Map<int, u64>, st: HeapState) -> bool {
    &&& valid_region::<C>()
    &&& st.wf::<C>()
    &&& linked::<C>(w, st)
    &&& w[bump_at::<C>()] == st.bump
    &&& stamped::<C>(w)
}

/// The address of a word of the control region that is in use.
pub open spec fn control_word<C: Config>(a: int) -> bool {
    magic_at::<C>() <= a <= lock_at::<C>() && (a - magic_at::<C>()) % 8 == 0
}

/// Preparing a heap changed the words from `w` to `w2`: the control words are the
/// stamp, a zero for every bin head, the start of the payload area for the bump
/// pointer, and a zero for the lock. No other word has changed.
pub open spec fn initialized<C: Config>(w: Map<int, u64>, w2: Map<int, u64>) -> bool {
    &&& w2.dom() == w.dom()
    &&& stamped::<C>(w2)
    &&& forall|k: int| 0 <= k < bin_total::<C>() ==> w2[#[trigger] head_at::<C>(k)] == 0
    &&& w2[bump_at::<C>()] == payload_start::<C>()
    &&& w2[lock_at::<C>()] == 0
    &&& forall|a: int| #![trigger w2[a]] !control_word::<C>(a) ==> w2[a] == w[a]
}

/// The words are those of a heap that is ready for use: initialized, and not
/// locked.
pub open spec fn prepared<C: Config>(w: Map<int, u64>) -> bool {
    &&& exists|st: HeapState| represents::<C>(w, st)
    &&& w[lock_at::<C>()] == 0
}

/// The state that the words of a prepared heap represent.
pub open spec fn state_of<C: Config>(w: Map<int, u64>) -> HeapState {
    choose|st: HeapState| represents::<C>(w, st)
}

/// The block is one that was handed out: in use by its header, and clear of every
/// free block.
pub open spec fn in_use<C: Config>(w: Map<int, u64>, b: Block) -> bool {
    &&& state_of::<C>(w).holds::<C>(b)
    &&& w[b.addr] == header_word(b.size, false)
}

/// The block whose payload starts at `ptr`, as its header has it.
pub open spec fn block_at<C: Config>(w: Map<int, u64>, ptr: int) -> Block {
    let addr = ptr - C::MIN_ALIGN;
    Block { addr, size: w[addr] - w[addr] % 16 }
}

/// The block is still in use, and none of its words has changed.
pub open spec fn keeps_block<C: Config>(w: Map<int, u64>, w2: Map<int, u64>, b: Block) -> bool {
    &&& in_use::<C>(w2, b)
    &&& forall|a: int| #![trigger w2[a]] b.addr <= a && a + 8 <= b.end() ==> w2[a] == w[a]
}

/// No word of the payload area outside `[lo, hi)`, and no control word but the
/// bin heads, has changed.
pub open spec fn same_outside<C: Config>(
    w: Map<int, u64>,
    w2: Map<int, u64>,
    lo: int,
    hi: int,
) -> bool {
    &&& w2.dom() == w.dom()
    &&& forall|a: int|
        #![trigger w2[a]]
        (payload_start::<C>() <= a && (a + 8 <= lo || hi <= a)) || (a < payload_start::<C>() && (a
            < head_at::<C>(0) || bump_at::<C>() <= a)) ==> w2[a] == w[a]
}

/// No word in the carved part of the payload area has changed that was clear of
/// the free blocks.
pub open spec fn keeps_used<C: Config>(
    w: Map<int, u64>,
    w2: Map<int, u64>,
    st: HeapState,
) -> bool {
    &&& w2.dom() == w.dom()
    &&& forall|a: int|
        #![trigger w2[a]]
        payload_start::<C>() <= a && a + 8 <= st.bump && st.clear(a, a + 8) ==> w2[a] == w[a]
}

// --- addresses --------------------------------------------------------------

/// A tagged address still fits a word.
pub proof fn lemma_retagged_fits<C: Config>(head: int, addr: int)
    requires
        valid_config::<C>(),
        0 <= head,
        0 <= addr <= u64::MAX,
        addr % C::MIN_ALIGN as int == 0,
    ensures
        0 <= retagged::<C>(head, addr) <= u64::MAX,
{
    let m = C::MIN_ALIGN as int;
    vstd::arithmetic::div_mod::lemma_mod_bound(head + 1, m);
    crate::bits::lemma_or_is_add(addr as u64, ((head + 1) % m) as u64, C::MIN_ALIGN);
}

/// Where the control words are.
pub proof fn lemma_addresses<C: Config>()
    requires
        valid_config::<C>(),
        valid_region::<C>(),
    ensures
        region_base::<C>() % 8 == 0,
        0 <= region_base::<C>(),
        magic_at::<C>() < fingerprint_at::<C>() < head_at::<C>(0) <= head_at::<C>(oversized::<C>())
            < bump_at::<C>() < lock_at::<C>(),
        lock_at::<C>() + 8 <= payload_start::<C>() <= region_end::<C>(),
        head_at::<C>(0) == region_base::<C>() + 16,
        bump_at::<C>() % 8 == 0,
        lock_at::<C>() % 8 == 0,
        payload_start::<C>() % 8 == 0,
        payload_start::<C>() > 0,
        forall|k: int|
            0 <= k < bin_total::<C>() ==> {
                &&& head_at::<C>(0) <= #[trigger] head_at::<C>(k)
                &&& head_at::<C>(k) + 8 <= bump_at::<C>()
                &&& head_at::<C>(k) % 8 == 0
            },
{
    lemma_config_logs::<C>();
    lemma_bin_counts::<C>();
    lemma_geometry::<C>();
    crate::bits::lemma_pow2_values();
    crate::bits::lemma_pow2_is_pow2(3);
    lemma_aligned_down(region_base::<C>(), C::MIN_ALIGN as int, 8);
    lemma_aligned_down(payload_start::<C>(), C::MIN_ALIGN as int, 8);
}

/// The header words of a block in the payload area are words of the region.
pub proof fn lemma_block_words<C: Config>(w: Map<int, u64>, st: HeapState, b: Block)
    requires
        valid_config::<C>(),
        valid_region::<C>(),
        covers_region::<C>(w),
        placed::<C>(b),
        payload_start::<C>() <= b.addr,
        b.end() <= region_end::<C>(),
    ensures
        b.addr % 8 == 0,
        b.addr % 16 == 0,
        b.size % 16 == 0,
        b.size >= 16,
        w.contains_key(b.addr),
        w.contains_key(b.addr + 8),
        0 < b.addr,
        b.addr + 16 <= b.end() <= u64::MAX,
        header_word(b.size, true) == b.size + 1,
        header_word(b.size, false) == b.size,
{
    lemma_addresses::<C>();
    lemma_config_logs::<C>();
    lemma_placed::<C>(b);
    crate::bits::lemma_pow2_values();
    crate::bits::lemma_pow2_is_pow2(3);
    crate::bits::lemma_pow2_is_pow2(4);
    lemma_aligned_down(b.addr, C::MIN_ALIGN as int, 8);
    lemma_aligned_down(b.addr, C::MIN_ALIGN as int, 16);
    lemma_aligned_down(b.size, C::MIN_ALIGN as int, 16);
}

// --- the state is determined by the words -----------------------------------

/// Lists that start at the same address and are linked by the same words are the
/// same.
proof fn lemma_same_list<C: Config>(
    w: Map<int, u64>,
    s: HeapState,
    t: HeapState,
    k: int,
    i: int,
)
    requires
        valid_config::<C>(),
        represents::<C>(w, s),
        represents::<C>(w, t),
        0 <= k < bin_total::<C>(),
        0 <= i,
    ensures
        i < s.bins[k].len() <==> i < t.bins[k].len(),
        i < s.bins[k].len() ==> s.bins[k][i] == t.bins[k][i],
    decreases i,
{
    lemma_addresses::<C>();
    if i == 0 {
        assert(list_start::<C>(w, k) == front(s.bins[k]));
        assert(list_start::<C>(w, k) == front(t.bins[k]));
    } else {
        lemma_same_list::<C>(w, s, t, k, i - 1);
        reveal(after);
        if i - 1 < s.bins[k].len() {
            assert(s.has(k, i - 1));
            assert(t.has(k, i - 1));
            assert(w[s.bins[k][i - 1].addr + 8] == after(s.bins[k], i - 1));
            assert(w[t.bins[k][i - 1].addr + 8] == after(t.bins[k], i - 1));
        }
    }
    if i < s.bins[k].len() {
        assert(s.has(k, i));
        lemma_block_words::<C>(w, s, s.bins[k][i]);
    }
    if i < t.bins[k].len() {
        assert(t.has(k, i));
        lemma_block_words::<C>(w, t, t.bins[k][i]);
    }
}

/// The words of a heap represent one state only.
pub proof fn lemma_state_unique<C: Config>(w: Map<int, u64>, st: HeapState)
    requires
        valid_config::<C>(),
        represents::<C>(w, st),
    ensures
        state_of::<C>(w) == st,
        represents::<C>(w, state_of::<C>(w)),
{
    let s = state_of::<C>(w);
    assert(represents::<C>(w, s));
    assert forall|k: int| 0 <= k < bin_total::<C>() implies s.bins[k] == st.bins[k] by {
        let n = s.bins[k].len() as int;
        lemma_same_list::<C>(w, s, st, k, n);
        if n > 0 {
            lemma_same_list::<C>(w, s, st, k, n - 1);
        }
        assert forall|i: int| 0 <= i < n implies s.bins[k][i] == st.bins[k][i] by {
            lemma_same_list::<C>(w, s, st, k, i);
        }
        let m = st.bins[k].len() as int;
        lemma_same_list::<C>(w, s, st, k, m);
        assert(s.bins[k] =~= st.bins[k]);
    }
    assert(s.bins =~= st.bins);
    assert(s == st);
}

// --- what single stores do --------------------------------------------------

/// A store that touches no bin head and no header of a free block leaves the
/// lists as they are.
pub proof fn lemma_store_outside<C: Config>(w: Map<int, u64>, st: HeapState, a: int, v: u64)
    requires
        valid_config::<C>(),
        valid_region::<C>(),
        st.wf::<C>(),
        linked::<C>(w, st),
        a < payload_start::<C>() ==> a < head_at::<C>(0) || bump_at::<C>() <= a,
        a >= payload_start::<C>() ==> st.clear(a, a + 8),
    ensures
        linked::<C>(w.insert(a, v), st),
{
    let w2 = w.insert(a, v);
    lemma_addresses::<C>();
    assert forall|k: int| 0 <= k < bin_total::<C>() implies #[trigger] list_start::<C>(w2, k)
        == front(st.bins[k]) by {
        assert(list_start::<C>(w, k) == front(st.bins[k]));
        assert(head_at::<C>(k) != a);
    }
    assert forall|k: int, i: int| st.has(k, i) implies {
        let b = #[trigger] st.bins[k][i];
        &&& w2[b.addr] == header_word(b.size, true)
        &&& w2[b.addr + 8] == after(st.bins[k], i)
    } by {
        let b = st.bins[k][i];
        lemma_block_words::<C>(w, st, b);
        assert(b.end() <= a || a + 8 <= b.addr || a < payload_start::<C>());
    }
}

/// Linking a block in front of its bin makes it the first, and no other bin's.
proof fn lemma_link_heads<C: Config>(w: Map<int, u64>, st: HeapState, b: Block, u: u64, v: u64)
    requires
        valid_config::<C>(),
        valid_region::<C>(),
        st.wf::<C>(),
        heads_ok::<C>(w, st),
        placed::<C>(b),
        payload_start::<C>() <= b.addr,
        ({
            let k = bin_of::<C>(b.size);
            if k < oversized::<C>() {
                v - v % C::MIN_ALIGN == b.addr
            } else {
                v == b.addr
            }
        }),
    ensures
        heads_ok::<C>(
            w.insert(b.addr + 8, u).insert(head_at::<C>(bin_of::<C>(b.size)), v),
            st.push::<C>(b),
        ),
{
    let k0 = bin_of::<C>(b.size);
    let w2 = w.insert(b.addr + 8, u).insert(head_at::<C>(k0), v);
    let st2 = st.push::<C>(b);
    lemma_addresses::<C>();
    lemma_placed::<C>(b);
    assert forall|k: int| 0 <= k < bin_total::<C>() implies #[trigger] list_start::<C>(w2, k)
        == front(st2.bins[k]) by {
        assert(list_start::<C>(w, k) == front(st.bins[k]));
        assert(head_at::<C>(k) < payload_start::<C>());
    }
}

/// Linking a block in front of its bin: its second word names the block that was
/// first, and the head names it.
pub proof fn lemma_link_push<C: Config>(w: Map<int, u64>, st: HeapState, b: Block, v: u64)
    requires
        valid_config::<C>(),
        valid_region::<C>(),
        st.wf::<C>(),
        linked::<C>(w, st),
        st.holds::<C>(b),
        w[b.addr] == header_word(b.size, true),
        ({
            let k = bin_of::<C>(b.size);
            if k < oversized::<C>() {
                v - v % C::MIN_ALIGN == b.addr
            } else {
                v == b.addr
            }
        }),
    ensures
        ({
            let k = bin_of::<C>(b.size);
            linked::<C>(
                w.insert(b.addr + 8, front(st.bins[k]) as u64).insert(head_at::<C>(k), v),
                st.push::<C>(b),
            )
        }),
{
    let k0 = bin_of::<C>(b.size);
    let w1 = w.insert(b.addr + 8, front(st.bins[k0]) as u64);
    let w2 = w1.insert(head_at::<C>(k0), v);
    let st2 = st.push::<C>(b);
    lemma_addresses::<C>();
    lemma_placed::<C>(b);
    lemma_push::<C>(st, b);
    lemma_block_words::<C>(w, st, b);
    assert(st2.bins[k0] =~= seq![b] + st.bins[k0]);
    if st.bins[k0].len() > 0 {
        assert(st.has(k0, 0));
        lemma_block_words::<C>(w, st, st.bins[k0][0]);
    }
    lemma_link_heads::<C>(w, st, b, front(st.bins[k0]) as u64, v);
    assert forall|k: int, i: int| st2.has(k, i) implies {
        let c = #[trigger] st2.bins[k][i];
        &&& w2[c.addr] == header_word(c.size, true)
        &&& w2[c.addr + 8] == after(st2.bins[k], i)
    } by {
        assert(head_at::<C>(k0) < payload_start::<C>());
        if k == k0 && i == 0 {
            assert(st2.bins[k][i] == b);
            assert(after(st2.bins[k], i) == front(st.bins[k])) by {
                reveal(after);
            }
        } else {
            let p = if k == k0 { i - 1 } else { i };
            assert(st.has(k, p));
            let c = st.bins[k][p];
            assert(st2.bins[k][i] == c);
            lemma_block_words::<C>(w, st, c);
            assert(apart(b, c));
            assert(after(st2.bins[k], i) == after(st.bins[k], p)) by {
                reveal(after);
            }
        }
    }
}

/// Where a block of a list stands after another was removed, and what follows it
/// then.
proof fn lemma_after_remove(st: HeapState, k: int, i: int, l: int, j: int)
    requires
        st.has(k, i),
        st.remove(k, i).has(l, j),
    ensures
        ({
            let st2 = st.remove(k, i);
            let q = if l == k && j >= i { j + 1 } else { j };
            &&& st.has(l, q)
            &&& !(l == k && q == i)
            &&& st2.bins[l][j] == st.bins[l][q]
            &&& after(st2.bins[l], j) == (if l == k && q == i - 1 {
                after(st.bins[k], i)
            } else {
                after(st.bins[l], q)
            })
        }),
{
    reveal(after);
}

/// The head of a bin after a block was removed.
proof fn lemma_front_remove(st: HeapState, k: int, i: int, l: int)
    requires
        st.has(k, i),
        0 <= l < st.bins.len(),
    ensures
        front(st.remove(k, i).bins[l]) == (if l == k && i == 0 {
            after(st.bins[k], 0)
        } else {
            front(st.bins[l])
        }),
{
    reveal(after);
}

/// Unlinking the block at position `i` of bin `k`: the word that named it names
/// the one after it.
pub proof fn lemma_link_remove<C: Config>(w: Map<int, u64>, st: HeapState, k: int, i: int, v: u64)
    requires
        valid_config::<C>(),
        valid_region::<C>(),
        st.wf::<C>(),
        linked::<C>(w, st),
        st.has(k, i),
        i == 0 && k < oversized::<C>() ==> v - v % C::MIN_ALIGN == after(st.bins[k], i),
        i > 0 || k == oversized::<C>() ==> v == after(st.bins[k], i),
    ensures
        linked::<C>(
            w.insert(
                if i == 0 {
                    head_at::<C>(k)
                } else {
                    st.bins[k][i - 1].addr + 8
                },
                v,
            ),
            st.remove(k, i),
        ),
{
    let a = if i == 0 {
        head_at::<C>(k)
    } else {
        st.bins[k][i - 1].addr + 8
    };
    let w2 = w.insert(a, v);
    let st2 = st.remove(k, i);
    lemma_addresses::<C>();
    assert(heads_ok::<C>(w2, st2)) by {
        if i > 0 {
            assert(st.has(k, i - 1));
            lemma_block_words::<C>(w, st, st.bins[k][i - 1]);
        }
        assert forall|l: int| 0 <= l < bin_total::<C>() implies #[trigger] list_start::<C>(w2, l)
            == front(st2.bins[l]) by {
            assert(list_start::<C>(w, l) == front(st.bins[l]));
            assert(head_at::<C>(l) < payload_start::<C>());
            lemma_front_remove(st, k, i, l);
        }
    }
    assert(links_ok::<C>(w2, st2)) by {
        assert forall|l: int, j: int| st2.has(l, j) implies {
            let c = #[trigger] st2.bins[l][j];
            &&& w2[c.addr] == header_word(c.size, true)
            &&& w2[c.addr + 8] == after(st2.bins[l], j)
        } by {
            lemma_after_remove(st, k, i, l, j);
            let q = if l == k && j >= i { j + 1 } else { j };
            lemma_unlinked_word::<C>(w, st, k, i, l, q);
        }
    }
}

/// Unlinking a block leaves the header words of the other free blocks alone, but
/// for the link of its predecessor.
proof fn lemma_unlinked_word<C: Config>(
    w: Map<int, u64>,
    st: HeapState,
    k: int,
    i: int,
    l: int,
    q: int,
)
    requires
        valid_config::<C>(),
        valid_region::<C>(),
        st.wf::<C>(),
        linked::<C>(w, st),
        st.has(k, i),
        st.has(l, q),
    ensures
        ({
            let a = if i == 0 {
                head_at::<C>(k)
            } else {
                st.bins[k][i - 1].addr + 8
            };
            let c = st.bins[l][q];
            &&& a != c.addr
            &&& a == c.addr + 8 <==> l == k && q == i - 1
            &&& w[c.addr] == header_word(c.size, true)
            &&& w[c.addr + 8] == after(st.bins[l], q)
        }),
{
    lemma_addresses::<C>();
    let c = st.bins[l][q];
    lemma_block_words::<C>(w, st, c);
    if i == 0 {
        assert(head_at::<C>(k) < payload_start::<C>());
    } else {
        assert(st.has(k, i - 1));
        lemma_block_words::<C>(w, st, st.bins[k][i - 1]);
        if !(l == k && q == i - 1) {
            assert(apart(st.bins[k][i - 1], c));
        }
    }
}

} // verus!
