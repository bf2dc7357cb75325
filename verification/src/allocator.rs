//! The allocator: the control region, the refill lock, and the operations that
//! prepare a heap and serve it. The free lists are in [`lists`](crate::lists), taking
//! blocks in [`carving`](crate::carving), resizing in [`resizing`](crate::resizing).
//!
//! A [`CadAlloc`] is stateless: a zero-sized marker for a [`Config`]. All mutable
//! state lives in the managed heap, in a *control region* at its base, followed
//! by the payload area blocks are carved from. The
//! [`memory`](crate::memory) module describes the layout, the
//! [`state`](crate::state) module what each operation does to it.
//!
//! Fixed size-class bins are Treiber stacks driven by compare-and-swap, with a
//! tag in the low (always-zero) alignment bits of each bin head. The bump pointer,
//! the oversized free list, and block splitting run under a single spinlock (the
//! "refill lock"). Every access to a heap word goes through the
//! [`Atomics`] backend.

use crate::atomic::{Atomics, Write};
use crate::bits::{align_up, lemma_mask, lemma_mod_add_sub};
use crate::classes::{bin_index, bin_of, lemma_bin_of, need_of, oversized, request_size};
use crate::config::{
    bin_total, heap_base_is, heap_size_is, lemma_bin_counts, lemma_config_logs, num_bins,
    region_base, region_end, region_size, stable_region, valid_config, Config,
};
use crate::effects::{allocs, freeable, frees, heads_name, lemma_keeps_blocks, payload_of};
use crate::fingerprint::{config_fingerprint, fingerprint, MAGIC};
use crate::header::{header_is_free, header_size, header_word, pack, FREE};
use crate::invariants::{lemma_allocated, lemma_need, lemma_placed, lemma_push};
use crate::memory::{
    block_at, bump_at, control_word, covers_region, fingerprint_at, front, head_at, in_use,
    initialized, keeps_block, keeps_used, lemma_addresses, lemma_block_words, lemma_retagged_fits,
    lemma_state_unique, lemma_store_outside, list_start, lock_at, lock_held, magic_at, prepared,
    represents, retagged, same_outside, stamped, state_of,
};
use crate::session::Session;
use crate::slice::Slice;
use crate::state::{
    allocated, apart, control_size, fresh_state, lemma_geometry, placed, take_fixed, take_oversized,
    valid_region, Block, META_BYTES,
};
use crate::words::{fixed_taken, freed_in, oversized_taken, words_allocated};
use core::marker::PhantomData;
use vstd::prelude::*;

verus! {

/// A `cadalloc` allocator, parameterized by a [`Config`].
///
/// The type is zero-sized: it carries no state of its own, only the `Config`
/// that fixes the size classes, heap region, and atomics backend. All state
/// lives in the managed heap, which every operation is handed.
pub struct CadAlloc<C: Config> {
    _config: PhantomData<C>,
}

/// Why [`CadAlloc::init`] could not prepare the heap.
#[derive(Clone, Copy, PartialEq, Eq, Debug, Structural)]
pub enum InitError {
    /// The heap base address is not aligned to `MIN_ALIGN`.
    MisalignedHeap,
    /// The heap is too small to hold the control region.
    HeapTooSmall,
}

/// Why [`CadAlloc::verify`] rejected a heap.
#[derive(Clone, Copy, PartialEq, Eq, Debug, Structural)]
pub enum VerifyError {
    /// The `"CADALLOC"` marker is absent: the heap was never initialized.
    BadMagic,
    /// The marker is present but the configuration fingerprint differs: the
    /// heap was laid out by a different configuration. Using it would corrupt
    /// memory.
    ConfigMismatch,
}

// --- control-region geometry ------------------------------------------------

impl<C: Config> CadAlloc<C> {
    /// The one value of the type.
    pub closed spec fn handle() -> Self {
        CadAlloc { _config: PhantomData }
    }

    /// Creates an allocator handle. Call [`init`](CadAlloc::init) once, before
    /// any allocation, to prepare the heap.
    pub fn new() -> (r: Self)
        ensures
            r == Self::handle(),
    {
        Self { _config: PhantomData }
    }

    /// Base address of the heap.
    pub(crate) fn base(&self) -> (r: u64)
        requires
            stable_region::<C>(),
        ensures
            r == region_base::<C>(),
    {
        let r: u64 = C::heap_base();
        assert(heap_base_is::<C>(r));
        r
    }

    /// Size of the heap.
    pub(crate) fn size(&self) -> (r: u64)
        requires
            stable_region::<C>(),
        ensures
            r == region_size::<C>(),
    {
        let r: u64 = C::heap_size();
        assert(heap_size_is::<C>(r));
        r
    }

    /// Address of the `"CADALLOC"` marker word.
    pub(crate) fn magic_addr(&self) -> (r: u64)
        requires
            stable_region::<C>(),
        ensures
            r == magic_at::<C>(),
    {
        self.base()
    }

    /// Address of the config-fingerprint word.
    pub(crate) fn fingerprint_addr(&self) -> (r: u64)
        requires
            stable_region::<C>(),
            fingerprint_at::<C>() <= u64::MAX,
        ensures
            r == fingerprint_at::<C>(),
    {
        self.base() + 8
    }

    /// Address of bin `k`'s head word (after the metadata words).
    pub(crate) fn bin_head(&self, k: u64) -> (r: u64)
        requires
            stable_region::<C>(),
            head_at::<C>(k as int) <= u64::MAX,
        ensures
            r == head_at::<C>(k as int),
    {
        self.base() + META_BYTES + k * 8
    }

    /// Address of the bump-pointer word.
    pub(crate) fn bump_addr(&self) -> (r: u64)
        requires
            valid_config::<C>(),
            valid_region::<C>(),
        ensures
            r == bump_at::<C>(),
    {
        proof {
            lemma_addresses::<C>();
            lemma_bin_counts::<C>();
        }
        self.base() + META_BYTES + num_bins::<C>() * 8
    }

    /// Address of the refill-lock word.
    pub(crate) fn lock_addr(&self) -> (r: u64)
        requires
            valid_config::<C>(),
            valid_region::<C>(),
        ensures
            r == lock_at::<C>(),
    {
        proof {
            lemma_addresses::<C>();
            lemma_bin_counts::<C>();
        }
        self.base() + META_BYTES + (num_bins::<C>() + 1) * 8
    }

    /// Number of bytes reserved for the control region, aligned to `MIN_ALIGN`.
    pub fn control_bytes() -> (r: u64)
        requires
            valid_config::<C>(),
        ensures
            r == control_size::<C>(),
    {
        proof {
            lemma_geometry::<C>();
            lemma_bin_counts::<C>();
        }
        align_up(META_BYTES + (num_bins::<C>() + 2) * 8, C::MIN_ALIGN)
    }

    /// One-past-the-end address of the heap.
    pub(crate) fn heap_end(&self) -> (r: u64)
        requires
            valid_region::<C>(),
        ensures
            r == region_end::<C>(),
    {
        self.base() + self.size()
    }

    // --- heap-word access ---------------------------------------------------

    pub(crate) fn load(&self, mem: &C::Atomics, addr: u64) -> (r: u64)
        requires
            mem.words().contains_key(addr as int),
        ensures
            r == mem.words()[addr as int],
    {
        mem.atomic_load(addr)
    }

    pub(crate) fn store(&self, mem: &mut C::Atomics, addr: u64, val: u64)
        requires
            old(mem).words().contains_key(addr as int),
        ensures
            final(mem).words() == old(mem).words().insert(addr as int, val),
            final(mem).spurious_failures() == old(mem).spurious_failures(),
            final(mem).last_write() == (Write::Store { addr, val }),
    {
        mem.atomic_store(addr, val)
    }

    /// Weak compare-and-swap, returning whether the store succeeded. Only valid
    /// inside a retry loop (may fail spuriously).
    pub(crate) fn cas_weak(
        &self,
        mem: &mut C::Atomics,
        addr: u64,
        current: u64,
        new: u64,
    ) -> (r: bool)
        requires
            old(mem).words().contains_key(addr as int),
        ensures
            r ==> old(mem).words()[addr as int] == current && final(mem).words() == old(
                mem,
            ).words().insert(addr as int, new),
            !r ==> final(mem).words() == old(mem).words(),
            !r && old(mem).words()[addr as int] == current ==> final(mem).spurious_failures() < old(
                mem,
            ).spurious_failures(),
            final(mem).last_write() == (Write::Swap { addr, current, new, done: r }),
    {
        mem.atomic_cas_weak(addr, current, new).1
    }

    // --- refill lock --------------------------------------------------------

    /// Takes the refill lock, which must be free: by a compare-and-swap that finds it
    /// so, however often it has to be tried.
    pub(crate) fn lock(&self, mem: &mut Session<C>)
        requires
            valid_config::<C>(),
            valid_region::<C>(),
            covers_region::<C>(old(mem).words()),
            old(mem).words()[lock_at::<C>()] == 0,
            old(mem).rests(false),
            !old(mem).entered(),
        ensures
            final(mem).words() == old(mem).words().insert(lock_at::<C>(), 1),
            lock_held::<C>(final(mem).words()),
            final(mem).rests(true),
            final(mem).last_write() == (Write::Swap {
                addr: lock_at::<C>() as u64,
                current: 0,
                new: 1,
                done: true,
            }),
            *final(final(mem).cell()) == *final(old(mem).cell()),
    {
        let addr: u64 = self.lock_addr();
        proof {
            lemma_addresses::<C>();
        }
        loop
            invariant
                addr == lock_at::<C>(),
                mem.words() == old(mem).words(),
                mem.words().contains_key(addr as int),
                mem.words()[addr as int] == 0,
                mem.rests(false),
                !mem.entered(),
                *final(mem.cell()) == *final(old(mem).cell()),
            decreases mem.spurious_failures(),
        {
            if mem.try_lock(addr) {
                return;
            }
        }
    }

    /// Releases the refill lock, which must be taken.
    pub(crate) fn unlock(&self, mem: &mut Session<C>)
        requires
            valid_config::<C>(),
            valid_region::<C>(),
            covers_region::<C>(old(mem).words()),
            lock_held::<C>(old(mem).words()),
            old(mem).rests(true),
        ensures
            final(mem).words() == old(mem).words().insert(lock_at::<C>(), 0),
            final(mem).last_write() == (Write::Store { addr: lock_at::<C>() as u64, val: 0 }),
            final(mem).rests(false),
            *final(final(mem).cell()) == *final(old(mem).cell()),
    {
        proof {
            lemma_addresses::<C>();
        }
        mem.release(self.lock_addr());
    }
}

// --- public API -------------------------------------------------------------

impl<C: Config> CadAlloc<C> {
    /// The `"CADALLOC"` marker written at the front of an initialized heap.
    pub fn magic() -> (r: u64)
        ensures
            r == MAGIC,
    {
        MAGIC
    }

    /// The fingerprint of this configuration's layout-defining constants (see
    /// [`verify`](CadAlloc::verify)).
    pub fn config_hash() -> (r: u64)
        requires
            valid_config::<C>(),
        ensures
            r == fingerprint::<C>(),
    {
        config_fingerprint::<C>()
    }

    /// Prepares the heap: stamps the `"CADALLOC"` marker and the config
    /// fingerprint, zeroes the bin heads, positions the bump pointer past the
    /// control region, and clears the lock.
    ///
    /// Must be called exactly once, from a single thread, before any
    /// allocation. Returns an [`InitError`] if the heap base is misaligned or
    /// the heap is too small to hold the control region; nothing is written then.
    pub fn init(&self, mem: &mut C::Atomics) -> (r: Result<(), InitError>)
        requires
            valid_config::<C>(),
            stable_region::<C>(),
            region_base::<C>() % C::MIN_ALIGN as int == 0 && region_size::<C>() >= control_size::<
                C,
            >() ==> region_end::<C>() <= u64::MAX && covers_region::<C>(old(mem).words()),
        ensures
            r == (if region_base::<C>() % C::MIN_ALIGN as int != 0 {
                Err::<(), InitError>(InitError::MisalignedHeap)
            } else if region_size::<C>() < control_size::<C>() {
                Err(InitError::HeapTooSmall)
            } else {
                Ok(())
            }),
            r is Err ==> final(mem).words() == old(mem).words(),
            r is Ok ==> {
                let w = old(mem).words();
                let w2 = final(mem).words();
                &&& prepared::<C>(w2)
                &&& state_of::<C>(w2) == fresh_state::<C>()
                &&& initialized::<C>(w, w2)
            },
    {
        let base: u64 = self.base();
        proof {
            lemma_config_logs::<C>();
            lemma_geometry::<C>();
            lemma_bin_counts::<C>();
            lemma_mask(base, C::MIN_ALIGN);
        }
        if base & (C::MIN_ALIGN - 1) != 0 {
            return Err(InitError::MisalignedHeap);
        }
        if self.size() < Self::control_bytes() {
            return Err(InitError::HeapTooSmall);
        }
        let ghost w = mem.words();
        proof {
            lemma_addresses::<C>();
            assert(w.contains_key(magic_at::<C>()));
        }
        self.store(mem, self.magic_addr(), MAGIC);
        self.store(mem, self.fingerprint_addr(), config_fingerprint::<C>());
        let bins: u64 = num_bins::<C>();
        let mut k: u64 = 0;
        while k < bins
            invariant
                valid_config::<C>(),
                valid_region::<C>(),
                bins == bin_total::<C>(),
                k <= bins,
                covers_region::<C>(w),
                mem.words().dom() == w.dom(),
                stamped::<C>(mem.words()),
                forall|j: int| 0 <= j < k ==> mem.words()[#[trigger] head_at::<C>(j)] == 0,
                forall|a: int|
                    #![trigger mem.words()[a]]
                    !control_word::<C>(a) ==> mem.words()[a] == w[a],
            decreases bins - k,
        {
            proof {
                lemma_addresses::<C>();
                assert(head_at::<C>(k as int) % 8 == 0);
                assert(w.contains_key(head_at::<C>(k as int)));
            }
            self.store(mem, self.bin_head(k), 0);
            proof {
                assert(mem.words().dom() =~= w.dom());
            }
            k = k + 1;
        }
        self.store(mem, self.bump_addr(), base + Self::control_bytes());
        self.store(mem, self.lock_addr(), 0);
        proof {
            let w2 = mem.words();
            let st = fresh_state::<C>();
            assert(w2.dom() =~= w.dom());
            assert forall|j: int| 0 <= j < bin_total::<C>() implies #[trigger] list_start::<C>(
                w2,
                j,
            ) == front(st.bins[j]) by {
                assert(w2[head_at::<C>(j)] == 0);
                vstd::arithmetic::div_mod::lemma_small_mod(0, C::MIN_ALIGN as nat);
            }
            assert(represents::<C>(w2, st));
            lemma_state_unique::<C>(w2, st);
        }
        Ok(())
    }

    /// Checks that the heap was initialized by an allocator with a matching
    /// configuration.
    ///
    /// Reads the marker and fingerprint words at the front of the heap and
    /// compares them against [`magic`](CadAlloc::magic) and this
    /// configuration's [`config_hash`](CadAlloc::config_hash). **Call this
    /// before touching a heap that some *other* build may have prepared** (for
    /// example a persistent or shared-memory region): running an allocator over
    /// a heap laid out by a different configuration corrupts memory silently,
    /// and this is the cheap guard against it. It reads only two words and does
    /// not need the lock.
    pub fn verify(&self, mem: &C::Atomics) -> (r: Result<(), VerifyError>)
        requires
            valid_config::<C>(),
            stable_region::<C>(),
            fingerprint_at::<C>() <= u64::MAX,
            mem.words().contains_key(magic_at::<C>()),
            mem.words().contains_key(fingerprint_at::<C>()),
        ensures
            r == (if mem.words()[magic_at::<C>()] != MAGIC {
                Err::<(), VerifyError>(VerifyError::BadMagic)
            } else if mem.words()[fingerprint_at::<C>()] != fingerprint::<C>() {
                Err(VerifyError::ConfigMismatch)
            } else {
                Ok(())
            }),
    {
        if self.load(mem, self.magic_addr()) != MAGIC {
            return Err(VerifyError::BadMagic);
        }
        if self.load(mem, self.fingerprint_addr()) != config_fingerprint::<C>() {
            return Err(VerifyError::ConfigMismatch);
        }
        Ok(())
    }

    /// Allocates a block with at least `size` payload bytes, `MIN_ALIGN`-aligned,
    /// returning a [`Slice`] over its payload, or the null slice on failure.
    ///
    /// The returned slice's `len` is the block's full usable capacity, which may
    /// exceed `size`. The payload is always `MIN_ALIGN`-aligned; stronger
    /// alignments are not currently supported.
    pub fn allocate(&self, mem: &mut C::Atomics, size: u64) -> (r: Slice)
        requires
            valid_config::<C>(),
            prepared::<C>(old(mem).words()),
        ensures
            allocs::<C>(old(mem).words(), final(mem).words(), size as int, r),
    {
        let ghost w = mem.words();
        let ghost st = state_of::<C>(w);
        proof {
            lemma_config_logs::<C>();
            lemma_need::<C>(size as int);
            lemma_dispatch::<C>(w, size as int);
        }
        let need: u64 = match Self::block_need(size) {
            Some(need) => need,
            None => {
                proof {
                    lemma_served::<C>(w, w, size as int);
                }
                return Slice::null();
            },
        };
        let bin = bin_index::<C>(need);
        proof {
            lemma_bin_of::<C>(need as int);
        }
        let mut session = Session::<C>::open(mem);
        let block: u64 = if bin == Self::oversize_bin() {
            self.alloc_oversize(&mut session, need, Ghost(st))
        } else {
            self.alloc_fixed(&mut session, bin, Ghost(st))
        };
        session.close();
        proof {
            lemma_served::<C>(w, mem.words(), size as int);
        }
        if block == 0 {
            return Slice::null();
        }
        let bsize: u64 = header_size(self.load(mem, block));
        Slice::new(block + C::MIN_ALIGN, bsize - C::MIN_ALIGN)
    }

    /// Whether [`free`](CadAlloc::free) refuses the slice: its block is already free.
    ///
    /// `free` leaves such a slice alone without a word; a build that wants to hear of
    /// a double free asks here first.
    pub fn is_refused(&self, mem: &C::Atomics, block: Slice) -> (r: bool)
        requires
            block.ptr != 0 ==> block.ptr >= C::MIN_ALIGN && mem.words().contains_key(
                block.ptr - C::MIN_ALIGN,
            ),
        ensures
            r == (block.ptr != 0 && mem.words()[block.ptr - C::MIN_ALIGN] % 16 == FREE),
    {
        !block.is_null() && header_is_free(self.load(mem, block.ptr - C::MIN_ALIGN))
    }

    /// Returns a block previously handed out by [`allocate`](CadAlloc::allocate) to
    /// its bin. Freeing the null slice is a no-op.
    ///
    /// The slice's `ptr` must be one returned by this allocator; its `len` is
    /// ignored (the true size is read from the block header). A block that is
    /// already free (a double free, or a bogus slice) is refused: returning it
    /// to a bin twice would corrupt the free list.
    ///
    /// The last access publishes the block: the compare-and-swap of its bin's head, or,
    /// for an oversized block, the release of the refill lock.
    pub fn free(&self, mem: &mut C::Atomics, block: Slice)
        requires
            valid_config::<C>(),
            block.ptr != 0 ==> prepared::<C>(old(mem).words()),
            freeable::<C>(old(mem).words(), block.ptr as int),
        ensures
            frees::<C>(old(mem).words(), final(mem).words(), block.ptr as int),
            block.ptr != 0 && old(mem).words()[block.ptr - C::MIN_ALIGN] % 16 != FREE ==> ({
                let b = block_at::<C>(old(mem).words(), block.ptr as int);
                let head = head_at::<C>(bin_of::<C>(b.size));
                final(mem).last_write() == if b.size <= C::EXP_CEIL {
                    Write::Swap {
                        addr: head as u64,
                        current: old(mem).words()[head],
                        new: retagged::<C>(old(mem).words()[head] as int, b.addr) as u64,
                        done: true,
                    }
                } else {
                    Write::Store { addr: lock_at::<C>() as u64, val: 0 }
                }
            }),
    {
        if block.is_null() {
            return;
        }
        let hdr: u64 = block.ptr - C::MIN_ALIGN;
        let header: u64 = self.load(mem, hdr);
        if header_is_free(header) {
            return;
        }
        let size: u64 = header_size(header);
        let ghost w = mem.words();
        let ghost st = state_of::<C>(w);
        let ghost b = block_at::<C>(w, block.ptr as int);
        let ghost st2 = st.push::<C>(b);
        proof {
            lemma_addresses::<C>();
            lemma_config_logs::<C>();
            lemma_block_words::<C>(w, st, b);
            lemma_placed::<C>(b);
            lemma_push::<C>(st, b);
            lemma_store_outside::<C>(w, st, b.addr, header_word(b.size, true));
            lemma_bin_of::<C>(b.size);
            lemma_bin_counts::<C>();
        }
        // Every block is class-exact (fixed) or `> EXP_CEIL` (oversized), so the
        // ceiling bin index is also its exact home.
        let bin = bin_index::<C>(size);
        let mut session = Session::<C>::open(mem);
        session.store(hdr, pack(size, FREE));
        let ghost w1 = session.words();
        if bin == Self::oversize_bin() {
            self.lock(&mut session);
            proof {
                lemma_store_outside::<C>(w1, st, lock_at::<C>(), 1);
            }
            self.link_free(&mut session, bin, hdr, Ghost(b), Ghost(st));
            let ghost w3 = session.words();
            self.unlock(&mut session);
            proof {
                lemma_store_outside::<C>(w3, st2, lock_at::<C>(), 0);
            }
        } else {
            self.link_free(&mut session, bin, hdr, Ghost(b), Ghost(st));
        }
        session.close();
        proof {
            let w2 = mem.words();
            assert(w2.dom() =~= w.dom());
            assert(w2 =~= freed_in::<C>(w, b));
            assert(represents::<C>(w2, st2));
            lemma_frees::<C>(w, w2, b);
        }
    }
}

impl<C: Config> Default for CadAlloc<C> {
    fn default() -> (r: Self)
        ensures
            r == CadAlloc::<C>::handle(),
    {
        Self::new()
    }
}

/// A request is served from the oversized list or from a fixed bin, or is too large
/// for any block.
proof fn lemma_dispatch<C: Config>(w: Map<int, u64>, size: int)
    ensures
        ({
            let st = state_of::<C>(w);
            let need = need_of::<C>(size);
            let k = bin_of::<C>(need);
            let (st2, taken) = allocated::<C>(st, size);
            let w2 = words_allocated::<C>(w, size);
            &&& need > u64::MAX ==> taken is None && st2 == st && w2 == w
            &&& need <= u64::MAX && need > C::EXP_CEIL ==> (st2, taken) == take_oversized::<C>(
                st,
                need,
            ) && w2 == oversized_taken::<C>(w, st.bins[oversized::<C>()], need)
            &&& need <= u64::MAX && need <= C::EXP_CEIL ==> (st2, taken) == take_fixed::<C>(
                st,
                k,
            ) && w2 == fixed_taken::<C>(w, k)
        }),
{
    reveal(allocated);
    reveal(words_allocated);
}

/// What a request is owed follows from the state and the words that it leaves.
proof fn lemma_served<C: Config>(w: Map<int, u64>, w2: Map<int, u64>, size: int)
    requires
        valid_config::<C>(),
        prepared::<C>(w),
        size >= 0,
        w2 == words_allocated::<C>(w, size),
        w2[lock_at::<C>()] == 0,
        keeps_used::<C>(w, w2, state_of::<C>(w)),
        ({
            let (st2, taken) = allocated::<C>(state_of::<C>(w), size);
            &&& represents::<C>(w2, st2)
            &&& taken is None ==> w2 == w
            &&& taken matches Some(b) ==> w2[b.addr] == header_word(b.size, false)
        }),
    ensures
        ({
            let taken = allocated::<C>(state_of::<C>(w), size).1;
            &&& allocs::<C>(w, w2, size, payload_of::<C>(taken))
            &&& taken matches Some(b) ==> {
                &&& w2.contains_key(b.addr)
                &&& w2[b.addr] == b.size
                &&& b.size % 16 == 0
                &&& b.addr > 0
                &&& C::MIN_ALIGN <= b.size
                &&& b.end() <= u64::MAX
            }
        }),
{
    let st = state_of::<C>(w);
    let (st2, taken) = allocated::<C>(st, size);
    lemma_need::<C>(size);
    lemma_allocated::<C>(st, size);
    lemma_keeps_blocks::<C>(w, w2, st, st2, taken, request_size::<C>(size));
    if taken is Some {
        let b = taken->Some_0;
        lemma_block_words::<C>(w2, st2, b);
        lemma_placed::<C>(b);
        lemma_payload::<C>(b);
    }
}

/// The payload of a placed block is aligned.
pub proof fn lemma_payload<C: Config>(b: Block)
    requires
        valid_config::<C>(),
        placed::<C>(b),
    ensures
        (b.addr + C::MIN_ALIGN) % C::MIN_ALIGN as int == 0,
{
    lemma_placed::<C>(b);
    vstd::arithmetic::div_mod::lemma_mod_multiples_basic(1, C::MIN_ALIGN as int);
    lemma_mod_add_sub(b.addr, C::MIN_ALIGN as int, C::MIN_ALIGN as int);
}

/// What freeing a block keeps.
proof fn lemma_frees<C: Config>(w: Map<int, u64>, w2: Map<int, u64>, b: Block)
    requires
        valid_config::<C>(),
        prepared::<C>(w),
        in_use::<C>(w, b),
        w2 == freed_in::<C>(w, b),
        represents::<C>(w2, state_of::<C>(w).push::<C>(b)),
        same_outside::<C>(w, w2, b.addr, b.addr + 16),
    ensures
        heads_name::<C>(w, w2, b),
        state_of::<C>(w2) == state_of::<C>(w).push::<C>(b),
        forall|c: Block| #[trigger]
            in_use::<C>(w, c) && apart(b, c) ==> keeps_block::<C>(w, w2, c),
{
    let st = state_of::<C>(w);
    let st2 = st.push::<C>(b);
    lemma_state_unique::<C>(w2, st2);
    lemma_push::<C>(st, b);
    lemma_placed::<C>(b);
    lemma_addresses::<C>();
    lemma_block_words::<C>(w, st, b);
    lemma_retagged_fits::<C>(w[head_at::<C>(bin_of::<C>(b.size))] as int, b.addr);
    assert forall|c: Block| #[trigger] in_use::<C>(w, c) && apart(b, c) implies keeps_block::<C>(
        w,
        w2,
        c,
    ) by {
        assert(st.clear(c.addr, c.end()));
        lemma_placed::<C>(c);
        assert(st2.clear(c.addr, c.end()));
        assert(st2.holds::<C>(c));
        assert(w2[c.addr] == w[c.addr]);
    }
}

} // verus!
