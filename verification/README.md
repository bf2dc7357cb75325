# cadalloc

A minimal, configurable, embeddable allocator with segregated free lists, built
for managing a **fixed region of memory**, and verified with
[Verus](https://github.com/verus-lang/verus).

It hands out `Slice`s (`{ ptr: u64, len: u64 }`) rather than raw pointers, and
keeps its size-class free lists inside the managed region, which it reaches
through an `Atomics` backend: anything that can load, store and compare-and-swap a
64-bit word by its address. The region need not be in the caller's own address
space.

## Layout

- `src/` is the library. Everything in it is verified, and it trusts nothing
  beyond Verus and `vstd`.
  - `config`, `classes`, `header`, `fingerprint`, `slice`, `atomic`, `bits`: the
    configuration surface, the size classes, block headers, the configuration
    fingerprint, and what they are built on.
  - `state`, `invariants`: the mathematical state of a heap, what each operation
    does to it, and what every state satisfies.
  - `memory`, `words`, `effects`: how a state is laid out in words, what each
    operation writes, word for word, and what the public operations promise of it.
  - `allocator`, `lists`, `carving`, `resizing`: the operations themselves.
  - `ffi`, `global`: the entry points for other languages and for a global
    allocator.
  - `laws`, `accounting`: what holds of the allocator as a whole.
  - `accesses`, `interleaving`, `sharing`, `steps`: models of threads that share a
    heap, what holds of them, and how the operations are made of their steps.
- `tests/` runs the library on concrete heaps. `tests/treiber.rs` also explores the
  interleavings of threads that share one, with `loom`.
- `app/` puts the library over real memory: a backend of `AtomicU64`s by address, a
  `GlobalAlloc` adapter, and the macro that exports C entry points.

## What is proved

For every valid configuration, every heap that `init` has prepared, and every
sequence of `allocate`, `free` and `realloc`:

- a block that is handed out has room for the request, is aligned, lies in the
  region, and overlaps no block handed out before;
- blocks keep their contents until they are freed, and `realloc` carries them over;
- a request fails only if no free block fits and the region has no room, and then
  nothing changes;
- a freed block is the next one handed out for its class;
- every byte of the payload area below the bump pointer is in a free block, in one
  that was handed out, or in a sliver shorter than `LNR_FLOOR`, and there are none of
  those where `LNR_FLOOR` is `MIN_ALIGN` (for configurations whose smallest class fits
  anywhere);
- the words after an operation are determined, tags and links included, by those
  before it;
- no arithmetic overflows, and no operation panics or loops forever.

The contracts describe exclusive use of a heap: what an operation as a whole does when
no other thread comes in between. That the refill lock is taken wherever the bump
pointer, the oversized list or a block to be cut is touched is part of them. What is
proved of heaps that threads share is proved of models, which are tied to the code:

- `accesses` is a machine that makes the accesses of a push and a pop to the words of a
  bin, for any number of threads and in any order. The functions that `push_fixed` and
  `pop_fixed` are made of each make one access, and each is shown to be a step of the
  machine. Not shown is that the operations put them in this order while other threads
  interfere: that is to be read off their loops. Two threads that each push once and
  pop once on an empty bin pop both blocks, in whatever order their accesses fall.
- `interleaving` is the abstract stack behind it. Of every interleaving it is proved
  that no block is lost, duplicated or owned twice, as long as fewer than `MIN_ALIGN`
  updates of a bin's head fall between a pop's load and its swap: the tag in the head
  has that many values.
- `sharing` is the whole heap, whose blocks move between the free lists and the
  threads: whatever the order in which threads take, give, cut and carve blocks, no two
  blocks overlap. `steps` shows that allocating, freeing and resizing are runs of its
  steps.
