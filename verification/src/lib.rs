//! A minimal, configurable, embeddable allocator with segregated free lists, for
//! managing a **fixed region of memory**.
//!
//! `cadalloc` hands out [`Slice`]s (`{ ptr: u64, len: u64 }`) rather than raw
//! pointers, and keeps its size-class free lists *inside the managed region*. The
//! region is reached through an [`Atomics`] backend, so it need not lie in the
//! caller's own address space.
//!
//! - A [`Config`] names the backend and the constants that fix the size classes.
//! - A [`CadAlloc`] is the allocator over a configuration.
//!   [`init`](CadAlloc::init) prepares the region; [`allocate`](CadAlloc::allocate),
//!   [`realloc`](CadAlloc::realloc) and [`free`](CadAlloc::free) serve blocks of
//!   it; [`verify`](CadAlloc::verify) tells whether a region was prepared with the
//!   same layout.
//!
//! What an operation does is stated over two models: the [`state`] of a heap (the
//! free blocks of every bin and the bump address) and its [`memory`] (the words
//! that hold that state; [`words`] says what each operation writes). The [`laws`]
//! relate the operations to each other, [`promises`] say what a caller may count on,
//! [`accounting`] says where the memory of a heap is, and [`accesses`],
//! [`interleaving`], [`sharing`] and [`steps`] model several threads that share one.
//! A [`session`] is how an operation reaches the words that threads share.

pub mod accesses;
pub mod accounting;
pub mod allocator;
pub mod atomic;
pub mod bits;
pub mod carving;
pub mod classes;
pub mod config;
pub mod effects;
pub mod ffi;
pub mod fingerprint;
pub mod global;
pub mod header;
pub mod interleaving;
pub mod invariants;
pub mod laws;
pub mod lists;
pub mod memory;
pub mod promises;
pub mod resizing;
pub mod session;
pub mod sharing;
pub mod slice;
pub mod state;
pub mod steps;
pub mod words;

pub use allocator::{CadAlloc, InitError, VerifyError};
pub use atomic::{Atomics, CoreAtomics};
pub use config::{assert_config_valid, const_heap_base, const_heap_size, Config, ConfigError};
pub use slice::Slice;
