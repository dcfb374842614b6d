//! wf_alloc: a wait-free, span-based memory allocator.
//!
//! A region of memory is cut into 64 KiB spans. A span serves blocks of one
//! power-of-two size class; requests that fit no class take whole runs of
//! spans, and requests of at least one huge granule take a slot of a fixed
//! directory. Threads hold tokens; every operation takes a bounded number of
//! steps whatever other threads do.
//!
//! The allocator works on addresses. Its metadata, which includes the links
//! of free blocks, is kept outside the region that it manages, so that a
//! caller may use all bytes of a live allocation and none of any other.
//!
//! `allocator` has the operations, `state` what every state of the allocator
//! satisfies, `laws` and `capacity` what follows for the allocator as a whole.
//! `stepwise` has the operations taken apart into single actions.

pub mod acquire;
pub mod align;
pub mod allocator;
pub mod alone;
pub mod atomic_backend;
pub mod block;
pub mod blocks;
pub mod boot;
pub mod capacity;
pub mod carve;
pub mod chain;
pub mod config;
pub mod free;
pub mod global;
pub mod heap;
pub mod help_record;
pub mod huge;
pub mod large;
pub mod laws;
pub mod layout;
pub mod local_list;
pub mod memory;
pub mod metadata;
pub mod moves;
pub mod pagemap;
pub mod promises;
pub mod protocol;
pub mod refill;
pub mod region;
pub mod remote_mpsc;
pub mod requests;
pub mod runs;
pub mod service;
pub mod size_class;
pub mod small;
pub mod span;
pub mod spmc_span_list;
pub mod state;
pub mod stats;
pub mod stepwise;
pub mod tagged;
pub mod thread;
pub mod verify;

pub use allocator::WfSpanAllocator;
pub use atomic_backend::{Cas2Backend, DefaultCas2Backend};
pub use config::{
    DEFAULT_HUGE_GRANULE_SPANS, HELP_BUDGET_H, LARGE_LOCAL_RUN_LIMIT_K, LOCAL_SPAN_LIMIT_K,
    MAX_BLOCK_SIZE, MAX_HUGE_GRANULES, MAX_HUGE_RUNS_PER_CLASS, MAX_HUGE_RUN_CLASSES,
    MAX_LARGE_RUN_CLASSES, MAX_LARGE_SIZE, MAX_LARGE_SPANS, MAX_SUPPORTED_CLASSES, MIN_BLOCK_SIZE,
    OWNER_NONE, OWNER_PUBLIC, SPAN_ALIGN, SPAN_SIZE,
};
pub use huge::{
    huge_class_granules, HugeArena, HugeRunSlot, HUGE_SLOT_ALLOCATED, HUGE_SLOT_EMPTY,
    HUGE_SLOT_FREE,
};
pub use large::{
    run_class_bytes, run_class_for_layout, run_class_spans, LargeAllocHeader, LARGE_MAGIC,
};
pub use layout::{Layout, LayoutError};
pub use metadata::RuntimeSlice;
pub use size_class::{class_to_size, size_to_class};
pub use stats::{theoretical_extra_bound, AllocatorStats, StepCounter};
pub use thread::{ThreadRegistry, ThreadToken};
