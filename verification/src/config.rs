//! Fixed implementation parameters.

use vstd::prelude::*;

verus! {

/// Size of one span in bytes. A power of two.
pub const SPAN_SIZE: u64 = 65536;

/// Spans are aligned to their own size, so the span of any block address is
/// found by masking the low address bits.
pub const SPAN_ALIGN: u64 = SPAN_SIZE;

/// Default maximum number of participating threads.
pub const MAX_THREADS: u64 = 64;

/// Largest number of participating threads an allocator can be built for.
/// A thread heap takes more than 1 KiB of metadata, so no address space
/// holds more rows than this.
pub const MAX_ACTIVE_THREADS: u64 = 0x20_0000_0000_0000;

/// Maximum number of private spans a thread heap retains per size class
/// before it starts publishing surplus full spans.
pub const LOCAL_SPAN_LIMIT_K: u64 = 40;

/// Helping budget: pending requests helped during one acquisition.
pub const HELP_BUDGET_H: u64 = 1;

/// Smallest block size, and the strongest natural alignment of the smallest
/// size class.
pub const MIN_BLOCK_SIZE: u64 = 16;

/// Largest block size of the small path. Larger requests, and requests with
/// a stronger alignment, go to the large path.
pub const MAX_BLOCK_SIZE: u64 = 16384;

/// Number of power-of-two large-run classes: run class `r` is a contiguous
/// run of `2^r` spans (64 KiB, 128 KiB, ..., 4 GiB).
pub const MAX_LARGE_RUN_CLASSES: u64 = 17;

/// Spans in the largest run class.
pub const MAX_LARGE_SPANS: u64 = 65536;

/// Bytes in the largest run class. The largest request is slightly smaller:
/// the header reserve, the hidden header and the alignment slack must fit.
pub const MAX_LARGE_SIZE: u64 = 0x1_0000_0000;

/// Maximum number of free runs a thread heap retains per run class before it
/// publishes freed runs.
pub const LARGE_LOCAL_RUN_LIMIT_K: u64 = 8;

/// Default huge granule in spans (16384 spans of 64 KiB are 1 GiB).
pub const DEFAULT_HUGE_GRANULE_SPANS: u64 = 16384;

/// Number of power-of-two huge-run classes: class `r` is `2^r` granules.
pub const MAX_HUGE_RUN_CLASSES: u64 = 3;

/// Granules in the largest huge run class.
pub const MAX_HUGE_GRANULES: u64 = 4;

/// Directory slots per huge class: at most this many runs of one huge class
/// are live at once.
pub const MAX_HUGE_RUNS_PER_CLASS: u64 = 4;

/// Bytes reserved at the start of every span for its header.
pub const SPAN_HEADER_RESERVE: u64 = 1024;

/// Number of power-of-two size classes: 16, 32, ..., 16384.
pub const MAX_SUPPORTED_CLASSES: u64 = 11;

/// Owner sentinel: the span is discarded and may be claimed by the remote
/// deallocator that moves its global free count from 0 to 1.
pub const OWNER_NONE: u64 = 0xffff_ffff_ffff_ffff;

/// Owner sentinel: the span is in, or in transit through, a public span list
/// or a help record. Remote deallocators must not claim it.
pub const OWNER_PUBLIC: u64 = 0xffff_ffff_ffff_fffe;

} // verus!
