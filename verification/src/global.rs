//! Process-wide allocation over shards.
//!
//! Every shard has one allocator with a bounded table of thread tokens and a
//! bounded region. A thread borrows a token from a shard and returns it when
//! it ends. If all shards are full, or a shard runs out of spans, another
//! shard is added with memory from the operating system; requests that no
//! shard can serve go to the operating system themselves.
//!
//! Memory of the operating system is obtained by the caller: an operation
//! that needs some says so, and is resumed with what was obtained.

use crate::align::{align_up, div_ceil, lemma_is_pow2_bounds, lemma_up, max, up};
use crate::allocator::{WfSpanAllocator, HEAP_ALIGN};
use crate::config::SPAN_SIZE;
use crate::layout::{Layout, MAX_OBJECT_SIZE};
use crate::stats::{bumped, AllocatorStats};
use crate::thread::{ThreadRegistry, ThreadToken};
use vstd::arithmetic::power2::{lemma2_to64, pow2};
use vstd::prelude::*;

verus! {

/// Token of a shard for frees by threads that have no token of the shard.
pub const SERVICE_TOKEN_ID: u64 = 0;

/// User tokens per shard where the configuration says 0.
pub const DEFAULT_THREADS_PER_SHARD: u64 = 64;

/// Spans per shard where the configuration says 0.
pub const DEFAULT_REGION_SPANS: u64 = 1024;

/// Marks the hidden header of an allocation: "WFGLOB1" in ASCII.
pub const HEADER_MAGIC: u64 = 0x5746_474C_4F42_3100;

/// The allocation belongs to a shard.
pub const BACKEND_WFSPAN: u64 = 1;

/// The allocation belongs to the operating system.
pub const BACKEND_SYSTEM: u64 = 2;

/// Bytes of the hidden header.
pub const HEADER_SIZE: u64 = 48;

/// Alignment of the hidden header.
pub const HEADER_ALIGN: u64 = 8;

/// Bytes and alignment of one entry of a token table.
pub const TOKEN_SIZE: u64 = 8;

/// Hidden header immediately before every allocation: who owns it, and where
/// its storage starts.
#[derive(Clone, Copy, Debug, PartialEq, Eq, Structural)]
pub struct AllocationHeader {
    pub magic: u64,
    pub backend: u64,
    /// Number of the shard, from 1 on; 0 for the operating system.
    pub shard: u64,
    pub storage_size: u64,
    pub storage_align: u64,
    pub offset: u64,
}

/// What a valid header says.
#[derive(Clone, Copy, Debug, PartialEq, Eq, Structural)]
pub struct HeaderInfo {
    pub backend: u64,
    pub shard: u64,
    pub storage: Layout,
    pub offset: u64,
}

/// A header is valid: marked, of a known backend, with an offset inside a
/// storage that has a valid layout, and with a shard if it is one's.
pub open spec fn header_ok(h: AllocationHeader) -> bool {
    &&& h.magic == HEADER_MAGIC
    &&& h.backend == BACKEND_WFSPAN || h.backend == BACKEND_SYSTEM
    &&& HEADER_SIZE <= h.offset <= h.storage_size
    &&& (Layout { size: h.storage_size, align: h.storage_align }).valid()
    &&& h.backend == BACKEND_WFSPAN ==> h.shard != 0
}

/// What a header says, if it is valid.
pub fn validate_header(h: &AllocationHeader) -> (r: Option<HeaderInfo>)
    ensures
        r == (if header_ok(*h) {
            Some(
                HeaderInfo {
                    backend: h.backend,
                    shard: h.shard,
                    storage: Layout { size: h.storage_size, align: h.storage_align },
                    offset: h.offset,
                },
            )
        } else {
            None
        }),
{
    if h.magic != HEADER_MAGIC {
        return None;
    }
    if h.backend != BACKEND_WFSPAN && h.backend != BACKEND_SYSTEM {
        return None;
    }
    if h.offset < HEADER_SIZE || h.offset > h.storage_size {
        return None;
    }
    let storage = match Layout::from_size_align(h.storage_size, h.storage_align) {
        Ok(layout) => layout,
        Err(_) => {
            return None;
        },
    };
    if h.backend == BACKEND_WFSPAN && h.shard == 0 {
        return None;
    }
    Some(HeaderInfo { backend: h.backend, shard: h.shard, storage, offset: h.offset })
}

/// Storage of a request: room for the hidden header in front of the payload.
#[derive(Clone, Copy, Debug, PartialEq, Eq, Structural)]
pub struct AllocationLayout {
    pub storage: Layout,
    pub offset: u64,
}

/// The larger of two numbers.
pub open spec fn high(a: int, b: int) -> int {
    if a >= b {
        a
    } else {
        b
    }
}

/// Alignment of the storage of a request.
pub open spec fn storage_align(layout: Layout) -> int {
    high(layout.align as int, HEADER_ALIGN as int)
}

/// Offset of the payload in the storage of a request.
pub open spec fn storage_offset(layout: Layout) -> int {
    up(HEADER_SIZE as int, storage_align(layout))
}

/// The storage of a request, or `None` where it would be too large.
pub fn allocation_layout(layout: Layout) -> (r: Option<AllocationLayout>)
    requires
        layout.valid(),
    ensures
        r is Some <==> storage_offset(layout) + layout.size + storage_align(layout) - 1
            <= MAX_OBJECT_SIZE,
        r matches Some(a) ==> {
            &&& a.offset == storage_offset(layout)
            &&& a.storage.size == storage_offset(layout) + layout.size
            &&& a.storage.align == storage_align(layout)
            &&& a.storage.valid()
            &&& HEADER_SIZE <= a.offset
            &&& a.offset % layout.align == 0
        },
{
    proof {
        lemma2_to64();
        assert(HEADER_ALIGN == pow2(3));
        lemma_is_pow2_bounds(layout.align);
        lemma_up(HEADER_SIZE as int, storage_align(layout));
    }
    let align: u64 = max(layout.align(), HEADER_ALIGN);
    proof {
        crate::align::lemma_is_pow2_divides(layout.align, align, storage_offset(layout));
    }
    let offset: u64 = match align_up(HEADER_SIZE, align) {
        Some(v) => v,
        None => {
            return None;
        },
    };
    let size: u64 = match offset.checked_add(layout.size()) {
        Some(v) => v,
        None => {
            return None;
        },
    };
    match Layout::from_size_align(size, align) {
        Ok(storage) => Some(AllocationLayout { storage, offset }),
        Err(_) => None,
    }
}

/// The header of an allocation.
pub open spec fn header_for(
    adjusted: AllocationLayout,
    backend: u64,
    shard: u64,
) -> AllocationHeader {
    AllocationHeader {
        magic: HEADER_MAGIC,
        backend,
        shard,
        storage_size: adjusted.storage.size,
        storage_align: adjusted.storage.align,
        offset: adjusted.offset,
    }
}

/// The payload address of an allocation whose storage starts at `raw`, and
/// the hidden header to write `HEADER_SIZE` bytes before it.
pub fn finish_allocation(raw: u64, adjusted: AllocationLayout, backend: u64, shard: u64) -> (r: (
    u64,
    AllocationHeader,
))
    requires
        raw + adjusted.offset <= u64::MAX,
    ensures
        r.0 == raw + adjusted.offset,
        r.1 == header_for(adjusted, backend, shard),
{
    (
        raw + adjusted.offset,
        AllocationHeader {
            magic: HEADER_MAGIC,
            backend,
            shard,
            storage_size: adjusted.storage.size(),
            storage_align: adjusted.storage.align(),
            offset: adjusted.offset,
        },
    )
}

/// A header written for an allocation is valid and leads back to the backend,
/// the shard, the layout and the start of the storage; and the payload is
/// aligned as requested, behind the header and inside the storage.
pub proof fn law_header_round_trip(
    layout: Layout,
    adjusted: AllocationLayout,
    raw: u64,
    backend: u64,
    shard: u64,
)
    requires
        layout.valid(),
        adjusted.offset == storage_offset(layout),
        adjusted.storage.size == storage_offset(layout) + layout.size,
        adjusted.storage.align == storage_align(layout),
        adjusted.storage.valid(),
        raw % adjusted.storage.align == 0,
        raw + adjusted.storage.size <= u64::MAX,
        backend == BACKEND_WFSPAN && shard != 0 || backend == BACKEND_SYSTEM,
    ensures
        ({
            let user = raw + adjusted.offset;
            let h = header_for(adjusted, backend, shard);
            &&& header_ok(h)
            &&& user - h.offset == raw
            &&& user % (layout.align as int) == 0
            &&& raw + HEADER_SIZE <= user
            &&& user + layout.size <= raw + adjusted.storage.size
        }),
{
    lemma2_to64();
    assert(HEADER_ALIGN == pow2(3));
    lemma_is_pow2_bounds(layout.align);
    let a = adjusted.storage.align;
    lemma_up(HEADER_SIZE as int, a as int);
    let user = raw + adjusted.offset;
    vstd::arithmetic::div_mod::lemma_add_mod_noop(raw as int, adjusted.offset as int, a as int);
    vstd::arithmetic::div_mod::lemma_small_mod(0, a as nat);
    crate::align::lemma_is_pow2_divides(layout.align, a, user);
}

/// What a reallocation does.
#[derive(Clone, Copy, Debug, PartialEq, Eq, Structural)]
pub enum ReallocPlan {
    /// The new layout is not valid: fail and leave the old allocation.
    Fail,
    /// The new size is 0: free the old allocation, if there is one.
    Free,
    /// There is no old allocation: allocate.
    Alloc(Layout),
    /// Allocate, copy this many bytes, and free the old allocation.
    Move(Layout, u64),
}

/// What a reallocation of `ptr` to `new_size` bytes does: it keeps the
/// alignment, and the bytes that both sizes have.
pub open spec fn realloc_plan(ptr: u64, old_layout: Layout, new_size: u64) -> ReallocPlan {
    let new = Layout { size: new_size, align: old_layout.align };
    if !new.valid() {
        ReallocPlan::Fail
    } else if new_size == 0 {
        ReallocPlan::Free
    } else if ptr == 0 {
        ReallocPlan::Alloc(new)
    } else {
        ReallocPlan::Move(
            new,
            if old_layout.size <= new_size {
                old_layout.size
            } else {
                new_size
            },
        )
    }
}

/// Decide what a reallocation of `ptr` to `new_size` bytes does.
pub fn plan_realloc(ptr: u64, old_layout: Layout, new_size: u64) -> (r: ReallocPlan)
    ensures
        r == realloc_plan(ptr, old_layout, new_size),
{
    let new = match Layout::from_size_align(new_size, old_layout.align()) {
        Ok(layout) => layout,
        Err(_) => {
            return ReallocPlan::Fail;
        },
    };
    if new_size == 0 {
        return ReallocPlan::Free;
    }
    if ptr == 0 {
        return ReallocPlan::Alloc(new);
    }
    if old_layout.size() <= new_size {
        ReallocPlan::Move(new, old_layout.size())
    } else {
        ReallocPlan::Move(new, new_size)
    }
}

/// Configuration of the process-wide allocator.
#[derive(Clone, Copy, Debug, PartialEq, Eq, Structural)]
pub struct GlobalAllocatorConfig {
    /// Reusable user tokens per shard.
    pub threads_per_shard: u64,
    /// Spans per shard.
    pub region_spans: u64,
}

impl GlobalAllocatorConfig {
    pub fn new(threads_per_shard: u64, region_spans: u64) -> (r: Self)
        ensures
            r == (GlobalAllocatorConfig { threads_per_shard, region_spans }),
    {
        GlobalAllocatorConfig { threads_per_shard, region_spans }
    }
}

impl Default for GlobalAllocatorConfig {
    fn default() -> (r: Self)
        ensures
            r.threads_per_shard == DEFAULT_THREADS_PER_SHARD,
            r.region_spans == DEFAULT_REGION_SPANS,
    {
        GlobalAllocatorConfig::new(DEFAULT_THREADS_PER_SHARD, DEFAULT_REGION_SPANS)
    }
}

/// Diagnostics of the process-wide allocator. Event counts wrap around.
#[derive(Clone, Copy, Debug, PartialEq, Eq, Structural)]
pub struct GlobalAllocatorStats {
    /// Shards created so far.
    pub shard_count: u64,
    /// User tokens in use, over all shards.
    pub user_tokens_in_use: u64,
    /// Failed attempts to bind a thread to a token.
    pub token_acquisition_failures: u64,
    /// Failed attempts to create a shard.
    pub shard_creation_failures: u64,
    /// Allocations served by shards.
    pub wfspan_allocations: u64,
    /// Allocations that no shard could serve.
    pub wfspan_allocation_failures: u64,
    /// Allocations served by the operating system.
    pub system_allocations: u64,
    /// Deallocations returned to the operating system.
    pub system_deallocations: u64,
    /// Deallocations that used a shard's service token.
    pub service_token_deallocations: u64,
    /// Spans of the largest shard.
    pub largest_shard_spans: u64,
}

/// Memory that a new shard takes.
#[derive(Clone, Copy, Debug, PartialEq, Eq, Structural)]
pub struct ShardPlan {
    pub user_slots: u64,
    pub region_spans: u64,
    pub metadata: Layout,
    pub region: Layout,
    pub tokens: Layout,
}

/// Addresses of the memory obtained for a plan.
#[derive(Clone, Copy, Debug, PartialEq, Eq, Structural)]
pub struct ShardMemory {
    pub metadata: u64,
    pub region: u64,
}

impl ShardMemory {
    /// The memory is as the plan asked for.
    pub open spec fn suits(self, plan: ShardPlan) -> bool {
        &&& self.metadata != 0
        &&& self.metadata % HEAP_ALIGN == 0
        &&& self.region != 0
        &&& self.region % SPAN_SIZE == 0
        &&& self.region + plan.region.size <= u64::MAX
    }
}

/// The blocks that were obtained, out of three: those that are not null, each
/// with the layout it was asked for with.
pub open spec fn obtained(
    plan: ShardPlan,
    metadata: u64,
    region: u64,
    tokens: u64,
) -> Seq<(u64, Layout)> {
    (if metadata != 0 {
        seq![(metadata, plan.metadata)]
    } else {
        Seq::empty()
    }) + (if region != 0 {
        seq![(region, plan.region)]
    } else {
        Seq::empty()
    }) + (if tokens != 0 {
        seq![(tokens, plan.tokens)]
    } else {
        Seq::empty()
    })
}

/// Decide what becomes of the three blocks asked for by a plan, some of which
/// may be null: they are the memory of a shard if all are there and suit the
/// plan; otherwise all that were obtained go back, each with its layout.
pub fn settle_shard(plan: ShardPlan, metadata: u64, region: u64, tokens: u64) -> (r: Result<
    ShardMemory,
    Vec<(u64, Layout)>,
>)
    ensures
        r is Ok <==> tokens != 0 && (ShardMemory { metadata, region }).suits(plan),
        r matches Ok(memory) ==> memory == (ShardMemory { metadata, region }),
        r matches Err(back) ==> back@ == obtained(plan, metadata, region, tokens),
{
    if metadata != 0 && metadata % HEAP_ALIGN == 0 && region != 0 && region % SPAN_SIZE == 0
        && region <= u64::MAX - plan.region.size() && tokens != 0 {
        return Ok(ShardMemory { metadata, region });
    }
    let mut back: Vec<(u64, Layout)> = Vec::new();
    if metadata != 0 {
        back.push((metadata, plan.metadata));
    }
    if region != 0 {
        back.push((region, plan.region));
    }
    if tokens != 0 {
        back.push((tokens, plan.tokens));
    }
    assert(back@ =~= obtained(plan, metadata, region, tokens));
    Err(back)
}

/// One shard: an allocator, and which of its user tokens are in use. Token 0
/// is the service token; user token `i + 1` has entry `i`.
pub struct HostedShard<const C: u64, const HG: u64> {
    pub user_slots: u64,
    pub token_in_use: Vec<bool>,
    pub region_spans: u64,
    pub alloc: WfSpanAllocator<C, HG>,
}

/// Number of marks set among the first `i`.
pub open spec fn marked(marks: Seq<bool>, i: int) -> nat
    decreases i,
{
    if i <= 0 {
        0
    } else {
        marked(marks, i - 1) + (if marks[i - 1] {
            1nat
        } else {
            0
        })
    }
}

/// Position of the first mark that is not set, at or behind `i`; the length
/// if all are.
pub open spec fn first_unmarked(marks: Seq<bool>, i: int) -> int
    decreases marks.len() - i,
{
    if i >= marks.len() {
        marks.len() as int
    } else if !marks[i] {
        i
    } else {
        first_unmarked(marks, i + 1)
    }
}

/// The first mark that is not set is not set.
pub(crate) proof fn lemma_first_unmarked(marks: Seq<bool>, i: int)
    requires
        0 <= i <= marks.len(),
    ensures
        i <= first_unmarked(marks, i) <= marks.len(),
        first_unmarked(marks, i) < marks.len() ==> !marks[first_unmarked(marks, i)],
    decreases marks.len() - i,
{
    if i < marks.len() && marks[i] {
        lemma_first_unmarked(marks, i + 1);
    }
}

/// The first mark that is not set is not behind any other.
pub(crate) proof fn lemma_first_unmarked_below(marks: Seq<bool>, i: int, j: int)
    requires
        0 <= i <= j < marks.len(),
        !marks[j],
    ensures
        first_unmarked(marks, i) <= j,
    decreases marks.len() - i,
{
    if marks[i] {
        lemma_first_unmarked_below(marks, i + 1, j);
    }
}

impl<const C: u64, const HG: u64> HostedShard<C, HG> {
    /// The allocator is sound, and has a thread per user token and one for
    /// the service token.
    pub open spec fn wf(self) -> bool {
        &&& self.alloc.wf()
        &&& self.alloc.n() == self.user_slots + 1
        &&& self.token_in_use@.len() == self.user_slots
        &&& self.user_slots >= 1
    }

    /// The memory that a shard takes, or `None` where it cannot be had.
    pub open spec fn plan_of(user_slots: u64, region_spans: u64) -> Option<ShardPlan> {
        let metadata = WfSpanAllocator::<C, HG>::offsets(user_slots + 1).end;
        let region = region_spans * SPAN_SIZE;
        let tokens = TOKEN_SIZE * user_slots;
        if user_slots == 0 || region_spans == 0 || metadata + HEAP_ALIGN - 1 > MAX_OBJECT_SIZE
            || region + SPAN_SIZE - 1 > MAX_OBJECT_SIZE || tokens + TOKEN_SIZE - 1
            > MAX_OBJECT_SIZE {
            None
        } else {
            Some(
                ShardPlan {
                    user_slots,
                    region_spans,
                    metadata: Layout { size: metadata as u64, align: HEAP_ALIGN },
                    region: Layout { size: region as u64, align: SPAN_SIZE },
                    tokens: Layout { size: tokens as u64, align: TOKEN_SIZE },
                },
            )
        }
    }

    /// Work out the memory that a shard of this size takes.
    pub fn plan(user_slots: u64, region_spans: u64) -> (r: Option<ShardPlan>)
        requires
            WfSpanAllocator::<C, HG>::params(),
        ensures
            r == Self::plan_of(user_slots, region_spans),
    {
        if user_slots == 0 || region_spans == 0 {
            return None;
        }
        proof {
            lemma2_to64();
            assert(HEAP_ALIGN == pow2(4));
            assert(SPAN_SIZE == pow2(16));
            assert(TOKEN_SIZE == pow2(3));
            WfSpanAllocator::<C, HG>::lemma_offsets(user_slots + 1);
        }
        let active_threads: u64 = match user_slots.checked_add(1) {
            Some(v) => v,
            None => {
                return None;
            },
        };
        let metadata_size: u64 = match WfSpanAllocator::<C, HG>::metadata_region_size(
            active_threads,
        ) {
            Some(v) => v,
            None => {
                return None;
            },
        };
        let metadata = match Layout::from_size_align(
            metadata_size,
            WfSpanAllocator::<C, HG>::metadata_region_align(),
        ) {
            Ok(layout) => layout,
            Err(_) => {
                return None;
            },
        };
        let region_len: u64 = match region_spans.checked_mul(SPAN_SIZE) {
            Some(v) => v,
            None => {
                return None;
            },
        };
        let region = match Layout::from_size_align(region_len, SPAN_SIZE) {
            Ok(layout) => layout,
            Err(_) => {
                return None;
            },
        };
        let token_size: u64 = match TOKEN_SIZE.checked_mul(user_slots) {
            Some(v) => v,
            None => {
                return None;
            },
        };
        let tokens = match Layout::from_size_align(token_size, TOKEN_SIZE) {
            Ok(layout) => layout,
            Err(_) => {
                return None;
            },
        };
        Some(ShardPlan { user_slots, region_spans, metadata, region, tokens })
    }

    /// Build a shard in the memory obtained for it: no token is in use, and
    /// nothing is allocated. `None` if there is no plan for its size, or the
    /// memory does not suit the plan.
    pub fn create(user_slots: u64, region_spans: u64, memory: ShardMemory) -> (r: Option<Self>)
        requires
            WfSpanAllocator::<C, HG>::params(),
        ensures
            r is Some <==> Self::plan_of(user_slots, region_spans) is Some && memory.suits(
                Self::plan_of(user_slots, region_spans)->0,
            ),
            r matches Some(s) ==> s.fresh(user_slots, region_spans, memory.region),
    {
        let plan = match Self::plan(user_slots, region_spans) {
            Some(p) => p,
            None => {
                return None;
            },
        };
        proof {
            WfSpanAllocator::<C, HG>::lemma_offsets(user_slots + 1);
        }
        if memory.region == 0 || memory.region % SPAN_SIZE != 0 || memory.region > u64::MAX
            - plan.region.size() {
            return None;
        }
        let (mut alloc, _) = match WfSpanAllocator::<C, HG>::from_metadata_region(
            user_slots + 1,
            memory.metadata,
            plan.metadata.size(),
        ) {
            Some(v) => v,
            None => {
                return None;
            },
        };
        let mut token_in_use: Vec<bool> = Vec::new();
        let mut i: u64 = 0;
        while i < user_slots
            invariant
                i <= user_slots,
                token_in_use@.len() == i,
                forall|k: int| 0 <= k < i ==> !token_in_use@[k],
            decreases user_slots - i,
        {
            token_in_use.push(false);
            i = i + 1;
        }
        proof {
            lemma_up(memory.region as int, SPAN_SIZE as int);
            assert(region_spans * SPAN_SIZE >= SPAN_SIZE) by (nonlinear_arith)
                requires
                    region_spans >= 1,
            ;
            let n = region_spans as int;
            assert((n * SPAN_SIZE) / (SPAN_SIZE as int) == n) by (nonlinear_arith);
        }
        alloc.init(memory.region, plan.region.size());
        Some(HostedShard { user_slots, token_in_use, region_spans, alloc })
    }

    /// A shard right after its creation.
    pub open spec fn fresh(self, user_slots: u64, region_spans: u64, region: u64) -> bool {
        &&& self.wf()
        &&& self.user_slots == user_slots
        &&& self.region_spans == region_spans
        &&& forall|i: int| 0 <= i < self.token_in_use@.len() ==> !self.token_in_use@[i]
        &&& self.alloc.live() == Map::<u64, Layout>::empty()
        &&& self.alloc.pool.base == region
        &&& self.alloc.pool.count == region_spans
        &&& self.alloc.pool.next == 0
        &&& self.alloc.registry == (ThreadRegistry { next: 0, max: (user_slots + 1) as u64 })
        &&& self.alloc.started_empty()
    }

    /// Take the first user token that is not in use.
    pub fn acquire_user_token(&mut self) -> (r: Option<u64>)
        requires
            old(self).wf(),
        ensures
            final(self).wf(),
            r is None ==> *final(self) == *old(self),
            final(self).alloc == old(self).alloc,
            final(self).region_spans == old(self).region_spans,
            final(self).user_slots == old(self).user_slots,
            ({
                let marks = old(self).token_in_use@;
                let i = first_unmarked(marks, 0);
                &&& r == (if i < marks.len() {
                    Some((i + 1) as u64)
                } else {
                    None
                })
                &&& final(self).token_in_use@ == (if i < marks.len() {
                    marks.update(i, true)
                } else {
                    marks
                })
                &&& i < marks.len() ==> 0 <= i && !marks[i] && i + 1 <= old(self).user_slots
            }),
    {
        let ghost marks = self.token_in_use@;
        let n: usize = self.token_in_use.len();
        let mut i: usize = 0;
        while i < n
            invariant
                n == marks.len(),
                i <= n,
                *self == *old(self),
                self.wf(),
                marks == self.token_in_use@,
                first_unmarked(marks, 0) == first_unmarked(marks, i as int),
            decreases n - i,
        {
            if !self.token_in_use[i] {
                self.token_in_use.set(i, true);
                return Some(i as u64 + 1);
            }
            i = i + 1;
        }
        None
    }

    /// Return a user token. Tokens that are none of the user tokens are
    /// ignored.
    pub fn release_user_token(&mut self, token_id: u64)
        requires
            old(self).wf(),
        ensures
            final(self).wf(),
            final(self).alloc == old(self).alloc,
            final(self).region_spans == old(self).region_spans,
            final(self).user_slots == old(self).user_slots,
            final(self).token_in_use@ == (if 1 <= token_id <= old(self).user_slots {
                old(self).token_in_use@.update(token_id - 1, false)
            } else {
                old(self).token_in_use@
            }),
    {
        if token_id == 0 || token_id > self.user_slots {
            return;
        }
        let n: usize = self.token_in_use.len();
        self.token_in_use.set((token_id - 1) as usize, false);
    }

    /// Number of user tokens in use.
    pub fn user_tokens_in_use(&self) -> (r: u64)
        requires
            self.wf(),
        ensures
            r == marked(self.token_in_use@, self.token_in_use@.len() as int),
            r <= self.user_slots,
    {
        let n: usize = self.token_in_use.len();
        let mut i: usize = 0;
        let mut r: u64 = 0;
        while i < n
            invariant
                n == self.token_in_use@.len(),
                i <= n,
                r <= i,
                r == marked(self.token_in_use@, i as int),
            decreases n - i,
        {
            if self.token_in_use[i] {
                r = r + 1;
            }
            i = i + 1;
        }
        r
    }
}

/// The shard and token that a thread is bound to. Shards are numbered from 1
/// on, in the order of their creation.
#[derive(Clone, Copy, Debug, PartialEq, Eq, Structural)]
pub struct Binding {
    pub shard: u64,
    pub token: u64,
}

/// Process-wide allocator over shards.
pub struct HostedLazyGlobalWfSpanAllocator<const C: u64, const HG: u64> {
    pub shards: Vec<HostedShard<C, HG>>,
    pub threads_per_shard: u64,
    pub region_spans: u64,
    pub token_acquisition_failures: u64,
    pub shard_creation_failures: u64,
    pub wfspan_allocations: u64,
    pub wfspan_allocation_failures: u64,
    pub system_allocations: u64,
    pub system_deallocations: u64,
    pub service_token_deallocations: u64,
}

/// What an allocation does next.
#[derive(Clone, Copy, Debug, PartialEq, Eq, Structural)]
pub enum AllocStep {
    /// A shard served the request: the thread is bound, and its storage
    /// starts at this address.
    Done(Binding, u64),
    /// A shard with at least this many spans is needed before the allocation
    /// can go on, for the thread with this binding, if it has one.
    Grow(Option<Binding>, u64),
    /// No shard can serve the request: it is one for the operating system.
    Fallback(Option<Binding>),
}

/// The counters of the process-wide allocator.
pub ghost struct Counters {
    pub token_acquisition_failures: u64,
    pub shard_creation_failures: u64,
    pub wfspan_allocations: u64,
    pub wfspan_allocation_failures: u64,
    pub system_allocations: u64,
    pub system_deallocations: u64,
    pub service_token_deallocations: u64,
}

/// The larger of the needed and the configured number of spans.
pub open spec fn growth(storage: Layout, configured: u64) -> int {
    high(high((storage.size + SPAN_SIZE - 1) / (SPAN_SIZE as int), 1), configured as int)
}

impl<const C: u64, const HG: u64> HostedLazyGlobalWfSpanAllocator<C, HG> {
    /// All shards are sound.
    pub open spec fn wf(self) -> bool {
        &&& WfSpanAllocator::<C, HG>::params()
        &&& forall|i: int| 0 <= i < self.shards@.len() ==> (#[trigger] self.shards@[i]).wf()
    }

    /// The counters, as one value.
    pub open spec fn counters(self) -> Counters {
        Counters {
            token_acquisition_failures: self.token_acquisition_failures,
            shard_creation_failures: self.shard_creation_failures,
            wfspan_allocations: self.wfspan_allocations,
            wfspan_allocation_failures: self.wfspan_allocation_failures,
            system_allocations: self.system_allocations,
            system_deallocations: self.system_deallocations,
            service_token_deallocations: self.service_token_deallocations,
        }
    }

    /// The configuration stayed.
    pub open spec fn same_config(self, post: Self) -> bool {
        post.threads_per_shard == self.threads_per_shard && post.region_spans == self.region_spans
    }

    /// User tokens per shard.
    pub open spec fn slots(self) -> u64 {
        if self.threads_per_shard == 0 {
            DEFAULT_THREADS_PER_SHARD
        } else {
            self.threads_per_shard
        }
    }

    /// Spans per shard.
    pub open spec fn spans(self) -> u64 {
        if self.region_spans == 0 {
            DEFAULT_REGION_SPANS
        } else {
            self.region_spans
        }
    }

    /// A binding names a shard and one of its user tokens, which is in use.
    pub open spec fn bound(self, b: Binding) -> bool {
        &&& 1 <= b.shard <= self.shards@.len()
        &&& 1 <= b.token <= self.shards@[b.shard - 1].user_slots
        &&& self.shards@[b.shard - 1].token_in_use@[b.token - 1]
    }

    /// Create an allocator without shards. Zeros stand for the defaults.
    pub fn new(threads_per_shard: u64, region_spans: u64) -> (r: Self)
        requires
            WfSpanAllocator::<C, HG>::params(),
        ensures
            r.wf(),
            r.shards@.len() == 0,
            r.threads_per_shard == threads_per_shard,
            r.region_spans == region_spans,
            r.counters() == (Counters {
                token_acquisition_failures: 0,
                shard_creation_failures: 0,
                wfspan_allocations: 0,
                wfspan_allocation_failures: 0,
                system_allocations: 0,
                system_deallocations: 0,
                service_token_deallocations: 0,
            }),
    {
        Self::with_config(GlobalAllocatorConfig::new(threads_per_shard, region_spans))
    }

    /// Create an allocator without shards from a named configuration.
    pub fn with_config(config: GlobalAllocatorConfig) -> (r: Self)
        requires
            WfSpanAllocator::<C, HG>::params(),
        ensures
            r.wf(),
            r.shards@.len() == 0,
            r.threads_per_shard == config.threads_per_shard,
            r.region_spans == config.region_spans,
            r.counters() == (Counters {
                token_acquisition_failures: 0,
                shard_creation_failures: 0,
                wfspan_allocations: 0,
                wfspan_allocation_failures: 0,
                system_allocations: 0,
                system_deallocations: 0,
                service_token_deallocations: 0,
            }),
    {
        HostedLazyGlobalWfSpanAllocator {
            shards: Vec::new(),
            threads_per_shard: config.threads_per_shard,
            region_spans: config.region_spans,
            token_acquisition_failures: 0,
            shard_creation_failures: 0,
            wfspan_allocations: 0,
            wfspan_allocation_failures: 0,
            system_allocations: 0,
            system_deallocations: 0,
            service_token_deallocations: 0,
        }
    }

    /// Create an allocator without shards with the default configuration.
    pub fn default_hosted() -> (r: Self)
        requires
            WfSpanAllocator::<C, HG>::params(),
        ensures
            r.wf(),
            r.shards@.len() == 0,
            r.threads_per_shard == DEFAULT_THREADS_PER_SHARD,
            r.region_spans == DEFAULT_REGION_SPANS,
            r.counters() == (Counters {
                token_acquisition_failures: 0,
                shard_creation_failures: 0,
                wfspan_allocations: 0,
                wfspan_allocation_failures: 0,
                system_allocations: 0,
                system_deallocations: 0,
                service_token_deallocations: 0,
            }),
    {
        Self::with_config(GlobalAllocatorConfig::default())
    }

    /// Number of shards created so far.
    pub fn shard_count(&self) -> (r: u64)
        ensures
            r == self.shards@.len(),
    {
        self.shards.len() as u64
    }

    /// Tokens in use in the first `i` shards.
    pub open spec fn tokens_upto(self, i: int) -> nat
        decreases i,
    {
        if i <= 0 {
            0
        } else {
            let s = self.shards@[i - 1];
            self.tokens_upto(i - 1) + marked(s.token_in_use@, s.token_in_use@.len() as int)
        }
    }

    /// Number of user tokens in use, over all shards.
    pub fn user_tokens_in_use(&self) -> (r: u64)
        requires
            self.wf(),
            self.tokens_upto(self.shards@.len() as int) <= u64::MAX,
        ensures
            r == self.tokens_upto(self.shards@.len() as int),
    {
        let n: usize = self.shards.len();
        let mut i: usize = 0;
        let mut r: u64 = 0;
        while i < n
            invariant
                self.wf(),
                n == self.shards@.len(),
                i <= n,
                r == self.tokens_upto(i as int),
                self.tokens_upto(n as int) <= u64::MAX,
            decreases n - i,
        {
            proof {
                self.lemma_tokens_grow(i + 1, n as int);
            }
            let in_use: u64 = self.shards[i].user_tokens_in_use();
            r = r + in_use;
            i = i + 1;
        }
        r
    }

    /// Looking at more shards counts no fewer tokens.
    proof fn lemma_tokens_grow(self, i: int, j: int)
        requires
            0 <= i <= j,
        ensures
            self.tokens_upto(i) <= self.tokens_upto(j),
        decreases j - i,
    {
        if i < j {
            self.lemma_tokens_grow(i, j - 1);
        }
    }

    /// Number of allocations that the operating system served.
    pub fn system_allocations(&self) -> (r: u64)
        ensures
            r == self.system_allocations,
    {
        self.system_allocations
    }

    /// Spans of the largest of the first `i` shards.
    pub open spec fn largest_upto(self, i: int) -> u64
        decreases i,
    {
        if i <= 0 {
            0
        } else {
            high(
                self.largest_upto(i - 1) as int,
                self.shards@[i - 1].region_spans as int,
            ) as u64
        }
    }

    /// Spans of the largest shard, or 0.
    fn largest_shard_spans(&self) -> (r: u64)
        ensures
            r == self.largest_upto(self.shards@.len() as int),
    {
        let n: usize = self.shards.len();
        let mut i: usize = 0;
        let mut r: u64 = 0;
        while i < n
            invariant
                n == self.shards@.len(),
                i <= n,
                r == self.largest_upto(i as int),
            decreases n - i,
        {
            r = max(r, self.shards[i].region_spans);
            i = i + 1;
        }
        r
    }

    /// A snapshot of the diagnostics.
    pub fn stats(&self) -> (r: GlobalAllocatorStats)
        requires
            self.wf(),
            self.tokens_upto(self.shards@.len() as int) <= u64::MAX,
        ensures
            r == (GlobalAllocatorStats {
                shard_count: self.shards@.len() as u64,
                user_tokens_in_use: self.tokens_upto(self.shards@.len() as int) as u64,
                token_acquisition_failures: self.token_acquisition_failures,
                shard_creation_failures: self.shard_creation_failures,
                wfspan_allocations: self.wfspan_allocations,
                wfspan_allocation_failures: self.wfspan_allocation_failures,
                system_allocations: self.system_allocations,
                system_deallocations: self.system_deallocations,
                service_token_deallocations: self.service_token_deallocations,
                largest_shard_spans: self.largest_upto(self.shards@.len() as int),
            }),
    {
        GlobalAllocatorStats {
            shard_count: self.shard_count(),
            user_tokens_in_use: self.user_tokens_in_use(),
            token_acquisition_failures: self.token_acquisition_failures,
            shard_creation_failures: self.shard_creation_failures,
            wfspan_allocations: self.wfspan_allocations,
            wfspan_allocation_failures: self.wfspan_allocation_failures,
            system_allocations: self.system_allocations,
            system_deallocations: self.system_deallocations,
            service_token_deallocations: self.service_token_deallocations,
            largest_shard_spans: self.largest_shard_spans(),
        }
    }

    /// The allocator of the first shard, if there is one. Allocations may
    /// come from later shards too.
    pub fn inner(&self) -> (r: Option<&WfSpanAllocator<C, HG>>)
        ensures
            r is Some <==> self.shards@.len() > 0,
            r matches Some(a) ==> *a == self.shards@[0].alloc,
    {
        if self.shards.len() == 0 {
            None
        } else {
            Some(&self.shards[0].alloc)
        }
    }

    /// Index of the newest of the first `i` shards that has a token to give;
    /// -1 if none has.
    pub open spec fn free_shard(self, i: int) -> int
        decreases i,
    {
        if i <= 0 {
            -1
        } else if first_unmarked(self.shards@[i - 1].token_in_use@, 0) < self.shards@[i
            - 1].token_in_use@.len() {
            i - 1
        } else {
            self.free_shard(i - 1)
        }
    }

    /// Only the shard at index `x` changed.
    pub open spec fn shards_but(self, post: Self, x: int) -> bool {
        &&& post.shards@.len() == self.shards@.len()
        &&& forall|j: int|
            0 <= j < self.shards@.len() && j != x ==> #[trigger] post.shards@[j] == self.shards@[j]
    }

    /// Take a free token of the newest shard that has one.
    fn acquire_token_from_any_shard(&mut self) -> (r: Option<Binding>)
        requires
            old(self).wf(),
        ensures
            final(self).wf(),
            old(self).same_config(*final(self)),
            final(self).counters() == old(self).counters(),
            ({
                let x = old(self).free_shard(old(self).shards@.len() as int);
                let i = first_unmarked(old(self).shards@[x].token_in_use@, 0);
                &&& x < 0 ==> r is None && final(self).shards@ == old(self).shards@
                &&& x >= 0 ==> {
                    &&& r == Some(Binding { shard: (x + 1) as u64, token: (i + 1) as u64 })
                    &&& 0 <= i < old(self).shards@[x].token_in_use@.len() < u64::MAX
                    &&& x < old(self).shards@.len() <= u64::MAX
                    &&& old(self).shards_but(*final(self), x)
                    &&& final(self).shards@[x].alloc == old(self).shards@[x].alloc
                    &&& final(self).shards@[x].region_spans == old(self).shards@[x].region_spans
                    &&& final(self).shards@[x].user_slots == old(self).shards@[x].user_slots
                    &&& final(self).shards@[x].token_in_use@ == old(
                        self,
                    ).shards@[x].token_in_use@.update(i, true)
                    &&& !old(self).shards@[x].token_in_use@[i]
                    &&& final(self).bound(r->0)
                }
            }),
    {
        let ghost pre = *self;
        let n: usize = self.shards.len();
        let mut i: usize = n;
        while i > 0
            invariant
                n == pre.shards@.len(),
                i <= n,
                pre == *old(self),
                pre.wf(),
                self.wf(),
                pre.same_config(*self),
                self.counters() == pre.counters(),
                self.shards@ == pre.shards@,
                pre.free_shard(n as int) == pre.free_shard(i as int),
            decreases i,
        {
            let ghost before = self.shards@;
            let ghost x = i - 1;
            proof {
                assert(before[x].wf());
            }
            let token = self.shards[i - 1].acquire_user_token();
            proof {
                assert forall|j: int| 0 <= j < self.shards@.len() implies (
                #[trigger] self.shards@[j]).wf() by {
                    assert(before[j].wf());
                }
            }
            if let Some(t) = token {
                proof {
                    assert(before[x].alloc.n() == before[x].user_slots + 1);
                    assert(before[x].alloc.shape());
                }
                return Some(Binding { shard: i as u64, token: t });
            }
            proof {
                self.lemma_same_shard(before, x);
            }
            i = i - 1;
        }
        None
    }

    /// A shard whose parts all stayed is the same.
    proof fn lemma_same_shard(self, before: Seq<HostedShard<C, HG>>, x: int)
        requires
            0 <= x < before.len(),
            self.shards@.len() == before.len(),
            self.shards@ == before.update(x, self.shards@[x]),
            self.shards@[x] == before[x],
        ensures
            self.shards@ == before,
    {
        assert(self.shards@ =~= before);
    }

    /// The binding of a thread: the one it has, or a new one.
    fn bind_thread(&mut self, binding: Option<Binding>) -> (r: Option<Binding>)
        requires
            old(self).wf(),
            binding matches Some(b) ==> old(self).bound(b),
        ensures
            final(self).wf(),
            old(self).same_config(*final(self)),
            final(self).counters() == old(self).counters(),
            r == old(self).binding_for(binding),
            r matches Some(b) ==> final(self).bound(b),
            old(self).binds(*final(self), binding),
    {
        let n: usize = self.shards.len();
        proof {
            self.lemma_free_shard(n as int);
        }
        match binding {
            Some(b) => Some(b),
            None => self.acquire_token_from_any_shard(),
        }
    }

    /// A shard with a free token is one of those looked at.
    pub(crate) proof fn lemma_free_shard(self, i: int)
        ensures
            self.free_shard(i) < i || self.free_shard(i) == -1,
            self.free_shard(i) >= -1,
            self.free_shard(i) >= 0 ==> first_unmarked(
                self.shards@[self.free_shard(i)].token_in_use@,
                0,
            ) < self.shards@[self.free_shard(i)].token_in_use@.len(),
        decreases i,
    {
        if i > 0 {
            self.lemma_free_shard(i - 1);
        }
    }

    /// The binding that a thread gets: the one it has; else the first free
    /// token of the newest shard that has one.
    pub open spec fn binding_for(self, binding: Option<Binding>) -> Option<Binding> {
        let x = self.free_shard(self.shards@.len() as int);
        match binding {
            Some(b) => Some(b),
            None => if x < 0 {
                None
            } else {
                Some(
                    Binding {
                        shard: (x + 1) as u64,
                        token: (first_unmarked(self.shards@[x].token_in_use@, 0) + 1) as u64,
                    },
                )
            },
        }
    }

    /// Binding a thread marks its token as in use, and changes nothing else.
    pub open spec fn binds(self, post: Self, binding: Option<Binding>) -> bool {
        match (binding, self.binding_for(binding)) {
            (None, Some(b)) => {
                let x = b.shard - 1;
                &&& self.shards_but(post, x)
                &&& post.shards@[x].alloc == self.shards@[x].alloc
                &&& post.shards@[x].region_spans == self.shards@[x].region_spans
                &&& post.shards@[x].user_slots == self.shards@[x].user_slots
                &&& post.shards@[x].token_in_use@ == self.shards@[x].token_in_use@.update(
                    b.token - 1,
                    true,
                )
            },
            _ => post.shards@ == self.shards@,
        }
    }

    /// Allocate from the shard of a binding; 0 if it cannot serve the request.
    fn alloc_in(&mut self, b: Binding, storage: Layout) -> (raw: u64)
        requires
            old(self).wf(),
            old(self).bound(b),
            storage.valid(),
        ensures
            final(self).wf(),
            old(self).same_config(*final(self)),
            final(self).counters() == old(self).counters(),
            final(self).bound(b),
            old(self).served(*final(self), b, storage, raw),
    {
        let ghost before = self.shards@;
        let n: usize = self.shards.len();
        let x: usize = (b.shard - 1) as usize;
        proof {
            assert(before[x as int].wf());
        }
        let raw: u64 = self.shards[x].alloc.alloc_with_token(storage, ThreadToken { id: b.token });
        proof {
            assert forall|j: int| 0 <= j < self.shards@.len() implies (
            #[trigger] self.shards@[j]).wf() by {
                assert(before[j].wf());
            }
        }
        raw
    }

    /// The shard of a binding was asked for a request and returned `raw`;
    /// nothing else changed.
    pub open spec fn served(self, post: Self, b: Binding, storage: Layout, raw: u64) -> bool {
        let x = b.shard - 1;
        &&& self.shards_but(post, x)
        &&& self.shards@[x].alloc.allocated(post.shards@[x].alloc, storage, b.token, raw)
        &&& post.shards@[x].token_in_use@ == self.shards@[x].token_in_use@
        &&& post.shards@[x].user_slots == self.shards@[x].user_slots
        &&& post.shards@[x].region_spans == self.shards@[x].region_spans
    }

    /// Work out the memory of a shard with at least so many spans.
    pub fn plan_shard(&self, min_region_spans: u64) -> (r: Option<ShardPlan>)
        requires
            self.wf(),
        ensures
            r == HostedShard::<C, HG>::plan_of(
                self.slots(),
                high(self.spans() as int, min_region_spans as int) as u64,
            ),
    {
        HostedShard::<C, HG>::plan(
            self.threads_per_shard(),
            max(self.region_spans(), min_region_spans),
        )
    }

    fn threads_per_shard(&self) -> (r: u64)
        ensures
            r == self.slots(),
    {
        if self.threads_per_shard == 0 {
            DEFAULT_THREADS_PER_SHARD
        } else {
            self.threads_per_shard
        }
    }

    fn region_spans(&self) -> (r: u64)
        ensures
            r == self.spans(),
    {
        if self.region_spans == 0 {
            DEFAULT_REGION_SPANS
        } else {
            self.region_spans
        }
    }

    /// The memory suits a shard with at least so many spans.
    pub open spec fn can_link(self, min_region_spans: u64, memory: Option<ShardMemory>) -> bool {
        let plan = HostedShard::<C, HG>::plan_of(
            self.slots(),
            high(self.spans() as int, min_region_spans as int) as u64,
        );
        plan is Some && memory is Some && memory->0.suits(plan->0)
    }

    /// Create a shard with at least so many spans in the memory obtained for
    /// it, and make it the newest. `None` where that fails, which is counted.
    fn create_and_link_shard(&mut self, min_region_spans: u64, memory: Option<ShardMemory>) -> (r:
        Option<u64>)
        requires
            old(self).wf(),
        ensures
            final(self).wf(),
            old(self).same_config(*final(self)),
            r is Some <==> old(self).can_link(min_region_spans, memory),
            r matches Some(shard) ==> {
                &&& shard == final(self).shards@.len()
                &&& final(self).counters() == old(self).counters()
                &&& old(self).linked(*final(self), min_region_spans, memory->0)
            },
            r is None ==> final(self).shards@ == old(self).shards@ && final(self).counters() == (
            Counters {
                shard_creation_failures: bumped(old(self).shard_creation_failures),
                ..old(self).counters()
            }),
    {
        let ghost before = self.shards@;
        let spans: u64 = max(self.region_spans(), min_region_spans);
        let shard = match memory {
            Some(m) => HostedShard::<C, HG>::create(self.threads_per_shard(), spans, m),
            None => None,
        };
        match shard {
            Some(s) => {
                self.shards.push(s);
                proof {
                    assert forall|j: int| 0 <= j < self.shards@.len() implies (
                    #[trigger] self.shards@[j]).wf() by {
                        if j < before.len() {
                            assert(before[j].wf());
                        }
                    }
                }
                Some(self.shards.len() as u64)
            },
            None => {
                AllocatorStats::bump(&mut self.shard_creation_failures);
                None
            },
        }
    }

    /// A fresh shard was added behind the others.
    pub open spec fn linked(self, post: Self, min_region_spans: u64, memory: ShardMemory) -> bool {
        let n = self.shards@.len();
        &&& post.shards@.len() == n + 1
        &&& forall|j: int| 0 <= j < n ==> #[trigger] post.shards@[j] == self.shards@[j]
        &&& post.shards@[n as int].fresh(
            self.slots(),
            high(self.spans() as int, min_region_spans as int) as u64,
            memory.region,
        )
    }

    /// What the start of an allocation does: the thread is bound, and its shard
    /// asked. Where no token is free, or the shard cannot serve the request,
    /// another shard is needed.
    pub open spec fn started(
        self,
        post: Self,
        storage: Layout,
        binding: Option<Binding>,
        r: AllocStep,
    ) -> bool {
        match self.binding_for(binding) {
            None => {
                &&& r == AllocStep::Grow(None, self.spans())
                &&& post.shards@ == self.shards@
                &&& post.counters() == self.counters()
            },
            Some(b) => {
                let raw = self.shards@[b.shard - 1].alloc.alloc_result(storage, b.token);
                &&& exists|mid: Self|
                    #[trigger] self.binds(mid, binding) && mid.served(post, b, storage, raw)
                &&& post.bound(b)
                &&& r == (if raw != 0 {
                    AllocStep::Done(b, raw)
                } else {
                    AllocStep::Grow(Some(b), growth(storage, self.spans()) as u64)
                })
                &&& post.counters() == (Counters {
                    wfspan_allocations: if raw != 0 {
                        bumped(self.wfspan_allocations)
                    } else {
                        self.wfspan_allocations
                    },
                    ..self.counters()
                })
            },
        }
    }

    /// Start an allocation from the shards, for a thread with a binding or
    /// without: bind the thread, and ask its shard. Where no token is free,
    /// or the shard cannot serve the request, another shard is needed.
    pub fn start_alloc(&mut self, storage: Layout, binding: Option<Binding>) -> (r: AllocStep)
        requires
            old(self).wf(),
            storage.valid(),
            binding matches Some(b) ==> old(self).bound(b),
        ensures
            final(self).wf(),
            old(self).same_config(*final(self)),
            old(self).started(*final(self), storage, binding, r),
    {
        let ghost pre = *self;
        let b = match self.bind_thread(binding) {
            Some(b) => b,
            None => {
                return AllocStep::Grow(None, self.region_spans());
            },
        };
        let ghost mid = *self;
        let raw: u64 = self.alloc_in(b, storage);
        let ghost after = *self;
        proof {
            assert(pre.binds(mid, binding));
            assert(mid.shards@[b.shard - 1].alloc == pre.shards@[b.shard - 1].alloc);
        }
        if raw != 0 {
            AllocatorStats::bump(&mut self.wfspan_allocations);
            assert(mid.served(*self, b, storage, raw));
            return AllocStep::Done(b, raw);
        }
        let needed: u64 = self.needed_spans(storage);
        AllocStep::Grow(Some(b), needed)
    }

    /// Spans of a shard that is added for a request.
    fn needed_spans(&self, storage: Layout) -> (r: u64)
        ensures
            r == growth(storage, self.spans()),
    {
        max(max(div_ceil(storage.size(), SPAN_SIZE), 1), self.region_spans())
    }

    /// A thread without a binding, or with the binding `from`, moved to the
    /// first token of the newest shard.
    pub open spec fn moved_to_newest(self, post: Self, from: Option<Binding>) -> bool {
        let last = self.shards@.len() - 1;
        &&& post.shards@.len() == self.shards@.len()
        &&& forall|j: int|
            0 <= j < self.shards@.len() ==> {
                &&& (#[trigger] post.shards@[j]).alloc == self.shards@[j].alloc
                &&& post.shards@[j].user_slots == self.shards@[j].user_slots
                &&& post.shards@[j].region_spans == self.shards@[j].region_spans
                &&& post.shards@[j].token_in_use@ == (if j == last {
                    self.shards@[j].token_in_use@.update(0, true)
                } else if from is Some && j == from->0.shard - 1 {
                    self.shards@[j].token_in_use@.update(from->0.token - 1, false)
                } else {
                    self.shards@[j].token_in_use@
                })
            }
    }

    /// Move a thread to the newest shard, whose tokens are all free.
    fn move_to_newest(&mut self, from: Option<Binding>) -> (r: Binding)
        requires
            old(self).wf(),
            old(self).shards@.len() > 0,
            ({
                let last = old(self).shards@.len() - 1;
                &&& forall|i: int|
                    0 <= i < old(self).shards@[last].token_in_use@.len() ==> !old(
                        self,
                    ).shards@[last].token_in_use@[i]
                &&& from matches Some(b) ==> old(self).bound(b) && b.shard - 1 < last
            }),
        ensures
            final(self).wf(),
            old(self).same_config(*final(self)),
            final(self).counters() == old(self).counters(),
            old(self).moved_to_newest(*final(self), from),
            r.shard == old(self).shards@.len(),
            r.token == 1,
            final(self).bound(r),
    {
        let ghost pre = *self;
        let n: usize = self.shards.len();
        if let Some(b) = from {
            proof {
                assert(pre.shards@[b.shard - 1].wf());
            }
            self.shards[(b.shard - 1) as usize].release_user_token(b.token);
        }
        let ghost mid = *self;
        proof {
            assert(pre.shards@[n - 1].wf());
            assert(mid.shards@[n - 1] == pre.shards@[n - 1]);
        }
        let token = self.shards[n - 1].acquire_user_token();
        proof {
            assert(first_unmarked(pre.shards@[n - 1].token_in_use@, 0) == 0);
            assert forall|j: int| 0 <= j < self.shards@.len() implies (
            #[trigger] self.shards@[j]).wf() by {
                assert(pre.shards@[j].wf());
            }
        }
        match token {
            Some(t) => Binding { shard: n as u64, token: t },
            None => Binding { shard: n as u64, token: 1 },
        }
    }

    /// The counters after a shard could not be added.
    pub open spec fn growth_failed(self, binding: Option<Binding>) -> Counters {
        let c = self.counters();
        if binding is None {
            Counters {
                shard_creation_failures: bumped(c.shard_creation_failures),
                token_acquisition_failures: bumped(c.token_acquisition_failures),
                ..c
            }
        } else {
            Counters {
                shard_creation_failures: bumped(c.shard_creation_failures),
                wfspan_allocation_failures: bumped(c.wfspan_allocation_failures),
                ..c
            }
        }
    }

    /// What going on with an allocation does that needed another shard.
    pub open spec fn resumed(
        self,
        post: Self,
        storage: Layout,
        binding: Option<Binding>,
        spans: u64,
        memory: Option<ShardMemory>,
        r: AllocStep,
    ) -> bool {
        &&& !self.can_link(spans, memory) ==> {
            &&& r == AllocStep::Fallback(binding)
            &&& post.shards@ == self.shards@
            &&& post.counters() == self.growth_failed(binding)
        }
        &&& self.can_link(spans, memory) ==> exists|grown: Self, moved: Self|
            {
                let b = Binding { shard: (self.shards@.len() + 1) as u64, token: 1 };
                let raw = grown.shards@[self.shards@.len() as int].alloc.alloc_result(storage, 1);
                let c = self.counters();
                &&& #[trigger] self.linked(grown, spans, memory->0)
                &&& #[trigger] grown.moved_to_newest(moved, binding)
                &&& moved.served(post, b, storage, raw)
                &&& post.bound(b)
                &&& r == (if raw != 0 {
                    AllocStep::Done(b, raw)
                } else if binding is None {
                    AllocStep::Grow(Some(b), growth(storage, self.spans()) as u64)
                } else {
                    AllocStep::Fallback(Some(b))
                })
                &&& post.counters() == (if raw != 0 {
                    Counters { wfspan_allocations: bumped(c.wfspan_allocations), ..c }
                } else if binding is None {
                    c
                } else {
                    Counters {
                        wfspan_allocation_failures: bumped(c.wfspan_allocation_failures),
                        ..c
                    }
                })
            }
    }

    /// Go on with an allocation that needed another shard, with the memory
    /// obtained for it, or without. The thread moves to the new shard. A
    /// thread that only needed a token may need a larger shard next; one that
    /// moved for room gets no third try.
    pub fn resume_alloc(
        &mut self,
        storage: Layout,
        binding: Option<Binding>,
        spans: u64,
        memory: Option<ShardMemory>,
    ) -> (r: AllocStep)
        requires
            old(self).wf(),
            storage.valid(),
            binding matches Some(b) ==> old(self).bound(b),
        ensures
            final(self).wf(),
            old(self).same_config(*final(self)),
            old(self).resumed(*final(self), storage, binding, spans, memory, r),
    {
        let ghost pre = *self;
        match self.create_and_link_shard(spans, memory) {
            None => {
                match binding {
                    None => {
                        AllocatorStats::bump(&mut self.token_acquisition_failures);
                    },
                    Some(_) => {
                        AllocatorStats::bump(&mut self.wfspan_allocation_failures);
                    },
                }
                AllocStep::Fallback(binding)
            },
            Some(_) => {
                let ghost grown = *self;
                proof {
                    if let Some(b) = binding {
                        assert(grown.shards@[b.shard - 1] == pre.shards@[b.shard - 1]);
                    }
                }
                let b = self.move_to_newest(binding);
                let ghost moved = *self;
                let raw: u64 = self.alloc_in(b, storage);
                proof {
                    assert(pre.linked(grown, spans, memory->0));
                    assert(grown.moved_to_newest(moved, binding));
                }
                if raw != 0 {
                    AllocatorStats::bump(&mut self.wfspan_allocations);
                    assert(moved.served(*self, b, storage, raw));
                    return AllocStep::Done(b, raw);
                }
                match binding {
                    None => {
                        let needed: u64 = self.needed_spans(storage);
                        AllocStep::Grow(Some(b), needed)
                    },
                    Some(_) => {
                        AllocatorStats::bump(&mut self.wfspan_allocation_failures);
                        assert(moved.served(*self, b, storage, raw));
                        AllocStep::Fallback(Some(b))
                    },
                }
            },
        }
    }

    /// Start an allocation of a thread that is ending and cannot be bound any
    /// more: it is one for the operating system. Counted as a failure to bind.
    pub fn deny_binding(&mut self) -> (r: AllocStep)
        requires
            old(self).wf(),
        ensures
            final(self).wf(),
            final(self).shards@ == old(self).shards@,
            old(self).same_config(*final(self)),
            r == AllocStep::Fallback(None),
            final(self).counters() == (Counters {
                token_acquisition_failures: bumped(old(self).token_acquisition_failures),
                ..old(self).counters()
            }),
    {
        AllocatorStats::bump(&mut self.token_acquisition_failures);
        AllocStep::Fallback(None)
    }

    /// A thread never gets a token that another thread has, and the other
    /// thread keeps its own.
    pub proof fn law_tokens_are_not_shared(self, post: Self, other: Binding)
        requires
            self.wf(),
            self.binding_for(None) is Some,
            self.binds(post, None),
            self.bound(other),
        ensures
            self.binding_for(None) != Some(other),
            post.bound(self.binding_for(None)->0),
            post.bound(other),
    {
        let n = self.shards@.len() as int;
        self.lemma_free_shard(n);
        let x = self.free_shard(n);
        let marks = self.shards@[x].token_in_use@;
        lemma_first_unmarked(marks, 0);
        assert(self.shards@[x].wf());
        assert(self.shards@[x].alloc.n() == self.shards@[x].user_slots + 1);
        assert(self.shards@[x].alloc.shape());
        let b = self.binding_for(None)->0;
        assert(self.shards@[other.shard - 1].wf());
        self.lemma_shard_number(x);
    }

    /// A shard number is an address-sized number.
    pub(crate) proof fn lemma_shard_number(self, x: int)
        requires
            0 <= x < self.shards@.len(),
        ensures
            x + 1 <= u64::MAX,
    {
        assert(self.shards.len() == self.shards@.len());
    }

    /// A token that an ending thread returned can be had again.
    pub proof fn law_returned_token_can_be_had(self, post: Self, b: Binding)
        requires
            self.wf(),
            self.bound(b),
            self.shards_but(post, b.shard - 1),
            post.shards@[b.shard - 1].token_in_use@ == self.shards@[b.shard
                - 1].token_in_use@.update(b.token - 1, false),
        ensures
            post.binding_for(None) is Some,
            !post.bound(b),
    {
        let x = b.shard - 1;
        assert(self.shards@[x].wf());
        let marks = post.shards@[x].token_in_use@;
        assert(!marks[b.token - 1]);
        lemma_first_unmarked_below(marks, 0, b.token - 1);
        post.lemma_free_shard_found(post.shards@.len() as int, x);
    }

    /// If a shard has a free token, the search finds one.
    pub(crate) proof fn lemma_free_shard_found(self, i: int, x: int)
        requires
            0 <= x < i <= self.shards@.len(),
            first_unmarked(self.shards@[x].token_in_use@, 0) < self.shards@[x].token_in_use@.len(),
        ensures
            self.free_shard(i) >= 0,
        decreases i,
    {
        if i - 1 != x {
            self.lemma_free_shard_found(i - 1, x);
        }
    }

    /// What a shard served is live in that shard, so that it can be freed
    /// there, and every other live allocation of every shard stays live.
    pub proof fn law_served_allocation_is_live(
        self,
        post: Self,
        b: Binding,
        storage: Layout,
        raw: u64,
    )
        requires
            self.wf(),
            self.bound(b),
            raw != 0,
            self.served(post, b, storage, raw),
        ensures
            post.shards@[b.shard - 1].alloc.live().dom().contains(raw),
            post.shards@[b.shard - 1].alloc.live()[raw] == storage,
            forall|j: int, p: u64|
                0 <= j < self.shards@.len() && #[trigger] self.shards@[j].alloc.live().dom().contains(
                    p,
                ) ==> post.shards@[j].alloc.live().dom().contains(p)
                    && post.shards@[j].alloc.live()[p] == self.shards@[j].alloc.live()[p],
    {
        assert forall|j: int, p: u64|
            0 <= j < self.shards@.len() && #[trigger] self.shards@[j].alloc.live().dom().contains(
                p,
            ) implies post.shards@[j].alloc.live().dom().contains(p)
            && post.shards@[j].alloc.live()[p] == self.shards@[j].alloc.live()[p] by {
            if j != b.shard - 1 {
                assert(post.shards@[j] == self.shards@[j]);
            }
        }
    }

    /// The regions of different shards do not overlap.
    pub open spec fn regions_apart(self) -> bool {
        forall|i: int, j: int|
            0 <= i < j < self.shards@.len() ==> {
                let a = (#[trigger] self.shards@[i]).alloc.pool;
                let b = (#[trigger] self.shards@[j]).alloc.pool;
                a.base + a.count * SPAN_SIZE <= b.base || b.base + b.count * SPAN_SIZE <= a.base
            }
    }

    /// Live allocations never overlap, whether they are of one shard or of
    /// two, where the regions of different shards do not overlap.
    pub proof fn law_live_allocations_of_all_shards_are_disjoint(
        self,
        i: int,
        p: u64,
        j: int,
        q: u64,
    )
        requires
            self.wf(),
            self.regions_apart(),
            0 <= i < self.shards@.len(),
            0 <= j < self.shards@.len(),
            self.shards@[i].alloc.live().dom().contains(p),
            self.shards@[j].alloc.live().dom().contains(q),
            i != j || p != q,
        ensures
            p + self.shards@[i].alloc.live()[p].size <= q || q
                + self.shards@[j].alloc.live()[q].size <= p,
    {
        assert(self.shards@[i].wf());
        assert(self.shards@[j].wf());
        if i == j {
            if p < q {
                self.shards@[i].alloc.law_live_allocations_are_disjoint(p, q);
            } else {
                self.shards@[i].alloc.law_live_allocations_are_disjoint(q, p);
            }
        } else {
            self.shards@[i].alloc.law_live_allocations_are_placed(p);
            self.shards@[j].alloc.law_live_allocations_are_placed(q);
        }
    }

    /// Finish an allocation of the operating system whose storage starts at
    /// `raw`; `None` if it had no memory.
    pub fn finish_system_alloc(&mut self, raw: u64, adjusted: AllocationLayout) -> (r: Option<
        (u64, AllocationHeader),
    >)
        requires
            old(self).wf(),
            raw + adjusted.offset <= u64::MAX,
        ensures
            final(self).wf(),
            final(self).shards@ == old(self).shards@,
            old(self).same_config(*final(self)),
            r is None <==> raw == 0,
            r matches Some(a) ==> a.0 == raw + adjusted.offset && a.1 == (AllocationHeader {
                magic: HEADER_MAGIC,
                backend: BACKEND_SYSTEM,
                shard: 0,
                storage_size: adjusted.storage.size,
                storage_align: adjusted.storage.align,
                offset: adjusted.offset,
            }),
            final(self).counters() == (Counters {
                system_allocations: if raw == 0 {
                    old(self).system_allocations
                } else {
                    bumped(old(self).system_allocations)
                },
                ..old(self).counters()
            }),
    {
        if raw == 0 {
            return None;
        }
        AllocatorStats::bump(&mut self.system_allocations);
        Some(finish_allocation(raw, adjusted, BACKEND_SYSTEM, 0))
    }

    /// Count a deallocation returned to the operating system.
    pub fn count_system_dealloc(&mut self)
        requires
            old(self).wf(),
        ensures
            final(self).wf(),
            final(self).shards@ == old(self).shards@,
            old(self).same_config(*final(self)),
            final(self).counters() == (Counters {
                system_deallocations: bumped(old(self).system_deallocations),
                ..old(self).counters()
            }),
    {
        AllocatorStats::bump(&mut self.system_deallocations);
    }

    /// Token that a thread with this binding frees into a shard with: its
    /// own if it is bound to that shard, else the service token.
    pub open spec fn free_token(binding: Option<Binding>, shard: u64) -> u64 {
        match binding {
            Some(b) => if b.shard == shard {
                b.token
            } else {
                SERVICE_TOKEN_ID
            },
            None => SERVICE_TOKEN_ID,
        }
    }

    /// An allocation went back to its shard, from a thread with this binding.
    pub open spec fn returned(
        self,
        post: Self,
        shard: u64,
        raw: u64,
        binding: Option<Binding>,
    ) -> bool {
        let x = shard - 1;
        let token = Self::free_token(binding, shard);
        &&& self.shards_but(post, x)
        &&& self.shards@[x].alloc.deallocated(post.shards@[x].alloc, raw, token)
        &&& post.shards@[x].token_in_use@ == self.shards@[x].token_in_use@
        &&& post.shards@[x].user_slots == self.shards@[x].user_slots
        &&& post.shards@[x].region_spans == self.shards@[x].region_spans
        &&& post.counters() == (Counters {
            service_token_deallocations: if token == SERVICE_TOKEN_ID {
                bumped(self.service_token_deallocations)
            } else {
                self.service_token_deallocations
            },
            ..self.counters()
        })
    }

    /// Return an allocation to its shard.
    pub fn dealloc_to_wfspan(
        &mut self,
        shard: u64,
        raw: u64,
        storage: Layout,
        binding: Option<Binding>,
    )
        requires
            old(self).wf(),
            binding matches Some(b) ==> old(self).bound(b),
            1 <= shard <= old(self).shards@.len(),
            raw != 0,
            old(self).shards@[shard - 1].alloc.live().dom().contains(raw),
            old(self).shards@[shard - 1].alloc.live()[raw] == storage,
        ensures
            final(self).wf(),
            old(self).same_config(*final(self)),
            old(self).returned(*final(self), shard, raw, binding),
            binding matches Some(b) ==> final(self).bound(b),
    {
        let ghost before = self.shards@;
        let n: usize = self.shards.len();
        let x: usize = (shard - 1) as usize;
        proof {
            assert(before[x as int].wf());
        }
        let own: Option<u64> = match binding {
            Some(b) => {
                if b.shard == shard {
                    Some(b.token)
                } else {
                    None
                }
            },
            None => None,
        };
        let token: u64 = match own {
            Some(t) => t,
            None => {
                AllocatorStats::bump(&mut self.service_token_deallocations);
                SERVICE_TOKEN_ID
            },
        };
        self.shards[x].alloc.dealloc_with_token(raw, storage, ThreadToken { id: token });
        proof {
            assert forall|j: int| 0 <= j < self.shards@.len() implies (
            #[trigger] self.shards@[j]).wf() by {
                assert(before[j].wf());
            }
        }
    }

    /// The token of a binding was given back; nothing else changed.
    pub open spec fn unbound(self, post: Self, b: Binding) -> bool {
        let x = b.shard - 1;
        &&& post.counters() == self.counters()
        &&& self.shards_but(post, x)
        &&& post.shards@[x].alloc == self.shards@[x].alloc
        &&& post.shards@[x].user_slots == self.shards@[x].user_slots
        &&& post.shards@[x].region_spans == self.shards@[x].region_spans
        &&& post.shards@[x].token_in_use@ == self.shards@[x].token_in_use@.update(
            b.token - 1,
            false,
        )
    }

    /// Return the token of a thread that ends.
    pub fn unbind_thread(&mut self, b: Binding)
        requires
            old(self).wf(),
            old(self).bound(b),
        ensures
            final(self).wf(),
            old(self).same_config(*final(self)),
            old(self).unbound(*final(self), b),
    {
        let ghost before = self.shards@;
        let n: usize = self.shards.len();
        let x: usize = (b.shard - 1) as usize;
        proof {
            assert(before[x as int].wf());
        }
        self.shards[x].release_user_token(b.token);
        proof {
            assert forall|j: int| 0 <= j < self.shards@.len() implies (
            #[trigger] self.shards@[j]).wf() by {
                assert(before[j].wf());
            }
        }
    }
}

/// Where a deallocation goes.
#[derive(Clone, Copy, Debug, PartialEq, Eq, Structural)]
pub enum DeallocPlan {
    /// Null, or no valid header: nothing to do.
    Ignore,
    /// To this shard, with the start and layout of the storage.
    Shard(u64, u64, Layout),
    /// To the operating system, with the start and layout of the storage.
    System(u64, Layout),
}

/// Where the allocation at `ptr` goes, by the header before it.
pub open spec fn dealloc_plan(ptr: u64, header: AllocationHeader) -> DeallocPlan {
    let storage = Layout { size: header.storage_size, align: header.storage_align };
    let raw = (ptr - header.offset) as u64;
    if ptr == 0 || !header_ok(header) || ptr < header.offset {
        DeallocPlan::Ignore
    } else if header.backend == BACKEND_WFSPAN {
        DeallocPlan::Shard(header.shard, raw, storage)
    } else {
        DeallocPlan::System(raw, storage)
    }
}

/// Decide where the allocation at `ptr` goes, by the header before it.
pub fn plan_dealloc(ptr: u64, header: &AllocationHeader) -> (r: DeallocPlan)
    ensures
        r == dealloc_plan(ptr, *header),
{
    if ptr == 0 {
        return DeallocPlan::Ignore;
    }
    let info = match validate_header(header) {
        Some(info) => info,
        None => {
            return DeallocPlan::Ignore;
        },
    };
    if ptr < info.offset {
        return DeallocPlan::Ignore;
    }
    let raw: u64 = ptr - info.offset;
    if info.backend == BACKEND_WFSPAN {
        DeallocPlan::Shard(info.shard, raw, info.storage)
    } else {
        DeallocPlan::System(raw, info.storage)
    }
}

} // verus!
