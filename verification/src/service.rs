//! What the process-wide allocator is for, said of its inputs and results.
//!
//! Sizes, limits and tokens stand here as numbers.

use crate::align::{lemma_is_pow2_bounds, lemma_up};
use crate::allocator::WfSpanAllocator;
use crate::global::{
    dealloc_plan, growth, header_for, header_ok, lemma_first_unmarked, marked, obtained,
    realloc_plan, storage_align, storage_offset, AllocStep, AllocationHeader, AllocationLayout,
    Binding, DeallocPlan, HostedLazyGlobalWfSpanAllocator, HostedShard, ReallocPlan, ShardMemory,
    ShardPlan,
};
use crate::huge::huge_class_of;
use crate::large::run_class_of;
use crate::layout::Layout;
use crate::promises::{law_huge_class_is_least, law_run_class_is_least};
use crate::state::{Key, Lane, Path};
use vstd::arithmetic::power2::{lemma2_to64, lemma_pow2_pos, lemma_pow2_strictly_increases, pow2};
use vstd::prelude::*;

verus! {

/// A shard that is added because another one could not serve a request has as
/// many bytes as the storage of the request, and at least the configured number
/// of spans; and no more spans than one of these, or a single span, takes.
pub proof fn law_added_shard_holds_the_request(storage: Layout, configured: u64)
    requires
        storage.valid(),
    ensures
        growth(storage, configured) <= u64::MAX,
        growth(storage, configured) * 65536 >= storage.size,
        growth(storage, configured) >= configured,
        growth(storage, configured) >= 1,
        growth(storage, configured) == configured || growth(storage, configured) == 1 || (growth(
            storage,
            configured,
        ) - 1) * 65536 < storage.size,
{
}

/// The storage of a request starts with room for the 48 bytes of the hidden
/// header; the payload starts at the first offset behind them that is aligned
/// as requested, and to 8, and ends with the storage.
pub proof fn law_storage_of_a_request(layout: Layout, x: int)
    requires
        layout.valid(),
    ensures
        ({
            let align: int = if layout.align >= 8 { layout.align as int } else { 8 };
            let offset = storage_offset(layout);
            &&& storage_align(layout) == align
            &&& offset % align == 0
            &&& 48 <= offset < 48 + align
            &&& x % align == 0 && 48 <= x ==> offset <= x
        }),
{
    lemma_is_pow2_bounds(layout.align);
    let align: int = if layout.align >= 8 { layout.align as int } else { 8 };
    lemma_up(48, align);
    if x % align == 0 && 48 <= x {
        crate::promises::lemma_first_multiple(storage_offset(layout), x, 48, align);
    }
}

/// A header is accepted exactly if it is marked, names a shard or the operating
/// system, and has an offset of at least 48 bytes that lies inside a storage
/// with a valid layout.
pub proof fn law_accepted_headers(h: AllocationHeader)
    ensures
        header_ok(h) <==> {
            &&& h.magic == 0x5746_474C_4F42_3100
            &&& h.backend == 1 && h.shard != 0 || h.backend == 2
            &&& 48 <= h.offset
            &&& h.offset <= h.storage_size
            &&& (Layout { size: h.storage_size, align: h.storage_align }).valid()
        },
{
}

/// An allocation is freed where it came from: to its shard, or to the operating
/// system, with the start and the layout of its storage. Null pointers and
/// headers that are not accepted lead nowhere.
pub proof fn law_freed_where_it_came_from(ptr: u64, h: AllocationHeader)
    ensures
        ({
            let storage = Layout { size: h.storage_size, align: h.storage_align };
            match dealloc_plan(ptr, h) {
                DeallocPlan::Ignore => ptr == 0 || !header_ok(h) || ptr < h.offset,
                DeallocPlan::Shard(shard, raw, l) => {
                    &&& h.backend == 1
                    &&& shard == h.shard
                    &&& raw + h.offset == ptr
                    &&& l == storage
                },
                DeallocPlan::System(raw, l) => {
                    &&& h.backend == 2
                    &&& raw + h.offset == ptr
                    &&& l == storage
                },
            }
        }),
        ptr != 0 && header_ok(h) && ptr >= h.offset ==> !(dealloc_plan(ptr, h) is Ignore),
        ptr == 0 || !header_ok(h) ==> dealloc_plan(ptr, h) is Ignore,
{
}

/// The header written for an allocation from a shard leads back to that shard,
/// and one written for an allocation from the operating system to it, with the
/// start of the storage and its layout, wherever the payload lies behind the
/// 48 bytes of the header.
pub proof fn law_written_header_leads_back(raw: u64, adjusted: AllocationLayout, shard: u64)
    requires
        adjusted.storage.valid(),
        48 <= adjusted.offset <= adjusted.storage.size,
        raw + adjusted.storage.size <= u64::MAX,
        shard != 0,
    ensures
        ({
            let ptr = (raw + adjusted.offset) as u64;
            &&& dealloc_plan(ptr, header_for(adjusted, 1, shard)) == DeallocPlan::Shard(
                shard,
                raw,
                adjusted.storage,
            )
            &&& dealloc_plan(ptr, header_for(adjusted, 2, 0)) == DeallocPlan::System(
                raw,
                adjusted.storage,
            )
        }),
{
    let ptr = (raw + adjusted.offset) as u64;
    law_accepted_headers(header_for(adjusted, 1, shard));
    law_accepted_headers(header_for(adjusted, 2, 0));
    law_freed_where_it_came_from(ptr, header_for(adjusted, 1, shard));
    law_freed_where_it_came_from(ptr, header_for(adjusted, 2, 0));
}

/// A reallocation keeps the alignment and as many bytes as both sizes have. To
/// size 0 it frees, without an old allocation it allocates, and it fails exactly
/// if the new layout is not valid.
pub proof fn law_reallocation_keeps_the_contents(ptr: u64, old_layout: Layout, new_size: u64)
    ensures
        ({
            let new = Layout { size: new_size, align: old_layout.align };
            let plan = realloc_plan(ptr, old_layout, new_size);
            &&& plan is Fail <==> !new.valid()
            &&& plan is Free <==> new.valid() && new_size == 0
            &&& plan is Alloc <==> new.valid() && new_size > 0 && ptr == 0
            &&& plan matches ReallocPlan::Alloc(l) ==> l == new
            &&& plan matches ReallocPlan::Move(l, bytes) ==> {
                &&& l == new
                &&& ptr != 0
                &&& bytes <= old_layout.size
                &&& bytes <= new_size
                &&& bytes == old_layout.size || bytes == new_size
            }
        }),
{
}

/// Memory for a shard suits exactly if both parts are there, the metadata at a
/// multiple of 16 and the region at a multiple of 65536, with its whole length
/// in the address space.
pub proof fn law_memory_that_suits(memory: ShardMemory, plan: ShardPlan)
    ensures
        memory.suits(plan) <==> {
            &&& memory.metadata != 0
            &&& memory.metadata % 16 == 0
            &&& memory.region != 0
            &&& memory.region % 65536 == 0
            &&& memory.region + plan.region.size <= u64::MAX
        },
{
}

/// Of three blocks asked for, those that were obtained go back, each with the
/// layout that it was asked for with, and nothing else.
pub proof fn law_obtained_blocks_go_back(
    plan: ShardPlan,
    metadata: u64,
    region: u64,
    tokens: u64,
    x: (u64, Layout),
)
    ensures
        obtained(plan, metadata, region, tokens).contains(x) <==> x.0 != 0 && (x == (
            metadata,
            plan.metadata,
        ) || x == (region, plan.region) || x == (tokens, plan.tokens)),
        obtained(plan, metadata, region, tokens).len() == (if metadata != 0 {
            1int
        } else {
            0
        }) + (if region != 0 {
            1int
        } else {
            0
        }) + (if tokens != 0 {
            1int
        } else {
            0
        }),
{
    let all = obtained(plan, metadata, region, tokens);
    let a: int = if metadata != 0 { 1 } else { 0 };
    let b: int = if region != 0 { 1 } else { 0 };
    if metadata != 0 {
        assert(all[0] == (metadata, plan.metadata));
    }
    if region != 0 {
        assert(all[a] == (region, plan.region));
    }
    if tokens != 0 {
        assert(all[a + b] == (tokens, plan.tokens));
    }
}

/// Taking a token that is free counts one more, giving one back one less.
pub proof fn law_tokens_are_counted(marks: Seq<bool>, n: int, i: int)
    requires
        0 <= i < n <= marks.len(),
        !marks[i],
    ensures
        marked(marks.update(i, true), n) == marked(marks, n) + 1,
        marked(marks.update(i, true).update(i, false), n) == marked(marks, n),
        marked(marks, n) < n,
{
    lemma_marked_update(marks, n, i);
    assert(marks.update(i, true).update(i, false) =~= marks);
    lemma_marked_bound(marks.update(i, true), n);
}

/// One more mark counts one more.
proof fn lemma_marked_update(marks: Seq<bool>, n: int, i: int)
    requires
        0 <= n <= marks.len(),
        0 <= i < marks.len(),
        !marks[i],
    ensures
        marked(marks.update(i, true), n) == marked(marks, n) + (if i < n { 1nat } else { 0 }),
    decreases n,
{
    if n > 0 {
        lemma_marked_update(marks, n - 1, i);
    }
}

/// No more marks than places.
proof fn lemma_marked_bound(marks: Seq<bool>, n: int)
    requires
        0 <= n <= marks.len(),
    ensures
        marked(marks, n) <= n,
    decreases n,
{
    if n > 0 {
        lemma_marked_bound(marks, n - 1);
    }
}

/// All tokens before the first free one are in use.
proof fn lemma_all_before(marks: Seq<bool>, i: int, j: int)
    requires
        0 <= i <= j < crate::global::first_unmarked(marks, i),
        i <= marks.len(),
    ensures
        j < marks.len(),
        marks[j],
    decreases marks.len() - i,
{
    lemma_first_unmarked(marks, i);
    if i < j {
        lemma_all_before(marks, i + 1, j);
    }
}

impl<const C: u64, const HG: u64> HostedShard<C, HG> {
    /// A fresh shard serves every request that its spans hold, for every token:
    /// a small one if it has a span; a large one if it has `2^r` spans, and the
    /// headers, the padding and the payload fit into them; a huge one if it has
    /// `2^r` granules, and the padding and the payload fit into them.
    pub proof fn law_fresh_shard_serves(
        self,
        user_slots: u64,
        spans: u64,
        region: u64,
        storage: Layout,
        token: u64,
        r: nat,
    )
        requires
            self.fresh(user_slots, spans, region),
            storage.valid(),
            token <= user_slots,
            ({
                let align: int = if storage.align >= 8 { storage.align as int } else { 8 };
                let slack: int = if storage.align >= 65536 { storage.align - 65536 } else { 0 };
                match WfSpanAllocator::<C, HG>::dispatch(storage) {
                    Path::Small(_) => spans >= 1,
                    Path::Large => r <= 16 && pow2(r) <= spans && 1024 + 32 + align - 1
                        + storage.size <= pow2(r) * 65536,
                    Path::Huge => r <= 2 && pow2(r) * HG <= spans && storage.size + slack <= pow2(r)
                        * (HG * 65536),
                }
            }),
        ensures
            self.alloc.alloc_result(storage, token) != 0,
    {
        let alloc = self.alloc;
        lemma2_to64();
        if alloc.alloc_result(storage, token) == 0 {
            alloc.law_failure_means_exhaustion(storage, token);
            match WfSpanAllocator::<C, HG>::dispatch(storage) {
                Path::Small(_) => {},
                Path::Large => {
                    law_run_class_is_least(storage);
                    if r < 16 {
                        lemma_pow2_strictly_increases(r, 16);
                    }
                    let c = run_class_of(storage)->0 as nat;
                    if r < c {
                        assert(pow2(r) * 65536 >= 0);
                    } else if c < r {
                        lemma_pow2_strictly_increases(c, r);
                    }
                },
                Path::Huge => {
                    let granule = HG * 65536;
                    assert(WfSpanAllocator::<C, HG>::granule_bytes() == granule);
                    law_huge_class_is_least(storage, granule);
                    if r < 2 {
                        lemma_pow2_strictly_increases(r, 2);
                    }
                    lemma_pow2_pos(r);
                    assert(pow2(r) * granule <= 4 * granule) by (nonlinear_arith)
                        requires
                            pow2(r) <= 4,
                            granule >= 0,
                    ;
                    let c = huge_class_of(storage, granule)->0 as nat;
                    if c < r {
                        lemma_pow2_strictly_increases(c, r);
                    } else if r < c {
                        assert(pow2(r) * granule >= 0);
                    }
                    assert(pow2(c) * HG <= pow2(r) * HG) by (nonlinear_arith)
                        requires
                            pow2(c) <= pow2(r),
                            HG >= 0,
                    ;
                    let i = 4 * c as int;
                    assert(i / 4 == c && i % 4 == 0);
                    assert(alloc.slot(i / 4, i % 4).state == crate::huge::HUGE_SLOT_EMPTY);
                    assert(alloc.claimable(i));
                },
            }
        }
    }

    /// The memory of a shard: 65536 bytes per span, aligned to that; 8 bytes per
    /// user token; and metadata for one thread more than there are user tokens.
    /// There is a plan exactly if it has a token and a span, and all three are
    /// sizes of objects.
    pub proof fn law_memory_of_a_shard(user_slots: u64, region_spans: u64)
        ensures
            ({
                let metadata = WfSpanAllocator::<C, HG>::offsets(user_slots + 1).end;
                let limit: int = 0x7fff_ffff_ffff_ffff;
                let plan = Self::plan_of(user_slots, region_spans);
                &&& plan is Some <==> {
                    &&& user_slots >= 1
                    &&& region_spans >= 1
                    &&& metadata + 15 <= limit
                    &&& region_spans * 65536 + 65535 <= limit
                    &&& 8 * user_slots + 7 <= limit
                }
                &&& plan matches Some(p) ==> {
                    &&& p.user_slots == user_slots
                    &&& p.region_spans == region_spans
                    &&& p.region.size == region_spans * 65536
                    &&& p.region.align == 65536
                    &&& p.tokens.size == 8 * user_slots
                    &&& p.tokens.align == 8
                    &&& metadata >= 0 ==> p.metadata.size == metadata
                    &&& p.metadata.align == 16
                }
            }),
    {
    }
}

impl<const C: u64, const HG: u64> HostedLazyGlobalWfSpanAllocator<C, HG> {
    /// Zeros in the configuration stand for 64 user tokens and 1024 spans per
    /// shard; everything else is taken as it is.
    pub proof fn law_configuration_is_followed(self)
        ensures
            self.threads_per_shard == 0 ==> self.slots() == 64,
            self.threads_per_shard != 0 ==> self.slots() == self.threads_per_shard,
            self.region_spans == 0 ==> self.spans() == 1024,
            self.region_spans != 0 ==> self.spans() == self.region_spans,
    {
    }

    /// A thread that has a binding keeps it. One that has none gets the first
    /// free token of the newest shard that has one, and is left without exactly
    /// if all tokens of all shards are in use.
    pub proof fn law_newest_free_token_is_taken(self, b: Binding)
        requires
            self.wf(),
        ensures
            self.binding_for(Some(b)) == Some(b),
            match self.binding_for(None) {
                Some(c) => {
                    let marks = self.shards@[c.shard - 1].token_in_use@;
                    &&& 1 <= c.shard <= self.shards@.len()
                    &&& 1 <= c.token <= marks.len()
                    &&& !marks[c.token - 1]
                    &&& forall|j: int| 0 <= j < c.token - 1 ==> #[trigger] marks[j]
                    &&& forall|x: int, j: int|
                        c.shard <= x < self.shards@.len() && 0 <= j
                            < self.shards@[x].token_in_use@.len()
                            ==> #[trigger] self.shards@[x].token_in_use@[j]
                },
                None => forall|x: int, j: int|
                    0 <= x < self.shards@.len() && 0 <= j < self.shards@[x].token_in_use@.len()
                        ==> #[trigger] self.shards@[x].token_in_use@[j],
            },
    {
        let n = self.shards@.len() as int;
        let x = self.free_shard(n);
        self.lemma_free_shard(n);
        assert forall|y: int, j: int|
            0 <= y < n && y > x && 0 <= j
                < self.shards@[y].token_in_use@.len() implies #[trigger] self.shards@[y].token_in_use@[j] by {
            self.lemma_newer_full(n, y);
            lemma_all_before(self.shards@[y].token_in_use@, 0, j);
        }
        if x >= 0 {
            let marks = self.shards@[x].token_in_use@;
            lemma_first_unmarked(marks, 0);
            self.lemma_shard_number(x);
            assert(self.shards@[x].wf());
            let i = crate::global::first_unmarked(marks, 0);
            assert forall|j: int| 0 <= j < i implies #[trigger] marks[j] by {
                lemma_all_before(marks, 0, j);
            }
        }
    }

    /// A shard newer than the one with a free token has none.
    proof fn lemma_newer_full(self, i: int, y: int)
        requires
            0 <= y < i <= self.shards@.len(),
            y > self.free_shard(i),
        ensures
            crate::global::first_unmarked(self.shards@[y].token_in_use@, 0)
                >= self.shards@[y].token_in_use@.len(),
        decreases i,
    {
        if y < i - 1 {
            if crate::global::first_unmarked(self.shards@[i - 1].token_in_use@, 0)
                < self.shards@[i - 1].token_in_use@.len() {
            } else {
                self.lemma_newer_full(i - 1, y);
            }
        }
    }

    /// The start of an allocation ends in one of three ways. The shard of the
    /// thread served it, and what it served is live there. Or the shard could
    /// not, nothing more is live than before, and a shard is needed that has as
    /// many bytes as the storage and at least the configured number of spans.
    /// Or all tokens of all shards are in use, and a shard of the configured
    /// number of spans is needed. The operating system is not asked.
    pub proof fn law_start_of_an_allocation(
        self,
        post: Self,
        storage: Layout,
        binding: Option<Binding>,
        r: AllocStep,
    )
        requires
            self.wf(),
            storage.valid(),
            binding matches Some(b) ==> self.bound(b),
            self.started(post, storage, binding, r),
        ensures
            match r {
                AllocStep::Done(b, raw) => {
                    &&& raw != 0
                    &&& post.bound(b)
                    &&& binding is Some ==> binding == Some(b)
                    &&& post.shards@[b.shard - 1].alloc.live()
                        == self.shards@[b.shard - 1].alloc.live().insert(raw, storage)
                    &&& self.wfspan_allocations < u64::MAX ==> post.wfspan_allocations
                        == self.wfspan_allocations + 1
                },
                AllocStep::Grow(Some(b), spans) => {
                    &&& post.bound(b)
                    &&& binding is Some ==> binding == Some(b)
                    &&& post.shards@[b.shard - 1].alloc.live()
                        == self.shards@[b.shard - 1].alloc.live()
                    &&& spans * 65536 >= storage.size
                    &&& spans >= self.spans()
                    &&& post.counters() == self.counters()
                },
                AllocStep::Grow(None, spans) => {
                    &&& binding is None
                    &&& spans == self.spans()
                    &&& forall|x: int, j: int|
                        0 <= x < self.shards@.len() && 0 <= j < self.shards@[x].token_in_use@.len()
                            ==> #[trigger] self.shards@[x].token_in_use@[j]
                    &&& post.shards@ == self.shards@
                    &&& post.counters() == self.counters()
                },
                AllocStep::Fallback(_) => false,
            },
            post.system_allocations == self.system_allocations,
    {
        law_added_shard_holds_the_request(storage, self.spans());
        self.law_newest_free_token_is_taken(Binding { shard: 0, token: 0 });
        assert(post.counters().system_allocations == post.system_allocations);
        assert(post.counters().wfspan_allocations == post.wfspan_allocations);
        match self.binding_for(binding) {
            Some(b) => {
                let raw = self.shards@[b.shard - 1].alloc.alloc_result(storage, b.token);
                let mid = choose|mid: Self|
                    #[trigger] self.binds(mid, binding) && mid.served(post, b, storage, raw);
                assert(mid.shards@[b.shard - 1].alloc == self.shards@[b.shard - 1].alloc);
            },
            None => {},
        }
    }

    /// Going on with an allocation for which memory was obtained adds a shard
    /// with at least the spans asked for and the configured number, and moves
    /// the thread to its first token. If the new shard serves the request, that
    /// is the end. If not, a thread that had no token before asks for a shard
    /// that holds the request, and any other goes to the operating system. No
    /// memory, or memory that does not suit, means the operating system too.
    pub proof fn law_going_on_with_an_allocation(
        self,
        post: Self,
        storage: Layout,
        binding: Option<Binding>,
        spans: u64,
        memory: Option<ShardMemory>,
        r: AllocStep,
    )
        requires
            self.wf(),
            storage.valid(),
            binding matches Some(b) ==> self.bound(b),
            self.resumed(post, storage, binding, spans, memory, r),
        ensures
            ({
                let n = self.shards@.len() as int;
                let b = Binding { shard: (n + 1) as u64, token: 1 };
                let added = post.shards@[n];
                &&& self.can_link(spans, memory) ==> {
                    &&& post.shards@.len() == n + 1
                    &&& added.region_spans >= spans
                    &&& added.region_spans >= self.spans()
                    &&& added.region_spans == spans || added.region_spans == self.spans()
                    &&& added.user_slots == self.slots()
                    &&& added.alloc.n() == self.slots() + 1
                    &&& added.alloc.pool.base == memory->0.region
                    &&& added.alloc.pool.count == added.region_spans
                    &&& added.token_in_use@.len() == self.slots()
                    &&& forall|j: int|
                        1 <= j < self.slots() ==> !#[trigger] added.token_in_use@[j]
                    &&& post.bound(b)
                    &&& binding is Some ==> !post.bound(binding->0)
                    &&& match r {
                        AllocStep::Done(c, raw) => {
                            &&& c == b
                            &&& raw != 0
                            &&& added.alloc.live() == Map::<u64, Layout>::empty().insert(
                                raw,
                                storage,
                            )
                            &&& self.wfspan_allocations < u64::MAX ==> post.wfspan_allocations
                                == self.wfspan_allocations + 1
                        },
                        AllocStep::Grow(c, more) => {
                            &&& binding is None
                            &&& c == Some(b)
                            &&& more * 65536 >= storage.size
                            &&& more >= self.spans()
                            &&& post.counters() == self.counters()
                        },
                        AllocStep::Fallback(c) => {
                            &&& binding is Some
                            &&& c == Some(b)
                            &&& self.wfspan_allocation_failures < u64::MAX
                                ==> post.wfspan_allocation_failures
                                == self.wfspan_allocation_failures + 1
                        },
                    }
                }
                &&& !self.can_link(spans, memory) ==> {
                    &&& r == AllocStep::Fallback(binding)
                    &&& post.shards@ == self.shards@
                    &&& self.shard_creation_failures < u64::MAX ==> post.shard_creation_failures
                        == self.shard_creation_failures + 1
                    &&& binding is None && self.token_acquisition_failures < u64::MAX
                        ==> post.token_acquisition_failures == self.token_acquisition_failures + 1
                        && post.wfspan_allocation_failures == self.wfspan_allocation_failures
                    &&& binding is Some && self.wfspan_allocation_failures < u64::MAX
                        ==> post.wfspan_allocation_failures == self.wfspan_allocation_failures + 1
                        && post.token_acquisition_failures == self.token_acquisition_failures
                }
            }),
            post.system_allocations == self.system_allocations,
    {
        law_added_shard_holds_the_request(storage, self.spans());
        assert(post.counters().system_allocations == post.system_allocations);
        assert(post.counters().wfspan_allocations == post.wfspan_allocations);
        assert(post.counters().wfspan_allocation_failures == post.wfspan_allocation_failures);
        assert(post.counters().token_acquisition_failures == post.token_acquisition_failures);
        assert(post.counters().shard_creation_failures == post.shard_creation_failures);
        if self.can_link(spans, memory) {
            let n = self.shards@.len() as int;
            let (grown, moved) = choose|grown: Self, moved: Self|
                {
                    let b = Binding { shard: (n + 1) as u64, token: 1 };
                    let raw = grown.shards@[n].alloc.alloc_result(storage, 1);
                    let c = self.counters();
                    &&& #[trigger] self.linked(grown, spans, memory->0)
                    &&& #[trigger] grown.moved_to_newest(moved, binding)
                    &&& moved.served(post, b, storage, raw)
                    &&& post.bound(b)
                    &&& r == (if raw != 0 {
                        AllocStep::Done(b, raw)
                    } else if binding is None {
                        AllocStep::Grow(Some(b), growth(storage, self.spans()) as u64)
                    } else {
                        AllocStep::Fallback(Some(b))
                    })
                };
            grown.lemma_shard_number(n);
            assert(moved.shards@[n].alloc == grown.shards@[n].alloc);
            if binding is Some {
                let x = binding->0.shard - 1;
                assert(self.shards@[x].wf());
                assert(grown.shards@[x] == self.shards@[x]);
                assert(moved.shards@[x].alloc == grown.shards@[x].alloc);
                assert(post.shards@[x] == moved.shards@[x]);
            }
        }
    }

    /// The memory for a new shard is taken exactly if there is some, a plan for
    /// the larger of the spans asked for and the configured number, and it suits
    /// that plan.
    pub proof fn law_when_a_shard_is_added(self, spans: u64, memory: Option<ShardMemory>)
        ensures
            ({
                let size = if spans >= self.spans() { spans } else { self.spans() };
                let plan = HostedShard::<C, HG>::plan_of(self.slots(), size);
                self.can_link(spans, memory) <==> memory is Some && plan is Some
                    && memory->0.suits(plan->0)
            }),
    {
    }

    /// An added shard has the configured number of user tokens, all free, and a
    /// thread more for the service token. It has as many spans as were asked for
    /// or configured, whichever is more, none of them used, in the memory
    /// obtained for it. The other shards stay.
    pub proof fn law_added_shard_is_new(
        self,
        post: Self,
        spans: u64,
        memory: ShardMemory,
        i: int,
    )
        requires
            self.linked(post, spans, memory),
        ensures
            ({
                let n = self.shards@.len() as int;
                let s = post.shards@[n];
                &&& post.shards@.len() == n + 1
                &&& s.user_slots == self.slots()
                &&& s.alloc.registry.next == 0
                &&& s.alloc.registry.max == (self.slots() + 1) as u64
                &&& s.region_spans >= spans
                &&& s.region_spans >= self.spans()
                &&& s.region_spans == spans || s.region_spans == self.spans()
                &&& s.alloc.pool.base == memory.region
                &&& s.alloc.pool.count == s.region_spans
                &&& s.alloc.pool.next == 0
                &&& s.alloc.live() == Map::<u64, Layout>::empty()
                &&& 0 <= i < s.token_in_use@.len() ==> !s.token_in_use@[i]
                &&& 0 <= i < n ==> post.shards@[i] == self.shards@[i]
            }),
    {
    }

    /// Binding a thread that has no token counts one token more, over all
    /// shards, and the end of a thread one less.
    pub proof fn law_tokens_in_use_are_counted(self, post: Self, b: Binding)
        requires
            self.wf(),
        ensures
            self.binding_for(None) is Some && self.binds(post, None) ==> post.tokens_upto(
                post.shards@.len() as int,
            ) == self.tokens_upto(self.shards@.len() as int) + 1,
            self.bound(b) && self.unbound(post, b) ==> post.tokens_upto(post.shards@.len() as int)
                + 1 == self.tokens_upto(self.shards@.len() as int),
    {
        let n = self.shards@.len() as int;
        if self.binding_for(None) is Some && self.binds(post, None) {
            self.law_newest_free_token_is_taken(b);
            let c = self.binding_for(None)->0;
            let x = c.shard - 1;
            assert(self.shards@[x].wf());
            let marks = self.shards@[x].token_in_use@;
            law_tokens_are_counted(marks, marks.len() as int, c.token - 1);
            self.lemma_tokens_differ(post, n, x);
        }
        if self.bound(b) && self.unbound(post, b) {
            let x = b.shard - 1;
            assert(self.shards@[x].wf());
            let marks = post.shards@[x].token_in_use@;
            law_tokens_are_counted(marks, marks.len() as int, b.token - 1);
            assert(marks.update(b.token - 1, true) =~= self.shards@[x].token_in_use@);
            post.lemma_tokens_differ(self, n, x);
        }
    }

    /// One shard with a token more.
    proof fn lemma_tokens_differ(self, post: Self, i: int, x: int)
        requires
            0 <= i <= self.shards@.len(),
            0 <= x < self.shards@.len(),
            post.shards@.len() == self.shards@.len(),
            forall|j: int|
                0 <= j < self.shards@.len() && j != x ==> #[trigger] post.shards@[j]
                    == self.shards@[j],
            marked(post.shards@[x].token_in_use@, post.shards@[x].token_in_use@.len() as int)
                == marked(self.shards@[x].token_in_use@, self.shards@[x].token_in_use@.len() as int)
                + 1,
        ensures
            post.tokens_upto(i) == self.tokens_upto(i) + (if x < i { 1nat } else { 0 }),
        decreases i,
    {
        if i > 0 {
            self.lemma_tokens_differ(post, i - 1, x);
            if i - 1 != x {
                assert(post.shards@[i - 1] == self.shards@[i - 1]);
            }
        }
    }

    /// A thread that is bound to the shard of an allocation frees it with its own
    /// token, whichever that is, and every other thread with the service token,
    /// which is counted. No other count changes, and no other shard.
    pub proof fn law_bound_thread_frees_with_its_own_token(
        self,
        post: Self,
        shard: u64,
        raw: u64,
        binding: Option<Binding>,
    )
        requires
            self.wf(),
            binding matches Some(b) ==> self.bound(b),
            1 <= shard <= self.shards@.len(),
            self.returned(post, shard, raw, binding),
        ensures
            ({
                let before = self.shards@[shard - 1].alloc;
                let after = post.shards@[shard - 1].alloc;
                let own = binding is Some && binding->0.shard == shard;
                &&& own ==> before.deallocated(after, raw, binding->0.token)
                &&& own ==> post.counters() == self.counters()
                &&& !own ==> before.deallocated(after, raw, 0)
                &&& !own && self.service_token_deallocations < u64::MAX
                    ==> post.service_token_deallocations == self.service_token_deallocations + 1
                &&& post.wfspan_allocations == self.wfspan_allocations
                &&& post.system_deallocations == self.system_deallocations
            }),
            forall|j: int|
                0 <= j < self.shards@.len() && j != shard - 1 ==> #[trigger] post.shards@[j]
                    == self.shards@[j],
    {
        assert(post.counters().service_token_deallocations == post.service_token_deallocations);
        assert(post.counters().wfspan_allocations == post.wfspan_allocations);
        assert(post.counters().system_deallocations == post.system_deallocations);
    }

    /// A small block that a bound thread got and frees is the next one that it
    /// gets for the same request, unless the free fills the span of a private
    /// list of more than 40 spans, which is then public.
    pub proof fn law_bound_thread_gets_its_block_back(
        self,
        mid: Self,
        post: Self,
        b: Binding,
        storage: Layout,
        raw: u64,
    )
        requires
            self.wf(),
            mid.wf(),
            post.wf(),
            self.bound(b),
            storage.valid(),
            WfSpanAllocator::<C, HG>::dispatch(storage) is Small,
            self.shards@[b.shard - 1].alloc.joined(),
            self.shards@[b.shard - 1].alloc.tidy(),
            raw != 0,
            self.served(mid, b, storage, raw),
            mid.returned(post, b.shard, raw, Some(b)),
            ({
                let a = mid.shards@[b.shard - 1].alloc;
                let s = (raw - raw % 65536) as u64;
                let k = Key {
                    lane: Lane::Span,
                    class: a.header(s).size_class,
                    tid: b.token,
                };
                a.local(k).seq().len() <= 40 || a.header(s).free_blocks().len() + 1
                    < a.header(s).block_count
            }),
        ensures
            post.shards@[b.shard - 1].alloc.alloc_result(storage, b.token) == raw,
    {
        let x = b.shard - 1;
        assert(self.shards@[x].wf());
        assert(mid.shards@[x].wf());
        assert(post.shards@[x].wf());
        let k = Key {
            lane: Lane::Span,
            class: WfSpanAllocator::<C, HG>::dispatch(storage)->Small_0,
            tid: b.token,
        };
        mid.law_bound_thread_frees_with_its_own_token(post, b.shard, raw, Some(b));
        self.shards@[x].alloc.law_serving_span_is_in_front(
            mid.shards@[x].alloc,
            storage,
            k,
            raw,
            (raw - raw % 65536) as u64,
        );
        self.shards@[x].alloc.law_freed_block_comes_back(
            mid.shards@[x].alloc,
            post.shards@[x].alloc,
            storage,
            k,
            raw,
        );
    }

    /// A thread that moves to the newest shard gives its old token back and has
    /// the first one of the newest shard; every other binding stays.
    pub proof fn law_moving_returns_the_old_token(
        self,
        post: Self,
        from: Option<Binding>,
        other: Binding,
    )
        requires
            self.wf(),
            self.shards@.len() > 0,
            from matches Some(b) ==> self.bound(b) && b.shard < self.shards@.len(),
            self.moved_to_newest(post, from),
        ensures
            ({
                let new = Binding { shard: self.shards@.len() as u64, token: 1 };
                &&& post.bound(new)
                &&& from is Some ==> !post.bound(from->0)
                &&& other != new && Some(other) != from ==> (post.bound(other) <==> self.bound(
                    other,
                ))
            }),
    {
        let n = self.shards@.len() as int;
        self.lemma_shard_number(n - 1);
        assert(self.shards@[n - 1].wf());
        assert(self.shards@[n - 1].alloc.n() == self.shards@[n - 1].user_slots + 1);
        assert(post.shards@[n - 1].alloc == self.shards@[n - 1].alloc);
        if from is Some {
            let x = from->0.shard - 1;
            assert(self.shards@[x].wf());
            assert(post.shards@[x].alloc == self.shards@[x].alloc);
        }
        if 1 <= other.shard <= n {
            let x = other.shard - 1;
            assert(self.shards@[x].wf());
            assert(post.shards@[x].alloc == self.shards@[x].alloc);
        }
    }

    /// A thread that ends gives back its own token and no other.
    pub proof fn law_ending_thread_returns_its_token(self, post: Self, b: Binding, other: Binding)
        requires
            self.wf(),
            self.bound(b),
            self.unbound(post, b),
        ensures
            !post.bound(b),
            other != b ==> (post.bound(other) <==> self.bound(other)),
            post.binding_for(None) is Some,
    {
        self.law_returned_token_can_be_had(post, b);
        let x = b.shard - 1;
        assert(self.shards@[x].wf());
        if 1 <= other.shard <= self.shards@.len() {
            assert(self.shards@[other.shard - 1].wf());
            if other.shard != b.shard {
                assert(post.shards@[other.shard - 1] == self.shards@[other.shard - 1]);
            }
        }
    }

    /// The largest shard is none smaller than any other, and one of them.
    pub proof fn law_largest_shard(self, i: int, j: int)
        requires
            0 <= j < i <= self.shards@.len(),
        ensures
            self.largest_upto(i) >= self.shards@[j].region_spans,
            exists|x: int|
                0 <= x < i && self.largest_upto(i) == (#[trigger] self.shards@[x]).region_spans,
        decreases i,
    {
        if i > 1 {
            if j < i - 1 {
                self.law_largest_shard(i - 1, j);
            } else {
                self.law_largest_shard(i - 1, 0);
            }
            let x = choose|x: int|
                0 <= x < i - 1 && self.largest_upto(i - 1) == (
                #[trigger] self.shards@[x]).region_spans;
            assert(self.largest_upto(i) == self.shards@[x].region_spans || self.largest_upto(i)
                == self.shards@[i - 1].region_spans);
        } else {
            assert(self.largest_upto(0) == 0);
            assert(self.largest_upto(1) == self.shards@[0].region_spans);
        }
    }
}

} // verus!
