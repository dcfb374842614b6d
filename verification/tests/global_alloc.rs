//! The process-wide allocator, with an operating system that hands out
//! addresses one behind the other, and threads that are their bindings.

use std::collections::HashMap;
use wf_alloc::global::{
    allocation_layout, finish_allocation, plan_dealloc, plan_realloc, settle_shard, validate_header,
    AllocStep,
    AllocationHeader, Binding, DeallocPlan, GlobalAllocatorConfig, HostedLazyGlobalWfSpanAllocator,
    HostedShard, ReallocPlan, ShardMemory, BACKEND_SYSTEM, BACKEND_WFSPAN,
    DEFAULT_REGION_SPANS, DEFAULT_THREADS_PER_SHARD, HEADER_MAGIC, HEADER_SIZE,
};
use wf_alloc::{Layout, DEFAULT_HUGE_GRANULE_SPANS, SPAN_SIZE};

const C: u64 = 4;

/// An operating system and the headers that were written in its memory.
struct Host<const HG: u64> {
    global: HostedLazyGlobalWfSpanAllocator<C, HG>,
    next: u64,
    headers: HashMap<u64, AllocationHeader>,
    out_of_memory: bool,
}

impl<const HG: u64> Host<HG> {
    fn new(global: HostedLazyGlobalWfSpanAllocator<C, HG>) -> Self {
        Host { global, next: 0x1000_0000, headers: HashMap::new(), out_of_memory: false }
    }

    fn system(&mut self, layout: Layout) -> u64 {
        if self.out_of_memory {
            return 0;
        }
        let at = (self.next + layout.align() - 1) / layout.align() * layout.align();
        self.next = at + layout.size();
        at
    }

    fn shard_memory(&mut self, spans: u64) -> Option<ShardMemory> {
        let plan = self.global.plan_shard(spans)?;
        let metadata = self.system(plan.metadata);
        let region = self.system(plan.region);
        let tokens = self.system(plan.tokens);
        settle_shard(plan, metadata, region, tokens).ok()
    }

    fn allocate(&mut self, layout: Layout, thread: &mut Option<Binding>) -> u64 {
        let Some(adjusted) = allocation_layout(layout) else {
            return 0;
        };
        let mut step = self.global.start_alloc(adjusted.storage, *thread);
        loop {
            match step {
                AllocStep::Done(b, raw) => {
                    *thread = Some(b);
                    let (p, h) = finish_allocation(raw, adjusted, BACKEND_WFSPAN, b.shard);
                    self.headers.insert(p, h);
                    return p;
                }
                AllocStep::Grow(b, spans) => {
                    *thread = b;
                    let memory = self.shard_memory(spans);
                    step = self.global.resume_alloc(adjusted.storage, b, spans, memory);
                }
                AllocStep::Fallback(b) => {
                    *thread = b;
                    let raw = self.system(adjusted.storage);
                    return match self.global.finish_system_alloc(raw, adjusted) {
                        Some((p, h)) => {
                            self.headers.insert(p, h);
                            p
                        }
                        None => 0,
                    };
                }
            }
        }
    }

    fn deallocate(&mut self, p: u64, thread: Option<Binding>) {
        if p == 0 {
            return;
        }
        let h = self.headers.remove(&p).unwrap();
        match plan_dealloc(p, &h) {
            DeallocPlan::Ignore => panic!("header of a live allocation"),
            DeallocPlan::Shard(shard, raw, storage) => {
                self.global.dealloc_to_wfspan(shard, raw, storage, thread)
            }
            DeallocPlan::System(_, _) => self.global.count_system_dealloc(),
        }
    }

    fn reallocate(&mut self, p: u64, old: Layout, size: u64, thread: &mut Option<Binding>) -> u64 {
        match plan_realloc(p, old, size) {
            ReallocPlan::Fail => 0,
            ReallocPlan::Free => {
                self.deallocate(p, *thread);
                0
            }
            ReallocPlan::Alloc(new) => self.allocate(new, thread),
            ReallocPlan::Move(new, bytes) => {
                let q = self.allocate(new, thread);
                if q != 0 {
                    // The prefix that is copied fits both allocations, which
                    // do not overlap.
                    assert!(bytes == old.size().min(size));
                    assert!(p + bytes <= q || q + bytes <= p);
                    self.deallocate(p, *thread);
                }
                q
            }
        }
    }
}

fn layout(size: u64, align: u64) -> Layout {
    Layout::from_size_align(size, align).unwrap()
}

#[test]
fn hosted_lazy_with_config_uses_named_parameters() {
    let mut host = Host::<DEFAULT_HUGE_GRANULE_SPANS>::new(
        HostedLazyGlobalWfSpanAllocator::with_config(GlobalAllocatorConfig::new(2, 4)),
    );
    let mut thread = None;
    let p = host.allocate(layout(64, 8), &mut thread);
    assert!(p != 0);
    host.deallocate(p, thread);
    assert_eq!(host.global.shard_count(), 1);
    assert_eq!(host.global.inner().unwrap().active_threads(), 3);
}

#[test]
fn hosted_lazy_default_hosted_allocates() {
    let mut host =
        Host::<DEFAULT_HUGE_GRANULE_SPANS>::new(HostedLazyGlobalWfSpanAllocator::default_hosted());
    assert!(host.global.inner().is_none());
    let mut thread = None;
    let p = host.allocate(layout(64, 8), &mut thread);
    assert!(p != 0);
    host.deallocate(p, thread);
    assert_eq!(host.global.shard_count(), 1);
}

#[test]
fn hosted_lazy_zero_config_uses_runtime_defaults() {
    let mut host = Host::<DEFAULT_HUGE_GRANULE_SPANS>::new(
        HostedLazyGlobalWfSpanAllocator::with_config(GlobalAllocatorConfig::new(0, 0)),
    );
    let mut thread = None;
    let p = host.allocate(layout(64, 8), &mut thread);
    assert!(p != 0);
    host.deallocate(p, thread);
    assert_eq!(host.global.shard_count(), 1);
    assert_eq!(host.global.stats().largest_shard_spans, DEFAULT_REGION_SPANS);
    assert_eq!(
        host.global.inner().unwrap().active_threads(),
        DEFAULT_THREADS_PER_SHARD + 1
    );
}

#[test]
fn token_pressure_shards_use_configured_region_size() {
    const THREADS: usize = 4;
    let mut host =
        Host::<DEFAULT_HUGE_GRANULE_SPANS>::new(HostedLazyGlobalWfSpanAllocator::new(1, 3));
    let mut threads = [None; THREADS];
    let mut ptrs = Vec::new();
    for thread in threads.iter_mut() {
        let p = host.allocate(layout(64, 8), thread);
        assert!(p != 0);
        ptrs.push(p);
    }
    let stats = host.global.stats();
    assert!(stats.shard_count >= THREADS as u64);
    assert_eq!(stats.largest_shard_spans, 3);
    assert_eq!(stats.user_tokens_in_use, THREADS as u64);
    for (t, p) in ptrs.into_iter().enumerate() {
        host.deallocate(p, threads[t]);
        host.global.unbind_thread(threads[t].unwrap());
    }
    assert_eq!(host.global.user_tokens_in_use(), 0);
}

#[test]
fn large_request_shard_grows_to_required_span_count() {
    let mut host =
        Host::<DEFAULT_HUGE_GRANULE_SPANS>::new(HostedLazyGlobalWfSpanAllocator::new(1, 1));
    let mut thread = None;
    let p = host.allocate(layout(SPAN_SIZE * 3, 8), &mut thread);
    assert!(p != 0);
    host.deallocate(p, thread);
    let stats = host.global.stats();
    assert!(stats.shard_count >= 2);
    assert!(stats.largest_shard_spans >= 4);
    assert_eq!(stats.system_allocations, 0);
    // The thread moved to the new shard and left its first token.
    assert_eq!(thread, Some(Binding { shard: 2, token: 1 }));
    assert_eq!(stats.user_tokens_in_use, 1);
}

#[test]
fn beyond_wfspan_limit_uses_system_fallback_without_growing_shard_to_request() {
    // With a one-span huge granule, five spans exceed the largest huge class.
    let mut host = Host::<1>::new(HostedLazyGlobalWfSpanAllocator::new(1, 8));
    let mut thread = None;
    let p = host.allocate(layout(SPAN_SIZE * 5, 8), &mut thread);
    assert!(p != 0);
    host.deallocate(p, thread);
    let stats = host.global.stats();
    assert_eq!(stats.system_allocations, 1);
    assert_eq!(host.global.system_allocations(), 1);
    assert_eq!(stats.system_deallocations, 1);
    assert_eq!(stats.largest_shard_spans, 8);
    assert_eq!(stats.wfspan_allocation_failures, 1);
}

#[test]
fn hosted_lazy_realloc_grows_and_shrinks_wfspan_allocations() {
    let mut host =
        Host::<DEFAULT_HUGE_GRANULE_SPANS>::new(HostedLazyGlobalWfSpanAllocator::new(1, 8));
    let mut thread = None;
    let small = layout(64, 16);
    let large = layout(1024, 16);
    let shrink = layout(32, 16);
    let p = host.allocate(small, &mut thread);
    assert!(p != 0);
    let p = host.reallocate(p, small, large.size(), &mut thread);
    assert!(p != 0);
    assert_eq!(p % large.align(), 0);
    let p = host.reallocate(p, large, shrink.size(), &mut thread);
    assert!(p != 0);
    assert_eq!(p % shrink.align(), 0);
    host.deallocate(p, thread);
    assert!(host.headers.is_empty());
}

#[test]
fn hosted_lazy_realloc_moves_between_wfspan_and_system() {
    let mut host = Host::<1>::new(HostedLazyGlobalWfSpanAllocator::new(1, 8));
    let mut thread = None;
    let small = layout(128, 64);
    let fallback = layout(SPAN_SIZE * 5, 64);
    let p = host.allocate(small, &mut thread);
    assert!(p != 0);
    let p = host.reallocate(p, small, fallback.size(), &mut thread);
    assert!(p != 0);
    assert_eq!(p % fallback.align(), 0);
    assert_eq!(host.global.stats().system_allocations, 1);
    let p = host.reallocate(p, fallback, small.size(), &mut thread);
    assert!(p != 0);
    assert_eq!(p % small.align(), 0);
    assert_eq!(host.global.stats().system_deallocations, 1);
    host.deallocate(p, thread);
}

#[test]
fn hosted_lazy_realloc_after_allocating_thread_exit() {
    let mut host =
        Host::<DEFAULT_HUGE_GRANULE_SPANS>::new(HostedLazyGlobalWfSpanAllocator::new(1, 8));
    let old = layout(64, 8);
    let mut first = None;
    let p = host.allocate(old, &mut first);
    assert!(p != 0);
    host.global.unbind_thread(first.unwrap());
    // The allocation is still live after its thread ended.
    let mut second = None;
    let q = host.reallocate(p, old, 512, &mut second);
    assert!(q != 0);
    assert_eq!(first, second, "the returned token is had again");
    host.deallocate(q, second);
    assert_eq!(host.global.shard_count(), 1);
}

#[test]
fn hosted_lazy_realloc_null_and_zero_size_edges() {
    let mut host =
        Host::<DEFAULT_HUGE_GRANULE_SPANS>::new(HostedLazyGlobalWfSpanAllocator::new(1, 4));
    let mut thread = None;
    let l = layout(64, 8);
    let p = host.reallocate(0, l, l.size(), &mut thread);
    assert!(p != 0);
    let q = host.reallocate(p, l, 0, &mut thread);
    assert!(q == 0);
    assert!(host.headers.is_empty());
    // A size that no layout has fails and keeps the old allocation.
    let p = host.allocate(l, &mut thread);
    assert_eq!(host.reallocate(p, l, u64::MAX, &mut thread), 0);
    assert!(host.headers.contains_key(&p));
}

#[test]
fn frees_of_unbound_threads_use_the_service_token() {
    let mut host =
        Host::<DEFAULT_HUGE_GRANULE_SPANS>::new(HostedLazyGlobalWfSpanAllocator::new(1, 4));
    let mut a = None;
    let p = host.allocate(layout(64, 8), &mut a);
    let q = host.allocate(layout(64, 8), &mut a);
    host.deallocate(p, a);
    assert_eq!(host.global.stats().service_token_deallocations, 0);
    host.deallocate(q, None);
    assert_eq!(host.global.stats().service_token_deallocations, 1);
    // A thread of another shard does not use its own token either.
    let r = host.allocate(layout(64, 8), &mut a);
    let mut b = None;
    let s = host.allocate(layout(64, 8), &mut b);
    assert_eq!((a.unwrap().shard, b.unwrap().shard), (1, 2));
    host.deallocate(r, b);
    host.deallocate(s, b);
    assert_eq!(host.global.stats().service_token_deallocations, 2);
    assert_eq!(host.global.stats().wfspan_allocations, 4);
}

#[test]
fn out_of_memory_is_counted() {
    let mut host =
        Host::<DEFAULT_HUGE_GRANULE_SPANS>::new(HostedLazyGlobalWfSpanAllocator::new(1, 4));
    host.out_of_memory = true;
    let mut thread = None;
    assert_eq!(host.allocate(layout(64, 8), &mut thread), 0);
    assert_eq!(thread, None);
    let stats = host.global.stats();
    assert_eq!(stats.shard_creation_failures, 1);
    assert_eq!(stats.token_acquisition_failures, 1);
    assert_eq!(stats.shard_count, 0);
    assert_eq!(stats.system_allocations, 0);
    // A thread that has a token but no room counts otherwise.
    host.out_of_memory = false;
    assert!(host.allocate(layout(64, 8), &mut thread) != 0);
    host.out_of_memory = true;
    assert_eq!(host.allocate(layout(SPAN_SIZE * 8, 8), &mut thread), 0);
    let stats = host.global.stats();
    assert_eq!(stats.shard_creation_failures, 2);
    assert_eq!(stats.token_acquisition_failures, 1);
    assert_eq!(stats.wfspan_allocation_failures, 1);
    assert_eq!(host.global.deny_binding(), AllocStep::Fallback(None));
    assert_eq!(host.global.stats().token_acquisition_failures, 2);
}

#[test]
fn hidden_headers() {
    let adjusted = allocation_layout(layout(100, 64)).unwrap();
    assert_eq!((adjusted.offset, adjusted.storage.size()), (64, 164));
    assert_eq!(adjusted.storage.align(), 64);
    let adjusted = allocation_layout(layout(100, 1)).unwrap();
    assert_eq!((adjusted.offset, adjusted.storage.size()), (HEADER_SIZE, 148));
    assert_eq!(adjusted.storage.align(), 8);
    assert_eq!(allocation_layout(layout(0x7fff_ffff_ffff_ffff, 1)), None);

    let (p, h) = finish_allocation(0x10000, adjusted, BACKEND_WFSPAN, 3);
    assert_eq!(p, 0x10030);
    assert_eq!(plan_dealloc(p, &h), DeallocPlan::Shard(3, 0x10000, adjusted.storage));
    assert_eq!(plan_dealloc(0, &h), DeallocPlan::Ignore);
    assert_eq!(plan_dealloc(47, &h), DeallocPlan::Ignore);
    let info = validate_header(&h).unwrap();
    assert_eq!((info.backend, info.shard, info.offset), (1, 3, 48));
    assert_eq!(info.storage, adjusted.storage);

    let (p, s) = finish_allocation(0x10000, adjusted, BACKEND_SYSTEM, 0);
    assert_eq!(plan_dealloc(p, &s), DeallocPlan::System(0x10000, adjusted.storage));

    // Each way in which a header can be invalid.
    assert!(validate_header(&AllocationHeader { magic: HEADER_MAGIC + 1, ..h }).is_none());
    assert!(validate_header(&AllocationHeader { backend: 3, ..h }).is_none());
    assert!(validate_header(&AllocationHeader { offset: HEADER_SIZE - 1, ..h }).is_none());
    assert!(validate_header(&AllocationHeader { offset: h.storage_size + 1, ..h }).is_none());
    assert!(validate_header(&AllocationHeader { storage_align: 3, ..h }).is_none());
    assert!(validate_header(&AllocationHeader { shard: 0, ..h }).is_none());
    assert_eq!(
        plan_dealloc(p, &AllocationHeader { shard: 0, ..h }),
        DeallocPlan::Ignore
    );
}

#[test]
fn blocks_that_make_no_shard_go_back() {
    let plan = HostedShard::<4, 16384>::plan(3, 2).unwrap();
    let (m, r, t) = (0x1000, 0x10_0000, 0x2000);
    let memory = ShardMemory { metadata: m, region: r };
    assert_eq!(settle_shard(plan, m, r, t), Ok(memory));
    let (bm, br, bt) = ((m, plan.metadata), (r, plan.region), (t, plan.tokens));
    assert_eq!(settle_shard(plan, 0, 0, 0), Err(vec![]));
    assert_eq!(settle_shard(plan, m, 0, 0), Err(vec![bm]));
    assert_eq!(settle_shard(plan, m, r, 0), Err(vec![bm, br]));
    assert_eq!(settle_shard(plan, 0, r, t), Err(vec![br, bt]));
    assert_eq!(settle_shard(plan, m, 0, t), Err(vec![bm, bt]));
    // A region that is not aligned goes back with the others.
    assert_eq!(settle_shard(plan, m, r + 1, t), Err(vec![bm, (r + 1, plan.region), bt]));
}

#[test]
fn failed_binding_is_counted_once() {
    let mut host =
        Host::<DEFAULT_HUGE_GRANULE_SPANS>::new(HostedLazyGlobalWfSpanAllocator::new(u64::MAX, 1));
    let mut thread = None;
    assert!(host.allocate(layout(64, 8), &mut thread) != 0);
    let stats = host.global.stats();
    assert_eq!((stats.shard_count, stats.shard_creation_failures), (0, 1));
    assert_eq!(stats.token_acquisition_failures, 1);
    assert_eq!(stats.system_allocations, 1);
}

#[test]
fn inner_is_the_first_shard() {
    let mut host =
        Host::<DEFAULT_HUGE_GRANULE_SPANS>::new(HostedLazyGlobalWfSpanAllocator::new(1, 1));
    let mut thread = None;
    assert!(host.allocate(layout(SPAN_SIZE * 3, 8), &mut thread) != 0);
    assert_eq!(host.global.shard_count(), 2);
    assert_eq!(host.global.inner().unwrap().pool.spans_total(), 1);
}

#[test]
fn shard_plans() {
    type Shard = HostedShard<4, 16384>;
    assert_eq!(Shard::plan(0, 1), None);
    assert_eq!(Shard::plan(1, 0), None);
    assert_eq!(Shard::plan(u64::MAX, 1), None);
    assert_eq!(Shard::plan(1, u64::MAX), None);
    let plan = Shard::plan(3, 2).unwrap();
    assert_eq!(plan.region, layout(2 * SPAN_SIZE, SPAN_SIZE));
    assert_eq!(plan.tokens, layout(24, 8));
    // Four heap rows of 88 * 21 bytes, rounded up to 1856, and records of
    // 16 * 4 and 16 * 17 bytes.
    assert_eq!(plan.metadata, layout(4 * (1856 + 64 + 272), 16));
    let memory = ShardMemory { metadata: 0x1000, region: 0x10_0000 };
    assert!(Shard::create(3, 2, ShardMemory { metadata: 0, ..memory }).is_none());
    assert!(Shard::create(3, 2, ShardMemory { metadata: 0x1001, ..memory }).is_none());
    assert!(Shard::create(3, 2, ShardMemory { region: 0, ..memory }).is_none());
    let mut shard = Shard::create(3, 2, memory).unwrap();
    assert_eq!(shard.user_tokens_in_use(), 0);
    assert_eq!(shard.acquire_user_token(), Some(1));
    assert_eq!(shard.acquire_user_token(), Some(2));
    assert_eq!(shard.acquire_user_token(), Some(3));
    assert_eq!(shard.acquire_user_token(), None);
    shard.release_user_token(0);
    shard.release_user_token(4);
    assert_eq!(shard.user_tokens_in_use(), 3);
    shard.release_user_token(2);
    assert_eq!(shard.acquire_user_token(), Some(2));
    assert_eq!(GlobalAllocatorConfig::default(), GlobalAllocatorConfig::new(64, 1024));
}
