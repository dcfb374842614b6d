//! Single functions: double-word exchange, size classes, alignment, layouts,
//! requests, registration, the pool, step bounds, and metadata sizes.

use wf_alloc::align::{
    align_up, div_ceil, is_aligned, is_power_of_two, next_power_of_two, round_down, round_up,
};
use wf_alloc::block::{block_from_payload, block_payload, UNLINKED};
use wf_alloc::heap::LocalSpanList;
use wf_alloc::help_record::EncodedReq;
use wf_alloc::large::LARGE_MAGIC;
use wf_alloc::memory::SpanMemory;
use wf_alloc::pagemap::FixedSpanPool;
use wf_alloc::region::OwnedRegion;
use wf_alloc::remote_mpsc::{append_remote_to_local_bounded, RemoteMpscFreeList};
use wf_alloc::size_class::{blocks_per_span, first_block_offset};
use wf_alloc::span::{
    alloc_from_local_span, dealloc_to_local_span, init_run, init_span, span_counts, span_from_ptr,
    SpanState,
};
use wf_alloc::tagged::HeadWord;
use wf_alloc::{
    class_to_size, huge_class_granules, run_class_bytes, run_class_spans, size_to_class,
    theoretical_extra_bound, AllocatorStats, Cas2Backend, DefaultCas2Backend, HugeArena, Layout,
    LayoutError, StepCounter, ThreadRegistry, WfSpanAllocator, HUGE_SLOT_EMPTY, MAX_BLOCK_SIZE,
    MAX_SUPPORTED_CLASSES, SPAN_SIZE,
};

const BASE: u64 = 0x1000_0000;

/// Retries a bounded number of times while a failure is spurious.
fn cas_no_spurious<B: Cas2Backend>(
    p: &mut HeadWord,
    current: HeadWord,
    new: HeadWord,
) -> Result<HeadWord, HeadWord> {
    for _ in 0..64 {
        match B::compare_exchange(p, current, new) {
            Err(actual) if actual == current => continue, // spurious
            r => return r,
        }
    }
    panic!("compare_exchange failed spuriously 64 times in a row");
}

fn check_backend<B: Cas2Backend>() {
    let mut slot = HeadWord::new(0x10, 7);
    assert_eq!(B::load(&slot), HeadWord::new(0x10, 7));
    // success
    let r = cas_no_spurious::<B>(&mut slot, HeadWord::new(0x10, 7), HeadWord::new(0x20, 8));
    assert_eq!(r, Ok(HeadWord::new(0x10, 7)));
    // failure with stale expected (same ptr, old version)
    let r = cas_no_spurious::<B>(&mut slot, HeadWord::new(0x10, 7), HeadWord::new(0x30, 9));
    assert_eq!(r, Err(HeadWord::new(0x20, 8)));
    assert_eq!(B::load(&slot), HeadWord::new(0x20, 8));
}

#[test]
fn cas2_success_failure_and_version() {
    check_backend::<DefaultCas2Backend>();
}

#[test]
fn roadmap_acceptance() {
    // size 1, align 1 => 16-byte class
    assert_eq!(size_to_class(1, 1), Some(0));
    // size 17, align 1 => 32-byte class
    assert_eq!(size_to_class(17, 1), Some(1));
    // alignment greater than size is handled
    assert_eq!(size_to_class(8, 64), Some(2));
    assert_eq!(class_to_size(2), 64);
    // SPAN_SIZE or larger is unsupported
    assert_eq!(size_to_class(SPAN_SIZE, 1), None);
    assert_eq!(size_to_class(MAX_BLOCK_SIZE + 1, 1), None);
    assert_eq!(size_to_class(MAX_BLOCK_SIZE, 1), Some(MAX_SUPPORTED_CLASSES - 1));
}

#[test]
fn class_edges() {
    assert_eq!(size_to_class(0, 1), Some(0));
    assert_eq!(size_to_class(16, 16), Some(0));
    assert_eq!(size_to_class(u64::MAX, 1), None);
    assert_eq!(size_to_class(1, 2 * MAX_BLOCK_SIZE), None);
    assert_eq!(class_to_size(59), 1 << 63);
    assert_eq!(class_to_size(60), 0);
    assert_eq!(run_class_spans(16), 65536);
    assert_eq!(run_class_bytes(16), 1 << 32);
    assert_eq!(run_class_bytes(47), 1 << 63);
    assert_eq!(run_class_bytes(48), 0);
    assert_eq!(huge_class_granules(2), 4);
    assert_eq!(first_block_offset(16), 1024);
    assert_eq!(first_block_offset(16384), 16384);
    assert_eq!(blocks_per_span(16), 4032);
    assert_eq!(blocks_per_span(16384), 3);
}

#[test]
fn alignment_helpers() {
    assert_eq!(round_up(0, 8), 0);
    assert_eq!(round_up(1, 8), 8);
    assert_eq!(round_up(16, 8), 16);
    assert_eq!(round_down(15, 8), 8);
    assert_eq!(round_down(7, 8), 0);
    assert!(is_aligned(4096, 4096));
    assert!(!is_aligned(4097, 4096));
    assert_eq!(align_up(9, 8), Some(16));
    assert_eq!(align_up(u64::MAX, 2), None);
    assert!(is_power_of_two(1 << 63));
    assert!(!is_power_of_two(0));
    assert!(!is_power_of_two(12));
    assert_eq!(next_power_of_two(0), Some((0, 1)));
    assert_eq!(next_power_of_two(17), Some((5, 32)));
    assert_eq!(next_power_of_two((1 << 63) + 1), None);
    assert_eq!(div_ceil(0, 7), 0);
    assert_eq!(div_ceil(8, 7), 2);
    assert_eq!(div_ceil(u64::MAX, 1), u64::MAX);
}

#[test]
fn layouts() {
    let max = 0x7fff_ffff_ffff_ffffu64;
    assert_eq!(Layout::from_size_align(8, 3), Err(LayoutError));
    assert_eq!(Layout::from_size_align(8, 0), Err(LayoutError));
    assert_eq!(Layout::from_size_align(max, 2), Err(LayoutError));
    let l = Layout::from_size_align(max, 1).unwrap();
    assert_eq!((l.size(), l.align()), (max, 1));
}

#[test]
fn requests_encode_and_decode() {
    assert!(EncodedReq::empty().is_empty());
    let p = EncodedReq::pending(7);
    assert_eq!(p.0, 15);
    assert!(p.is_pending() && !p.is_empty());
    assert_eq!(p.phase(), 7);
    let d = EncodedReq::done_with_span(SPAN_SIZE);
    assert!(!d.is_pending() && !d.is_empty());
    assert_eq!(d.span(), SPAN_SIZE);
    // A phase keeps its low 63 bits.
    assert_eq!(EncodedReq::pending(u64::MAX).phase(), u64::MAX >> 1);
}

#[test]
fn registration_hands_out_each_id_once() {
    let mut reg = ThreadRegistry::new(2);
    assert_eq!(reg.registered(), 0);
    let a = reg.register().unwrap();
    let b = reg.register().unwrap();
    assert_eq!((a.id, b.id), (0, 1));
    assert!(reg.register().is_none());
    assert!(reg.register().is_none());
    assert_eq!(reg.registered(), 2);
    assert_eq!(reg.token_from_raw(1).id, 1);
}

#[test]
fn threads_may_register_before_the_region_is_there() {
    let mut alloc = WfSpanAllocator::<8, 16384>::new(2);
    assert_eq!(alloc.register_thread().map(|t| t.id), Some(0));
    alloc.init(BASE, 2 * SPAN_SIZE);
    assert_eq!(alloc.register_thread().map(|t| t.id), Some(1));
    assert!(alloc.register_thread().is_none());
}

#[test]
fn pool_hands_out_spans_in_order() {
    let mut pool = FixedSpanPool::new();
    let mut step = StepCounter::new();
    assert_eq!(pool.acquire_raw_span(&mut step), 0);
    // An unaligned region loses its partial spans.
    pool.set_region(BASE + 1, 4 * SPAN_SIZE);
    assert_eq!(pool.base_addr(), BASE + SPAN_SIZE);
    assert_eq!(pool.spans_total(), 3);
    assert_eq!(pool.acquire_raw_span(&mut step), BASE + SPAN_SIZE);
    // A run that does not fit leaves the pool as it was.
    assert_eq!(pool.acquire_raw_run(3, &mut step), 0);
    assert_eq!(pool.spans_used(), 1);
    assert_eq!(pool.acquire_raw_run(2, &mut step), BASE + 2 * SPAN_SIZE);
    assert_eq!(pool.spans_used(), 3);
    assert_eq!(pool.acquire_raw_span(&mut step), 0);
    assert_eq!(pool.spans_used(), 3);
    // A region that is too small has no span.
    pool.set_region(BASE + 1, SPAN_SIZE);
    assert_eq!(pool.spans_total(), 0);
}

#[test]
fn step_bounds_are_tight() {
    let mut s = StepCounter::new();
    assert!(s.assert_bounds(2, 1, 2, 10, 40));
    s.help_steps = 5;
    assert!(s.assert_bounds(2, 1, 2, 10, 40));
    s.help_steps = 6;
    assert!(!s.assert_bounds(2, 1, 2, 10, 40));
    let mut s = StepCounter::new();
    s.query_steps = 6;
    assert!(!s.assert_bounds(2, 1, 2, 10, 40));
    let mut s = StepCounter::new();
    s.cas2_attempts = 3;
    assert!(!s.assert_bounds(2, 1, 2, 10, 40));
    let mut s = StepCounter::new();
    s.blocks_scanned = 421;
    assert!(!s.assert_bounds(2, 1, 2, 10, 40));
    assert!(!s.assert_large_bounds(2, 1, 2, 17));
    assert!(!s.assert_huge_bounds(3, 4));
    let mut s = StepCounter::new();
    s.huge_slot_scans = 12;
    s.cas_attempts = 24;
    s.faa_ops = 12;
    assert!(s.assert_huge_bounds(3, 4));
    s.huge_slot_scans = 13;
    assert!(!s.assert_huge_bounds(3, 4));
    let mut s = StepCounter::new();
    s.faa_ops = 19;
    assert!(s.assert_large_bounds(2, 1, 2, 17));
    s.faa_ops = 20;
    assert!(!s.assert_large_bounds(2, 1, 2, 17));
}

#[test]
fn extra_bound_formula() {
    // (4 + (1 + 4 - 1) * 3) * 8 * 65536
    assert_eq!(theoretical_extra_bound(4, 8, SPAN_SIZE, 4), 16 * 8 * SPAN_SIZE);
    assert_eq!(theoretical_extra_bound(1, 1, 1, 1), 1);
    // (5 + (3 + 5 - 1) * 4) * 2 * 10
    assert_eq!(theoretical_extra_bound(5, 2, 10, 2), 660);
    let alloc = WfSpanAllocator::<11, 16384>::new(4);
    assert_eq!(alloc.theoretical_extra_bound(), 16 * 11 * SPAN_SIZE);
    assert_eq!(alloc.active_threads(), 4);
}

#[test]
fn stats_wrap_around() {
    let mut stats = AllocatorStats::new();
    AllocatorStats::bump(&mut stats.allocated_spans);
    assert_eq!(stats.allocated_spans, 1);
    let mut c = u64::MAX;
    AllocatorStats::bump(&mut c);
    assert_eq!(c, 0);
}

#[test]
fn metadata_rows() {
    type A = WfSpanAllocator<11, 16384>;
    // A heap row: 88 * (11 + 17) = 2464 bytes; records: 16 * 11 and 16 * 17.
    assert_eq!(A::metadata_region_align(), 16);
    assert_eq!(A::metadata_region_size(0), None);
    assert_eq!(A::metadata_region_size(1), Some(2464 + 176 + 272));
    assert_eq!(A::metadata_region_size(4), Some(4 * (2464 + 176 + 272)));
    assert_eq!(A::metadata_region_size(u64::MAX), None);
    let size = A::metadata_region_size(2).unwrap();
    assert!(A::from_metadata_region(0, 0x1000, size).is_none());
    assert!(A::from_metadata_region(2, 0, size).is_none());
    assert!(A::from_metadata_region(2, 0x1008, size).is_none());
    assert!(A::from_metadata_region(2, 0x1000, size - 1).is_none());
    let (alloc, used) = A::from_metadata_region(2, 0x1000, size).unwrap();
    assert_eq!(used, size);
    assert_eq!(alloc.active_threads(), 2);
}

#[test]
fn span_blocks_are_last_in_first_out() {
    let mut mem = SpanMemory::new(BASE, 1);
    let span = init_span(&mut mem, BASE, 0, 16384, 3);
    assert_eq!(span, BASE);
    let mut step = StepCounter::new();
    assert_eq!(span_counts(&mem, span), (3, 0, 3));
    let a = alloc_from_local_span(&mut mem, span, &mut step);
    let b = alloc_from_local_span(&mut mem, span, &mut step);
    let c = alloc_from_local_span(&mut mem, span, &mut step);
    assert_eq!((a, b, c), (BASE + 16384, BASE + 32768, BASE + 49152));
    assert_eq!(alloc_from_local_span(&mut mem, span, &mut step), 0);
    assert_eq!(step.local_steps, 4);
    assert_eq!(span_from_ptr(c + 16383), BASE);
    dealloc_to_local_span(&mut mem, span, block_from_payload(b));
    dealloc_to_local_span(&mut mem, span, block_from_payload(a));
    assert_eq!(span_counts(&mem, span), (2, 0, 3));
    assert_eq!(alloc_from_local_span(&mut mem, span, &mut step), block_payload(a));
    assert_eq!(alloc_from_local_span(&mut mem, span, &mut step), b);
}

#[test]
fn run_header_fields() {
    let mut mem = SpanMemory::new(BASE, 4);
    let run = init_run(&mut mem, BASE, 2, 4, 1);
    let h = mem.header(run);
    assert_eq!((h.owner, h.size_class, h.block_count), (1, 2, 4));
    assert_eq!(h.block_size, 4 * SPAN_SIZE);
    assert_eq!(h.state, SpanState::RunAllocated);
    assert!(h.node != 0);
}

#[test]
fn local_span_list_order() {
    let mut mem = SpanMemory::new(BASE, 4);
    let s: Vec<u64> = (0..4).map(|i| BASE + i * SPAN_SIZE).collect();
    let mut list = LocalSpanList::new();
    assert!(list.is_empty());
    assert_eq!(list.pop_front(&mem), 0);
    list.push_back(&mut mem, s[1]);
    list.push_front(&mut mem, s[0]);
    list.push_back(&mut mem, s[2]);
    list.push_back(&mut mem, s[3]);
    assert_eq!((list.front(), list.len()), (s[0], 4));
    // Out of the bounded scan's reach.
    assert!(!list.remove_bounded(&mut mem, s[3], 3));
    assert!(list.remove_bounded(&mut mem, s[3], 4));
    assert!(list.remove_bounded(&mut mem, s[0], 1));
    assert!(!list.remove_bounded(&mut mem, s[0], 4));
    list.push_back(&mut mem, s[3]);
    assert_eq!(list.pop_front(&mem), s[1]);
    assert_eq!(list.pop_front(&mem), s[2]);
    assert_eq!(list.pop_front(&mem), s[3]);
    assert_eq!(list.pop_front(&mem), 0);
    assert!(list.is_empty());
}

#[test]
fn remote_chain_stops_at_missing_link() {
    let mut mem = SpanMemory::new(BASE, 1);
    let span = init_span(&mut mem, BASE, 0, 4096, 0);
    let mut step = StepCounter::new();
    let b: Vec<u64> = (0..3)
        .map(|_| alloc_from_local_span(&mut mem, span, &mut step))
        .collect();
    let mut list = RemoteMpscFreeList::new();
    let old = list.push_publish(&mut mem, b[0]);
    list.push(&mut mem, b[1]);
    list.push(&mut mem, b[2]);
    let head = list.reclaim_all();
    assert_eq!(head, b[2]);
    assert_eq!(list.reclaim_all(), 0);
    assert_eq!(mem.link(b[0]), UNLINKED);
    let (n, rest) = append_remote_to_local_bounded(&mut mem, span, head, &mut step);
    assert_eq!((n, rest), (2, b[0]));
    assert_eq!(step.blocks_scanned, 3);
    // The block moved last is in front.
    assert_eq!(alloc_from_local_span(&mut mem, span, &mut step), b[1]);
    RemoteMpscFreeList::push_link(&mut mem, b[0], old);
    let (n, rest) = append_remote_to_local_bounded(&mut mem, span, rest, &mut step);
    assert_eq!((n, rest), (1, 0));
}

#[test]
fn fresh_parts() {
    let arena = HugeArena::new();
    assert_eq!(arena.slots[2][3].state, HUGE_SLOT_EMPTY);
    assert_eq!(arena.slots[0][0].base, 0);
    assert_eq!(LARGE_MAGIC, 0x5746_4C52_554E_3100);
    let region = OwnedRegion::new(BASE, 2);
    assert_eq!((region.ptr(), region.len()), (BASE, 2 * SPAN_SIZE));
    assert!(!region.is_empty());
    assert!(OwnedRegion::new(BASE, 0).is_empty());
}
