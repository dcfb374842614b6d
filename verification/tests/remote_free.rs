//! Remote frees, with a producer that stops between its swap and its link.

use wf_alloc::block::{block_from_payload, UNLINKED};
use wf_alloc::region::OwnedRegion;
use wf_alloc::remote_mpsc::RemoteMpscFreeList;
use wf_alloc::size_class::blocks_per_span;
use wf_alloc::span::span_from_ptr;
use wf_alloc::verify::check_quiescent;
use wf_alloc::{
    class_to_size, Layout, StepCounter, WfSpanAllocator, DEFAULT_HUGE_GRANULE_SPANS,
};

const N: u64 = 4;
const C: u64 = 4;

type Alloc = WfSpanAllocator<C, DEFAULT_HUGE_GRANULE_SPANS>;

fn setup(spans: u64) -> Alloc {
    let region = OwnedRegion::new(0x1000_0000, spans);
    let mut alloc = Alloc::new(N);
    alloc.init(region.ptr(), region.len());
    alloc
}

#[test]
fn remote_free_then_owner_reuses() {
    let mut alloc = setup(2);
    let t0 = alloc.register_thread().unwrap();
    let t1 = alloc.register_thread().unwrap();
    let layout = Layout::from_size_align(class_to_size(0), 8).unwrap();
    let m = blocks_per_span(class_to_size(0));

    // Owner t0 drains one span.
    let ptrs: Vec<u64> = (0..m).map(|_| alloc.alloc_with_token(layout, t0)).collect();
    assert!(ptrs.iter().all(|p| *p != 0));

    // t1 frees half of them remotely (push + FAA, no loop).
    for &p in ptrs.iter().take((m / 2) as usize) {
        let mut step = StepCounter::new();
        alloc.dealloc_with_token_counted(p, layout, t1, &mut step);
        assert!(step.swap_ops <= 1 && step.faa_ops <= 1 && step.cas_attempts <= 1);
        assert_eq!(step.local_steps, 0, "remote free must not touch local path");
    }

    // Owner reclaims them on its next allocations.
    for _ in 0..m / 2 {
        let p = alloc.alloc_with_token(layout, t0);
        assert!(p != 0, "remotely freed blocks must be reusable");
    }
    for &p in ptrs.iter().skip((m / 2) as usize) {
        alloc.dealloc_with_token(p, layout, t0);
    }
    for _ in 0..m / 2 {
        let p = alloc.alloc_with_token(layout, t0);
        alloc.dealloc_with_token(p, layout, t0);
        assert!(p != 0);
    }
    assert!(check_quiescent(&alloc).is_some());
}

#[test]
fn producer_stalled_after_swap_blocks_then_recovers() {
    let mut alloc = setup(2);
    let t0 = alloc.register_thread().unwrap();
    let layout = Layout::from_size_align(class_to_size(0), 8).unwrap();
    let m = blocks_per_span(class_to_size(0));

    // Drain the first span completely.
    let ptrs: Vec<u64> = (0..m).map(|_| alloc.alloc_with_token(layout, t0)).collect();
    let span = span_from_ptr(ptrs[0]);

    // A remote producer halts between SWAP and link for b0; then a complete
    // push of b1 lands on top of it.
    let b0 = block_from_payload(ptrs[0]);
    let b1 = block_from_payload(ptrs[1]);
    let mut header = alloc.mem.header(span);
    let old0 = header.remote.free.push_publish(&mut alloc.mem, b0);
    header.remote.free_count += 1;
    header.remote.free.push(&mut alloc.mem, b1);
    header.remote.free_count += 1;
    let g = header.remote.free_count;
    alloc.mem.set_header(span, header);
    assert_eq!(g, 2);

    // Owner allocation: must consume b1, stop at b0's missing link without
    // spinning, and must not lose b0.
    let mut step = StepCounter::new();
    let p = alloc.alloc_with_token_counted(layout, t0, &mut step);
    assert_eq!(p, ptrs[1], "the linked block (b1) must be reusable");
    assert!(step.blocks_scanned <= m, "consumption must stay bounded");

    // The blocked suffix is stashed, not dropped.
    let pending = alloc.mem.header(span).local.pending_remote;
    assert_eq!(pending, b0, "blocked chain must be stashed in pending_remote");
    assert_eq!(alloc.mem.link(b0), UNLINKED);

    // Producer resumes: completes the link. Owner then recovers b0.
    RemoteMpscFreeList::push_link(&mut alloc.mem, b0, old0);
    let p = alloc.alloc_with_token(layout, t0);
    assert_eq!(p, ptrs[0], "block behind UNLINKED must be recovered");

    assert!(
        alloc.stats.remote_blocked_events >= 1,
        "blocked event must be counted"
    );
}

#[test]
fn discarded_span_claimed_by_remote_freer() {
    let mut alloc = setup(1);
    let t0 = alloc.register_thread().unwrap();
    let t1 = alloc.register_thread().unwrap();
    let layout = Layout::from_size_align(class_to_size(0), 8).unwrap();
    let m = blocks_per_span(class_to_size(0));

    // t0 drains the only span; the next allocation discards it (g == 0) and
    // returns null (pool exhausted).
    let ptrs: Vec<u64> = (0..m).map(|_| alloc.alloc_with_token(layout, t0)).collect();
    assert!(alloc.alloc_with_token(layout, t0) == 0);
    assert_eq!(alloc.stats.discarded_spans, 1);

    // t1 remote-frees one block: FAA 0 -> 1 must claim the discarded span.
    let mut step = StepCounter::new();
    alloc.dealloc_with_token_counted(ptrs[0], layout, t1, &mut step);
    assert_eq!(alloc.stats.claimed_spans, 1);

    // t1 (the claimer, the new owner) can now allocate from it.
    let p = alloc.alloc_with_token(layout, t1);
    assert_eq!(p, ptrs[0], "claimed span must serve the freed block");

    alloc.dealloc_with_token(p, layout, t1);
    for &q in ptrs.iter().skip(1) {
        alloc.dealloc_with_token(q, layout, t0);
    }
    assert!(check_quiescent(&alloc).is_some());
}
