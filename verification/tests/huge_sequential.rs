//! The huge path, with a granule of one span: class mapping, exact sizes,
//! alignment, slot reuse, slot exhaustion, dispatch, and step bounds.

use wf_alloc::region::OwnedRegion;
use wf_alloc::verify::check_quiescent;
use wf_alloc::{
    Layout, StepCounter, WfSpanAllocator, MAX_HUGE_GRANULES, MAX_HUGE_RUNS_PER_CLASS,
    MAX_HUGE_RUN_CLASSES, SPAN_SIZE,
};

const N: u64 = 2;
const C: u64 = 4;
/// One span = 64 KiB; huge classes are 1/2/4 spans.
const HG: u64 = 1;
type HugeAlloc = WfSpanAllocator<C, HG>;

const GRANULE: u64 = HG * SPAN_SIZE;

fn setup(spans: u64) -> HugeAlloc {
    let region = OwnedRegion::new(0x1000_0000, spans);
    let mut alloc = HugeAlloc::new(N);
    alloc.init(region.ptr(), region.len());
    alloc
}

/// Exactly 2^r granules fit class r.
#[test]
fn huge_class_mapping() {
    let l = |size, align| Layout::from_size_align(size, align).unwrap();
    assert_eq!(HugeAlloc::huge_class_for_layout(l(GRANULE, 8)), Some(0));
    assert_eq!(HugeAlloc::huge_class_for_layout(l(2 * GRANULE, 8)), Some(1));
    // 3 granules round up to class 2 (4 granules).
    assert_eq!(HugeAlloc::huge_class_for_layout(l(3 * GRANULE, 8)), Some(2));
    assert_eq!(HugeAlloc::huge_class_for_layout(l(4 * GRANULE, 8)), Some(2));
    // Above the largest class.
    assert_eq!(
        HugeAlloc::huge_class_for_layout(l(MAX_HUGE_GRANULES * GRANULE + 1, 8)),
        None
    );
    // align > SPAN_SIZE costs slack.
    assert_eq!(
        HugeAlloc::huge_class_for_layout(l(GRANULE, 2 * SPAN_SIZE)),
        Some(1)
    );
}

#[test]
fn exact_granule_alloc_per_class() {
    let mut alloc = setup(16);
    let token = alloc.register_thread().unwrap();

    for class in 0..MAX_HUGE_RUN_CLASSES {
        let size = (1u64 << class) * GRANULE; // exactly the run size
        let layout = Layout::from_size_align(size, 8).unwrap();
        assert_eq!(HugeAlloc::huge_class_for_layout(layout), Some(class));
        assert_eq!(HugeAlloc::huge_class_bytes(class), size);
        let p = alloc.alloc_with_token(layout, token);
        assert!(p != 0, "huge class {class} alloc failed");
        assert!(p + size <= 0x1000_0000 + 16 * SPAN_SIZE);
        alloc.dealloc_with_token(p, layout, token);
    }
    assert_eq!(alloc.stats.allocated_huge_runs, 3);
    assert!(check_quiescent(&alloc).is_some());
}

/// Payload honors the requested alignment, including > SPAN_SIZE.
#[test]
fn huge_sequential_alignment_variants() {
    let mut alloc = setup(16);
    let token = alloc.register_thread().unwrap();

    for &align in &[8u64, 4096, SPAN_SIZE, 2 * SPAN_SIZE] {
        let layout = Layout::from_size_align(GRANULE, align).unwrap();
        let p = alloc.alloc_with_token(layout, token);
        assert!(p != 0, "align={align} alloc failed");
        assert_eq!(p % align, 0, "ptr not {align}-byte aligned");
        alloc.dealloc_with_token(p, layout, token);
    }
    assert!(check_quiescent(&alloc).is_some());
}

/// The next allocation of the same class reuses the freed run.
#[test]
fn slot_reuse_same_base() {
    let mut alloc = setup(4);
    let token = alloc.register_thread().unwrap();
    let layout = Layout::from_size_align(GRANULE, 8).unwrap();

    let p1 = alloc.alloc_with_token(layout, token);
    assert!(p1 != 0);
    alloc.dealloc_with_token(p1, layout, token);
    let p2 = alloc.alloc_with_token(layout, token);
    assert_eq!(p1, p2, "freed huge slot must be reused");
    alloc.dealloc_with_token(p2, layout, token);
    assert_eq!(
        alloc.stats.allocated_huge_runs, 1,
        "second alloc must reuse, not carve"
    );
    assert!(check_quiescent(&alloc).is_some());
}

#[test]
fn slot_exhaustion_returns_null() {
    // Directory capacity: 4*1 + 4*2 + 4*4 = 28 spans.
    let mut alloc = setup(32);
    let token = alloc.register_thread().unwrap();

    let mut live = Vec::new();
    for class in 0..MAX_HUGE_RUN_CLASSES {
        let layout = Layout::from_size_align((1u64 << class) * GRANULE, 8).unwrap();
        for _ in 0..MAX_HUGE_RUNS_PER_CLASS {
            let p = alloc.alloc_with_token(layout, token);
            assert!(p != 0, "directory slot for class {class} unavailable");
            live.push((p, layout));
        }
    }

    // Directory full: any huge request must fail in bounded steps.
    let layout = Layout::from_size_align(GRANULE, 8).unwrap();
    let mut step = StepCounter::new();
    let p = alloc.alloc_with_token_counted(layout, token, &mut step);
    assert!(p == 0, "full directory must return null");
    assert!(step.assert_huge_bounds(MAX_HUGE_RUN_CLASSES, MAX_HUGE_RUNS_PER_CLASS));

    // Freeing one class-0 run makes a class-0 alloc succeed again.
    let (p0, l0) = live.remove(0);
    alloc.dealloc_with_token(p0, l0, token);
    let p = alloc.alloc_with_token(layout, token);
    assert!(p != 0, "freed slot must be claimable again");
    live.push((p, layout));

    for (p, l) in live {
        alloc.dealloc_with_token(p, l, token);
    }
    assert!(check_quiescent(&alloc).is_some());
}

/// One byte below the threshold goes large, the threshold goes huge.
#[test]
fn dispatch_boundary() {
    let mut alloc = setup(8);
    let token = alloc.register_thread().unwrap();

    // One byte below the threshold: large path.
    let layout = Layout::from_size_align(GRANULE - 1, 8).unwrap();
    let p = alloc.alloc_with_token(layout, token);
    assert!(p != 0);
    assert_eq!(alloc.stats.allocated_runs, 1);
    assert_eq!(alloc.stats.allocated_huge_runs, 0);
    alloc.dealloc_with_token(p, layout, token);

    // Exactly the threshold: huge path.
    assert_eq!(HugeAlloc::huge_threshold(), GRANULE);
    let layout = Layout::from_size_align(GRANULE, 8).unwrap();
    let p = alloc.alloc_with_token(layout, token);
    assert!(p != 0);
    assert_eq!(alloc.stats.allocated_huge_runs, 1);
    alloc.dealloc_with_token(p, layout, token);

    assert!(check_quiescent(&alloc).is_some());
}

/// Small, large and huge allocations coexist on one region.
#[test]
fn mixed_three_paths_single_region() {
    let mut alloc = setup(24);
    let token = alloc.register_thread().unwrap();

    let small = Layout::from_size_align(64, 8).unwrap(); // small class
    let large = Layout::from_size_align(4096, 8).unwrap(); // large run
    let huge = Layout::from_size_align(GRANULE, 8).unwrap(); // huge slot

    let mut live: Vec<(u64, Layout)> = Vec::new();
    for _ in 0..4u64 {
        for &l in &[small, large, huge] {
            let p = alloc.alloc_with_token(l, token);
            assert!(p != 0);
            for &(q, m) in &live {
                assert!(p + l.size() <= q || q + m.size() <= p, "pattern corrupted");
            }
            live.push((p, l));
        }
    }
    for &(p, l) in &live {
        alloc.dealloc_with_token(p, l, token);
    }
    assert!(check_quiescent(&alloc).is_some());
}

#[test]
fn huge_sequential_step_counts_stay_bounded() {
    let mut alloc = setup(8);
    let token = alloc.register_thread().unwrap();
    let layout = Layout::from_size_align(GRANULE, 8).unwrap();

    let mut ptrs = Vec::new();
    // Run past both slot and pool exhaustion.
    for _ in 0..16 {
        let mut step = StepCounter::new();
        let p = alloc.alloc_with_token_counted(layout, token, &mut step);
        assert!(step.assert_huge_bounds(MAX_HUGE_RUN_CLASSES, MAX_HUGE_RUNS_PER_CLASS));
        if p != 0 {
            ptrs.push(p);
        }
    }
    for &p in &ptrs {
        let mut step = StepCounter::new();
        alloc.dealloc_with_token_counted(p, layout, token, &mut step);
        assert!(step.assert_huge_bounds(MAX_HUGE_RUN_CLASSES, MAX_HUGE_RUNS_PER_CLASS));
    }
    assert!(check_quiescent(&alloc).is_some());
}
