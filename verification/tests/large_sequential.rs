//! The large path: run classes, alignment, recycling, whole-run reuse,
//! exhaustion, publishing, dispatch, and step bounds.

use wf_alloc::config::SPAN_HEADER_RESERVE;
use wf_alloc::large::LARGE_HEADER_SIZE;
use wf_alloc::region::OwnedRegion;
use wf_alloc::verify::check_quiescent;
use wf_alloc::{
    run_class_bytes, run_class_for_layout, Layout, StepCounter, WfSpanAllocator,
    DEFAULT_HUGE_GRANULE_SPANS, HELP_BUDGET_H, LARGE_LOCAL_RUN_LIMIT_K, MAX_BLOCK_SIZE,
    MAX_LARGE_RUN_CLASSES, MAX_LARGE_SPANS, MAX_SUPPORTED_CLASSES, SPAN_SIZE,
};

const N: u64 = 2;
const C: u64 = 8;

type Alloc = WfSpanAllocator<C, DEFAULT_HUGE_GRANULE_SPANS>;

/// One region serves both the small and the large path.
fn setup(spans: u64) -> Alloc {
    let region = OwnedRegion::new(0x1000_0000, spans);
    let mut alloc = Alloc::new(N);
    alloc.init(region.ptr(), region.len());
    alloc
}

/// Largest payload (at 8-byte alignment) that still maps to run `class`.
fn max_payload(class: u64) -> u64 {
    run_class_bytes(class) - SPAN_HEADER_RESERVE - LARGE_HEADER_SIZE - 7
}

#[test]
fn run_class_boundaries() {
    // A small-ish oversized request fits the 1-span class 0.
    let l = Layout::from_size_align(MAX_BLOCK_SIZE + 1, 16).unwrap();
    assert_eq!(run_class_for_layout(l), Some(0));

    // The largest payload still fitting one span.
    let max0 = SPAN_SIZE - SPAN_HEADER_RESERVE - LARGE_HEADER_SIZE - 15;
    let l = Layout::from_size_align(max0, 16).unwrap();
    assert_eq!(run_class_for_layout(l), Some(0));
    // One byte more needs 2 spans => class 1.
    let l = Layout::from_size_align(max0 + 1, 16).unwrap();
    assert_eq!(run_class_for_layout(l), Some(1));

    // 3 spans round up to class 2 (4 spans).
    let l = Layout::from_size_align(SPAN_SIZE * 2 + 1, 16).unwrap();
    assert_eq!(run_class_for_layout(l), Some(2));

    // align > SPAN_SIZE is honored via slack.
    let l = Layout::from_size_align(64, 2 * SPAN_SIZE).unwrap();
    assert_eq!(run_class_for_layout(l), Some(2));

    // Top of the range: needs > MAX_LARGE_SPANS spans => None.
    let l = Layout::from_size_align(MAX_LARGE_SPANS * SPAN_SIZE, 16).unwrap();
    assert_eq!(run_class_for_layout(l), None);
    // Largest representable request.
    let max_req = MAX_LARGE_SPANS * SPAN_SIZE - SPAN_HEADER_RESERVE - LARGE_HEADER_SIZE - 15;
    let l = Layout::from_size_align(max_req, 16).unwrap();
    assert_eq!(run_class_for_layout(l), Some(MAX_LARGE_RUN_CLASSES - 1));
}

#[test]
fn run_class_mapping() {
    let l = Layout::from_size_align(MAX_BLOCK_SIZE + 1, 8).unwrap();
    assert_eq!(run_class_for_layout(l), Some(0));

    let l = Layout::from_size_align(max_payload(0), 8).unwrap();
    assert_eq!(run_class_for_layout(l), Some(0));
    let l = Layout::from_size_align(max_payload(0) + 1, 8).unwrap();
    assert_eq!(run_class_for_layout(l), Some(1));

    // Over-aligned but small: slack forces a larger run.
    let l = Layout::from_size_align(64, 2 * SPAN_SIZE).unwrap();
    assert_eq!(run_class_for_layout(l), Some(2));

    // Beyond the largest run class.
    let l = Layout::from_size_align(wf_alloc::MAX_LARGE_SIZE, 8).unwrap();
    assert_eq!(run_class_for_layout(l), None);
}

/// Run classes 0..6, each at its exact class.
#[test]
fn basic_alloc_dealloc_per_class() {
    // Classes 0..6 carve 1+2+4+8+16+32 = 63 spans; 80 leaves headroom.
    let mut alloc = setup(80);
    let token = alloc.register_thread().unwrap();

    for class in 0..6u64 {
        let layout = Layout::from_size_align(max_payload(class), 8).unwrap();
        assert_eq!(run_class_for_layout(layout), Some(class));
        let p = alloc.alloc_with_token(layout, token);
        assert!(p != 0, "run class {class} alloc failed");
        // The whole payload lies in the region.
        assert!(p + max_payload(class) <= 0x1000_0000 + 80 * SPAN_SIZE);
        alloc.dealloc_with_token(p, layout, token);
    }
    assert_eq!(alloc.stats.allocated_runs, 6);
    assert!(check_quiescent(&alloc).is_some());
}

/// Payload must honor the requested alignment, including > SPAN_SIZE.
#[test]
fn large_sequential_alignment_variants() {
    let mut alloc = setup(16);
    let token = alloc.register_thread().unwrap();
    // Size stays oversized for C=8 so every request lands on the large path.
    let size = 4096u64;

    for &align in &[16u64, 64, 4096, 32768, SPAN_SIZE, 2 * SPAN_SIZE] {
        let layout = Layout::from_size_align(size, align).unwrap();
        let p = alloc.alloc_with_token(layout, token);
        assert!(p != 0, "align={align} alloc failed");
        assert_eq!(p % align, 0, "ptr not {align}-byte aligned");
        alloc.dealloc_with_token(p, layout, token);
    }
    assert!(check_quiescent(&alloc).is_some());
}

/// Free + allocation of the same layout must reuse the run.
#[test]
fn recycling_reuses_same_run() {
    let mut alloc = setup(4);
    let token = alloc.register_thread().unwrap();
    let layout = Layout::from_size_align(4096, 8).unwrap();

    let p1 = alloc.alloc_with_token(layout, token);
    assert!(p1 != 0);
    alloc.dealloc_with_token(p1, layout, token);

    let p2 = alloc.alloc_with_token(layout, token);
    assert_eq!(p1, p2, "freed run must be reused");
    alloc.dealloc_with_token(p2, layout, token);
    assert!(check_quiescent(&alloc).is_some());
}

/// When the exact class is unavailable and the pool is exhausted, a whole
/// larger free run is used as it is, and freeing it returns it to its own
/// class.
#[test]
fn policy1_whole_larger_run_reuse() {
    // Exactly 2 spans: one class-1 run consumes the whole pool.
    let mut alloc = setup(2);
    let token = alloc.register_thread().unwrap();

    let class1_layout = Layout::from_size_align(SPAN_SIZE, 8).unwrap();
    assert_eq!(run_class_for_layout(class1_layout), Some(1));
    let p1 = alloc.alloc_with_token(class1_layout, token);
    assert!(p1 != 0, "class-1 carve failed");
    let run_base = p1 & !(SPAN_SIZE - 1);
    alloc.dealloc_with_token(p1, class1_layout, token);

    // Pool is exhausted; a class-0 request must escalate to the class-1 run.
    let class0_layout = Layout::from_size_align(4096, 8).unwrap();
    assert_eq!(run_class_for_layout(class0_layout), Some(0));
    let p0 = alloc.alloc_with_token(class0_layout, token);
    assert!(p0 != 0, "escalated whole-run alloc failed");
    assert!(
        p0 >= run_base && p0 + 4096 <= run_base + 2 * SPAN_SIZE,
        "escalated payload must lie inside the class-1 run"
    );
    alloc.dealloc_with_token(p0, class0_layout, token);

    // The run went back to class 1.
    let p1b = alloc.alloc_with_token(class1_layout, token);
    assert!(p1b != 0, "run did not return to its own class");
    alloc.dealloc_with_token(p1b, class1_layout, token);
    assert!(check_quiescent(&alloc).is_some());
}

#[test]
fn exhaustion_then_recycle() {
    let spans = 8u64;
    let mut alloc = setup(spans);
    let token = alloc.register_thread().unwrap();
    let layout = Layout::from_size_align(4096, 8).unwrap();

    let mut ptrs = Vec::new();
    loop {
        let p = alloc.alloc_with_token(layout, token);
        if p == 0 {
            break;
        }
        ptrs.push(p);
    }
    assert_eq!(ptrs.len() as u64, spans, "every span must serve one class-0 run");

    let mut sorted = ptrs.clone();
    sorted.sort();
    sorted.dedup();
    assert_eq!(sorted.len(), ptrs.len(), "duplicate run handed out");

    for &p in &ptrs {
        alloc.dealloc_with_token(p, layout, token);
    }

    // Full capacity must be available again.
    let mut again = Vec::new();
    for i in 0..ptrs.len() {
        let p = alloc.alloc_with_token(layout, token);
        assert!(p != 0, "run {i} unavailable after exhaust+free");
        again.push(p);
    }
    for &p in &again {
        alloc.dealloc_with_token(p, layout, token);
    }
    assert!(check_quiescent(&alloc).is_some());
}

/// Freeing more runs than a heap keeps publishes the surplus, and another
/// token acquires it.
#[test]
fn publish_then_acquire_via_helping() {
    let spans = LARGE_LOCAL_RUN_LIMIT_K + 4;
    let mut alloc = setup(spans);
    let token_a = alloc.register_thread().unwrap();
    let token_b = alloc.register_thread().unwrap();
    let layout = Layout::from_size_align(4096, 8).unwrap();

    let mut ptrs = Vec::new();
    for _ in 0..spans {
        let p = alloc.alloc_with_token(layout, token_a);
        assert!(p != 0);
        ptrs.push(p);
    }
    for &p in &ptrs {
        alloc.dealloc_with_token(p, layout, token_a);
    }
    assert!(alloc.stats.published_runs >= 4, "surplus runs must be published");

    // Token B has no local runs and the pool is empty.
    let mut step = StepCounter::new();
    let p = alloc.alloc_with_token_counted(layout, token_b, &mut step);
    assert!(p != 0, "public run acquisition failed");
    assert!(step.assert_large_bounds(N, HELP_BUDGET_H, N, MAX_LARGE_RUN_CLASSES));
    assert!(
        alloc.stats.acquired_public_runs >= 1,
        "run must come from a public list"
    );
    alloc.dealloc_with_token(p, layout, token_b);
    assert!(check_quiescent(&alloc).is_some());
}

#[test]
fn public_large_run_acquire_64k_and_1m() {
    let cases = [
        Layout::from_size_align(64 * 1024, 8).unwrap(),
        Layout::from_size_align(1024 * 1024, 8).unwrap(),
    ];

    for layout in cases {
        let class = run_class_for_layout(layout).unwrap();
        let spans = (LARGE_LOCAL_RUN_LIMIT_K + 4) * (1 << class);
        let mut alloc = setup(spans);
        let token_a = alloc.register_thread().unwrap();
        let token_b = alloc.register_thread().unwrap();

        let mut ptrs = Vec::new();
        for _ in 0..(LARGE_LOCAL_RUN_LIMIT_K + 4) {
            let p = alloc.alloc_with_token(layout, token_a);
            assert!(p != 0, "initial large allocation failed");
            ptrs.push(p);
        }
        for &p in &ptrs {
            alloc.dealloc_with_token(p, layout, token_a);
        }

        let mut acquired = Vec::new();
        for _ in 0..4 {
            let mut step = StepCounter::new();
            let p = alloc.alloc_with_token_counted(layout, token_b, &mut step);
            assert!(p != 0, "public large-run acquisition failed");
            assert!(step.assert_large_bounds(N, HELP_BUDGET_H, N, MAX_LARGE_RUN_CLASSES));
            acquired.push(p);
        }
        assert!(
            alloc.stats.acquired_public_runs >= 4,
            "large runs must come from public lists"
        );

        for &p in &acquired {
            alloc.dealloc_with_token(p, layout, token_b);
        }
        assert!(check_quiescent(&alloc).is_some());
    }
}

/// The exact boundary between the small and the large path.
#[test]
fn size_class_boundary() {
    let region = OwnedRegion::new(0x1000_0000, 8);
    let mut alloc = WfSpanAllocator::<MAX_SUPPORTED_CLASSES, DEFAULT_HUGE_GRANULE_SPANS>::new(2);
    alloc.init(region.ptr(), region.len());
    let token = alloc.register_thread().unwrap();

    // MAX_BLOCK_SIZE: small path.
    let layout = Layout::from_size_align(MAX_BLOCK_SIZE, 8).unwrap();
    let p = alloc.alloc_with_token(layout, token);
    assert!(p != 0, "MAX_BLOCK_SIZE must succeed via small path");
    assert_eq!(alloc.stats.allocated_runs, 0);
    alloc.dealloc_with_token(p, layout, token);

    // MAX_BLOCK_SIZE + 1: large path.
    let layout = Layout::from_size_align(MAX_BLOCK_SIZE + 1, 8).unwrap();
    let p = alloc.alloc_with_token(layout, token);
    assert!(p != 0, "MAX_BLOCK_SIZE+1 must succeed via large path");
    assert_eq!(alloc.stats.allocated_runs, 1);
    alloc.dealloc_with_token(p, layout, token);

    assert!(check_quiescent(&alloc).is_some());
}

/// Small and large allocations from one region must never overlap.
#[test]
fn mixed_small_and_large_single_region() {
    let mut alloc = setup(24);
    let token = alloc.register_thread().unwrap();

    let small_layout = Layout::from_size_align(64, 8).unwrap();
    let large_size = 4096u64;
    let large_layout = Layout::from_size_align(large_size, 8).unwrap();

    let mut small_ptrs = Vec::new();
    let mut large_ptrs = Vec::new();
    for _ in 0..10 {
        let sp = alloc.alloc_with_token(small_layout, token);
        let lp = alloc.alloc_with_token(large_layout, token);
        assert!(sp != 0 && lp != 0);
        small_ptrs.push(sp);
        large_ptrs.push(lp);
    }

    for &sp in &small_ptrs {
        for &lp in &large_ptrs {
            assert!(
                sp + 64 <= lp || sp >= lp + large_size,
                "small block {sp} overlaps large payload {lp}"
            );
        }
    }

    for &p in &small_ptrs {
        alloc.dealloc_with_token(p, small_layout, token);
    }
    for &p in &large_ptrs {
        alloc.dealloc_with_token(p, large_layout, token);
    }
    assert!(check_quiescent(&alloc).is_some());
}

#[test]
fn large_sequential_step_counts_stay_bounded() {
    let mut alloc = setup(8);
    let token = alloc.register_thread().unwrap();
    let layout = Layout::from_size_align(4096, 8).unwrap();

    let mut ptrs = Vec::new();
    // Run past exhaustion so that carve, local reuse, escalation and failure
    // are all exercised.
    for _ in 0..12 {
        let mut step = StepCounter::new();
        let p = alloc.alloc_with_token_counted(layout, token, &mut step);
        assert!(step.assert_large_bounds(N, HELP_BUDGET_H, N, MAX_LARGE_RUN_CLASSES));
        if p != 0 {
            ptrs.push(p);
        }
    }
    for &p in &ptrs {
        let mut step = StepCounter::new();
        alloc.dealloc_with_token_counted(p, layout, token, &mut step);
        assert!(step.assert_large_bounds(N, HELP_BUDGET_H, N, MAX_LARGE_RUN_CLASSES));
    }
    assert!(check_quiescent(&alloc).is_some());
}

/// Freeing null does nothing.
#[test]
fn null_dealloc_is_noop() {
    let mut alloc = setup(2);
    let token = alloc.register_thread().unwrap();
    let layout = Layout::from_size_align(4096, 8).unwrap();
    alloc.dealloc_with_token(0, layout, token);
    assert!(check_quiescent(&alloc).is_some());
}
