//! Span initialization, exhaustion, reuse, size classes, alignment, and
//! registration, one thread.

use wf_alloc::region::OwnedRegion;
use wf_alloc::size_class::blocks_per_span;
use wf_alloc::span::span_from_ptr;
use wf_alloc::verify::check_quiescent;
use wf_alloc::{class_to_size, Layout, WfSpanAllocator, DEFAULT_HUGE_GRANULE_SPANS, SPAN_SIZE};

const N: u64 = 2;
const C: u64 = 8;
const REGION: u64 = 0x1000_0000;

type Alloc = WfSpanAllocator<C, DEFAULT_HUGE_GRANULE_SPANS>;

fn setup(spans: u64) -> Alloc {
    let region = OwnedRegion::new(REGION, spans);
    let mut alloc = Alloc::new(N);
    alloc.init(region.ptr(), region.len());
    alloc
}

#[test]
fn one_span_alloc_until_exhaustion_and_reuse() {
    let mut alloc = setup(1);
    let token = alloc.register_thread().unwrap();
    let bs = class_to_size(0);
    let layout = Layout::from_size_align(bs, 8).unwrap();
    let m = blocks_per_span(bs);

    let mut ptrs = Vec::new();
    // block_count allocations succeed
    for _ in 0..m {
        let p = alloc.alloc_with_token(layout, token);
        assert!(p != 0);
        ptrs.push(p);
    }
    // the next allocation returns null (single span, fixed pool)
    let p = alloc.alloc_with_token(layout, token);
    assert!(p == 0, "exhausted pool must return null");

    // all pointers distinct and span-resolvable
    let mut sorted = ptrs.clone();
    sorted.sort();
    sorted.dedup();
    assert_eq!(sorted.len() as u64, m, "duplicate allocation detected");
    let span = span_from_ptr(ptrs[0]);
    for &p in &ptrs {
        assert_eq!(span_from_ptr(p), span);
        assert!(p - span < SPAN_SIZE);
    }

    // deallocated blocks can be reallocated
    for &p in &ptrs {
        alloc.dealloc_with_token(p, layout, token);
    }
    for _ in 0..m {
        let p = alloc.alloc_with_token(layout, token);
        assert!(p != 0, "freed blocks must be reusable");
    }

    assert!(check_quiescent(&alloc).is_some());
}

#[test]
fn all_size_classes_and_alignment() {
    let mut alloc = setup(C * 2);
    let token = alloc.register_thread().unwrap();

    for class in 0..C {
        let size = class_to_size(class);
        let layout = Layout::from_size_align(size, size.min(4096)).unwrap();
        let p = alloc.alloc_with_token(layout, token);
        assert!(p != 0, "class {class} alloc failed");
        assert_eq!(p % size, 0, "class {class} block not naturally aligned");
        alloc.dealloc_with_token(p, layout, token);
    }

    // alignment greater than size is handled
    let layout = Layout::from_size_align(8, 256).unwrap();
    let p = alloc.alloc_with_token(layout, token);
    assert!(p != 0);
    assert_eq!(p % 256, 0);
    alloc.dealloc_with_token(p, layout, token);

    assert!(check_quiescent(&alloc).is_some());
}

/// Oversized and over-aligned layouts are served by the large path from the
/// same region; only requests beyond the huge classes return null.
#[test]
fn oversized_layouts_served_from_single_region() {
    // 16 spans = 1 MiB; the largest case below needs a class-2 run (4 spans).
    let mut alloc = setup(16);
    let token = alloc.register_thread().unwrap();

    for (size, align) in [(SPAN_SIZE, 8u64), (SPAN_SIZE / 2, 8), (64, SPAN_SIZE)] {
        let layout = Layout::from_size_align(size, align).unwrap();
        let p = alloc.alloc_with_token(layout, token);
        assert!(
            p != 0,
            "size={size} align={align}: should succeed via the large-run path"
        );
        assert_eq!(p % align, 0, "ptr not {align}-byte aligned");
        alloc.dealloc_with_token(p, layout, token);
    }

    // Requests beyond the largest huge class (4 GiB + 1 byte needs 8 one-GiB
    // granules) must return null in bounded steps.
    let layout = Layout::from_size_align(wf_alloc::MAX_LARGE_SIZE + 1, 8).unwrap();
    let p = alloc.alloc_with_token(layout, token);
    assert!(p == 0, "request beyond the huge classes must return null");

    // A 4 GiB request maps to huge class 2, but this 16-span region cannot
    // back the carve, so it also returns null.
    let layout = Layout::from_size_align(wf_alloc::MAX_LARGE_SIZE, 8).unwrap();
    let p = alloc.alloc_with_token(layout, token);
    assert!(p == 0, "uncarvable huge request must return null");

    assert!(check_quiescent(&alloc).is_some());
}

#[test]
fn registration_bounded() {
    let mut alloc = setup(1);
    assert!(alloc.register_thread().is_some());
    assert!(alloc.register_thread().is_some());
    // registration fails after N = 2
    assert!(alloc.register_thread().is_none());
}
