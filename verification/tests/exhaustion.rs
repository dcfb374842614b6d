//! Exhaustion: null on an empty pool, full recovery after frees.

use wf_alloc::region::OwnedRegion;
use wf_alloc::size_class::blocks_per_span;
use wf_alloc::verify::check_quiescent;
use wf_alloc::{class_to_size, Layout, WfSpanAllocator, DEFAULT_HUGE_GRANULE_SPANS};

const N: u64 = 2;
const C: u64 = 2;

#[test]
fn exhaust_free_exhaust_again() {
    let region = OwnedRegion::new(0x1000_0000, 3);
    let mut alloc = WfSpanAllocator::<C, DEFAULT_HUGE_GRANULE_SPANS>::new(N);
    alloc.init(region.ptr(), region.len());
    let token = alloc.register_thread().unwrap();
    let bs = class_to_size(0);
    let layout = Layout::from_size_align(bs, 8).unwrap();
    let capacity = 3 * blocks_per_span(bs);

    for round in 0..3 {
        let mut ptrs = Vec::new();
        // Allocate until exhaustion; must serve the full capacity.
        loop {
            let p = alloc.alloc_with_token(layout, token);
            if p == 0 {
                break;
            }
            ptrs.push(p);
        }
        assert_eq!(ptrs.len() as u64, capacity, "round {round}: capacity shrank");
        // No block is handed out twice.
        let mut sorted = ptrs.clone();
        sorted.sort();
        sorted.dedup();
        assert_eq!(sorted.len(), ptrs.len());

        for &p in &ptrs {
            alloc.dealloc_with_token(p, layout, token);
        }
    }
    assert!(check_quiescent(&alloc).is_some());
}
