//! The helping protocol: assisted completion, reclaim, one request with two
//! spans, and publishing above the local limit.

use wf_alloc::acquire::spanlists_acquire_span;
use wf_alloc::config::{HELP_BUDGET_H, LOCAL_SPAN_LIMIT_K, OWNER_PUBLIC};
use wf_alloc::help_record::{help_finishing_req, reclaim_request, EncodedReq};
use wf_alloc::region::OwnedRegion;
use wf_alloc::size_class::blocks_per_span;
use wf_alloc::span::init_span;
use wf_alloc::verify::check_quiescent;
use wf_alloc::{
    class_to_size, DefaultCas2Backend, Layout, StepCounter, WfSpanAllocator,
    DEFAULT_HUGE_GRANULE_SPANS,
};

const N: u64 = 2;
const C: u64 = 4;
const HG: u64 = DEFAULT_HUGE_GRANULE_SPANS;

type Alloc = WfSpanAllocator<C, HG>;

fn setup(spans: u64) -> Alloc {
    let region = OwnedRegion::new(0x1000_0000, spans);
    let mut alloc = Alloc::new(N);
    alloc.init(region.ptr(), region.len());
    alloc
}

/// Make one public span without putting it in any list: one that a helper
/// has already popped and holds.
fn make_public_span(alloc: &mut Alloc) -> u64 {
    let mut step = StepCounter::new();
    let raw = alloc.pool.acquire_raw_span(&mut step);
    assert!(raw != 0);
    init_span(&mut alloc.mem, raw, 0, class_to_size(0), OWNER_PUBLIC)
}

/// Make one public span and enqueue it on heap 0's class-0 public list.
fn publish_one(alloc: &mut Alloc) -> u64 {
    let span = make_public_span(alloc);
    let mut step = StepCounter::new();
    alloc.heaps.rows[0].public_spans[0].enqueue_by_owner(&mut alloc.mem, span, &mut step);
    span
}

fn help(alloc: &mut Alloc, list: usize, held: &mut u64, empty: &mut bool, step: &mut StepCounter) {
    help_finishing_req::<DefaultCas2Backend>(
        &mut alloc.heaps.rows[list].public_spans[0],
        &mut alloc.mem,
        &mut alloc.help.records.rows[1][0],
        held,
        empty,
        step,
    );
}

#[test]
fn helper_completes_pending_request() {
    let mut alloc = setup(4);
    let span = publish_one(&mut alloc);
    let mut step = StepCounter::new();

    // "Thread A" (record 1) publishes a pending request.
    alloc.help.records.rows[1][0].phase_pending_or_span = EncodedReq::pending(7).0;

    // "Thread B" helps: pops from the public list, completes the request.
    let mut held: u64 = 0;
    let mut empty = false;
    help(&mut alloc, 0, &mut held, &mut empty, &mut step);
    assert!(held == 0, "span must transfer into the record");
    assert!(!empty);
    let enc = EncodedReq(alloc.help.records.rows[1][0].phase_pending_or_span);
    assert!(!enc.is_pending() && !enc.is_empty());
    assert_eq!(enc.span(), span);

    // Helping the same (now completed) record again is a no-op.
    help(&mut alloc, 0, &mut held, &mut empty, &mut step);
    assert!(held == 0 && !empty);

    // "Thread A" reclaims the completed span.
    let req = &mut alloc.help.records.rows[1][0];
    assert_eq!(reclaim_request(req, &mut step), span);
    assert!(EncodedReq(req.phase_pending_or_span).is_empty());
    // Reclaiming again returns null (no double ownership).
    assert!(reclaim_request(req, &mut step) == 0);
}

#[test]
fn empty_list_sets_list_is_null() {
    let mut alloc = setup(1);
    alloc.help.records.rows[0][0].phase_pending_or_span = EncodedReq::pending(1).0;
    let mut held: u64 = 0;
    let mut empty = false;
    let mut step = StepCounter::new();
    help_finishing_req::<DefaultCas2Backend>(
        &mut alloc.heaps.rows[1].public_spans[0],
        &mut alloc.mem,
        &mut alloc.help.records.rows[0][0],
        &mut held,
        &mut empty,
        &mut step,
    );
    assert!(empty, "empty list must be reported");
    assert!(
        EncodedReq(alloc.help.records.rows[0][0].phase_pending_or_span).is_pending(),
        "request must stay pending when no span is available"
    );
}

#[test]
fn acquire_via_own_pop_and_via_helper() {
    let mut alloc = setup(4);
    let span = publish_one(&mut alloc);

    // Own pop path: acquire finds the span on heap 0's public list.
    let mut step = StepCounter::new();
    let got = spanlists_acquire_span::<DefaultCas2Backend, C, HG>(&mut alloc, 1, 0, &mut step);
    assert_eq!(got, span);
    assert!(step.assert_bounds(
        N,
        HELP_BUDGET_H,
        N,
        blocks_per_span(class_to_size(0)),
        LOCAL_SPAN_LIMIT_K
    ));

    // Helper-completed path: pre-complete the record (as a helper would),
    // then acquire must reclaim it without touching any list.
    let span2 = make_public_span(&mut alloc); // a helper's exclusively held span
    let mut held = span2;
    let mut empty = false;
    alloc.help.records.rows[1][0].phase_pending_or_span = EncodedReq::pending(3).0;
    // Empty list: the held span short-circuits the pop.
    help(&mut alloc, 1, &mut held, &mut empty, &mut step);
    assert!(held == 0);
    let mut step2 = StepCounter::new();
    let got2 = spanlists_acquire_span::<DefaultCas2Backend, C, HG>(&mut alloc, 1, 0, &mut step2);
    assert_eq!(got2, span2, "completed record must be reclaimed first");
    assert_eq!(alloc.stats.help_record_reclaimed, 1);
}

#[test]
fn one_request_two_spans_is_recoverable() {
    let mut alloc = setup(8);
    let span_a = make_public_span(&mut alloc); // already "popped" by a helper
    let span_b = publish_one(&mut alloc); // still on the public list

    // Thread 1's request was completed by a helper with span_a.
    alloc.help.records.rows[1][0].phase_pending_or_span = EncodedReq::done_with_span(span_a).0;

    let mut step = StepCounter::new();
    let got = spanlists_acquire_span::<DefaultCas2Backend, C, HG>(&mut alloc, 1, 0, &mut step);
    assert_eq!(got, span_a, "reclaim-before-publish must win");

    // Next acquire still finds span_b via the normal pop path: no span lost.
    let mut step = StepCounter::new();
    let got = spanlists_acquire_span::<DefaultCas2Backend, C, HG>(&mut alloc, 1, 0, &mut step);
    assert_eq!(got, span_b);

    // A helper completes the request while the requester already holds a
    // popped span: the requester keeps its span.
    let span_c = make_public_span(&mut alloc); // held by the helper
    let span_d = make_public_span(&mut alloc); // held by the requester
    alloc.help.records.rows[1][0].phase_pending_or_span = EncodedReq::pending(9).0;
    // Helper completes with span_c.
    let mut held_helper = span_c;
    let mut empty = false;
    help(&mut alloc, 1, &mut held_helper, &mut empty, &mut step);
    assert!(held_helper == 0);
    // Requester (holding span_d) tries to finish: held kept.
    let mut held_req = span_d;
    help(&mut alloc, 1, &mut held_req, &mut empty, &mut step);
    assert_eq!(held_req, span_d, "requester must keep its extra span");
    // Record still owns span_c; both spans remain recoverable.
    assert_eq!(
        reclaim_request(&mut alloc.help.records.rows[1][0], &mut step),
        span_c
    );
}

#[test]
fn surplus_full_span_published_after_k_overflow() {
    const SPANS: u64 = LOCAL_SPAN_LIMIT_K + 8;
    let mut alloc = setup(SPANS);
    let t0 = alloc.register_thread().unwrap();
    let t1 = alloc.register_thread().unwrap();
    // Use the largest class in C to keep block counts small.
    let class = C - 1;
    let bs = class_to_size(class);
    let layout = Layout::from_size_align(bs, 8).unwrap();
    let m = blocks_per_span(bs);
    let spans_needed = LOCAL_SPAN_LIMIT_K + 1;

    // Drain K+1 spans...
    let ptrs: Vec<u64> = (0..spans_needed * m)
        .map(|_| alloc.alloc_with_token(layout, t0))
        .collect();
    assert!(ptrs.iter().all(|p| *p != 0));
    // ...then free everything: spans refill to full while len > K, so the
    // owner must publish surplus full spans to its public list.
    for &p in &ptrs {
        alloc.dealloc_with_token(p, layout, t0);
    }
    let published = alloc.stats.published_spans;
    assert!(published >= 1, "K overflow must publish surplus spans");

    // Another thread acquires the published span through the real path.
    let p = alloc.alloc_with_token(layout, t1);
    assert!(p != 0);
    assert_eq!(
        alloc.stats.acquired_public_spans, 1,
        "t1 must obtain the published span, not a raw one"
    );
    alloc.dealloc_with_token(p, layout, t1);
    assert!(check_quiescent(&alloc).is_some());
}
