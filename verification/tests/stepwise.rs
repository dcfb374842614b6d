//! Allocations and deallocations one action at a time.

use wf_alloc::acquire::{runlists_acquire_run, spanlists_acquire_span};
use wf_alloc::config::OWNER_PUBLIC;
use wf_alloc::help_record::EncodedReq;
use wf_alloc::region::OwnedRegion;
use wf_alloc::size_class::blocks_per_span;
use wf_alloc::span::{init_span, span_from_ptr, SpanState};
use wf_alloc::stepwise::{AllocStage, FreeStage, PendingAlloc, PendingFree};
use wf_alloc::verify::check_quiescent;
use wf_alloc::{
    class_to_size, size_to_class, DefaultCas2Backend, Layout, StepCounter, ThreadToken,
    WfSpanAllocator, HELP_BUDGET_H, LARGE_LOCAL_RUN_LIMIT_K, LOCAL_SPAN_LIMIT_K,
    MAX_HUGE_RUNS_PER_CLASS, MAX_HUGE_RUN_CLASSES, MAX_LARGE_RUN_CLASSES, SPAN_SIZE,
};

const BASE: u64 = 0x1000_0000;

type Alloc = WfSpanAllocator<11, 2>;

fn setup(threads: u64, spans: u64) -> (Alloc, Vec<ThreadToken>) {
    let region = OwnedRegion::new(BASE, spans);
    let mut alloc = Alloc::new(threads);
    alloc.init(region.ptr(), region.len());
    let tokens = (0..threads).map(|_| alloc.register_thread().unwrap()).collect();
    (alloc, tokens)
}

fn layout(size: u64, align: u64) -> Layout {
    Layout::from_size_align(size, align).unwrap()
}

fn result(a: &PendingAlloc) -> Option<u64> {
    match a.stage {
        AllocStage::Done(p) => Some(p),
        _ => None,
    }
}

/// Run an allocation to its end, alone.
fn finish(alloc: &mut Alloc, a: &mut PendingAlloc, step: &mut StepCounter) -> (u64, u64) {
    let mut actions = 0;
    loop {
        if let Some(p) = result(a) {
            return (p, actions);
        }
        alloc.advance_alloc::<DefaultCas2Backend>(a, step);
        actions += 1;
    }
}

fn free(alloc: &mut Alloc, ptr: u64, layout: Layout, tid: u64) -> StepCounter {
    let mut step = StepCounter::new();
    let mut f = PendingFree { ptr, layout, tid, stage: FreeStage::Give };
    while !matches!(f.stage, FreeStage::Done) {
        alloc.advance_free(&mut f, &mut step);
    }
    step
}

fn within(step: &StepCounter, l: Layout, n: u64) -> bool {
    match size_to_class(l.size(), l.align()) {
        Some(c) => step.assert_bounds(
            n,
            HELP_BUDGET_H,
            n,
            blocks_per_span(class_to_size(c)),
            LOCAL_SPAN_LIMIT_K,
        ),
        None if l.size() < 2 * SPAN_SIZE => {
            step.assert_large_bounds(n, HELP_BUDGET_H, n, MAX_LARGE_RUN_CLASSES)
        }
        None => step.assert_huge_bounds(MAX_HUGE_RUN_CLASSES, MAX_HUGE_RUNS_PER_CLASS),
    }
}

fn counts(s: &StepCounter) -> [u64; 11] {
    [
        s.local_steps,
        s.remote_steps,
        s.cas_attempts,
        s.cas2_attempts,
        s.swap_ops,
        s.faa_ops,
        s.help_steps,
        s.query_steps,
        s.blocks_scanned,
        s.large_class_steps,
        s.huge_slot_scans,
    ]
}

/// While no other thread acts, single actions do what whole operations do.
#[test]
fn single_actions_make_up_whole_operations() {
    let n = 3;
    let (mut whole, t) = setup(n, 24);
    let (mut single, _) = setup(n, 24);
    let sizes = [1u64, 16384, 17000, 64, 131072, 16384, 16384, 262144, 70000, 16384];
    let mut live: Vec<(u64, Layout)> = Vec::new();
    for round in 0..120u64 {
        let token = t[(round % n) as usize];
        let l = layout(sizes[(round % 10) as usize], 8);
        let mut s1 = StepCounter::new();
        let p = whole.alloc_with_token_counted(l, token, &mut s1);
        let mut s2 = StepCounter::new();
        let mut a = single.begin_alloc(l, token);
        let (q, actions) = finish(&mut single, &mut a, &mut s2);
        assert_eq!(p, q);
        assert_eq!(counts(&s1), counts(&s2));
        assert!(actions <= 17 * (14 * n + 60) + 1);
        assert!(within(&s2, l, n));
        if p != 0 {
            live.push((p, l));
        }
        if round % 2 == 1 && !live.is_empty() {
            let (p, l) = live.remove((round * 7 % live.len() as u64) as usize);
            let tid = (round + 1) % n;
            let mut s1 = StepCounter::new();
            whole.dealloc_with_token_counted(p, l, ThreadToken { id: tid }, &mut s1);
            let s2 = free(&mut single, p, l, tid);
            assert_eq!(counts(&s1), counts(&s2));
        }
        assert_eq!(check_quiescent(&whole), check_quiescent(&single));
        assert_eq!(whole.stats.discarded_spans, single.stats.discarded_spans);
        assert_eq!(whole.stats.claimed_spans, single.stats.claimed_spans);
    }
}

/// Three threads whose allocations interleave action by action.
#[test]
fn interleaved_allocations_keep_their_bounds() {
    let n = 3u64;
    for l in [layout(16384, 8), layout(20000, 8), layout(2 * SPAN_SIZE, 8)] {
        let (mut alloc, t) = setup(n, LARGE_LOCAL_RUN_LIMIT_K + 4);
        // Some runs are public, so that the acquisitions meet.
        let r = layout(20000, 8);
        let runs: Vec<u64> = (0..LARGE_LOCAL_RUN_LIMIT_K + 4)
            .map(|_| alloc.alloc_with_token(r, t[0]))
            .collect();
        if l == r {
            for p in runs {
                alloc.dealloc_with_token(p, r, t[0]);
            }
        } else {
            let (fresh, _) = setup(n, 12);
            alloc = fresh;
        }
        let mut a: Vec<PendingAlloc> = t.iter().map(|&x| alloc.begin_alloc(l, x)).collect();
        let mut steps = [StepCounter::new(), StepCounter::new(), StepCounter::new()];
        while a.iter().any(|x| result(x).is_none()) {
            for i in 0..3 {
                if result(&a[i]).is_none() {
                    alloc.advance_alloc::<DefaultCas2Backend>(&mut a[i], &mut steps[i]);
                }
            }
        }
        let mut got: Vec<u64> = a.iter().map(|x| result(x).unwrap()).collect();
        assert!(got.iter().all(|&p| p != 0));
        for s in &steps {
            assert!(within(s, l, n));
        }
        got.sort();
        for i in 1..3 {
            assert!(got[i - 1] + l.size() <= got[i], "live allocations overlap");
        }
    }
}

/// A block is freed at every point of a discard of its span: the span is
/// never stranded.
#[test]
fn freed_block_survives_a_racing_discard() {
    let l = layout(16384, 8);
    let mut taken_back = 0;
    for point in 0..4u64 {
        let (mut alloc, t) = setup(2, 1);
        let p: Vec<u64> = (0..3).map(|_| alloc.alloc_with_token(l, t[0])).collect();
        let span = span_from_ptr(p[0]);
        let mut step = StepCounter::new();
        let mut a = alloc.begin_alloc(l, t[0]);
        let mut f = PendingFree { ptr: p[1], layout: l, tid: 1, stage: FreeStage::Give };
        let mut fs = StepCounter::new();
        for _ in 0..point {
            alloc.advance_alloc::<DefaultCas2Backend>(&mut a, &mut step);
        }
        alloc.advance_free(&mut f, &mut fs);
        // The discarding thread settles before the freeing thread claims.
        while matches!(a.stage, AllocStage::Mark(_) | AllocStage::Settle(_)) {
            alloc.advance_alloc::<DefaultCas2Backend>(&mut a, &mut step);
        }
        while !matches!(f.stage, FreeStage::Done) {
            alloc.advance_free(&mut f, &mut fs);
        }
        taken_back += step.cas_attempts;
        let (got, _) = finish(&mut alloc, &mut a, &mut step);
        let owner = alloc.mem.header(span).owner;
        assert!(owner == 0 || owner == 1, "somebody owns the span");
        assert!(fs.cas_attempts <= 1 && fs.swap_ops == 1 && fs.faa_ops == 1);
        if got == 0 {
            assert_eq!(alloc.alloc_with_token(l, t[owner as usize]), p[1]);
        } else {
            assert_eq!(got, p[1]);
        }
    }
    assert!(taken_back > 0, "one of the points makes the owner take the span back");
}

/// Exact counts of the huge path.
#[test]
fn huge_steps_are_counted() {
    let (mut alloc, t) = setup(1, 56);
    let mut live = Vec::new();
    for class in 0..MAX_HUGE_RUN_CLASSES {
        let l = layout((2 << class) * SPAN_SIZE, 8);
        for i in 0..MAX_HUGE_RUNS_PER_CLASS {
            let mut step = StepCounter::new();
            let p = alloc.alloc_with_token_counted(l, t[0], &mut step);
            assert!(p != 0);
            assert_eq!((step.huge_slot_scans, step.cas_attempts, step.faa_ops), (i + 1, 1, 1));
            live.push((p, l));
        }
    }
    let l = layout(2 * SPAN_SIZE, 8);
    let mut step = StepCounter::new();
    assert_eq!(alloc.alloc_with_token_counted(l, t[0], &mut step), 0);
    assert_eq!((step.huge_slot_scans, step.cas_attempts, step.faa_ops), (12, 0, 0));
    // The slot of the sixth allocation is the sixth.
    let (p, l) = live[5];
    let mut step = StepCounter::new();
    alloc.dealloc_with_token_counted(p, l, t[0], &mut step);
    assert_eq!((step.huge_slot_scans, step.cas_attempts), (6, 0));
    let mut step = StepCounter::new();
    assert_eq!(alloc.alloc_with_token_counted(l, t[0], &mut step), p);
    assert_eq!((step.huge_slot_scans, step.cas_attempts, step.faa_ops), (2, 1, 0));
    assert_eq!(alloc.stats.allocated_huge_runs, 12);
}

/// Exact counts of the small and the large path.
#[test]
fn small_and_large_steps_are_counted() {
    let n = 2u64;
    let (mut alloc, t) = setup(n, 2);
    let l = layout(16384, 8);
    let mut step = StepCounter::new();
    assert!(alloc.alloc_with_token_counted(l, t[0], &mut step) != 0);
    // Thread 0 helps itself: both public lists are empty, and it withdraws.
    assert_eq!((step.help_steps, step.query_steps, step.cas2_attempts), (n, 0, 0));
    assert_eq!((step.swap_ops, step.cas_attempts), (2, 1));
    assert_eq!((step.faa_ops, step.local_steps, step.blocks_scanned), (1, 1, 0));
    let mut step = StepCounter::new();
    let p = alloc.alloc_with_token_counted(l, t[0], &mut step);
    assert_eq!(counts(&step), [1, 0, 0, 0, 0, 0, 0, 0, 0, 0, 0]);
    let q = alloc.alloc_with_token(l, t[0]);
    // Two remotely freed blocks are absorbed.
    alloc.dealloc_with_token(p, l, t[1]);
    alloc.dealloc_with_token(q, l, t[1]);
    let mut step = StepCounter::new();
    assert!(alloc.alloc_with_token_counted(l, t[0], &mut step) != 0);
    assert_eq!((step.local_steps, step.blocks_scanned, step.swap_ops, step.faa_ops), (2, 2, 1, 1));
    assert_eq!((step.help_steps, step.query_steps), (0, 0));

    let r = layout(20000, 8);
    let mut step = StepCounter::new();
    let p = alloc.alloc_with_token_counted(r, t[1], &mut step);
    assert!(p != 0);
    assert_eq!((step.large_class_steps, step.faa_ops), (1, 1));
    alloc.dealloc_with_token(p, r, t[1]);
    let mut step = StepCounter::new();
    assert_eq!(alloc.alloc_with_token_counted(r, t[1], &mut step), p);
    assert_eq!(counts(&step), [0, 0, 0, 0, 0, 0, 0, 0, 0, 1, 0]);
    // Nothing is left: all classes are looked at.
    let mut step = StepCounter::new();
    assert_eq!(alloc.alloc_with_token_counted(r, t[1], &mut step), 0);
    assert_eq!(step.large_class_steps, MAX_LARGE_RUN_CLASSES);
    assert_eq!((step.faa_ops, step.swap_ops), (1, 2 * MAX_LARGE_RUN_CLASSES));
}

/// Round after round, as many allocations succeed as the region has blocks.
#[test]
fn capacity_never_shrinks() {
    let (mut alloc, t) = setup(2, 3);
    let l = layout(4096, 8);
    let capacity = 3 * blocks_per_span(4096);
    for round in 0..5u64 {
        let mut live = Vec::new();
        loop {
            let p = alloc.alloc_with_token(l, t[0]);
            if p == 0 {
                break;
            }
            live.push(p);
        }
        assert_eq!(live.len() as u64, capacity);
        // Free in another order every round.
        for i in 0..live.len() {
            let j = (i * 7 + round as usize) % live.len();
            alloc.dealloc_with_token(live[j], l, t[0]);
        }
        assert!(check_quiescent(&alloc).is_some());
    }
}

fn name(stage: &AllocStage) -> &'static str {
    match stage {
        AllocStage::Turn => "turn",
        AllocStage::Mark(_) => "mark",
        AllocStage::Settle(_) => "settle",
        AllocStage::Ask(_) => "ask",
        AllocStage::Serve(_) => "serve",
        AllocStage::Carve => "carve",
        AllocStage::Look => "look",
        AllocStage::RunAsk(_) => "run ask",
        AllocStage::RunTake(_) => "run take",
        AllocStage::RunCarve => "run carve",
        AllocStage::Slot => "slot",
        AllocStage::Claim(_) => "claim",
        AllocStage::Done(_) => "done",
    }
}

/// The stages of an allocation that runs alone, without repetitions of an
/// acquisition's steps, and its result.
fn stages(alloc: &mut Alloc, l: Layout, token: ThreadToken) -> (Vec<&'static str>, u64) {
    let mut step = StepCounter::new();
    let mut a = alloc.begin_alloc(l, token);
    let mut all = vec![name(&a.stage)];
    while !a.done() {
        alloc.advance_alloc::<DefaultCas2Backend>(&mut a, &mut step);
        let now = name(&a.stage);
        if !(now == *all.last().unwrap() && (now == "ask" || now == "run ask")) {
            all.push(now);
        }
    }
    (all, a.result())
}

/// An allocation starts at the class and the stage of its layout.
#[test]
fn allocations_start_where_their_layout_says() {
    let (alloc, t) = setup(1, 1);
    let start = |l: Layout| {
        let a = alloc.begin_alloc(l, t[0]);
        (a.min, a.at, name(&a.stage))
    };
    assert_eq!(start(layout(1, 8)), (0, 0, "turn"));
    assert_eq!(start(layout(16384, 8)), (10, 0, "turn"));
    assert_eq!(start(layout(20000, 8)), (0, 0, "look"));
    assert_eq!(start(layout(70000, 8)), (1, 1, "look"));
    assert_eq!(start(layout(2 * SPAN_SIZE, 8)), (0, 0, "slot"));
    assert_eq!(start(layout(4 * SPAN_SIZE, 8)), (1, 4, "slot"));
    assert_eq!(start(layout(8 * SPAN_SIZE, 8)), (2, 8, "slot"));
    // No class fits.
    let a = alloc.begin_alloc(layout(9 * SPAN_SIZE, 8), t[0]);
    assert_eq!((a.done(), result(&a)), (true, Some(0)));
    let a = alloc.begin_alloc(layout(100_000, 1 << 40), t[0]);
    assert_eq!((a.done(), result(&a)), (true, Some(0)));
}

/// Each stage leads to the next one of its path.
#[test]
fn stages_follow_the_path() {
    let l = layout(16384, 8);
    let (mut alloc, t) = setup(1, 1);
    assert_eq!(blocks_per_span(16384), 3);
    let (all, p) = stages(&mut alloc, l, t[0]);
    assert_eq!(all, ["turn", "ask", "carve", "done"]);
    assert_eq!(p, BASE + 16384);
    for i in 1..3 {
        let (all, p) = stages(&mut alloc, l, t[0]);
        assert_eq!(all, ["turn", "done"]);
        assert_eq!(p, BASE + (i + 1) * 16384);
    }
    // The span has no free block: it is discarded, and nothing is left.
    let (all, p) = stages(&mut alloc, l, t[0]);
    assert_eq!(all, ["turn", "mark", "settle", "turn", "ask", "carve", "done"]);
    assert_eq!((p, alloc.stats.discarded_spans), (0, 1));

    let r = layout(20000, 8);
    let (mut alloc, t) = setup(1, 1);
    let (all, p) = stages(&mut alloc, r, t[0]);
    assert_eq!(all, ["look", "run ask", "run carve", "done"]);
    let (all, q) = stages(&mut alloc, r, t[0]);
    assert_eq!(q, 0);
    assert_eq!(all[..5], ["look", "run ask", "run carve", "look", "run ask"]);
    // Every class but the first is looked at and asked, and then the end.
    assert_eq!(all.len() as u64, 3 + 2 * (MAX_LARGE_RUN_CLASSES - 1) + 2);
    alloc.dealloc_with_token(p, r, t[0]);
    assert_eq!(stages(&mut alloc, r, t[0]), (vec!["look", "done"], p));

    let h = layout(2 * SPAN_SIZE, 8);
    let (mut alloc, t) = setup(1, 2);
    assert_eq!(stages(&mut alloc, h, t[0]), (vec!["slot", "claim", "done"], BASE));
    // The first slot is taken, and no other can be carved.
    let (all, p) = stages(&mut alloc, h, t[0]);
    assert_eq!((all.len(), p), (1 + 1 + 11 * 2 + 1, 0));
    assert_eq!(all[..4], ["slot", "slot", "claim", "slot"]);
}

/// An acquired span or run is taken on the way.
#[test]
fn acquired_spans_and_runs_are_taken() {
    let r = layout(20000, 8);
    let spans = LARGE_LOCAL_RUN_LIMIT_K + 1;
    let (mut alloc, t) = setup(2, spans);
    let runs: Vec<u64> = (0..spans).map(|_| alloc.alloc_with_token(r, t[0])).collect();
    for &p in &runs {
        alloc.dealloc_with_token(p, r, t[0]);
    }
    assert_eq!(alloc.stats.published_runs, 1);
    let (all, p) = stages(&mut alloc, r, t[1]);
    assert_eq!(all, ["look", "run ask", "run take", "done"]);
    assert_eq!(p, *runs.last().unwrap());
    assert_eq!(alloc.stats.acquired_public_runs, 1);

    let l = layout(16384, 8);
    let spans = LOCAL_SPAN_LIMIT_K + 1;
    let (mut alloc, t) = setup(2, spans);
    let live: Vec<u64> = (0..3 * spans).map(|_| alloc.alloc_with_token(l, t[0])).collect();
    for &p in &live {
        alloc.dealloc_with_token(p, l, t[0]);
    }
    assert_eq!(alloc.stats.published_spans, 1);
    let (all, p) = stages(&mut alloc, l, t[1]);
    assert_eq!(all, ["turn", "ask", "serve", "done"]);
    assert!(live.contains(&p));
    assert_eq!(alloc.stats.acquired_public_spans, 1);
}

/// The actions of a deallocation.
#[test]
fn deallocations_take_one_or_two_actions() {
    let l = layout(16384, 8);
    let (mut alloc, t) = setup(2, 2);
    let p: Vec<u64> = (0..4).map(|_| alloc.alloc_with_token(l, t[0])).collect();
    // The first three blocks fill the first span, which was discarded.
    assert_eq!(alloc.stats.discarded_spans, 1);
    let mut step = StepCounter::new();
    let mut f = alloc.begin_free(p[0], l, t[1]);
    assert!(matches!(f.stage, FreeStage::Give));
    alloc.advance_free(&mut f, &mut step);
    assert!(matches!(f.stage, FreeStage::Claim(s) if s == BASE));
    assert_eq!(alloc.stats.claimed_spans, 0);
    alloc.advance_free(&mut f, &mut step);
    assert!(matches!(f.stage, FreeStage::Done));
    assert_eq!(alloc.stats.claimed_spans, 1);
    assert_eq!(counts(&step), [0, 1, 1, 0, 1, 1, 0, 0, 0, 0, 0]);
    // Thread 1 owns the span now; thread 0 frees remotely, after a block that
    // is visible already.
    let mut step = StepCounter::new();
    let mut f = alloc.begin_free(p[1], l, t[0]);
    alloc.advance_free(&mut f, &mut step);
    assert!(matches!(f.stage, FreeStage::Done));
    assert_eq!(counts(&step), [0, 1, 0, 0, 1, 1, 0, 0, 0, 0, 0]);
    // The owner of the second span frees its block.
    let mut step = StepCounter::new();
    let mut f = alloc.begin_free(p[3], l, t[0]);
    alloc.advance_free(&mut f, &mut step);
    assert!(matches!(f.stage, FreeStage::Done));
    assert_eq!(counts(&step), [1, 0, 0, 0, 0, 0, 0, 0, 0, 0, 0]);
}

/// A run of all actions is the whole operation.
#[test]
fn runs_are_whole_operations() {
    let (mut whole, t) = setup(2, 20);
    let (mut run, _) = setup(2, 20);
    for (i, size) in [16u64, 16384, 20000, 131072, 16384, 70000].iter().enumerate() {
        let l = layout(*size, 8);
        let (mut s1, mut s2) = (StepCounter::new(), StepCounter::new());
        let p = whole.alloc_with_token_counted(l, t[i % 2], &mut s1);
        let mut a = run.begin_alloc(l, t[i % 2]);
        assert_eq!(run.run_alloc(&mut a, &mut s2), p);
        assert!(p != 0 && a.done() && a.result() == p);
        assert_eq!(counts(&s1), counts(&s2));
        if i % 3 == 0 {
            let (mut s1, mut s2) = (StepCounter::new(), StepCounter::new());
            whole.dealloc_with_token_counted(p, l, t[1], &mut s1);
            let mut f = run.begin_free(p, l, t[1]);
            run.run_free(&mut f, &mut s2);
            assert!(matches!(f.stage, FreeStage::Done));
            assert_eq!(counts(&s1), counts(&s2));
        }
        assert_eq!(check_quiescent(&whole), check_quiescent(&run));
    }
}

/// A pending request is completed within as many acquisitions of another
/// thread as there are threads.
#[test]
fn pending_request_is_completed_by_one_helper() {
    let n = 3u64;
    for requester in 1..3usize {
        let (mut alloc, _) = setup(n, 8);
        for _ in 0..n + 1 {
            let mut step = StepCounter::new();
            let raw = alloc.pool.acquire_raw_span(&mut step);
            let span = init_span(&mut alloc.mem, raw, 0, class_to_size(0), OWNER_PUBLIC);
            alloc.heaps.rows[0].public_spans[0].enqueue_by_owner(&mut alloc.mem, span, &mut step);
        }
        alloc.help.records.rows[requester][0].phase_pending_or_span = EncodedReq::pending(7).0;
        let mut after = 0;
        for i in 0..n {
            let mut step = StepCounter::new();
            let got =
                spanlists_acquire_span::<DefaultCas2Backend, 11, 2>(&mut alloc, 0, 0, &mut step);
            assert!(got != 0);
            let word = EncodedReq(alloc.help.records.rows[requester][0].phase_pending_or_span);
            if word.is_pending() {
                after = i + 1;
            } else {
                assert!(word.span() != 0 && word.span() != got);
            }
        }
        assert_eq!(after, requester as u64, "completed at the requester's turn");
    }
}

/// Runs are acquired from the public lists in the same way.
#[test]
fn public_runs_are_acquired() {
    let r = layout(20000, 8);
    let runs = LARGE_LOCAL_RUN_LIMIT_K + 1;
    let (mut alloc, t) = setup(2, runs);
    let mut step = StepCounter::new();
    assert_eq!(runlists_acquire_run::<DefaultCas2Backend, 11, 2>(&mut alloc, 1, 0, &mut step), 0);
    let live: Vec<u64> = (0..runs).map(|_| alloc.alloc_with_token(r, t[0])).collect();
    for &p in &live {
        alloc.dealloc_with_token(p, r, t[0]);
    }
    let mut step = StepCounter::new();
    let got = runlists_acquire_run::<DefaultCas2Backend, 11, 2>(&mut alloc, 1, 0, &mut step);
    assert_eq!(got, span_from_ptr(*live.last().unwrap()));
    assert_eq!(alloc.stats.acquired_public_runs, 1);
}

/// A new allocator registers as many threads as it was made for.
#[test]
fn registration_starts_from_nothing() {
    let size = Alloc::metadata_region_size(2).unwrap();
    let (mut alloc, used) = Alloc::from_metadata_region(2, 0x1000, size).unwrap();
    assert_eq!(used, size);
    assert_eq!(alloc.register_thread().map(|t| t.id), Some(0));
    assert_eq!(alloc.register_thread().map(|t| t.id), Some(1));
    assert!(alloc.register_thread().is_none());
}

/// An allocation that meets an exhausted pool fails, and nothing else is live.
#[test]
fn contended_failure_means_exhaustion() {
    let l = layout(16384, 8);
    let (mut alloc, t) = setup(2, 1);
    let mut step = StepCounter::new();
    let mut a = alloc.begin_alloc(l, t[0]);
    while !matches!(a.stage, AllocStage::Carve) {
        alloc.advance_alloc::<DefaultCas2Backend>(&mut a, &mut step);
    }
    // Thread 1 carves the only span before thread 0 does.
    let p = alloc.alloc_with_token(l, t[1]);
    assert_eq!(p, BASE + 16384);
    alloc.advance_alloc::<DefaultCas2Backend>(&mut a, &mut step);
    assert_eq!(result(&a), Some(0));
    assert!(alloc.pool.next >= alloc.pool.count);
    // Two blocks of that span are left to thread 1.
    assert_eq!(alloc.alloc_with_token(l, t[1]), BASE + 2 * 16384);
}

/// The header of a span or run says what state it is in.
#[test]
fn headers_say_the_state() {
    let l = layout(16384, 8);
    let spans = LOCAL_SPAN_LIMIT_K + 2;
    let (mut alloc, t) = setup(2, spans);
    let p: Vec<u64> = (0..4).map(|_| alloc.alloc_with_token(l, t[0])).collect();
    let (first, second) = (span_from_ptr(p[0]), span_from_ptr(p[3]));
    assert!(alloc.mem.header(first).state == SpanState::Discarded);
    assert!(alloc.mem.header(second).state == SpanState::NonEmptyLocal);
    // Thread 1 claims the first span; its owner fills the second one.
    alloc.dealloc_with_token(p[1], l, t[1]);
    assert!(alloc.mem.header(first).state == SpanState::NonEmptyLocal);
    alloc.dealloc_with_token(p[3], l, t[0]);
    assert!(alloc.mem.header(second).state == SpanState::FullLocal);
    assert_eq!(alloc.alloc_with_token(l, t[0]), p[3]);
    assert!(alloc.mem.header(second).state == SpanState::NonEmptyLocal);

    // A span that becomes full while the list is long is published, and in
    // use again when another thread acquires it.
    let (mut alloc, t) = setup(2, spans);
    let live: Vec<u64> = (0..3 * spans).map(|_| alloc.alloc_with_token(l, t[0])).collect();
    for &p in &live {
        alloc.dealloc_with_token(p, l, t[0]);
    }
    let public: Vec<u64> = live
        .iter()
        .map(|&p| span_from_ptr(p))
        .filter(|&s| alloc.mem.header(s).state == SpanState::FullPublic)
        .collect();
    assert_eq!(public.len() as u64, 3 * alloc.stats.published_spans);
    let p = alloc.alloc_with_token(l, t[1]);
    assert!(public.contains(&span_from_ptr(p)));
    assert!(alloc.mem.header(span_from_ptr(p)).state == SpanState::NonEmptyLocal);

    let r = layout(20000, 8);
    let (mut alloc, t) = setup(2, 1);
    let p = alloc.alloc_with_token(r, t[0]);
    assert!(alloc.mem.header(span_from_ptr(p)).state == SpanState::RunAllocated);
    alloc.dealloc_with_token(p, r, t[0]);
    assert!(alloc.mem.header(span_from_ptr(p)).state == SpanState::RunFreeLocal);
}
