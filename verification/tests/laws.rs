//! What holds of the allocator as a whole, on concrete states.

use wf_alloc::config::SPAN_HEADER_RESERVE;
use wf_alloc::help_record::{complete_request, EncodedReq, HelpRecord};
use wf_alloc::large::LARGE_HEADER_SIZE;
use wf_alloc::memory::SpanMemory;
use wf_alloc::region::OwnedRegion;
use wf_alloc::remote_mpsc::{append_remote_to_local_bounded, RemoteMpscFreeList};
use wf_alloc::span::{alloc_from_local_span, init_span, span_counts, span_from_ptr, SpanState};
use wf_alloc::spmc_span_list::{SpmcSpanList, TryPop};
use wf_alloc::state::{Key, Lane};
use wf_alloc::tagged::HeadWord;
use wf_alloc::verify::check_quiescent;
use wf_alloc::{
    Cas2Backend, DefaultCas2Backend, Layout, StepCounter, ThreadToken, WfSpanAllocator,
    HUGE_SLOT_FREE, LARGE_LOCAL_RUN_LIMIT_K, SPAN_SIZE,
};

const BASE: u64 = 0x1000_0000;

/// Four threads, eleven classes, huge granules of two spans.
type Alloc = WfSpanAllocator<11, 2>;

fn setup(threads: u64, spans: u64) -> (Alloc, Vec<ThreadToken>) {
    let region = OwnedRegion::new(BASE, spans);
    let mut alloc = Alloc::new(threads);
    alloc.init(region.ptr(), region.len());
    let tokens = (0..threads).map(|_| alloc.register_thread().unwrap()).collect();
    (alloc, tokens)
}

fn layout(size: u64, align: u64) -> Layout {
    Layout::from_size_align(size, align).unwrap()
}

#[test]
fn live_allocations_never_overlap() {
    let (mut alloc, t) = setup(2, 40);
    let sizes = [1u64, 16, 17, 100, 1024, 16384, 16385, 70000, 131071, 131072, 200000, 262144];
    let mut live: Vec<(u64, Layout)> = Vec::new();
    let mut round = 0u64;
    while round < 60 {
        let l = layout(sizes[(round % 12) as usize], 1 << (round % 13));
        let token = t[(round % 2) as usize];
        let p = alloc.alloc_with_token(l, token);
        if p != 0 {
            assert_eq!(p % l.align(), 0);
            assert!(p >= BASE && p + l.size() <= BASE + 40 * SPAN_SIZE);
            for &(q, m) in &live {
                assert!(p + l.size() <= q || q + m.size() <= p);
            }
            live.push((p, l));
        }
        if round % 5 == 4 {
            let (q, m) = live.remove((round % live.len() as u64) as usize);
            alloc.dealloc_with_token(q, m, t[((round + 1) % 2) as usize]);
        }
        assert!(check_quiescent(&alloc).is_some());
        round += 1;
    }
    for (q, m) in live {
        alloc.dealloc_with_token(q, m, t[0]);
    }
    assert!(check_quiescent(&alloc).is_some());
}

#[test]
fn free_and_live_blocks_make_up_a_span() {
    let (mut alloc, t) = setup(2, 4);
    let l = layout(16384, 8);
    let a = alloc.alloc_with_token(l, t[0]);
    let b = alloc.alloc_with_token(l, t[0]);
    let span = span_from_ptr(a);
    assert_eq!(span_counts(&alloc.mem, span), (1, 0, 3));
    alloc.dealloc_with_token(a, l, t[0]);
    alloc.dealloc_with_token(b, l, t[1]);
    assert_eq!(span_counts(&alloc.mem, span), (2, 1, 3));
}

#[test]
fn freed_block_is_served_next() {
    let (mut alloc, t) = setup(2, 4);
    let l = layout(64, 8);
    let a = alloc.alloc_with_token(l, t[0]);
    let b = alloc.alloc_with_token(l, t[0]);
    assert_eq!((a, b), (BASE + 1024, BASE + 1088));
    alloc.dealloc_with_token(a, l, t[0]);
    assert_eq!(alloc.alloc_with_token(l, t[0]), a);
}

#[test]
fn block_freed_into_a_discarded_span_is_not_lost() {
    let (mut alloc, t) = setup(2, 2);
    let l = layout(16384, 8);
    // Three blocks use up the first span; the fourth makes it discarded.
    let p: Vec<u64> = (0..4).map(|_| alloc.alloc_with_token(l, t[0])).collect();
    let span = span_from_ptr(p[0]);
    assert_eq!(alloc.mem.header(span).state, SpanState::Discarded);
    assert_eq!(alloc.stats.discarded_spans, 1);
    // Another thread frees a block, claims the span and gets the block.
    alloc.dealloc_with_token(p[1], l, t[1]);
    assert_eq!(alloc.stats.claimed_spans, 1);
    assert_eq!(alloc.mem.header(span).owner, 1);
    assert_eq!(alloc.alloc_with_token(l, t[1]), p[1]);
}

#[test]
fn span_with_an_unlinked_block_is_kept() {
    let (mut alloc, t) = setup(2, 1);
    let l = layout(16384, 8);
    let p: Vec<u64> = (0..3).map(|_| alloc.alloc_with_token(l, t[0])).collect();
    let span = span_from_ptr(p[0]);
    // A remote free that was published but not linked yet.
    let mut h = alloc.mem.header(span);
    let old = h.remote.free.push_publish(&mut alloc.mem, p[2]);
    h.remote.free_count += 1;
    alloc.mem.set_header(span, h);
    assert_eq!(alloc.alloc_with_token(l, t[0]), 0);
    assert_eq!(alloc.alloc_with_token(l, t[0]), 0);
    assert_eq!(alloc.stats.discarded_spans, 0);
    assert!(alloc.stats.remote_blocked_events > 0);
    RemoteMpscFreeList::push_link(&mut alloc.mem, p[2], old);
    assert_eq!(alloc.alloc_with_token(l, t[0]), p[2]);
}

#[test]
fn links_complete_in_either_order() {
    for first in 0..2usize {
        let mut mem = SpanMemory::new(BASE, 1);
        let span = init_span(&mut mem, BASE, 0, 4096, 0);
        let mut step = StepCounter::new();
        let b = [
            alloc_from_local_span(&mut mem, span, &mut step),
            alloc_from_local_span(&mut mem, span, &mut step),
        ];
        let mut list = RemoteMpscFreeList::new();
        let old = [list.push_publish(&mut mem, b[0]), list.push_publish(&mut mem, b[1])];
        assert_eq!(old, [0, b[0]]);
        RemoteMpscFreeList::push_link(&mut mem, b[first], old[first]);
        RemoteMpscFreeList::push_link(&mut mem, b[1 - first], old[1 - first]);
        let head = list.reclaim_all();
        let (n, rest) = append_remote_to_local_bounded(&mut mem, span, head, &mut step);
        assert_eq!((n, rest), (2, 0));
    }
}

#[test]
fn stale_head_snapshot_fails() {
    let mut mem = SpanMemory::new(BASE, 2);
    let a = init_span(&mut mem, BASE, 0, 4096, 0);
    let b = init_span(&mut mem, BASE + SPAN_SIZE, 0, 4096, 0);
    let mut list = SpmcSpanList::new();
    list.init(&mut mem);
    let mut step = StepCounter::new();
    list.enqueue_by_owner(&mut mem, a, &mut step);
    let stale = DefaultCas2Backend::load(&list.head_word());
    assert_eq!(
        list.try_pop_head_once::<DefaultCas2Backend>(&mut mem, &mut step),
        TryPop::Span(a)
    );
    list.enqueue_by_owner(&mut mem, b, &mut step);
    let now = list.head_word();
    assert_eq!(now.version, stale.version + 1);
    let r = DefaultCas2Backend::compare_exchange(list.head_ptr(), stale, HeadWord::new(stale.ptr, 9));
    assert_eq!(r, Err(now));
    assert_eq!(
        list.try_pop_head_once::<DefaultCas2Backend>(&mut mem, &mut step),
        TryPop::Span(b)
    );
    assert_eq!(
        list.try_pop_head_once::<DefaultCas2Backend>(&mut mem, &mut step),
        TryPop::Empty
    );
}

#[test]
fn losing_helper_keeps_its_span() {
    let mut req = HelpRecord::new();
    req.phase_pending_or_span = EncodedReq::pending(5).0;
    let mut step = StepCounter::new();
    assert!(!complete_request(&mut req, 4, BASE, &mut step));
    assert!(complete_request(&mut req, 5, BASE, &mut step));
    assert!(!complete_request(&mut req, 5, BASE + SPAN_SIZE, &mut step));
    assert_eq!(EncodedReq(req.phase_pending_or_span).span(), BASE);
    assert_eq!(step.cas_attempts, 3);
}

/// Allocate one-span runs of thread 0 and free them all: four are published.
fn publish_runs(alloc: &mut Alloc, token: ThreadToken) {
    let l = layout(20000, 8);
    let runs: Vec<u64> = (0..LARGE_LOCAL_RUN_LIMIT_K + 4)
        .map(|_| alloc.alloc_with_token(l, token))
        .collect();
    for p in runs {
        assert!(p != 0);
        alloc.dealloc_with_token(p, l, token);
    }
    assert_eq!(alloc.stats.published_runs, 4);
}

#[test]
fn threads_keep_few_free_runs() {
    let (mut alloc, t) = setup(2, LARGE_LOCAL_RUN_LIMIT_K + 4);
    publish_runs(&mut alloc, t[0]);
    assert_eq!(alloc.heaps.rows[0].local_runs[0].len(), LARGE_LOCAL_RUN_LIMIT_K);
    assert_eq!(check_quiescent(&alloc), Some((LARGE_LOCAL_RUN_LIMIT_K, 4, 0)));
}

#[test]
fn first_allocation_is_at_the_start() {
    let (mut alloc, t) = setup(2, 8);
    assert_eq!(alloc.alloc_with_token(layout(16384, 8), t[1]), BASE + 16384);
    let (mut alloc, t) = setup(2, 8);
    let p = alloc.alloc_with_token(layout(20000, 8), t[1]);
    assert_eq!(p, BASE + SPAN_HEADER_RESERVE + LARGE_HEADER_SIZE);
    let (mut alloc, t) = setup(2, 8);
    assert_eq!(alloc.alloc_with_token(layout(2 * SPAN_SIZE, 4096), t[1]), BASE);
}

#[test]
fn allocation_fails_only_when_exhausted() {
    let (mut alloc, t) = setup(1, 3);
    // A huge request of two granules needs four spans.
    assert_eq!(alloc.alloc_with_token(layout(4 * SPAN_SIZE, 8), t[0]), 0);
    assert_eq!(alloc.pool.spans_used(), 0);
    // So does a large request that does not fit two.
    let big = layout(2 * SPAN_SIZE - 8, 8);
    assert_eq!(alloc.alloc_with_token(big, t[0]), 0);
    assert_eq!(alloc.pool.spans_used(), 0);
    // Three spans serve three blocks each.
    let l = layout(16384, 8);
    for _ in 0..9 {
        assert!(alloc.alloc_with_token(l, t[0]) != 0);
    }
    assert_eq!(alloc.alloc_with_token(l, t[0]), 0);
    assert_eq!(alloc.pool.spans_used(), 3);
}

#[test]
fn deallocation_takes_few_steps() {
    let (mut alloc, t) = setup(2, 8);
    let l = layout(64, 8);
    let p = alloc.alloc_with_token(l, t[0]);
    let q = alloc.alloc_with_token(l, t[0]);
    let mut step = StepCounter::new();
    alloc.dealloc_with_token_counted(p, l, t[0], &mut step);
    assert_eq!((step.local_steps, step.remote_steps, step.cas_attempts), (1, 0, 0));
    let mut step = StepCounter::new();
    alloc.dealloc_with_token_counted(q, l, t[1], &mut step);
    assert_eq!((step.local_steps, step.remote_steps), (0, 1));
    assert_eq!((step.swap_ops, step.faa_ops, step.cas_attempts), (1, 1, 1));
}

#[test]
fn interleaved_acquisitions_get_different_runs() {
    let n = 4u64;
    // Every order of advancing three acquisitions one step each.
    let orders = [[1usize, 2, 3], [1, 3, 2], [2, 1, 3], [2, 3, 1], [3, 1, 2], [3, 2, 1]];
    for order in orders {
        let (mut alloc, t) = setup(n, LARGE_LOCAL_RUN_LIMIT_K + 4);
        publish_runs(&mut alloc, t[0]);
        let key = |tid| Key { lane: Lane::Run, class: 0, tid };
        let mut steps = [StepCounter::new(), StepCounter::new(), StepCounter::new()];
        let mut ms = [
            alloc.begin_acquisition(key(1)),
            alloc.begin_acquisition(key(2)),
            alloc.begin_acquisition(key(3)),
        ];
        let mut own = [0u64; 3];
        while ms.iter().any(|m| !m.done()) {
            for tid in order {
                if !ms[tid - 1].done() {
                    alloc.advance::<DefaultCas2Backend>(&mut ms[tid - 1], &mut steps[tid - 1]);
                    own[tid - 1] += 1;
                }
            }
        }
        let mut got: Vec<u64> = ms.iter().map(|m| m.result).collect();
        for tid in 0..3 {
            assert!(own[tid] <= 14 * n + 48);
            assert!(steps[tid].help_steps <= n + 1);
            assert!(steps[tid].query_steps <= n);
        }
        assert!(got.iter().all(|&s| s != 0), "four runs are public for three threads");
        got.sort();
        got.dedup();
        assert_eq!(got.len(), 3, "no run goes to two threads");
    }
}

#[test]
fn stopped_acquisition_holds_up_nobody() {
    let n = 3u64;
    for stop in 0..40u64 {
        let (mut alloc, t) = setup(n, LARGE_LOCAL_RUN_LIMIT_K + 4);
        publish_runs(&mut alloc, t[0]);
        let mut step = StepCounter::new();
        let mut m = alloc.begin_acquisition(Key { lane: Lane::Run, class: 0, tid: 1 });
        for _ in 0..stop {
            if !m.done() {
                alloc.advance::<DefaultCas2Backend>(&mut m, &mut step);
            }
        }
        // Thread 1 takes no more steps; thread 2 still gets a run.
        let l = layout(20000, 8);
        let p = alloc.alloc_with_token(l, t[2]);
        assert!(p != 0);
        let run = span_from_ptr(p);
        // Whenever thread 1 goes on, it gets another one.
        while !m.done() {
            alloc.advance::<DefaultCas2Backend>(&mut m, &mut step);
        }
        assert!(m.result != 0 && m.result != run);
    }
}

#[test]
fn corrupted_state_is_noticed() {
    let l = layout(64, 8);
    let fresh = || {
        let (mut alloc, t) = setup(2, 4);
        let p = alloc.alloc_with_token(l, t[0]);
        let q = alloc.alloc_with_token(l, t[0]);
        alloc.dealloc_with_token(q, l, t[1]);
        (alloc, span_from_ptr(p))
    };
    let (alloc, span) = fresh();
    assert_eq!(check_quiescent(&alloc), Some((1, 0, 0)));

    // A wrong owner.
    let (mut alloc, _) = fresh();
    let mut h = alloc.mem.header(span);
    h.owner = 1;
    alloc.mem.set_header(span, h);
    assert_eq!(check_quiescent(&alloc), None);

    // A wrong class.
    let (mut alloc, _) = fresh();
    let mut h = alloc.mem.header(span);
    h.size_class = 3;
    alloc.mem.set_header(span, h);
    assert_eq!(check_quiescent(&alloc), None);

    // A wrong count of local free blocks.
    let (mut alloc, _) = fresh();
    let mut h = alloc.mem.header(span);
    h.local.free_count += 1;
    alloc.mem.set_header(span, h);
    assert_eq!(check_quiescent(&alloc), None);

    // A negative count of remote free blocks.
    let (mut alloc, _) = fresh();
    let mut h = alloc.mem.header(span);
    h.remote.free_count = -1;
    alloc.mem.set_header(span, h);
    assert_eq!(check_quiescent(&alloc), None);

    // A list that runs in a circle.
    let (mut alloc, _) = fresh();
    let mut h = alloc.mem.header(span);
    h.local.next_local = span;
    alloc.mem.set_header(span, h);
    assert_eq!(check_quiescent(&alloc), None);

    // A record that is still pending is in order; one with a span that is
    // also in a list is not.
    let (mut alloc, _) = fresh();
    alloc.help.records.rows[1][2].phase_pending_or_span = EncodedReq::pending(1).0;
    assert_eq!(check_quiescent(&alloc), Some((1, 0, 0)));
    alloc.help.records.rows[1][2].phase_pending_or_span = EncodedReq::done_with_span(span).0;
    assert_eq!(check_quiescent(&alloc), None);

    // A huge slot without memory.
    let (mut alloc, _) = fresh();
    alloc.huge.slots[1][1].state = HUGE_SLOT_FREE;
    assert_eq!(check_quiescent(&alloc), None);
}

#[test]
fn huge_slots_keep_their_runs() {
    let (mut alloc, t) = setup(2, 16);
    let l = layout(2 * SPAN_SIZE, 8);
    let p = alloc.alloc_with_token(l, t[0]);
    assert_eq!(p, BASE);
    let slot = alloc.huge.slots[0][0];
    assert_eq!((slot.base, slot.owner), (BASE, 0));
    assert_eq!((slot.requested_size, slot.requested_align), (2 * SPAN_SIZE, 8));
    // Any thread may free, and the next claim uses the same run.
    alloc.dealloc_with_token(p, l, t[1]);
    assert_eq!(alloc.huge.slots[0][0].owner, 1);
    assert_eq!(alloc.huge.slots[0][0].base, BASE);
    assert_eq!(alloc.alloc_with_token(layout(2 * SPAN_SIZE, 16), t[1]), p);
    // Three granules use a run of four.
    let l = layout(6 * SPAN_SIZE, 8);
    let q = alloc.alloc_with_token(l, t[0]);
    assert_eq!(q, BASE + 2 * SPAN_SIZE);
    assert_eq!(alloc.pool.spans_used(), 10);
    assert_eq!(alloc.alloc_with_token(layout(8 * SPAN_SIZE + 1, 8), t[0]), 0);
}
