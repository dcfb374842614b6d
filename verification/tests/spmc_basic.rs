//! Public span lists: enqueue, one-shot pop, versions.

use wf_alloc::config::OWNER_PUBLIC;
use wf_alloc::memory::SpanMemory;
use wf_alloc::span::init_span;
use wf_alloc::spmc_span_list::{SpmcSpanList, TryPop};
use wf_alloc::tagged::HeadWord;
use wf_alloc::{class_to_size, Cas2Backend, DefaultCas2Backend, StepCounter, SPAN_SIZE};

const BASE: u64 = 0x1000_0000;

fn make_spans(mem: &mut SpanMemory, n: u64) -> Vec<u64> {
    (0..n)
        .map(|i| init_span(mem, BASE + i * SPAN_SIZE, 0, class_to_size(0), OWNER_PUBLIC))
        .collect()
}

#[test]
fn enqueue_pop_empty_and_version() {
    let mut mem = SpanMemory::new(BASE, 2);
    let spans = make_spans(&mut mem, 2);
    let mut list = SpmcSpanList::new();
    list.init(&mut mem);
    let mut step = StepCounter::new();

    // Empty before any enqueue.
    assert_eq!(
        list.try_pop_head_once::<DefaultCas2Backend>(&mut mem, &mut step),
        TryPop::Empty
    );

    // Owner enqueue, FIFO pop.
    list.enqueue_by_owner(&mut mem, spans[0], &mut step);
    list.enqueue_by_owner(&mut mem, spans[1], &mut step);

    let v0 = DefaultCas2Backend::load(list.head_ptr()).version;

    let popped = list.try_pop_head_once::<DefaultCas2Backend>(&mut mem, &mut step);
    assert_eq!(popped, TryPop::Span(spans[0]));
    // version increments on successful pop
    let v1 = DefaultCas2Backend::load(list.head_ptr()).version;
    assert_eq!(v1, v0.wrapping_add(1));

    // Popped span received a node back, ready to be enqueued again.
    assert!(mem.header(spans[0]).node != 0);

    assert_eq!(
        list.try_pop_head_once::<DefaultCas2Backend>(&mut mem, &mut step),
        TryPop::Span(spans[1])
    );
    assert_eq!(
        list.try_pop_head_once::<DefaultCas2Backend>(&mut mem, &mut step),
        TryPop::Empty
    );

    // Exactly one CAS2 attempt per non-empty pop, none for Empty.
    assert_eq!(step.cas2_attempts, 2);

    // Enqueue a popped span again (node rotation works).
    list.enqueue_by_owner(&mut mem, spans[0], &mut step);
    assert_eq!(
        list.try_pop_head_once::<DefaultCas2Backend>(&mut mem, &mut step),
        TryPop::Span(spans[0])
    );
}

#[test]
fn stale_cas2_fails_after_version_bump() {
    let mut mem = SpanMemory::new(BASE, 2);
    let spans = make_spans(&mut mem, 2);
    let mut list = SpmcSpanList::new();
    list.init(&mut mem);
    let mut step = StepCounter::new();

    list.enqueue_by_owner(&mut mem, spans[0], &mut step);
    list.enqueue_by_owner(&mut mem, spans[1], &mut step);

    // A consumer snapshots the head, then another consumer pops first: the
    // stale snapshot's CAS2 must fail even though it points at a plausible
    // node (the version moved).
    let stale = DefaultCas2Backend::load(list.head_ptr());
    assert_eq!(
        list.try_pop_head_once::<DefaultCas2Backend>(&mut mem, &mut step),
        TryPop::Span(spans[0])
    );
    let res = DefaultCas2Backend::compare_exchange(
        list.head_ptr(),
        stale,
        HeadWord::new(0xdead_0000, stale.version.wrapping_add(1)),
    );
    assert!(res.is_err(), "stale (un-versioned) CAS2 must fail");
}

#[test]
fn uninitialized_list_is_empty() {
    let mut mem = SpanMemory::new(BASE, 1);
    let mut list = SpmcSpanList::new();
    let mut step = StepCounter::new();
    assert_eq!(
        list.try_pop_head_once::<DefaultCas2Backend>(&mut mem, &mut step),
        TryPop::Empty
    );
    assert_eq!(step.cas2_attempts, 0);
}
