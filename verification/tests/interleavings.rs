//! Two threads whose actions interleave in every possible way.

use wf_alloc::block::UNLINKED;
use wf_alloc::help_record::{complete_request, reclaim_request, EncodedReq, HelpRecord};
use wf_alloc::memory::SpanMemory;
use wf_alloc::remote_mpsc::{append_remote_to_local_bounded, RemoteMpscFreeList};
use wf_alloc::span::{alloc_from_local_span, init_span};
use wf_alloc::spmc_span_list::SpmcSpanList;
use wf_alloc::tagged::HeadWord;
use wf_alloc::{Cas2Backend, DefaultCas2Backend, StepCounter, SPAN_SIZE};

const BASE: u64 = 0x1000_0000;

/// Every order of `a` actions of thread 0 and `b` actions of thread 1.
fn orders(a: usize, b: usize) -> Vec<Vec<usize>> {
    if a == 0 && b == 0 {
        return vec![vec![]];
    }
    let mut all = Vec::new();
    for t in 0..2 {
        if (t == 0 && a > 0) || (t == 1 && b > 0) {
            let rest = if t == 0 { orders(a - 1, b) } else { orders(a, b - 1) };
            for mut order in rest {
                order.insert(0, t);
                all.push(order);
            }
        }
    }
    all
}

/// A pop in two actions: look at the head, then exchange it.
#[test]
fn loom_spmc_one_shot_pop_has_unique_successes() {
    for order in orders(2, 2) {
        let mut mem = SpanMemory::new(BASE, 2);
        let a = init_span(&mut mem, BASE, 0, 4096, 0);
        let b = init_span(&mut mem, BASE + SPAN_SIZE, 0, 4096, 0);
        let mut step = StepCounter::new();
        let mut list = SpmcSpanList::new();
        list.init(&mut mem);
        list.enqueue_by_owner(&mut mem, a, &mut step);
        list.enqueue_by_owner(&mut mem, b, &mut step);
        let start = list.head_word();

        let mut seen: [Option<HeadWord>; 2] = [None, None];
        let mut successes: Vec<u64> = Vec::new();
        for t in order {
            match seen[t] {
                None => seen[t] = Some(DefaultCas2Backend::load(&list.head_word())),
                Some(head) => {
                    let next = mem.node(head.ptr).next;
                    assert!(next != 0, "two spans for two pops");
                    let new = HeadWord::new(next, head.version.wrapping_add(1));
                    if DefaultCas2Backend::compare_exchange(list.head_ptr(), head, new).is_ok() {
                        successes.push(mem.node(next).span);
                    }
                }
            }
        }
        if successes.len() == 2 {
            assert_ne!(successes[0], successes[1], "same span popped twice");
        }
        assert!(!successes.is_empty());
        assert!(successes.iter().all(|&span| span == a || span == b));
        let version = list.head_word().version - start.version;
        assert_eq!(version, successes.len() as u64);
    }
}

/// A completion in three actions: read the request, read it again, complete.
#[test]
fn loom_help_record_completion_keeps_losing_span_owned() {
    for order in orders(3, 3) {
        let mut record = HelpRecord::new();
        record.phase_pending_or_span = EncodedReq::pending(7).0;
        let mut step = StepCounter::new();
        let mut held = [2u64, 4];
        let mut stage = [0; 2];
        let mut phase = [0u64; 2];
        for t in order {
            let now = EncodedReq(record.phase_pending_or_span);
            match stage[t] {
                0 => {
                    if now.is_pending() {
                        phase[t] = now.phase();
                        stage[t] = 1;
                    } else {
                        stage[t] = 3;
                    }
                }
                1 => {
                    stage[t] = if now.is_pending() && now.phase() == phase[t] { 2 } else { 3 };
                }
                2 => {
                    if complete_request(&mut record, phase[t], held[t], &mut step) {
                        held[t] = 0;
                    }
                    stage[t] = 3;
                }
                _ => {}
            }
        }
        let completed = reclaim_request(&mut record, &mut step);
        assert!(completed == 2 || completed == 4);
        assert_eq!(record.phase_pending_or_span, 0);
        if completed == 2 {
            assert_eq!(held, [0, 4]);
        } else {
            assert_eq!(held, [2, 0]);
        }
    }
}

/// A producer publishes and links; a consumer takes the list and absorbs it.
#[test]
fn loom_remote_mpsc_unlinked_suffix_is_not_lost() {
    for order in orders(2, 2) {
        let mut mem = SpanMemory::new(BASE, 1);
        let span = init_span(&mut mem, BASE, 0, 4096, 0);
        let mut step = StepCounter::new();
        let block = alloc_from_local_span(&mut mem, span, &mut step);
        let mut list = RemoteMpscFreeList::new();

        let mut old: Option<u64> = None;
        let mut taken: Option<u64> = None;
        let mut appended = 0u64;
        let mut leftover = 0u64;
        for t in order {
            if t == 0 {
                match old {
                    None => old = Some(list.push_publish(&mut mem, block)),
                    Some(head) => RemoteMpscFreeList::push_link(&mut mem, block, head),
                }
            } else {
                match taken {
                    None => taken = Some(list.reclaim_all()),
                    Some(0) => {}
                    Some(head) => {
                        let r = append_remote_to_local_bounded(&mut mem, span, head, &mut step);
                        appended = r.0;
                        leftover = r.1;
                    }
                }
            }
        }
        assert_ne!(mem.link(block), UNLINKED);
        let in_appended = appended == 1;
        let in_leftover = leftover == block;
        let in_list = list.reclaim_all() == block;
        let owners = in_appended as usize + in_leftover as usize + in_list as usize;
        assert_eq!(owners, 1, "remote block must have exactly one owner");
    }
}
