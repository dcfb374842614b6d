//! Per-thread heap: for each size class and each run class a private list of
//! spans, a public list of spans, and the saved positions of acquisitions.

use crate::chain::{cons, first, last, succ};
use crate::config::MAX_LARGE_RUN_CLASSES;
use crate::memory::{MemView, SpanMemory};
use crate::span::SpanHeader;
use crate::spmc_span_list::SpmcSpanList;
use vstd::prelude::*;

verus! {

/// Owner-only list of privately held spans, linked through `next_local`.
pub struct LocalSpanList {
    head: u64,
    tail: u64,
    len: u64,
    items: Ghost<Seq<u64>>,
}

/// The spans of a sequence have headers, and each links to the next one.
pub open spec fn spans_linked(headers: Map<u64, SpanHeader>, items: Seq<u64>) -> bool {
    &&& items.no_duplicates()
    &&& forall|i: int|
        0 <= i < items.len() ==> #[trigger] items[i] != 0 && headers.dom().contains(items[i])
    &&& forall|i: int|
        0 <= i < items.len() ==> (#[trigger] headers[items[i]]).local.next_local == succ(items, i)
}

/// Headers after `span` was put behind the spans `items`.
pub open spec fn headers_push_back(
    headers: Map<u64, SpanHeader>,
    items: Seq<u64>,
    span: u64,
) -> Map<u64, SpanHeader> {
    let h = headers.insert(span, headers[span].with_next(0));
    if items.len() == 0 {
        h
    } else {
        h.insert(last(items), h[last(items)].with_next(span))
    }
}

/// Headers after the span at position `i` was taken out of `items`.
pub open spec fn headers_remove(
    headers: Map<u64, SpanHeader>,
    items: Seq<u64>,
    i: int,
) -> Map<u64, SpanHeader> {
    if i == 0 {
        headers
    } else {
        headers.insert(items[i - 1], headers[items[i - 1]].with_next(succ(items, i)))
    }
}

impl LocalSpanList {
    /// The spans, first to last.
    pub closed spec fn seq(self) -> Seq<u64> {
        self.items@
    }

    /// Address of the first span, or 0.
    pub closed spec fn head_addr(self) -> u64 {
        self.head
    }

    /// The length that the list keeps.
    pub closed spec fn count(self) -> u64 {
        self.len
    }

    /// A list with a given content.
    pub closed spec fn of(items: Seq<u64>) -> LocalSpanList {
        LocalSpanList {
            head: first(items),
            tail: last(items),
            len: items.len() as u64,
            items: Ghost(items),
        }
    }

    /// A list is determined by its content.
    pub broadcast proof fn lemma_of(items: Seq<u64>)
        ensures
            (#[trigger] LocalSpanList::of(items)).seq() == items,
            LocalSpanList::of(items).head_addr() == first(items),
            LocalSpanList::of(items).count() == items.len() as u64,
    {
    }

    /// The links and the length agree with the content.
    pub open spec fn wf(self, headers: Map<u64, SpanHeader>) -> bool {
        &&& self == LocalSpanList::of(self.seq())
        &&& self.seq().len() <= u64::MAX
        &&& spans_linked(headers, self.seq())
    }

    pub fn new() -> (r: Self)
        ensures
            r == LocalSpanList::of(Seq::empty()),
            r.seq() == Seq::<u64>::empty(),
    {
        LocalSpanList { head: 0, tail: 0, len: 0, items: Ghost(Seq::empty()) }
    }

    /// The first span, or 0.
    pub fn front(&self) -> (r: u64)
        ensures
            r == self.head_addr(),
            *self == LocalSpanList::of(self.seq()) ==> r == first(self.seq()),
    {
        self.head
    }

    pub fn len(&self) -> (r: u64)
        ensures
            r == self.count(),
            *self == LocalSpanList::of(self.seq()) && self.seq().len() <= u64::MAX ==> r
                == self.seq().len(),
    {
        self.len
    }

    pub fn is_empty(&self) -> (r: bool)
        ensures
            r == (self.count() == 0),
            *self == LocalSpanList::of(self.seq()) && self.seq().len() <= u64::MAX ==> r == (
            self.seq().len() == 0),
    {
        self.len() == 0
    }

    /// Put a span in front.
    pub fn push_front(&mut self, mem: &mut SpanMemory, span: u64)
        requires
            old(mem).wf(),
            old(self).wf(old(mem)@.headers),
            old(mem)@.headers.dom().contains(span),
            span != 0,
            !old(self).seq().contains(span),
            old(self).seq().len() < u64::MAX,
        ensures
            final(mem).wf(),
            final(mem)@ == (MemView {
                headers: old(mem)@.headers.insert(
                    span,
                    old(mem)@.headers[span].with_next(first(old(self).seq())),
                ),
                ..old(mem)@
            }),
            *final(self) == LocalSpanList::of(cons(span, old(self).seq())),
            final(self).wf(final(mem)@.headers),
    {
        let old_head: u64 = self.head;
        let mut h = mem.header(span);
        h.local.next_local = old_head;
        mem.set_header(span, h);
        self.head = span;
        if old_head == 0 {
            self.tail = span;
        }
        self.len = self.len + 1;
        proof {
            let items = self.items@;
            let c = cons(span, items);
            self.items@ = c;
            assert(forall|i: int| 0 < i < c.len() ==> c[i] == items[i - 1]);
            assert forall|i: int, j: int| 0 <= i < c.len() && 0 <= j < c.len() && i != j implies c[i]
                != c[j] by {
                if i > 0 && j > 0 {
                    assert(items[i - 1] != items[j - 1]);
                } else if i > 0 {
                    assert(items.contains(items[i - 1]));
                } else {
                    assert(items.contains(items[j - 1]));
                }
            }
            assert forall|i: int| 0 <= i < c.len() implies (#[trigger] mem@.headers[c[i]]).local.next_local
                == succ(c, i) by {
                if i > 0 {
                    assert(items.contains(items[i - 1]));
                    assert(old(mem)@.headers[items[i - 1]].local.next_local == succ(items, i - 1));
                }
            }
        }
    }

    /// Put a span behind the others.
    pub fn push_back(&mut self, mem: &mut SpanMemory, span: u64)
        requires
            old(mem).wf(),
            old(self).wf(old(mem)@.headers),
            old(mem)@.headers.dom().contains(span),
            span != 0,
            !old(self).seq().contains(span),
            old(self).seq().len() < u64::MAX,
        ensures
            final(mem).wf(),
            final(mem)@ == (MemView {
                headers: headers_push_back(old(mem)@.headers, old(self).seq(), span),
                ..old(mem)@
            }),
            *final(self) == LocalSpanList::of(old(self).seq().push(span)),
            final(self).wf(final(mem)@.headers),
    {
        let ghost items = self.items@;
        let mut h = mem.header(span);
        h.local.next_local = 0;
        mem.set_header(span, h);
        let tail: u64 = self.tail;
        if tail == 0 {
            self.head = span;
        } else {
            let mut t = mem.header(tail);
            t.local.next_local = span;
            mem.set_header(tail, t);
        }
        self.tail = span;
        self.len = self.len + 1;
        proof {
            let c = items.push(span);
            self.items@ = c;
            assert(items.len() > 0 ==> tail == items[items.len() - 1]);
            assert forall|i: int, j: int| 0 <= i < c.len() && 0 <= j < c.len() && i != j implies c[i]
                != c[j] by {
                if i < items.len() && j < items.len() {
                    assert(items[i] != items[j]);
                } else if i < items.len() {
                    assert(items.contains(items[i]));
                } else {
                    assert(items.contains(items[j]));
                }
            }
            assert forall|i: int| 0 <= i < c.len() implies (#[trigger] mem@.headers[c[i]]).local.next_local
                == succ(c, i) by {
                if i < items.len() {
                    assert(items.contains(items[i]));
                    assert(old(mem)@.headers[items[i]].local.next_local == succ(items, i));
                    assert(c[i] == items[i]);
                    if i < items.len() - 1 {
                        assert(items[i] != items[items.len() - 1]);
                    }
                }
            }
        }
    }

    /// Take the first span, or return 0.
    pub fn pop_front(&mut self, mem: &SpanMemory) -> (r: u64)
        requires
            mem.wf(),
            old(self).wf(mem@.headers),
        ensures
            r == first(old(self).seq()),
            r == 0 <==> old(self).seq().len() == 0,
            *final(self) == (if old(self).seq().len() == 0 {
                *old(self)
            } else {
                LocalSpanList::of(old(self).seq().drop_first())
            }),
            final(self).wf(mem@.headers),
    {
        let span: u64 = self.head;
        if span == 0 {
            return span;
        }
        let next: u64 = mem.header(span).local.next_local;
        self.head = next;
        if next == 0 {
            self.tail = 0;
        }
        self.len = self.len - 1;
        proof {
            let items = self.items@;
            let rest = items.drop_first();
            self.items@ = rest;
            assert(mem@.headers[items[0]].local.next_local == succ(items, 0));
            assert forall|i: int, j: int| 0 <= i < rest.len() && 0 <= j < rest.len() && i
                != j implies rest[i] != rest[j] by {
                assert(items[i + 1] != items[j + 1]);
            }
            assert forall|i: int| 0 <= i < rest.len() implies (#[trigger] mem@.headers[rest[i]]).local.next_local
                == succ(rest, i) by {
                assert(mem@.headers[items[i + 1]].local.next_local == succ(items, i + 1));
            }
        }
        span
    }

    /// Take `span` out if it is among the first `limit` spans. Returns
    /// whether it was.
    pub fn remove_bounded(&mut self, mem: &mut SpanMemory, span: u64, limit: u64) -> (r: bool)
        requires
            old(mem).wf(),
            old(self).wf(old(mem)@.headers),
            span != 0,
        ensures
            final(mem).wf(),
            r <==> exists|i: int|
                0 <= i < old(self).seq().len() && i < limit && old(self).seq()[i] == span,
            !r ==> *final(self) == *old(self) && final(mem)@ == old(mem)@,
            r ==> exists|i: int|
                0 <= i < old(self).seq().len() && i < limit && old(self).seq()[i] == span
                    && *final(self) == LocalSpanList::of(#[trigger] old(self).seq().remove(i))
                    && final(mem)@ == (MemView {
                    headers: headers_remove(old(mem)@.headers, old(self).seq(), i),
                    ..old(mem)@
                }),
            final(self).wf(final(mem)@.headers),
    {
        let ghost items = self.items@;
        let mut prev: u64 = 0;
        let mut cur: u64 = self.head;
        let mut k: u64 = 0;
        while k < limit && cur != 0
            invariant
                mem.wf(),
                mem@ == old(mem)@,
                *self == *old(self),
                self.wf(mem@.headers),
                items == self.seq(),
                k <= limit,
                k <= items.len(),
                cur == (if k < items.len() { items[k as int] } else { 0 }),
                prev == (if k == 0 { 0 } else { items[k - 1] }),
                forall|i: int| 0 <= i < k ==> items[i] != span,
                span != 0,
            decreases limit - k,
        {
            assert(mem@.headers[items[k as int]].local.next_local == succ(items, k as int));
            let next: u64 = mem.header(cur).local.next_local;
            if cur == span {
                if prev == 0 {
                    self.head = next;
                } else {
                    let mut p = mem.header(prev);
                    p.local.next_local = next;
                    mem.set_header(prev, p);
                }
                if next == 0 {
                    self.tail = prev;
                }
                self.len = self.len - 1;
                proof {
                    let rest = items.remove(k as int);
                    self.items@ = rest;
                    assert(forall|i: int| 0 <= i < k ==> rest[i] == items[i]);
                    assert(forall|i: int| k <= i < rest.len() ==> rest[i] == items[i + 1]);
                    assert(next == 0 <==> k + 1 == items.len());
                    assert(mem@.headers =~= headers_remove(old(mem)@.headers, items, k as int));
                    assert forall|i: int, j: int| 0 <= i < rest.len() && 0 <= j < rest.len() && i
                        != j implies rest[i] != rest[j] by {
                        let i2 = if i < k { i } else { i + 1 };
                        let j2 = if j < k { j } else { j + 1 };
                        assert(items[i2] != items[j2]);
                    }
                    assert forall|i: int| 0 <= i < rest.len() implies (#[trigger] mem@.headers[rest[i]]).local.next_local
                        == succ(rest, i) by {
                        let i2 = if i < k { i } else { i + 1 };
                        assert(old(mem)@.headers[items[i2]].local.next_local == succ(items, i2));
                        if k > 0 && i2 != k - 1 {
                            assert(items[i2] != items[k - 1]);
                        }
                    }
                    assert(old(self).seq()[k as int] == span);
                }
                return true;
            }
            prev = cur;
            cur = next;
            k = k + 1;
        }
        false
    }
}

impl Default for LocalSpanList {
    fn default() -> (r: Self)
        ensures
            r == LocalSpanList::of(Seq::empty()),
            r.seq() == Seq::<u64>::empty(),
    {
        LocalSpanList::new()
    }
}

/// One thread's heap: for each size class, a private list, a public list and
/// saved positions; and the same for each run class.
pub struct ThreadHeap<const C: u64> {
    pub local_spans: Vec<LocalSpanList>,
    pub public_spans: Vec<SpmcSpanList>,
    pub cur_query: Vec<u64>,
    pub helping_pos: Vec<u64>,
    pub local_runs: Vec<LocalSpanList>,
    pub public_runs: Vec<SpmcSpanList>,
    pub cur_query_runs: Vec<u64>,
    pub helping_pos_runs: Vec<u64>,
}

/// `n` empty private lists.
fn empty_local_lists(n: u64) -> (r: Vec<LocalSpanList>)
    ensures
        r@.len() == n,
        forall|i: int| 0 <= i < n ==> r@[i] == LocalSpanList::of(Seq::empty()),
{
    let mut r: Vec<LocalSpanList> = Vec::new();
    let mut i: u64 = 0;
    while i < n
        invariant
            i <= n,
            r@.len() == i,
            forall|k: int| 0 <= k < i ==> r@[k] == LocalSpanList::of(Seq::empty()),
        decreases n - i,
    {
        r.push(LocalSpanList::new());
        i = i + 1;
    }
    r
}

/// `n` public lists that are not initialized yet.
fn empty_public_lists(n: u64) -> (r: Vec<SpmcSpanList>)
    ensures
        r@.len() == n,
        forall|i: int| 0 <= i < n ==> r@[i] == SpmcSpanList::raw(),
{
    let mut r: Vec<SpmcSpanList> = Vec::new();
    let mut i: u64 = 0;
    while i < n
        invariant
            i <= n,
            r@.len() == i,
            forall|k: int| 0 <= k < i ==> r@[k] == SpmcSpanList::raw(),
        decreases n - i,
    {
        r.push(SpmcSpanList::new());
        i = i + 1;
    }
    r
}

/// `n` zeros.
fn zeros(n: u64) -> (r: Vec<u64>)
    ensures
        r@.len() == n,
        forall|i: int| 0 <= i < n ==> r@[i] == 0,
{
    let mut r: Vec<u64> = Vec::new();
    let mut i: u64 = 0;
    while i < n
        invariant
            i <= n,
            r@.len() == i,
            forall|k: int| 0 <= k < i ==> r@[k] == 0,
        decreases n - i,
    {
        r.push(0);
        i = i + 1;
    }
    r
}

impl<const C: u64> ThreadHeap<C> {
    /// Every class has its lists and positions.
    pub open spec fn shape(self) -> bool {
        &&& self.local_spans@.len() == C
        &&& self.public_spans@.len() == C
        &&& self.cur_query@.len() == C
        &&& self.helping_pos@.len() == C
        &&& self.local_runs@.len() == MAX_LARGE_RUN_CLASSES
        &&& self.public_runs@.len() == MAX_LARGE_RUN_CLASSES
        &&& self.cur_query_runs@.len() == MAX_LARGE_RUN_CLASSES
        &&& self.helping_pos_runs@.len() == MAX_LARGE_RUN_CLASSES
    }

    /// A heap with nothing in it, whose public lists are not initialized.
    pub open spec fn blank(self) -> bool {
        &&& self.shape()
        &&& forall|i: int|
            0 <= i < C ==> #[trigger] self.local_spans@[i] == LocalSpanList::of(Seq::empty())
        &&& forall|i: int| 0 <= i < C ==> #[trigger] self.public_spans@[i] == SpmcSpanList::raw()
        &&& forall|i: int| 0 <= i < C ==> #[trigger] self.cur_query@[i] == 0
        &&& forall|i: int| 0 <= i < C ==> #[trigger] self.helping_pos@[i] == 0
        &&& forall|i: int|
            0 <= i < MAX_LARGE_RUN_CLASSES ==> #[trigger] self.local_runs@[i] == LocalSpanList::of(
                Seq::empty(),
            )
        &&& forall|i: int|
            0 <= i < MAX_LARGE_RUN_CLASSES ==> #[trigger] self.public_runs@[i]
                == SpmcSpanList::raw()
        &&& forall|i: int| 0 <= i < MAX_LARGE_RUN_CLASSES ==> #[trigger] self.cur_query_runs@[i] == 0
        &&& forall|i: int|
            0 <= i < MAX_LARGE_RUN_CLASSES ==> #[trigger] self.helping_pos_runs@[i] == 0
    }

    pub fn new() -> (r: Self)
        ensures
            r.blank(),
    {
        ThreadHeap {
            local_spans: empty_local_lists(C),
            public_spans: empty_public_lists(C),
            cur_query: zeros(C),
            helping_pos: zeros(C),
            local_runs: empty_local_lists(MAX_LARGE_RUN_CLASSES),
            public_runs: empty_public_lists(MAX_LARGE_RUN_CLASSES),
            cur_query_runs: zeros(MAX_LARGE_RUN_CLASSES),
            helping_pos_runs: zeros(MAX_LARGE_RUN_CLASSES),
        }
    }
}

impl<const C: u64> Default for ThreadHeap<C> {
    fn default() -> (r: Self)
        ensures
            r.blank(),
    {
        ThreadHeap::new()
    }
}

} // verus!
