//! Public span list: one producer, many consumers.
//!
//! A queue with a dummy node. The producer, which owns the heap, appends at
//! the tail. A consumer pops at the head with exactly one versioned
//! double-word attempt; a failed attempt sends the caller on with its bounded
//! budget, never into a retry.
//!
//! Every span carries one node. Enqueuing a span uses up its node as the new
//! tail, and a successful pop hands the outgoing dummy to the popped span, so
//! the number of nodes stays the same and no node is ever freed.

use crate::atomic_backend::Cas2Backend;
use crate::chain::succ;
use crate::memory::{MemView, SpanMemory};
use crate::span::SpanHeader;
use crate::stats::StepCounter;
use crate::tagged::HeadWord;
use vstd::prelude::*;

verus! {

/// A list node: the id of its successor, and the span that it carries.
#[derive(Clone, Copy)]
pub struct SpanNode {
    pub next: u64,
    pub span: u64,
}

impl SpanNode {
    /// A node in no use.
    pub open spec fn fresh() -> SpanNode {
        SpanNode { next: 0, span: 0 }
    }

    pub fn new() -> (r: Self)
        ensures
            r == Self::fresh(),
    {
        SpanNode { next: 0, span: 0 }
    }
}

impl Default for SpanNode {
    fn default() -> (r: Self)
        ensures
            r == SpanNode::fresh(),
    {
        SpanNode::new()
    }
}

/// Outcome of one pop attempt. A failed attempt is no empty list: it sends
/// the caller into the helping protocol.
#[derive(Debug, Clone, Copy, PartialEq, Eq, Structural)]
pub enum TryPop {
    Span(u64),
    Empty,
    Failed,
}

/// A public list of spans, first in first out.
pub struct SpmcSpanList {
    /// Node id of the dummy and version, exchanged together by consumers.
    head: HeadWord,
    /// Node id of the last node; used by the producer only.
    tail: u64,
    nodes: Ghost<Seq<u64>>,
    items: Ghost<Seq<u64>>,
}

impl SpmcSpanList {
    /// The head word.
    pub closed spec fn head(self) -> HeadWord {
        self.head
    }

    /// The nodes, from the dummy on. None before the list is initialized.
    pub closed spec fn chain(self) -> Seq<u64> {
        self.nodes@
    }

    /// The spans in the list, first to last.
    pub closed spec fn seq(self) -> Seq<u64> {
        self.items@
    }

    /// A list that is not initialized yet.
    pub closed spec fn raw() -> SpmcSpanList {
        SpmcSpanList {
            head: HeadWord { ptr: 0, version: 0 },
            tail: 0,
            nodes: Ghost(Seq::empty()),
            items: Ghost(Seq::empty()),
        }
    }

    /// An initialized list with given nodes, spans and version.
    pub closed spec fn of(chain: Seq<u64>, items: Seq<u64>, version: u64) -> SpmcSpanList {
        SpmcSpanList {
            head: HeadWord { ptr: chain[0], version },
            tail: chain[chain.len() - 1],
            nodes: Ghost(chain),
            items: Ghost(items),
        }
    }

    /// A list is determined by its nodes, spans and version.
    pub broadcast proof fn lemma_of(chain: Seq<u64>, items: Seq<u64>, version: u64)
        ensures
            (#[trigger] SpmcSpanList::of(chain, items, version)).chain() == chain,
            SpmcSpanList::of(chain, items, version).seq() == items,
            SpmcSpanList::of(chain, items, version).head() == (HeadWord { ptr: chain[0], version }),
    {
    }

    /// A list that is not initialized has no node.
    pub proof fn lemma_raw()
        ensures
            SpmcSpanList::raw().chain() == Seq::<u64>::empty(),
            SpmcSpanList::raw().seq() == Seq::<u64>::empty(),
            SpmcSpanList::raw().head() == (HeadWord { ptr: 0, version: 0 }),
    {
    }

    /// The list is initialized, and nodes and spans form the queue.
    pub open spec fn wf(self, mem: MemView) -> bool {
        &&& self == SpmcSpanList::of(self.chain(), self.seq(), self.head().version)
        &&& self.chain().len() == self.seq().len() + 1
        &&& self.chain().no_duplicates()
        &&& self.seq().no_duplicates()
        &&& forall|i: int|
            0 <= i < self.chain().len() ==> #[trigger] self.chain()[i] != 0
                && mem.nodes.dom().contains(self.chain()[i])
        &&& forall|i: int|
            0 <= i < self.chain().len() ==> (#[trigger] mem.nodes[self.chain()[i]]).next == succ(
                self.chain(),
                i,
            )
        &&& forall|i: int|
            0 <= i < self.seq().len() ==> #[trigger] self.seq()[i] != 0
                && mem.headers.dom().contains(self.seq()[i])
                && mem.nodes[self.chain()[i + 1]].span == self.seq()[i]
    }

    /// The list after its first span was popped: the node of that span is
    /// the new dummy, and the version has moved on.
    pub open spec fn popped(self) -> SpmcSpanList {
        SpmcSpanList::of(
            self.chain().drop_first(),
            self.seq().drop_first(),
            next_version(self.head().version),
        )
    }

    /// The metadata after the first span was popped: it owns the outgoing
    /// dummy node.
    pub open spec fn popped_mem(self, mem: MemView) -> MemView {
        let s = self.seq()[0];
        MemView {
            headers: mem.headers.insert(
                s,
                SpanHeader { node: self.chain()[0], ..mem.headers[s] },
            ),
            ..mem
        }
    }

    pub fn new() -> (r: Self)
        ensures
            r == SpmcSpanList::raw(),
    {
        SpmcSpanList {
            head: HeadWord::zero(),
            tail: 0,
            nodes: Ghost(Seq::empty()),
            items: Ghost(Seq::empty()),
        }
    }

    /// Point head and tail at a fresh dummy node.
    pub fn init(&mut self, mem: &mut SpanMemory)
        requires
            old(mem).wf(),
            *old(self) == SpmcSpanList::raw(),
        ensures
            final(mem).wf(),
            final(self).chain().len() == 1,
            !old(mem)@.nodes.dom().contains(final(self).chain()[0]),
            *final(self) == SpmcSpanList::of(final(self).chain(), Seq::empty(), 0),
            final(mem)@ == (MemView {
                nodes: old(mem)@.nodes.insert(final(self).chain()[0], SpanNode::fresh()),
                ..old(mem)@
            }),
            final(self).wf(final(mem)@),
    {
        let dummy: u64 = mem.new_node();
        self.head = HeadWord::new(dummy, 0);
        self.tail = dummy;
        proof {
            self.nodes@ = seq![dummy];
            assert(self.items@ =~= Seq::<u64>::empty());
        }
    }

    /// The head word, for one compare-exchange.
    pub fn head_ptr(&mut self) -> (r: &mut HeadWord)
        ensures
            *r == old(self).head(),
            final(self).head() == *final(r),
            final(self).chain() == old(self).chain(),
            final(self).seq() == old(self).seq(),
            *final(r) == *r ==> *final(self) == *old(self),
    {
        &mut self.head
    }

    /// The head word.
    pub fn head_word(&self) -> (r: HeadWord)
        ensures
            r == self.head(),
    {
        self.head
    }

    /// The nodes after `span`, whose own node is `node`, was enqueued.
    pub open spec fn nodes_enqueue(
        nodes: Map<u64, SpanNode>,
        chain: Seq<u64>,
        node: u64,
        span: u64,
    ) -> Map<u64, SpanNode> {
        let tail = chain[chain.len() - 1];
        let n = nodes.insert(node, SpanNode { next: 0, span });
        n.insert(tail, SpanNode { next: node, ..n[tail] })
    }

    /// Append a span, by the owner of the list. The node of the span becomes
    /// the last node.
    pub fn enqueue_by_owner(&mut self, mem: &mut SpanMemory, span: u64, step: &mut StepCounter)
        requires
            old(mem).wf(),
            old(self).wf(old(mem)@),
            old(mem)@.headers.dom().contains(span),
            span != 0,
            !old(self).seq().contains(span),
            old(mem)@.nodes.dom().contains(old(mem)@.headers[span].node),
            old(mem)@.headers[span].node != 0,
            !old(self).chain().contains(old(mem)@.headers[span].node),
        ensures
            final(mem).wf(),
            final(mem)@ == (MemView {
                headers: old(mem)@.headers.insert(
                    span,
                    SpanHeader { node: 0, ..old(mem)@.headers[span] },
                ),
                nodes: SpmcSpanList::nodes_enqueue(
                    old(mem)@.nodes,
                    old(self).chain(),
                    old(mem)@.headers[span].node,
                    span,
                ),
                ..old(mem)@
            }),
            *final(self) == SpmcSpanList::of(
                old(self).chain().push(old(mem)@.headers[span].node),
                old(self).seq().push(span),
                old(self).head().version,
            ),
            final(self).wf(final(mem)@),
            *final(step) == *old(step),
    {
        let mut h = mem.header(span);
        let node: u64 = h.node;
        h.node = 0;
        mem.set_header(span, h);
        mem.set_node(node, SpanNode { next: 0, span });
        let tail: u64 = self.tail;
        let t = mem.node(tail);
        mem.set_node(tail, SpanNode { next: node, span: t.span });
        self.tail = node;
        proof {
            let chain = self.nodes@;
            let items = self.items@;
            self.nodes@ = chain.push(node);
            self.items@ = items.push(span);
            let c2 = self.nodes@;
            assert(chain[chain.len() - 1] == tail);
            assert(chain.contains(tail));
            assert forall|i: int, j: int| 0 <= i < c2.len() && 0 <= j < c2.len() && i
                != j implies c2[i] != c2[j] by {
                if i < chain.len() && j < chain.len() {
                    assert(chain[i] != chain[j]);
                } else if i < chain.len() {
                    assert(chain.contains(chain[i]));
                } else {
                    assert(chain.contains(chain[j]));
                }
            }
            assert forall|i: int, j: int| 0 <= i < self.items@.len() && 0 <= j < self.items@.len()
                && i != j implies self.items@[i] != self.items@[j] by {
                if i < items.len() && j < items.len() {
                    assert(items[i] != items[j]);
                } else if i < items.len() {
                    assert(items.contains(items[i]));
                } else {
                    assert(items.contains(items[j]));
                }
            }
            assert forall|i: int| 0 <= i < c2.len() implies (#[trigger] mem@.nodes[c2[i]]).next
                == succ(c2, i) by {
                if i < chain.len() {
                    assert(chain.contains(chain[i]));
                    assert(old(mem)@.nodes[chain[i]].next == succ(chain, i));
                    if i < chain.len() - 1 {
                        assert(chain[i] != chain[chain.len() - 1]);
                    }
                }
            }
            assert forall|i: int| 0 <= i < self.items@.len() implies #[trigger] self.items@[i] != 0
                && mem@.headers.dom().contains(self.items@[i]) && mem@.nodes[c2[i + 1]].span
                == self.items@[i] by {
                if i < items.len() {
                    assert(items[i] != 0);
                    assert(chain.contains(chain[i + 1]));
                }
            }
        }
    }

    /// One pop attempt: at most one compare-exchange, never a retry.
    pub fn try_pop_head_once<B: Cas2Backend>(
        &mut self,
        mem: &mut SpanMemory,
        step: &mut StepCounter,
    ) -> (r: TryPop)
        requires
            old(mem).wf(),
            *old(self) == SpmcSpanList::raw() || old(self).wf(old(mem)@),
            old(step).room(1),
        ensures
            final(mem).wf(),
            r is Empty <==> old(self).seq().len() == 0,
            B::strong() ==> !(r is Failed),
            !(r is Span) ==> *final(self) == *old(self) && final(mem)@ == old(mem)@,
            r matches TryPop::Span(s) ==> {
                &&& s == old(self).seq()[0]
                &&& *final(self) == old(self).popped()
                &&& final(mem)@ == old(self).popped_mem(old(mem)@)
                &&& final(self).wf(final(mem)@)
            },
            *final(step) == (if r is Empty {
                *old(step)
            } else {
                StepCounter { cas2_attempts: (old(step).cas2_attempts + 1) as u64, ..*old(step) }
            }),
    {
        let word = B::load(&self.head);
        if word.ptr == 0 {
            proof {
                SpmcSpanList::lemma_raw();
                if self.wf(mem@) {
                    assert(self.chain()[0] != 0);
                }
            }
            return TryPop::Empty;
        }
        proof {
            SpmcSpanList::lemma_raw();
            assert(self.chain()[0] == word.ptr);
            assert(mem@.nodes[self.chain()[0]].next == succ(self.chain(), 0));
        }
        let next: u64 = mem.node(word.ptr).next;
        if next == 0 {
            proof {
                if self.seq().len() > 0 {
                    assert(self.chain()[1] != 0);
                }
            }
            return TryPop::Empty;
        }
        let new = HeadWord::new(next, word.version.wrapping_add(1));
        step.cas2_attempts = step.cas2_attempts + 1;
        match B::compare_exchange(&mut self.head, word, new) {
            Ok(_) => {
                let ghost chain = self.nodes@;
                let ghost items = self.items@;
                assert(chain[1] == next);
                assert(items[0] != 0);
                let span: u64 = mem.node(next).span;
                let mut h = mem.header(span);
                h.node = word.ptr;
                mem.set_header(span, h);
                proof {
                    self.nodes@ = chain.drop_first();
                    self.items@ = items.drop_first();
                    let c2 = self.nodes@;
                    let i2 = self.items@;
                    assert forall|i: int, j: int| 0 <= i < c2.len() && 0 <= j < c2.len() && i
                        != j implies c2[i] != c2[j] by {
                        assert(chain[i + 1] != chain[j + 1]);
                    }
                    assert forall|i: int, j: int| 0 <= i < i2.len() && 0 <= j < i2.len() && i
                        != j implies i2[i] != i2[j] by {
                        assert(items[i + 1] != items[j + 1]);
                    }
                    assert forall|i: int| 0 <= i < c2.len() implies (#[trigger] mem@.nodes[c2[i]]).next
                        == succ(c2, i) by {
                        assert(mem@.nodes[chain[i + 1]].next == succ(chain, i + 1));
                    }
                    assert forall|i: int| 0 <= i < i2.len() implies #[trigger] i2[i] != 0
                        && mem@.headers.dom().contains(i2[i]) && mem@.nodes[c2[i + 1]].span
                        == i2[i] by {
                        assert(items[i + 1] != 0);
                    }
                }
                TryPop::Span(span)
            },
            Err(_) => TryPop::Failed,
        }
    }
}

/// The version after a pop.
pub open spec fn next_version(version: u64) -> u64 {
    if version == u64::MAX {
        0
    } else {
        (version + 1) as u64
    }
}

impl Default for SpmcSpanList {
    fn default() -> (r: Self)
        ensures
            r == SpmcSpanList::raw(),
    {
        SpmcSpanList::new()
    }
}

} // verus!
