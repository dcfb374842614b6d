//! Metadata of the spans of one region.
//!
//! A region is an array of `SPAN_SIZE`-byte spans. Every span has a header, a
//! list node of its own and room for one hidden header of a large payload;
//! every 16-byte granule has one link word, which a free block at that address
//! uses. Addresses stand for pointers, and the address 0 for the null pointer.

use crate::block::Block;
use crate::config::SPAN_SIZE;
use crate::large::LargeAllocHeader;
use crate::span::SpanHeader;
use crate::spmc_span_list::SpanNode;
use vstd::prelude::*;

verus! {

/// Bytes covered by one link word.
pub const GRANULE: u64 = 16;

/// Link words of one span.
pub const SPAN_GRANULES: u64 = 4096;

/// Room for the hidden header of a large payload: one per span.
#[derive(Clone, Copy)]
pub struct LargeSlot {
    /// Address at which the hidden header was written, 0 if none was.
    pub at: u64,
    pub header: LargeAllocHeader,
}

/// The words of a region that the allocator reads and writes: headers, links of
/// free blocks, list nodes and hidden headers of runs.
pub struct SpanMemory {
    base: u64,
    headers: Vec<SpanHeader>,
    words: Vec<Block>,
    nodes: Vec<SpanNode>,
    larges: Vec<LargeSlot>,
}

/// What the metadata of a region holds, by address.
pub ghost struct MemView {
    /// Address of the first span.
    pub base: u64,
    /// Number of spans.
    pub count: nat,
    /// Header of each span, by span address.
    pub headers: Map<u64, SpanHeader>,
    /// Link word of each granule, by granule address.
    pub links: Map<u64, u64>,
    /// List nodes, by node id.
    pub nodes: Map<u64, SpanNode>,
    /// Hidden large header of each span, by span address.
    pub larges: Map<u64, LargeSlot>,
}

impl MemView {
    /// End of the region.
    pub open spec fn end(self) -> int {
        self.base + self.count * SPAN_SIZE
    }

    /// `a` is the address of a span.
    pub open spec fn is_span(self, a: u64) -> bool {
        &&& self.base <= a
        &&& (a - self.base) % (SPAN_SIZE as int) == 0
        &&& a + SPAN_SIZE <= self.end()
    }

    /// `a` is the address of a link word.
    pub open spec fn is_word(self, a: u64) -> bool {
        &&& self.base <= a < self.end()
        &&& (a - self.base) % (GRANULE as int) == 0
    }

    /// The span that holds the address `a`.
    pub open spec fn span_of(self, a: u64) -> u64 {
        (a - (a - self.base) % (SPAN_SIZE as int)) as u64
    }

    /// The node that a span brings with it.
    pub open spec fn own_node(self, a: u64) -> u64 {
        ((a - self.base) / (SPAN_SIZE as int) + 1) as u64
    }
}

impl View for SpanMemory {
    type V = MemView;

    closed spec fn view(&self) -> MemView {
        MemView {
            base: self.base,
            count: self.headers@.len(),
            headers: Map::new(
                |a: u64|
                    self.base <= a && (a - self.base) % (SPAN_SIZE as int) == 0 && (a - self.base)
                        / (SPAN_SIZE as int) < self.headers@.len(),
                |a: u64| self.headers@[(a - self.base) / (SPAN_SIZE as int)],
            ),
            links: Map::new(
                |a: u64|
                    self.base <= a && (a - self.base) % (GRANULE as int) == 0 && (a - self.base) / (
                    GRANULE as int) < self.words@.len(),
                |a: u64| self.words@[(a - self.base) / (GRANULE as int)].next,
            ),
            nodes: Map::new(
                |a: u64| 1 <= a < self.nodes@.len(),
                |a: u64| self.nodes@[a as int],
            ),
            larges: Map::new(
                |a: u64|
                    self.base <= a && (a - self.base) % (SPAN_SIZE as int) == 0 && (a - self.base)
                        / (SPAN_SIZE as int) < self.larges@.len(),
                |a: u64| self.larges@[(a - self.base) / (SPAN_SIZE as int)],
            ),
        }
    }
}

impl SpanMemory {
    /// The tables fit the region, and the region fits the address space.
    pub closed spec fn wf(&self) -> bool {
        &&& self.base % SPAN_SIZE == 0
        &&& self.headers@.len() > 0 ==> self.base > 0
        &&& self.base + self.headers@.len() * SPAN_SIZE <= u64::MAX
        &&& self.words@.len() == self.headers@.len() * SPAN_GRANULES
        &&& self.larges@.len() == self.headers@.len()
        &&& self.nodes@.len() >= self.headers@.len() + 1
    }

    /// What well-formedness says of the view.
    pub proof fn lemma_view(&self)
        requires
            self.wf(),
        ensures
            self@.base % SPAN_SIZE == 0,
            self@.count > 0 ==> self@.base > 0,
            self@.end() <= u64::MAX,
            forall|a: u64| #[trigger] self@.headers.dom().contains(a) <==> self@.is_span(a),
            forall|a: u64| #[trigger] self@.larges.dom().contains(a) <==> self@.is_span(a),
            forall|a: u64| #[trigger] self@.links.dom().contains(a) <==> self@.is_word(a),
            forall|a: u64| #[trigger] self@.nodes.dom().contains(a) ==> a != 0,
            forall|a: u64|
                self@.is_span(a) ==> #[trigger] self@.nodes.dom().contains(self@.own_node(a)),
    {
        assert forall|a: u64| #[trigger] self@.headers.dom().contains(a) <==> self@.is_span(a) by {
            self.lemma_span_index(a);
        }
        assert forall|a: u64| #[trigger] self@.larges.dom().contains(a) <==> self@.is_span(a) by {
            self.lemma_span_index(a);
        }
        assert forall|a: u64| #[trigger] self@.links.dom().contains(a) <==> self@.is_word(a) by {
            if self.base <= a {
                let d = a - self.base;
                let n = self.words@.len() as int;
                assert(d / 16 < n <==> d < n * 16) by (nonlinear_arith)
                    requires
                        d >= 0,
                ;
            }
        }
        assert forall|a: u64| self@.is_span(a) implies #[trigger] self@.nodes.dom().contains(
            self@.own_node(a),
        ) by {
            self.lemma_span_index(a);
        }
    }

    /// The position of a span in the region.
    proof fn lemma_span_index(&self, a: u64)
        ensures
            (self.base <= a && (a - self.base) % (SPAN_SIZE as int) == 0 && (a - self.base) / (
            SPAN_SIZE as int) < self.headers@.len()) <==> self@.is_span(a),
    {
        if self.base <= a && (a - self.base) % (SPAN_SIZE as int) == 0 {
            let d = a - self.base;
            let k = d / (SPAN_SIZE as int);
            let n = self.headers@.len() as int;
            assert(d == k * SPAN_SIZE);
            assert(k < n <==> k * SPAN_SIZE + SPAN_SIZE <= n * SPAN_SIZE) by (nonlinear_arith);
        }
    }

    /// Metadata of the `count` spans from `base` on: blank headers, empty
    /// links, and one unused node per span.
    pub fn new(base: u64, count: u64) -> (r: Self)
        requires
            base % SPAN_SIZE == 0,
            count > 0 ==> base > 0,
            base + count * SPAN_SIZE <= u64::MAX,
        ensures
            r.wf(),
            r@.base == base,
            r@.count == count,
            forall|a: u64| r@.is_span(a) ==> #[trigger] r@.headers[a] == SpanHeader::blank(),
            forall|a: u64| r@.is_span(a) ==> (#[trigger] r@.larges[a]).at == 0,
            forall|a: u64| r@.is_word(a) ==> #[trigger] r@.links[a] == 0,
            forall|a: u64| #[trigger]
                r@.nodes.dom().contains(a) <==> 1 <= a <= count,
            forall|a: u64| 1 <= a <= count ==> #[trigger] r@.nodes[a] == SpanNode::fresh(),
    {
        let mut headers: Vec<SpanHeader> = Vec::new();
        let mut nodes: Vec<SpanNode> = Vec::new();
        let mut larges: Vec<LargeSlot> = Vec::new();
        let mut words: Vec<Block> = Vec::new();
        nodes.push(SpanNode::new());
        let mut i: u64 = 0;
        while i < count
            invariant
                i <= count,
                headers@.len() == i,
                nodes@.len() == i + 1,
                larges@.len() == i,
                forall|k: int| 0 <= k < i ==> headers@[k] == SpanHeader::blank(),
                forall|k: int| 0 <= k < i ==> (#[trigger] larges@[k]).at == 0,
                forall|k: int| 0 <= k <= i ==> nodes@[k] == SpanNode::fresh(),
            decreases count - i,
        {
            headers.push(SpanHeader::new());
            nodes.push(SpanNode::new());
            larges.push(LargeSlot { at: 0, header: LargeAllocHeader::blank() });
            i = i + 1;
        }
        let granules: u64 = count * SPAN_GRANULES;
        let mut j: u64 = 0;
        while j < granules
            invariant
                j <= granules,
                words@.len() == j,
                forall|k: int| 0 <= k < j ==> (#[trigger] words@[k]).next == 0,
            decreases granules - j,
        {
            words.push(Block { next: 0 });
            j = j + 1;
        }
        let r = SpanMemory { base, headers, words, nodes, larges };
        proof {
            assert forall|a: u64| r@.is_span(a) implies #[trigger] r@.headers[a]
                == SpanHeader::blank() by {
                r.lemma_span_index(a);
            }
            assert forall|a: u64| r@.is_span(a) implies (#[trigger] r@.larges[a]).at == 0 by {
                r.lemma_span_index(a);
            }
            r.lemma_view();
            assert forall|a: u64| r@.is_word(a) implies #[trigger] r@.links[a] == 0 by {
                assert(r@.links.dom().contains(a));
            }
        }
        r
    }

    /// Number of spans.
    pub fn spans(&self) -> (r: u64)
        ensures
            r == self@.count,
    {
        self.headers.len() as u64
    }

    /// Whether an address is that of a span.
    pub fn has_span(&self, a: u64) -> (r: bool)
        requires
            self.wf(),
        ensures
            r == self@.headers.dom().contains(a),
    {
        let n: u64 = self.headers.len() as u64;
        a >= self.base && (a - self.base) % SPAN_SIZE == 0 && (a - self.base) / SPAN_SIZE < n
    }

    /// Whether an address is that of a link word.
    pub fn has_word(&self, a: u64) -> (r: bool)
        requires
            self.wf(),
        ensures
            r == self@.links.dom().contains(a),
    {
        let n: u64 = self.words.len() as u64;
        a >= self.base && (a - self.base) % GRANULE == 0 && (a - self.base) / GRANULE < n
    }

    /// Whether there is a list node of this id.
    pub fn has_node(&self, id: u64) -> (r: bool)
        ensures
            r == self@.nodes.dom().contains(id),
    {
        let n: u64 = self.nodes.len() as u64;
        id >= 1 && id < n
    }

    /// The header of a span.
    pub fn header(&self, a: u64) -> (r: SpanHeader)
        requires
            self.wf(),
            self@.headers.dom().contains(a),
        ensures
            r == self@.headers[a],
    {
        let n: usize = self.headers.len();
        self.headers[((a - self.base) / SPAN_SIZE) as usize]
    }

    /// Replace the header of a span.
    pub fn set_header(&mut self, a: u64, h: SpanHeader)
        requires
            old(self).wf(),
            old(self)@.headers.dom().contains(a),
        ensures
            final(self).wf(),
            final(self)@ == (MemView {
                headers: old(self)@.headers.insert(a, h),
                ..old(self)@
            }),
    {
        let n: usize = self.headers.len();
        let i: u64 = (a - self.base) / SPAN_SIZE;
        self.headers.set(i as usize, h);
        proof {
            assert forall|b: u64| old(self)@.headers.dom().contains(b) && b != a implies (b
                - self.base) / (SPAN_SIZE as int) != i by {
            }
            assert(self@.headers =~= old(self)@.headers.insert(a, h));
            assert(self@.links =~= old(self)@.links);
            assert(self@.nodes =~= old(self)@.nodes);
            assert(self@.larges =~= old(self)@.larges);
        }
    }

    /// The link word at an address.
    pub fn link(&self, a: u64) -> (r: u64)
        requires
            self.wf(),
            self@.links.dom().contains(a),
        ensures
            r == self@.links[a],
    {
        let n: usize = self.words.len();
        self.words[((a - self.base) / GRANULE) as usize].next
    }

    /// Replace the link word at an address.
    pub fn set_link(&mut self, a: u64, next: u64)
        requires
            old(self).wf(),
            old(self)@.links.dom().contains(a),
        ensures
            final(self).wf(),
            final(self)@ == (MemView { links: old(self)@.links.insert(a, next), ..old(self)@ }),
    {
        let n: usize = self.words.len();
        let i: u64 = (a - self.base) / GRANULE;
        self.words.set(i as usize, Block { next });
        proof {
            assert forall|b: u64| old(self)@.links.dom().contains(b) && b != a implies (b
                - self.base) / (GRANULE as int) != i by {
            }
            assert(self@.headers =~= old(self)@.headers);
            assert(self@.links =~= old(self)@.links.insert(a, next));
            assert(self@.nodes =~= old(self)@.nodes);
            assert(self@.larges =~= old(self)@.larges);
        }
    }

    /// A list node.
    pub fn node(&self, id: u64) -> (r: SpanNode)
        requires
            self.wf(),
            self@.nodes.dom().contains(id),
        ensures
            r == self@.nodes[id],
    {
        let n: usize = self.nodes.len();
        self.nodes[id as usize]
    }

    /// Replace a list node.
    pub fn set_node(&mut self, id: u64, node: SpanNode)
        requires
            old(self).wf(),
            old(self)@.nodes.dom().contains(id),
        ensures
            final(self).wf(),
            final(self)@ == (MemView { nodes: old(self)@.nodes.insert(id, node), ..old(self)@ }),
    {
        let n: usize = self.nodes.len();
        self.nodes.set(id as usize, node);
        proof {
            assert(self@.headers =~= old(self)@.headers);
            assert(self@.links =~= old(self)@.links);
            assert(self@.nodes =~= old(self)@.nodes.insert(id, node));
            assert(self@.larges =~= old(self)@.larges);
        }
    }

    /// A node that is in no use yet.
    pub fn new_node(&mut self) -> (id: u64)
        requires
            old(self).wf(),
        ensures
            final(self).wf(),
            id != 0,
            !old(self)@.nodes.dom().contains(id),
            final(self)@ == (MemView {
                nodes: old(self)@.nodes.insert(id, SpanNode::fresh()),
                ..old(self)@
            }),
    {
        let id: u64 = self.nodes.len() as u64;
        self.nodes.push(SpanNode::new());
        proof {
            assert(self@.headers =~= old(self)@.headers);
            assert(self@.links =~= old(self)@.links);
            assert(self@.nodes =~= old(self)@.nodes.insert(id, SpanNode::fresh()));
            assert(self@.larges =~= old(self)@.larges);
        }
        id
    }

    /// The node that the span at `a` brings with it.
    pub fn own_node(&self, a: u64) -> (r: u64)
        requires
            self.wf(),
            self@.headers.dom().contains(a),
        ensures
            r == self@.own_node(a),
            self@.nodes.dom().contains(r),
            r != 0,
    {
        proof {
            self.lemma_view();
            self.lemma_span_index(a);
        }
        (a - self.base) / SPAN_SIZE + 1
    }

    /// The hidden large header in a span.
    pub fn large(&self, a: u64) -> (r: LargeSlot)
        requires
            self.wf(),
            self@.larges.dom().contains(a),
        ensures
            r == self@.larges[a],
    {
        let n: usize = self.larges.len();
        self.larges[((a - self.base) / SPAN_SIZE) as usize]
    }

    /// Replace the hidden large header in a span.
    pub fn set_large(&mut self, a: u64, slot: LargeSlot)
        requires
            old(self).wf(),
            old(self)@.larges.dom().contains(a),
        ensures
            final(self).wf(),
            final(self)@ == (MemView { larges: old(self)@.larges.insert(a, slot), ..old(self)@ }),
    {
        let n: usize = self.larges.len();
        let i: u64 = (a - self.base) / SPAN_SIZE;
        self.larges.set(i as usize, slot);
        proof {
            assert forall|b: u64| old(self)@.larges.dom().contains(b) && b != a implies (b
                - self.base) / (SPAN_SIZE as int) != i by {
            }
            assert(self@.headers =~= old(self)@.headers);
            assert(self@.links =~= old(self)@.links);
            assert(self@.nodes =~= old(self)@.nodes);
            assert(self@.larges =~= old(self)@.larges.insert(a, slot));
        }
    }

    /// The span that holds an address of the region.
    pub fn span_of(&self, a: u64) -> (r: u64)
        requires
            self.wf(),
            self@.base <= a < self@.end(),
        ensures
            r == self@.span_of(a),
            self@.is_span(r),
            self@.headers.dom().contains(r),
            r <= a < r + SPAN_SIZE,
    {
        let r: u64 = a - (a - self.base) % SPAN_SIZE;
        proof {
            self.lemma_view();
            let d = a - self.base;
            let k = d / (SPAN_SIZE as int);
            let n = self.headers@.len() as int;
            assert(k * SPAN_SIZE == r - self.base);
            assert(k < n) by (nonlinear_arith)
                requires
                    k * SPAN_SIZE <= d,
                    d < n * SPAN_SIZE,
            ;
            assert(k * SPAN_SIZE + SPAN_SIZE <= n * SPAN_SIZE) by (nonlinear_arith)
                requires
                    k < n,
            ;
        }
        r
    }
}

} // verus!
