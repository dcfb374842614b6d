//! Owner-only local free list of blocks inside one span.

use crate::block::UNLINKED;
use crate::chain::{blocks, cons, first, lemma_cons, lemma_drop_first, linked};
use crate::memory::{MemView, SpanMemory};
use vstd::prelude::*;

verus! {

/// A last-in first-out list of free blocks, linked through the blocks.
#[derive(Clone, Copy)]
pub struct LocalFreeList {
    head: u64,
    items: Ghost<Seq<u64>>,
}

impl LocalFreeList {
    /// The free blocks, first to last.
    pub closed spec fn seq(self) -> Seq<u64> {
        self.items@
    }

    /// Address of the first block, or 0.
    pub closed spec fn head(self) -> u64 {
        self.head
    }

    /// The link words form the chain of the free blocks.
    pub open spec fn wf(self, links: Map<u64, u64>) -> bool {
        &&& self.head() == first(self.seq())
        &&& blocks(links, self.seq())
        &&& linked(links, self.seq())
    }

    /// A list with a given content.
    pub closed spec fn of(items: Seq<u64>) -> LocalFreeList {
        LocalFreeList { head: first(items), items: Ghost(items) }
    }

    /// A list is its head and its content.
    pub broadcast proof fn lemma_of(items: Seq<u64>)
        ensures
            (#[trigger] LocalFreeList::of(items)).seq() == items,
            LocalFreeList::of(items).head() == first(items),
    {
    }

    /// A list whose head is its first block is determined by its content.
    pub proof fn lemma_ext(self)
        requires
            self.head() == first(self.seq()),
        ensures
            self == LocalFreeList::of(self.seq()),
    {
    }

    pub fn new() -> (r: Self)
        ensures
            r == LocalFreeList::of(Seq::empty()),
    {
        LocalFreeList { head: 0, items: Ghost(Seq::empty()) }
    }

    pub fn is_empty(&self) -> (r: bool)
        requires
            self.head() == first(self.seq()),
            self.seq().len() > 0 ==> self.seq()[0] != 0,
        ensures
            r == (self.seq().len() == 0),
    {
        self.head == 0
    }

    /// Push a free block.
    pub fn push(&mut self, mem: &mut SpanMemory, block: u64)
        requires
            old(mem).wf(),
            old(self).wf(old(mem)@.links),
            old(mem)@.links.dom().contains(block),
            block != 0,
            block != UNLINKED,
            !old(self).seq().contains(block),
        ensures
            final(mem).wf(),
            final(mem)@ == (MemView {
                links: old(mem)@.links.insert(block, old(self).head()),
                ..old(mem)@
            }),
            *final(self) == LocalFreeList::of(cons(block, old(self).seq())),
            final(self).wf(final(mem)@.links),
    {
        proof {
            lemma_cons(mem@.links, self.seq(), block);
        }
        let old_head: u64 = self.head;
        mem.set_link(block, old_head);
        self.head = block;
        proof {
            self.items@ = cons(block, self.items@);
        }
    }

    /// The head without popping it.
    pub fn peek_for_verify(&self) -> (r: u64)
        ensures
            r == self.head(),
    {
        self.head
    }

    /// Install an already linked chain as the whole list. The list must be
    /// empty, and `head` the start of a chain of `count` blocks.
    pub fn push_chain_head_for_init(
        &mut self,
        mem: &SpanMemory,
        head: u64,
        count: u64,
        chain: Ghost<Seq<u64>>,
    )
        requires
            old(self).seq().len() == 0,
            head == first(chain@),
            count == chain@.len(),
            blocks(mem@.links, chain@),
            linked(mem@.links, chain@),
        ensures
            *final(self) == LocalFreeList::of(chain@),
            final(self).wf(mem@.links),
    {
        self.head = head;
        proof {
            self.items@ = chain@;
        }
    }

    /// Pop a free block, or 0.
    pub fn pop(&mut self, mem: &SpanMemory) -> (r: u64)
        requires
            mem.wf(),
            old(self).wf(mem@.links),
        ensures
            r == first(old(self).seq()),
            r == 0 <==> old(self).seq().len() == 0,
            *final(self) == (if old(self).seq().len() == 0 {
                *old(self)
            } else {
                LocalFreeList::of(old(self).seq().drop_first())
            }),
            final(self).wf(mem@.links),
    {
        let block: u64 = self.head;
        if block == 0 {
            return block;
        }
        proof {
            lemma_drop_first(mem@.links, self.seq());
        }
        let next: u64 = mem.link(block);
        self.head = next;
        proof {
            self.items@ = self.items@.drop_first();
        }
        block
    }
}

impl Default for LocalFreeList {
    fn default() -> (r: Self)
        ensures
            r == LocalFreeList::of(Seq::empty()),
    {
        LocalFreeList::new()
    }
}

/// A block pushed on a local free list is the next one popped, and popping it
/// leaves the list as it was.
pub proof fn law_pop_returns_last_push(before: LocalFreeList, block: u64)
    ensures
        LocalFreeList::of(cons(block, before.seq())).head() == block,
        LocalFreeList::of(cons(block, before.seq())).seq().drop_first() == before.seq(),
{
    assert(cons(block, before.seq()).drop_first() =~= before.seq());
}

} // verus!
