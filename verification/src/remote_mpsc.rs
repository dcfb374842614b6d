//! Remote free list of one span: many producers, one consumer.
//!
//! A producer publishes its block with a swap and then links the old head.
//! Between the two steps the link of the block is `UNLINKED`; the consumer
//! stops at such a link and goes on later. Nothing waits.

use crate::block::UNLINKED;
use crate::chain::{
    blocks, cons, first, half_linked, lemma_cons, lemma_drop_first, lemma_frame, lemma_stall, rev,
    stall,
};
use crate::local_list::LocalFreeList;
use crate::memory::{MemView, SpanMemory};
use crate::span::{LocalMeta, SpanHeader};
use crate::stats::StepCounter;
use vstd::prelude::*;

verus! {

/// The blocks of a span that other threads freed, last published first.
#[derive(Clone, Copy)]
pub struct RemoteMpscFreeList {
    head: u64,
    items: Ghost<Seq<u64>>,
}

impl RemoteMpscFreeList {
    /// The published blocks, last published first.
    pub closed spec fn seq(self) -> Seq<u64> {
        self.items@
    }

    /// Address of the block published last, or 0.
    pub closed spec fn head(self) -> u64 {
        self.head
    }

    /// The link words form the chain of the published blocks, up to links
    /// that are still missing.
    pub open spec fn wf(self, links: Map<u64, u64>) -> bool {
        &&& self.head() == first(self.seq())
        &&& blocks(links, self.seq())
        &&& half_linked(links, self.seq())
    }

    /// A list with a given content.
    pub closed spec fn of(items: Seq<u64>) -> RemoteMpscFreeList {
        RemoteMpscFreeList { head: first(items), items: Ghost(items) }
    }

    /// A list is its head and its content.
    pub broadcast proof fn lemma_of(items: Seq<u64>)
        ensures
            (#[trigger] RemoteMpscFreeList::of(items)).seq() == items,
            RemoteMpscFreeList::of(items).head() == first(items),
    {
    }

    pub fn new() -> (r: Self)
        ensures
            r == RemoteMpscFreeList::of(Seq::empty()),
    {
        RemoteMpscFreeList { head: 0, items: Ghost(Seq::empty()) }
    }

    /// First half of `push`: mark `block` unlinked and swap it in as the new
    /// head. Returns the old head, to be passed to `push_link`.
    pub fn push_publish(&mut self, mem: &mut SpanMemory, block: u64) -> (r: u64)
        requires
            old(mem).wf(),
            old(self).wf(old(mem)@.links),
            old(mem)@.links.dom().contains(block),
            block != 0,
            block != UNLINKED,
            !old(self).seq().contains(block),
        ensures
            r == old(self).head(),
            final(mem).wf(),
            final(mem)@ == (MemView {
                links: old(mem)@.links.insert(block, UNLINKED),
                ..old(mem)@
            }),
            *final(self) == RemoteMpscFreeList::of(cons(block, old(self).seq())),
            final(self).wf(final(mem)@.links),
    {
        proof {
            lemma_cons(mem@.links, self.seq(), block);
            lemma_frame(
                mem@.links.insert(block, first(self.seq())),
                mem@.links.insert(block, UNLINKED),
                self.seq(),
            );
        }
        mem.set_link(block, UNLINKED);
        let old_head: u64 = self.head;
        self.head = block;
        proof {
            let c = cons(block, self.items@);
            assert forall|i: int| 0 <= i < c.len() implies mem@.links.dom().contains(
                #[trigger] c[i],
            ) by {
                if i > 0 {
                    assert(c[i] == self.items@[i - 1]);
                }
            }
            self.items@ = c;
        }
        old_head
    }

    /// Second half of `push`: link the published block to the old head.
    pub fn push_link(mem: &mut SpanMemory, block: u64, old_head: u64)
        requires
            old(mem).wf(),
            old(mem)@.links.dom().contains(block),
        ensures
            final(mem).wf(),
            final(mem)@ == (MemView {
                links: old(mem)@.links.insert(block, old_head),
                ..old(mem)@
            }),
    {
        mem.set_link(block, old_head);
    }

    /// Push: publish, then link.
    pub fn push(&mut self, mem: &mut SpanMemory, block: u64)
        requires
            old(mem).wf(),
            old(self).wf(old(mem)@.links),
            old(mem)@.links.dom().contains(block),
            block != 0,
            block != UNLINKED,
            !old(self).seq().contains(block),
        ensures
            final(mem).wf(),
            final(mem)@ == (MemView {
                links: old(mem)@.links.insert(block, old(self).head()),
                ..old(mem)@
            }),
            *final(self) == RemoteMpscFreeList::of(cons(block, old(self).seq())),
            final(self).wf(final(mem)@.links),
    {
        proof {
            lemma_cons(mem@.links, self.seq(), block);
        }
        let old_head: u64 = self.push_publish(mem, block);
        Self::push_link(mem, block, old_head);
        proof {
            assert(mem@.links =~= old(mem)@.links.insert(block, old(self).head()));
        }
    }

    /// Detach the entire list and return its head.
    pub fn reclaim_all(&mut self) -> (r: u64)
        ensures
            r == old(self).head(),
            *final(self) == RemoteMpscFreeList::of(Seq::empty()),
    {
        let r: u64 = self.head;
        self.head = 0;
        proof {
            self.items@ = Seq::empty();
        }
        r
    }
}

impl Default for RemoteMpscFreeList {
    fn default() -> (r: Self)
        ensures
            r == RemoteMpscFreeList::of(Seq::empty()),
    {
        RemoteMpscFreeList::new()
    }
}

/// The blocks from `cur` on whose links are there, at most `n` of them.
pub open spec fn walk(links: Map<u64, u64>, cur: u64, n: nat) -> Seq<u64>
    decreases n,
{
    if n == 0 || cur == 0 || links[cur] == UNLINKED {
        Seq::empty()
    } else {
        cons(cur, walk(links, links[cur], (n - 1) as nat))
    }
}

/// Where the walk of at most `n` blocks from `cur` on ends.
pub open spec fn walk_end(links: Map<u64, u64>, cur: u64, n: nat) -> u64
    decreases n,
{
    if n == 0 || cur == 0 || links[cur] == UNLINKED {
        cur
    } else {
        walk_end(links, links[cur], (n - 1) as nat)
    }
}

/// A walk along a chain takes the blocks before the first missing link.
pub proof fn lemma_walk(links: Map<u64, u64>, c: Seq<u64>, n: nat)
    requires
        blocks(links, c),
        half_linked(links, c),
        c.len() <= n,
    ensures
        walk(links, first(c), n) == c.take(stall(links, c) as int),
        walk_end(links, first(c), n) == first(c.skip(stall(links, c) as int)),
    decreases n,
{
    lemma_stall(links, c);
    if c.len() == 0 || links[c[0]] == UNLINKED {
        assert(c.take(0) =~= Seq::<u64>::empty());
        assert(c.skip(0) =~= c);
    } else {
        let rest = c.drop_first();
        lemma_drop_first(links, c);
        lemma_walk(links, rest, (n - 1) as nat);
        let k = stall(links, c) as int;
        assert(c.take(k) =~= cons(c[0], rest.take(k - 1)));
        assert(c.skip(k) =~= rest.skip(k - 1));
    }
}

/// `c` is a chain of remotely freed blocks of the span `span`, detached from
/// its remote list or stashed earlier: none of them is in the local list.
pub open spec fn remote_chain(mem: MemView, span: u64, head: u64, c: Seq<u64>) -> bool {
    let h = mem.headers[span];
    &&& head == first(c)
    &&& blocks(mem.links, c)
    &&& half_linked(mem.links, c)
    &&& forall|i: int| 0 <= i < c.len() ==> !h.local.free.seq().contains(#[trigger] c[i])
    &&& h.local.free.seq().len() + c.len() <= h.block_count
}

/// A header after `taken` moved to the front of its local list.
pub open spec fn absorbed(h: SpanHeader, taken: Seq<u64>) -> SpanHeader {
    SpanHeader {
        local: LocalMeta {
            free: LocalFreeList::of(rev(taken) + h.local.free.seq()),
            free_count: (h.local.free_count + taken.len()) as u64,
            ..h.local
        },
        ..h
    }
}

/// Move a reclaimed remote chain into the local free list of its span.
///
/// Returns the number of blocks moved, and the rest of the chain: it starts
/// at the first block whose link is still missing, and is to be stashed and
/// retried later. At most `block_count` blocks are scanned.
pub fn append_remote_to_local_bounded(
    mem: &mut SpanMemory,
    span: u64,
    head: u64,
    step: &mut StepCounter,
) -> (r: (u64, u64))
    requires
        old(mem).wf(),
        old(mem)@.headers.dom().contains(span),
        old(mem)@.headers[span].local.free.wf(old(mem)@.links),
        old(mem)@.headers[span].local.free_count
            == old(mem)@.headers[span].local.free.seq().len(),
        exists|c: Seq<u64>| remote_chain(old(mem)@, span, head, c),
        old(step).room(old(mem)@.headers[span].block_count as int),
    ensures
        final(mem).wf(),
        ({
            let n = old(mem)@.headers[span].block_count as nat;
            let taken = walk(old(mem)@.links, head, n);
            &&& r.0 == taken.len()
            &&& r.1 == walk_end(old(mem)@.links, head, n)
            &&& final(mem)@ == (MemView {
                headers: old(mem)@.headers.insert(
                    span,
                    absorbed(old(mem)@.headers[span], taken),
                ),
                links: final(mem)@.links,
                ..old(mem)@
            })
            &&& final(mem)@.links.dom() == old(mem)@.links.dom()
            &&& forall|a: u64|
                old(mem)@.links.dom().contains(a) && !taken.contains(a)
                    ==> #[trigger] final(mem)@.links[a] == old(mem)@.links[a]
            &&& final(mem)@.headers[span].local.free.wf(final(mem)@.links)
            &&& *final(step) == (StepCounter {
                blocks_scanned: (old(step).blocks_scanned + taken.len() + (if r.1 == 0 {
                    0int
                } else {
                    1int
                })) as u64,
                ..*old(step)
            })
        }),
{
    let ghost c = choose|c: Seq<u64>| remote_chain(old(mem)@, span, head, c);
    let ghost links0 = mem@.links;
    let ghost h0 = mem@.headers[span];
    let ghost local0 = h0.local.free.seq();
    let limit: u64 = mem.header(span).block_count;
    proof {
        broadcast use LocalFreeList::lemma_of;

        lemma_walk(links0, c, limit as nat);
        lemma_stall(links0, c);
        h0.local.free.lemma_ext();
        assert(rev(c.take(0)) + local0 =~= local0);
        assert(mem@.headers.insert(span, h0) =~= mem@.headers);
    }
    let ghost k = stall(links0, c) as int;
    let mut appended: u64 = 0;
    let mut cur: u64 = head;
    while appended < limit && cur != 0
        invariant
            mem.wf(),
            limit == h0.block_count,
            0 <= appended <= c.len(),
            appended <= k,
            k == stall(links0, c),
            blocks(links0, c),
            half_linked(links0, c),
            c.len() + local0.len() <= limit,
            local0 == h0.local.free.seq(),
            h0.local.free_count == local0.len(),
            forall|i: int| 0 <= i < c.len() ==> !local0.contains(#[trigger] c[i]),
            k <= c.len(),
            forall|i: int| 0 <= i < k ==> links0[#[trigger] c[i]] != UNLINKED,
            k < c.len() ==> links0[c[k]] == UNLINKED,
            cur == first(c.skip(appended as int)),
            links0 == old(mem)@.links,
            h0 == old(mem)@.headers[span],
            old(mem)@.headers.dom().contains(span),
            mem@ == (MemView {
                headers: old(mem)@.headers.insert(span, absorbed(h0, c.take(appended as int))),
                links: mem@.links,
                ..old(mem)@
            }),
            mem@.links.dom() == links0.dom(),
            forall|a: u64|
                links0.dom().contains(a) && !c.take(appended as int).contains(a)
                    ==> #[trigger] mem@.links[a] == links0[a],
            mem@.headers[span].local.free.wf(mem@.links),
            *step == (StepCounter {
                blocks_scanned: (old(step).blocks_scanned + appended) as u64,
                ..*old(step)
            }),
            old(step).room(limit as int),
            walk(links0, head, limit as nat) == c.take(k),
            walk_end(links0, head, limit as nat) == first(c.skip(k)),
        decreases limit - appended,
    {
        broadcast use LocalFreeList::lemma_of;

        let ghost a = appended as int;
        let ghost done = c.take(a);
        assert(cur == c[a]);
        assert(!done.contains(cur)) by {
            if done.contains(cur) {
                let i = choose|i: int| 0 <= i < done.len() && done[i] == cur;
                assert(c[i] == c[a]);
            }
        }
        step.blocks_scanned = step.blocks_scanned + 1;
        let next: u64 = mem.link(cur);
        if next == UNLINKED {
            assert(k == a);
            return (appended, cur);
        }
        let mut h = mem.header(span);
        let ghost before = h.local.free.seq();
        assert(before == rev(done) + local0);
        assert(!before.contains(cur)) by {
            if before.contains(cur) {
                let i = choose|i: int| 0 <= i < before.len() && before[i] == cur;
                if i < done.len() {
                    assert(before[i] == done[done.len() - 1 - i]);
                    assert(done.contains(done[done.len() - 1 - i]));
                } else {
                    assert(before[i] == local0[i - done.len()]);
                    assert(local0.contains(c[a]));
                }
            }
        }
        h.local.free.push(mem, cur);
        h.local.free_count = h.local.free_count + 1;
        mem.set_header(span, h);
        appended = appended + 1;
        cur = next;
        proof {
            let now = c.take(a + 1);
            assert(cons(c[a], rev(done) + local0) =~= rev(now) + local0);
            assert(h == absorbed(h0, now));
            assert(mem@.headers =~= old(mem)@.headers.insert(span, absorbed(h0, now)));
            assert forall|x: u64| links0.dom().contains(x) && !now.contains(
                x,
            ) implies #[trigger] mem@.links[x] == links0[x] by {
                assert(now[a] == c[a]);
                assert(now.contains(c[a]));
                if done.contains(x) {
                    let i = choose|i: int| 0 <= i < done.len() && done[i] == x;
                    assert(now[i] == x);
                }
            }
        }
    }
    proof {
        if appended < k {
            assert(cur == c[appended as int]);
        }
        assert(appended == k);
    }
    (appended, cur)
}

/// Nothing of a remote chain is lost when its consumption stops: the blocks
/// moved and the rest make up the chain, the rest starts with the first block
/// whose link is missing, and it is non-empty exactly when there is one.
pub proof fn law_stalled_suffix_is_kept(links: Map<u64, u64>, c: Seq<u64>, n: nat)
    requires
        blocks(links, c),
        half_linked(links, c),
        c.len() <= n,
    ensures
        walk(links, first(c), n) + c.skip(walk(links, first(c), n).len() as int) == c,
        walk_end(links, first(c), n) == first(c.skip(walk(links, first(c), n).len() as int)),
        walk_end(links, first(c), n) == 0 <==> (forall|i: int|
            0 <= i < c.len() ==> links[#[trigger] c[i]] != UNLINKED),
        forall|i: int|
            0 <= i < walk(links, first(c), n).len() ==> links[#[trigger] c[i]] != UNLINKED,
        walk(links, first(c), n).len() < c.len() ==> links[c[walk(
            links,
            first(c),
            n,
        ).len() as int]] == UNLINKED,
{
    lemma_walk(links, c, n);
    lemma_stall(links, c);
    let k = stall(links, c) as int;
    assert(c.take(k) + c.skip(k) =~= c);
    if k < c.len() {
        assert(c.skip(k)[0] == c[k]);
    }
}

} // verus!
