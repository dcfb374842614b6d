//! Small path: blocks of spans.

use crate::acquire::{loose, same_class};
use crate::atomic_backend::DefaultCas2Backend;
use crate::block::UNLINKED;
use crate::capacity::landed;
use crate::chain::{cons, first, lemma_frame, lemma_stall, rev, stall};
use crate::config::{LOCAL_SPAN_LIMIT_K, OWNER_NONE, SPAN_SIZE};
use crate::heap::LocalSpanList;
use crate::help_record::{completed, pending};
use crate::layout::Layout;
use crate::local_list::LocalFreeList;
use crate::pagemap::FixedSpanPool;
use crate::protocol::Acquisition;
use crate::refill::{refill_gain, refilled, serve_count};
use crate::remote_mpsc::RemoteMpscFreeList;
use crate::size_class::{class_size, first_offset, lemma_class_size, span_blocks};
use crate::span::{all_blocks, is_block, lemma_block, popped, small_span, SpanHeader, SpanState};
use crate::state::{same_core, Key, Kind, Lane, Path, Place, Unit, WfSpanAllocator};
use crate::stats::{bumped, bumped_by, AllocatorStats, StepCounter};
use crate::stepwise::{ask_next, AllocStage, PendingAlloc, ACTION_ROOM};
use vstd::prelude::*;

verus! {

/// Steps that every operation may take besides those that depend on the
/// number of threads.
pub const STEP_ROOM: u64 = 0x100_0000;

/// Room that an operation needs in every step counter.
pub open spec fn op_room(n: int) -> int {
    128 * n + STEP_ROOM
}

/// The outcome of turns of a private list: the list, the spans that left it,
/// and how often a span went to its end.
pub ghost struct Turn {
    pub list: Seq<u64>,
    pub out: Seq<u64>,
    pub kept: nat,
}

/// What became of the first span of a private list that was asked.
#[derive(Clone, Copy, Debug, PartialEq, Eq, Structural)]
pub enum TurnEnd {
    /// The list is empty.
    Empty,
    /// The span served this block.
    Served(u64),
    /// The span has no free block at all; the thread holds it.
    Dead(u64),
    /// The span waits for a link; it is at the end of the list.
    Kept,
}

impl<const C: u64, const HG: u64> WfSpanAllocator<C, HG> {
    /// The header of a span that is about to serve a block: as it is, or, if
    /// its local list is empty, after a refill.
    pub open spec fn absorbed(self, s: u64) -> SpanHeader {
        let h = self.header(s);
        if h.local.free.seq().len() > 0 {
            h
        } else {
            refilled(h, self.mem@.links)
        }
    }

    /// The blocks that a span can serve, in order: those of its local list,
    /// or, if that is empty, the remotely freed blocks that it absorbs.
    pub open spec fn served_list(self, s: u64) -> Seq<u64> {
        self.absorbed(s).local.free.seq()
    }

    /// The block that a span serves next; 0 if it has none to serve.
    pub open spec fn serve_block(self, s: u64) -> u64 {
        first(self.served_list(s))
    }

    /// The position of the first span that can serve a block, among those
    /// from position `i` on and before `limit`; `limit` if there is none.
    pub open spec fn scan(self, items: Seq<u64>, i: int, limit: int) -> int
        decreases limit - i,
    {
        if i >= limit || i >= items.len() {
            limit
        } else if self.serve_block(items[i]) != 0 {
            i
        } else {
            self.scan(items, i + 1, limit)
        }
    }

    /// Serving from a span meets remotely freed blocks that are not linked
    /// yet.
    pub open spec fn stalls(self, s: u64) -> bool {
        let h = self.header(s);
        h.local.free.seq().len() == 0 && refilled(h, self.mem@.links).local.pending@.len() > 0
    }

    /// What up to `n` turns make of a private list. A turn is over when the
    /// first span has a block to serve. A first span without one leaves the
    /// list if it has no free block at all, and goes to the end otherwise.
    pub open spec fn turn(self, list: Seq<u64>, n: int) -> Turn
        decreases n,
    {
        if n <= 0 || list.len() == 0 || self.serve_block(list[0]) != 0 {
            Turn { list, out: Seq::empty(), kept: 0 }
        } else if self.header(list[0]).free_blocks().len() == 0 {
            let t = self.turn(list.drop_first(), n - 1);
            Turn { out: cons(list[0], t.out), ..t }
        } else {
            let t = self.turn(list.drop_first().push(list[0]), n - 1);
            Turn { kept: t.kept + 1, ..t }
        }
    }

    /// The step counts after up to `n` turns of a private list whose first
    /// `unseen` spans had no turn yet.
    pub open spec fn turn_count(
        self,
        list: Seq<u64>,
        n: int,
        unseen: int,
        step: StepCounter,
    ) -> StepCounter
        decreases n,
    {
        let links = self.mem@.links;
        let s = list[0];
        let h = if unseen > 0 {
            self.header(s)
        } else {
            refilled(self.header(s), links)
        };
        let asked = serve_count(h, links, step);
        if n <= 0 || list.len() == 0 {
            step
        } else if self.serve_block(s) != 0 {
            asked
        } else if self.header(s).free_blocks().len() == 0 {
            self.turn_count(list.drop_first(), n - 1, unseen - 1, asked)
        } else {
            self.turn_count(list.drop_first().push(s), n - 1, unseen - 1, asked)
        }
    }

    /// The step counts after a small allocation.
    pub open spec fn small_count(self, k: Key, step: StepCounter) -> StepCounter {
        let items = self.local(k).seq();
        let i = self.scan(items, 0, LOCAL_SPAN_LIMIT_K + 1);
        let turned = self.turn_count(
            items,
            LOCAL_SPAN_LIMIT_K + 1,
            items.len() as int,
            step,
        );
        let got = self.acquisition(k).result;
        let asked = self.acquire_count(k, turned);
        let served = if got != 0 {
            serve_count(self.header(got), self.mem@.links, asked)
        } else {
            asked
        };
        if i <= LOCAL_SPAN_LIMIT_K {
            turned
        } else if got != 0 && self.serve_block(got) != 0 {
            served
        } else {
            self.carve_count(served)
        }
    }

    /// Spans that left a private list in turns are discarded; all others are
    /// where they were.
    pub open spec fn turned_out(self, post: Self, out: Seq<u64>) -> bool {
        forall|x: u64| #[trigger]
            self.place().dom().contains(x) ==> post.place()[x] == (if out.contains(x) {
                Place::Discarded
            } else {
                self.place()[x]
            })
    }

    /// Of the headers, those of spans that left a private list in turns say so;
    /// all others say what they did.
    pub open spec fn states_turned(self, post: Self, out: Seq<u64>) -> bool {
        forall|x: u64| #[trigger]
            self.mem@.headers.dom().contains(x) ==> post.header(x).state == (if out.contains(x) {
                SpanState::Discarded
            } else {
                self.header(x).state
            })
    }

    /// The statistics after turns of a private list.
    pub open spec fn turn_stats(self, t: Turn) -> AllocatorStats {
        AllocatorStats {
            remote_blocked_events: bumped_by(self.stats.remote_blocked_events, t.kept),
            discarded_spans: bumped_by(self.stats.discarded_spans, t.out.len()),
            ..self.stats
        }
    }

    /// Nothing of the blocks of `x` changed.
    pub open spec fn untouched(self, post: Self, x: u64) -> bool {
        &&& same_core(self.header(x), post.header(x))
        &&& forall|b: u64|
            is_block(x, self.header(x).block_size as int, b) ==> #[trigger] post.mem@.links[b]
                == self.mem@.links[b]
    }

    /// The span `x` was found to have nothing to serve: its remotely freed
    /// blocks may have been stashed, and no link changed.
    pub open spec fn passed(self, post: Self, x: u64) -> bool {
        &&& same_core(refilled(self.header(x), self.mem@.links), post.header(x))
        &&& forall|b: u64|
            is_block(x, self.header(x).block_size as int, b) ==> #[trigger] post.mem@.links[b]
                == self.mem@.links[b]
    }

    /// The span `x` served its next block. Only links of blocks that it
    /// absorbed changed.
    pub open spec fn served_from(self, post: Self, x: u64) -> bool {
        let h = self.header(x);
        &&& same_core(popped(self.absorbed(x)), post.header(x))
        &&& forall|b: u64|
            is_block(x, h.block_size as int, b) && (h.local.free.seq().len() > 0
                || !self.served_list(x).contains(b)) ==> #[trigger] post.mem@.links[b]
                == self.mem@.links[b]
    }

    /// What is kept forever: the region, the carved pieces, and the class
    /// and geometry of every span and run.
    pub open spec fn keeps(self, post: Self) -> bool {
        &&& self.keeps_pieces(post)
        &&& self.tidy() ==> post.tidy()
    }

    /// What is kept forever of the region and its pieces.
    pub open spec fn keeps_pieces(self, post: Self) -> bool {
        &&& post.n() == self.n()
        &&& post.registry == self.registry
        &&& post.pool.base == self.pool.base
        &&& post.pool.count == self.pool.count
        &&& post.pool.used() >= self.pool.used()
        &&& post.mem@.base == self.mem@.base
        &&& post.mem@.count == self.mem@.count
        &&& forall|u: u64| #[trigger]
            self.units().dom().contains(u) ==> post.units().dom().contains(u) && post.units()[u]
                == self.units()[u]
        &&& forall|s: u64| #[trigger]
            self.place().dom().contains(s) ==> {
                &&& post.place().dom().contains(s)
                &&& post.header(s).size_class == self.header(s).size_class
                &&& post.header(s).block_size == self.header(s).block_size
                &&& post.header(s).block_count == self.header(s).block_count
            }
        &&& forall|c: int, k: int|
            0 <= c < 3 && 0 <= k < 4 && (#[trigger] self.slot(c, k)).base != 0 ==> post.slot(
                c,
                k,
            ).base == self.slot(c, k).base
    }

    /// All blocks of a span are free.
    pub open spec fn full(self, s: u64) -> bool {
        self.header(s).free_blocks().len() == self.header(s).block_count
    }

    /// No free block is stranded, since a discarded span has none; and only
    /// full spans are public.
    pub open spec fn tidy(self) -> bool {
        forall|s: u64| #[trigger]
            self.place().dom().contains(s) ==> {
                &&& self.place()[s] is Discarded ==> self.header(s).free_blocks().len() == 0
                &&& loose(self.place()[s]) && self.units()[s].kind is Small ==> self.full(s)
            }
    }

    /// No remotely freed block waits for its link.
    pub open spec fn joined(self) -> bool {
        forall|s: u64| #[trigger]
            self.place().dom().contains(s) && self.units()[s].kind is Small ==> landed(
                self.header(s),
                self.mem@.links,
            )
    }

    /// What two operations behind one another keep.
    pub proof fn lemma_keeps_twice(self, mid: Self, post: Self)
        requires
            self.keeps(mid),
            mid.keeps(post),
        ensures
            self.keeps(post),
    {
        assert forall|u: u64| #[trigger] self.units().dom().contains(
            u,
        ) implies post.units().dom().contains(u) && post.units()[u] == self.units()[u] by {
            assert(mid.units().dom().contains(u));
        }
        assert forall|s: u64| #[trigger] self.place().dom().contains(s) implies {
            &&& post.place().dom().contains(s)
            &&& post.header(s).size_class == self.header(s).size_class
            &&& post.header(s).block_size == self.header(s).block_size
            &&& post.header(s).block_count == self.header(s).block_count
        } by {
            assert(mid.place().dom().contains(s));
        }
        assert forall|c: int, k: int|
            0 <= c < 3 && 0 <= k < 4 && (#[trigger] self.slot(c, k)).base != 0 implies post.slot(
            c,
            k,
        ).base == self.slot(c, k).base by {
            assert(mid.slot(c, k).base == self.slot(c, k).base);
        }
    }

    /// The next block of a span depends on nothing but its own blocks.
    pub proof fn lemma_serve_frame(self, post: Self, x: u64)
        requires
            self.untouched(post, x),
            small_span(self.mem@, x),
            post.mem@.links.dom() == self.mem@.links.dom(),
        ensures
            post.serve_block(x) == self.serve_block(x),
            post.stalls(x) == self.stalls(x),
            post.served_list(x) == self.served_list(x),
            same_core(
                refilled(self.header(x), self.mem@.links),
                refilled(post.header(x), post.mem@.links),
            ),
            same_core(popped(self.absorbed(x)), popped(post.absorbed(x))),
            forall|step: StepCounter| #[trigger]
                serve_count(post.header(x), post.mem@.links, step) == serve_count(
                    self.header(x),
                    self.mem@.links,
                    step,
                ),
            refilled(post.header(x), post.mem@.links).local.free == refilled(
                self.header(x),
                self.mem@.links,
            ).local.free,
    {
        let h = self.header(x);
        let all = h.free_blocks();
        let l = h.local.free.seq();
        let p = h.local.pending@;
        let r = h.remote.free.seq();
        assert forall|i: int| 0 <= i < p.len() implies post.mem@.links.dom().contains(
            #[trigger] p[i],
        ) && post.mem@.links[p[i]] == self.mem@.links[p[i]] by {
            assert(all[l.len() + i] == p[i]);
            assert(is_block(x, h.block_size as int, p[i]));
        }
        lemma_frame(self.mem@.links, post.mem@.links, p);
        assert forall|i: int| 0 <= i < r.len() implies post.mem@.links.dom().contains(
            #[trigger] r[i],
        ) && post.mem@.links[r[i]] == self.mem@.links[r[i]] by {
            assert(all[l.len() + p.len() + i] == r[i]);
            assert(is_block(x, h.block_size as int, r[i]));
        }
        lemma_frame(self.mem@.links, post.mem@.links, r);
    }

    /// A span that serves no block gains none from a refill; it keeps its
    /// lists of free blocks except that the remote ones are stashed, and its
    /// free count is zero exactly when it has no free block at all.
    pub proof fn lemma_unusable(self, s: u64)
        requires
            self.wf(),
            self.place().dom().contains(s),
            self.units()[s].kind is Small,
            self.serve_block(s) == 0,
        ensures
            self.header(s).local.free.seq().len() == 0,
            refill_gain(self.header(s), self.mem@.links) == 0,
            ({
                let h = refilled(self.header(s), self.mem@.links);
                &&& h.local.free.seq().len() == 0
                &&& h.local.pending@.len() == 0 && h.remote.free_count == 0 <==> self.header(
                    s,
                ).free_blocks().len() == 0
                &&& h.local.pending@.len() > 0 ==> self.mem@.links[h.local.pending@[0]] == UNLINKED
                &&& h.local.pending@.len() == 0 ==> h.remote.free.seq().len() == 0
            }),
    {
        broadcast use LocalFreeList::lemma_of, RemoteMpscFreeList::lemma_of;

        self.lemma_free_room(s);
        let h = self.header(s);
        let l = h.local.free.seq();
        let p = h.local.pending@;
        let r = h.remote.free.seq();
        let links = self.mem@.links;
        let a = stall(links, p) as int;
        let b = stall(links, r) as int;
        lemma_stall(links, p);
        lemma_stall(links, r);
        let h2 = refilled(h, links);
        let l2 = h2.local.free.seq();
        if l.len() > 0 {
            assert(l[0] != 0);
        }
        if l2.len() > 0 {
            crate::refill::lemma_refilled(&self.mem, s, links);
            assert(h2.free_blocks()[0] == l2[0]);
            assert(h2.free_blocks().contains(l2[0]));
            let all = h.free_blocks();
            assert(all.contains(l2[0]));
            let i = choose|i: int| 0 <= i < all.len() && all[i] == l2[0];
            assert(is_block(s, h.block_size as int, all[i]));
            lemma_block(&self.mem, s, h.block_size, all[i]);
        }
        assert(rev(p.take(a)).len() == a);
        assert(rev(r.take(b)).len() == b);
        assert(rev(p).len() == p.len());
        if a < p.len() {
            assert(p.skip(a)[0] == p[a]);
        } else if b < r.len() {
            assert(r.skip(b)[0] == r[b]);
        }
    }

    /// Serve a request from a span: from its local list, or after absorbing
    /// remotely freed blocks. Returns 0 if the span has nothing to serve.
    pub(crate) fn try_serve(&mut self, s: u64, layout: Layout, step: &mut StepCounter) -> (r: u64)
        requires
            old(self).wf(),
            old(self).place().dom().contains(s),
            old(self).units()[s].kind is Small,
            layout.valid(),
            Self::dispatch(layout) == Path::Small(old(self).header(s).size_class),
            old(step).room(2 * SPAN_SIZE + 2),
        ensures
            final(self).wf(),
            r == old(self).serve_block(s),
            old(self).only_blocks(*final(self), s),
            r == 0 ==> {
                &&& final(self).live() == old(self).live()
                &&& final(self).header(s) == refilled(old(self).header(s), old(self).mem@.links)
                &&& final(self).mem@.links == old(self).mem@.links
                &&& final(self).serve_block(s) == 0
            },
            r != 0 ==> {
                &&& !old(self).live().dom().contains(r)
                &&& final(self).live() == old(self).live().insert(r, layout)
                &&& is_block(s, old(self).header(s).block_size as int, r)
                &&& old(self).served_from(*final(self), s)
                &&& final(self).header(s).state == SpanState::NonEmptyLocal
            },
            final(self).stats == (if old(self).stalls(s) {
                old(self).stats.blocked()
            } else {
                old(self).stats
            }),
            serve_cost(*old(step), *final(step), old(self).header(s).block_count as int),
            *final(step) == serve_count(old(self).header(s), old(self).mem@.links, *old(step)),
    {
        let ghost pre = *self;
        proof {
            pre.lemma_free_room(s);
        }
        let p: u64 = self.take_block(s, layout, step);
        if p != 0 {
            return p;
        }
        assert(*self == pre);
        if self.refill_from_remote(s, step) {
            let ghost mid = *self;
            proof {
                mid.lemma_free_room(s);
                let l = mid.header(s).local.free.seq();
                if l.len() > 0 {
                    assert(l[0] != 0);
                }
                lemma_gain(pre.header(s), pre.mem@.links);
            }
            let p: u64 = self.take_block(s, layout, step);
            proof {
                broadcast use LocalFreeList::lemma_of, RemoteMpscFreeList::lemma_of;

                assert(p != 0);
                assert forall|b: u64|
                    is_block(s, pre.header(s).block_size as int, b) && !pre.served_list(
                        s,
                    ).contains(b) implies #[trigger] self.mem@.links[b] == pre.mem@.links[b] by {
                    pre.lemma_block_home(s, b);
                }
                assert(self.mem@.headers =~= pre.mem@.headers.insert(s, self.header(s)));
                assert(pre.only_blocks(*self, s));
            }
            return p;
        }
        proof {
            pre.lemma_no_gain(*self, s);
        }
        0
    }

    /// What a rotation of the private list of `k` leaves alone: everything but
    /// the spans of that list, which stay in it, are held or are discarded.
    pub open spec fn rotated(self, post: Self, k: Key) -> bool {
        &&& post.n() == self.n()
        &&& post.shape() == self.shape()
        &&& post.pool == self.pool
        &&& post.registry == self.registry
        &&& post.huge == self.huge
        &&& post.units() == self.units()
        &&& post.mem@.base == self.mem@.base
        &&& post.mem@.count == self.mem@.count
        &&& post.mem@.larges == self.mem@.larges
        &&& post.mem@.headers.dom() == self.mem@.headers.dom()
        &&& post.mem@.links.dom() == self.mem@.links.dom()
        &&& self.same_publics(post)
        &&& self.same_records(post)
        &&& self.same_cursors(post)
        &&& self.locals_but(post, k)
        &&& post.place().dom() == self.place().dom()
        &&& forall|x: u64| #[trigger]
            self.place().dom().contains(x) ==> {
                &&& post.header(x).size_class == self.header(x).size_class
                &&& post.header(x).block_size == self.header(x).block_size
                &&& post.header(x).block_count == self.header(x).block_count
                &&& self.place()[x] != Place::Local(k) ==> post.place()[x] == self.place()[x]
                    && self.untouched(post, x)
                &&& self.place()[x] == Place::Local(k) ==> post.place()[x] == Place::Local(k)
                    || post.place()[x] == Place::Held(k.tid) || (post.place()[x] is Discarded
                    && post.header(x).free_blocks().len() == 0)
            }
    }

    /// A rotation goes on with an action on the blocks of a listed span.
    proof fn lemma_rotated_blocks(self, mid: Self, post: Self, k: Key, s: u64)
        requires
            self.wf(),
            mid.wf(),
            self.rotated(mid, k),
            mid.at(s, Place::Local(k)),
            mid.units()[s].kind is Small,
            mid.only_blocks(post, s),
            post.header(s).block_count == mid.header(s).block_count,
        ensures
            self.rotated(post, k),
            forall|x: u64| #[trigger]
                self.place().dom().contains(x) && x != s && self.untouched(mid, x)
                    && self.units()[x].kind is Small ==> self.untouched(post, x),
    {
        reveal(WfSpanAllocator::order_ok);
        assert(mid.place_ok(s));
        assert(post.mem@.headers.dom() =~= mid.mem@.headers.dom());
        assert forall|x: u64| #[trigger]
            self.place().dom().contains(x) && x != s && self.untouched(
                mid,
                x,
            ) implies self.untouched(post, x) by {
            assert(mid.place().dom().contains(x));
            assert(self.place_ok(x));
            assert(mid.place_ok(x));
            let bs = self.header(x).block_size as int;
            assert forall|b: u64| is_block(x, bs, b) implies #[trigger] post.mem@.links[b]
                == self.mem@.links[b] by {
                assert(mid.mem@.links[b] == self.mem@.links[b]);
                self.lemma_other_block(mid, s, x, b);
            }
        }
        assert forall|x: u64| #[trigger] self.place().dom().contains(x) implies {
            &&& post.header(x).size_class == self.header(x).size_class
            &&& post.header(x).block_size == self.header(x).block_size
            &&& post.header(x).block_count == self.header(x).block_count
            &&& self.place()[x] != Place::Local(k) ==> post.place()[x] == self.place()[x]
                && self.untouched(post, x)
            &&& self.place()[x] == Place::Local(k) ==> post.place()[x] == Place::Local(k)
                || post.place()[x] == Place::Held(k.tid) || (post.place()[x] is Discarded
                && post.header(x).free_blocks().len() == 0)
        } by {
            assert(mid.place().dom().contains(x));
        }
        assert(forall|j: Key| #[trigger] self.valid(j) ==> mid.valid(j));
    }

    /// A link word inside the block area of `x` is no link of a block of `s`.
    proof fn lemma_other_block(self, mid: Self, s: u64, x: u64, b: u64)
        requires
            self.wf(),
            mid.wf(),
            x != s,
            self.place().dom().contains(x),
            mid.place().dom().contains(s),
            mid.units()[s].kind is Small,
            mid.mem@.base == self.mem@.base,
            mid.mem@.count == self.mem@.count,
            mid.mem@.links.dom() == self.mem@.links.dom(),
            is_block(x, self.header(x).block_size as int, b),
        ensures
            mid.mem@.links.dom().contains(b),
            !is_block(s, mid.header(s).block_size as int, b),
    {
        self.lemma_block_home(x, b);
        if is_block(s, mid.header(s).block_size as int, b) {
            mid.lemma_block_home(s, b);
        }
    }

    /// What was untouched stays so when only blocks of `s` change.
    pub(crate) proof fn lemma_untouched_blocks(self, mid: Self, post: Self, s: u64)
        requires
            self.wf(),
            mid.wf(),
            mid.place().dom().contains(s),
            mid.units()[s].kind is Small,
            mid.only_blocks(post, s),
            mid.mem@.base == self.mem@.base,
            mid.mem@.count == self.mem@.count,
            mid.mem@.links.dom() == self.mem@.links.dom(),
        ensures
            forall|x: u64| #[trigger]
                self.place().dom().contains(x) && x != s && self.untouched(mid, x)
                    ==> self.untouched(post, x),
    {
        assert forall|x: u64| #[trigger]
            self.place().dom().contains(x) && x != s && self.untouched(
                mid,
                x,
            ) implies self.untouched(post, x) by {
            assert forall|b: u64| is_block(
                x,
                self.header(x).block_size as int,
                b,
            ) implies #[trigger] post.mem@.links[b] == self.mem@.links[b] by {
                assert(mid.mem@.links[b] == self.mem@.links[b]);
                self.lemma_other_block(mid, s, x, b);
            }
        }
    }

    /// What was untouched stays so when the span at the frontier is carved.
    proof fn lemma_untouched_carve(self, mid: Self, post: Self, s: u64)
        requires
            self.wf(),
            mid.mem@.base == self.mem@.base,
            mid.mem@.links.dom() == self.mem@.links.dom(),
            s % SPAN_SIZE == 0,
            forall|x: u64| #[trigger]
                self.place().dom().contains(x) ==> x != s && post.header(x) == mid.header(x),
            forall|a: u64|
                mid.mem@.links.dom().contains(a) && !(s <= a < s + SPAN_SIZE)
                    ==> #[trigger] post.mem@.links[a] == mid.mem@.links[a],
        ensures
            forall|x: u64| #[trigger]
                self.place().dom().contains(x) && self.untouched(mid, x) ==> self.untouched(
                    post,
                    x,
                ),
    {
        assert forall|x: u64| #[trigger]
            self.place().dom().contains(x) && self.untouched(mid, x) implies self.untouched(
            post,
            x,
        ) by {
            assert forall|b: u64| is_block(
                x,
                self.header(x).block_size as int,
                b,
            ) implies #[trigger] post.mem@.links[b] == self.mem@.links[b] by {
                assert(mid.mem@.links[b] == self.mem@.links[b]);
                self.lemma_block_home(x, b);
            }
        }
    }

    /// A block has a link word, and lies in the span that it is a block of.
    proof fn lemma_block_home(self, x: u64, b: u64)
        requires
            self.wf(),
            self.place().dom().contains(x),
            is_block(x, self.header(x).block_size as int, b),
        ensures
            self.mem@.links.dom().contains(b),
            x <= b < x + SPAN_SIZE,
            x % SPAN_SIZE == 0,
    {
        reveal(WfSpanAllocator::assets_ok);
        reveal(WfSpanAllocator::order_ok);
        assert(self.place_ok(x));
        assert(self.unit_sound(x));
        self.mem.lemma_view();
        let bs = self.header(x).block_size;
        if self.units()[x].kind is Run {
            let m = self.header(x).block_count as int;
            vstd::arithmetic::power2::lemma_pow2_pos(self.header(x).size_class as nat);
            assert(m * SPAN_SIZE >= SPAN_SIZE) by (nonlinear_arith)
                requires
                    m >= 1,
            ;
            crate::align::lemma_up(crate::config::SPAN_HEADER_RESERVE as int, bs as int);
            assert(false);
        }
        lemma_block(&self.mem, x, bs, b);
    }

    /// The first span of a private list, or 0.
    pub(crate) fn front(&self, k: Key) -> (r: u64)
        requires
            self.wf(),
            self.valid(k),
        ensures
            r == first(self.local(k).seq()),
            r == 0 <==> self.local(k).seq().len() == 0,
            r != 0 ==> self.at(r, Place::Local(k)) && self.fits(r, k),
    {
        proof {
            reveal(WfSpanAllocator::order_ok);
            assert(self.local_ok(k));
            if self.local(k).seq().len() > 0 {
                let s = self.local(k).seq()[0];
                assert(self.at(s, Place::Local(k)));
                assert(self.place_ok(s));
            }
        }
        let n: usize = self.heaps.rows.len();
        let t: usize = k.tid as usize;
        let c: usize = k.class as usize;
        match k.lane {
            Lane::Span => self.heaps.rows[t].local_spans[c].front(),
            Lane::Run => self.heaps.rows[t].local_runs[c].front(),
        }
    }

    /// Number of spans in a private list.
    pub(crate) fn local_len(&self, k: Key) -> (r: u64)
        requires
            self.wf(),
            self.valid(k),
        ensures
            r == self.local(k).seq().len(),
    {
        proof {
            reveal(WfSpanAllocator::order_ok);
            assert(self.local_ok(k));
        }
        let n: usize = self.heaps.rows.len();
        let t: usize = k.tid as usize;
        let c: usize = k.class as usize;
        match k.lane {
            Lane::Span => self.heaps.rows[t].local_spans[c].len(),
            Lane::Run => self.heaps.rows[t].local_runs[c].len(),
        }
    }

    /// A span was made ownerless.
    pub open spec fn discard_marked(self, post: Self, s: u64) -> bool {
        &&& self.moved(post, s, Place::Discarded)
        &&& post.heaps == self.heaps
        &&& post.help == self.help
        &&& post.header(s) == (SpanHeader {
            owner: OWNER_NONE,
            state: SpanState::Discarded,
            ..self.header(s)
        })
    }

    /// First action of a discard: make the span ownerless.
    pub(crate) fn mark_discarded(&mut self, s: u64, tid: u64)
        requires
            old(self).wf(),
            old(self).at(s, Place::Held(tid)),
            old(self).units()[s].kind is Small,
        ensures
            final(self).wf(),
            old(self).discard_marked(*final(self), s),
    {
        self.stamp(s, OWNER_NONE, SpanState::Discarded, Ghost(Place::Discarded));
    }

    /// The thread `tid`, which made the span ownerless, looked at its count
    /// of visible blocks again: where that is not 0 and nobody has claimed
    /// the span, the thread has it back.
    pub open spec fn discard_settled(self, post: Self, s: u64, tid: u64, r: bool) -> bool {
        if self.header(s).remote.free_count != 0 && self.at(s, Place::Discarded) {
            &&& !r
            &&& self.moved(post, s, Place::Held(tid))
            &&& post.header(s).state == SpanState::NonEmptyLocal
            &&& post.heaps == self.heaps
            &&& post.help == self.help
        } else {
            r && post == self
        }
    }

    /// Second action of a discard: take the span back where a remote free
    /// landed in between and may have failed to claim it. One attempt.
    /// Returns whether the span left the thread's ownership.
    pub(crate) fn settle_discard(&mut self, s: u64, tid: u64, step: &mut StepCounter) -> (r: bool)
        requires
            old(self).wf(),
            old(self).place().dom().contains(s),
            old(self).units()[s].kind is Small,
            tid < old(self).n(),
            old(step).room(1),
        ensures
            final(self).wf(),
            old(self).discard_settled(*final(self), s, tid, r),
            *final(step) == (StepCounter {
                cas_attempts: (old(step).cas_attempts + (if old(self).header(s).remote.free_count
                    != 0 {
                    1int
                } else {
                    0
                })) as u64,
                ..*old(step)
            }),
    {
        proof {
            self.lemma_owned(s, tid);
        }
        if self.header_of(s).remote.free_count == 0 {
            return true;
        }
        step.cas_attempts = step.cas_attempts + 1;
        if self.header_of(s).owner == OWNER_NONE {
            self.stamp(s, tid, SpanState::NonEmptyLocal, Ghost(Place::Held(tid)));
            return false;
        }
        true
    }

    /// What becomes of the first span of the private list of `k` when it is
    /// asked.
    pub open spec fn turn_end(self, k: Key) -> TurnEnd {
        let items = self.local(k).seq();
        if items.len() == 0 {
            TurnEnd::Empty
        } else if self.serve_block(items[0]) != 0 {
            TurnEnd::Served(self.serve_block(items[0]))
        } else if self.header(items[0]).free_blocks().len() == 0 {
            TurnEnd::Dead(items[0])
        } else {
            TurnEnd::Kept
        }
    }

    /// The step counts after the first span of the private list was asked.
    pub open spec fn ask_count(self, k: Key, step: StepCounter) -> StepCounter {
        let items = self.local(k).seq();
        if items.len() == 0 {
            step
        } else {
            serve_count(self.header(items[0]), self.mem@.links, step)
        }
    }

    /// What asking the first span of the private list of `k` did.
    pub open spec fn turn_ended(self, post: Self, k: Key, layout: Layout, r: TurnEnd) -> bool {
        let items = self.local(k).seq();
        let s = items[0];
        if items.len() == 0 {
            r is Empty && post == self
        } else {
            &&& self.at(s, Place::Local(k))
            &&& self.units()[s].kind is Small
            &&& self.rotated(post, k)
            &&& self.states_but(post, s)
            &&& post.header(s).state == (if self.serve_block(s) != 0 {
                SpanState::NonEmptyLocal
            } else {
                self.header(s).state
            })
            &&& forall|x: u64| #[trigger]
                self.place().dom().contains(x) && x != s ==> self.untouched(post, x)
                    && post.place()[x] == self.place()[x]
            &&& post.stats == (if self.stalls(s) {
                self.stats.blocked()
            } else {
                self.stats
            })
            &&& if self.serve_block(s) != 0 {
                &&& r == TurnEnd::Served(self.serve_block(s))
                &&& !self.live().dom().contains(self.serve_block(s))
                &&& post.live() == self.live().insert(self.serve_block(s), layout)
                &&& post.local(k) == self.local(k)
                &&& post.place() == self.place()
                &&& is_block(s, self.header(s).block_size as int, self.serve_block(s))
                &&& self.served_from(post, s)
            } else {
                &&& post.live() == self.live()
                &&& self.passed(post, s)
                &&& post.serve_block(s) == 0
                &&& post.header(s).free_blocks().len() == self.header(s).free_blocks().len()
                &&& if self.header(s).free_blocks().len() == 0 {
                    &&& r == TurnEnd::Dead(s)
                    &&& !self.stalls(s)
                    &&& post.local(k).seq() == items.drop_first()
                    &&& post.place() == self.place().insert(s, Place::Held(k.tid))
                    &&& post.header(s).remote.free_count == 0
                } else {
                    &&& r is Kept
                    &&& self.stalls(s)
                    &&& post.local(k).seq() == items.drop_first().push(s)
                    &&& post.place() == self.place()
                }
            }
        }
    }

    /// Ask the first span of the private list. One that has nothing to serve
    /// leaves the list, into the thread's hands if it has no free block at
    /// all, and else to the end.
    pub(crate) fn act_turn(&mut self, k: Key, layout: Layout, step: &mut StepCounter) -> (r: TurnEnd)
        requires
            old(self).wf(),
            old(self).valid(k),
            k.lane == Lane::Span,
            layout.valid(),
            Self::dispatch(layout) == Path::Small(k.class),
            old(step).room(2 * SPAN_SIZE + 2),
        ensures
            final(self).wf(),
            old(self).turn_ended(*final(self), k, layout, r),
            old(self).local(k).seq().len() == 0 ==> *final(step) == *old(step),
            old(self).local(k).seq().len() > 0 ==> {
                let s = old(self).local(k).seq()[0];
                &&& serve_cost(*old(step), *final(step), old(self).header(s).block_count as int)
                &&& *final(step) == serve_count(
                    old(self).header(s),
                    old(self).mem@.links,
                    *old(step),
                )
            },
            old(self).keeps(*final(self)),
            old(self).undisturbed(*final(self), k.tid),
    {
        let ghost pre = *self;
        let s: u64 = self.front(k);
        if s == 0 {
            proof {
                pre.lemma_same_effects(pre, k.tid);
            }
            return TurnEnd::Empty;
        }
        proof {
            pre.lemma_rotated_same(k);
            assert(pre.at(s, Place::Local(k)));
        }
        let p: u64 = self.try_serve(s, layout, step);
        let ghost mid = *self;
        proof {
            pre.lemma_only_blocks_count(mid, s);
            pre.lemma_rotated_blocks(pre, mid, k, s);
            pre.lemma_untouched_blocks(pre, mid, s);
            pre.lemma_rotated_effects(mid, k);
        }
        if p != 0 {
            return TurnEnd::Served(p);
        }
        proof {
            pre.lemma_unusable(s);
            pre.lemma_free_room(s);
            crate::refill::lemma_refilled(&pre.mem, s, pre.mem@.links);
            assert(pre.only_blocks(mid, s));
            assert(mid.local(k) == pre.local(k));
        }
        self.take_front(k);
        let ghost held = *self;
        let h = self.header_of(s);
        let ghost dead = pre.header(s).free_blocks().len() == 0;
        proof {
            mid.lemma_free_room(s);
            assert(held.header(s) == mid.header(s));
            let q = mid.header(s).local.pending@;
            if q.len() > 0 {
                assert(q[0] != 0);
            }
            assert(h.local.pending_remote == 0 && h.remote.free_count == 0 <==> dead);
        }
        if h.local.pending_remote == 0 && h.remote.free_count == 0 {
            proof {
                broadcast use LocalSpanList::lemma_of;

                assert(self.place() =~= pre.place().insert(s, Place::Held(k.tid)));
                pre.lemma_rotated_moves(mid, *self, k, s);
                pre.lemma_rotated_effects(*self, k);
                assert(mid.untouched(*self, s));
                mid.lemma_serve_frame(*self, s);
            }
            return TurnEnd::Dead(s);
        }
        self.put_back(k, s);
        proof {
            broadcast use LocalSpanList::lemma_of;

            assert(forall|j: Key| #[trigger] mid.valid(j) ==> held.valid(j));
            assert(mid.inert(*self));
            assert(self.place() =~= pre.place());
            assert(self.place() =~= mid.place().insert(s, self.place()[s]));
            pre.lemma_rotated_moves(mid, *self, k, s);
            pre.lemma_rotated_effects(*self, k);
            assert(self.header(s).free_blocks() == mid.header(s).free_blocks());
            assert(mid.untouched(*self, s));
            mid.lemma_serve_frame(*self, s);
        }
        TurnEnd::Kept
    }

    /// A span that was made ownerless was looked at again: where a block
    /// became visible and nobody claimed the span, it is the last of the
    /// private list of `k`; else the discard is counted.
    pub open spec fn settle_ended(self, post: Self, k: Key, s: u64) -> bool {
        if self.header(s).remote.free_count != 0 && self.at(s, Place::Discarded) {
            &&& self.moved(post, s, Place::Local(k))
            &&& post.header(s).state == SpanState::NonEmptyLocal
            &&& post.local(k).seq() == self.local(k).seq().push(s)
            &&& self.locals_but(post, k)
            &&& self.same_publics(post)
            &&& self.same_records(post)
        } else {
            post == (WfSpanAllocator {
                stats: AllocatorStats {
                    discarded_spans: bumped(self.stats.discarded_spans),
                    ..self.stats
                },
                ..self
            })
        }
    }

    /// Settle the discard of a span.
    pub(crate) fn act_settle(&mut self, k: Key, s: u64, step: &mut StepCounter)
        requires
            old(self).wf(),
            old(self).fits(s, k),
            old(self).place().dom().contains(s),
            k.lane == Lane::Span,
            old(step).room(1),
        ensures
            final(self).wf(),
            old(self).settle_ended(*final(self), k, s),
            *final(step) == (StepCounter {
                cas_attempts: (old(step).cas_attempts + (if old(self).header(s).remote.free_count
                    != 0 {
                    1int
                } else {
                    0
                })) as u64,
                ..*old(step)
            }),
            old(self).keeps(*final(self)),
            old(self).undisturbed(*final(self), k.tid),
    {
        let ghost pre = *self;
        let tid: u64 = k.tid;
        if self.settle_discard(s, tid, step) {
            assert(*self == pre);
            let mut stats = self.stats;
            AllocatorStats::bump(&mut stats.discarded_spans);
            self.set_stats(stats);
            proof {
                pre.lemma_stats_effects(*self, tid);
            }
        } else {
            let ghost held = *self;
            proof {
                pre.lemma_moved_effects(held, s, Place::Held(tid), tid);
            }
            self.put_back(k, s);
            proof {
                broadcast use LocalSpanList::lemma_of;

                held.lemma_moved_effects(*self, s, Place::Local(k), tid);
                pre.lemma_undisturbed_twice(held, *self, tid);
                pre.lemma_keeps_twice(held, *self);
                assert(forall|j: Key| #[trigger] pre.valid(j) ==> held.valid(j));
                assert(self.place() =~= pre.place().insert(s, Place::Local(k)));
                assert forall|a: u64| #[trigger]
                    pre.mem@.headers.dom().contains(a) implies same_core(
                    pre.header(a),
                    self.header(a),
                ) by {
                    assert(held.mem@.headers.dom().contains(a));
                }
            }
        }
    }

    /// An acquired span was put in front of the private list of `k` and asked.
    pub open spec fn serve_ended(
        self,
        post: Self,
        k: Key,
        s: u64,
        layout: Layout,
        r: u64,
    ) -> bool {
        &&& self.same_publics(post)
        &&& self.same_records(post)
        &&& self.same_cursors(post)
        &&& self.locals_but(post, k)
        &&& post.local(k).seq() == cons(s, self.local(k).seq())
        &&& post.pool == self.pool
        &&& post.registry == self.registry
        &&& post.huge == self.huge
        &&& post.units() == self.units()
        &&& post.mem@.base == self.mem@.base
        &&& post.mem@.count == self.mem@.count
        &&& post.mem@.links.dom() == self.mem@.links.dom()
        &&& post.place() == self.place().insert(s, Place::Local(k))
        &&& self.untouched_but(post, s)
        &&& self.states_but(post, s)
        &&& post.header(s).state == SpanState::NonEmptyLocal
        &&& post.stats == (if self.stalls(s) {
            self.stats.blocked()
        } else {
            self.stats
        })
        &&& r == self.serve_block(s)
        &&& if r != 0 {
            &&& !self.live().dom().contains(r)
            &&& post.live() == self.live().insert(r, layout)
            &&& self.served_from(post, s)
        } else {
            &&& post.live() == self.live()
            &&& self.passed(post, s)
        }
    }

    /// Own an acquired span, put it in front of the private list, and ask it.
    pub(crate) fn act_serve(
        &mut self,
        k: Key,
        s: u64,
        layout: Layout,
        step: &mut StepCounter,
    ) -> (r: u64)
        requires
            old(self).wf(),
            old(self).in_hand(s, k),
            k.lane == Lane::Span,
            layout.valid(),
            Self::dispatch(layout) == Path::Small(k.class),
            old(step).room(2 * SPAN_SIZE + 2),
        ensures
            final(self).wf(),
            old(self).serve_ended(*final(self), k, s, layout, r),
            serve_cost(*old(step), *final(step), old(self).header(s).block_count as int),
            *final(step) == serve_count(old(self).header(s), old(self).mem@.links, *old(step)),
            old(self).keeps(*final(self)),
            old(self).undisturbed(*final(self), k.tid),
    {
        let ghost pre = *self;
        proof {
            pre.lemma_free_room(s);
        }
        self.stamp(s, k.tid, SpanState::NonEmptyLocal, Ghost(Place::Held(k.tid)));
        let ghost c1 = *self;
        proof {
            pre.lemma_moved_effects(c1, s, Place::Held(k.tid), k.tid);
        }
        self.put_front(k, s);
        let ghost c2 = *self;
        proof {
            c1.lemma_moved_effects(c2, s, Place::Local(k), k.tid);
            pre.lemma_undisturbed_twice(c1, c2, k.tid);
            pre.lemma_keeps_twice(c1, c2);
            c1.lemma_free_room(s);
            pre.lemma_serve_frame(c1, s);
            c1.lemma_serve_frame(c2, s);
            c2.lemma_free_room(s);
            pre.lemma_untouched_twice(c1, c2, s);
        }
        let p: u64 = self.try_serve(s, layout, step);
        proof {
            broadcast use LocalSpanList::lemma_of;

            c2.lemma_blocks_effects(*self, s, k.tid);
            pre.lemma_undisturbed_twice(c2, *self, k.tid);
            pre.lemma_keeps_twice(c2, *self);
            assert(forall|j: Key| #[trigger] pre.valid(j) ==> c1.valid(j) && c2.valid(j));
            assert(self.place() =~= pre.place().insert(s, Place::Local(k)));
            pre.lemma_untouched_all(c1, c2);
            pre.lemma_untouched_blocks(c2, *self, s);
            if p != 0 {
                pre.lemma_untouched_served(c2, *self, s);
            } else {
                assert(c2.passed(*self, s));
                pre.lemma_untouched_passed(c2, *self, s);
            }
        }
        p
    }

    /// A span was carved for the class of `k`, put in front of its private
    /// list and asked for its first block; or the pool is exhausted.
    pub open spec fn carve_ended(self, post: Self, k: Key, layout: Layout, r: u64) -> bool {
        let s = self.frontier() as u64;
        let bs = class_size(k.class as int);
        &&& post.pool == (FixedSpanPool {
            next: if self.pool.next < u64::MAX {
                (self.pool.next + 1) as u64
            } else {
                u64::MAX
            },
            ..self.pool
        })
        &&& if self.pool.next < self.pool.count {
            &&& r == self.frontier() + first_offset(bs)
            &&& r != 0
            &&& !self.place().dom().contains(s)
            &&& !self.live().dom().contains(r)
            &&& post.live() == self.live().insert(r, layout)
            &&& self.same_publics(post)
            &&& self.same_records(post)
            &&& self.same_cursors(post)
            &&& self.locals_but(post, k)
            &&& post.local(k).seq() == cons(s, self.local(k).seq())
            &&& post.huge == self.huge
            &&& post.units() == self.units().insert(s, Unit { kind: Kind::Small, spans: 1 })
            &&& post.place() == self.place().insert(s, Place::Local(k))
            &&& forall|x: u64| #[trigger]
                self.place().dom().contains(x) ==> self.untouched(post, x)
            &&& self.other_states_stay(post, s)
            &&& post.header(s).owner == k.tid
            &&& post.header(s).state == SpanState::NonEmptyLocal
            &&& post.header(s).size_class == k.class
            &&& post.header(s).local.free.seq() == all_blocks(s, bs).drop_first()
            &&& post.header(s).local.pending@.len() == 0
            &&& post.header(s).remote.free.seq().len() == 0
            &&& post.stats == self.stats.spans_carved()
        } else {
            &&& r == 0
            &&& post == (WfSpanAllocator { pool: post.pool, ..self })
        }
    }

    /// Carve a span and take its first block.
    pub(crate) fn act_carve(&mut self, k: Key, layout: Layout, step: &mut StepCounter) -> (r: u64)
        requires
            old(self).wf(),
            old(self).valid(k),
            k.lane == Lane::Span,
            layout.valid(),
            Self::dispatch(layout) == Path::Small(k.class),
            old(step).room(2),
        ensures
            final(self).wf(),
            old(self).carve_ended(*final(self), k, layout, r),
            *final(step) == old(self).carve_count(*old(step)),
            old(self).keeps(*final(self)),
            old(self).undisturbed(*final(self), k.tid),
    {
        let ghost d = *self;
        let s: u64 = self.carve_span(k.class, k.tid, step);
        let ghost e = *self;
        if s == 0 {
            proof {
                d.lemma_order_same_effects(e, k.tid);
            }
            return 0;
        }
        proof {
            d.lemma_frontier(1);
            d.lemma_carved_effects(e, s, Unit { kind: Kind::Small, spans: 1 }, k.tid);
        }
        self.put_front(k, s);
        let ghost f = *self;
        proof {
            e.lemma_moved_effects(f, s, Place::Local(k), k.tid);
            d.lemma_undisturbed_twice(e, f, k.tid);
            d.lemma_keeps_twice(e, f);
        }
        let p: u64 = self.take_block(s, layout, step);
        proof {
            broadcast use LocalFreeList::lemma_of, RemoteMpscFreeList::lemma_of, LocalSpanList::lemma_of;

            lemma_class_size(k.class as int);
            d.mem.lemma_view();
            lemma_fresh_first(s, k.class);
            assert(e.place().dom().contains(s));
            assert(same_core(e.header(s), f.header(s)));
            assert(e.header(s).remote.free.seq() == Seq::<u64>::empty());
            assert(self.header(s).remote == e.header(s).remote);
            assert(f.header(s).local.free.seq() == all_blocks(s, class_size(k.class as int)));
            assert(p == s + first_offset(class_size(k.class as int)));
            f.lemma_blocks_effects(*self, s, k.tid);
            d.lemma_undisturbed_twice(f, *self, k.tid);
            d.lemma_keeps_twice(f, *self);
            assert(forall|j: Key| #[trigger] d.valid(j) ==> e.valid(j));
            assert(forall|x: u64| #[trigger]
                d.place().dom().contains(x) ==> e.place().dom().contains(x) && x != s);
            d.lemma_untouched_carve(d, e, s);
            d.lemma_untouched_all(e, f);
            d.lemma_untouched_blocks(f, *self, s);
            self.lemma_local_owner(s, k);
            assert(self.place() =~= d.place().insert(s, Place::Local(k)));
            assert forall|x: u64| #[trigger] d.place().dom().contains(x) implies self.header(x).state
                == d.header(x).state by {
                reveal(WfSpanAllocator::order_ok);
                assert(e.place_ok(x));
                assert(f.place_ok(x));
            }
        }
        p
    }

    /// The step counts after a span was carved and asked, or the pool found
    /// exhausted.
    pub open spec fn carve_count(self, step: StepCounter) -> StepCounter {
        let carved = StepCounter { faa_ops: (step.faa_ops + 1) as u64, ..step };
        if self.pool.next < self.pool.count {
            StepCounter { local_steps: (carved.local_steps + 1) as u64, ..carved }
        } else {
            carved
        }
    }

    /// Making a span ownerless disturbs no other thread, and keeps what is
    /// kept forever if the span has no free block.
    pub(crate) proof fn lemma_mark_effects(self, post: Self, s: u64, t: u64)
        requires
            self.wf(),
            post.wf(),
            self.at(s, Place::Held(t)),
            self.units()[s].kind is Small,
            self.discard_marked(post, s),
        ensures
            self.undisturbed(post, t),
            self.keeps_pieces(post),
            self.header(s).free_blocks().len() == 0 ==> self.keeps(post),
    {
        self.lemma_inert_cores(post);
        assert(post.place().dom() =~= self.place().dom());
        if self.tidy() && self.header(s).free_blocks().len() == 0 {
            assert forall|x: u64| #[trigger] post.place().dom().contains(x) implies {
                &&& post.place()[x] is Discarded ==> post.header(x).free_blocks().len() == 0
                &&& loose(post.place()[x]) && post.units()[x].kind is Small ==> post.full(x)
            } by {
                assert(self.place().dom().contains(x));
                assert(same_core(self.header(x), post.header(x)));
            }
        }
    }

    /// What asking a span costs at most.
    proof fn lemma_serve_cost(self, s: u64, step: StepCounter)
        requires
            self.wf(),
            self.place().dom().contains(s),
            self.units()[s].kind is Small,
            step.room(SPAN_SIZE + 2),
        ensures
            serve_cost(
                step,
                serve_count(self.header(s), self.mem@.links, step),
                self.header(s).block_count as int,
            ),
    {
        self.lemma_free_room(s);
        crate::refill::lemma_refilled(&self.mem, s, self.mem@.links);
    }

    /// The first span of the private list of `k` had nothing to serve: it was
    /// discarded if all its blocks are live, and else went to the end.
    spec fn turn_passed(self, after: Self, k: Key) -> bool {
        let items = self.local(k).seq();
        let s = items[0];
        let dead = self.header(s).free_blocks().len() == 0;
        &&& after.wf()
        &&& items.len() > 0
        &&& self.rotated(after, k)
        &&& self.serve_block(s) == 0
        &&& self.at(s, Place::Local(k))
        &&& self.units()[s].kind is Small
        &&& self.states_but(after, s)
        &&& after.header(s).state == (if dead {
            SpanState::Discarded
        } else {
            self.header(s).state
        })
        &&& forall|x: u64| #[trigger]
            self.place().dom().contains(x) && x != s ==> self.untouched(after, x)
                && after.place()[x] == self.place()[x]
        &&& after.live() == self.live()
        &&& after.local(k).seq() == (if dead {
            items.drop_first()
        } else {
            items.drop_first().push(s)
        })
        &&& after.place()[s] == (if dead {
            Place::Discarded
        } else {
            Place::Local(k)
        })
        &&& after.serve_block(s) == 0
        &&& self.passed(after, s)
        &&& after.header(s).free_blocks().len() == self.header(s).free_blocks().len()
        &&& after.stats == (if dead {
            AllocatorStats { discarded_spans: bumped(self.stats.discarded_spans), ..self.stats }
        } else {
            self.stats.blocked()
        })
    }

    /// What `i` turns of the private list of `k` have done.
    spec fn turns_done(
        self,
        here: Self,
        k: Key,
        tail: Seq<u64>,
        out: Seq<u64>,
        kept: nat,
        i: int,
    ) -> bool {
        let items = self.local(k).seq();
        &&& self.turning(here, k, items, tail, i)
        &&& self.turn_goes_on(here, k, items, out, kept, LOCAL_SPAN_LIMIT_K + 1 - i)
        &&& self.turned_out(here, out)
        &&& self.states_turned(here, out)
        &&& here.stats == self.turn_stats(Turn { list: items, out, kept })
    }

    /// What holds after `i` turns of the private list of `k` since this state,
    /// none of which served a block.
    spec fn turned_since(
        self,
        here: Self,
        k: Key,
        i: int,
        base: StepCounter,
        step: StepCounter,
    ) -> bool {
        let items = self.local(k).seq();
        let limit = LOCAL_SPAN_LIMIT_K + 1;
        &&& 0 <= i <= limit
        &&& here.wf()
        &&& self.rotated(here, k)
        &&& here.live() == self.live()
        &&& self.scan(items, 0, limit) == self.scan(items, i, limit)
        &&& exists|tail: Seq<u64>, out: Seq<u64>, kept: nat| #[trigger]
            self.turns_done(here, k, tail, out, kept, i)
        &&& self.turn_count(items, limit, items.len() as int, base) == self.turn_count(
            here.local(k).seq(),
            limit - i,
            items.len() - i,
            step,
        )
        &&& step.local_steps <= base.local_steps + 2 * i
        &&& step.blocks_scanned <= base.blocks_scanned + i * span_blocks(class_size(k.class as int))
        &&& step.swap_ops <= base.swap_ops + i
        &&& step.faa_ops <= base.faa_ops + i
        &&& step.grown(base, i * (SPAN_SIZE + 2))
        &&& step == (StepCounter {
            local_steps: step.local_steps,
            blocks_scanned: step.blocks_scanned,
            swap_ops: step.swap_ops,
            faa_ops: step.faa_ops,
            ..base
        })
    }

    /// No turn of the private list of `k` served a block.
    spec fn turns_failed(self, post: Self, k: Key, base: StepCounter, step: StepCounter) -> bool {
        let items = self.local(k).seq();
        let i = self.scan(items, 0, LOCAL_SPAN_LIMIT_K + 1);
        let t = self.turn(items, LOCAL_SPAN_LIMIT_K + 1);
        let v = low(i, items.len() as int);
        &&& post.wf()
        &&& self.rotated(post, k)
        &&& i > LOCAL_SPAN_LIMIT_K
        &&& post.live() == self.live()
        &&& rotate_cost(base, step, span_blocks(class_size(k.class as int)))
        &&& step == self.turn_count(items, LOCAL_SPAN_LIMIT_K + 1, items.len() as int, base)
        &&& post.local(k).seq() == t.list
        &&& self.turned_out(post, t.out)
        &&& self.states_turned(post, t.out)
        &&& forall|j: int| 0 <= j < v ==> self.passed(post, #[trigger] items[j])
        &&& forall|j: int| v <= j < items.len() ==> self.untouched(post, #[trigger] items[j])
        &&& post.stats == self.turn_stats(t)
    }

    /// Turns begin.
    proof fn lemma_turns_begin(self, k: Key, base: StepCounter)
        requires
            self.wf(),
            self.valid(k),
            k.lane == Lane::Span,
        ensures
            self.turned_since(self, k, 0, base, base),
    {
        let items = self.local(k).seq();
        let none = Seq::<u64>::empty();
        let whole = self.turn(items, LOCAL_SPAN_LIMIT_K + 1);
        assert(none + whole.out =~= whole.out);
        assert(items.skip(0) + none =~= items);
        self.lemma_rotated_same(k);
        self.lemma_listed_small(k);
        assert(self.turns_done(self, k, none, none, 0, 0));
    }

    /// One more turn that serves no block.
    proof fn lemma_turn_again(
        self,
        here: Self,
        after: Self,
        k: Key,
        i: int,
        base: StepCounter,
        step: StepCounter,
    )
        requires
            self.wf(),
            self.valid(k),
            k.lane == Lane::Span,
            base.room(STEP_ROOM as int),
            i <= LOCAL_SPAN_LIMIT_K,
            self.turned_since(here, k, i, base, step),
            here.turn_passed(after, k),
        ensures
            self.turned_since(after, k, i + 1, base, here.ask_count(k, step)),
    {
        let items = self.local(k).seq();
        let limit = LOCAL_SPAN_LIMIT_K + 1;
        let m = span_blocks(class_size(k.class as int));
        let list = here.local(k).seq();
        let span = list[0];
        let (tail, out, kept) = choose|tail: Seq<u64>, out: Seq<u64>, kept: nat| #[trigger]
            self.turns_done(here, k, tail, out, kept, i);
        self.lemma_listed_small(k);
        self.lemma_turn_cost(here, k, i, base, step, tail);
        self.lemma_turn_first(here, k, items, tail, i, m);
        self.lemma_rotated_twice(here, after, k);
        let dead = here.header(span).free_blocks().len() == 0;
        self.lemma_turn_goes_on(here, after, k, items, out, kept, limit - i);
        let tail2 = self.lemma_turning(here, after, k, items, tail, i, m);
        let out2 = if dead {
            out.push(span)
        } else {
            out
        };
        let kept2 = if dead {
            kept
        } else {
            kept + 1
        };
        self.lemma_turned_out(here, after, out, out2, span, dead, k);
        lemma_bumped_by(self.stats.discarded_spans, out.len());
        lemma_bumped_by(self.stats.remote_blocked_events, kept);
        assert forall|x: u64| #[trigger] self.mem@.headers.dom().contains(x) implies after.header(
            x,
        ).state == (if out2.contains(x) {
            SpanState::Discarded
        } else {
            self.header(x).state
        }) by {
            if dead {
                assert(out2[out.len() as int] == span);
                if out.contains(x) {
                    let w = choose|w: int| 0 <= w < out.len() && out[w] == x;
                    assert(out2[w] == x);
                }
            }
        }
        assert(self.turns_done(after, k, tail2, out2, kept2, i + 1));
    }

    /// What one more turn costs.
    proof fn lemma_turn_cost(
        self,
        here: Self,
        k: Key,
        i: int,
        base: StepCounter,
        step: StepCounter,
        tail: Seq<u64>,
    )
        requires
            self.wf(),
            self.valid(k),
            k.lane == Lane::Span,
            base.room(STEP_ROOM as int),
            i <= LOCAL_SPAN_LIMIT_K,
            self.turned_since(here, k, i, base, step),
            self.turning(here, k, self.local(k).seq(), tail, i),
            here.local(k).seq().len() > 0,
        ensures
            ({
                let m = span_blocks(class_size(k.class as int));
                let then = here.ask_count(k, step);
                &&& serve_cost(step, then, m)
                &&& (i + 1) * m == i * m + m
                &&& (i + 1) * (SPAN_SIZE + 2) == i * (SPAN_SIZE + 2) + (SPAN_SIZE + 2)
                &&& 0 <= (i + 1) * m <= (LOCAL_SPAN_LIMIT_K + 1) * m <= 41 * SPAN_SIZE
                &&& 0 <= (i + 1) * (SPAN_SIZE + 2) <= 41 * (SPAN_SIZE + 2)
            }),
    {
        let items = self.local(k).seq();
        let m = span_blocks(class_size(k.class as int));
        let span = here.local(k).seq()[0];
        self.lemma_listed_small(k);
        here.lemma_listed_small(k);
        lemma_rotate_cost(i, m);
        lemma_rotate_cost(i + 1, m);
        assert(0 <= i * (SPAN_SIZE + 2) <= 40 * (SPAN_SIZE + 2)) by (nonlinear_arith)
            requires
                0 <= i <= 40,
        ;
        assert((i + 1) * m == i * m + m) by (nonlinear_arith);
        assert((i + 1) * (SPAN_SIZE + 2) == i * (SPAN_SIZE + 2) + (SPAN_SIZE + 2))
            by (nonlinear_arith);
        self.lemma_turn_first(here, k, items, tail, i, m);
        assert(here.at(span, Place::Local(k)));
        here.lemma_serve_cost(span, step);
    }

    /// The turns are over without a block.
    proof fn lemma_turns_over(self, here: Self, k: Key, i: int, base: StepCounter, step: StepCounter)
        requires
            self.wf(),
            self.valid(k),
            k.lane == Lane::Span,
            self.turned_since(here, k, i, base, step),
            i == LOCAL_SPAN_LIMIT_K + 1 || here.local(k).seq().len() == 0,
        ensures
            self.turns_failed(here, k, base, step),
    {
        let items = self.local(k).seq();
        let m = span_blocks(class_size(k.class as int));
        let (tail, out, kept) = choose|tail: Seq<u64>, out: Seq<u64>, kept: nat| #[trigger]
            self.turns_done(here, k, tail, out, kept, i);
        self.lemma_listed_small(k);
        lemma_rotate_cost(i, m);
        assert(out + Seq::<u64>::empty() =~= out);
        assert(0 <= i * (SPAN_SIZE + 2) <= 41 * (SPAN_SIZE + 2)) by (nonlinear_arith)
            requires
                0 <= i <= 41,
        ;
    }

    /// What a small allocation that has ended with `r` returned, changed and
    /// counted.
    pub open spec fn small_done(
        self,
        post: Self,
        k: Key,
        layout: Layout,
        r: u64,
        base: StepCounter,
        step: StepCounter,
    ) -> bool {
        &&& r == self.small_result(k)
        &&& r != 0 ==> !self.live().dom().contains(r) && post.live() == self.live().insert(
            r,
            layout,
        )
        &&& r == 0 ==> post.live() == self.live()
        &&& self.keeps(post)
        &&& self.undisturbed(post, k.tid)
        &&& post.huge == self.huge
        &&& self.small_effects(post, k)
        &&& small_cost(base, step, self.n(), span_blocks(class_size(k.class as int)))
        &&& step == self.small_count(k, base)
    }

    /// A turn serves the request.
    #[verifier::rlimit(40)]
    #[verifier::spinoff_prover]
    proof fn lemma_turn_serves(
        self,
        here: Self,
        post: Self,
        k: Key,
        layout: Layout,
        i: int,
        base: StepCounter,
        step: StepCounter,
    )
        requires
            self.wf(),
            self.valid(k),
            k.lane == Lane::Span,
            base.room(op_room(self.n())),
            i <= LOCAL_SPAN_LIMIT_K,
            self.turned_since(here, k, i, base, step),
            post.wf(),
            here.turn_end(k) is Served,
            here.turn_ended(post, k, layout, here.turn_end(k)),
        ensures
            self.small_done(
                post,
                k,
                layout,
                here.serve_block(here.local(k).seq()[0]),
                base,
                here.ask_count(k, step),
            ),
    {
        let items = self.local(k).seq();
        let m = span_blocks(class_size(k.class as int));
        let span = here.local(k).seq()[0];
        let (tail, out, kept) = choose|tail: Seq<u64>, out: Seq<u64>, kept: nat| #[trigger]
            self.turns_done(here, k, tail, out, kept, i);
        self.lemma_listed_small(k);
        self.lemma_turn_cost(here, k, i, base, step, tail);
        self.lemma_turn_first(here, k, items, tail, i, m);
        self.lemma_rotated_twice(here, post, k);
        assert(out + Seq::<u64>::empty() =~= out);
        self.lemma_turned_out(here, post, out, out, span, false, k);
        self.lemma_turn_served(here, post, k, items, tail, i, m);
        self.lemma_rotated_effects(post, k);
        assert((LOCAL_SPAN_LIMIT_K + 2) * m == (LOCAL_SPAN_LIMIT_K + 1) * m + m)
            by (nonlinear_arith);
        let none = Seq::<u64>::empty();
        assert(none + (none + post.local(k).seq()) =~= post.local(k).seq());
        assert(self.scan(items, i, LOCAL_SPAN_LIMIT_K + 1) == i);
        self.lemma_blocks_turned(post, k, i, true);
        assert(self.states_after(post, out, span, 0)) by {
            reveal(WfSpanAllocator::order_ok);
            assert forall|x: u64| #[trigger] self.place().dom().contains(x) implies post.header(
                x,
            ).state == (if out.contains(x) {
                SpanState::Discarded
            } else if x != 0 && x == span {
                SpanState::NonEmptyLocal
            } else {
                self.header(x).state
            }) by {
                assert(self.place_ok(x));
                assert(here.place_ok(x));
            }
            assert(here.at(span, Place::Local(k)));
        }
        assert(self.small_effects(post, k));
    }

    /// The spans of a private list hold `m` blocks of its class each.
    pub open spec fn lists_small(self, items: Seq<u64>, k: Key, m: int) -> bool {
        &&& items.no_duplicates()
        &&& forall|j: int|
            0 <= j < items.len() ==> self.at(#[trigger] items[j], Place::Local(k))
                && self.units()[items[j]].kind is Small && self.header(items[j]).block_count == m
                && self.header(items[j]).block_size == class_size(k.class as int)
        &&& forall|x: u64| #[trigger]
            self.place().dom().contains(x) && self.place()[x] == Place::Local(k)
                ==> self.units()[x].kind is Small
    }

    /// After `i` turns of the list `items`, the spans behind the first `i`
    /// are in front and untouched, and behind them stand the spans of `tail`,
    /// which have nothing to serve.
    spec fn turning(self, here: Self, k: Key, items: Seq<u64>, tail: Seq<u64>, i: int) -> bool {
        let v = low(i, items.len() as int);
        &&& here.local(k).seq() == items.skip(v) + tail
        &&& forall|j: int|
            0 <= j < tail.len() ==> items.contains(#[trigger] tail[j]) && here.serve_block(tail[j])
                == 0 && self.serve_block(tail[j]) == 0 && here.header(tail[j]).free_blocks().len()
                == self.header(tail[j]).free_blocks().len()
        &&& forall|j: int| 0 <= j < v ==> self.passed(here, #[trigger] items[j])
        &&& tail.no_duplicates()
        &&& forall|j: int|
            v <= j < items.len() ==> self.untouched(here, #[trigger] items[j]) && !tail.contains(
                items[j],
            )
    }

    /// The outcome of all turns is what the turns so far and those that are
    /// left make.
    spec fn turn_goes_on(
        self,
        here: Self,
        k: Key,
        items: Seq<u64>,
        out: Seq<u64>,
        kept: nat,
        left: int,
    ) -> bool {
        let whole = self.turn(items, LOCAL_SPAN_LIMIT_K + 1);
        let t = self.turn(here.local(k).seq(), left);
        &&& whole.list == t.list
        &&& whole.out == out + t.out
        &&& whole.kept == kept + t.kept
    }

    /// One more turn of a list whose first span has nothing to serve.
    proof fn lemma_turn_goes_on(
        self,
        here: Self,
        after: Self,
        k: Key,
        items: Seq<u64>,
        out: Seq<u64>,
        kept: nat,
        left: int,
    )
        requires
            self.turn_goes_on(here, k, items, out, kept, left),
            left > 0,
            here.local(k).seq().len() > 0,
            self.serve_block(here.local(k).seq()[0]) == 0,
            after.local(k).seq() == (if self.header(
                here.local(k).seq()[0],
            ).free_blocks().len() == 0 {
                here.local(k).seq().drop_first()
            } else {
                here.local(k).seq().drop_first().push(here.local(k).seq()[0])
            }),
        ensures
            ({
                let s = here.local(k).seq()[0];
                if self.header(s).free_blocks().len() == 0 {
                    self.turn_goes_on(after, k, items, out.push(s), kept, left - 1)
                } else {
                    self.turn_goes_on(after, k, items, out, kept + 1, left - 1)
                }
            }),
    {
        let s = here.local(k).seq()[0];
        let t = self.turn(after.local(k).seq(), left - 1);
        assert(out + cons(s, t.out) =~= out.push(s) + t.out);
    }

    /// The first span of a list in turns.
    proof fn lemma_turn_first(
        self,
        here: Self,
        k: Key,
        items: Seq<u64>,
        tail: Seq<u64>,
        i: int,
        m: int,
    )
        requires
            self.wf(),
            here.wf(),
            self.lists_small(items, k, m),
            self.rotated(here, k),
            self.turning(here, k, items, tail, i),
            i >= 0,
            here.local(k).seq().len() > 0,
        ensures
            ({
                let s = here.local(k).seq()[0];
                &&& self.serve_block(s) == here.serve_block(s)
                &&& self.header(s).free_blocks().len() == here.header(s).free_blocks().len()
                &&& here.header(s).block_count == m
                &&& i < items.len() ==> s == items[i] && self.stalls(s) == here.stalls(s)
                    && self.served_list(s) == here.served_list(s)
                &&& i >= items.len() ==> self.serve_block(s) == 0
                &&& forall|step: StepCounter| #[trigger]
                    serve_count(here.header(s), here.mem@.links, step) == serve_count(
                        if i < items.len() {
                            self.header(s)
                        } else {
                            refilled(self.header(s), self.mem@.links)
                        },
                        self.mem@.links,
                        step,
                    )
                &&& forall|x: u64| #[trigger]
                    here.place().dom().contains(x) && here.place()[x] == Place::Local(k)
                        ==> here.units()[x].kind is Small
            }),
    {
        let s = here.local(k).seq()[0];
        let v = low(i, items.len() as int);
        if v < items.len() {
            assert(s == items[v]);
            assert(self.at(items[v], Place::Local(k)));
            self.lemma_free_room(s);
            self.lemma_serve_frame(here, s);
            assert(here.header(s).free_blocks() == self.header(s).free_blocks());
        } else {
            assert(here.local(k).seq() =~= tail);
            assert(tail[0] == s);
            let j = choose|j: int| 0 <= j < items.len() && items[j] == s;
            assert(self.at(items[j], Place::Local(k)));
            assert(self.passed(here, items[j]));
            self.lemma_passed_count(here, s);
        }
    }

    /// One more turn of a list whose first span has nothing to serve.
    #[verifier::rlimit(40)]
    #[verifier::spinoff_prover]
    proof fn lemma_turning(
        self,
        here: Self,
        after: Self,
        k: Key,
        items: Seq<u64>,
        tail: Seq<u64>,
        i: int,
        m: int,
    ) -> (tail2: Seq<u64>)
        requires
            self.wf(),
            here.wf(),
            self.lists_small(items, k, m),
            self.rotated(here, k),
            here.rotated(after, k),
            self.turning(here, k, items, tail, i),
            i >= 0,
            here.local(k).seq().len() > 0,
            ({
                let list = here.local(k).seq();
                let s = list[0];
                let dead = here.header(s).free_blocks().len() == 0;
                &&& self.serve_block(s) == 0
                &&& here.header(s).free_blocks().len() == self.header(s).free_blocks().len()
                &&& after.local(k).seq() == (if dead {
                    list.drop_first()
                } else {
                    list.drop_first().push(s)
                })
                &&& after.serve_block(s) == 0
                &&& here.serve_block(s) == 0
                &&& here.passed(after, s)
                &&& after.header(s).free_blocks().len() == here.header(s).free_blocks().len()
                &&& forall|x: u64| #[trigger]
                    here.place().dom().contains(x) && x != s && here.units()[x].kind is Small
                        ==> here.untouched(after, x)
            }),
        ensures
            self.turning(after, k, items, tail2, i + 1),
    {
        let list = here.local(k).seq();
        let list2 = after.local(k).seq();
        let s = list[0];
        let dead = here.header(s).free_blocks().len() == 0;
        let v = low(i, items.len() as int);
        let v2 = low(i + 1, items.len() as int);
        assert forall|j: int| 0 <= j < v2 implies self.passed(after, #[trigger] items[j]) by {
            assert(self.at(items[j], Place::Local(k)));
            assert(here.place().dom().contains(items[j]));
            self.lemma_free_room(items[j]);
            if items[j] == s {
                if j < v {
                    self.lemma_passed_twice(here, after, s);
                } else {
                    self.lemma_untouched_passed(here, after, s);
                }
            } else {
                self.lemma_passed_stays(here, after, items[j]);
            }
        }
        if v < items.len() {
            assert(s == items[v]);
            assert(list.drop_first() =~= items.skip(v + 1) + tail);
            let tail2 = if dead {
                tail
            } else {
                tail.push(s)
            };
            assert(list2 =~= items.skip(v2) + tail2);
            assert(!tail.contains(items[v]));
            assert forall|j: int| 0 <= j < tail2.len() implies items.contains(#[trigger] tail2[j])
                && after.serve_block(tail2[j]) == 0 && self.serve_block(tail2[j]) == 0
                && after.header(tail2[j]).free_blocks().len() == self.header(
                tail2[j],
            ).free_blocks().len() by {
                if j < tail.len() {
                    assert(tail2[j] == tail[j]);
                    assert(tail.contains(tail[j]));
                    here.lemma_tail_serves_nothing(after, k, items, s, tail[j], self);
                }
            }
            assert forall|j: int| v2 <= j < items.len() implies self.untouched(
                after,
                #[trigger] items[j],
            ) && !tail2.contains(items[j]) by {
                assert(items[j] != items[v]);
                assert(self.at(items[j], Place::Local(k)));
                assert(here.place().dom().contains(items[j]));
                self.lemma_untouched_twice(here, after, items[j]);
                if tail2.contains(items[j]) {
                    let w = choose|w: int| 0 <= w < tail2.len() && tail2[w] == items[j];
                    if w < tail.len() {
                        assert(tail[w] == items[j]);
                    }
                }
            }
            assert(tail2.no_duplicates()) by {
                if !dead {
                    assert forall|x: int, y: int|
                        0 <= x < tail2.len() && 0 <= y < tail2.len() && x != y implies tail2[x]
                        != tail2[y] by {
                        if x < tail.len() && y < tail.len() {
                            assert(tail[x] != tail[y]);
                        } else if x < tail.len() {
                            assert(tail.contains(tail[x]));
                        } else {
                            assert(tail.contains(tail[y]));
                        }
                    }
                }
            }
            tail2
        } else {
            assert(items.skip(v2) =~= Seq::<u64>::empty());
            assert(list2 =~= items.skip(v2) + list2);
            assert(list =~= tail);
            assert forall|j: int| 0 <= j < list2.len() implies items.contains(#[trigger] list2[j])
                && after.serve_block(list2[j]) == 0 && self.serve_block(list2[j]) == 0
                && after.header(list2[j]).free_blocks().len() == self.header(
                list2[j],
            ).free_blocks().len() by {
                if j < tail.len() - 1 {
                    assert(list2[j] == tail[j + 1]);
                    assert(tail[j + 1] != tail[0]);
                    here.lemma_tail_serves_nothing(after, k, items, s, tail[j + 1], self);
                } else {
                    assert(list2[j] == tail[0]);
                }
            }
            assert(list2.no_duplicates()) by {
                assert forall|x: int, y: int|
                    0 <= x < list2.len() && 0 <= y < list2.len() && x != y implies list2[x]
                    != list2[y] by {
                    let x2 = if x < tail.len() - 1 { x + 1 } else { 0 };
                    let y2 = if y < tail.len() - 1 { y + 1 } else { 0 };
                    assert(tail[x2] != tail[y2]);
                }
            }
            list2
        }
    }

    /// The turn in which the first span serves a block.
    proof fn lemma_turn_served(
        self,
        here: Self,
        after: Self,
        k: Key,
        items: Seq<u64>,
        tail: Seq<u64>,
        i: int,
        m: int,
    )
        requires
            self.wf(),
            here.wf(),
            self.lists_small(items, k, m),
            self.rotated(here, k),
            here.rotated(after, k),
            self.turning(here, k, items, tail, i),
            0 <= i < items.len(),
            here.served_from(after, items[i]),
            forall|x: u64| #[trigger]
                here.place().dom().contains(x) && x != items[i] && here.units()[x].kind is Small
                    ==> here.untouched(after, x),
        ensures
            self.served_from(after, items[i]),
            forall|j: int| 0 <= j < i ==> self.passed(after, #[trigger] items[j]),
            forall|j: int| i < j < items.len() ==> self.untouched(after, #[trigger] items[j]),
    {
        assert(self.at(items[i], Place::Local(k)));
        self.lemma_free_room(items[i]);
        assert(self.untouched(here, items[i]));
        self.lemma_untouched_served(here, after, items[i]);
        assert forall|j: int| 0 <= j < i implies self.passed(after, #[trigger] items[j]) by {
            assert(self.at(items[j], Place::Local(k)));
            assert(here.place().dom().contains(items[j]));
            assert(items[j] != items[i]);
            self.lemma_passed_stays(here, after, items[j]);
        }
        assert forall|j: int| i < j < items.len() implies self.untouched(
            after,
            #[trigger] items[j],
        ) by {
            assert(self.at(items[j], Place::Local(k)));
            assert(here.place().dom().contains(items[j]));
            assert(items[j] != items[i]);
            self.lemma_untouched_twice(here, after, items[j]);
        }
    }

    /// One more span leaves the list in turns, or none does.
    proof fn lemma_turned_out(
        self,
        here: Self,
        after: Self,
        out: Seq<u64>,
        out2: Seq<u64>,
        s: u64,
        dead: bool,
        k: Key,
    )
        requires
            self.turned_out(here, out),
            here.place().dom() == self.place().dom(),
            here.at(s, Place::Local(k)),
            out2 == (if dead {
                out.push(s)
            } else {
                out
            }),
            here.rotated(after, k),
            forall|x: u64| #[trigger]
                here.place().dom().contains(x) && x != s && here.units()[x].kind is Small
                    ==> after.place()[x] == here.place()[x],
            forall|x: u64| #[trigger]
                here.place().dom().contains(x) && here.place()[x] == Place::Local(k)
                    ==> here.units()[x].kind is Small,
            after.place()[s] == (if dead {
                Place::Discarded
            } else {
                Place::Local(k)
            }),
        ensures
            self.turned_out(after, out2),
    {
        assert forall|x: u64| #[trigger] self.place().dom().contains(x) implies after.place()[x]
            == (if out2.contains(x) {
            Place::Discarded
        } else {
            self.place()[x]
        }) by {
            assert(here.place().dom().contains(x));
            if dead {
                assert(out2[out.len() as int] == s);
                assert(out2.contains(x) <==> out.contains(x) || x == s) by {
                    if out.contains(x) {
                        let w = choose|w: int| 0 <= w < out.len() && out[w] == x;
                        assert(out2[w] == x);
                    }
                }
            }
        }
    }

    /// A rotation disturbs no other thread and keeps what is kept forever.
    proof fn lemma_rotated_effects(self, post: Self, k: Key)
        requires
            self.wf(),
            post.wf(),
            self.rotated(post, k),
        ensures
            self.undisturbed(post, k.tid),
            self.keeps(post),
    {
    }

    /// Moves keep what is kept forever.
    pub(crate) proof fn lemma_inert_keeps(self, post: Self)
        requires
            self.wf(),
            post.wf(),
            self.inert(post),
            forall|x: u64| #[trigger]
                self.place().dom().contains(x) ==> {
                    &&& post.place()[x] is Discarded ==> self.place()[x] is Discarded
                    &&& loose(post.place()[x]) ==> loose(self.place()[x]) || !(
                    self.units()[x].kind is Small) || self.full(x)
                },
        ensures
            self.keeps(post),
            post.place().dom() == self.place().dom(),
            forall|x: u64| #[trigger]
                self.place().dom().contains(x) ==> self.untouched(post, x),
    {
        assert(post.place().dom() =~= self.place().dom()) by {
            reveal(WfSpanAllocator::assets_ok);
        }
        reveal(WfSpanAllocator::order_ok);
        assert forall|x: u64| #[trigger] self.place().dom().contains(x) implies self.untouched(
            post,
            x,
        ) by {
            assert(self.place_ok(x));
        }
        if self.tidy() {
            assert forall|x: u64| #[trigger] post.place().dom().contains(x) implies {
                &&& post.place()[x] is Discarded ==> post.header(x).free_blocks().len() == 0
                &&& loose(post.place()[x]) && post.units()[x].kind is Small ==> post.full(x)
            } by {
                assert(self.place().dom().contains(x));
                assert(self.place_ok(x));
                assert(same_core(self.header(x), post.header(x)));
            }
        }
    }

    /// Moves keep the blocks and the geometry of every span and run.
    pub(crate) proof fn lemma_inert_cores(self, post: Self)
        requires
            self.wf(),
            self.inert(post),
        ensures
            forall|x: u64| #[trigger]
                self.place().dom().contains(x) ==> same_core(self.header(x), post.header(x)),
    {
        reveal(WfSpanAllocator::order_ok);
        assert forall|x: u64| #[trigger] self.place().dom().contains(x) implies same_core(
            self.header(x),
            post.header(x),
        ) by {
            assert(self.place_ok(x));
        }
    }

    /// A move of what is in the own hands or the own list disturbs no other
    /// thread.
    pub(crate) proof fn lemma_moved_effects(self, post: Self, s: u64, to: Place, t: u64)
        requires
            self.wf(),
            post.wf(),
            self.moved(post, s, to),
            self.same_records(post),
            self.place().dom().contains(s),
            self.place()[s] matches Place::Transit(u) ==> u == t,
            self.place()[s] matches Place::Held(u) ==> u == t,
            !(to is Discarded),
            loose(to) ==> loose(self.place()[s]) || !(self.units()[s].kind is Small) || self.full(s),
        ensures
            self.undisturbed(post, t),
            self.keeps(post),
            post.place().dom() == self.place().dom(),
            forall|x: u64| #[trigger]
                self.place().dom().contains(x) ==> self.untouched(post, x),
    {
        self.lemma_inert_keeps(post);
    }

    /// An action on blocks disturbs no other thread and keeps what is kept
    /// forever.
    pub(crate) proof fn lemma_blocks_effects(self, post: Self, s: u64, t: u64)
        requires
            self.wf(),
            post.wf(),
            self.place().dom().contains(s),
            self.units()[s].kind is Small,
            self.only_blocks(post, s),
        ensures
            self.undisturbed(post, t),
            self.keeps_pieces(post),
            !(self.place()[s] is Discarded) && !loose(self.place()[s]) ==> self.keeps(post),
    {
        self.lemma_only_blocks_count(post, s);
    }

    /// Carving disturbs no other thread and keeps what is kept forever.
    pub(crate) proof fn lemma_carved_effects(self, post: Self, s: u64, unit: Unit, t: u64)
        requires
            self.wf(),
            post.wf(),
            self.carved(post, s, unit),
            unit.spans >= 1,
            !self.units().dom().contains(s),
            post.place() == self.place().insert(s, Place::Held(t)),
            forall|x: u64| #[trigger]
                self.place().dom().contains(x) ==> post.header(x) == self.header(x),
        ensures
            self.undisturbed(post, t),
            self.keeps(post),
    {
        reveal(WfSpanAllocator::assets_ok);
        assert(post.frontier() >= self.frontier()) by {
            assert(unit.spans * SPAN_SIZE >= 0) by (nonlinear_arith)
                requires
                    unit.spans >= 1,
            ;
        }
        assert(post.pool.used() >= self.pool.used()) by (nonlinear_arith)
            requires
                post.pool.base + post.pool.used() * SPAN_SIZE >= self.pool.base + self.pool.used()
                    * SPAN_SIZE,
                post.pool.base == self.pool.base,
        ;
        assert forall|x: u64| #[trigger] self.place().dom().contains(x) implies x != s by {
            assert(self.units().dom().contains(x));
        }
    }

    /// What the small path returns for a class: a block of the first span of
    /// the private list that has one; else one of the span that an
    /// acquisition gives; else the first of a fresh span; else 0.
    pub open spec fn small_result(self, k: Key) -> u64 {
        let items = self.local(k).seq();
        let i = self.scan(items, 0, LOCAL_SPAN_LIMIT_K + 1);
        let a = self.acquisition(k).result;
        if i <= LOCAL_SPAN_LIMIT_K {
            self.serve_block(items[i])
        } else if a != 0 && self.serve_block(a) != 0 {
            self.serve_block(a)
        } else if self.pool.next < self.pool.count {
            (self.frontier() + first_offset(class_size(k.class as int))) as u64
        } else {
            0
        }
    }

    /// What a small allocation changes.
    ///
    /// The private list takes turns. If that serves no block, the thread asks
    /// the public lists, and what it gets goes to the front of its list. If
    /// that serves none either, a fresh span goes to the front.
    pub open spec fn small_effects(self, post: Self, k: Key) -> bool {
        let items = self.local(k).seq();
        let i = self.scan(items, 0, LOCAL_SPAN_LIMIT_K + 1);
        let t = self.turn(items, LOCAL_SPAN_LIMIT_K + 1);
        let asks = i > LOCAL_SPAN_LIMIT_K;
        let got = if asks {
            self.acquisition(k).result
        } else {
            0
        };
        let carves = asks && (got == 0 || self.serve_block(got) == 0);
        let fresh = carves && self.pool.next < self.pool.count;
        &&& self.locals_but(post, k)
        &&& post.local(k).seq() == (if fresh {
            seq![self.frontier() as u64]
        } else {
            Seq::empty()
        }) + ((if got != 0 {
            seq![got]
        } else {
            Seq::empty()
        }) + t.list)
        &&& self.other_classes_stay(post, k)
        &&& if asks {
            self.asked(post, k)
        } else {
            self.same_publics(post) && self.same_records(post) && self.same_cursors(post)
        }
        &&& post.pool == (if carves {
            FixedSpanPool {
                next: if self.pool.next < u64::MAX {
                    (self.pool.next + 1) as u64
                } else {
                    u64::MAX
                },
                ..self.pool
            }
        } else {
            self.pool
        })
        &&& post.units() == (if fresh {
            self.units().insert(self.frontier() as u64, Unit { kind: Kind::Small, spans: 1 })
        } else {
            self.units()
        })
        &&& forall|x: u64| #[trigger]
            self.place().dom().contains(x) ==> if t.out.contains(x) {
                post.place()[x] is Discarded
            } else if got != 0 && x == got {
                post.place()[x] == Place::Local(k)
            } else {
                post.place()[x] == self.place()[x] || (loose(self.place()[x]) && loose(
                    post.place()[x],
                ))
            }
        &&& self.blocks_after(post, self.small_passed(k), self.small_source(k))
        &&& self.states_after(post, t.out, self.small_source(k), got)
        &&& fresh ==> {
            let s = self.frontier() as u64;
            &&& post.at(s, Place::Local(k))
            &&& post.header(s).owner == k.tid
            &&& post.header(s).state == SpanState::NonEmptyLocal
            &&& post.header(s).size_class == k.class
            &&& post.header(s).local.free.seq() == all_blocks(
                s,
                class_size(k.class as int),
            ).drop_first()
            &&& post.header(s).local.pending@.len() == 0
            &&& post.header(s).remote.free.seq().len() == 0
        }
        &&& post.stats == self.small_stats(k)
    }

    /// Of all spans and runs, the headers of those of `out` say that they are
    /// discarded, those of `source` and `got`, unless these are 0, that they
    /// are in use, and no other says another state than before.
    pub open spec fn states_after(
        self,
        post: Self,
        out: Seq<u64>,
        source: u64,
        got: u64,
    ) -> bool {
        forall|x: u64| #[trigger]
            self.place().dom().contains(x) ==> post.header(x).state == (if out.contains(x) {
                SpanState::Discarded
            } else if x != 0 && (x == source || x == got) {
                SpanState::NonEmptyLocal
            } else {
                self.header(x).state
            })
    }

    /// The span, carved before, that serves a small allocation; 0 if none
    /// does.
    pub open spec fn small_source(self, k: Key) -> u64 {
        let items = self.local(k).seq();
        let i = self.scan(items, 0, LOCAL_SPAN_LIMIT_K + 1);
        let got = self.acquisition(k).result;
        if i <= LOCAL_SPAN_LIMIT_K {
            items[i]
        } else if got != 0 && self.serve_block(got) != 0 {
            got
        } else {
            0
        }
    }

    /// The spans that a small allocation found to have nothing to serve: the
    /// first ones of the private list, and one that an acquisition gave.
    pub open spec fn small_passed(self, k: Key) -> Seq<u64> {
        let items = self.local(k).seq();
        let i = self.scan(items, 0, LOCAL_SPAN_LIMIT_K + 1);
        let got = self.acquisition(k).result;
        let listed = items.take(low(i, items.len() as int));
        if i > LOCAL_SPAN_LIMIT_K && got != 0 && self.serve_block(got) == 0 {
            listed.push(got)
        } else {
            listed
        }
    }

    /// Of all spans and runs, `source` served a block unless it is 0, those
    /// of `spans` were passed, and the blocks of no other were touched.
    pub open spec fn blocks_after(self, post: Self, spans: Seq<u64>, source: u64) -> bool {
        forall|x: u64| #[trigger]
            self.place().dom().contains(x) ==> if source != 0 && x == source {
                self.served_from(post, x)
            } else if spans.contains(x) {
                self.passed(post, x)
            } else {
                self.untouched(post, x)
            }
    }

    /// What happened to the blocks stays so while none are touched.
    proof fn lemma_blocks_stay(self, mid: Self, post: Self, spans: Seq<u64>, source: u64)
        requires
            self.blocks_after(mid, spans, source),
            forall|x: u64| #[trigger]
                self.place().dom().contains(x) ==> mid.untouched(post, x) && mid.header(
                    x,
                ).block_size == self.header(x).block_size,
        ensures
            self.blocks_after(post, spans, source),
    {
        assert forall|x: u64| #[trigger] self.place().dom().contains(x) implies if source != 0 && x
            == source {
            self.served_from(post, x)
        } else if spans.contains(x) {
            self.passed(post, x)
        } else {
            self.untouched(post, x)
        } by {
            if source != 0 && x == source {
                self.lemma_served_stays(mid, post, x);
            } else if spans.contains(x) {
                self.lemma_passed_stays(mid, post, x);
            } else {
                self.lemma_untouched_twice(mid, post, x);
            }
        }
    }

    /// An acquired span, whose blocks nobody touched before, serves or is
    /// passed.
    proof fn lemma_blocks_got(
        self,
        mid: Self,
        post: Self,
        spans: Seq<u64>,
        got: u64,
        served: bool,
    )
        requires
            self.wf(),
            self.blocks_after(mid, spans, 0),
            self.place().dom().contains(got),
            self.units()[got].kind is Small,
            !spans.contains(got),
            got != 0,
            mid.mem@.links.dom() == self.mem@.links.dom(),
            served ==> mid.served_from(post, got),
            !served ==> mid.passed(post, got),
            forall|x: u64| #[trigger]
                self.place().dom().contains(x) ==> mid.header(x).block_size == self.header(
                    x,
                ).block_size && (x != got ==> mid.untouched(post, x)),
        ensures
            served ==> self.blocks_after(post, spans, got),
            !served ==> self.blocks_after(post, spans.push(got), 0),
    {
        self.lemma_free_room(got);
        let more = spans.push(got);
        assert(more[spans.len() as int] == got);
        assert forall|x: u64| #[trigger] self.place().dom().contains(x) implies if served && x
            == got {
            self.served_from(post, x)
        } else if spans.contains(x) || x == got {
            self.passed(post, x)
        } else {
            self.untouched(post, x)
        } by {
            if x == got {
                assert(self.untouched(mid, x));
                if served {
                    self.lemma_untouched_served(mid, post, x);
                } else {
                    self.lemma_untouched_passed(mid, post, x);
                }
            } else if spans.contains(x) {
                self.lemma_passed_stays(mid, post, x);
            } else {
                self.lemma_untouched_twice(mid, post, x);
            }
        }
        assert forall|x: u64| #[trigger] more.contains(x) <==> spans.contains(x) || x == got by {
            if spans.contains(x) {
                let w = choose|w: int| 0 <= w < spans.len() && spans[w] == x;
                assert(more[w] == x);
            }
        }
    }

    /// What the turns of a private list did to the blocks.
    proof fn lemma_blocks_turned(self, post: Self, k: Key, i: int, served: bool)
        requires
            self.wf(),
            self.valid(k),
            k.lane == Lane::Span,
            self.rotated(post, k),
            0 <= i,
            served ==> i < self.local(k).seq().len() && self.served_from(
                post,
                self.local(k).seq()[i],
            ),
            forall|j: int|
                0 <= j < low(i, self.local(k).seq().len() as int) ==> self.passed(
                    post,
                    #[trigger] self.local(k).seq()[j],
                ),
            forall|j: int|
                low(i, self.local(k).seq().len() as int) <= j < self.local(k).seq().len() && (
                !served || j != i) ==> self.untouched(post, #[trigger] self.local(k).seq()[j]),
        ensures
            ({
                let items = self.local(k).seq();
                let spans = items.take(low(i, items.len() as int));
                self.blocks_after(post, spans, if served { items[i] } else { 0 })
            }),
            served ==> self.local(k).seq()[i] != 0,
    {
        let items = self.local(k).seq();
        let v = low(i, items.len() as int);
        let spans = items.take(v);
        self.lemma_listed_small(k);
        if served {
            assert(self.at(items[i], Place::Local(k)));
            self.lemma_free_room(items[i]);
            self.mem.lemma_view();
            self.lemma_span_address(items[i]);
        }
        assert forall|x: u64| #[trigger] self.place().dom().contains(x) implies if served && x
            == items[i] {
            self.served_from(post, x)
        } else if spans.contains(x) {
            self.passed(post, x)
        } else {
            self.untouched(post, x)
        } by {
            if spans.contains(x) {
                let w = choose|w: int| 0 <= w < spans.len() && spans[w] == x;
                assert(items[w] == x);
            } else if self.place()[x] == Place::Local(k) {
                reveal(WfSpanAllocator::order_ok);
                assert(self.place_ok(x));
                let w = choose|w: int| 0 <= w < items.len() && items[w] == x;
                if w < v {
                    assert(spans[w] == x);
                }
            }
        }
    }

    /// The statistics after a small allocation.
    pub open spec fn small_stats(self, k: Key) -> AllocatorStats {
        let items = self.local(k).seq();
        let i = self.scan(items, 0, LOCAL_SPAN_LIMIT_K + 1);
        let turned = self.turn_stats(self.turn(items, LOCAL_SPAN_LIMIT_K + 1));
        let got = self.acquisition(k).result;
        if i <= LOCAL_SPAN_LIMIT_K {
            if self.stalls(items[i]) {
                turned.blocked()
            } else {
                turned
            }
        } else {
            let asked = if completed(self.word(k)) {
                turned.reclaimed(k.lane)
            } else if got != 0 {
                turned.acquired(k.lane)
            } else {
                turned
            };
            let served = if got != 0 && self.stalls(got) {
                asked.blocked()
            } else {
                asked
            };
            if (got == 0 || self.serve_block(got) == 0) && self.pool.next < self.pool.count {
                served.spans_carved()
            } else {
                served
            }
        }
    }

    /// No list, record or saved position of another class changed.
    pub open spec fn other_classes_stay(self, post: Self, k: Key) -> bool {
        forall|j: Key| #[trigger]
            self.valid(j) && !same_class(j, k) ==> {
                &&& post.public(j) == self.public(j)
                &&& post.record(j) == self.record(j)
                &&& post.query(j) == self.query(j)
                &&& post.helping(j) == self.helping(j)
            }
    }

    /// What turns of the private list and an acquisition left.
    proof fn lemma_small_asked(
        self,
        turned: Self,
        b: Self,
        k: Key,
        base: StepCounter,
        step: (StepCounter, StepCounter),
    )
        requires
            self.wf(),
            self.valid(k),
            k.lane == Lane::Span,
            self.turns_failed(turned, k, base, step.0),
            turned.acquisition_ended(b, k, step.0, step.1),
        ensures
            turned.acquisition(k) == self.acquisition(k),
            step.1 == self.acquire_count(k, step.0),
            self.undisturbed(b, k.tid),
            self.keeps(b),
            self.asked(b, k),
            self.other_classes_stay(b, k),
            self.states_after(
                b,
                self.turn(self.local(k).seq(), LOCAL_SPAN_LIMIT_K + 1).out,
                0,
                0,
            ),
            ({
                let items = self.local(k).seq();
                let i = self.scan(items, 0, LOCAL_SPAN_LIMIT_K + 1);
                self.blocks_after(b, items.take(low(i, items.len() as int)), 0)
            }),
            ({
                let got = self.acquisition(k).result;
                got != 0 ==> {
                    &&& self.place().dom().contains(got)
                    &&& self.units()[got].kind is Small
                    &&& !(self.place()[got] is Local)
                    &&& self.serve_block(got) == b.serve_block(got)
                    &&& self.stalls(got) == b.stalls(got)
                    &&& b.header(got).block_count == span_blocks(class_size(k.class as int))
                    &&& forall|s: StepCounter| #[trigger]
                        serve_count(b.header(got), b.mem@.links, s) == serve_count(
                            self.header(got),
                            self.mem@.links,
                            s,
                        )
                }
            }),
    {
        let items = self.local(k).seq();
        let i = self.scan(items, 0, LOCAL_SPAN_LIMIT_K + 1);
        let listed = items.take(low(i, items.len() as int));
        self.lemma_listed_small(k);
        self.lemma_rotated_effects(turned, k);
        self.lemma_blocks_turned(turned, k, i, false);
        self.lemma_board_same(turned, k);
        assert(turned.acquisition(k) == self.acquisition(k));
        assert(turned.started(k) == self.started(k));
        assert(turned.fresh(k) == self.fresh(k));
        self.lemma_undisturbed_twice(turned, b, k.tid);
        turned.lemma_inert_keeps(b);
        self.lemma_keeps_twice(turned, b);
        assert(forall|j: Key| #[trigger] self.valid(j) ==> turned.valid(j));
        assert(self.asked(b, k));
        assert(self.other_classes_stay(b, k));
        self.lemma_blocks_stay(turned, b, listed, 0);
        assert forall|x: u64| #[trigger] self.place().dom().contains(x) implies b.header(x).state
            == turned.header(x).state && self.mem@.headers.dom().contains(x) by {
            reveal(WfSpanAllocator::order_ok);
            assert(self.place_ok(x));
            assert(turned.place_ok(x));
        }
        let got = self.acquisition(k).result;
        if got != 0 {
            self.lemma_acquired_untouched(turned, b, k, got);
            self.lemma_free_room(got);
            self.lemma_serve_frame(b, got);
            b.lemma_free_room(got);
            assert(turned.place().dom().contains(got));
        }
    }

    /// An acquired span was asked.
    spec fn small_tried(
        self,
        turned: Self,
        b: Self,
        d: Self,
        k: Key,
        layout: Layout,
        base: StepCounter,
        step: (StepCounter, StepCounter, StepCounter),
    ) -> bool {
        let got = turned.acquisition(k).result;
        &&& self.turns_failed(turned, k, base, step.0)
        &&& turned.acquisition_ended(b, k, step.0, step.1)
        &&& d.wf()
        &&& if got != 0 {
            &&& b.keeps(d)
            &&& b.undisturbed(d, k.tid)
            &&& b.serve_ended(d, k, got, layout, b.serve_block(got))
            &&& step.2 == serve_count(b.header(got), b.mem@.links, step.1)
        } else {
            d == b && step.2 == step.1
        }
    }

    /// What a small allocation has done that asked an acquired span, if it got
    /// one.
    #[verifier::rlimit(60)]
    #[verifier::spinoff_prover]
    proof fn lemma_small_tried(
        self,
        turned: Self,
        b: Self,
        d: Self,
        k: Key,
        layout: Layout,
        base: StepCounter,
        step: (StepCounter, StepCounter, StepCounter),
    )
        requires
            self.wf(),
            self.valid(k),
            k.lane == Lane::Span,
            base.room(op_room(self.n())),
            self.small_tried(turned, b, d, k, layout, base, step),
        ensures
            self.undisturbed(d, k.tid),
            self.keeps(d),
            self.asked(d, k),
            self.other_classes_stay(d, k),
            self.blocks_after(d, self.small_passed(k), self.small_source(k)),
            self.states_after(
                d,
                self.turn(self.local(k).seq(), LOCAL_SPAN_LIMIT_K + 1).out,
                0,
                self.acquisition(k).result,
            ),
            turned.acquisition(k) == self.acquisition(k),
            ({
                let got = self.acquisition(k).result;
                let list = self.turn(self.local(k).seq(), LOCAL_SPAN_LIMIT_K + 1).list;
                &&& d.local(k).seq() == (if got != 0 {
                    seq![got]
                } else {
                    Seq::empty()
                }) + list
                &&& got != 0 ==> b.serve_block(got) == self.serve_block(got)
                &&& got != 0 && b.serve_block(got) != 0 ==> self.small_done(
                    d,
                    k,
                    layout,
                    b.serve_block(got),
                    base,
                    step.2,
                )
                &&& got == 0 || b.serve_block(got) == 0 ==> {
                    &&& d.live() == self.live()
                    &&& d.pool == self.pool
                    &&& d.huge == self.huge
                    &&& d.units() == self.units()
                    &&& self.locals_but(d, k)
                    &&& small_cost(
                        base,
                        step.2,
                        self.n(),
                        span_blocks(class_size(k.class as int)),
                    )
                    &&& step.2.grown(base, 127 * self.n() + 0x40_0000)
                    &&& self.small_count(k, base) == self.carve_count(step.2)
                    &&& self.small_stats(k) == (if self.pool.next < self.pool.count {
                        d.stats.spans_carved()
                    } else {
                        d.stats
                    })
                    &&& forall|x: u64| #[trigger]
                        self.place().dom().contains(x) ==> if self.turn(
                            self.local(k).seq(),
                            LOCAL_SPAN_LIMIT_K + 1,
                        ).out.contains(x) {
                            d.place()[x] is Discarded
                        } else if got != 0 && x == got {
                            d.place()[x] == Place::Local(k)
                        } else {
                            d.place()[x] == self.place()[x] || (loose(self.place()[x]) && loose(
                                d.place()[x],
                            ))
                        }
                }
            }),
    {
        let items = self.local(k).seq();
        let i = self.scan(items, 0, LOCAL_SPAN_LIMIT_K + 1);
        let listed = items.take(low(i, items.len() as int));
        let m = span_blocks(class_size(k.class as int));
        let got = self.acquisition(k).result;
        self.lemma_listed_small(k);
        self.lemma_small_asked(turned, b, k, base, (step.0, step.1));
        assert((LOCAL_SPAN_LIMIT_K + 2) * m == (LOCAL_SPAN_LIMIT_K + 1) * m + m)
            by (nonlinear_arith);
        assert(forall|j: Key| #[trigger] self.valid(j) ==> turned.valid(j) && b.valid(j));
        assert(forall|x: u64| #[trigger]
            self.place().dom().contains(x) ==> turned.place().dom().contains(x));
        if got != 0 {
            let p = b.serve_block(got);
            b.lemma_serve_cost(got, step.1);
            self.lemma_undisturbed_twice(b, d, k.tid);
            self.lemma_keeps_twice(b, d);
            self.lemma_asked_stays(b, d, k);
            assert(!listed.contains(got)) by {
                if listed.contains(got) {
                    let w = choose|w: int| 0 <= w < listed.len() && listed[w] == got;
                    assert(items[w] == got);
                    assert(self.at(items[w], Place::Local(k)));
                }
            }
            self.lemma_blocks_got(b, d, listed, got, p != 0);
            assert forall|x: u64| #[trigger] self.place().dom().contains(x) && x
                != got implies d.header(x).state == b.header(x).state by {
                reveal(WfSpanAllocator::order_ok);
                assert(b.place().dom().contains(x));
                assert(b.place_ok(x));
            }
            let out = self.turn(items, LOCAL_SPAN_LIMIT_K + 1).out;
            assert(!out.contains(got)) by {
                assert(turned.place()[got] == Place::Discarded ==> b.place()[got] is Discarded);
            }
            assert(seq![got] + turned.local(k).seq() =~= cons(got, turned.local(k).seq()));
            if p != 0 {
                let none = Seq::<u64>::empty();
                assert(none + d.local(k).seq() =~= d.local(k).seq());
                assert(self.small_effects(d, k));
            }
        } else {
            assert(Seq::<u64>::empty() + turned.local(k).seq() =~= turned.local(k).seq());
        }
    }

    /// A small allocation ends with a fresh span, or finds the pool exhausted.
    #[verifier::rlimit(60)]
    #[verifier::spinoff_prover]
    proof fn lemma_small_carved(
        self,
        turned: Self,
        b: Self,
        d: Self,
        post: Self,
        k: Key,
        layout: Layout,
        p: u64,
        base: StepCounter,
        step: (StepCounter, StepCounter, StepCounter),
    )
        requires
            self.wf(),
            self.valid(k),
            k.lane == Lane::Span,
            base.room(op_room(self.n())),
            self.small_tried(turned, b, d, k, layout, base, step),
            turned.acquisition(k).result != 0 ==> b.serve_block(turned.acquisition(k).result) == 0,
            d.carve_ended(post, k, layout, p),
            d.keeps(post),
            d.undisturbed(post, k.tid),
        ensures
            self.small_done(post, k, layout, p, base, d.carve_count(step.2)),
    {
        broadcast use LocalSpanList::lemma_of;

        self.lemma_small_tried(turned, b, d, k, layout, base, step);
        self.lemma_undisturbed_twice(d, post, k.tid);
        self.lemma_keeps_twice(d, post);
        assert(forall|j: Key| #[trigger] self.valid(j) ==> d.valid(j));
        self.lemma_asked_stays(d, post, k);
        assert(forall|x: u64| #[trigger]
            self.place().dom().contains(x) ==> d.place().dom().contains(x));
        self.lemma_blocks_stay(d, post, self.small_passed(k), 0);
        assert forall|x: u64| #[trigger] self.place().dom().contains(x) implies post.header(x).state
            == d.header(x).state by {
            reveal(WfSpanAllocator::order_ok);
            assert(d.place_ok(x));
        }
        if d.pool.next < d.pool.count {
            let s = d.frontier() as u64;
            lemma_small_front(s, d.local(k).seq());
            assert(s == self.frontier());
        } else {
            assert(Seq::<u64>::empty() + d.local(k).seq() =~= d.local(k).seq());
        }
        assert(self.small_effects(post, k));
    }

    /// A span without a free block was taken out of the private list by a turn,
    /// and made ownerless if `mid` is not `here`.
    spec fn dead_since(
        self,
        before: Self,
        now: StepCounter,
        mid: Self,
        a: PendingAlloc,
        k: Key,
        s: u64,
        base: StepCounter,
        step: StepCounter,
    ) -> bool {
        &&& self.turned_since(before, k, a.at - 1, base, now)
        &&& mid.wf()
        &&& before.turn_end(k) == TurnEnd::Dead(s)
        &&& before.turn_ended(mid, k, a.layout, TurnEnd::Dead(s))
        &&& step == before.ask_count(k, now)
    }

    /// What holds of a small allocation that began in this state with the
    /// counts `base`, while no other thread acts.
    pub closed spec fn small_since(
        self,
        here: Self,
        a: PendingAlloc,
        base: StepCounter,
        step: StepCounter,
    ) -> bool {
        let k = Key { lane: Lane::Span, class: a.min, tid: a.tid };
        &&& self.wf()
        &&& self.valid(k)
        &&& here.wf()
        &&& here.n() == self.n()
        &&& here.alloc_ready(a)
        &&& base.room(op_room(self.n()))
        &&& match a.stage {
            AllocStage::Turn => self.turned_since(here, k, a.at as int, base, step),
            AllocStage::Mark(s) => exists|before: Self, now: StepCounter| #[trigger]
                self.dead_since(before, now, here, a, k, s, base, step),
            AllocStage::Settle(s) => exists|before: Self, now: StepCounter, mid: Self|
                #[trigger] self.dead_since(before, now, mid, a, k, s, base, step)
                    && mid.discard_marked(here, s),
            AllocStage::Ask(q) => exists|turned: Self, now: StepCounter|
                #[trigger] self.turns_failed(turned, k, base, now) && turned.acquiring_since(
                    here,
                    k,
                    q,
                    now,
                    step,
                    true,
                ),
            AllocStage::Serve(s) => exists|turned: Self, now: StepCounter|
                #[trigger] self.turns_failed(turned, k, base, now) && turned.acquisition_ended(
                    here,
                    k,
                    now,
                    step,
                ) && s == turned.acquisition(k).result,
            AllocStage::Carve => exists|
                turned: Self,
                b: Self,
                steps: (StepCounter, StepCounter, StepCounter),
            |
                #[trigger] self.small_tried(turned, b, here, k, a.layout, base, steps) && steps.2
                    == step && (turned.acquisition(k).result != 0 ==> b.serve_block(
                    turned.acquisition(k).result,
                ) == 0),
            AllocStage::Done(r) => self.small_done(here, k, a.layout, r, base, step),
            _ => false,
        }
    }

    /// A small allocation begins.
    pub(crate) proof fn lemma_small_begins(self, a: PendingAlloc, base: StepCounter)
        requires
            self.wf(),
            self.alloc_ready(a),
            a.stage is Turn,
            a.at == 0,
            base.room(op_room(self.n())),
        ensures
            self.small_since(self, a, base, base),
    {
        let k = a.key();
        assert(self.valid(k));
        self.lemma_turns_begin(k, base);
    }

    /// A small allocation has room for its next action.
    pub(crate) proof fn lemma_small_room(
        self,
        here: Self,
        a: PendingAlloc,
        base: StepCounter,
        step: StepCounter,
    )
        requires
            self.small_since(here, a, base, step),
            !(a.stage is Done),
        ensures
            step.room(ACTION_ROOM as int),
            here.wf(),
            here.alloc_ready(a),
    {
        let k = a.key();
        let m = a.blocks();
        let i = a.at as int;
        self.lemma_listed_small(k);
        assert(0 <= i * (SPAN_SIZE + 2) <= 41 * (SPAN_SIZE + 2)) by (nonlinear_arith)
            requires
                0 <= i <= 41,
        ;
        lemma_rotate_cost(i, m);
        match a.stage {
            AllocStage::Mark(s) => {
                let (before, now) = choose|before: Self, now: StepCounter| #[trigger]
                    self.dead_since(before, now, here, a, k, s, base, step);
                let (tail, out, kept) = choose|tail: Seq<u64>, out: Seq<u64>, kept: nat| #[trigger]
                    self.turns_done(before, k, tail, out, kept, i - 1);
                self.lemma_turn_cost(before, k, i - 1, base, now, tail);
            },
            AllocStage::Settle(s) => {
                let (before, now, mid) = choose|before: Self, now: StepCounter, mid: Self|
                    #[trigger] self.dead_since(before, now, mid, a, k, s, base, step)
                        && mid.discard_marked(here, s);
                let (tail, out, kept) = choose|tail: Seq<u64>, out: Seq<u64>, kept: nat| #[trigger]
                    self.turns_done(before, k, tail, out, kept, i - 1);
                self.lemma_turn_cost(before, k, i - 1, base, now, tail);
            },
            AllocStage::Carve => {
                let (turned, b, steps) = choose|
                    turned: Self,
                    b: Self,
                    steps: (StepCounter, StepCounter, StepCounter),
                |
                    #[trigger] self.small_tried(turned, b, here, k, a.layout, base, steps)
                        && steps.2 == step && (turned.acquisition(k).result != 0
                        ==> b.serve_block(turned.acquisition(k).result) == 0);
                self.lemma_small_tried(turned, b, here, k, a.layout, base, steps);
            },
            _ => {},
        }
    }

    /// The discard of a span ends a turn.
    proof fn lemma_dead_turn(
        self,
        before: Self,
        mid: Self,
        marked: Self,
        post: Self,
        k: Key,
        layout: Layout,
        s: u64,
    )
        requires
            before.wf(),
            mid.wf(),
            marked.wf(),
            post.wf(),
            before.valid(k),
            k.lane == Lane::Span,
            before.turn_end(k) == TurnEnd::Dead(s),
            before.turn_ended(mid, k, layout, TurnEnd::Dead(s)),
            mid.discard_marked(marked, s),
            marked.settle_ended(post, k, s),
        ensures
            before.turn_passed(post, k),
            marked.header(s).remote.free_count == 0,
    {
        assert(same_core(mid.header(s), marked.header(s)));
        assert(forall|j: Key| #[trigger] mid.valid(j) ==> marked.valid(j));
        assert(post.place() =~= mid.place().insert(s, post.place()[s]));
        assert(post.header(s).free_blocks() == mid.header(s).free_blocks());
        before.lemma_rotated_moves(mid, post, k, s);
        assert(mid.untouched(post, s));
        mid.lemma_free_room(s);
        mid.lemma_serve_frame(post, s);
        before.lemma_passed_stays(mid, post, s);
    }

    /// A small allocation goes on.
    #[verifier::rlimit(60)]
    #[verifier::spinoff_prover]
    pub(crate) proof fn lemma_small_goes_on(
        self,
        here: Self,
        post: Self,
        a: (PendingAlloc, PendingAlloc),
        base: StepCounter,
        step: (StepCounter, StepCounter),
    )
        requires
            self.small_since(here, a.0, base, step.0),
            !(a.0.stage is Done),
            here.alloc_acted(a.0, step.0, post, a.1, step.1, true),
        ensures
            self.small_since(post, a.1, base, step.1),
    {
        let k = a.0.key();
        let layout = a.0.layout;
        let i = a.0.at as int;
        assert(k == Key { lane: Lane::Span, class: a.0.min, tid: a.0.tid });
        assert(here.valid(k));
        match a.0.stage {
            AllocStage::Turn => {
                if i > LOCAL_SPAN_LIMIT_K || here.local(k).seq().len() == 0 {
                    self.lemma_turns_over(here, k, i, base, step.0);
                    here.lemma_acquire_begins(k, step.1, true);
                    assert(self.turns_failed(here, k, base, step.1));
                } else {
                    match here.turn_end(k) {
                        TurnEnd::Served(_) => {
                            self.lemma_turn_serves(here, post, k, layout, i, base, step.0);
                        },
                        TurnEnd::Dead(s) => {
                            assert(self.dead_since(here, step.0, post, a.1, k, s, base, step.1));
                        },
                        _ => {
                            assert(here.turn_passed(post, k));
                            self.lemma_turn_again(here, post, k, i, base, step.0);
                        },
                    }
                }
            },
            AllocStage::Mark(s) => {
                let (before, now) = choose|before: Self, now: StepCounter| #[trigger]
                    self.dead_since(before, now, here, a.0, k, s, base, step.0);
                assert(self.dead_since(before, now, here, a.1, k, s, base, step.1));
            },
            AllocStage::Settle(s) => {
                let (before, now, mid) = choose|before: Self, now: StepCounter, mid: Self|
                    #[trigger] self.dead_since(before, now, mid, a.0, k, s, base, step.0)
                        && mid.discard_marked(here, s);
                assert(before.valid(k));
                self.lemma_dead_turn(before, mid, here, post, k, layout, s);
                self.lemma_turn_again(before, post, k, i - 1, base, now);
            },
            AllocStage::Ask(q) => {
                let (turned, now) = choose|turned: Self, now: StepCounter|
                    #[trigger] self.turns_failed(turned, k, base, now) && turned.acquiring_since(
                        here,
                        k,
                        q,
                        now,
                        step.0,
                        true,
                    );
                let q2 = choose|q2: Acquisition|
                    #[trigger] here.advanced(q, step.0, post, q2, step.1, true) && a.1.stage
                        == ask_next(q2);
                turned.lemma_acquire_goes_on(here, post, k, (q, q2), now, (step.0, step.1), true);
                if q2.stage is Done {
                    turned.lemma_acquire_ends(post, k, q2, now, step.1, true);
                    assert(turned.acquisition_ended(post, k, now, step.1));
                    if q2.result == 0 {
                        assert(self.small_tried(
                            turned,
                            post,
                            post,
                            k,
                            layout,
                            base,
                            (now, step.1, step.1),
                        ));
                    }
                }
            },
            AllocStage::Serve(s) => {
                let (turned, now) = choose|turned: Self, now: StepCounter|
                    #[trigger] self.turns_failed(turned, k, base, now) && turned.acquisition_ended(
                        here,
                        k,
                        now,
                        step.0,
                    ) && s == turned.acquisition(k).result;
                assert(self.small_tried(
                    turned,
                    here,
                    post,
                    k,
                    layout,
                    base,
                    (now, step.0, step.1),
                ));
                self.lemma_small_tried(
                    turned,
                    here,
                    post,
                    k,
                    layout,
                    base,
                    (now, step.0, step.1),
                );
            },
            _ => {
                let (turned, b, steps) = choose|
                    turned: Self,
                    b: Self,
                    steps: (StepCounter, StepCounter, StepCounter),
                |
                    #[trigger] self.small_tried(turned, b, here, k, layout, base, steps)
                        && steps.2 == step.0 && (turned.acquisition(k).result != 0
                        ==> b.serve_block(turned.acquisition(k).result) == 0);
                if let AllocStage::Done(p) = a.1.stage {
                    self.lemma_small_carved(turned, b, here, post, k, layout, p, base, steps);
                }
            },
        }
    }

    /// A small allocation has ended.
    pub(crate) proof fn lemma_small_ends(
        self,
        here: Self,
        a: PendingAlloc,
        base: StepCounter,
        step: StepCounter,
    )
        requires
            self.small_since(here, a, base, step),
        ensures
            a.stage matches AllocStage::Done(r) ==> self.small_done(
                here,
                Key { lane: Lane::Span, class: a.min, tid: a.tid },
                a.layout,
                r,
                base,
                step,
            ),
    {
    }

    /// Allocate on the small path: take the actions of an allocation that has
    /// just begun until it has ended.
    pub(crate) fn alloc_small(&mut self, a: &mut PendingAlloc, step: &mut StepCounter) -> (r: u64)
        requires
            old(self).wf(),
            old(self).alloc_ready(*old(a)),
            old(a).stage is Turn,
            old(a).at == 0,
            old(step).room(op_room(old(self).n())),
        ensures
            final(self).wf(),
            final(a).same_request(*old(a)),
            final(a).stage == AllocStage::Done(r),
            old(self).small_done(
                *final(self),
                old(a).key(),
                old(a).layout,
                r,
                *old(step),
                *final(step),
            ),
    {
        let ghost pre = *self;
        proof {
            pre.lemma_small_begins(*a, *step);
        }
        while !a.done()
            invariant
                pre == *old(self),
                self.wf(),
                self.n() == pre.n(),
                a.same_request(*old(a)),
                pre.small_since(*self, *a, *old(step), *step),
            decreases a.rank(pre.n()),
        {
            let ghost here = *self;
            let ghost a0 = *a;
            let ghost now = *step;
            proof {
                pre.lemma_small_room(here, a0, *old(step), now);
            }
            self.advance_alloc::<DefaultCas2Backend>(a, step);
            proof {
                pre.lemma_small_goes_on(here, *self, (a0, *a), *old(step), (now, *step));
            }
        }
        proof {
            pre.lemma_small_ends(*self, *a, *old(step), *step);
        }
        a.result()
    }

    /// Nothing is disturbed and everything kept when only the pool's counter
    /// moves on.
    pub(crate) proof fn lemma_order_same_effects(self, post: Self, t: u64)
        requires
            self.wf(),
            self.inert_but_pool(post),
            post.heaps == self.heaps,
            post.help == self.help,
            post.mem == self.mem,
            post.ledger == self.ledger,
        ensures
            self.undisturbed(post, t),
            self.keeps(post),
    {
    }

    /// A span that an acquisition gave was not in the private list that was
    /// rotated before, and its blocks are as they were.
    proof fn lemma_acquired_untouched(self, a: Self, b: Self, k: Key, s: u64)
        requires
            self.wf(),
            a.wf(),
            b.wf(),
            self.rotated(a, k),
            a.inert(b),
            a.settled(b),
            b.in_hand(s, k),
        ensures
            self.place().dom().contains(s),
            self.untouched(b, s),
            self.units()[s] == b.units()[s],
    {
        a.lemma_inert_keeps(b);
        assert(a.place().dom().contains(s));
        assert(self.place().dom().contains(s));
        self.lemma_untouched_twice(a, b, s);
    }

    /// The spans of a private list of a size class are spans of blocks of
    /// that class.
    pub(crate) proof fn lemma_listed_small(self, k: Key)
        requires
            self.wf(),
            self.valid(k),
            k.lane == Lane::Span,
        ensures
            self.lists_small(
                self.local(k).seq(),
                k,
                span_blocks(class_size(k.class as int)),
            ),
            0 <= span_blocks(class_size(k.class as int)) <= SPAN_SIZE,
            forall|j: int|
                #![trigger self.local(k).seq()[j]]
                0 <= j < self.local(k).seq().len() ==> {
                    let s = self.local(k).seq()[j];
                    &&& self.at(s, Place::Local(k))
                    &&& self.units()[s].kind is Small
                    &&& self.header(s).block_count == span_blocks(class_size(k.class as int))
                    &&& self.header(s).block_size == class_size(k.class as int)
                },
    {
        reveal(WfSpanAllocator::order_ok);
        assert(self.local_ok(k));
        assert forall|j: int|
            #![trigger self.local(k).seq()[j]]
            0 <= j < self.local(k).seq().len() implies {
            let s = self.local(k).seq()[j];
            &&& self.at(s, Place::Local(k))
            &&& self.units()[s].kind is Small
            &&& self.header(s).block_count == span_blocks(class_size(k.class as int))
            &&& self.header(s).block_size == class_size(k.class as int)
        } by {
            let s = self.local(k).seq()[j];
            assert(self.at(s, Place::Local(k)));
            assert(self.place_ok(s));
            self.lemma_free_room(s);
        }
        assert forall|x: u64| #[trigger]
            self.place().dom().contains(x) && self.place()[x] == Place::Local(
                k,
            ) implies self.units()[x].kind is Small by {
            assert(self.place_ok(x));
        }
        lemma_class_size(k.class as int);
        let bs = class_size(k.class as int) as u64;
        crate::size_class::lemma_block_size_divides(bs);
        crate::size_class::lemma_span_blocks(bs as int);
    }

    /// Rotations of the same list behind one another are a rotation.
    proof fn lemma_rotated_twice(self, mid: Self, post: Self, k: Key)
        requires
            self.wf(),
            mid.wf(),
            self.rotated(mid, k),
            mid.rotated(post, k),
        ensures
            self.rotated(post, k),
    {
        assert(forall|j: Key| #[trigger] self.valid(j) ==> mid.valid(j));
        assert forall|x: u64| #[trigger] self.place().dom().contains(x) implies {
            &&& post.header(x).size_class == self.header(x).size_class
            &&& post.header(x).block_size == self.header(x).block_size
            &&& post.header(x).block_count == self.header(x).block_count
            &&& self.place()[x] != Place::Local(k) ==> post.place()[x] == self.place()[x]
                && self.untouched(post, x)
            &&& self.place()[x] == Place::Local(k) ==> post.place()[x] == Place::Local(k)
                || post.place()[x] == Place::Held(k.tid) || (post.place()[x] is Discarded
                && post.header(x).free_blocks().len() == 0)
        } by {
            assert(mid.place().dom().contains(x));
            if self.place()[x] != Place::Local(k) {
                assert forall|b: u64| is_block(
                    x,
                    self.header(x).block_size as int,
                    b,
                ) implies #[trigger] post.mem@.links[b] == self.mem@.links[b] by {
                    assert(mid.mem@.links[b] == self.mem@.links[b]);
                }
            }
        }
    }

    /// A span of the list that is not the one rotated stays untouched.
    proof fn lemma_untouched_twice(self, here: Self, after: Self, x: u64)
        requires
            self.untouched(here, x),
            here.untouched(after, x),
        ensures
            self.untouched(after, x),
    {
        assert forall|b: u64| is_block(
            x,
            self.header(x).block_size as int,
            b,
        ) implies #[trigger] after.mem@.links[b] == self.mem@.links[b] by {
            assert(here.mem@.links[b] == self.mem@.links[b]);
        }
    }

    /// A span in a private list belongs to the thread of the list.
    proof fn lemma_local_owner(self, s: u64, k: Key)
        requires
            self.wf(),
            self.at(s, Place::Local(k)),
        ensures
            self.header(s).owner == k.tid,
    {
        reveal(WfSpanAllocator::order_ok);
        assert(self.place_ok(s));
    }

    /// A span that was passed stays so when it is not touched.
    proof fn lemma_passed_stays(self, here: Self, after: Self, x: u64)
        requires
            self.passed(here, x),
            here.untouched(after, x),
            here.header(x).block_size == self.header(x).block_size,
        ensures
            self.passed(after, x),
    {
        assert forall|b: u64| is_block(
            x,
            self.header(x).block_size as int,
            b,
        ) implies #[trigger] after.mem@.links[b] == self.mem@.links[b] by {
            assert(here.mem@.links[b] == self.mem@.links[b]);
        }
    }

    /// A span that served stays so when it is not touched.
    proof fn lemma_served_stays(self, here: Self, after: Self, x: u64)
        requires
            self.served_from(here, x),
            here.untouched(after, x),
            here.header(x).block_size == self.header(x).block_size,
        ensures
            self.served_from(after, x),
    {
        let h = self.header(x);
        assert forall|b: u64|
            is_block(x, h.block_size as int, b) && (h.local.free.seq().len() > 0
                || !self.served_list(x).contains(b)) implies #[trigger] after.mem@.links[b]
            == self.mem@.links[b] by {
            assert(here.mem@.links[b] == self.mem@.links[b]);
        }
    }

    /// A span that was untouched and then passed was passed.
    proof fn lemma_untouched_passed(self, here: Self, after: Self, x: u64)
        requires
            self.untouched(here, x),
            here.passed(after, x),
            small_span(self.mem@, x),
            here.mem@.links.dom() == self.mem@.links.dom(),
        ensures
            self.passed(after, x),
    {
        self.lemma_serve_frame(here, x);
        assert forall|b: u64| is_block(
            x,
            self.header(x).block_size as int,
            b,
        ) implies #[trigger] after.mem@.links[b] == self.mem@.links[b] by {
            assert(here.mem@.links[b] == self.mem@.links[b]);
        }
    }

    /// A span that was untouched and then served did serve.
    proof fn lemma_untouched_served(self, here: Self, after: Self, x: u64)
        requires
            self.untouched(here, x),
            here.served_from(after, x),
            small_span(self.mem@, x),
            here.mem@.links.dom() == self.mem@.links.dom(),
        ensures
            self.served_from(after, x),
    {
        self.lemma_serve_frame(here, x);
        let h = self.header(x);
        assert forall|b: u64|
            is_block(x, h.block_size as int, b) && (h.local.free.seq().len() > 0
                || !self.served_list(x).contains(b)) implies #[trigger] after.mem@.links[b]
            == self.mem@.links[b] by {
            assert(here.mem@.links[b] == self.mem@.links[b]);
        }
    }

    /// Passing a span twice is passing it once.
    proof fn lemma_passed_twice(self, here: Self, after: Self, x: u64)
        requires
            self.wf(),
            here.wf(),
            self.place().dom().contains(x),
            self.units()[x].kind is Small,
            here.mem@.links.dom() == self.mem@.links.dom(),
            self.serve_block(x) == 0,
            self.passed(here, x),
            here.passed(after, x),
        ensures
            self.passed(after, x),
    {
        broadcast use LocalFreeList::lemma_of, RemoteMpscFreeList::lemma_of;

        self.lemma_unusable(x);
        self.lemma_free_room(x);
        let links = self.mem@.links;
        let h1 = refilled(self.header(x), links);
        let g = here.header(x);
        let p = h1.local.pending@;
        let r = h1.remote.free.seq();
        crate::refill::lemma_refilled(&self.mem, x, links);
        assert forall|i: int| 0 <= i < p.len() implies here.mem@.links[#[trigger] p[i]]
            == links[p[i]] by {
            assert(h1.free_blocks()[h1.local.free.seq().len() + i] == p[i]);
            assert(h1.free_blocks().contains(p[i]));
            self.lemma_free_is_block(x, p[i]);
        }
        assert(h1.local.free.seq() =~= Seq::<u64>::empty());
        assert(p.take(0) =~= Seq::<u64>::empty());
        assert(p.skip(0) =~= p);
        assert(rev(Seq::<u64>::empty()) =~= Seq::<u64>::empty());
        assert(Seq::<u64>::empty() + Seq::<u64>::empty() =~= Seq::<u64>::empty());
        if p.len() > 0 {
            assert(here.mem@.links[p[0]] == UNLINKED);
            assert(stall(here.mem@.links, p) == 0);
        } else {
            assert(r =~= Seq::<u64>::empty());
            assert(r.take(0) =~= r);
            assert(r.skip(0) =~= r);
            assert(p =~= Seq::<u64>::empty());
        }
        assert(same_core(h1, refilled(g, here.mem@.links)));
        assert forall|b: u64| is_block(
            x,
            self.header(x).block_size as int,
            b,
        ) implies #[trigger] after.mem@.links[b] == self.mem@.links[b] by {
            assert(here.mem@.links[b] == self.mem@.links[b]);
        }
    }

    /// The steps of asking a span that was passed before.
    proof fn lemma_passed_count(self, here: Self, x: u64)
        requires
            self.wf(),
            self.place().dom().contains(x),
            self.units()[x].kind is Small,
            self.passed(here, x),
        ensures
            forall|step: StepCounter| #[trigger]
                serve_count(here.header(x), here.mem@.links, step) == serve_count(
                    refilled(self.header(x), self.mem@.links),
                    self.mem@.links,
                    step,
                ),
    {
        self.lemma_free_room(x);
        let links = self.mem@.links;
        let other = here.mem@.links;
        let h = refilled(self.header(x), links);
        crate::refill::lemma_refilled(&self.mem, x, links);
        let l = h.local.free.seq();
        let p = h.local.pending@;
        let r = h.remote.free.seq();
        let all = h.free_blocks();
        assert forall|i: int| 0 <= i < p.len() implies other[#[trigger] p[i]] == links[p[i]] by {
            assert(all[l.len() + i] == p[i]);
            assert(all.contains(p[i]));
            self.lemma_free_is_block(x, p[i]);
        }
        assert forall|i: int| 0 <= i < r.len() implies other[#[trigger] r[i]] == links[r[i]] by {
            assert(all[l.len() + p.len() + i] == r[i]);
            assert(all.contains(r[i]));
            self.lemma_free_is_block(x, r[i]);
        }
        lemma_stall(links, p);
        lemma_stall(links, r);
        crate::chain::lemma_stall_unique(other, p, stall(links, p) as int);
        crate::chain::lemma_stall_unique(other, r, stall(links, r) as int);
    }

    /// A free block of a span is one of its blocks.
    pub(crate) proof fn lemma_free_is_block(self, x: u64, b: u64)
        requires
            self.wf(),
            self.place().dom().contains(x),
            self.units()[x].kind is Small,
            self.header(x).free_blocks().contains(b),
        ensures
            is_block(x, self.header(x).block_size as int, b),
    {
        self.lemma_free_room(x);
        let all = self.header(x).free_blocks();
        let i = choose|i: int| 0 <= i < all.len() && all[i] == b;
        assert(is_block(x, self.header(x).block_size as int, all[i]));
    }

    /// What was untouched stays so when nothing is touched.
    pub(crate) proof fn lemma_untouched_all(self, mid: Self, post: Self)
        requires
            forall|x: u64| #[trigger]
                self.place().dom().contains(x) ==> mid.place().dom().contains(x),
            forall|x: u64| #[trigger]
                mid.place().dom().contains(x) ==> mid.untouched(post, x),
        ensures
            forall|x: u64| #[trigger]
                self.place().dom().contains(x) && self.untouched(mid, x) ==> self.untouched(
                    post,
                    x,
                ),
    {
        assert forall|x: u64| #[trigger]
            self.place().dom().contains(x) && self.untouched(mid, x) implies self.untouched(
            post,
            x,
        ) by {
            assert(mid.place().dom().contains(x));
            self.lemma_untouched_twice(mid, post, x);
        }
    }

    /// A span that served nothing still does after another one was rotated.
    proof fn lemma_tail_serves_nothing(
        self,
        after: Self,
        k: Key,
        items: Seq<u64>,
        s: u64,
        x: u64,
        pre: Self,
    )
        requires
            self.wf(),
            pre.rotated(self, k),
            self.rotated(after, k),
            items.contains(x),
            x != s,
            forall|j: int|
                0 <= j < items.len() ==> pre.at(#[trigger] items[j], Place::Local(k))
                    && pre.units()[items[j]].kind is Small,
            self.serve_block(x) == 0,
            forall|y: u64| #[trigger]
                self.place().dom().contains(y) && y != s && self.units()[y].kind is Small
                    ==> self.untouched(after, y),
        ensures
            after.serve_block(x) == 0,
            after.header(x).free_blocks() == self.header(x).free_blocks(),
    {
        let j = choose|j: int| 0 <= j < items.len() && items[j] == x;
        assert(pre.at(items[j], Place::Local(k)));
        assert(self.place().dom().contains(x));
        self.lemma_free_room(x);
        self.lemma_serve_frame(after, x);
    }

    /// Nothing changed is a rotation.
    proof fn lemma_rotated_same(self, k: Key)
        ensures
            self.rotated(self, k),
    {
    }

    /// Actions on blocks keep the number of blocks of a span.
    proof fn lemma_only_blocks_count(self, post: Self, s: u64)
        requires
            self.wf(),
            post.wf(),
            self.place().dom().contains(s),
            self.units()[s].kind is Small,
            self.only_blocks(post, s),
        ensures
            post.header(s).block_count == self.header(s).block_count,
    {
        self.lemma_free_room(s);
        post.lemma_free_room(s);
    }

    /// A rotation goes on when a listed span leaves its list and is put back
    /// or discarded.
    proof fn lemma_rotated_moves(self, mid: Self, post: Self, k: Key, s: u64)
        requires
            self.wf(),
            mid.wf(),
            self.rotated(mid, k),
            self.at(s, Place::Local(k)),
            mid.at(s, Place::Local(k)) || mid.at(s, Place::Held(k.tid)),
            mid.inert(post),
            mid.same_cursors(post),
            mid.same_publics(post),
            mid.same_records(post),
            mid.locals_but(post, k),
            post.place() == mid.place().insert(s, post.place()[s]),
            post.place()[s] == Place::Local(k) || post.place()[s] == Place::Held(k.tid) || (
            post.place()[s] is Discarded && post.header(s).free_blocks().len() == 0),
        ensures
            self.rotated(post, k),
            forall|x: u64| #[trigger]
                self.place().dom().contains(x) && self.untouched(mid, x) ==> self.untouched(post, x),
    {
        reveal(WfSpanAllocator::order_ok);
        assert(forall|j: Key| #[trigger] self.valid(j) ==> mid.valid(j));
        assert(post.place().dom() =~= mid.place().dom());
        assert forall|x: u64| #[trigger]
            self.place().dom().contains(x) && self.untouched(mid, x) implies self.untouched(
            post,
            x,
        ) by {
            assert(mid.place().dom().contains(x));
            assert(mid.place_ok(x));
            assert(self.place_ok(x));
            assert forall|b: u64| is_block(
                x,
                self.header(x).block_size as int,
                b,
            ) implies #[trigger] post.mem@.links[b] == self.mem@.links[b] by {
                assert(mid.mem@.links[b] == self.mem@.links[b]);
            }
        }
        assert forall|x: u64| #[trigger] self.place().dom().contains(x) implies {
            &&& post.header(x).size_class == self.header(x).size_class
            &&& post.header(x).block_size == self.header(x).block_size
            &&& post.header(x).block_count == self.header(x).block_count
            &&& self.place()[x] != Place::Local(k) ==> post.place()[x] == self.place()[x]
                && self.untouched(post, x)
            &&& self.place()[x] == Place::Local(k) ==> post.place()[x] == Place::Local(k)
                || post.place()[x] == Place::Held(k.tid) || (post.place()[x] is Discarded
                && post.header(x).free_blocks().len() == 0)
        } by {
            assert(mid.place().dom().contains(x));
            assert(mid.place_ok(x));
        }
    }

    /// The header of a span or run.
    pub(crate) fn header_of(&self, s: u64) -> (r: SpanHeader)
        requires
            self.wf(),
            self.place().dom().contains(s),
        ensures
            r == self.header(s),
    {
        proof {
            reveal(WfSpanAllocator::order_ok);
            assert(self.place_ok(s));
        }
        self.mem.header(s)
    }

    /// After a refill that gained nothing the span still serves nothing.
    proof fn lemma_no_gain(self, post: Self, s: u64)
        requires
            self.wf(),
            post.wf(),
            self.place().dom().contains(s),
            self.units()[s].kind is Small,
            self.only_blocks(post, s),
            self.header(s).local.free.seq().len() == 0,
            refill_gain(self.header(s), self.mem@.links) == 0,
            post.header(s) == refilled(self.header(s), self.mem@.links),
            post.mem@.links == self.mem@.links,
        ensures
            self.serve_block(s) == 0,
            post.serve_block(s) == 0,
            post.header(s).local.free.seq().len() == 0,
    {
        broadcast use LocalFreeList::lemma_of, RemoteMpscFreeList::lemma_of;

        self.lemma_free_room(s);
        post.lemma_free_room(s);
        let h = self.header(s);
        let p = h.local.pending@;
        let r = h.remote.free.seq();
        let links = self.mem@.links;
        let a = stall(links, p) as int;
        let b = stall(links, r) as int;
        lemma_stall(links, p);
        lemma_stall(links, r);
        assert(rev(p.take(a)).len() == a);
        assert(rev(r.take(b)).len() == b);
        assert(rev(p).len() == p.len());
        let h2 = post.header(s);
        assert(h2.local.free.seq().len() == 0);
        let p2 = h2.local.pending@;
        let r2 = h2.remote.free.seq();
        assert(p.take(0) =~= Seq::<u64>::empty());
        assert(p.skip(0) =~= p);
        assert(r.skip(0) =~= r);
        lemma_stall(links, p2);
        lemma_stall(links, r2);
        if p2.len() > 0 {
            assert(links[p2[0]] == UNLINKED);
            assert(stall(links, p2) == 0);
        }
        let a2 = stall(links, p2) as int;
        let b2 = stall(links, r2) as int;
        assert(rev(p2.take(a2)).len() == a2);
        assert(rev(r2.take(b2)).len() == b2);
        assert(rev(p2).len() == p2.len());
    }
}

/// A span in front of a private list.
proof fn lemma_small_front(s: u64, list: Seq<u64>)
    ensures
        LocalSpanList::of(cons(s, list)).seq() == seq![s] + list,
{
    broadcast use LocalSpanList::lemma_of;

    assert(seq![s] + list =~= cons(s, list));
}

/// One more event behind others.
proof fn lemma_bumped_by(counter: u64, n: nat)
    ensures
        bumped_by(counter, n + 1) == bumped(bumped_by(counter, n)),
{
}

/// A refill that gains something leaves a block to serve.
proof fn lemma_gain(h: SpanHeader, links: Map<u64, u64>)
    requires
        refill_gain(h, links) > 0,
    ensures
        refilled(h, links).local.free.seq().len() > 0,
{
    broadcast use LocalFreeList::lemma_of;

    let p = h.local.pending@;
    let r = h.remote.free.seq();
    let a = stall(links, p) as int;
    let b = stall(links, r) as int;
    lemma_stall(links, p);
    lemma_stall(links, r);
    assert(rev(p.take(a)).len() == a);
    assert(rev(r.take(b)).len() == b);
    assert(rev(p).len() == p.len());
}

/// Steps of one small allocation with `n` threads and `m` blocks per span.
pub open spec fn small_cost(base: StepCounter, now: StepCounter, n: int, m: int) -> bool {
    let dh = now.help_steps - base.help_steps;
    let dq = now.query_steps - base.query_steps;
    &&& now.grown(base, op_room(n))
    &&& dh <= n + 1
    &&& dq <= n
    &&& now.cas2_attempts - base.cas2_attempts <= dh + dq
    &&& now.cas_attempts - base.cas_attempts <= dh + dq + 1
    &&& now.blocks_scanned <= base.blocks_scanned + (LOCAL_SPAN_LIMIT_K + 2) * m
    &&& now.remote_steps == base.remote_steps
    &&& now.large_class_steps == base.large_class_steps
    &&& now.huge_slot_scans == base.huge_slot_scans
}

/// The first block of a fresh span of a class.
pub(crate) proof fn lemma_fresh_first(s: u64, class: u64)
    requires
        class < crate::config::MAX_SUPPORTED_CLASSES,
        s + SPAN_SIZE <= u64::MAX,
    ensures
        all_blocks(s, class_size(class as int)).len() > 0,
        all_blocks(s, class_size(class as int))[0] == s + first_offset(class_size(class as int)),
{
    lemma_class_size(class as int);
    let bs = class_size(class as int);
    crate::size_class::lemma_block_size_divides(bs as u64);
    crate::size_class::lemma_span_blocks(bs);
    crate::align::lemma_up(crate::config::SPAN_HEADER_RESERVE as int, bs);
    crate::span::lemma_all_blocks(s, bs as u64);
    let m = span_blocks(bs);
    assert(m >= 1) by (nonlinear_arith)
        requires
            first_offset(bs) + m * bs == SPAN_SIZE,
            first_offset(bs) < 1024 + bs,
            16 <= bs <= 16384,
    ;
}

/// The lower of two numbers.
pub open spec fn low(a: int, b: int) -> int {
    if a < b {
        a
    } else {
        b
    }
}

/// Bounds of up to `LOCAL_SPAN_LIMIT_K + 1` rotations of spans of `m` blocks.
proof fn lemma_rotate_cost(i: int, m: int)
    requires
        0 <= i <= 41,
        0 <= m <= SPAN_SIZE,
    ensures
        0 <= i * m <= (LOCAL_SPAN_LIMIT_K + 1) * m,
        (LOCAL_SPAN_LIMIT_K + 1) * m <= 41 * SPAN_SIZE,
{
    assert(0 <= i * m <= 41 * m) by (nonlinear_arith)
        requires
            0 <= i <= 41,
            0 <= m,
    ;
}

/// Steps of rotating through a private list of spans of `m` blocks.
pub open spec fn rotate_cost(base: StepCounter, now: StepCounter, m: int) -> bool {
    &&& now.grown(base, 41 * (SPAN_SIZE + 2))
    &&& now.local_steps <= base.local_steps + 2 * (LOCAL_SPAN_LIMIT_K + 1)
    &&& now.blocks_scanned <= base.blocks_scanned + (LOCAL_SPAN_LIMIT_K + 1) * m
    &&& now.swap_ops <= base.swap_ops + LOCAL_SPAN_LIMIT_K + 1
    &&& now.faa_ops <= base.faa_ops + LOCAL_SPAN_LIMIT_K + 1
    &&& now == (StepCounter {
        local_steps: now.local_steps,
        blocks_scanned: now.blocks_scanned,
        swap_ops: now.swap_ops,
        faa_ops: now.faa_ops,
        ..base
    })
}

/// Steps of serving from one span of `m` blocks.
pub open spec fn serve_cost(base: StepCounter, now: StepCounter, m: int) -> bool {
    &&& now.grown(base, SPAN_SIZE + 2)
    &&& now.local_steps <= base.local_steps + 2
    &&& now.blocks_scanned <= base.blocks_scanned + m
    &&& now.swap_ops <= base.swap_ops + 1
    &&& now.faa_ops <= base.faa_ops + 1
    &&& now == (StepCounter {
        local_steps: now.local_steps,
        blocks_scanned: now.blocks_scanned,
        swap_ops: now.swap_ops,
        faa_ops: now.faa_ops,
        ..base
    })
}

} // verus!
