//! What was freed can be had again, all of it.

use crate::acquire::{peer, same_class};
use crate::block::UNLINKED;
use crate::blocks::lemma_parts;
use crate::chain::{first, lemma_stall, rev, stall};
use crate::config::{LOCAL_SPAN_LIMIT_K, SPAN_SIZE};
use crate::large::run_class_of;
use crate::layout::Layout;
use crate::local_list::LocalFreeList;
use crate::refill::{lemma_refilled, refilled};
use crate::remote_mpsc::RemoteMpscFreeList;
use crate::size_class::{class_size, lemma_class_size, span_blocks};
use crate::small::low;
use crate::span::{all_blocks, is_block, lemma_all_blocks, span_base, SpanHeader};
use crate::state::{same_core, Key, Lane, Path, Place, WfSpanAllocator};
use vstd::prelude::*;

verus! {

/// The link of every remotely freed block of a span has landed.
pub open spec fn landed(h: SpanHeader, links: Map<u64, u64>) -> bool {
    forall|b: u64| #[trigger]
        h.free_blocks().contains(b) ==> links[b] != UNLINKED
}

/// The blocks of a local free list are linked.
proof fn lemma_local_landed(list: LocalFreeList, links: Map<u64, u64>, b: u64)
    requires
        list.wf(links),
        list.seq().contains(b),
    ensures
        links[b] != UNLINKED,
{
    let l = list.seq();
    let i = choose|i: int| 0 <= i < l.len() && l[i] == b;
    assert(links[l[i]] == crate::chain::succ(l, i));
    if i + 1 < l.len() {
        assert(l[i + 1] != UNLINKED);
    }
}

/// A refill of a span whose links have all landed absorbs all its free blocks.
pub(crate) proof fn lemma_landed_refill(h: SpanHeader, links: Map<u64, u64>)
    requires
        landed(h, links),
    ensures
        refilled(h, links).local.free.seq().len() == h.free_blocks().len(),
        refilled(h, links).local.pending@.len() == 0,
        refilled(h, links).remote.free.seq().len() == 0,
{
    broadcast use LocalFreeList::lemma_of, RemoteMpscFreeList::lemma_of;

    let l = h.local.free.seq();
    let p = h.local.pending@;
    let r = h.remote.free.seq();
    let all = h.free_blocks();
    lemma_stall(links, p);
    lemma_stall(links, r);
    let a = stall(links, p) as int;
    let b = stall(links, r) as int;
    if a < p.len() {
        assert(all[l.len() + a] == p[a]);
        assert(all.contains(p[a]));
    }
    if b < r.len() {
        assert(all[l.len() + p.len() + b] == r[b]);
        assert(all.contains(r[b]));
    }
    assert(rev(r.take(b)).len() == r.len());
    assert(rev(p).len() == p.len());
}

impl<const C: u64, const HG: u64> WfSpanAllocator<C, HG> {
    /// Blocked memory is recovered once the links have landed: a span all of
    /// whose remotely freed blocks are linked can serve every free block that
    /// it has, and serves one exactly if it has one.
    pub proof fn law_landed_blocks_are_recovered(self, s: u64)
        requires
            self.wf(),
            self.place().dom().contains(s),
            self.units()[s].kind is Small,
            landed(self.header(s), self.mem@.links),
        ensures
            self.serve_block(s) == 0 <==> self.header(s).free_blocks().len() == 0,
            refilled(self.header(s), self.mem@.links).local.free.seq().len() == self.header(
                s,
            ).free_blocks().len(),
            forall|b: u64| #[trigger]
                self.header(s).free_blocks().contains(b) ==> refilled(
                    self.header(s),
                    self.mem@.links,
                ).local.free.seq().contains(b),
    {
        self.lemma_free_room(s);
        let h = self.header(s);
        let links = self.mem@.links;
        lemma_landed_refill(h, links);
        lemma_refilled(&self.mem, s, links);
        let h2 = refilled(h, links);
        lemma_parts(h2);
        if self.served_list(s).len() > 0 {
            let b = self.served_list(s)[0];
            if h.local.free.seq().len() > 0 {
                assert(h.free_blocks()[0] == b);
                assert(h.free_blocks().contains(b));
            } else {
                assert(h2.local.free.seq().contains(b));
                assert(h2.free_blocks().contains(b));
            }
            self.lemma_free_is_block(s, b);
            self.mem.lemma_view();
            crate::span::lemma_block(&self.mem, s, h.block_size, b);
        }
        if h.local.free.seq().len() > 0 {
            assert(h.free_blocks().len() > 0);
        }
    }

    /// All links of one span stay landed, whatever an allocation did to it.
    proof fn lemma_span_stays_joined(self, post: Self, x: u64)
        requires
            self.wf(),
            post.wf(),
            self.place().dom().contains(x),
            post.place().dom().contains(x),
            self.units()[x].kind is Small,
            post.units()[x].kind is Small,
            landed(self.header(x), self.mem@.links),
            self.served_from(post, x) || self.passed(post, x) || self.untouched(post, x),
        ensures
            landed(post.header(x), post.mem@.links),
    {
        broadcast use LocalFreeList::lemma_of;

        self.lemma_free_room(x);
        post.lemma_free_room(x);
        let h = self.header(x);
        let links = self.mem@.links;
        let g = post.header(x);
        lemma_refilled(&self.mem, x, links);
        lemma_parts(h);
        lemma_parts(refilled(h, links));
        lemma_parts(g);
        assert forall|b: u64| #[trigger] g.free_blocks().contains(b) implies post.mem@.links[b]
            != UNLINKED by {
            if g.local.free.seq().contains(b) {
                lemma_local_landed(g.local.free, post.mem@.links, b);
            } else {
                assert(g.local.pending@.contains(b) || g.remote.free.seq().contains(b));
                if self.untouched(post, x) {
                    assert(h.free_blocks().contains(b));
                } else if self.passed(post, x) {
                    assert(refilled(h, links).free_blocks().contains(b));
                    assert(h.free_blocks().contains(b));
                } else {
                    let m = self.absorbed(x);
                    assert(m.free_blocks().contains(b));
                    assert(h.free_blocks().contains(b));
                    assert(!m.local.free.seq().contains(b));
                }
                self.lemma_free_is_block(x, b);
                assert(links[b] != UNLINKED);
                assert(post.mem@.links[b] == links[b]);
            }
        }
    }

    /// All links stay landed in a small allocation.
    pub(crate) proof fn lemma_small_stays_joined(self, post: Self, k: Key)
        requires
            self.wf(),
            post.wf(),
            self.joined(),
            self.valid(k),
            k.lane == Lane::Span,
            self.small_effects(post, k),
            self.keeps(post),
        ensures
            post.joined(),
    {
        reveal(WfSpanAllocator::assets_ok);
        assert forall|x: u64| #[trigger]
            post.place().dom().contains(x) && post.units()[x].kind is Small implies landed(
            post.header(x),
            post.mem@.links,
        ) by {
            if self.place().dom().contains(x) {
                assert(self.units().dom().contains(x));
                assert(landed(self.header(x), self.mem@.links));
                self.lemma_span_stays_joined(post, x);
            } else {
                assert(post.units().dom().contains(x));
                assert(!self.units().dom().contains(x) || self.units()[x].kind is Huge);
                assert(x == self.frontier() as u64);
                post.lemma_free_room(x);
                let g = post.header(x);
                lemma_parts(g);
                assert forall|b: u64| #[trigger]
                    g.free_blocks().contains(b) implies post.mem@.links[b] != UNLINKED by {
                    assert(g.local.free.seq().contains(b));
                    lemma_local_landed(g.local.free, post.mem@.links, b);
                }
            }
        }
    }

    /// All links stay landed where no block list and no link changes.
    pub(crate) proof fn lemma_cores_stay_joined(self, post: Self)
        requires
            self.wf(),
            post.wf(),
            self.joined(),
            post.mem@.links == self.mem@.links,
            forall|x: u64| #[trigger]
                self.place().dom().contains(x) ==> same_core(self.header(x), post.header(x)),
            forall|x: u64| #[trigger]
                post.place().dom().contains(x) && post.units()[x].kind is Small
                    ==> self.place().dom().contains(x) && self.units()[x].kind is Small,
        ensures
            post.joined(),
    {
        assert forall|x: u64| #[trigger]
            post.place().dom().contains(x) && post.units()[x].kind is Small implies landed(
            post.header(x),
            post.mem@.links,
        ) by {
            assert(landed(self.header(x), self.mem@.links));
            assert(post.header(x).free_blocks() == self.header(x).free_blocks());
        }
    }

    /// All links stay landed in an allocation.
    pub(crate) proof fn lemma_alloc_stays_joined(
        self,
        post: Self,
        layout: Layout,
        tid: u64,
        r: u64,
    )
        requires
            self.wf(),
            post.wf(),
            self.joined(),
            tid < self.n(),
            layout.valid(),
            self.keeps(post),
            match Self::dispatch(layout) {
                Path::Small(class) => self.small_effects(
                    post,
                    Key { lane: Lane::Span, class, tid },
                ),
                Path::Large => match run_class_of(layout) {
                    Some(min) => self.large_effects(post, tid, min as int, r),
                    None => post == self,
                },
                Path::Huge => self.huge_effects(post, layout, tid),
            },
        ensures
            post.joined(),
    {
        reveal(WfSpanAllocator::assets_ok);
        match Self::dispatch(layout) {
            Path::Small(class) => {
                self.lemma_small_stays_joined(post, Key { lane: Lane::Span, class, tid });
            },
            Path::Large => {
                if run_class_of(layout) is Some {
                    assert(forall|x: u64| #[trigger]
                        post.place().dom().contains(x) ==> post.units().dom().contains(x));
                    self.lemma_cores_stay_joined(post);
                }
            },
            Path::Huge => {
                assert(forall|x: u64| #[trigger]
                    post.place().dom().contains(x) ==> post.units().dom().contains(x));
                self.lemma_cores_stay_joined(post);
            },
        }
    }

    /// All links stay landed in a deallocation.
    pub(crate) proof fn lemma_dealloc_stays_joined(self, post: Self, p: u64, tid: u64)
        requires
            self.wf(),
            post.wf(),
            self.joined(),
            tid < self.n(),
            self.live().dom().contains(p),
            self.keeps(post),
            match Self::dispatch(self.live()[p]) {
                Path::Small(_) => self.freed_local(post, span_base(p), p, tid)
                    || self.freed_remote(post, span_base(p), p, tid),
                Path::Large => self.freed_large(post, p, tid),
                Path::Huge => self.freed_huge(post, p, tid),
            },
        ensures
            post.joined(),
    {
        reveal(WfSpanAllocator::assets_ok);
        assert(self.live_entry(p));
        match Self::dispatch(self.live()[p]) {
            Path::Small(_) => {
                let s = span_base(p);
                assert(self.place().dom().contains(s));
                self.lemma_free_room(s);
                post.lemma_free_room(s);
                let h = self.header(s);
                let g = post.header(s);
                assert(post.place().dom() =~= self.place().dom());
                let l = h.local.free.seq();
                let q = h.remote.free.seq();
                assert(first(l) != UNLINKED) by {
                    if l.len() > 0 {
                        assert(l[0] != UNLINKED);
                    }
                }
                assert(first(q) != UNLINKED) by {
                    if q.len() > 0 {
                        assert(q[0] != UNLINKED);
                    }
                }
                lemma_parts(h);
                lemma_parts(g);
                assert forall|x: u64| #[trigger] g.free_blocks().contains(x) implies x == p
                    || h.free_blocks().contains(x) by {
                    crate::chain::lemma_concat(seq![p], l);
                    crate::chain::lemma_concat(seq![p], q);
                    assert(seq![p].contains(x) ==> x == p);
                }
                self.lemma_free_stays_joined(post, s, p);
            },
            Path::Large => {
                assert(post.place().dom() =~= self.place().dom()) by {
                    assert(forall|x: u64| #[trigger]
                        post.place().dom().contains(x) <==> self.place().dom().contains(x));
                }
                self.lemma_cores_stay_joined(post);
            },
            Path::Huge => {
                self.lemma_cores_stay_joined(post);
            },
        }
    }

    /// All links stay landed when a block is freed.
    pub(crate) proof fn lemma_free_stays_joined(self, post: Self, s: u64, b: u64)
        requires
            self.wf(),
            post.wf(),
            self.joined(),
            self.place().dom().contains(s),
            self.units()[s].kind is Small,
            post.units() == self.units(),
            post.place().dom() == self.place().dom(),
            self.untouched_but(post, s),
            exists|next: u64|
                next != UNLINKED && post.mem@.links == #[trigger] self.mem@.links.insert(b, next),
            forall|x: u64| #[trigger]
                post.header(s).free_blocks().contains(x) ==> x == b || self.header(
                    s,
                ).free_blocks().contains(x),
        ensures
            post.joined(),
    {
        assert forall|x: u64| #[trigger]
            post.place().dom().contains(x) && post.units()[x].kind is Small implies landed(
            post.header(x),
            post.mem@.links,
        ) by {
            assert(landed(self.header(x), self.mem@.links));
            if x != s {
                self.lemma_span_stays_joined(post, x);
            }
        }
    }

    /// Only one thread is at work, on one class: every span is one of that
    /// class, in the thread's private list, in a public list or discarded;
    /// no request is open; and nothing below the frontier was left out.
    pub open spec fn dedicated(self, k: Key) -> bool {
        &&& self.valid(k)
        &&& k.lane == Lane::Span
        &&& forall|x: u64| #[trigger]
            self.units().dom().contains(x) ==> {
                &&& self.units()[x].kind is Small
                &&& self.header(x).size_class == k.class
                &&& match self.place()[x] {
                    Place::Local(j) => j == k,
                    Place::Public(j) => same_class(j, k),
                    Place::Discarded => true,
                    _ => false,
                }
            }
        &&& forall|j: Key| #[trigger] self.valid(j) && same_class(j, k) ==> self.word(j) == 0
        &&& forall|a: u64| #[trigger]
            self.mem@.is_span(a) && a < self.frontier() ==> self.units().dom().contains(a)
    }

    /// Every span of the private list but the first has a free block.
    pub open spec fn brisk(self, k: Key) -> bool {
        forall|j: int|
            1 <= j < self.local(k).seq().len() ==> self.header(
                #[trigger] self.local(k).seq()[j],
            ).free_blocks().len() > 0
    }

    /// Number of blocks of a class that the region holds.
    pub open spec fn capacity(self, class: u64) -> nat {
        (self.pool.count * span_blocks(class_size(class as int))) as nat
    }

    /// What holds between two operations of a thread that is alone at work.
    pub open spec fn alone(self, k: Key) -> bool {
        &&& self.wf()
        &&& self.tidy()
        &&& self.joined()
        &&& self.dedicated(k)
    }

    /// A span of a thread that is alone at work serves a block exactly if it
    /// has a free one.
    proof fn lemma_alone_serves(self, k: Key, x: u64)
        requires
            self.alone(k),
            self.place().dom().contains(x),
        ensures
            self.units()[x].kind is Small,
            self.serve_block(x) == 0 <==> self.header(x).free_blocks().len() == 0,
    {
        reveal(WfSpanAllocator::assets_ok);
        assert(self.units().dom().contains(x));
        assert(landed(self.header(x), self.mem@.links));
        self.law_landed_blocks_are_recovered(x);
    }

    /// Where the turns of a brisk list can end.
    proof fn lemma_brisk_scan(self, k: Key)
        requires
            self.alone(k),
            self.brisk(k),
        ensures
            ({
                let items = self.local(k).seq();
                let i = self.scan(items, 0, LOCAL_SPAN_LIMIT_K + 1);
                let t = self.turn(items, LOCAL_SPAN_LIMIT_K + 1);
                &&& i == 0 || i == 1 || i == LOCAL_SPAN_LIMIT_K + 1
                &&& i <= 1 ==> i < items.len() && t.list == items.skip(i) && self.serve_block(
                    items[i],
                ) != 0
                &&& i > LOCAL_SPAN_LIMIT_K ==> items.len() <= 1 && t.list.len() == 0
                &&& i > LOCAL_SPAN_LIMIT_K && items.len() == 1 ==> self.header(
                    items[0],
                ).free_blocks().len() == 0
                &&& i == 1 || i > LOCAL_SPAN_LIMIT_K ==> t.out == items.take(low(
                    i,
                    items.len() as int,
                ))
                &&& i == 0 ==> t.out.len() == 0
            }),
    {
        reveal(WfSpanAllocator::order_ok);
        assert(self.local_ok(k));
        let items = self.local(k).seq();
        let n = LOCAL_SPAN_LIMIT_K + 1;
        assert(self.scan(items, 0, n) == (if items.len() == 0 {
            n
        } else if self.serve_block(items[0]) != 0 {
            0
        } else {
            self.scan(items, 1, n)
        }));
        if items.len() > 0 {
            assert(self.at(items[0], Place::Local(k)));
            self.lemma_alone_serves(k, items[0]);
            let rest = items.drop_first();
            if items.len() > 1 {
                assert(self.at(items[1], Place::Local(k)));
                self.lemma_alone_serves(k, items[1]);
                assert(self.scan(items, 1, n) == 1);
                assert(rest[0] == items[1]);
            } else {
                assert(self.scan(items, 1, n) == n);
            }
            assert(self.turn(rest, n - 1).list == rest);
            assert(self.turn(rest, n - 1).out =~= Seq::<u64>::empty());
            assert(rest =~= items.skip(1));
            assert(items.skip(0) =~= items);
            assert(crate::chain::cons(items[0], Seq::<u64>::empty()) =~= items.take(1));
        } else {
            assert(items.take(0) =~= Seq::<u64>::empty());
        }
    }

    /// What an acquisition gives a thread that is alone at work: a full span,
    /// or nothing where all public lists are empty.
    proof fn lemma_alone_acquires(self, k: Key)
        requires
            self.alone(k),
        ensures
            ({
                let o = self.acquisition(k);
                &&& o.result == 0 ==> forall|j: Key| #[trigger]
                    self.valid(j) && same_class(j, k) ==> self.public(j).seq().len() == 0
                &&& o.result != 0 ==> {
                    &&& self.place().dom().contains(o.result)
                    &&& self.place()[o.result] is Public
                    &&& self.serve_block(o.result) != 0
                }
                &&& forall|u: int| 0 <= u < self.n() ==> #[trigger] o.board.words[u] == 0
                &&& forall|u: int, x: u64|
                    0 <= u < self.n() && #[trigger] self.board(k).lists[u].contains(x) && x
                        != o.result ==> o.board.lists[u].contains(x)
            }),
    {
        let b = self.board(k);
        let n = self.n();
        let t = k.tid as int;
        let q = self.query(k) as int % n;
        let h = self.helping(k) as int % n;
        let o = self.acquisition(k);
        assert forall|u: int| 0 <= u < n implies #[trigger] b.words[u] == 0 by {
            assert(self.valid(peer(k, u)));
        }
        assert(b.words[t] == 0);
        assert(0 <= h < n);
        crate::protocol::lemma_next_full(b.lists, q, 0, n);
        let e = crate::protocol::next_full(b.lists, q, 0, n);
        if o.result == 0 {
            self.lemma_board_proper(k);
            if e < n {
                let u = (q + e) % n;
                assert(crate::help_record::completed(b.lists[u][0]));
            }
            assert forall|j: Key| #[trigger]
                self.valid(j) && same_class(j, k) implies self.public(j).seq().len() == 0 by {
                crate::protocol::lemma_all_empty(b.lists, q, n, j.tid as int);
                assert(peer(k, j.tid as int) == j);
            }
        } else {
            self.lemma_acquisition_is_span(k);
            reveal(WfSpanAllocator::assets_ok);
            let x = o.result;
            assert(self.units().dom().contains(x));
            self.lemma_alone_serves(k, x);
            self.lemma_free_room(x);
            lemma_class_size(k.class as int);
            crate::size_class::lemma_some_blocks(k.class as int);
        }
        assert forall|u: int, x: u64|
            0 <= u < n && #[trigger] b.lists[u].contains(x) && x
                != o.result implies o.board.lists[u].contains(x) by {
            let l = b.lists[u];
            let i = choose|i: int| 0 <= i < l.len() && l[i] == x;
            if e < n && u == (q + e) % n {
                assert(l.drop_first()[i - 1] == x);
            }
        }
    }

    /// A thread that is alone at work stays so in an allocation of its class,
    /// and its list stays brisk.
    pub proof fn law_alone_allocates(self, post: Self, k: Key, layout: Layout, r: u64)
        requires
            self.alone(k),
            self.brisk(k),
            post.wf(),
            layout.valid(),
            Self::dispatch(layout) == Path::Small(k.class),
            self.allocated(post, layout, k.tid, r),
        ensures
            post.alone(k),
            post.brisk(k),
    {
        let key = Key { lane: Lane::Span, class: k.class, tid: k.tid };
        assert(key == k);
        let items = self.local(k).seq();
        let i = self.scan(items, 0, LOCAL_SPAN_LIMIT_K + 1);
        let t = self.turn(items, LOCAL_SPAN_LIMIT_K + 1);
        self.lemma_brisk_scan(k);
        self.lemma_alone_acquires(k);
        let asks = i > LOCAL_SPAN_LIMIT_K;
        let got = if asks {
            self.acquisition(k).result
        } else {
            0
        };
        let fresh = asks && got == 0 && self.pool.next < self.pool.count;
        let f = self.frontier() as u64;
        reveal(WfSpanAllocator::order_ok);
        reveal(WfSpanAllocator::assets_ok);
        if fresh {
            self.lemma_frontier(1);
        }
        assert(self.local_ok(k));
        // The list stays brisk.
        let list = post.local(k).seq();
        assert forall|j: int| 1 <= j < list.len() implies post.header(
            #[trigger] list[j],
        ).free_blocks().len() > 0 by {
            if asks {
                assert(list.len() <= 1);
            } else {
                assert(list =~= items.skip(i));
                let x = items[i + j];
                assert(list[j] == x);
                assert(self.at(items[i + j], Place::Local(k)));
                assert(items[i + j] != items[i]);
                let spans = self.small_passed(k);
                if spans.contains(x) {
                    let w = choose|w: int| 0 <= w < spans.len() && spans[w] == x;
                    assert(items[w] == items[i + j]);
                }
                assert(self.untouched(post, x));
                assert(post.header(x).free_blocks() == self.header(x).free_blocks());
            }
        }
        // The spans are where they may be.
        assert forall|x: u64| #[trigger] post.units().dom().contains(x) implies {
            &&& post.units()[x].kind is Small
            &&& post.header(x).size_class == k.class
            &&& match post.place()[x] {
                Place::Local(j) => j == k,
                Place::Public(j) => same_class(j, k),
                Place::Discarded => true,
                _ => false,
            }
        } by {
            if fresh && x == f {
            } else {
                assert(self.units().dom().contains(x));
                assert(self.place().dom().contains(x));
                if !t.out.contains(x) && !(got != 0 && x == got) {
                    if let Place::Public(j) = self.place()[x] {
                        assert(self.place_ok(x));
                        assert(self.valid(j) && post.valid(j));
                        assert(peer(k, j.tid as int) == j);
                        if asks {
                            assert(self.board(k).lists[j.tid as int].contains(x));
                            assert(post.board(k).lists[j.tid as int].contains(x));
                        }
                        assert(post.public(j).seq().contains(x));
                        post.lemma_member(x, j);
                    }
                }
            }
        }
        assert forall|j: Key| #[trigger]
            post.valid(j) && same_class(j, k) implies post.word(j) == 0 by {
            assert(self.valid(j));
            assert(peer(k, j.tid as int) == j);
            if asks {
                assert(post.board(k).words[j.tid as int] == 0);
            }
        }
        assert forall|a: u64| #[trigger]
            post.mem@.is_span(a) && a < post.frontier() implies post.units().dom().contains(a) by {
            assert(self.mem@.is_span(a));
            if a >= self.frontier() {
                self.lemma_next_span(post, a);
            }
        }
    }

    /// Between the frontier and the next span there is no other.
    proof fn lemma_next_span(self, post: Self, a: u64)
        requires
            self.wf(),
            post.wf(),
            post.pool.base == self.pool.base,
            post.pool.count == self.pool.count,
            self.pool.used() <= post.pool.used() <= self.pool.used() + 1,
            self.mem@.is_span(a),
            self.frontier() <= a < post.frontier(),
        ensures
            a == self.frontier(),
            self.pool.next < self.pool.count,
            post.pool.used() == self.pool.used() + 1,
    {
        let u = self.pool.used() as int;
        let d = a - self.pool.base;
        let q = d / (SPAN_SIZE as int);
        assert(d == q * SPAN_SIZE);
        assert((u + 1) * SPAN_SIZE == u * SPAN_SIZE + SPAN_SIZE) by (nonlinear_arith);
        assert(q == u) by (nonlinear_arith)
            requires
                u * 65536 <= q * 65536,
                q * 65536 < (u + 1) * 65536,
        ;
    }

    /// A thread that is alone at work stays so when it frees a block.
    pub proof fn law_alone_frees(self, post: Self, k: Key, p: u64)
        requires
            self.alone(k),
            post.wf(),
            self.live().dom().contains(p),
            self.deallocated(post, p, k.tid),
        ensures
            post.alone(k),
            post.live() == self.live().remove(p),
    {
        reveal(WfSpanAllocator::order_ok);
        reveal(WfSpanAllocator::assets_ok);
        let s = self.lemma_alone_live(k, p);
        assert(self.place().dom().contains(s));
        assert(self.units().dom().contains(s));
        let key = self.span_key(s, k.tid);
        assert(key == k);
        assert forall|x: u64| #[trigger] post.units().dom().contains(x) implies {
            &&& post.units()[x].kind is Small
            &&& post.header(x).size_class == k.class
            &&& match post.place()[x] {
                Place::Local(j) => j == k,
                Place::Public(j) => same_class(j, k),
                Place::Discarded => true,
                _ => false,
            }
        } by {
            assert(self.units().dom().contains(x));
            assert(self.place().dom().contains(x));
        }
        assert forall|j: Key| #[trigger]
            post.valid(j) && same_class(j, k) implies post.word(j) == 0 by {
            assert(self.valid(j));
        }
        assert(forall|a: u64| #[trigger]
            post.mem@.is_span(a) ==> self.mem@.is_span(a));
    }

    /// What is live while a thread is alone at work is a block of its class.
    proof fn lemma_alone_live(self, k: Key, p: u64) -> (s: u64)
        requires
            self.alone(k),
            self.live().dom().contains(p),
        ensures
            s == span_base(p),
            Self::dispatch(self.live()[p]) == Path::Small(k.class),
            self.place().dom().contains(s),
            self.units().dom().contains(s),
            is_block(s, class_size(k.class as int), p),
    {
        reveal(WfSpanAllocator::assets_ok);
        reveal(WfSpanAllocator::order_ok);
        assert(self.live_entry(p));
        match Self::dispatch(self.live()[p]) {
            Path::Small(_) => {},
            Path::Large => {
                let r = self.run_of(p);
                assert(self.at(r, Place::Live(p)));
                assert(self.units().dom().contains(r));
            },
            Path::Huge => {
                let (c, j) = self.lemma_slot_of(p);
                assert(self.slot_ok(c, j));
                assert(self.units().dom().contains(self.slot(c, j).base));
            },
        }
        span_base(p)
    }

    /// The list of a thread that is alone at work is brisk where nothing is
    /// live: at the start, and after everything was freed.
    pub proof fn law_alone_with_nothing_live_is_brisk(self, k: Key)
        requires
            self.alone(k),
            self.live() == Map::<u64, Layout>::empty(),
        ensures
            self.brisk(k),
    {
        reveal(WfSpanAllocator::order_ok);
        reveal(WfSpanAllocator::assets_ok);
        assert(self.local_ok(k));
        let items = self.local(k).seq();
        assert forall|j: int| 1 <= j < items.len() implies self.header(
            #[trigger] items[j],
        ).free_blocks().len() > 0 by {
            let x = items[j];
            assert(self.at(items[j], Place::Local(k)));
            assert(self.units().dom().contains(x));
            self.lemma_free_room(x);
            self.mem.lemma_view();
            let bs = class_size(k.class as int);
            lemma_class_size(k.class as int);
            crate::size_class::lemma_some_blocks(k.class as int);
            lemma_all_blocks(x, bs as u64);
            let b = all_blocks(x, bs)[0];
            assert(is_block(x, bs, b));
            assert(self.block_ok(x, b));
            assert(self.header(x).free_blocks().contains(b));
        }
    }

    /// A fresh allocator leaves its region to the first thread and class that
    /// use it.
    pub proof fn law_starts_alone(self, k: Key)
        requires
            self.wf(),
            self.started_empty(),
            self.place() == Map::<u64, Place>::empty(),
            self.units() == Map::<u64, crate::state::Unit>::empty(),
            self.pool.next == 0,
            self.valid(k),
            k.lane == Lane::Span,
        ensures
            self.alone(k),
            self.brisk(k),
    {
        self.law_starts_tidy();
        assert forall|a: u64| #[trigger]
            self.mem@.is_span(a) && a < self.frontier() implies self.units().dom().contains(a) by {
        }
    }

    /// The blocks of the first `i` spans of the region.
    pub open spec fn region_blocks(self, class: u64, i: int) -> Set<u64>
        decreases i,
    {
        if i <= 0 {
            Set::empty()
        } else {
            self.region_blocks(class, i - 1) + all_blocks(
                (self.pool.base + (i - 1) * SPAN_SIZE) as u64,
                class_size(class as int),
            ).to_set()
        }
    }

    /// How many blocks the first `i` spans have, and which.
    proof fn lemma_region_blocks(self, class: u64, i: int)
        requires
            self.wf(),
            class < C,
            0 <= i <= self.pool.count,
        ensures
            self.region_blocks(class, i).finite(),
            self.region_blocks(class, i).len() == i * span_blocks(class_size(class as int)),
            forall|b: u64| #[trigger]
                self.region_blocks(class, i).contains(b) ==> b < self.pool.base + i * SPAN_SIZE,
            forall|b: u64, s: u64|
                #![trigger is_block(s, class_size(class as int), b)]
                self.mem@.is_span(s) && s < self.pool.base + i * SPAN_SIZE && is_block(
                    s,
                    class_size(class as int),
                    b,
                ) ==> self.region_blocks(class, i).contains(b),
            forall|b: u64| #[trigger]
                self.region_blocks(class, i).contains(b) ==> exists|s: u64|
                    self.mem@.is_span(s) && s < self.pool.base + i * SPAN_SIZE && #[trigger] is_block(
                        s,
                        class_size(class as int),
                        b,
                    ),
        decreases i,
    {
        let bs = class_size(class as int);
        let m = span_blocks(bs);
        lemma_class_size(class as int);
        self.mem.lemma_view();
        assert(i * SPAN_SIZE <= self.pool.count * SPAN_SIZE) by (nonlinear_arith)
            requires
                i <= self.pool.count,
        ;
        crate::size_class::lemma_some_blocks(class as int);
        if i == 0 {
            assert(i * m == 0) by (nonlinear_arith)
                requires
                    i == 0,
            ;
        }
        if i > 0 {
            self.lemma_region_blocks(class, i - 1);
            assert(i * SPAN_SIZE == (i - 1) * SPAN_SIZE + SPAN_SIZE) by (nonlinear_arith);
            assert(0 <= (i - 1) * SPAN_SIZE) by (nonlinear_arith)
                requires
                    i > 0,
            ;
            assert(i * m == (i - 1) * m + m) by (nonlinear_arith);
            let s = (self.pool.base + (i - 1) * SPAN_SIZE) as u64;
            let all = all_blocks(s, bs);
            lemma_all_blocks(s, bs as u64);
            all.unique_seq_to_set();
            vstd::seq_lib::seq_to_set_is_finite(all);
            let before = self.region_blocks(class, i - 1);
            assert((i - 1) * SPAN_SIZE % (SPAN_SIZE as int) == 0) by (nonlinear_arith);
            assert(self.mem@.is_span(s));
            assert forall|b: u64| #[trigger] all.to_set().contains(b) implies is_block(s, bs, b) by {
                let w = choose|w: int| 0 <= w < all.len() && all[w] == b;
                assert(is_block(s, bs, all[w]));
            }
            crate::align::lemma_up(crate::config::SPAN_HEADER_RESERVE as int, bs);
            assert(before.disjoint(all.to_set())) by {
                assert forall|b: u64| #[trigger] before.contains(b) implies !all.to_set().contains(
                    b,
                ) by {
                    if all.to_set().contains(b) {
                        assert(is_block(s, bs, b));
                    }
                }
            }
            vstd::set_lib::lemma_set_disjoint_lens(before, all.to_set());
            assert forall|b: u64, x: u64|
                #![trigger is_block(x, bs, b)]
                self.mem@.is_span(x) && x < self.pool.base + i * SPAN_SIZE && is_block(
                    x,
                    bs,
                    b,
                ) implies self.region_blocks(class, i).contains(b) by {
                if x >= s {
                    let q = (x - self.pool.base) / (SPAN_SIZE as int);
                    assert(x - self.pool.base == q * SPAN_SIZE);
                    assert(q == i - 1) by (nonlinear_arith)
                        requires
                            (i - 1) * 65536 <= q * 65536,
                            q * 65536 < i * 65536,
                    ;
                    assert(x == s);
                    assert(all.contains(b));
                }
            }
            assert forall|b: u64| #[trigger]
                self.region_blocks(class, i).contains(b) implies exists|x: u64|
                self.mem@.is_span(x) && x < self.pool.base + i * SPAN_SIZE && #[trigger] is_block(
                    x,
                    bs,
                    b,
                ) by {
                if all.to_set().contains(b) {
                    assert(is_block(s, bs, b));
                } else {
                    let x = choose|x: u64|
                        self.mem@.is_span(x) && x < self.pool.base + (i - 1) * SPAN_SIZE
                            && #[trigger] is_block(x, bs, b);
                    assert(is_block(x, bs, b));
                }
            }
        }
    }

    /// No more blocks are live than the region holds.
    proof fn lemma_alone_room(self, k: Key)
        requires
            self.alone(k),
        ensures
            self.live().dom().finite(),
            self.live().dom().len() <= self.capacity(k.class),
            self.live().dom().subset_of(self.region_blocks(k.class, self.pool.count as int)),
            self.region_blocks(k.class, self.pool.count as int).finite(),
            self.region_blocks(k.class, self.pool.count as int).len() == self.capacity(k.class),
    {
        let all = self.region_blocks(k.class, self.pool.count as int);
        self.lemma_region_blocks(k.class, self.pool.count as int);
        crate::size_class::lemma_some_blocks(k.class as int);
        assert(self.pool.count * span_blocks(class_size(k.class as int)) >= 0) by (nonlinear_arith)
            requires
                span_blocks(class_size(k.class as int)) >= 1,
        ;
        assert forall|p: u64| #[trigger] self.live().dom().contains(p) implies all.contains(p) by {
            let s = self.lemma_alone_live(k, p);
            reveal(WfSpanAllocator::assets_ok);
            self.mem.lemma_view();
            assert(self.mem@.is_span(s));
            assert(is_block(s, class_size(k.class as int), p));
        }
        vstd::set_lib::lemma_len_subset(self.live().dom(), all);
    }

    /// An allocation of a thread that is alone at work fails exactly if all
    /// blocks of the region are live: none was lost.
    pub proof fn law_capacity_never_shrinks(self, post: Self, k: Key, layout: Layout, r: u64)
        requires
            self.alone(k),
            self.brisk(k),
            post.wf(),
            layout.valid(),
            Self::dispatch(layout) == Path::Small(k.class),
            self.allocated(post, layout, k.tid, r),
        ensures
            self.live().dom().finite(),
            r == 0 <==> self.live().dom().len() == self.capacity(k.class),
            r != 0 ==> post.live().dom().len() == self.live().dom().len() + 1,
    {
        let all = self.region_blocks(k.class, self.pool.count as int);
        self.lemma_alone_room(k);
        self.law_alone_allocates(post, k, layout, r);
        post.lemma_alone_room(k);
        if r != 0 {
            assert(post.live().dom() =~= self.live().dom().insert(r));
        } else {
            self.law_failure_means_exhaustion(layout, k.tid);
            self.lemma_brisk_scan(k);
            self.lemma_alone_acquires(k);
            let key = Key { lane: Lane::Span, class: k.class, tid: k.tid };
            assert(key == k);
            let items = self.local(k).seq();
            assert(self.small_result(k) == 0);
            assert(self.scan(items, 0, LOCAL_SPAN_LIMIT_K + 1) > LOCAL_SPAN_LIMIT_K);
            assert(self.acquisition(k).result == 0);
            reveal(WfSpanAllocator::order_ok);
            reveal(WfSpanAllocator::assets_ok);
            self.lemma_region_blocks(k.class, self.pool.count as int);
            assert forall|b: u64| #[trigger] all.contains(b) implies self.live().dom().contains(
                b,
            ) by {
                let x = choose|x: u64|
                    self.mem@.is_span(x) && x < self.pool.base + self.pool.count * SPAN_SIZE
                        && #[trigger] is_block(x, class_size(k.class as int), b);
                assert(self.mem@.is_span(x));
                assert(self.units().dom().contains(x));
                assert(self.place().dom().contains(x));
                assert(self.place_ok(x));
                self.lemma_free_room(x);
                match self.place()[x] {
                    Place::Local(j) => {
                        let w = choose|w: int| 0 <= w < items.len() && items[w] == x;
                        assert(w == 0);
                    },
                    Place::Public(j) => {
                        assert(self.public(j).seq().contains(x));
                    },
                    _ => {},
                }
                assert(self.header(x).free_blocks().len() == 0);
                assert(self.block_ok(x, b));
            }
            assert(self.live().dom() =~= all);
        }
    }

    /// After everything was freed, as many allocations succeed as before: of
    /// successive allocations of a thread that is alone at work, from a state
    /// with nothing live on, exactly as many succeed as the region has
    /// blocks.
    pub proof fn law_as_many_allocations_as_before(
        states: Seq<Self>,
        results: Seq<u64>,
        k: Key,
        layout: Layout,
        i: int,
    )
        requires
            states.len() == results.len() + 1,
            states[0].alone(k),
            states[0].live() == Map::<u64, Layout>::empty(),
            layout.valid(),
            Self::dispatch(layout) == Path::Small(k.class),
            forall|j: int|
                0 <= j < results.len() ==> {
                    &&& (#[trigger] states[j]).allocated(
                        states[j + 1],
                        layout,
                        k.tid,
                        results[j],
                    )
                    &&& states[j + 1].wf()
                },
            0 <= i < results.len(),
        ensures
            results[i] != 0 <==> i < states[0].capacity(k.class),
    {
        Self::lemma_round(states, results, k, layout, i);
        states[i].law_capacity_never_shrinks(states[i + 1], k, layout, results[i]);
    }

    /// How many blocks are live after `i` allocations.
    proof fn lemma_round(
        states: Seq<Self>,
        results: Seq<u64>,
        k: Key,
        layout: Layout,
        i: int,
    )
        requires
            states.len() == results.len() + 1,
            states[0].alone(k),
            states[0].live() == Map::<u64, Layout>::empty(),
            layout.valid(),
            Self::dispatch(layout) == Path::Small(k.class),
            forall|j: int|
                0 <= j < results.len() ==> {
                    &&& (#[trigger] states[j]).allocated(
                        states[j + 1],
                        layout,
                        k.tid,
                        results[j],
                    )
                    &&& states[j + 1].wf()
                },
            0 <= i < states.len(),
        ensures
            states[i].alone(k),
            states[i].brisk(k),
            states[i].capacity(k.class) == states[0].capacity(k.class),
            states[i].live().dom().len() == low(i, states[0].capacity(k.class) as int),
        decreases i,
    {
        if i == 0 {
            states[0].law_alone_with_nothing_live_is_brisk(k);
            states[0].lemma_alone_room(k);
            assert(states[0].live().dom() =~= Set::<u64>::empty());
        } else {
            Self::lemma_round(states, results, k, layout, i - 1);
            let a = states[i - 1];
            assert(a.allocated(states[i], layout, k.tid, results[i - 1]));
            assert(states[(i - 1) + 1].wf());
            a.law_alone_allocates(states[i], k, layout, results[i - 1]);
            a.law_capacity_never_shrinks(states[i], k, layout, results[i - 1]);
        }
    }
}

} // verus!
