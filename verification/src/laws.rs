//! Properties of the allocator as a whole.

use crate::acquire::{loose, peer, same_class};
use crate::block::UNLINKED;
use crate::chain::{blocks, cons, first, half_linked, linked, rev, stall, succ};
use crate::config::{
    HELP_BUDGET_H, LARGE_LOCAL_RUN_LIMIT_K, LOCAL_SPAN_LIMIT_K, MAX_HUGE_RUNS_PER_CLASS,
    MAX_HUGE_RUN_CLASSES, MAX_LARGE_RUN_CLASSES, OWNER_NONE, OWNER_PUBLIC, SPAN_SIZE,
};
use crate::help_record::{completed, pending, pending_word};
use crate::huge::{
    huge_class_of, huge_payload, huge_slack, lemma_huge_class, HUGE_SLOT_EMPTY, HUGE_SLOT_FREE,
};
use crate::large::{
    hidden_header, large_cost, large_need, large_payload, lemma_large_payload, lemma_run_class,
    run_class_of, run_key, LARGE_HEADER_SIZE,
};
use crate::layout::Layout;
use crate::local_list::LocalFreeList;
use crate::memory::{LargeSlot, MemView};
use crate::pagemap::FixedSpanPool;
use crate::protocol::{lemma_next_full, lemma_next_pos, next_full, Acquisition};
use crate::remote_mpsc::RemoteMpscFreeList;
use crate::size_class::{class_size, first_offset, lemma_class_for, lemma_class_size, span_blocks};
use crate::span::{is_block, span_base, SpanState};
use crate::spmc_span_list::{next_version, SpmcSpanList};
use crate::state::{Home, Key, Lane, Path, Place, WfSpanAllocator};
use crate::stats::StepCounter;
use vstd::arithmetic::power2::{lemma_pow2_pos, lemma_pow2_strictly_increases, pow2};
use vstd::prelude::*;

verus! {

impl<const C: u64, const HG: u64> WfSpanAllocator<C, HG> {
    /// No two live allocations overlap.
    pub proof fn law_live_allocations_are_disjoint(self, p: u64, q: u64)
        requires
            self.wf(),
            self.live().dom().contains(p),
            self.live().dom().contains(q),
            p < q,
        ensures
            p + self.live()[p].size <= q,
    {
        self.lemma_live_in_unit(p);
        self.lemma_live_in_unit(q);
        let u = self.unit_of(p);
        let v = self.unit_of(q);
        if u != v {
            reveal(WfSpanAllocator::assets_ok);
            if u < v {
                assert(u + self.units()[u].spans * SPAN_SIZE <= v);
            } else {
                assert(v + self.units()[v].spans * SPAN_SIZE <= u);
            }
        } else {
            match Self::dispatch(self.live()[p]) {
                Path::Small(c) => {
                    reveal(WfSpanAllocator::assets_ok);
                    assert(self.live_entry(p));
                    assert(self.live_entry(q));
                    assert(self.place().dom().contains(u));
                    self.lemma_free_room(u);
                    let bs = class_size(c as int);
                    lemma_class_size(c as int);
                    lemma_class_for(self.live()[p].size as int, self.live()[p].align as int);
                    assert((p - u) % bs == 0);
                    assert((q - u) % bs == 0);
                    let x = (p - u) / bs;
                    let y = (q - u) / bs;
                    vstd::arithmetic::div_mod::lemma_fundamental_div_mod(p - u, bs);
                    vstd::arithmetic::div_mod::lemma_fundamental_div_mod(q - u, bs);
                    assert(x < y) by (nonlinear_arith)
                        requires
                            p - u == bs * x,
                            q - u == bs * y,
                            p < q,
                            bs > 0,
                    ;
                    assert(bs * x + bs <= bs * y) by (nonlinear_arith)
                        requires
                            x < y,
                            bs > 0,
                    ;
                },
                Path::Large => {
                    self.lemma_live_run_single(u, p, q);
                },
                Path::Huge => {
                    let (c, k) = self.lemma_slot_of(p);
                    let (d, j) = self.lemma_slot_of(q);
                    reveal(WfSpanAllocator::assets_ok);
                    assert(self.slots_distinct());
                    self.lemma_huge_unit(c, u);
                    assert(c == d && k == j);
                },
            }
        }
    }

    /// Every live allocation is aligned as requested and lies in the region.
    pub proof fn law_live_allocations_are_placed(self, p: u64)
        requires
            self.wf(),
            self.live().dom().contains(p),
        ensures
            p != 0,
            p % self.live()[p].align == 0,
            self.pool.base <= p,
            p + self.live()[p].size <= self.pool.base + self.pool.count * SPAN_SIZE,
    {
        self.lemma_live_bounds(p);
        reveal(WfSpanAllocator::assets_ok);
        assert(self.live_entry(p));
    }

    /// Every block of a span of blocks is live or free, and not both; a free
    /// block is in exactly one of the local list, the stashed chain and the
    /// remote list.
    pub proof fn law_block_is_live_or_free_once(self, s: u64, b: u64)
        requires
            self.wf(),
            self.place().dom().contains(s),
            self.units()[s].kind is Small,
            is_block(s, self.header(s).block_size as int, b),
        ensures
            ({
                let h = self.header(s);
                let local = h.local.free.seq().contains(b);
                let stashed = h.local.pending@.contains(b);
                let remote = h.remote.free.seq().contains(b);
                &&& self.live().dom().contains(b) <==> !(local || stashed || remote)
                &&& !(local && stashed)
                &&& !(local && remote)
                &&& !(stashed && remote)
            }),
    {
        self.lemma_free_room(s);
        assert(self.block_ok(s, b)) by {
            reveal(WfSpanAllocator::assets_ok);
        }
        crate::blocks::lemma_parts(self.header(s));
        assert(self.header(s).free_blocks().contains(b) <==> self.header(s).local.free.seq().contains(
            b,
        ) || self.header(s).local.pending@.contains(b) || self.header(s).remote.free.seq().contains(
            b,
        ));
    }

    /// The free counts of a span agree with its lists, and together with no
    /// more than the blocks of the span.
    pub proof fn law_free_counts(self, s: u64)
        requires
            self.wf(),
            self.place().dom().contains(s),
            self.units()[s].kind is Small,
        ensures
            ({
                let h = self.header(s);
                &&& h.local.free_count == h.local.free.seq().len()
                &&& h.remote.free_count == h.remote.free.seq().len() + h.local.pending@.len()
                &&& 0 <= h.remote.free_count
                &&& h.local.free_count + h.remote.free_count <= h.block_count
                &&& h.block_count == span_blocks(class_size(h.size_class as int))
            }),
    {
        self.lemma_free_room(s);
    }

    /// A span or run is in at most one list or record, and in no other than
    /// those of its own class.
    pub proof fn law_span_is_in_one_place(self, s: u64, j: Key, k: Key)
        requires
            self.wf(),
            self.valid(j),
            self.valid(k),
        ensures
            self.local(j).seq().contains(s) && self.local(k).seq().contains(s) ==> j == k,
            self.public(j).seq().contains(s) && self.public(k).seq().contains(s) ==> j == k,
            s != 0 && self.word(j) == s && self.word(k) == s && s % 2 == 0 ==> j == k,
            !(self.local(j).seq().contains(s) && self.public(k).seq().contains(s)),
            !(self.local(j).seq().contains(s) && self.word(k) == s),
            !(self.public(j).seq().contains(s) && self.word(k) == s),
            self.local(k).seq().contains(s) || self.public(k).seq().contains(s) ==> self.header(
                s,
            ).size_class == k.class,
    {
        reveal(WfSpanAllocator::order_ok);
        self.lemma_member(s, j);
        self.lemma_member(s, k);
    }

    /// Membership in a list says where a span is.
    pub(crate) proof fn lemma_member(self, s: u64, k: Key)
        requires
            self.wf(),
            self.valid(k),
        ensures
            self.local(k).seq().contains(s) ==> self.at(s, Place::Local(k)) && s != 0 && s % 2 == 0
                && self.header(s).size_class == k.class,
            self.public(k).seq().contains(s) ==> self.at(s, Place::Public(k)) && s != 0 && s % 2
                == 0 && self.header(s).size_class == k.class,
            self.word(k) == s && s != 0 && s % 2 == 0 ==> self.at(s, Place::Record(k)),
    {
        reveal(WfSpanAllocator::order_ok);
        assert(self.local_ok(k) && self.public_ok(k) && self.record_ok(k));
        if self.local(k).seq().contains(s) {
            let l = self.local(k).seq();
            let i = choose|i: int| 0 <= i < l.len() && l[i] == s;
            assert(self.at(l[i], Place::Local(k)));
            assert(self.place_ok(s));
            self.lemma_span_address(s);
        }
        if self.public(k).seq().contains(s) {
            let l = self.public(k).seq();
            let i = choose|i: int| 0 <= i < l.len() && l[i] == s;
            assert(self.at(l[i], Place::Public(k)));
            assert(self.place_ok(s));
            self.lemma_span_address(s);
        }
    }

    /// Nodes are conserved: no two spans own the same node, and no node that
    /// a span owns is part of a list.
    pub proof fn law_nodes_are_not_shared(self, s: u64, t: u64, k: Key)
        requires
            self.wf(),
            self.place().dom().contains(s),
            self.place().dom().contains(t),
            self.valid(k),
            s != t,
            !(self.place()[s] is Public),
        ensures
            self.header(s).node != 0,
            self.header(s).node != self.header(t).node,
            !self.public(k).chain().contains(self.header(s).node),
    {
        reveal(WfSpanAllocator::order_ok);
        assert(self.place_ok(s));
        assert(self.place_ok(t));
        assert(self.public_ok(k));
        let c = self.public(k).chain();
        if c.contains(self.header(s).node) {
            let i = choose|i: int| 0 <= i < c.len() && c[i] == self.header(s).node;
            assert(self.homes()[c[i]] == Home::List(k));
        }
    }

    /// Carved pieces never overlap, and nothing is carved above the frontier.
    pub proof fn law_pieces_are_disjoint(self, u: u64, v: u64)
        requires
            self.wf(),
            self.units().dom().contains(u),
            self.units().dom().contains(v),
            u < v,
        ensures
            u + self.units()[u].spans * SPAN_SIZE <= v,
            v + self.units()[v].spans * SPAN_SIZE <= self.pool.span_at(self.pool.used() as int),
    {
        reveal(WfSpanAllocator::assets_ok);
    }

    /// An allocation followed by the deallocation of what it returned leaves
    /// the same allocations live.
    pub proof fn law_round_trip(self, mid: Self, post: Self, layout: Layout, t: u64, u: u64, p: u64)
        requires
            self.allocated(mid, layout, t, p),
            p != 0,
            mid.deallocated(post, p, u),
        ensures
            post.live() == self.live(),
            mid.live()[p] == layout,
    {
        assert(post.live() =~= self.live());
    }

    /// A block freed by the owner of its span is the next one that the owner
    /// gets for that class, if the span is the first of its private list and
    /// stays in it.
    pub proof fn law_freed_block_is_reused(self, post: Self, p: u64, t: u64, layout: Layout)
        requires
            self.wf(),
            post.wf(),
            t < self.n(),
            self.live().dom().contains(p),
            Self::dispatch(self.live()[p]) is Small,
            self.deallocated(post, p, t),
            self.header(span_base(p)).owner == t,
            !self.publishes(span_base(p), t),
            first(self.local(self.span_key(span_base(p), t)).seq()) == span_base(p),
            Self::dispatch(layout) == Self::dispatch(self.live()[p]),
        ensures
            post.alloc_result(layout, t) == p,
    {
        let s = span_base(p);
        let k = self.span_key(s, t);
        reveal(WfSpanAllocator::assets_ok);
        assert(self.live_entry(p));
        assert(self.place().dom().contains(s));
        self.lemma_free_room(s);
        self.lemma_owned(s, t);
        assert(self.valid(k));
        let items = post.local(k).seq();
        assert(items == self.local(k).seq());
        self.lemma_span_address(s);
        assert(items.len() > 0 && items[0] == s);
        assert(post.header(s).local.free.seq()[0] == p);
        assert(post.serve_block(s) == p);
        assert(post.scan(items, 0, LOCAL_SPAN_LIMIT_K + 1) == 0);
    }

    /// A block freed by the owner of its span can be allocated again by the
    /// owner, if the span is among the first `LOCAL_SPAN_LIMIT_K + 1` of its
    /// private list and stays in it.
    pub proof fn law_freed_block_can_be_allocated(
        self,
        post: Self,
        p: u64,
        t: u64,
        layout: Layout,
        i: int,
    )
        requires
            self.wf(),
            post.wf(),
            t < self.n(),
            self.live().dom().contains(p),
            Self::dispatch(self.live()[p]) is Small,
            self.deallocated(post, p, t),
            self.header(span_base(p)).owner == t,
            !self.publishes(span_base(p), t),
            0 <= i < self.local(self.span_key(span_base(p), t)).seq().len(),
            i <= LOCAL_SPAN_LIMIT_K,
            self.local(self.span_key(span_base(p), t)).seq()[i] == span_base(p),
            Self::dispatch(layout) == Self::dispatch(self.live()[p]),
        ensures
            post.alloc_result(layout, t) != 0,
    {
        let s = span_base(p);
        let k = self.span_key(s, t);
        reveal(WfSpanAllocator::assets_ok);
        assert(self.live_entry(p));
        assert(self.place().dom().contains(s));
        self.lemma_free_room(s);
        self.lemma_owned(s, t);
        assert(self.valid(k));
        let items = post.local(k).seq();
        assert(items == self.local(k).seq());
        assert(post.header(s).local.free.seq()[0] == p);
        assert(post.serve_block(s) == p);
        post.lemma_scan(items, 0, LOCAL_SPAN_LIMIT_K + 1, i);
    }

    /// A span that serves a block is found at the latest where it is.
    proof fn lemma_scan(self, items: Seq<u64>, i: int, limit: int, j: int)
        requires
            0 <= i <= j < limit,
            j < items.len(),
            self.serve_block(items[j]) != 0,
        ensures
            i <= self.scan(items, i, limit) <= j,
            self.serve_block(items[self.scan(items, i, limit)]) != 0,
        decreases j - i,
    {
        if self.serve_block(items[i]) == 0 {
            self.lemma_scan(items, i + 1, limit, j);
        }
    }

    /// A remote free of a block of a discarded span makes the freeing thread
    /// its owner, and the block is the next one that this thread gets for
    /// its class.
    pub proof fn law_claimed_span_serves_the_freed_block(
        self,
        post: Self,
        p: u64,
        t: u64,
        layout: Layout,
    )
        requires
            self.wf(),
            post.wf(),
            self.tidy(),
            t < self.n(),
            self.live().dom().contains(p),
            Self::dispatch(self.live()[p]) is Small,
            self.deallocated(post, p, t),
            self.at(span_base(p), Place::Discarded),
            Self::dispatch(layout) == Self::dispatch(self.live()[p]),
        ensures
            post.at(span_base(p), Place::Local(self.span_key(span_base(p), t))),
            post.alloc_result(layout, t) == p,
    {
        broadcast use LocalFreeList::lemma_of, RemoteMpscFreeList::lemma_of;

        let s = span_base(p);
        let k = self.span_key(s, t);
        reveal(WfSpanAllocator::assets_ok);
        assert(self.live_entry(p));
        assert(self.place().dom().contains(s));
        self.lemma_free_room(s);
        self.lemma_owned(s, t);
        let h = self.header(s);
        assert(h.free_blocks().len() == h.local.free.seq().len() + h.local.pending@.len()
            + h.remote.free.seq().len());
        assert(self.claims(s));
        post.lemma_free_room(s);
        let h2 = post.header(s);
        let q = h2.local.pending@;
        let r = h2.remote.free.seq();
        let links = post.mem@.links;
        assert(r =~= seq![p]);
        assert(q.len() == 0);
        assert(links[r[0]] == 0);
        assert(r.drop_first().len() == 0);
        assert(stall(links, r.drop_first()) == 0);
        assert(stall(links, r) == 1);
        assert(stall(links, q) == 0);
        assert(r.take(1) =~= r);
        assert(rev(r) =~= seq![p]);
        let items = post.local(k).seq();
        assert(items[0] == s);
        assert(crate::refill::refilled(h2, links).local.free.seq() =~= seq![p]);
        assert(p != 0);
        assert(post.serve_block(s) == p);
        assert(post.scan(items, 0, LOCAL_SPAN_LIMIT_K + 1) == 0);
    }

    /// At the start no free block is stranded, and no thread keeps a free run.
    pub proof fn law_starts_tidy(self)
        requires
            self.wf(),
            self.place() == Map::<u64, Place>::empty(),
        ensures
            self.tidy(),
            self.caches_bounded(),
    {
        reveal(WfSpanAllocator::order_ok);
        assert forall|k: Key| #[trigger]
            self.valid(k) && k.lane == Lane::Run implies self.local(k).seq().len()
            <= LARGE_LOCAL_RUN_LIMIT_K by {
            assert(self.local_ok(k));
            if self.local(k).seq().len() > 0 {
                assert(self.at(self.local(k).seq()[0], Place::Local(k)));
            }
        }
    }

    /// A run freed by a thread that keeps it is the next one that the thread
    /// gets for a request of the run's class, and the same layout gets the
    /// same address.
    pub proof fn law_freed_run_is_reused(self, post: Self, p: u64, t: u64)
        requires
            self.wf(),
            t < self.n(),
            self.live().dom().contains(p),
            Self::dispatch(self.live()[p]) is Large,
            self.deallocated(post, p, t),
            run_class_of(self.live()[p]) == Some(self.header(self.run_of(p)).size_class),
            self.local(run_key(t, self.header(self.run_of(p)).size_class as int)).seq().len()
                < LARGE_LOCAL_RUN_LIMIT_K,
        ensures
            post.alloc_result(self.live()[p], t) == p,
    {
        let r = self.run_of(p);
        let c = self.header(r).size_class as int;
        let k = run_key(t, c);
        self.lemma_live_in_unit(p);
        self.lemma_run_inside(r, p);
        self.lemma_run_bounds(r);
        self.lemma_span_address(r);
        assert(post.local(k).seq()[0] == r);
        assert(post.large_source(t, c, c) == r);
    }

    /// A freed large allocation can be allocated again by the thread that
    /// freed it, if that thread keeps the run.
    pub proof fn law_freed_run_can_be_allocated(self, post: Self, p: u64, t: u64)
        requires
            self.wf(),
            post.wf(),
            t < self.n(),
            self.live().dom().contains(p),
            Self::dispatch(self.live()[p]) is Large,
            self.deallocated(post, p, t),
            self.local(run_key(t, self.header(self.run_of(p)).size_class as int)).seq().len()
                < LARGE_LOCAL_RUN_LIMIT_K,
        ensures
            post.alloc_result(self.live()[p], t) != 0,
    {
        let r = self.run_of(p);
        let l = self.live()[p];
        let c = self.header(r).size_class as int;
        let k = run_key(t, c);
        self.lemma_live_in_unit(p);
        self.lemma_run_inside(r, p);
        self.lemma_run_bounds(r);
        self.lemma_span_address(r);
        assert(post.local(k).seq()[0] == r);
        assert(l.valid()) by {
            reveal(WfSpanAllocator::assets_ok);
            assert(self.live_entry(p));
        }
        lemma_run_class(l);
        vstd::arithmetic::power2::lemma2_to64();
        assert(large_need(l) <= 65536 * SPAN_SIZE) by {
            if c < 16 {
                lemma_pow2_strictly_increases(c as nat, 16);
            }
            assert(pow2(c as nat) * SPAN_SIZE <= 65536 * SPAN_SIZE) by (nonlinear_arith)
                requires
                    pow2(c as nat) <= 65536,
            ;
        }
        let min = run_class_of(l)->0 as int;
        assert(min <= c) by {
            if c < min {
                assert(pow2(c as nat) * SPAN_SIZE < large_need(l));
            }
        }
        post.lemma_source_found(t, min, min, c);
        let src = post.large_source(t, min, min);
        post.lemma_source_sound(t, min, min);
        lemma_large_payload(src, min as u64, l);
    }

    /// Where the private list of a class is not empty, a source is found at
    /// or below that class.
    proof fn lemma_source_found(self, t: u64, class: int, min: int, c: int)
        requires
            self.wf(),
            0 <= class <= c < MAX_LARGE_RUN_CLASSES,
            self.local(run_key(t, c)).seq().len() > 0,
            t < self.n(),
        ensures
            self.large_source(t, class, min) != 0,
        decreases c - class,
    {
        let k = run_key(t, class);
        assert(self.valid(k));
        if self.local(k).seq().len() > 0 {
            reveal(WfSpanAllocator::order_ok);
            assert(self.local_ok(k));
            assert(self.at(self.local(k).seq()[0], Place::Local(k)));
        } else if self.acquisition(k).result != 0 {
        } else if class == min && self.pool.next + pow2(class as nat) <= self.pool.count {
            lemma_pow2_pos(class as nat);
            self.lemma_frontier(pow2(class as nat) as int);
        } else {
            self.lemma_source_found(t, class + 1, min, c);
        }
    }

    /// A source lies in the region, with room for a run of the least class.
    pub(crate) proof fn lemma_source_sound(self, t: u64, class: int, min: int)
        requires
            self.wf(),
            0 <= min <= class,
            min < MAX_LARGE_RUN_CLASSES,
            t < self.n(),
            self.large_source(t, class, min) != 0,
        ensures
            self.large_source(t, class, min) + pow2(min as nat) * SPAN_SIZE <= self.mem@.end(),
            self.mem@.end() <= u64::MAX,
        decreases MAX_LARGE_RUN_CLASSES - class,
    {
        self.mem.lemma_view();
        let k = run_key(t, class);
        if class < MAX_LARGE_RUN_CLASSES {
            assert(self.valid(k));
            if min < class {
                lemma_pow2_strictly_increases(min as nat, class as nat);
            }
            assert(pow2(min as nat) * SPAN_SIZE <= pow2(class as nat) * SPAN_SIZE)
                by (nonlinear_arith)
                requires
                    pow2(min as nat) <= pow2(class as nat),
            ;
            if self.local(k).seq().len() > 0 {
                let r = self.local(k).seq()[0];
                reveal(WfSpanAllocator::order_ok);
                assert(self.local_ok(k));
                assert(self.at(r, Place::Local(k)));
                assert(self.place_ok(r));
                self.lemma_run_bounds(r);
            } else if self.acquisition(k).result != 0 {
                self.lemma_acquisition_is_span(k);
                self.lemma_run_bounds(self.acquisition(k).result);
            } else if class == min && self.pool.next + pow2(class as nat) <= self.pool.count {
                lemma_pow2_pos(class as nat);
                self.lemma_frontier(pow2(class as nat) as int);
            } else {
                self.lemma_source_sound(t, class + 1, min);
            }
        }
    }

    /// What an acquisition returns is a span of the public lists or of the
    /// own record.
    pub proof fn lemma_acquisition_is_span(self, k: Key)
        requires
            self.wf(),
            self.valid(k),
            self.acquisition(k).result != 0,
        ensures
            self.place().dom().contains(self.acquisition(k).result),
            self.fits(self.acquisition(k).result, k),
            loose(self.place()[self.acquisition(k).result]),
    {
        self.lemma_board_proper(k);
        let n = self.n();
        let q = self.query(k) as int % n;
        let h = self.helping(k) as int % n;
        let b = self.board(k);
        let r = self.acquisition(k).result;
        self.mem.lemma_view();
        crate::protocol::lemma_outcome_source(b, k.tid as int, q, h, n);
        reveal(WfSpanAllocator::order_ok);
        if crate::help_record::completed(b.words[k.tid as int]) {
            assert(crate::acquire::peer(k, k.tid as int) == k);
            assert(self.record_ok(k));
            assert(self.place_ok(r));
        } else {
            let (u, i) = choose|u: int, i: int|
                0 <= u < n && 0 <= i < b.lists[u].len() && r == #[trigger] b.lists[u][i];
            let j = crate::acquire::peer(k, u);
            assert(self.valid(j));
            assert(self.public_ok(j));
            assert(self.public(j).seq()[i] == r);
            assert(self.at(self.public(j).seq()[i], Place::Public(j)));
            assert(self.place_ok(r));
        }
    }

    /// A freed huge allocation can be allocated again, by any thread.
    pub proof fn law_freed_huge_run_can_be_allocated(self, post: Self, p: u64, t: u64, u: u64)
        requires
            self.wf(),
            post.wf(),
            self.live().dom().contains(p),
            Self::dispatch(self.live()[p]) is Huge,
            self.deallocated(post, p, t),
        ensures
            post.alloc_result(self.live()[p], u) != 0,
    {
        let l = self.live()[p];
        let g = Self::granule_bytes();
        let (c, k) = choose|c: int, k: int|
            {
                &&& #[trigger] self.slot_serves(c, k, p)
                &&& self.only_slot(post, c, k)
                &&& post.slot(c, k).state == HUGE_SLOT_FREE
            };
        assert(self.slot_ok(c, k) && self.live_entry(p)) by {
            reveal(WfSpanAllocator::assets_ok);
        }
        assert(g >= 1) by (nonlinear_arith)
            requires
                HG >= 1,
                g == HG * SPAN_SIZE,
        ;
        lemma_huge_class(l, g);
        vstd::arithmetic::power2::lemma2_to64();
        assert(pow2(c as nat) * g <= 4 * g) by {
            if c < 2 {
                lemma_pow2_strictly_increases(c as nat, 2);
            }
            assert(pow2(c as nat) * g <= 4 * g) by (nonlinear_arith)
                requires
                    pow2(c as nat) <= 4,
                    g >= 1,
            ;
        }
        let min = huge_class_of(l, g)->0;
        assert(min <= c) by {
            if c < min {
                assert(pow2(c as nat) * g < l.size + huge_slack(l));
            }
        }
        let at = 4 * c + k;
        assert(at / 4 == c && at % 4 == k);
        post.lemma_pick(4 * min, at);
        let i = post.huge_pick(4 * min);
        let d = i / 4;
        let base = post.huge_base(i);
        Self::lemma_larger_huge(l, min, d as u64);
        if post.slot(d, i % 4).state == HUGE_SLOT_FREE {
            assert(post.slot_ok(d, i % 4)) by {
                reveal(WfSpanAllocator::assets_ok);
            }
            post.lemma_huge_unit(d, base);
        } else {
            let spans = pow2(d as nat) * HG;
            lemma_pow2_pos(d as nat);
            assert(spans >= 1) by (nonlinear_arith)
                requires
                    spans == pow2(d as nat) * HG,
                    pow2(d as nat) >= 1,
                    HG >= 1,
            ;
            post.lemma_frontier(spans as int);
            assert(spans * SPAN_SIZE == pow2(d as nat) * g) by (nonlinear_arith)
                requires
                    spans == pow2(d as nat) * HG,
                    g == HG * SPAN_SIZE,
            ;
            post.mem.lemma_view();
        }
        crate::huge::lemma_huge_payload(base, l);
    }

    /// A slot that can be claimed is found at the latest where it is.
    proof fn lemma_pick(self, i: int, j: int)
        requires
            0 <= i <= j < 12,
            self.claimable(j),
        ensures
            i <= self.huge_pick(i) <= j,
            self.claimable(self.huge_pick(i)),
        decreases j - i,
    {
        if !self.claimable(i) {
            self.lemma_pick(i + 1, j);
        }
    }

    /// Whatever path serves it, one allocation from fresh counters keeps the
    /// step bounds of that path.
    pub proof fn law_allocation_steps_are_bounded(self, layout: Layout, now: StepCounter)
        requires
            self.shape(),
            self.alloc_cost(layout, StepCounter::zero(), now),
        ensures
            match Self::dispatch(layout) {
                Path::Small(c) => now.within_bounds(
                    self.n(),
                    HELP_BUDGET_H as int,
                    self.n(),
                    span_blocks(class_size(c as int)),
                    LOCAL_SPAN_LIMIT_K as int,
                ),
                Path::Large => now.within_large_bounds(
                    self.n(),
                    HELP_BUDGET_H as int,
                    self.n(),
                    MAX_LARGE_RUN_CLASSES as int,
                ),
                Path::Huge => now.within_huge_bounds(
                    MAX_HUGE_RUN_CLASSES as int,
                    MAX_HUGE_RUNS_PER_CLASS as int,
                ),
            },
    {
        let n = self.n();
        match Self::dispatch(layout) {
            Path::Small(c) => {
                let m = span_blocks(class_size(c as int));
                assert(m * (LOCAL_SPAN_LIMIT_K + 2) == (LOCAL_SPAN_LIMIT_K + 2) * m)
                    by (nonlinear_arith);
                assert(HELP_BUDGET_H * n == n) by (nonlinear_arith)
                    requires
                        HELP_BUDGET_H == 1,
                ;
            },
            Path::Large => {
                let i = choose|i: int|
                    0 <= i <= MAX_LARGE_RUN_CLASSES && #[trigger] large_cost(
                        StepCounter::zero(),
                        now,
                        i,
                        n,
                    );
                assert(i * (n + 1) <= 17 * (HELP_BUDGET_H * n + n + 1)) by (nonlinear_arith)
                    requires
                        0 <= i <= 17,
                        n >= 1,
                        HELP_BUDGET_H == 1,
                ;
                assert(i * n <= 17 * (n + n + 1)) by (nonlinear_arith)
                    requires
                        0 <= i <= 17,
                        n >= 1,
                ;
            },
            Path::Huge => {
                assert(MAX_HUGE_RUN_CLASSES * MAX_HUGE_RUNS_PER_CLASS == 12) by (nonlinear_arith)
                    requires
                        MAX_HUGE_RUN_CLASSES == 3,
                        MAX_HUGE_RUNS_PER_CLASS == 4,
                ;
            },
        }
    }

    /// Whatever path serves it, one deallocation from fresh counters keeps the
    /// step bounds of that path; outside the huge path it is a constant
    /// number of steps.
    pub proof fn law_deallocation_steps_are_bounded(self, p: u64, t: u64, now: StepCounter)
        requires
            self.shape(),
            self.dealloc_cost(p, t, StepCounter::zero(), now),
        ensures
            match Self::dispatch(self.live()[p]) {
                Path::Small(c) => {
                    &&& now.within_bounds(
                        self.n(),
                        HELP_BUDGET_H as int,
                        self.n(),
                        span_blocks(class_size(c as int)),
                        LOCAL_SPAN_LIMIT_K as int,
                    )
                    &&& now.local_steps + now.remote_steps == 1
                    &&& now.swap_ops <= 1
                    &&& now.faa_ops <= 1
                    &&& now.cas_attempts <= 1
                    &&& now.blocks_scanned == 0
                },
                Path::Large => {
                    &&& now.within_large_bounds(
                        self.n(),
                        HELP_BUDGET_H as int,
                        self.n(),
                        MAX_LARGE_RUN_CLASSES as int,
                    )
                    &&& now.local_steps == 1
                    &&& now.cas_attempts == 0
                },
                Path::Huge => {
                    &&& now.within_huge_bounds(
                        MAX_HUGE_RUN_CLASSES as int,
                        MAX_HUGE_RUNS_PER_CLASS as int,
                    )
                    &&& now.cas_attempts == 0
                },
            },
    {
        let n = self.n();
        assert(HELP_BUDGET_H * n == n) by (nonlinear_arith)
            requires
                HELP_BUDGET_H == 1,
        ;
        match Self::dispatch(self.live()[p]) {
            Path::Small(c) => {
                lemma_class_size(c as int);
                let bs = class_size(c as int);
                crate::size_class::lemma_block_size_divides(bs as u64);
                crate::size_class::lemma_span_blocks(bs);
            },
            _ => {},
        }
    }

    /// An allocation fails only where the pool has no room for it: no span on
    /// the small path, no run of the least class that fits on the large path,
    /// and no slot that can be claimed on the huge path. A request of the
    /// large or huge path that is too large for every class fails always.
    pub proof fn law_failure_means_exhaustion(self, layout: Layout, t: u64)
        requires
            self.wf(),
            layout.valid(),
            t < self.n(),
            self.alloc_result(layout, t) == 0,
        ensures
            match Self::dispatch(layout) {
                Path::Small(_) => self.pool.used() == self.pool.count,
                Path::Large => match run_class_of(layout) {
                    Some(c) => self.pool.used() + pow2(c as nat) > self.pool.count,
                    None => true,
                },
                Path::Huge => match huge_class_of(layout, Self::granule_bytes()) {
                    Some(c) => forall|i: int| 4 * c <= i < 12 ==> !#[trigger] self.claimable(i),
                    None => true,
                },
            },
    {
        match Self::dispatch(layout) {
            Path::Small(c) => {
                if self.pool.next < self.pool.count {
                    let k = Key { lane: Lane::Span, class: c, tid: t };
                    let items = self.local(k).seq();
                    self.lemma_frontier(1);
                    self.mem.lemma_view();
                    lemma_class_size(c as int);
                    let bs = class_size(c as int);
                    crate::size_class::lemma_block_size_divides(bs as u64);
                    crate::size_class::lemma_span_blocks(bs);
                    crate::span::lemma_all_blocks(self.frontier() as u64, bs as u64);
                    self.lemma_scan_serves(items, 0, LOCAL_SPAN_LIMIT_K + 1);
                }
            },
            Path::Large => {
                match run_class_of(layout) {
                    Some(c) => {
                        lemma_run_class(layout);
                        if self.pool.next + pow2(c as nat) <= self.pool.count {
                            self.lemma_source_fresh(t, c as int);
                            self.lemma_source_sound(t, c as int, c as int);
                            lemma_large_payload(
                                self.large_source(t, c as int, c as int),
                                c,
                                layout,
                            );
                        }
                    },
                    None => {},
                }
            },
            Path::Huge => {
                match huge_class_of(layout, Self::granule_bytes()) {
                    Some(c) => {
                        assert forall|i: int| 4 * c <= i < 12 implies !#[trigger] self.claimable(
                            i,
                        ) by {
                            if self.claimable(i) {
                                self.lemma_claim_serves(layout, c, i);
                            }
                        }
                    },
                    None => {},
                }
            },
        }
    }

    /// The first allocation is served from the start of the region: the first
    /// block of its first span, or the payload of a run or slot that starts
    /// there, if that fits.
    pub proof fn law_first_allocation_is_at_the_start(self, layout: Layout, t: u64)
        requires
            self.wf(),
            self.started_empty(),
            self.pool.next == 0,
            layout.valid(),
            t < self.n(),
        ensures
            match Self::dispatch(layout) {
                Path::Small(c) => self.pool.count >= 1 ==> self.alloc_result(layout, t)
                    == self.pool.base + first_offset(class_size(c as int)),
                Path::Large => match run_class_of(layout) {
                    Some(c) => pow2(c as nat) <= self.pool.count ==> self.alloc_result(layout, t)
                        == large_payload(self.pool.base, layout),
                    None => true,
                },
                Path::Huge => match huge_class_of(layout, Self::granule_bytes()) {
                    Some(c) => pow2(c as nat) * HG <= self.pool.count ==> self.alloc_result(
                        layout,
                        t,
                    ) == huge_payload(self.pool.base, layout.align),
                    None => true,
                },
            },
    {
        self.mem.lemma_view();
        match Self::dispatch(layout) {
            Path::Small(c) => {
                let k = Key { lane: Lane::Span, class: c, tid: t };
                if self.pool.count >= 1 {
                    assert(self.valid(k));
                    self.lemma_nothing_to_acquire(k);
                    self.lemma_frontier(1);
                    lemma_class_size(c as int);
                    let bs = class_size(c as int);
                    crate::size_class::lemma_block_size_divides(bs as u64);
                    crate::size_class::lemma_span_blocks(bs);
                }
            },
            Path::Large => {
                match run_class_of(layout) {
                    Some(c) => {
                        lemma_run_class(layout);
                        let k = run_key(t, c as int);
                        if pow2(c as nat) <= self.pool.count {
                            assert(self.valid(k));
                            self.lemma_nothing_to_acquire(k);
                            self.lemma_source_fresh(t, c as int);
                            self.lemma_source_sound(t, c as int, c as int);
                            lemma_large_payload(self.pool.base, c, layout);
                        }
                    },
                    None => {},
                }
            },
            Path::Huge => {
                match huge_class_of(layout, Self::granule_bytes()) {
                    Some(c) => {
                        let i = 4 * c as int;
                        assert(i / 4 == c && i % 4 == 0);
                        assert(HG * SPAN_SIZE >= 1) by (nonlinear_arith)
                            requires
                                HG >= 1,
                        ;
                        lemma_huge_class(layout, Self::granule_bytes());
                        assert(self.slot(c as int, 0).state == HUGE_SLOT_EMPTY);
                        if pow2(c as nat) * HG <= self.pool.count {
                            assert(self.claimable(i));
                            let spans = pow2(c as nat) * HG;
                            lemma_pow2_pos(c as nat);
                            assert(spans >= 1) by (nonlinear_arith)
                                requires
                                    spans == pow2(c as nat) * HG,
                                    pow2(c as nat) >= 1,
                                    HG >= 1,
                            ;
                            self.lemma_frontier(spans as int);
                            let g = Self::granule_bytes();
                            assert(spans * SPAN_SIZE == pow2(c as nat) * g) by (nonlinear_arith)
                                requires
                                    spans == pow2(c as nat) * HG,
                                    g == HG * SPAN_SIZE,
                            ;
                            crate::huge::lemma_huge_payload(self.pool.base, layout);
                        }
                    },
                    None => {},
                }
            },
        }
    }

    /// An acquisition gives nothing where all public lists and records are
    /// empty.
    proof fn lemma_nothing_to_acquire(self, k: Key)
        requires
            self.wf(),
            self.started_empty(),
            self.valid(k),
        ensures
            self.acquisition(k).result == 0,
    {
        let b = self.board(k);
        let n = self.n();
        assert forall|u: int| 0 <= u < n implies #[trigger] b.lists[u].len() == 0 && b.words[u]
            == 0 by {
            assert(self.valid(crate::acquire::peer(k, u)));
        }
        crate::protocol::lemma_next_full_none(b.lists, 0, 0, n);
    }

    /// A search that ends before its limit ends at a span that serves.
    pub(crate) proof fn lemma_scan_serves(self, items: Seq<u64>, i: int, limit: int)
        requires
            0 <= i,
        ensures
            self.scan(items, i, limit) < limit ==> self.serve_block(
                items[self.scan(items, i, limit)],
            ) != 0,
        decreases limit - i,
    {
        if i < limit && i < items.len() && self.serve_block(items[i]) == 0 {
            self.lemma_scan_serves(items, i + 1, limit);
        }
    }

    /// Where the pool has a run of the least class, a source is found.
    proof fn lemma_source_fresh(self, t: u64, min: int)
        requires
            self.wf(),
            0 <= min < MAX_LARGE_RUN_CLASSES,
            t < self.n(),
            self.pool.next + pow2(min as nat) <= self.pool.count,
        ensures
            self.large_source(t, min, min) != 0,
    {
        let k = run_key(t, min);
        assert(self.valid(k));
        lemma_pow2_pos(min as nat);
        self.lemma_frontier(pow2(min as nat) as int);
        if self.local(k).seq().len() > 0 {
            reveal(WfSpanAllocator::order_ok);
            assert(self.local_ok(k));
            assert(self.at(self.local(k).seq()[0], Place::Local(k)));
            self.lemma_span_address(self.local(k).seq()[0]);
        }
    }

    /// Where a slot can be claimed, a huge request is served.
    pub(crate) proof fn lemma_claim_serves(self, l: Layout, min: u64, at: int)
        requires
            self.wf(),
            l.valid(),
            huge_class_of(l, Self::granule_bytes()) == Some(min),
            4 * min <= at < 12,
            self.claimable(at),
        ensures
            self.huge_result(l) != 0,
    {
        let g = Self::granule_bytes();
        assert(g >= 1) by (nonlinear_arith)
            requires
                HG >= 1,
                g == HG * SPAN_SIZE,
        ;
        self.lemma_pick(4 * min, at);
        let i = self.huge_pick(4 * min);
        let d = i / 4;
        let base = self.huge_base(i);
        Self::lemma_larger_huge(l, min, d as u64);
        if self.slot(d, i % 4).state == HUGE_SLOT_FREE {
            assert(self.slot_ok(d, i % 4)) by {
                reveal(WfSpanAllocator::assets_ok);
            }
            self.lemma_huge_unit(d, base);
        } else {
            let spans = pow2(d as nat) * HG;
            lemma_pow2_pos(d as nat);
            assert(spans >= 1) by (nonlinear_arith)
                requires
                    spans == pow2(d as nat) * HG,
                    pow2(d as nat) >= 1,
                    HG >= 1,
            ;
            self.lemma_frontier(spans as int);
            assert(spans * SPAN_SIZE == pow2(d as nat) * g) by (nonlinear_arith)
                requires
                    spans == pow2(d as nat) * HG,
                    g == HG * SPAN_SIZE,
            ;
            self.mem.lemma_view();
        }
        crate::huge::lemma_huge_payload(base, l);
    }

    /// No thread keeps more than `LARGE_LOCAL_RUN_LIMIT_K` free runs of a
    /// class for itself.
    pub open spec fn caches_bounded(self) -> bool {
        forall|k: Key| #[trigger]
            self.valid(k) && k.lane == Lane::Run ==> self.local(k).seq().len()
                <= LARGE_LOCAL_RUN_LIMIT_K
    }

    /// The bound on free runs that threads keep for themselves holds after
    /// every allocation and every deallocation if it did before.
    pub proof fn law_run_caches_stay_bounded(
        self,
        post: Self,
        layout: Layout,
        t: u64,
        p: u64,
    )
        requires
            self.wf(),
            self.caches_bounded(),
            t < self.n(),
            layout.valid(),
            self.allocated(post, layout, t, p) || (self.live().dom().contains(p)
                && self.deallocated(post, p, t)),
        ensures
            post.caches_bounded(),
    {
        broadcast use crate::heap::LocalSpanList::lemma_of;

        assert forall|k: Key| #[trigger]
            post.valid(k) && k.lane == Lane::Run implies post.local(k).seq().len()
            <= LARGE_LOCAL_RUN_LIMIT_K by {
            assert(self.valid(k));
            if self.allocated(post, layout, t, p) {
                match Self::dispatch(layout) {
                    Path::Large => {
                        match run_class_of(layout) {
                            Some(min) => {
                                lemma_run_class(layout);
                                self.lemma_stop(t, min as int, min as int);
                            },
                            None => {},
                        }
                    },
                    _ => {},
                }
            }
        }
    }

    /// Where the search of a large allocation can end.
    proof fn lemma_stop(self, t: u64, class: int, min: int)
        requires
            0 <= class <= MAX_LARGE_RUN_CLASSES,
        ensures
            class <= self.large_stop(t, class, min) <= MAX_LARGE_RUN_CLASSES,
        decreases MAX_LARGE_RUN_CLASSES - class,
    {
        if class < MAX_LARGE_RUN_CLASSES {
            self.lemma_stop(t, class + 1, min);
        }
    }

    /// Free memory stays within reach: a span that has a free block is in a
    /// private list, in a public list, in a record, or in some thread's hands.
    pub proof fn law_free_memory_is_reachable(self, s: u64, b: u64)
        requires
            self.wf(),
            self.tidy(),
            self.place().dom().contains(s),
            self.units()[s].kind is Small,
            is_block(s, self.header(s).block_size as int, b),
            !self.live().dom().contains(b),
        ensures
            match self.place()[s] {
                Place::Local(k) => self.local(k).seq().contains(s),
                Place::Public(k) => self.public(k).seq().contains(s),
                Place::Record(k) => self.word(k) == s,
                Place::Held(t) | Place::Transit(t) => t < self.n(),
                _ => false,
            },
    {
        reveal(WfSpanAllocator::order_ok);
        assert(self.place_ok(s));
        assert(self.block_ok(s, b)) by {
            reveal(WfSpanAllocator::assets_ok);
        }
    }

    /// The owner of a span says where it is: a thread owns what is in its
    /// private lists, what it holds, and the runs that it allocated or freed;
    /// nobody owns a discarded span; and what is in public lists, records or
    /// between them is marked public.
    pub proof fn law_owner_says_where(self, s: u64)
        requires
            self.wf(),
            self.place().dom().contains(s),
        ensures
            match self.place()[s] {
                Place::Local(k) => self.header(s).owner == k.tid && k.tid < self.n()
                    && self.header(s).size_class == k.class && self.local(k).seq().contains(s),
                Place::Held(t) => self.header(s).owner == t && t < self.n(),
                Place::Live(_) => self.header(s).owner < self.n(),
                Place::Discarded => self.header(s).owner == OWNER_NONE,
                _ => self.header(s).owner == OWNER_PUBLIC,
            },
            forall|k: Key| #[trigger]
                self.valid(k) ==> (self.local(k).seq().contains(s) <==> self.place()[s]
                    == Place::Local(k)),
    {
        reveal(WfSpanAllocator::order_ok);
        assert(self.place_ok(s));
        assert forall|k: Key| #[trigger] self.valid(k) implies (self.local(k).seq().contains(s)
            <==> self.place()[s] == Place::Local(k)) by {
            self.lemma_member(s, k);
        }
    }

    /// A run is allocated or free in exactly one place, its header says
    /// which, and it has no free blocks of its own. Right before the payload
    /// of an allocated run stands a header that leads to the run.
    pub proof fn law_run_is_allocated_or_free(self, r: u64)
        requires
            self.wf(),
            self.place().dom().contains(r),
            self.units()[r].kind is Run,
        ensures
            self.header(r).local.free.seq().len() == 0,
            self.header(r).local.free_count == 0,
            self.header(r).remote.free_count == 0,
            self.units()[r].spans == pow2(self.header(r).size_class as nat),
            self.header(r).block_count == pow2(self.header(r).size_class as nat),
            !(self.place()[r] is Discarded),
            match self.place()[r] {
                Place::Live(p) => {
                    &&& self.header(r).state == SpanState::RunAllocated
                    &&& self.live().dom().contains(p)
                    &&& self.hidden(p) == (LargeSlot {
                        at: (p - LARGE_HEADER_SIZE) as u64,
                        header: hidden_header(r, self.header(r).size_class),
                    })
                },
                Place::Local(_) => self.header(r).state == SpanState::RunFreeLocal,
                Place::Public(_) | Place::Record(_) => self.header(r).state
                    == SpanState::RunFreePublic,
                _ => true,
            },
    {
        broadcast use LocalFreeList::lemma_of;

        reveal(WfSpanAllocator::order_ok);
        reveal(WfSpanAllocator::assets_ok);
        assert(self.place_ok(r));
        assert(self.unit_sound(r));
        self.lemma_run_bounds(r);
        if let Place::Live(p) = self.place()[r] {
            assert(self.at(r, Place::Live(p)));
            self.lemma_run_inside(r, p);
        }
    }

    /// Of two helpers that saw the same pending request, the first to complete
    /// it succeeds; the second fails, whatever phase it saw, and keeps its
    /// span in its hands.
    pub proof fn law_losing_helper_keeps_its_span(
        self,
        mid: Self,
        post: Self,
        k: Key,
        first: (u64, u64),
        second: (u64, u64, u64),
        r: (bool, bool),
    )
        requires
            self.wf(),
            self.valid(k),
            self.word(k) == pending_word(first.1),
            first.0 % 2 == 0,
            first.0 != second.0,
            self.at(second.0, Place::Transit(second.2)),
            self.completion(mid, k, first.1, first.0, r.0),
            mid.completion(post, k, second.1, second.0, r.1),
        ensures
            r.0,
            !r.1,
            post.word(k) == first.0,
            post.at(first.0, Place::Record(k)),
            post.at(second.0, Place::Transit(second.2)),
    {
    }

    /// No request is passed over: through `n` acquisitions of its class by one
    /// other thread, each of which finds a span in the lists, a request that
    /// was pending at the start is completed, whatever else happens between
    /// them. `before` and `after` are the states around each acquisition, and
    /// `r` what each returned. Between two of them, the request may be
    /// completed by others, and the saved position of the acquiring thread
    /// stays.
    pub proof fn law_pending_request_is_completed(
        before: Seq<Self>,
        after: Seq<Self>,
        r: Seq<u64>,
        k: Key,
        j: Key,
        n: int,
    )
        requires
            1 <= n,
            before.len() == n,
            after.len() == n,
            r.len() == n,
            same_class(j, k),
            j.tid != k.tid,
            forall|i: int|
                0 <= i < n ==> {
                    &&& (#[trigger] before[i]).wf()
                    &&& before[i].n() == n
                    &&& after[i].n() == n
                    &&& before[i].valid(k)
                    &&& before[i].valid(j)
                    &&& !completed(before[i].word(k))
                    &&& before[i].acquires(after[i], k, r[i])
                    &&& r[i] != 0
                },
            forall|i: int|
                1 <= i < n ==> {
                    &&& (#[trigger] before[i]).helping(k) == after[i - 1].helping(k)
                    &&& before[i].word(j) == after[i - 1].word(j) || completed(before[i].word(j))
                },
            pending(before[0].word(j)),
        ensures
            completed(after[n - 1].word(j)),
    {
        let h = before[0].helping(k) as int % n;
        let u = j.tid as int;
        assert(before[0].valid(j));
        Self::lemma_helped(before, after, r, k, j, n, n - 1);
        let d = if u >= h {
            u - h
        } else {
            u - h + n
        };
        vstd::arithmetic::div_mod::lemma_small_mod(u as nat, n as nat);
        vstd::arithmetic::div_mod::lemma_mod_add_multiples_vanish(u, n);
        assert((h + d) % n == u);
    }

    /// What has become of a pending request after some acquisitions by another
    /// thread.
    proof fn lemma_helped(
        before: Seq<Self>,
        after: Seq<Self>,
        r: Seq<u64>,
        k: Key,
        j: Key,
        n: int,
        i: int,
    )
        requires
            1 <= n,
            0 <= i < n,
            before.len() == n,
            after.len() == n,
            r.len() == n,
            same_class(j, k),
            j.tid != k.tid,
            forall|i: int|
                0 <= i < n ==> {
                    &&& (#[trigger] before[i]).wf()
                    &&& before[i].n() == n
                    &&& after[i].n() == n
                    &&& before[i].valid(k)
                    &&& before[i].valid(j)
                    &&& !completed(before[i].word(k))
                    &&& before[i].acquires(after[i], k, r[i])
                    &&& r[i] != 0
                },
            forall|i: int|
                1 <= i < n ==> {
                    &&& (#[trigger] before[i]).helping(k) == after[i - 1].helping(k)
                    &&& before[i].word(j) == after[i - 1].word(j) || completed(before[i].word(j))
                },
            pending(before[0].word(j)),
        ensures
            ({
                let h = before[0].helping(k) as int % n;
                &&& after[i].helping(k) == (h + i + 1) % n
                &&& completed(after[i].word(j)) || (pending(after[i].word(j)) && forall|d: int|
                    0 <= d <= i ==> #[trigger] ((h + d) % n) != j.tid)
            }),
        decreases i,
    {
        let h0 = before[0].helping(k) as int % n;
        let here = before[i];
        let post = after[i];
        let u = j.tid as int;
        let t = k.tid as int;
        let b = here.board(k);
        let q = here.query(k) as int % n;
        let h = here.helping(k) as int % n;
        if i > 0 {
            Self::lemma_helped(before, after, r, k, j, n, i - 1);
            vstd::arithmetic::div_mod::lemma_mod_twice(h0 + i, n);
        } else {
            vstd::arithmetic::div_mod::lemma_mod_twice(before[0].helping(k) as int, n);
        }
        assert(h == (h0 + i) % n);
        here.lemma_board_proper(k);
        assert(here.valid(k));
        assert(peer(k, t) == k);
        assert(peer(k, u) == j);
        assert(b.words[t] == here.word(k));
        assert(b.words[u] == here.word(j));
        assert(post.board(k).words[u] == post.word(j));
        lemma_next_full(b.lists, q, 0, n);
        let e = next_full(b.lists, q, 0, n);
        if e < n {
            assert(completed(b.lists[(q + e) % n][0]));
        }
        lemma_next_pos(h0, i, n);
    }

    /// A thread `t` that discards the span `s`, and one remote free of a block
    /// of it by a thread `u`, at the same time. Each takes its actions in
    /// order, and the actions of the two interleave in any way. `d` counts
    /// the actions of the discarding thread, which had found no visible block
    /// before: make the span ownerless, and settle. `f` counts those of the
    /// freeing thread: make the block visible, and claim.
    pub open spec fn discard_race(self, s: u64, t: u64, u: u64, d: int, f: int) -> bool {
        let p = self.place()[s];
        let with_u = Place::Local(self.span_key(s, u));
        &&& self.wf()
        &&& self.place().dom().contains(s)
        &&& self.units()[s].kind is Small
        &&& 0 <= d <= 2
        &&& 0 <= f <= 2
        &&& f == 0 <==> self.header(s).remote.free_count == 0
        &&& d == 0 ==> p == Place::Held(t)
        &&& d == 1 ==> p is Discarded || (f == 2 && p == with_u)
        &&& d == 2 ==> p == Place::Held(t) || (f == 2 && p == with_u) || (f < 2 && p is Discarded)
    }

    /// A span is never stranded by a discard that races with a remote free:
    /// each action of either thread leads to a state of the race, and when
    /// both are done, the discarding thread holds the span, or the freeing
    /// thread has it in its private list.
    pub proof fn law_discard_race_strands_no_span(
        self,
        post: Self,
        s: u64,
        b: u64,
        t: u64,
        u: u64,
        d: int,
        f: int,
        r: bool,
    )
        requires
            self.discard_race(s, t, u, d, f),
            post.wf(),
        ensures
            d == 0 && self.discard_marked(post, s) ==> post.discard_race(s, t, u, 1, f),
            d == 1 && self.discard_settled(post, s, t, r) ==> post.discard_race(s, t, u, 2, f),
            f == 0 && self.remotely_given(post, s, b) ==> post.discard_race(s, t, u, d, 1),
            f == 1 && self.span_claimed(post, s, u, r) ==> post.discard_race(s, t, u, d, 2),
            d == 2 && f == 2 ==> !(self.place()[s] is Discarded),
    {
        reveal(WfSpanAllocator::order_ok);
        assert(self.place_ok(s));
        if self.discard_marked(post, s) || self.discard_settled(post, s, t, r)
            || self.span_claimed(post, s, u, r) {
            if self.inert(post) {
                self.lemma_inert_cores(post);
            }
        }
    }

    /// Wait-freedom of an acquisition: however other threads act between its
    /// steps, an acquisition ends within `14 n + 48` steps of its own.
    /// `before` and `after` are the states around each of its steps, and `m`
    /// its own states.
    pub proof fn law_acquisition_is_wait_free(
        before: Seq<Self>,
        after: Seq<Self>,
        m: Seq<Acquisition>,
        strong: bool,
        n: int,
    )
        requires
            m.len() == before.len() + 1,
            m.len() == after.len() + 1,
            m[0].stage is Reclaim,
            n >= 1,
            forall|i: int|
                0 <= i < before.len() ==> (#[trigger] before[i]).n() == n && before[i].acted(
                    m[i],
                    after[i],
                    m[i + 1],
                    strong,
                ),
        ensures
            before.len() <= 14 * n + 48,
    {
        if before.len() > 0 {
            Self::lemma_rank_falls(before, after, m, strong, n, before.len() as int);
            let last = before.len() - 1;
            assert(before[last].acted(m[last], after[last], m[last + 1], strong));
        }
    }

    /// The rank falls with every step.
    proof fn lemma_rank_falls(
        before: Seq<Self>,
        after: Seq<Self>,
        m: Seq<Acquisition>,
        strong: bool,
        n: int,
        i: int,
    )
        requires
            m.len() == before.len() + 1,
            m.len() == after.len() + 1,
            m[0].stage is Reclaim,
            0 <= i <= before.len(),
            forall|i: int|
                0 <= i < before.len() ==> (#[trigger] before[i]).n() == n && before[i].acted(
                    m[i],
                    after[i],
                    m[i + 1],
                    strong,
                ),
        ensures
            m[i].rank(n) <= 14 * n + 48 - i,
        decreases i,
    {
        if i > 0 {
            Self::lemma_rank_falls(before, after, m, strong, n, i - 1);
            assert(before[i - 1].n() == n);
        }
    }
}

/// Raw spans and runs handed out by the pool never overlap: a request that is
/// served after another one starts behind it.
pub proof fn law_pool_hands_out_once(
    before: FixedSpanPool,
    first: int,
    later: FixedSpanPool,
    second: int,
)
    requires
        before.wf(),
        first >= 1,
        second >= 1,
        before.next + first <= before.count,
        later.base == before.base,
        later.count == before.count,
        later.next >= before.next + first,
        later.next + second <= later.count,
    ensures
        before.span_at(before.next as int) + first * SPAN_SIZE <= later.span_at(later.next as int),
        later.span_at(later.next as int) + second * SPAN_SIZE <= later.base + later.count
            * SPAN_SIZE,
{
    assert((before.next + first) * SPAN_SIZE <= later.next * SPAN_SIZE) by (nonlinear_arith)
        requires
            before.next + first <= later.next,
    ;
    assert((before.next + first) * SPAN_SIZE == before.next * SPAN_SIZE + first * SPAN_SIZE)
        by (nonlinear_arith);
    assert((later.next + second) * SPAN_SIZE <= later.count * SPAN_SIZE) by (nonlinear_arith)
        requires
            later.next + second <= later.count,
    ;
    assert((later.next + second) * SPAN_SIZE == later.next * SPAN_SIZE + second * SPAN_SIZE)
        by (nonlinear_arith);
}

/// The version of a public list after `pops` pops.
pub open spec fn version_after(version: u64, pops: nat) -> u64
    decreases pops,
{
    if pops == 0 {
        version
    } else {
        next_version(version_after(version, (pops - 1) as nat))
    }
}

/// A snapshot of a list head is stale after any number of pops below `2^64`,
/// even if the head points to the same node again: a compare-exchange with it
/// cannot succeed.
pub proof fn law_stale_snapshot_is_detected(version: u64, pops: nat)
    requires
        0 < pops < 0x1_0000_0000_0000_0000,
    ensures
        version_after(version, pops) != version,
{
    lemma_version_after(version, pops);
}

/// Versions count pops, modulo `2^64`.
proof fn lemma_version_after(version: u64, pops: nat)
    ensures
        version_after(version, pops) == (version + pops) % 0x1_0000_0000_0000_0000,
    decreases pops,
{
    if pops > 0 {
        lemma_version_after(version, (pops - 1) as nat);
    }
}

/// Two producers that published their blocks may complete their links in
/// either order: the chain is whole when both have.
pub proof fn law_links_complete_in_any_order(links: Map<u64, u64>, items: Seq<u64>, a: u64, b: u64)
    requires
        blocks(links, items),
        linked(links, items),
        a != b,
        a != 0,
        b != 0,
        a != UNLINKED,
        b != UNLINKED,
        links.dom().contains(a),
        links.dom().contains(b),
        !items.contains(a),
        !items.contains(b),
    ensures
        ({
            let published = links.insert(a, UNLINKED).insert(b, UNLINKED);
            let chain = cons(b, cons(a, items));
            &&& half_linked(published, chain)
            &&& linked(published.insert(a, first(items)).insert(b, a), chain)
            &&& linked(published.insert(b, a).insert(a, first(items)), chain)
            &&& half_linked(published.insert(b, a), chain)
            &&& half_linked(published.insert(a, first(items)), chain)
        }),
{
    let published = links.insert(a, UNLINKED).insert(b, UNLINKED);
    let chain = cons(b, cons(a, items));
    assert(chain[0] == b);
    assert(chain[1] == a);
    assert(forall|i: int| 2 <= i < chain.len() ==> chain[i] == items[i - 2]);
    let x = published.insert(a, first(items)).insert(b, a);
    let y = published.insert(b, a).insert(a, first(items));
    assert(x =~= y);
    assert forall|i: int| 0 <= i < chain.len() implies #[trigger] x[chain[i]] == succ(chain, i) by {
        if i >= 2 {
            assert(items.contains(items[i - 2]));
            assert(links[items[i - 2]] == succ(items, i - 2));
        }
    }
    assert forall|i: int| 0 <= i < chain.len() implies {
        &&& published[chain[i]] == succ(chain, i) || published[chain[i]] == UNLINKED
    } by {
        if i >= 2 {
            assert(items.contains(items[i - 2]));
            assert(links[items[i - 2]] == succ(items, i - 2));
        }
    }
    let v = published.insert(b, a);
    assert forall|i: int| 0 <= i < chain.len() implies #[trigger] v[chain[i]] == succ(chain, i)
        || v[chain[i]] == UNLINKED by {
        if i >= 2 {
            assert(items.contains(items[i - 2]));
            assert(links[items[i - 2]] == succ(items, i - 2));
        }
    }
    let w = published.insert(a, first(items));
    assert forall|i: int| 0 <= i < chain.len() implies #[trigger] w[chain[i]] == succ(chain, i)
        || w[chain[i]] == UNLINKED by {
        if i >= 2 {
            assert(items.contains(items[i - 2]));
            assert(links[items[i - 2]] == succ(items, i - 2));
        }
    }
}

/// A pop takes the first span out of a public list, moves the version on, and
/// keeps the order of the others.
pub proof fn law_pop_is_first_in_first_out(list: SpmcSpanList, mem: MemView)
    requires
        list.wf(mem),
        list.seq().len() > 0,
    ensures
        list.popped().seq() == list.seq().drop_first(),
        !list.popped().seq().contains(list.seq()[0]),
        list.popped().head().version == next_version(list.head().version),
        list.popped().head() != list.head(),
{
    broadcast use SpmcSpanList::lemma_of;

    let rest = list.seq().drop_first();
    if rest.contains(list.seq()[0]) {
        let i = choose|i: int| 0 <= i < rest.len() && rest[i] == list.seq()[0];
        assert(list.seq()[i + 1] != list.seq()[0]);
    }
}

} // verus!
