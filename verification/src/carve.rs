//! Carving fresh spans and runs from the pool.

use crate::chain::{lemma_frame, succ};
use crate::config::{MAX_LARGE_RUN_CLASSES, SPAN_SIZE};
use crate::large::run_class_spans;
use crate::local_list::LocalFreeList;
use crate::remote_mpsc::RemoteMpscFreeList;
use crate::size_class::{class_size, class_to_size, lemma_class_size};
use crate::span::{
    all_blocks, fresh_run, fresh_span, init_run, init_span, is_block, lemma_all_blocks, lemma_block,
    small_span, span_base,
};
use crate::spmc_span_list::SpanNode;
use crate::state::{Home, Key, Kind, Ledger, Path, Place, Unit, WfSpanAllocator};
use crate::stats::{AllocatorStats, StepCounter};
use vstd::arithmetic::power2::pow2;
use vstd::prelude::*;

verus! {

impl<const C: u64, const HG: u64> WfSpanAllocator<C, HG> {
    /// A piece of `spans` spans was carved at the frontier: nothing else
    /// changed.
    pub open spec fn carved(self, post: Self, s: u64, unit: Unit) -> bool {
        &&& s == self.frontier()
        &&& post.frontier() == s + unit.spans * SPAN_SIZE
        &&& post.heaps == self.heaps
        &&& post.help == self.help
        &&& post.registry == self.registry
        &&& post.huge == self.huge
        &&& post.live() == self.live()
        &&& post.units() == self.units().insert(s, unit)
        &&& post.pool.base == self.pool.base
        &&& post.pool.count == self.pool.count
        &&& post.mem@.base == self.mem@.base
        &&& post.mem@.count == self.mem@.count
        &&& post.mem@.larges == self.mem@.larges
    }

    /// The frontier is a fresh span while the pool is not exhausted.
    pub proof fn lemma_frontier(self, spans: int)
        requires
            self.wf(),
            spans >= 1,
            self.pool.next + spans <= self.pool.count,
        ensures
            self.frontier() + spans * SPAN_SIZE <= self.mem@.end(),
            self.frontier() == self.pool.span_at(self.pool.next as int),
            self.frontier() <= u64::MAX,
            self.mem@.is_span(self.frontier() as u64),
            self.mem@.headers.dom().contains(self.frontier() as u64),
            !self.units().dom().contains(self.frontier() as u64),
            !self.place().dom().contains(self.frontier() as u64),
            !self.homes().dom().contains(self.mem@.own_node(self.frontier() as u64)),
            self.frontier() > 0,
    {
        reveal(WfSpanAllocator::assets_ok);
        reveal(WfSpanAllocator::order_ok);
        self.mem.lemma_view();
        let i = self.pool.next as int;
        let c = self.pool.count as int;
        assert((i + spans) * SPAN_SIZE <= c * SPAN_SIZE) by (nonlinear_arith)
            requires
                i + spans <= c,
        ;
        assert((i + spans) * SPAN_SIZE == i * SPAN_SIZE + spans * SPAN_SIZE) by (nonlinear_arith);
        assert(spans * SPAN_SIZE >= SPAN_SIZE) by (nonlinear_arith)
            requires
                spans >= 1,
        ;
        let s = self.frontier() as u64;
        assert((s - self.mem@.base) % (SPAN_SIZE as int) == 0);
        assert(self.mem@.is_span(s));
        if self.units().dom().contains(s) {
            assert(self.units()[s].spans * SPAN_SIZE >= 1) by (nonlinear_arith)
                requires
                    self.units()[s].spans >= 1,
            ;
        }
    }

    /// Order is kept when a header with a fresh node is carved.
    pub(crate) proof fn lemma_carved_order(self, post: Self, s: u64, unit: Unit, tid: u64)
        requires
            self.wf(),
            self.carved(post, s, unit),
            unit.spans >= 1,
            unit.kind is Small || unit.kind is Run,
            self.mem@.is_span(s),
            self.mem@.headers.dom().contains(s),
            !self.place().dom().contains(s),
            !self.homes().dom().contains(self.mem@.own_node(s)),
            post.mem.wf(),
            post.mem@.headers == self.mem@.headers.insert(s, post.header(s)),
            post.header(s).owner == tid,
            tid < self.n(),
            post.header(s).node == self.mem@.own_node(s),
            post.mem@.nodes == self.mem@.nodes.insert(self.mem@.own_node(s), SpanNode::fresh()),
            post.homes() == self.homes().insert(self.mem@.own_node(s), Home::Span(s)),
            post.place() == self.place().insert(s, Place::Held(tid)),
        ensures
            post.order_ok(),
    {
        reveal(WfSpanAllocator::order_ok);
        let node = self.mem@.own_node(s);
        self.mem.lemma_view();
        assert(self.mem@.nodes.dom().contains(node));
        assert(node != 0);
        assert(post.mem@.headers.dom() =~= self.mem@.headers.dom());
        assert forall|k: Key| #[trigger] post.valid(k) implies post.local_ok(k) && post.public_ok(k)
            && post.record_ok(k) by {
            assert(self.valid(k));
            let items = self.local(k).seq();
            assert forall|i: int| 0 <= i < items.len() implies (#[trigger] post.mem@.headers[items[i]]).local.next_local
                == succ(items, i) by {
                assert(self.at(items[i], Place::Local(k)));
                assert(self.mem@.headers[items[i]].local.next_local == succ(items, i));
            }
            let b = self.public(k);
            assert forall|i: int| 0 <= i < b.chain().len() implies #[trigger] b.chain()[i]
                != node by {
                assert(self.homes().dom().contains(b.chain()[i]));
            }
            assert forall|i: int| 0 <= i < b.chain().len() implies (
            #[trigger] post.mem@.nodes[b.chain()[i]]).next == succ(b.chain(), i) by {
                assert(self.mem@.nodes[b.chain()[i]].next == succ(b.chain(), i));
                assert(b.chain()[i] != node);
            }
            assert forall|i: int| 0 <= i < b.seq().len() implies #[trigger] b.seq()[i] != 0
                && post.mem@.headers.dom().contains(b.seq()[i])
                && post.mem@.nodes[b.chain()[i + 1]].span == b.seq()[i] by {
                assert(b.chain()[i + 1] != node);
                assert(self.mem@.nodes[b.chain()[i + 1]].span == b.seq()[i]);
            }
            assert forall|i: int| 0 <= i < b.seq().len() implies post.at(
                #[trigger] b.seq()[i],
                Place::Public(k),
            ) by {
                assert(self.at(b.seq()[i], Place::Public(k)));
            }
        }
        assert forall|x: u64| #[trigger] post.place().dom().contains(x) implies post.place_ok(x) by {
            if x != s {
                assert(self.place_ok(x));
            }
        }
        assert(unit.spans * SPAN_SIZE >= SPAN_SIZE) by (nonlinear_arith)
            requires
                unit.spans >= 1,
        ;
        assert forall|a: u64|
            post.mem@.is_span(a) && a >= post.frontier() implies !post.homes().dom().contains(
            #[trigger] post.mem@.own_node(a),
        ) by {
            assert(self.mem@.is_span(a));
            assert(!self.homes().dom().contains(self.mem@.own_node(a)));
            assert(self.mem@.own_node(a) != node) by {
                let x = (a - self.mem@.base) / (SPAN_SIZE as int);
                let y = (s - self.mem@.base) / (SPAN_SIZE as int);
                assert(x != y);
                self.lemma_node_index(a);
                self.lemma_node_index(s);
            }
        }
        assert forall|x: u64| #[trigger] post.homes().dom().contains(
            x,
        ) implies post.mem@.nodes.dom().contains(x) by {
        }
    }

    /// The index of a span fits a node id.
    proof fn lemma_node_index(self, a: u64)
        requires
            self.mem.wf(),
            self.mem@.is_span(a),
        ensures
            0 <= (a - self.mem@.base) / (SPAN_SIZE as int) < u64::MAX,
    {
        self.mem.lemma_view();
    }

    /// Assets are kept when a piece is carved: the new one is sound, and the
    /// links of no other span's block changed.
    pub(crate) proof fn lemma_carved_assets(self, post: Self, s: u64, unit: Unit)
        requires
            self.wf(),
            self.carved(post, s, unit),
            unit.spans >= 1,
            self.mem@.is_span(s),
            !self.units().dom().contains(s),
            post.mem.wf(),
            post.mem@.headers.dom() == self.mem@.headers.dom(),
            forall|x: u64| #[trigger]
                self.place().dom().contains(x) ==> post.header(x) == self.header(x),
            post.mem@.links.dom() == self.mem@.links.dom(),
            forall|a: u64|
                self.mem@.links.dom().contains(a) && !(s <= a < s + SPAN_SIZE)
                    ==> #[trigger] post.mem@.links[a] == self.mem@.links[a],
            post.place() == (if unit.kind is Huge {
                self.place()
            } else {
                self.place().insert(s, post.place()[s])
            }),
            !(unit.kind is Huge) ==> !(post.place()[s] is Live) && post.unit_sound(s),
            unit.kind is Small ==> forall|b: u64|
                is_block(s, post.header(s).block_size as int, b)
                    ==> #[trigger] post.header(s).free_blocks().contains(b),
            post.frontier() <= self.mem@.end(),
        ensures
            post.assets_ok(),
    {
        self.mem.lemma_view();
        assert forall|p: u64| #[trigger] self.live().dom().contains(p) implies p < s by {
            self.lemma_live_in_unit(p);
            reveal(WfSpanAllocator::assets_ok);
        }
        assert(!self.place().dom().contains(s)) by {
            reveal(WfSpanAllocator::assets_ok);
        }
        reveal(WfSpanAllocator::assets_ok);
        assert(unit.spans * SPAN_SIZE >= SPAN_SIZE) by (nonlinear_arith)
            requires
                unit.spans >= 1,
        ;
        assert forall|u: u64| #[trigger] self.units().dom().contains(u) implies u < s by {
            assert(self.units()[u].spans * SPAN_SIZE >= SPAN_SIZE) by (nonlinear_arith)
                requires
                    self.units()[u].spans >= 1,
            ;
        }
        assert(post.units_ok()) by {
            assert forall|u: u64| #[trigger] post.units().dom().contains(u) implies {
                &&& post.mem@.is_span(u)
                &&& post.units()[u].spans >= 1
                &&& u + post.units()[u].spans * SPAN_SIZE <= post.frontier()
            } by {
                if u != s {
                    assert(self.units().dom().contains(u));
                }
            }
            assert forall|u: u64, v: u64|
                #![trigger post.units().dom().contains(u), post.units().dom().contains(v)]
                post.units().dom().contains(u) && post.units().dom().contains(v) && u
                    < v implies u + post.units()[u].spans * SPAN_SIZE <= v by {
                if u != s {
                    assert(self.units().dom().contains(u));
                }
                if v != s {
                    assert(self.units().dom().contains(v));
                }
            }
            assert forall|u: u64| #[trigger] post.place().dom().contains(u)
                <==> post.units().dom().contains(u) && !(post.units()[u].kind is Huge) by {
                assert(self.place().dom().contains(u) <==> self.units().dom().contains(u) && !(
                self.units()[u].kind is Huge));
            }
        }
        assert forall|x: u64| #[trigger] post.place().dom().contains(x) implies post.unit_sound(
            x,
        ) by {
            if x != s {
                assert(self.unit_sound(x));
                assert(self.place().dom().contains(x));
                if self.units()[x].kind is Small {
                    self.lemma_span_below(post, s, x);
                }
            }
        }
        assert forall|p: u64| #[trigger] post.live().dom().contains(p) implies post.live_entry(
            p,
        ) by {
            assert(self.live_entry(p));
            match Self::dispatch(self.live()[p]) {
                Path::Small(_) => {
                    assert(self.place().dom().contains(span_base(p)));
                },
                Path::Large => {
                    assert(self.at(self.run_of(p), Place::Live(p)));
                    assert(self.place().dom().contains(self.run_of(p)));
                },
                Path::Huge => {
                    let (c, k) = choose|c: int, k: int| #[trigger] self.slot_serves(c, k, p);
                    assert(post.slot_serves(c, k, p));
                },
            }
        }
        assert forall|x: u64, b: u64|
            post.place().dom().contains(x) && post.units()[x].kind is Small && is_block(
                x,
                post.header(x).block_size as int,
                b,
            ) implies post.block_ok(x, b) by {
            if x != s {
                assert(self.place().dom().contains(x));
                assert(self.block_ok(x, b));
            } else {
                assert(post.unit_sound(s));
                lemma_block(&post.mem, s, post.header(s).block_size, b);
            }
        }
        assert forall|r: u64, p: u64| #[trigger] post.at(r, Place::Live(p)) implies post.run_live(
            r,
            p,
        ) by {
            assert(r != s);
            assert(self.at(r, Place::Live(p)));
            assert(self.run_live(r, p));
        }
        assert forall|c: int, k: int| 0 <= c < 3 && 0 <= k < 4 implies #[trigger] post.slot_ok(
            c,
            k,
        ) by {
            assert(self.slot_ok(c, k));
        }
        assert forall|c: int, k: int, d: int, j: int|
            #![trigger post.slot(c, k), post.slot(d, j)]
            0 <= c < 3 && 0 <= k < 4 && 0 <= d < 3 && 0 <= j < 4 && post.slot(c, k).base != 0
                && post.slot(c, k).base == post.slot(d, j).base implies c == d && k == j by {
            assert(self.slot(c, k) == post.slot(c, k));
            assert(self.slot(d, j) == post.slot(d, j));
        }
    }

    /// A span below a carved piece stays sound.
    proof fn lemma_span_below(self, post: Self, s: u64, x: u64)
        requires
            self.mem.wf(),
            self.mem@.is_span(x),
            self.mem@.is_span(s),
            small_span(self.mem@, x),
            x < s,
            post.header(x) == self.header(x),
            post.mem@.headers.dom() == self.mem@.headers.dom(),
            post.mem@.links.dom() == self.mem@.links.dom(),
            forall|a: u64|
                self.mem@.links.dom().contains(a) && !(s <= a < s + SPAN_SIZE)
                    ==> #[trigger] post.mem@.links[a] == self.mem@.links[a],
        ensures
            small_span(post.mem@, x),
    {
        let h = self.header(x);
        let all = h.free_blocks();
        let l = h.local.free.seq();
        let p = h.local.pending@;
        let r = h.remote.free.seq();
        self.mem.lemma_view();
        assert(x + SPAN_SIZE <= s);
        assert forall|i: int| 0 <= i < all.len() implies post.mem@.links.dom().contains(
            #[trigger] all[i],
        ) && post.mem@.links[all[i]] == self.mem@.links[all[i]] by {
            lemma_block(&self.mem, x, h.block_size, all[i]);
        }
        assert forall|i: int| 0 <= i < l.len() implies post.mem@.links.dom().contains(
            #[trigger] l[i],
        ) && post.mem@.links[l[i]] == self.mem@.links[l[i]] by {
            assert(all[i] == l[i]);
        }
        lemma_frame(self.mem@.links, post.mem@.links, l);
        assert forall|i: int| 0 <= i < p.len() implies post.mem@.links.dom().contains(
            #[trigger] p[i],
        ) && post.mem@.links[p[i]] == self.mem@.links[p[i]] by {
            assert(all[l.len() + i] == p[i]);
        }
        lemma_frame(self.mem@.links, post.mem@.links, p);
        assert forall|i: int| 0 <= i < r.len() implies post.mem@.links.dom().contains(
            #[trigger] r[i],
        ) && post.mem@.links[r[i]] == self.mem@.links[r[i]] by {
            assert(all[l.len() + p.len() + i] == r[i]);
        }
        lemma_frame(self.mem@.links, post.mem@.links, r);
    }

    /// Carve one span for a size class and hold it, or return 0 when the pool
    /// is exhausted.
    pub(crate) fn carve_span(&mut self, class: u64, tid: u64, step: &mut StepCounter) -> (s: u64)
        requires
            old(self).wf(),
            class < C,
            tid < old(self).n(),
            old(step).room(1),
        ensures
            final(self).wf(),
            s == 0 <==> old(self).pool.next >= old(self).pool.count,
            s == 0 ==> {
                &&& old(self).inert_but_pool(*final(self))
                &&& final(self).ledger == old(self).ledger
                &&& final(self).heaps == old(self).heaps
                &&& final(self).help == old(self).help
                &&& final(self).mem == old(self).mem
                &&& final(self).stats == old(self).stats
            },
            s != 0 ==> {
                &&& old(self).carved(*final(self), s, Unit { kind: Kind::Small, spans: 1 })
                &&& final(self).at(s, Place::Held(tid))
                &&& final(self).place() == old(self).place().insert(s, Place::Held(tid))
                &&& !old(self).place().dom().contains(s)
                &&& final(self).header(s) == fresh_span(
                    s,
                    class,
                    class_size(class as int) as u64,
                    tid,
                    old(self).mem@.own_node(s),
                )
                &&& forall|x: u64| #[trigger]
                    old(self).place().dom().contains(x) ==> final(self).header(x) == old(
                        self,
                    ).header(x)
                &&& final(self).stats == old(self).stats.spans_carved()
                &&& final(self).mem@.links.dom() == old(self).mem@.links.dom()
                &&& forall|a: u64|
                    old(self).mem@.links.dom().contains(a) && !(s <= a < s + SPAN_SIZE)
                        ==> #[trigger] final(self).mem@.links[a] == old(self).mem@.links[a]
            },
            final(self).pool.next == (if old(self).pool.next < u64::MAX {
                (old(self).pool.next + 1) as u64
            } else {
                u64::MAX
            }),
            *final(step) == (StepCounter { faa_ops: (old(step).faa_ops + 1) as u64, ..*old(step) }),
    {
        let ghost pre = *self;
        proof {
            lemma_class_size(class as int);
            if pre.pool.next < pre.pool.count {
                pre.lemma_frontier(1);
            }
        }
        let raw: u64 = self.pool.acquire_raw_span(step);
        if raw == 0 {
            proof {
                assert(pre.pool.next >= pre.pool.count);
                pre.lemma_pool_only(*self);
            }
            return 0;
        }
        let size: u64 = class_to_size(class);
        let ghost node = pre.mem@.own_node(raw);
        let s: u64 = init_span(&mut self.mem, raw, class, size, tid);
        AllocatorStats::bump(&mut self.stats.allocated_spans);
        let ghost unit = Unit { kind: Kind::Small, spans: 1 };
        self.ledger = Ghost(
            Ledger {
                place: self.ledger@.place.insert(s, Place::Held(tid)),
                homes: self.ledger@.homes.insert(node, Home::Span(s)),
                units: self.ledger@.units.insert(s, unit),
                ..self.ledger@
            },
        );
        proof {
            broadcast use LocalFreeList::lemma_of, RemoteMpscFreeList::lemma_of;

            assert(self.frontier() == s + SPAN_SIZE);
            assert(pre.carved(*self, s, unit));
            assert(self.mem@.headers.dom() =~= pre.mem@.headers.dom());
            pre.lemma_carved_order(*self, s, unit, tid);
            pre.mem.lemma_view();
            assert forall|a: u64|
                pre.mem@.links.dom().contains(a) && !(s <= a < s
                    + SPAN_SIZE) implies #[trigger] self.mem@.links[a] == pre.mem@.links[a] by {
                if is_block(s, size as int, a) {
                    lemma_block(&pre.mem, s, size, a);
                }
            }
            lemma_all_blocks(s, size);
            let h = self.header(s);
            assert(h.free_blocks() =~= all_blocks(s, size as int));
            pre.lemma_carved_assets(*self, s, unit);
        }
        s
    }

    /// What stays when only the pool's counter moved on.
    pub open spec fn inert_but_pool(self, post: Self) -> bool {
        &&& post.n() == self.n()
        &&& post.pool.base == self.pool.base
        &&& post.pool.count == self.pool.count
        &&& post.pool.used() == self.pool.used()
        &&& post.registry == self.registry
        &&& post.huge == self.huge
    }

    /// The state stays sound when only the pool's counter moves on and no
    /// span is handed out.
    pub(crate) proof fn lemma_pool_only(self, post: Self)
        requires
            self.wf(),
            self.inert_but_pool(post),
            post.heaps == self.heaps,
            post.help == self.help,
            post.mem == self.mem,
            post.ledger == self.ledger,
        ensures
            post.wf(),
    {
        assert(post.shape());
        self.lemma_order_frame(post);
        self.lemma_assets_frame(post);
    }

    /// Carve a run of a class and hold it, or return 0 where it does not fit.
    pub(crate) fn carve_run(&mut self, class: u64, tid: u64, step: &mut StepCounter) -> (s: u64)
        requires
            old(self).wf(),
            class < MAX_LARGE_RUN_CLASSES,
            tid < old(self).n(),
            old(step).room(1),
        ensures
            final(self).wf(),
            s == 0 <==> old(self).pool.next + pow2(class as nat) > old(self).pool.count,
            s == 0 ==> {
                &&& old(self).inert_but_pool(*final(self))
                &&& final(self).pool == old(self).pool
                &&& final(self).ledger == old(self).ledger
                &&& final(self).heaps == old(self).heaps
                &&& final(self).help == old(self).help
                &&& final(self).mem == old(self).mem
                &&& final(self).stats == old(self).stats
            },
            s != 0 ==> {
                &&& old(self).carved(
                    *final(self),
                    s,
                    Unit { kind: Kind::Run, spans: pow2(class as nat) },
                )
                &&& final(self).at(s, Place::Held(tid))
                &&& final(self).place() == old(self).place().insert(s, Place::Held(tid))
                &&& !old(self).place().dom().contains(s)
                &&& final(self).header(s) == fresh_run(
                    class,
                    pow2(class as nat) as u64,
                    tid,
                    old(self).mem@.own_node(s),
                )
                &&& forall|x: u64| #[trigger]
                    old(self).place().dom().contains(x) ==> final(self).header(x) == old(
                        self,
                    ).header(x)
                &&& final(self).stats == old(self).stats.runs_carved()
                &&& final(self).pool.next == old(self).pool.next + pow2(class as nat)
                &&& final(self).mem@.links == old(self).mem@.links
            },
            *final(step) == old(self).pool.run_count(pow2(class as nat) as int, *old(step)),
    {
        let ghost pre = *self;
        let count: u64 = run_class_spans(class);
        proof {
            vstd::arithmetic::power2::lemma2_to64();
            vstd::arithmetic::power2::lemma_pow2_pos(class as nat);
            if class < 16 {
                vstd::arithmetic::power2::lemma_pow2_strictly_increases(class as nat, 16);
            }
            if pre.pool.next + count <= pre.pool.count {
                pre.lemma_frontier(count as int);
            }
        }
        let raw: u64 = self.pool.acquire_raw_run(count, step);
        if raw == 0 {
            proof {
                pre.lemma_pool_only(*self);
            }
            return 0;
        }
        let ghost node = pre.mem@.own_node(raw);
        let s: u64 = init_run(&mut self.mem, raw, class, count, tid);
        AllocatorStats::bump(&mut self.stats.allocated_runs);
        let ghost unit = Unit { kind: Kind::Run, spans: pow2(class as nat) };
        self.ledger = Ghost(
            Ledger {
                place: self.ledger@.place.insert(s, Place::Held(tid)),
                homes: self.ledger@.homes.insert(node, Home::Span(s)),
                units: self.ledger@.units.insert(s, unit),
                ..self.ledger@
            },
        );
        proof {
            assert((pre.pool.next + count) * SPAN_SIZE == pre.pool.next * SPAN_SIZE + count
                * SPAN_SIZE) by (nonlinear_arith);
            assert(self.frontier() == s + count * SPAN_SIZE);
            assert(pre.carved(*self, s, unit));
            assert(self.mem@.headers.dom() =~= pre.mem@.headers.dom());
            pre.lemma_carved_order(*self, s, unit, tid);
            pre.mem.lemma_view();
            assert(self.unit_sound(s));
            pre.lemma_carved_assets(*self, s, unit);
        }
        s
    }
}

impl AllocatorStats {
    /// One more raw span taken from the pool.
    pub open spec fn spans_carved(self) -> AllocatorStats {
        AllocatorStats { allocated_spans: crate::stats::bumped(self.allocated_spans), ..self }
    }

    /// One more raw run taken from the pool.
    pub open spec fn runs_carved(self) -> AllocatorStats {
        AllocatorStats { allocated_runs: crate::stats::bumped(self.allocated_runs), ..self }
    }
}

} // verus!
