//! Handing runs to the user and taking them back.

use crate::chain::succ;
use crate::config::{MAX_LARGE_RUN_CLASSES, OWNER_PUBLIC, SPAN_HEADER_RESERVE, SPAN_SIZE};
use crate::huge::{huge_payload, HUGE_SLOT_ALLOCATED};
use crate::large::{
    large_need, large_payload, lemma_large_payload, place_large_payload, LARGE_HEADER_SIZE,
};
use crate::layout::Layout;
use crate::span::{is_block, lemma_block, span_base, SpanHeader, SpanState};
use crate::state::{Key, Ledger, Path, Place, WfSpanAllocator};
use vstd::arithmetic::power2::pow2;
use vstd::prelude::*;

verus! {

impl<const C: u64, const HG: u64> WfSpanAllocator<C, HG> {
    /// `a` lies in the carved piece at `u`.
    pub open spec fn inside(self, u: u64, a: int) -> bool {
        u <= a < u + self.units()[u].spans * SPAN_SIZE
    }

    /// Only the run at `r`, the hidden headers in it and the live allocation
    /// in it changed.
    pub open spec fn only_run(self, post: Self, r: u64) -> bool {
        &&& post.heaps == self.heaps
        &&& post.help == self.help
        &&& post.pool == self.pool
        &&& post.registry == self.registry
        &&& post.huge == self.huge
        &&& post.homes() == self.homes()
        &&& post.units() == self.units()
        &&& post.place() == self.place().insert(r, post.place()[r])
        &&& post.mem@.base == self.mem@.base
        &&& post.mem@.count == self.mem@.count
        &&& post.mem@.nodes == self.mem@.nodes
        &&& post.mem@.links == self.mem@.links
        &&& post.mem@.headers == self.mem@.headers.insert(
            r,
            SpanHeader {
                owner: post.header(r).owner,
                state: post.header(r).state,
                ..self.header(r)
            },
        )
        &&& post.mem@.larges.dom() == self.mem@.larges.dom()
        &&& forall|a: u64|
            self.mem@.larges.dom().contains(a) && !self.inside(r, a as int)
                ==> #[trigger] post.mem@.larges[a] == self.mem@.larges[a]
        &&& forall|p: u64|
            !self.inside(r, p as int) ==> (#[trigger] post.live().dom().contains(p)
                <==> self.live().dom().contains(p)) && (self.live().dom().contains(p)
                ==> post.live()[p] == self.live()[p])
    }

    /// A run's hidden header, and its payload, lie inside it.
    pub proof fn lemma_run_inside(self, r: u64, p: u64)
        requires
            self.wf(),
            self.at(r, Place::Live(p)),
        ensures
            self.inside(r, p as int),
            self.inside(r, self.mem@.span_of((p - LARGE_HEADER_SIZE) as u64) as int),
            self.mem@.is_span(self.mem@.span_of((p - LARGE_HEADER_SIZE) as u64)),
            r + SPAN_HEADER_RESERVE + LARGE_HEADER_SIZE <= p,
            self.run_of(p) == r,
            self.run_live(r, p),
            self.units()[r].kind is Run,
            self.live().dom().contains(p),
            Self::dispatch(self.live()[p]) is Large,
    {
        reveal(WfSpanAllocator::assets_ok);
        reveal(WfSpanAllocator::order_ok);
        assert(self.run_live(r, p));
        assert(self.place_ok(r));
        assert(self.unit_sound(r));
        assert(self.live_entry(p));
        self.lemma_live_in_unit(p);
        lemma_large_payload(r, self.header(r).size_class, self.live()[p]);
        self.lemma_span_in_unit(r, (p - LARGE_HEADER_SIZE) as u64);
    }

    /// The span of an address in a carved piece is in that piece too.
    pub proof fn lemma_span_in_unit(self, u: u64, a: u64)
        requires
            self.wf(),
            self.units().dom().contains(u),
            self.inside(u, a as int),
        ensures
            self.inside(u, self.mem@.span_of(a) as int),
            self.mem@.is_span(self.mem@.span_of(a)),
            self.mem@.span_of(a) <= a,
            a < self.mem@.end(),
    {
        reveal(WfSpanAllocator::assets_ok);
        self.mem.lemma_view();
        assert(self.mem@.is_span(u));
        let b = self.mem@.base as int;
        let i = (u - b) / (SPAN_SIZE as int);
        let j = (a - b) / (SPAN_SIZE as int);
        assert(self.mem@.span_of(a) == b + j * SPAN_SIZE);
        assert(u == b + i * SPAN_SIZE);
        assert(i <= j);
        assert(self.pool.used() * SPAN_SIZE <= self.pool.count * SPAN_SIZE) by (nonlinear_arith)
            requires
                self.pool.used() <= self.pool.count,
        ;
        let c = self.pool.count as int;
        assert(j < c) by (nonlinear_arith)
            requires
                j * SPAN_SIZE <= a - b,
                a - b < c * SPAN_SIZE,
        ;
        assert(j * SPAN_SIZE + SPAN_SIZE <= c * SPAN_SIZE) by (nonlinear_arith)
            requires
                j < c,
        ;
    }

    /// The state stays sound when only one run changed, and that one is sound.
    pub(crate) proof fn lemma_run_step(self, post: Self, r: u64)
        requires
            self.wf(),
            self.place().dom().contains(r),
            self.units()[r].kind is Run,
            self.place()[r] is Held || self.place()[r] is Live,
            self.only_run(post, r),
            post.mem.wf(),
            match post.place()[r] {
                Place::Live(p) => {
                    &&& post.header(r).owner < self.n()
                    &&& post.run_live(r, p)
                    &&& post.live()[p].valid()
                    &&& p != 0
                    &&& self.inside(r, p as int)
                    &&& forall|q: u64| #[trigger]
                        post.live().dom().contains(q) && self.inside(r, q as int) ==> q == p
                },
                Place::Held(t) => {
                    &&& t < self.n()
                    &&& post.header(r).owner == t
                    &&& forall|q: u64| #[trigger]
                        post.live().dom().contains(q) ==> !self.inside(r, q as int)
                },
                Place::Transit(t) => {
                    &&& t < self.n()
                    &&& post.header(r).owner == OWNER_PUBLIC
                    &&& post.header(r).state == SpanState::RunFreePublic
                    &&& forall|q: u64| #[trigger]
                        post.live().dom().contains(q) ==> !self.inside(r, q as int)
                },
                _ => false,
            },
        ensures
            post.wf(),
    {
        assert(self.place_ok(r)) by {
            reveal(WfSpanAllocator::order_ok);
        }
        assert(post.mem@.headers.dom() =~= self.mem@.headers.dom());
        assert(post.place().dom() =~= self.place().dom());
        assert(post.order_ok()) by {
            reveal(WfSpanAllocator::order_ok);
            assert forall|j: Key| #[trigger] post.valid(j) implies post.local_ok(j)
                && post.public_ok(j) && post.record_ok(j) by {
                assert(self.valid(j));
                let l = self.local(j).seq();
                assert forall|i: int| 0 <= i < l.len() implies (#[trigger] post.mem@.headers[l[i]]).local.next_local
                    == succ(l, i) by {
                    assert(self.at(l[i], Place::Local(j)));
                    assert(self.mem@.headers[l[i]].local.next_local == succ(l, i));
                }
            }
            assert forall|x: u64| #[trigger] post.place().dom().contains(x) implies post.place_ok(
                x,
            ) by {
                assert(self.place_ok(x));
            }
            assert forall|a: u64|
                post.mem@.is_span(a) && a >= post.frontier() implies !post.homes().dom().contains(
                #[trigger] post.mem@.own_node(a),
            ) by {
                assert(!self.homes().dom().contains(self.mem@.own_node(a)));
            }
        }
        // Live allocations of other pieces lie outside the run.
        assert forall|p: u64|
            self.live().dom().contains(p) && self.unit_of(p) != r implies !self.inside(
            r,
            p as int,
        ) by {
            self.lemma_live_in_unit(p);
            if self.inside(r, p as int) {
                assert(self.units().dom().contains(r)) by {
                    reveal(WfSpanAllocator::assets_ok);
                }
                self.lemma_unit_unique(r, self.unit_of(p), p as int);
            }
        }
        assert forall|p: u64| #[trigger]
            self.live().dom().contains(p) && !self.inside(r, p as int) implies self.unit_of(p)
            != r by {
            self.lemma_live_in_unit(p);
        }
        assert(post.assets_ok()) by {
            reveal(WfSpanAllocator::assets_ok);
            assert forall|x: u64| #[trigger] post.place().dom().contains(x) implies post.unit_sound(
                x,
            ) by {
                assert(self.unit_sound(x));
            }
            assert forall|p: u64| #[trigger] post.live().dom().contains(p) implies post.live_entry(
                p,
            ) by {
                if self.inside(r, p as int) {
                    assert(post.at(r, post.place()[r]));
                } else {
                    assert(self.live_entry(p));
                    self.lemma_live_in_unit(p);
                    match Self::dispatch(self.live()[p]) {
                        Path::Small(_) => {
                            assert(span_base(p) != r);
                        },
                        Path::Large => {
                            let u = self.run_of(p);
                            assert(self.at(u, Place::Live(p)));
                            assert(u != r);
                            self.lemma_hidden_kept(post, r, u, p);
                        },
                        Path::Huge => {
                            let (c, k) = choose|c: int, k: int| #[trigger]
                                self.slot_serves(c, k, p);
                            assert(post.slot_serves(c, k, p));
                        },
                    }
                }
            }
            assert forall|x: u64, b: u64|
                post.place().dom().contains(x) && post.units()[x].kind is Small && is_block(
                    x,
                    post.header(x).block_size as int,
                    b,
                ) implies post.block_ok(x, b) by {
                assert(self.place().dom().contains(x));
                assert(x != r);
                assert(self.block_ok(x, b));
                self.lemma_block_outside(x, b, r);
            }
            assert forall|x: u64, p: u64| #[trigger] post.at(
                x,
                Place::Live(p),
            ) implies post.run_live(x, p) by {
                if x != r {
                    assert(self.at(x, Place::Live(p)));
                    self.lemma_run_inside(x, p);
                    self.lemma_hidden_kept(post, r, x, p);
                    assert(post.live().dom().contains(p));
                    assert(post.header(x) == self.header(x));
                }
            }
            assert forall|c: int, k: int| 0 <= c < 3 && 0 <= k < 4 implies #[trigger] post.slot_ok(
                c,
                k,
            ) by {
                assert(self.slot_ok(c, k));
                let x = self.slot(c, k);
                let p = huge_payload(x.base, x.requested_align) as u64;
                if x.state == HUGE_SLOT_ALLOCATED {
                    self.lemma_live_in_unit(p);
                    assert(self.unit_of(p) != r);
                    assert(!self.inside(r, p as int));
                    assert(post.live().dom().contains(p));
                }
            }
            assert forall|c: int, k: int, d: int, j: int|
                #![trigger post.slot(c, k), post.slot(d, j)]
                0 <= c < 3 && 0 <= k < 4 && 0 <= d < 3 && 0 <= j < 4 && post.slot(c, k).base != 0
                    && post.slot(c, k).base == post.slot(d, j).base implies c == d && k == j by {
                assert(self.slot(c, k) == post.slot(c, k));
                assert(self.slot(d, j) == post.slot(d, j));
            }
        }
    }

    /// A block of a span lies outside a run.
    proof fn lemma_block_outside(self, x: u64, b: u64, r: u64)
        requires
            self.wf(),
            self.place().dom().contains(x),
            self.units()[x].kind is Small,
            is_block(x, self.header(x).block_size as int, b),
            self.place().dom().contains(r),
            r != x,
        ensures
            !self.inside(r, b as int),
    {
        self.lemma_free_room(x);
        lemma_block(&self.mem, x, self.header(x).block_size, b);
        reveal(WfSpanAllocator::assets_ok);
        assert(self.units().dom().contains(x));
        assert(self.units().dom().contains(r));
        if self.inside(r, b as int) {
            self.lemma_unit_unique(r, x, b as int);
        }
    }

    /// The hidden header of another live run is kept.
    proof fn lemma_hidden_kept(self, post: Self, r: u64, x: u64, p: u64)
        requires
            self.wf(),
            self.place().dom().contains(r),
            self.only_run(post, r),
            x != r,
            self.at(x, Place::Live(p)),
        ensures
            post.hidden(p) == self.hidden(p),
            post.run_of(p) == self.run_of(p),
            !self.inside(r, p as int),
    {
        self.lemma_run_inside(x, p);
        self.mem.lemma_view();
        let a = self.mem@.span_of((p - LARGE_HEADER_SIZE) as u64);
        assert(self.units().dom().contains(r) && self.units().dom().contains(x)) by {
            reveal(WfSpanAllocator::assets_ok);
        }
        if self.inside(r, a as int) {
            self.lemma_unit_unique(r, x, a as int);
        }
        if self.inside(r, p as int) {
            self.lemma_unit_unique(r, x, p as int);
        }
        assert(self.mem@.larges.dom().contains(a));
        assert(post.mem@.larges[a] == self.mem@.larges[a]);
    }

    /// A run that is held has no live allocation in it.
    pub(crate) proof fn lemma_held_run_empty(self, r: u64, q: u64)
        requires
            self.wf(),
            self.place().dom().contains(r),
            self.units()[r].kind is Run,
            !(self.place()[r] is Live),
            self.live().dom().contains(q),
        ensures
            !self.inside(r, q as int),
    {
        self.lemma_live_in_unit(q);
        assert(self.units().dom().contains(r)) by {
            reveal(WfSpanAllocator::assets_ok);
        }
        if self.inside(r, q as int) {
            self.lemma_unit_unique(r, self.unit_of(q), q as int);
        }
    }

    /// A live run has one live allocation in it.
    pub(crate) proof fn lemma_live_run_single(self, r: u64, p: u64, q: u64)
        requires
            self.wf(),
            self.at(r, Place::Live(p)),
            self.live().dom().contains(q),
            self.inside(r, q as int),
        ensures
            q == p,
    {
        self.lemma_live_in_unit(q);
        self.lemma_run_inside(r, p);
        assert(self.units().dom().contains(r)) by {
            reveal(WfSpanAllocator::assets_ok);
        }
        self.lemma_unit_unique(r, self.unit_of(q), q as int);
    }

    /// Facts on a run in the region.
    pub(crate) proof fn lemma_run_bounds(self, r: u64)
        requires
            self.wf(),
            self.place().dom().contains(r),
            self.units()[r].kind is Run,
        ensures
            self.units().dom().contains(r),
            self.header(r).size_class < MAX_LARGE_RUN_CLASSES,
            self.units()[r].spans == pow2(self.header(r).size_class as nat),
            self.mem@.base <= r,
            self.mem@.is_span(r),
            r + pow2(self.header(r).size_class as nat) * SPAN_SIZE <= self.mem@.end(),
            self.mem@.headers.dom().contains(r),
            self.header(r).block_count == pow2(self.header(r).size_class as nat),
    {
        reveal(WfSpanAllocator::assets_ok);
        reveal(WfSpanAllocator::order_ok);
        assert(self.place_ok(r));
        assert(self.unit_sound(r));
        assert(self.pool.used() * SPAN_SIZE <= self.pool.count * SPAN_SIZE) by (nonlinear_arith)
            requires
                self.pool.used() <= self.pool.count,
        ;
    }

    /// Mark a run that the thread holds as allocated, and lay out hidden
    /// header and payload in it.
    pub(crate) fn finish_large(&mut self, run: u64, layout: Layout, tid: Ghost<u64>) -> (p: u64)
        requires
            old(self).wf(),
            old(self).at(run, Place::Held(tid@)),
            old(self).units()[run].kind is Run,
            layout.valid(),
            Self::dispatch(layout) is Large,
            large_need(layout) <= pow2(old(self).header(run).size_class as nat) * SPAN_SIZE,
        ensures
            final(self).wf(),
            p == large_payload(run, layout),
            p != 0,
            !old(self).live().dom().contains(p),
            final(self).live() == old(self).live().insert(p, layout),
            old(self).only_run(*final(self), run),
            final(self).place() == old(self).place().insert(run, Place::Live(p)),
            final(self).header(run).owner == tid@,
            final(self).header(run).state == SpanState::RunAllocated,
            final(self).stats == old(self).stats,
    {
        let ghost pre = *self;
        proof {
            pre.lemma_run_bounds(run);
        }
        let mut h = self.mem.header(run);
        let class: u64 = h.size_class;
        h.state = SpanState::RunAllocated;
        self.mem.set_header(run, h);
        let p: u64 = place_large_payload(&mut self.mem, run, class, layout);
        self.ledger = Ghost(
            Ledger {
                place: self.ledger@.place.insert(run, Place::Live(p)),
                live: self.ledger@.live.insert(p, layout),
                ..self.ledger@
            },
        );
        proof {
            reveal(WfSpanAllocator::order_ok);
            assert(pre.place_ok(run));
            pre.lemma_payload_inside(run, p, layout);
            if pre.live().dom().contains(p) {
                pre.lemma_held_run_empty(run, p);
            }
            let at = (p - LARGE_HEADER_SIZE) as u64;
            pre.lemma_span_in_unit(run, at);
            pre.mem.lemma_view();
            assert(self.mem@.larges.dom() =~= pre.mem@.larges.dom());
            assert(self.hidden(p).at == p - LARGE_HEADER_SIZE);
            assert forall|q: u64| #[trigger]
                self.live().dom().contains(q) && pre.inside(run, q as int) implies q == p by {
                if q != p {
                    pre.lemma_held_run_empty(run, q);
                }
            }
            assert(pre.only_run(*self, run));
            pre.lemma_run_step(*self, run);
        }
        p
    }

    /// A payload that fits lies inside its run.
    proof fn lemma_payload_inside(self, r: u64, p: u64, layout: Layout)
        requires
            self.wf(),
            self.place().dom().contains(r),
            self.units()[r].kind is Run,
            layout.valid(),
            p == large_payload(r, layout),
            large_need(layout) <= pow2(self.header(r).size_class as nat) * SPAN_SIZE,
        ensures
            self.inside(r, p as int),
            self.inside(r, p - LARGE_HEADER_SIZE),
            p > LARGE_HEADER_SIZE,
    {
        self.lemma_run_bounds(r);
        lemma_large_payload(r, self.header(r).size_class, layout);
        crate::align::lemma_is_pow2_bounds(layout.align);
        let a = crate::large::large_align(layout);
        assert(a % 2 == 0) by {
            vstd::arithmetic::power2::lemma2_to64();
            assert(2u64 == pow2(1));
            crate::align::lemma_is_pow2_divides(2, a as u64, a);
        }
        let end = self.units()[r].spans * SPAN_SIZE;
        assert(end % 2 == 0) by {
            assert(end == 2 * (self.units()[r].spans * 32768)) by (nonlinear_arith)
                requires
                    end == self.units()[r].spans * 65536,
            ;
        }
        if layout.size == 0 {
            assert(large_need(layout) != end);
        }
    }

    /// Take a live run back: it is held by the thread, or on its way to a
    /// public list.
    pub(crate) fn retire_large(
        &mut self,
        run: u64,
        owner: u64,
        state: SpanState,
        p: Ghost<u64>,
        to: Ghost<Place>,
    )
        requires
            old(self).wf(),
            old(self).at(run, Place::Live(p@)),
            match to@ {
                Place::Held(t) => t < old(self).n() && owner == t,
                Place::Transit(t) => t < old(self).n() && owner == OWNER_PUBLIC && state
                    == SpanState::RunFreePublic,
                _ => false,
            },
        ensures
            final(self).wf(),
            old(self).only_run(*final(self), run),
            final(self).place() == old(self).place().insert(run, to@),
            final(self).live() == old(self).live().remove(p@),
            final(self).header(run) == (SpanHeader { owner, state, ..old(self).header(run) }),
            final(self).stats == old(self).stats,
            final(self).mem@.larges == old(self).mem@.larges,
    {
        let ghost pre = *self;
        proof {
            pre.lemma_run_inside(run, p@);
            pre.lemma_run_bounds(run);
        }
        let mut h = self.mem.header(run);
        h.owner = owner;
        h.state = state;
        self.mem.set_header(run, h);
        self.ledger = Ghost(
            Ledger {
                place: self.ledger@.place.insert(run, to@),
                live: self.ledger@.live.remove(p@),
                ..self.ledger@
            },
        );
        proof {
            assert forall|q: u64| #[trigger] self.live().dom().contains(q) implies !pre.inside(
                run,
                q as int,
            ) by {
                if pre.inside(run, q as int) {
                    pre.lemma_live_run_single(run, p@, q);
                }
            }
            assert(pre.only_run(*self, run));
            pre.lemma_run_step(*self, run);
        }
    }
}

} // verus!
