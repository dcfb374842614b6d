//! Actions on the free blocks of one span.

use crate::block::UNLINKED;
use crate::chain::{apart, blocks, cons, first, half_linked, lemma_concat, lemma_frame, linked};
use crate::config::SPAN_SIZE;
use crate::huge::{huge_payload, lemma_huge_payload, HUGE_SLOT_ALLOCATED};
use crate::large::{large_align, large_need, lemma_large_payload};
use crate::layout::Layout;
use crate::local_list::LocalFreeList;
use crate::memory::MemView;
use crate::refill::{lemma_refilled, refill_cost, refill_gain, refill_span, refilled};
use crate::remote_mpsc::RemoteMpscFreeList;
use crate::size_class::{class_size, lemma_class_size};
use crate::span::{
    alloc_from_local_span, dealloc_to_local_span, is_block, law_span_of_block, lemma_block,
    lemma_block_pigeonhole, popped, pushed, small_span, span_base, RemoteMeta, SpanHeader,
};
use crate::state::{same_shell, Ledger, Path, Place, WfSpanAllocator};
use crate::stats::{bumped, AllocatorStats, StepCounter};
use vstd::prelude::*;

verus! {

impl<const C: u64, const HG: u64> WfSpanAllocator<C, HG> {
    /// The carved piece that a live allocation lies in.
    pub open spec fn unit_of(self, p: u64) -> u64 {
        match Self::dispatch(self.live()[p]) {
            Path::Small(_) => span_base(p),
            Path::Large => self.run_of(p),
            Path::Huge => {
                let (c, k) = choose|c: int, k: int| #[trigger] self.slot_serves(c, k, p);
                self.slot(c, k).base
            },
        }
    }

    /// A live allocation lies inside its carved piece, whose kind is that of
    /// its path.
    pub proof fn lemma_live_in_unit(self, p: u64)
        requires
            self.wf(),
            self.live().dom().contains(p),
        ensures
            ({
                let u = self.unit_of(p);
                let l = self.live()[p];
                &&& self.units().dom().contains(u)
                &&& u <= p < u + self.units()[u].spans * SPAN_SIZE
                &&& p + l.size <= u + self.units()[u].spans * SPAN_SIZE
                &&& p % l.align == 0
                &&& match Self::dispatch(l) {
                    Path::Small(_) => self.units()[u].kind is Small,
                    Path::Large => self.units()[u].kind is Run && self.at(u, Place::Live(p)),
                    Path::Huge => self.units()[u].kind is Huge,
                }
            }),
    {
        reveal(WfSpanAllocator::assets_ok);
        reveal(WfSpanAllocator::order_ok);
        assert(self.live_entry(p));
        let l = self.live()[p];
        let u = self.unit_of(p);
        crate::align::lemma_is_pow2_bounds(l.align);
        match Self::dispatch(l) {
            Path::Small(c) => {
                assert(self.place().dom().contains(u));
                assert(self.unit_sound(u));
                assert(small_span(self.mem@, u));
                self.mem.lemma_view();
                lemma_block(&self.mem, u, self.header(u).block_size, p);
                crate::size_class::lemma_class_for(l.size as int, l.align as int);
                lemma_class_size(c as int);
                crate::align::lemma_is_pow2_divides(
                    l.align,
                    self.header(u).block_size,
                    p as int,
                );
            },
            Path::Large => {
                assert(self.at(u, Place::Live(p)));
                assert(self.run_live(u, p));
                assert(self.place_ok(u));
                assert(self.unit_sound(u));
                lemma_large_payload(u, self.header(u).size_class, l);
                let a = large_align(l);
                assert(a % 2 == 0) by {
                    vstd::arithmetic::power2::lemma2_to64();
                    assert(2u64 == vstd::arithmetic::power2::pow2(1));
                    crate::align::lemma_is_pow2_divides(2, a as u64, a);
                }
                let end = self.units()[u].spans * SPAN_SIZE;
                assert(end % 2 == 0) by {
                    assert(end == 2 * (self.units()[u].spans * 32768)) by (nonlinear_arith)
                        requires
                            end == self.units()[u].spans * 65536,
                    ;
                }
                if l.size == 0 {
                    assert(large_need(l) != end);
                }
            },
            Path::Huge => {
                let (c, k) = choose|c: int, k: int| #[trigger] self.slot_serves(c, k, p);
                assert(self.slot_serves(c, k, p));
                assert(self.slot_ok(c, k));
                self.mem.lemma_view();
                assert(self.mem@.is_span(u));
                assert(u % SPAN_SIZE == 0);
                lemma_huge_payload(u, l);
                let g = vstd::arithmetic::power2::pow2(c as nat);
                assert(self.units()[u].spans * SPAN_SIZE == g * (HG * SPAN_SIZE))
                    by (nonlinear_arith)
                    requires
                        self.units()[u].spans == g * HG,
                ;
                assert(l.size >= HG * SPAN_SIZE);
                assert(HG * SPAN_SIZE >= 1) by (nonlinear_arith)
                    requires
                        HG >= 1,
                ;
            },
        }
    }

    /// Carved pieces that share an address are the same.
    pub proof fn lemma_unit_unique(self, u: u64, v: u64, a: int)
        requires
            self.wf(),
            self.units().dom().contains(u),
            self.units().dom().contains(v),
            u <= a < u + self.units()[u].spans * SPAN_SIZE,
            v <= a < v + self.units()[v].spans * SPAN_SIZE,
        ensures
            u == v,
    {
        reveal(WfSpanAllocator::assets_ok);
    }

    /// A live block of a span was allocated on the small path.
    pub proof fn lemma_live_block(self, s: u64, b: u64)
        requires
            self.wf(),
            self.place().dom().contains(s),
            self.units()[s].kind is Small,
            self.live().dom().contains(b),
            is_block(s, self.header(s).block_size as int, b),
        ensures
            Self::dispatch(self.live()[b]) == Path::Small(self.header(s).size_class),
            span_base(b) == s,
            self.unit_of(b) == s,
    {
        self.lemma_live_in_unit(b);
        reveal(WfSpanAllocator::assets_ok);
        assert(self.unit_sound(s));
        self.mem.lemma_view();
        lemma_block(&self.mem, s, self.header(s).block_size, b);
        self.lemma_unit_unique(s, self.unit_of(b), b as int);
        assert(self.live_entry(b));
    }

    /// An action on the blocks of `s`: nothing else changed.
    pub open spec fn only_blocks(self, post: Self, s: u64) -> bool {
        let bs = self.header(s).block_size as int;
        &&& post.heaps == self.heaps
        &&& post.help == self.help
        &&& post.pool == self.pool
        &&& post.registry == self.registry
        &&& post.huge == self.huge
        &&& post.place() == self.place()
        &&& post.homes() == self.homes()
        &&& post.units() == self.units()
        &&& post.mem@.base == self.mem@.base
        &&& post.mem@.count == self.mem@.count
        &&& post.mem@.nodes == self.mem@.nodes
        &&& post.mem@.larges == self.mem@.larges
        &&& post.mem@.headers == self.mem@.headers.insert(s, post.header(s))
        &&& same_shell(self.header(s), post.header(s))
        &&& post.header(s).block_size == self.header(s).block_size
        &&& post.mem@.links.dom() == self.mem@.links.dom()
        &&& forall|a: u64|
            self.mem@.links.dom().contains(a) && !is_block(s, bs, a)
                ==> #[trigger] post.mem@.links[a] == self.mem@.links[a]
        &&& forall|p: u64|
            !is_block(s, bs, p) ==> (#[trigger] post.live().dom().contains(p)
                <==> self.live().dom().contains(p)) && (self.live().dom().contains(p)
                ==> post.live()[p] == self.live()[p])
    }

    /// The state stays sound when the blocks of `s` do.
    pub proof fn lemma_blocks_step(self, post: Self, s: u64)
        requires
            self.wf(),
            self.place().dom().contains(s),
            self.units()[s].kind is Small,
            self.only_blocks(post, s),
            post.mem.wf(),
            small_span(post.mem@, s),
            forall|b: u64|
                is_block(s, self.header(s).block_size as int, b) ==> #[trigger] post.block_ok(s, b),
            forall|b: u64|
                is_block(s, self.header(s).block_size as int, b) && post.live().dom().contains(b)
                    ==> (#[trigger] post.live()[b]).valid() && Self::dispatch(post.live()[b])
                    == Path::Small(self.header(s).size_class),
        ensures
            post.wf(),
    {
        let bs = self.header(s).block_size;
        assert(self.place_ok(s)) by {
            reveal(WfSpanAllocator::order_ok);
        }
        assert(post.mem@.headers.dom() =~= self.mem@.headers.dom());
        assert(self.unit_sound(s)) by {
            reveal(WfSpanAllocator::assets_ok);
        }
        assert forall|x: u64| #[trigger] self.place().dom().contains(x) implies {
            &&& same_shell(self.header(x), post.header(x))
            &&& self.units()[x].kind is Run ==> self.header(x).state == post.header(x).state
        } by {
        }
        self.lemma_order_frame(post);
        self.mem.lemma_view();
        // Blocks of other spans are not blocks of `s`, nor are payloads of
        // other paths.
        assert forall|x: u64, b: u64|
            self.place().dom().contains(x) && x != s && self.units()[x].kind is Small && #[trigger] is_block(
                x,
                self.header(x).block_size as int,
                b,
            ) implies !is_block(s, bs as int, b) && b != UNLINKED && span_base(b) == x by {
            reveal(WfSpanAllocator::assets_ok);
            assert(self.unit_sound(x));
            lemma_block(&self.mem, x, self.header(x).block_size, b);
            assert(self.mem@.is_span(x));
            law_span_of_block(x, self.header(x).block_size, b);
            if is_block(s, bs as int, b) {
                assert(self.mem@.is_span(s));
                law_span_of_block(s, bs, b);
            }
        }
        assert forall|p: u64|
            self.live().dom().contains(p) && is_block(s, bs as int, p) implies Self::dispatch(
            #[trigger] self.live()[p],
        ) is Small by {
            self.lemma_live_block(s, p);
        }
        assert(post.assets_ok()) by {
            reveal(WfSpanAllocator::assets_ok);
            assert forall|x: u64| #[trigger] post.place().dom().contains(x) implies post.unit_sound(
                x,
            ) by {
                assert(self.unit_sound(x));
                if x != s && self.units()[x].kind is Small {
                    self.lemma_other_span(post, s, x);
                }
            }
            assert forall|p: u64| #[trigger] post.live().dom().contains(p) implies post.live_entry(
                p,
            ) by {
                if is_block(s, bs as int, p) {
                    assert(self.mem@.is_span(s));
                    law_span_of_block(s, bs, p);
                    lemma_block(&self.mem, s, bs, p);
                    assert(post.live()[p].valid());
                } else {
                    assert(self.live_entry(p));
                    match Self::dispatch(self.live()[p]) {
                        Path::Huge => {
                            let (c, k) = choose|c: int, k: int| #[trigger]
                                self.slot_serves(c, k, p);
                            assert(post.slot_serves(c, k, p));
                        },
                        _ => {},
                    }
                }
            }
            assert forall|x: u64, b: u64|
                post.place().dom().contains(x) && post.units()[x].kind is Small && is_block(
                    x,
                    post.header(x).block_size as int,
                    b,
                ) implies post.block_ok(x, b) by {
                if x != s {
                    assert(is_block(x, self.header(x).block_size as int, b));
                    assert(self.block_ok(x, b));
                    assert(!is_block(s, bs as int, b));
                }
            }
            assert forall|r: u64, p: u64| #[trigger] post.at(
                r,
                Place::Live(p),
            ) implies post.run_live(r, p) by {
                assert(self.at(r, Place::Live(p)));
                assert(self.run_live(r, p));
                assert(self.live().dom().contains(p));
                if is_block(s, bs as int, p) {
                    assert(Self::dispatch(self.live()[p]) is Small);
                }
                assert(r != s) by {
                    reveal(WfSpanAllocator::order_ok);
                    assert(self.place().dom().contains(r));
                    assert(self.place_ok(r));
                }
                assert(post.header(r) == self.header(r));
                assert(post.live().dom().contains(p));
                assert(post.hidden(p) == self.hidden(p));
            }
            assert forall|c: int, k: int| 0 <= c < 3 && 0 <= k < 4 implies #[trigger] post.slot_ok(
                c,
                k,
            ) by {
                assert(self.slot_ok(c, k));
                let x = self.slot(c, k);
                let p = huge_payload(x.base, x.requested_align) as u64;
                if x.state == HUGE_SLOT_ALLOCATED {
                    if is_block(s, bs as int, p) {
                        assert(Self::dispatch(self.live()[p]) is Small);
                    }
                    assert(post.live().dom().contains(p));
                }
            }
            assert forall|c: int, k: int, d: int, j: int|
                #![trigger post.slot(c, k), post.slot(d, j)]
                0 <= c < 3 && 0 <= k < 4 && 0 <= d < 3 && 0 <= j < 4 && post.slot(c, k).base != 0
                    && post.slot(c, k).base == post.slot(d, j).base implies c == d && k == j by {
                assert(self.slot(c, k) == post.slot(c, k));
                assert(self.slot(d, j) == post.slot(d, j));
            }
        }
    }

    /// A span is sound when only the links of another span's blocks changed.
    proof fn lemma_other_span(self, post: Self, s: u64, x: u64)
        requires
            self.only_blocks(post, s),
            small_span(self.mem@, x),
            x != s,
            forall|b: u64| #[trigger]
                is_block(x, self.header(x).block_size as int, b) ==> !is_block(
                    s,
                    self.header(s).block_size as int,
                    b,
                ),
        ensures
            small_span(post.mem@, x),
    {
        let h = self.header(x);
        let all = h.free_blocks();
        let l = h.local.free.seq();
        let p = h.local.pending@;
        let r = h.remote.free.seq();
        assert forall|i: int| 0 <= i < l.len() implies post.mem@.links.dom().contains(
            #[trigger] l[i],
        ) && post.mem@.links[l[i]] == self.mem@.links[l[i]] by {
            assert(all[i] == l[i]);
        }
        lemma_frame(self.mem@.links, post.mem@.links, l);
        assert forall|i: int| 0 <= i < p.len() implies post.mem@.links.dom().contains(
            #[trigger] p[i],
        ) && post.mem@.links[p[i]] == self.mem@.links[p[i]] by {
            assert(all[l.len() + i] == p[i]);
        }
        lemma_frame(self.mem@.links, post.mem@.links, p);
        assert forall|i: int| 0 <= i < r.len() implies post.mem@.links.dom().contains(
            #[trigger] r[i],
        ) && post.mem@.links[r[i]] == self.mem@.links[r[i]] by {
            assert(all[l.len() + p.len() + i] == r[i]);
        }
        lemma_frame(self.mem@.links, post.mem@.links, r);
    }

    /// Pop a free block of a span for a request, or return 0.
    pub(crate) fn take_block(&mut self, s: u64, layout: Layout, step: &mut StepCounter) -> (r: u64)
        requires
            old(self).wf(),
            old(self).place().dom().contains(s),
            old(self).units()[s].kind is Small,
            layout.valid(),
            Self::dispatch(layout) == Path::Small(old(self).header(s).size_class),
            old(step).room(1),
        ensures
            final(self).wf(),
            r == first(old(self).header(s).local.free.seq()),
            r == 0 <==> old(self).header(s).local.free.seq().len() == 0,
            r == 0 ==> *final(self) == *old(self),
            r != 0 ==> {
                &&& old(self).only_blocks(*final(self), s)
                &&& final(self).stats == old(self).stats
                &&& final(self).mem@.links == old(self).mem@.links
                &&& final(self).header(s) == popped(old(self).header(s))
                &&& !old(self).live().dom().contains(r)
                &&& final(self).live() == old(self).live().insert(r, layout)
                &&& is_block(s, old(self).header(s).block_size as int, r)
            },
            *final(step) == (StepCounter {
                local_steps: (old(step).local_steps + 1) as u64,
                ..*old(step)
            }),
    {
        let ghost pre = *self;
        let ghost h = pre.header(s);
        proof {
            reveal(WfSpanAllocator::order_ok);
            reveal(WfSpanAllocator::assets_ok);
            assert(pre.place_ok(s));
            assert(pre.unit_sound(s));
        }
        let r: u64 = alloc_from_local_span(&mut self.mem, s, step);
        if r != 0 {
            self.ledger = Ghost(
                Ledger { live: self.ledger@.live.insert(r, layout), ..self.ledger@ },
            );
            proof {
                broadcast use LocalFreeList::lemma_of;

                let l = h.local.free.seq();
                let h2 = self.header(s);
                let all = h.free_blocks();
                let all2 = h2.free_blocks();
                assert(all[0] == r);
                assert(is_block(s, h.block_size as int, r));
                assert(all2 =~= all.drop_first());
                assert(h2.local.free.wf(self.mem@.links)) by {
                    crate::chain::lemma_drop_first(pre.mem@.links, l);
                }
                assert forall|i: int, j: int|
                    0 <= i < all2.len() && 0 <= j < all2.len() && i != j implies all2[i]
                    != all2[j] by {
                    assert(all[i + 1] != all[j + 1]);
                }
                assert forall|b: u64| is_block(
                    s,
                    h.block_size as int,
                    b,
                ) implies #[trigger] self.block_ok(s, b) by {
                    assert(pre.block_ok(s, b));
                    if b == r {
                        if all2.contains(b) {
                            let i = choose|i: int| 0 <= i < all2.len() && all2[i] == b;
                            assert(all[i + 1] == all[0]);
                        }
                    } else {
                        if all.contains(b) {
                            let i = choose|i: int| 0 <= i < all.len() && all[i] == b;
                            assert(all2[i - 1] == b);
                        }
                        if all2.contains(b) {
                            let i = choose|i: int| 0 <= i < all2.len() && all2[i] == b;
                            assert(all[i + 1] == b);
                        }
                    }
                }
                assert(pre.block_ok(s, r));
                assert(all.contains(r));
                assert(small_span(self.mem@, s)) by {
                    assert forall|i: int| 0 <= i < all2.len() implies is_block(
                        s,
                        h2.block_size as int,
                        #[trigger] all2[i],
                    ) by {
                        assert(all2[i] == all[i + 1]);
                    }
                }
                assert forall|b: u64|
                    is_block(s, h.block_size as int, b) && self.live().dom().contains(
                        b,
                    ) implies (#[trigger] self.live()[b]).valid() && Self::dispatch(self.live()[b])
                    == Path::Small(h.size_class) by {
                    if b != r {
                        pre.lemma_live_block(s, b);
                        assert(pre.live_entry(b));
                    }
                }
                pre.lemma_blocks_step(*self, s);
            }
        }
        r
    }

    /// Return a live block of a span to its local free list.
    pub(crate) fn give_block_local(&mut self, s: u64, b: u64)
        requires
            old(self).wf(),
            old(self).place().dom().contains(s),
            old(self).units()[s].kind is Small,
            old(self).live().dom().contains(b),
            is_block(s, old(self).header(s).block_size as int, b),
        ensures
            final(self).wf(),
            old(self).only_blocks(*final(self), s),
            final(self).stats == old(self).stats,
            final(self).header(s) == pushed(old(self).header(s), b),
            final(self).live() == old(self).live().remove(b),
            final(self).mem@.links == old(self).mem@.links.insert(
                b,
                old(self).header(s).local.free.head(),
            ),
    {
        let ghost pre = *self;
        let ghost h = pre.header(s);
        proof {
            pre.lemma_free_room(s);
            assert(pre.block_ok(s, b)) by {
                reveal(WfSpanAllocator::assets_ok);
            }
            lemma_block(&pre.mem, s, h.block_size, b);
            lemma_parts(h);
        }
        dealloc_to_local_span(&mut self.mem, s, b);
        self.ledger = Ghost(Ledger { live: self.ledger@.live.remove(b), ..self.ledger@ });
        proof {
            broadcast use LocalFreeList::lemma_of;

            let h2 = self.header(s);
            assert(h2.free_blocks() =~= Seq::<u64>::empty() + cons(b, h.free_blocks()));
            lemma_put(Seq::empty(), b, h.free_blocks());
            assert(Seq::<u64>::empty() + h.free_blocks() =~= h.free_blocks());
            self.lemma_given(pre, s, b);
        }
    }

    /// A live block of a span was pushed to its remote free list, and is
    /// visible in its count.
    pub open spec fn remotely_given(self, post: Self, s: u64, b: u64) -> bool {
        &&& self.only_blocks(post, s)
        &&& post.stats == self.stats
        &&& post.header(s) == remotely_pushed(self.header(s), b)
        &&& post.live() == self.live().remove(b)
        &&& post.mem@.links == self.mem@.links.insert(b, self.header(s).remote.free.head())
    }

    /// Return a live block of a span to its remote free list.
    pub(crate) fn give_block_remote(&mut self, s: u64, b: u64)
        requires
            old(self).wf(),
            old(self).place().dom().contains(s),
            old(self).units()[s].kind is Small,
            old(self).live().dom().contains(b),
            is_block(s, old(self).header(s).block_size as int, b),
        ensures
            final(self).wf(),
            old(self).remotely_given(*final(self), s, b),
    {
        let ghost pre = *self;
        let ghost h = pre.header(s);
        proof {
            pre.lemma_free_room(s);
            assert(pre.block_ok(s, b)) by {
                reveal(WfSpanAllocator::assets_ok);
            }
            lemma_block(&pre.mem, s, h.block_size, b);
            lemma_parts(h);
        }
        let mut header = self.mem.header(s);
        header.remote.free.push(&mut self.mem, b);
        header.remote.free_count = header.remote.free_count + 1;
        self.mem.set_header(s, header);
        self.ledger = Ghost(Ledger { live: self.ledger@.live.remove(b), ..self.ledger@ });
        proof {
            broadcast use RemoteMpscFreeList::lemma_of;

            let h2 = self.header(s);
            let a = h.local.free.seq() + h.local.pending@;
            assert(h2.free_blocks() =~= a + cons(b, h.remote.free.seq()));
            lemma_put(a, b, h.remote.free.seq());
            assert(a + h.remote.free.seq() =~= h.free_blocks());
            self.lemma_given(pre, s, b);
        }
    }

    /// Absorb remotely freed blocks of a span into its local free list.
    /// Returns whether any block was absorbed.
    pub(crate) fn refill_from_remote(&mut self, s: u64, step: &mut StepCounter) -> (r: bool)
        requires
            old(self).wf(),
            old(self).place().dom().contains(s),
            old(self).units()[s].kind is Small,
            old(step).room(2 * SPAN_SIZE),
        ensures
            final(self).wf(),
            old(self).only_blocks(*final(self), s),
            final(self).live() == old(self).live(),
            r == (refill_gain(old(self).header(s), old(self).mem@.links) > 0),
            final(self).header(s) == refilled(old(self).header(s), old(self).mem@.links),
            final(self).stats == (if final(self).header(s).local.pending@.len() > 0 {
                old(self).stats.blocked()
            } else {
                old(self).stats
            }),
            *final(step) == refill_cost(old(self).header(s), old(self).mem@.links, *old(step)),
            old(step).blocks_scanned <= final(step).blocks_scanned <= old(step).blocks_scanned + old(
                self,
            ).header(s).block_count,
            !r ==> final(self).mem@.links == old(self).mem@.links,
            forall|a: u64|
                old(self).mem@.links.dom().contains(a) && !final(self).header(
                    s,
                ).local.free.seq().contains(a) ==> #[trigger] final(self).mem@.links[a] == old(
                    self,
                ).mem@.links[a],
    {
        let ghost pre = *self;
        let ghost h = pre.header(s);
        let ghost links = pre.mem@.links;
        proof {
            pre.lemma_free_room(s);
            lemma_refilled(&pre.mem, s, links);
        }
        let (got, blocked) = refill_span(&mut self.mem, s, step);
        if blocked {
            AllocatorStats::bump(&mut self.stats.remote_blocked_events);
        }
        proof {
            assert forall|b: u64| is_block(s, h.block_size as int, b) implies #[trigger] self.block_ok(
                s,
                b,
            ) by {
                assert(pre.block_ok(s, b)) by {
                    reveal(WfSpanAllocator::assets_ok);
                }
            }
            assert forall|b: u64|
                is_block(s, h.block_size as int, b) && self.live().dom().contains(b) implies (
            #[trigger] self.live()[b]).valid() && Self::dispatch(self.live()[b]) == Path::Small(
                h.size_class,
            ) by {
                pre.lemma_live_block(s, b);
                assert(pre.live_entry(b)) by {
                    reveal(WfSpanAllocator::assets_ok);
                }
            }
            pre.lemma_blocks_step(*self, s);
        }
        got > 0
    }

    /// The free blocks of a span are no more than its blocks, and a span that
    /// has a live block has room for it.
    pub proof fn lemma_free_room(self, s: u64)
        requires
            self.wf(),
            self.place().dom().contains(s),
            self.units()[s].kind is Small,
        ensures
            self.mem@.headers.dom().contains(s),
            self.mem@.is_span(s),
            small_span(self.mem@, s),
            self.unit_sound(s),
            self.header(s).size_class < C,
            self.header(s).block_size == class_size(self.header(s).size_class as int),
            self.header(s).free_blocks().len() <= self.header(s).block_count <= SPAN_SIZE,
            self.header(s).local.free.seq().len() + self.header(s).local.pending@.len()
                + self.header(s).remote.free.seq().len() <= self.header(s).block_count,
    {
        reveal(WfSpanAllocator::order_ok);
        reveal(WfSpanAllocator::assets_ok);
        assert(self.place_ok(s));
        assert(self.unit_sound(s));
        self.mem.lemma_view();
        let h = self.header(s);
        lemma_block_pigeonhole(s, h.block_size, h.free_blocks());
        crate::size_class::lemma_block_size_divides(h.block_size);
        crate::size_class::lemma_span_blocks(h.block_size as int);
    }

    /// The state is sound after a live block became a free one.
    proof fn lemma_given(self, pre: Self, s: u64, b: u64)
        requires
            pre.wf(),
            pre.place().dom().contains(s),
            pre.units()[s].kind is Small,
            pre.live().dom().contains(b),
            is_block(s, pre.header(s).block_size as int, b),
            self.heaps == pre.heaps,
            self.help == pre.help,
            self.pool == pre.pool,
            self.registry == pre.registry,
            self.huge == pre.huge,
            self.ledger@ == (Ledger { live: pre.live().remove(b), ..pre.ledger@ }),
            self.mem.wf(),
            exists|next: u64|
                self.mem@ == (MemView {
                    headers: pre.mem@.headers.insert(s, self.header(s)),
                    links: #[trigger] pre.mem@.links.insert(b, next),
                    ..pre.mem@
                }),
            same_shell(pre.header(s), self.header(s)),
            self.header(s).block_size == pre.header(s).block_size,
            self.header(s).block_count == pre.header(s).block_count,
            self.header(s).local.pending == pre.header(s).local.pending,
            self.header(s).local.pending_remote == pre.header(s).local.pending_remote,
            self.header(s).local.free_count == self.header(s).local.free.seq().len(),
            self.header(s).remote.free_count == self.header(s).remote.free.seq().len()
                + self.header(s).local.pending@.len(),
            self.header(s).local.free.wf(self.mem@.links) || self.header(s).local.free
                == pre.header(s).local.free,
            self.header(s).remote.free.wf(self.mem@.links) || self.header(s).remote.free
                == pre.header(s).remote.free,
            self.header(s).free_blocks().no_duplicates(),
            forall|x: u64| #[trigger]
                self.header(s).free_blocks().contains(x) <==> x == b || pre.header(
                    s,
                ).free_blocks().contains(x),
            !pre.header(s).free_blocks().contains(b),
        ensures
            self.wf(),
            pre.only_blocks(self, s),
    {
        let h = pre.header(s);
        let h2 = self.header(s);
        let bs = h.block_size;
        let l = h.local.free.seq();
        let p = h.local.pending@;
        let r = h.remote.free.seq();
        let next = choose|next: u64|
            self.mem@ == (MemView {
                headers: pre.mem@.headers.insert(s, h2),
                links: #[trigger] pre.mem@.links.insert(b, next),
                ..pre.mem@
            });
        pre.lemma_free_room(s);
        lemma_block(&pre.mem, s, bs, b);
        lemma_parts(h);
        assert(self.mem@.links.dom() =~= pre.mem@.links.dom());
        lemma_frame_but(pre.mem@.links, self.mem@.links, l, b);
        lemma_frame_but(pre.mem@.links, self.mem@.links, p, b);
        lemma_frame_but(pre.mem@.links, self.mem@.links, r, b);
        assert(small_span(self.mem@, s)) by {
            assert forall|i: int| 0 <= i < h2.free_blocks().len() implies is_block(
                s,
                bs as int,
                #[trigger] h2.free_blocks()[i],
            ) by {
                let x = h2.free_blocks()[i];
                assert(h2.free_blocks().contains(x));
                if x != b {
                    let j = choose|j: int| 0 <= j < h.free_blocks().len() && h.free_blocks()[j] == x;
                    assert(is_block(s, bs as int, h.free_blocks()[j]));
                }
            }
        }
        assert forall|x: u64| is_block(s, bs as int, x) implies #[trigger] self.block_ok(s, x) by {
            assert(pre.block_ok(s, x)) by {
                reveal(WfSpanAllocator::assets_ok);
            }
        }
        assert forall|x: u64|
            is_block(s, bs as int, x) && self.live().dom().contains(x) implies (
        #[trigger] self.live()[x]).valid() && Self::dispatch(self.live()[x]) == Path::Small(
            h.size_class,
        ) by {
            pre.lemma_live_block(s, x);
            assert(pre.live_entry(x)) by {
                reveal(WfSpanAllocator::assets_ok);
            }
        }
        pre.lemma_blocks_step(self, s);
    }
}

impl AllocatorStats {
    /// One more refill that a missing link stopped.
    pub open spec fn blocked(self) -> AllocatorStats {
        AllocatorStats { remote_blocked_events: bumped(self.remote_blocked_events), ..self }
    }
}

/// A header after a block was pushed to its remote list.
pub open spec fn remotely_pushed(h: SpanHeader, block: u64) -> SpanHeader {
    SpanHeader {
        remote: RemoteMeta {
            free: RemoteMpscFreeList::of(cons(block, h.remote.free.seq())),
            free_count: (h.remote.free_count + 1) as i64,
        },
        ..h
    }
}

/// The three lists of a span without doubles have nothing in common.
pub proof fn lemma_parts(h: SpanHeader)
    requires
        h.free_blocks().no_duplicates(),
    ensures
        apart(h.local.free.seq(), h.local.pending@),
        apart(h.local.free.seq(), h.remote.free.seq()),
        apart(h.local.pending@, h.remote.free.seq()),
        h.local.free.seq().no_duplicates(),
        h.local.pending@.no_duplicates(),
        h.remote.free.seq().no_duplicates(),
        forall|x: u64| #[trigger]
            h.free_blocks().contains(x) <==> h.local.free.seq().contains(x)
                || h.local.pending@.contains(x) || h.remote.free.seq().contains(x),
{
    lemma_concat(h.local.free.seq() + h.local.pending@, h.remote.free.seq());
    lemma_concat(h.local.free.seq(), h.local.pending@);
    let a = h.local.free.seq() + h.local.pending@;
    assert forall|x: u64| !(#[trigger] h.local.free.seq().contains(x) && h.remote.free.seq().contains(
        x,
    )) by {
        assert(a.contains(x) <==> h.local.free.seq().contains(x) || h.local.pending@.contains(x));
    }
    assert forall|x: u64| !(#[trigger] h.local.pending@.contains(x)
        && h.remote.free.seq().contains(x)) by {
        assert(a.contains(x) <==> h.local.free.seq().contains(x) || h.local.pending@.contains(x));
    }
    assert forall|x: u64| #[trigger] h.free_blocks().contains(x) <==> h.local.free.seq().contains(x)
        || h.local.pending@.contains(x) || h.remote.free.seq().contains(x) by {
        assert(a.contains(x) <==> h.local.free.seq().contains(x) || h.local.pending@.contains(x));
    }
}

/// Putting a new element between two parts of a sequence.
proof fn lemma_put(a: Seq<u64>, b: u64, c: Seq<u64>)
    requires
        (a + c).no_duplicates(),
        !(a + c).contains(b),
    ensures
        (a + cons(b, c)).no_duplicates(),
        forall|x: u64| #[trigger] (a + cons(b, c)).contains(x) <==> x == b || (a + c).contains(x),
{
    lemma_concat(a, c);
    lemma_concat(a, cons(b, c));
    lemma_concat(seq![b], c);
    assert forall|x: u64| #[trigger] seq![b].contains(x) <==> x == b by {
        assert(seq![b][0] == b);
    }
    assert(seq![b].no_duplicates());
}

/// The link of a block outside a chain does not matter to it.
proof fn lemma_frame_but(links: Map<u64, u64>, other: Map<u64, u64>, items: Seq<u64>, b: u64)
    requires
        blocks(links, items),
        exists|next: u64| other == #[trigger] links.insert(b, next),
        !items.contains(b),
    ensures
        blocks(other, items),
        linked(links, items) ==> linked(other, items),
        half_linked(links, items) ==> half_linked(other, items),
{
    let next = choose|next: u64| other == #[trigger] links.insert(b, next);
    assert forall|i: int| 0 <= i < items.len() implies other.dom().contains(#[trigger] items[i])
        && other[items[i]] == links[items[i]] by {
        assert(items.contains(items[i]));
    }
    lemma_frame(links, other, items);
}

} // verus!
