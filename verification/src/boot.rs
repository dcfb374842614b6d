//! Installing the region and the public lists of an allocator.

use crate::chain::succ;
use crate::config::{MAX_LARGE_RUN_CLASSES, SPAN_ALIGN, SPAN_SIZE};
use crate::heap::LocalSpanList;
use crate::huge::HugeRunSlot;
use crate::layout::Layout;
use crate::memory::SpanMemory;
use crate::pagemap::{region_spans, region_start};
use crate::spmc_span_list::SpmcSpanList;
use crate::state::{Home, Key, Lane, Ledger, Place, Unit, WfSpanAllocator};
use vstd::prelude::*;

verus! {

impl<const C: u64, const HG: u64> WfSpanAllocator<C, HG> {
    /// The public list of `k` is initialized and empty.
    pub open spec fn listed(self, k: Key) -> bool {
        let l = self.public(k);
        &&& l.wf(self.mem@)
        &&& l.seq().len() == 0
        &&& l.chain().len() == 1
        &&& l.head().version == 0
        &&& self.homes().dom().contains(l.chain()[0])
        &&& self.homes()[l.chain()[0]] == Home::List(k)
    }

    /// Nothing was allocated yet, and the tables are as `pre` has them, but
    /// for the public lists and their nodes.
    pub open spec fn booting(self, pre: Self) -> bool {
        &&& self.n() == pre.n()
        &&& self.shape()
        &&& self.pool_ok()
        &&& self.pool == pre.pool
        &&& self.registry == pre.registry
        &&& self.stats == pre.stats
        &&& self.huge == pre.huge
        &&& self.help == pre.help
        &&& self.place() == Map::<u64, Place>::empty()
        &&& self.units() == Map::<u64, Unit>::empty()
        &&& self.live() == Map::<u64, Layout>::empty()
        &&& pre.same_locals(self)
        &&& pre.same_cursors(self)
        &&& forall|a: u64| 1 <= a <= self.pool.count ==> #[trigger] self.mem@.nodes.dom().contains(a)
        &&& forall|x: u64| #[trigger]
            self.homes().dom().contains(x) ==> x > self.pool.count && self.mem@.nodes.dom().contains(
                x,
            )
    }

    /// Initialize the public list of `k`.
    fn init_list(&mut self, k: Key, pre: Ghost<Self>)
        requires
            old(self).booting(pre@),
            old(self).valid(k),
            old(self).public(k) == SpmcSpanList::raw(),
        ensures
            final(self).booting(pre@),
            final(self).listed(k),
            old(self).publics_but(*final(self), k),
            forall|j: Key| #[trigger]
                old(self).valid(j) && old(self).listed(j) ==> final(self).listed(j),
    {
        let ghost here = *self;
        let n: usize = self.heaps.rows.len();
        let t: usize = k.tid as usize;
        let c: usize = k.class as usize;
        match k.lane {
            Lane::Span => {
                self.heaps.rows[t].public_spans[c].init(&mut self.mem);
            },
            Lane::Run => {
                self.heaps.rows[t].public_runs[c].init(&mut self.mem);
            },
        }
        let ghost dummy = self.public(k).chain()[0];
        self.ledger = Ghost(
            Ledger { homes: self.ledger@.homes.insert(dummy, Home::List(k)), ..self.ledger@ },
        );
        proof {
            broadcast use SpmcSpanList::lemma_of;

            SpmcSpanList::lemma_raw();
            here.mem.lemma_view();
            self.mem.lemma_view();
            assert(self.mem@.nodes.dom().contains(dummy));
            assert(dummy != 0);
            assert(!here.mem@.nodes.dom().contains(dummy));
            assert(dummy > self.pool.count);
            assert(self.shape());
            assert(here.publics_but(*self, k));
            assert(here.same_locals(*self));
            assert(here.same_cursors(*self));
            assert(forall|j: Key| #[trigger] pre@.valid(j) ==> here.valid(j));
            assert forall|x: u64| #[trigger] self.homes().dom().contains(x) implies x
                > self.pool.count && self.mem@.nodes.dom().contains(x) by {
                if x != dummy {
                    assert(here.homes().dom().contains(x));
                }
            }
            assert(self.booting(pre@));
            assert forall|j: Key| #[trigger] here.valid(j) && here.listed(j) implies self.listed(
                j,
            ) by {
                if j == k {
                    assert(here.public(k).chain().len() == 1);
                } else {
                    let l = here.public(j);
                    assert(l.chain()[0] != dummy);
                    assert forall|i: int| 0 <= i < l.chain().len() implies (
                    #[trigger] self.mem@.nodes[l.chain()[i]]).next == succ(l.chain(), i) by {
                        assert(here.mem@.nodes[l.chain()[i]].next == succ(l.chain(), i));
                    }
                }
            }
        }
    }

    /// Install the backing region and initialize the public lists. Called
    /// once, before the allocator is used. The usable part of the region is
    /// the largest aligned array of spans in it.
    pub fn init(&mut self, region: u64, len: u64)
        requires
            exists|n: int| old(self).blank(n),
            region != 0,
            region + SPAN_ALIGN - 1 <= u64::MAX,
        ensures
            final(self).wf(),
            final(self).n() == old(self).n(),
            final(self).pool.base == region_start(region as int),
            final(self).pool.count == region_spans(region as int, len as int),
            final(self).pool.next == 0,
            final(self).registry == old(self).registry,
            final(self).stats == old(self).stats,
            final(self).live() == Map::<u64, Layout>::empty(),
            final(self).place() == Map::<u64, Place>::empty(),
            final(self).units() == Map::<u64, Unit>::empty(),
            final(self).started_empty(),
    {
        let ghost first = *self;
        let ghost m = choose|n: int| first.blank(n);
        self.pool.set_region(region, len);
        proof {
            crate::align::lemma_up(region as int, SPAN_ALIGN as int);
        }
        self.mem = SpanMemory::new(self.pool.base_addr(), self.pool.spans_total());
        let ghost pre = *self;
        proof {
            assert(pre.shape());
            assert(pre.booting(pre));
        }
        let n: u64 = self.heaps.len();
        let mut t: u64 = 0;
        while t < n
            invariant
                n == pre.n(),
                t <= n,
                self.booting(pre),
                forall|j: Key| #[trigger]
                    pre.valid(j) ==> (if j.tid < t {
                        self.listed(j)
                    } else {
                        self.public(j) == SpmcSpanList::raw()
                    }),
            decreases n - t,
        {
            let mut c: u64 = 0;
            while c < C
                invariant
                    n == pre.n(),
                    t < n,
                    c <= C,
                    self.booting(pre),
                    forall|j: Key| #[trigger]
                        pre.valid(j) ==> (if j.tid < t || (j.tid == t && j.lane == Lane::Span
                            && j.class < c) {
                            self.listed(j)
                        } else {
                            self.public(j) == SpmcSpanList::raw()
                        }),
                decreases C - c,
            {
                let k = Key { lane: Lane::Span, class: c, tid: t };
                let ghost here = *self;
                assert(pre.valid(k));
                self.init_list(k, Ghost(pre));
                proof {
                    assert(forall|j: Key| #[trigger] pre.valid(j) ==> here.valid(j));
                }
                c = c + 1;
            }
            let mut r: u64 = 0;
            while r < MAX_LARGE_RUN_CLASSES
                invariant
                    n == pre.n(),
                    t < n,
                    r <= MAX_LARGE_RUN_CLASSES,
                    self.booting(pre),
                    forall|j: Key| #[trigger]
                        pre.valid(j) ==> (if j.tid < t || (j.tid == t && (j.lane == Lane::Span
                            || j.class < r)) {
                            self.listed(j)
                        } else {
                            self.public(j) == SpmcSpanList::raw()
                        }),
                decreases MAX_LARGE_RUN_CLASSES - r,
            {
                let k = Key { lane: Lane::Run, class: r, tid: t };
                let ghost here = *self;
                assert(pre.valid(k));
                self.init_list(k, Ghost(pre));
                proof {
                    assert(forall|j: Key| #[trigger] pre.valid(j) ==> here.valid(j));
                }
                r = r + 1;
            }
            t = t + 1;
        }
        proof {
            self.lemma_booted(pre, first);
        }
    }

    /// All lists and records are empty, and no huge slot has memory.
    pub open spec fn started_empty(self) -> bool {
        &&& forall|k: Key| #[trigger]
            self.valid(k) ==> {
                &&& self.local(k).seq().len() == 0
                &&& self.public(k).seq().len() == 0
                &&& self.public(k).head().version == 0
                &&& self.word(k) == 0
                &&& self.record(k).last_phase == 0
                &&& self.query(k) == 0
                &&& self.helping(k) == 0
            }
        &&& forall|c: int, k: int|
            0 <= c < 3 && 0 <= k < 4 ==> #[trigger] self.slot(c, k) == HugeRunSlot::empty()
    }

    /// A state whose lists are all initialized and in which nothing was
    /// allocated yet is sound.
    proof fn lemma_booted(self, pre: Self, first: Self)
        requires
            exists|n: int| first.blank(n),
            pre.heaps == first.heaps,
            pre.help == first.help,
            pre.huge == first.huge,
            pre.pool.next == 0,
            self.booting(pre),
            forall|j: Key| #[trigger] pre.valid(j) ==> self.listed(j),
        ensures
            self.wf(),
            self.started_empty(),
    {
        broadcast use LocalSpanList::lemma_of;

        let n = choose|n: int| first.blank(n);
        assert forall|k: Key| #[trigger] self.valid(k) implies {
            &&& self.local(k) == LocalSpanList::of(Seq::empty())
            &&& self.word(k) == 0
            &&& self.record(k).last_phase == 0
            &&& self.query(k) == 0
            &&& self.helping(k) == 0
            &&& self.listed(k)
        } by {
            assert(pre.valid(k));
            assert(first.heaps.rows@[k.tid as int].blank());
        }
        assert forall|c: int, k: int| 0 <= c < 3 && 0 <= k < 4 implies #[trigger] self.slot(c, k)
            == HugeRunSlot::empty() by {
            assert(first.slot(c, k) == HugeRunSlot::empty());
        }
        self.mem.lemma_view();
        assert(self.order_ok()) by {
            reveal(WfSpanAllocator::order_ok);
            assert forall|k: Key| #[trigger] self.valid(k) implies self.local_ok(k)
                && self.public_ok(k) && self.record_ok(k) by {
                assert(self.listed(k));
                assert(self.local(k).seq() =~= Seq::<u64>::empty());
            }
            assert forall|a: u64|
                self.mem@.is_span(a) && a >= self.frontier() implies !self.homes().dom().contains(
                #[trigger] self.mem@.own_node(a),
            ) by {
                let i = (a - self.mem@.base) / (SPAN_SIZE as int);
                assert(i < self.mem@.count) by (nonlinear_arith)
                    requires
                        i * SPAN_SIZE <= a - self.mem@.base,
                        a - self.mem@.base + SPAN_SIZE <= self.mem@.count * SPAN_SIZE,
                ;
            }
        }
        assert(self.assets_ok()) by {
            reveal(WfSpanAllocator::assets_ok);
            assert forall|c: int, k: int| 0 <= c < 3 && 0 <= k < 4 implies #[trigger] self.slot_ok(
                c,
                k,
            ) by {
                assert(self.slot(c, k) == HugeRunSlot::empty());
            }
        }
    }
}

} // verus!
