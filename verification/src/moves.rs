//! Moves of one span between the places it can be at.
//!
//! Every move is one action of one thread, and every move keeps the state
//! sound, whatever other threads did before it.

use crate::atomic_backend::Cas2Backend;
use crate::chain::{cons, succ};
use crate::config::{OWNER_NONE, OWNER_PUBLIC};
use crate::heap::{headers_remove, LocalSpanList};
use crate::help_record::completed;
use crate::memory::MemView;
use crate::span::{SpanHeader, SpanState};
use crate::spmc_span_list::{SpmcSpanList, TryPop};
use crate::state::{same_core, Home, Key, Lane, Ledger, Place, WfSpanAllocator};
use crate::stats::StepCounter;
use vstd::prelude::*;

verus! {

impl<const C: u64, const HG: u64> WfSpanAllocator<C, HG> {
    /// No private list but that of `k` changed.
    pub open spec fn locals_but(self, post: Self, k: Key) -> bool {
        forall|j: Key| #[trigger] self.valid(j) && j != k ==> post.local(j) == self.local(j)
    }

    /// No private list changed.
    pub open spec fn same_locals(self, post: Self) -> bool {
        forall|j: Key| #[trigger] self.valid(j) ==> post.local(j) == self.local(j)
    }

    /// No public list but that of `k` changed.
    pub open spec fn publics_but(self, post: Self, k: Key) -> bool {
        forall|j: Key| #[trigger] self.valid(j) && j != k ==> post.public(j) == self.public(j)
    }

    /// No public list changed.
    pub open spec fn same_publics(self, post: Self) -> bool {
        forall|j: Key| #[trigger] self.valid(j) ==> post.public(j) == self.public(j)
    }

    /// No record but that of `k` changed.
    pub open spec fn records_but(self, post: Self, k: Key) -> bool {
        forall|j: Key| #[trigger] self.valid(j) && j != k ==> post.record(j) == self.record(j)
    }

    /// No record changed.
    pub open spec fn same_records(self, post: Self) -> bool {
        forall|j: Key| #[trigger] self.valid(j) ==> post.record(j) == self.record(j)
    }

    /// No saved position changed.
    pub open spec fn same_cursors(self, post: Self) -> bool {
        forall|j: Key| #[trigger]
            self.valid(j) ==> post.query(j) == self.query(j) && post.helping(j) == self.helping(j)
    }

    /// What no move changes: everything but lists, records, nodes, places,
    /// statistics, and the outer fields of headers.
    pub open spec fn inert(self, post: Self) -> bool {
        &&& post.n() == self.n()
        &&& post.shape() == self.shape()
        &&& post.pool == self.pool
        &&& post.registry == self.registry
        &&& post.huge == self.huge
        &&& post.units() == self.units()
        &&& post.live() == self.live()
        &&& post.mem@.base == self.mem@.base
        &&& post.mem@.count == self.mem@.count
        &&& post.mem@.links == self.mem@.links
        &&& post.mem@.larges == self.mem@.larges
        &&& post.mem@.headers.dom() == self.mem@.headers.dom()
        &&& forall|a: u64| #[trigger]
            self.mem@.headers.dom().contains(a) ==> same_core(self.header(a), post.header(a))
    }

    /// No header but that of `s` says another state than before.
    pub open spec fn states_but(self, post: Self, s: u64) -> bool {
        forall|a: u64| #[trigger]
            self.mem@.headers.dom().contains(a) && a != s ==> post.header(a).state == self.header(
                a,
            ).state
    }

    /// No header says another state than before.
    pub open spec fn same_states(self, post: Self) -> bool {
        forall|a: u64| #[trigger]
            self.mem@.headers.dom().contains(a) ==> post.header(a).state == self.header(a).state
    }

    /// No header of a span or run but `s` says another state than before.
    pub open spec fn other_states_stay(self, post: Self, s: u64) -> bool {
        forall|x: u64| #[trigger]
            self.place().dom().contains(x) && x != s ==> post.header(x).state == self.header(
                x,
            ).state
    }

    /// Every span and run has a header.
    pub(crate) proof fn lemma_placed(self)
        requires
            self.wf(),
        ensures
            forall|x: u64| #[trigger]
                self.place().dom().contains(x) ==> self.mem@.headers.dom().contains(x),
    {
        reveal(WfSpanAllocator::order_ok);
        assert forall|x: u64| #[trigger]
            self.place().dom().contains(x) implies self.mem@.headers.dom().contains(x) by {
            assert(self.place_ok(x));
        }
    }

    /// Only `s` moved.
    pub open spec fn moved(self, post: Self, s: u64, to: Place) -> bool {
        &&& self.inert(post)
        &&& post.stats == self.stats
        &&& self.same_cursors(post)
        &&& post.place() == self.place().insert(s, to)
        &&& self.states_but(post, s)
    }

    /// The assets of a sound state survive a move that touches no live run.
    pub proof fn lemma_moved_assets(self, post: Self, s: u64, to: Place)
        requires
            self.wf(),
            self.moved(post, s, to),
            self.place().dom().contains(s),
            !(self.place()[s] is Live),
            !(to is Live),
            forall|x: u64| #[trigger]
                self.place().dom().contains(x) && self.place()[x] is Live ==> post.header(x).state
                    == self.header(x).state,
        ensures
            post.assets_ok(),
    {
        assert(post.place().dom() =~= self.place().dom());
        assert forall|x: u64| #[trigger] self.place().dom().contains(x) implies same_core(
            self.header(x),
            post.header(x),
        ) by {
            reveal(WfSpanAllocator::order_ok);
            assert(self.place_ok(x));
        }
        self.lemma_assets_frame(post);
    }

    /// Take the first span of a private list.
    pub(crate) fn take_front(&mut self, k: Key) -> (s: u64)
        requires
            old(self).wf(),
            old(self).valid(k),
            old(self).local(k).seq().len() > 0,
        ensures
            final(self).wf(),
            s == old(self).local(k).seq()[0],
            old(self).at(s, Place::Local(k)),
            old(self).moved(*final(self), s, Place::Held(k.tid)),
            final(self).local(k) == LocalSpanList::of(old(self).local(k).seq().drop_first()),
            old(self).locals_but(*final(self), k),
            old(self).same_publics(*final(self)),
            old(self).same_records(*final(self)),
            final(self).mem@ == old(self).mem@,
    {
        let ghost pre = *self;
        proof {
            reveal(WfSpanAllocator::order_ok);
            assert(pre.local_ok(k));
        }
        let n: usize = self.heaps.rows.len();
        let t: usize = k.tid as usize;
        let c: usize = k.class as usize;
        let s: u64 = match k.lane {
            Lane::Span => self.heaps.rows[t].local_spans[c].pop_front(&self.mem),
            Lane::Run => self.heaps.rows[t].local_runs[c].pop_front(&self.mem),
        };
        self.ledger = Ghost(
            Ledger {
                place: self.ledger@.place.insert(s, Place::Held(k.tid)),
                ..self.ledger@
            },
        );
        proof {
            broadcast use LocalSpanList::lemma_of;

            let items = pre.local(k).seq();
            assert(pre.at(items[0], Place::Local(k)));
            assert(pre.place_ok(s));
            assert(pre.locals_but(*self, k));
            assert(self.shape());
            assert forall|j: Key| #[trigger] self.valid(j) implies self.local_ok(j)
                && self.public_ok(j) && self.record_ok(j) by {
                assert(pre.valid(j));
                if j == k {
                    let rest = self.local(k).seq();
                    assert forall|i: int| 0 <= i < rest.len() implies self.at(
                        #[trigger] rest[i],
                        Place::Local(k),
                    ) by {
                        assert(rest[i] == items[i + 1]);
                        assert(items[i + 1] != items[0]);
                    }
                }
            }
            assert forall|x: u64| #[trigger] self.place().dom().contains(x) implies self.place_ok(
                x,
            ) by {
                assert(pre.place_ok(x));
                if x != s {
                    match pre.place()[x] {
                        Place::Local(j) => {
                            if j == k {
                                let i = choose|i: int| 0 <= i < items.len() && items[i] == x;
                                assert(items.drop_first()[i - 1] == x);
                            }
                        },
                        _ => {},
                    }
                }
            }
            assert(self.order_ok());
            pre.lemma_moved_assets(*self, s, Place::Held(k.tid));
        }
        s
    }

    /// Spans are even, non-zero addresses.
    pub proof fn lemma_span_address(self, s: u64)
        requires
            self.pool_ok(),
            self.mem@.headers.dom().contains(s),
        ensures
            s != 0,
            s % 2 == 0,
            completed(s),
            self.mem@.is_span(s),
    {
        self.mem.lemma_view();
    }

    /// A private list is no longer than the region has spans.
    pub proof fn lemma_local_len(self, k: Key)
        requires
            self.pool_ok(),
            self.local(k).wf(self.mem@.headers),
        ensures
            self.local(k).seq().len() <= self.pool.count,
            self.pool.count < u64::MAX,
    {
        self.mem.lemma_view();
        lemma_span_pigeonhole(self.mem@, self.local(k).seq());
    }

    /// Take a span out of a private list, if it is in it. Returns whether it
    /// was.
    #[verifier::rlimit(60)]
    #[verifier::spinoff_prover]
    pub(crate) fn take_listed(&mut self, k: Key, s: u64) -> (r: bool)
        requires
            old(self).wf(),
            old(self).valid(k),
            old(self).place().dom().contains(s),
        ensures
            final(self).wf(),
            r == old(self).at(s, Place::Local(k)),
            !r ==> {
                &&& old(self).inert(*final(self))
                &&& final(self).stats == old(self).stats
                &&& old(self).same_cursors(*final(self))
                &&& final(self).place() == old(self).place()
                &&& old(self).same_locals(*final(self))
                &&& final(self).mem@ == old(self).mem@
            },
            r ==> old(self).moved(*final(self), s, Place::Held(k.tid)),
            r ==> exists|i: int|
                0 <= i < old(self).local(k).seq().len() && old(self).local(k).seq()[i] == s
                    && final(self).local(k) == LocalSpanList::of(
                    #[trigger] old(self).local(k).seq().remove(i),
                ),
            old(self).locals_but(*final(self), k),
            old(self).same_publics(*final(self)),
            old(self).same_records(*final(self)),
            forall|x: u64| #[trigger]
                old(self).mem@.headers.dom().contains(x) ==> final(self).header(x).state == old(
                    self,
                ).header(x).state && final(self).header(x).owner == old(self).header(x).owner
                    && final(self).header(x).node == old(self).header(x).node,
    {
        let ghost pre = *self;
        proof {
            reveal(WfSpanAllocator::order_ok);
            assert(pre.local_ok(k));
            assert(pre.place_ok(s));
            pre.lemma_span_address(s);
        }
        let n: usize = self.heaps.rows.len();
        let t: usize = k.tid as usize;
        let c: usize = k.class as usize;
        let r: bool = match k.lane {
            Lane::Span => {
                let limit: u64 = self.heaps.rows[t].local_spans[c].len();
                self.heaps.rows[t].local_spans[c].remove_bounded(&mut self.mem, s, limit)
            },
            Lane::Run => {
                let limit: u64 = self.heaps.rows[t].local_runs[c].len();
                self.heaps.rows[t].local_runs[c].remove_bounded(&mut self.mem, s, limit)
            },
        };
        proof {
            let items = pre.local(k).seq();
            if r {
                let w = choose|i: int| 0 <= i < items.len() && items[i] == s;
                assert(pre.at(items[w], Place::Local(k)));
            } else if pre.at(s, Place::Local(k)) {
                let w = choose|i: int| 0 <= i < items.len() && items[i] == s;
                assert(0 <= w < items.len() && items[w] == s);
            }
        }
        if !r {
            proof {
                assert(self.shape());
                pre.lemma_order_frame(*self);
                pre.lemma_assets_frame(*self);
            }
            return false;
        }
        self.ledger = Ghost(
            Ledger {
                place: self.ledger@.place.insert(s, Place::Held(k.tid)),
                ..self.ledger@
            },
        );
        proof {
            broadcast use LocalSpanList::lemma_of;

            let items = pre.local(k).seq();
            let w = choose|i: int| 0 <= i < items.len() && items[i] == s;
            assert(0 <= w < items.len() && items[w] == s);
            let at = choose|i: int|
                0 <= i < items.len() && items[i] == s && self.local(k) == LocalSpanList::of(
                    #[trigger] items.remove(i),
                ) && self.mem@ == (MemView {
                    headers: headers_remove(pre.mem@.headers, items, i),
                    ..pre.mem@
                });
            let rest = items.remove(at);
            assert(self.local(k).seq() == rest);
            assert(forall|i: int| 0 <= i < at ==> rest[i] == items[i]);
            assert(forall|i: int| at <= i < rest.len() ==> rest[i] == items[i + 1]);
            if at > 0 {
                assert(pre.at(items[at - 1], Place::Local(k)));
                assert(items.contains(items[at - 1]));
            }
            assert(self.mem@.headers.dom() =~= pre.mem@.headers.dom());
            assert(self.shape());
            assert(pre.locals_but(*self, k));
            assert forall|i: int| 0 <= i < rest.len() implies items.contains(#[trigger] rest[i])
                && rest[i] != s by {
                let i2 = if i < at { i } else { i + 1 };
                assert(rest[i] == items[i2]);
                assert(items[i2] != items[at]);
            }
            assert forall|x: u64| items.contains(x) && x != s implies #[trigger] rest.contains(
                x,
            ) by {
                let i = choose|i: int| 0 <= i < items.len() && items[i] == x;
                let i2 = if i < at { i } else { i - 1 };
                assert(rest[i2] == x);
            }
            self.lemma_unlisted(pre, k, s, items, rest);
            pre.lemma_moved_assets(*self, s, Place::Held(k.tid));
        }
        true
    }

    /// The nodes of spans that were never handed out stay unused while
    /// neither the pool nor the nodes in use change.
    proof fn lemma_homes_kept(self, pre: Self)
        requires
            pre.homes_ok(),
            self.homes().dom() == pre.homes().dom(),
            self.pool == pre.pool,
            self.mem@.base == pre.mem@.base,
            self.mem@.count == pre.mem@.count,
            pre.mem@.nodes.dom().subset_of(self.mem@.nodes.dom()),
        ensures
            self.homes_ok(),
    {
        assert forall|a: u64|
            self.mem@.is_span(a) && a >= self.frontier() implies !self.homes().dom().contains(
            #[trigger] self.mem@.own_node(a),
        ) by {
            assert(!pre.homes().dom().contains(pre.mem@.own_node(a)));
        }
    }

    /// Order is kept when `s` leaves the private list of `k`.
    proof fn lemma_unlisted(self, pre: Self, k: Key, s: u64, items: Seq<u64>, rest: Seq<u64>)
        requires
            pre.order_ok(),
            pre.at(s, Place::Local(k)),
            pre.moved(self, s, Place::Held(k.tid)),
            pre.locals_but(self, k),
            pre.same_publics(self),
            pre.same_records(self),
            self.homes() == pre.homes(),
            self.mem@.nodes == pre.mem@.nodes,
            items == pre.local(k).seq(),
            rest == self.local(k).seq(),
            self.local(k).wf(self.mem@.headers),
            forall|i: int|
                0 <= i < rest.len() ==> items.contains(#[trigger] rest[i]) && rest[i] != s,
            forall|x: u64| items.contains(x) && x != s ==> #[trigger] rest.contains(x),
            forall|x: u64| #[trigger]
                pre.mem@.headers.dom().contains(x) ==> {
                    &&& self.header(x).state == pre.header(x).state
                    &&& self.header(x).owner == pre.header(x).owner
                    &&& self.header(x).node == pre.header(x).node
                    &&& items.contains(x) || self.header(x).local.next_local
                        == pre.header(x).local.next_local
                },
        ensures
            self.order_ok(),
    {
        reveal(WfSpanAllocator::order_ok);
        assert(pre.place_ok(s));
        assert forall|j: Key| #[trigger] self.valid(j) implies self.local_ok(j) && self.public_ok(j)
            && self.record_ok(j) by {
            assert(pre.valid(j));
            let l = self.local(j).seq();
            if j == k {
                assert forall|i: int| 0 <= i < l.len() implies self.at(
                    #[trigger] l[i],
                    Place::Local(k),
                ) by {
                    assert(items.contains(l[i]));
                    let m = choose|m: int| 0 <= m < items.len() && items[m] == l[i];
                    assert(pre.at(items[m], Place::Local(k)));
                }
            } else {
                assert forall|i: int| 0 <= i < l.len() implies (#[trigger] self.mem@.headers[l[i]]).local.next_local
                    == succ(l, i) by {
                    assert(pre.at(l[i], Place::Local(j)));
                    assert(pre.mem@.headers[l[i]].local.next_local == succ(l, i));
                    if items.contains(l[i]) {
                        let m = choose|m: int| 0 <= m < items.len() && items[m] == l[i];
                        assert(pre.at(items[m], Place::Local(k)));
                    }
                }
            }
        }
        assert forall|x: u64| #[trigger] self.place().dom().contains(x) implies self.place_ok(x) by {
            assert(pre.place_ok(x));
            if x != s {
                match pre.place()[x] {
                    Place::Local(j) => {
                        if j == k {
                            assert(rest.contains(x));
                        }
                    },
                    _ => {},
                }
            }
        }
        self.lemma_homes_kept(pre);
    }

    /// Put a span that the thread holds into its private list, in front.
    pub(crate) fn put_front(&mut self, k: Key, s: u64)
        requires
            old(self).wf(),
            old(self).at(s, Place::Held(k.tid)),
            old(self).fits(s, k),
            k.lane == Lane::Run ==> old(self).header(s).state == SpanState::RunFreeLocal,
        ensures
            final(self).wf(),
            old(self).moved(*final(self), s, Place::Local(k)),
            final(self).local(k) == LocalSpanList::of(cons(s, old(self).local(k).seq())),
            old(self).locals_but(*final(self), k),
            old(self).same_publics(*final(self)),
            old(self).same_records(*final(self)),
            final(self).header(s).state == old(self).header(s).state,
    {
        let ghost pre = *self;
        proof {
            reveal(WfSpanAllocator::order_ok);
            assert(pre.local_ok(k));
            assert(pre.place_ok(s));
            pre.lemma_span_address(s);
            pre.lemma_local_len(k);
            if pre.local(k).seq().contains(s) {
                let i = choose|i: int|
                    0 <= i < pre.local(k).seq().len() && pre.local(k).seq()[i] == s;
                assert(pre.at(pre.local(k).seq()[i], Place::Local(k)));
            }
        }
        let n: usize = self.heaps.rows.len();
        let t: usize = k.tid as usize;
        let c: usize = k.class as usize;
        match k.lane {
            Lane::Span => {
                self.heaps.rows[t].local_spans[c].push_front(&mut self.mem, s);
            },
            Lane::Run => {
                self.heaps.rows[t].local_runs[c].push_front(&mut self.mem, s);
            },
        }
        self.ledger = Ghost(
            Ledger { place: self.ledger@.place.insert(s, Place::Local(k)), ..self.ledger@ },
        );
        proof {
            broadcast use LocalSpanList::lemma_of;

            let items = pre.local(k).seq();
            let now = cons(s, items);
            assert(self.local(k).seq() == now);
            assert(now[0] == s);
            assert(forall|i: int| 0 < i < now.len() ==> now[i] == items[i - 1]);
            assert forall|x: u64| items.contains(x) implies #[trigger] now.contains(x) by {
                let i = choose|i: int| 0 <= i < items.len() && items[i] == x;
                assert(now[i + 1] == x);
            }
            assert(self.mem@.headers.dom() =~= pre.mem@.headers.dom());
            assert(self.shape());
            assert(pre.locals_but(*self, k));
            self.lemma_listed(pre, k, s, items, now);
            pre.lemma_moved_assets(*self, s, Place::Local(k));
        }
    }

    /// Put a span that the thread holds into its private list, at the end.
    pub(crate) fn put_back(&mut self, k: Key, s: u64)
        requires
            old(self).wf(),
            old(self).at(s, Place::Held(k.tid)),
            old(self).fits(s, k),
            k.lane == Lane::Run ==> old(self).header(s).state == SpanState::RunFreeLocal,
        ensures
            final(self).wf(),
            old(self).moved(*final(self), s, Place::Local(k)),
            final(self).local(k) == LocalSpanList::of(old(self).local(k).seq().push(s)),
            old(self).locals_but(*final(self), k),
            old(self).same_publics(*final(self)),
            old(self).same_records(*final(self)),
            final(self).header(s).state == old(self).header(s).state,
    {
        let ghost pre = *self;
        proof {
            reveal(WfSpanAllocator::order_ok);
            assert(pre.local_ok(k));
            assert(pre.place_ok(s));
            pre.lemma_span_address(s);
            pre.lemma_local_len(k);
            if pre.local(k).seq().contains(s) {
                let i = choose|i: int|
                    0 <= i < pre.local(k).seq().len() && pre.local(k).seq()[i] == s;
                assert(pre.at(pre.local(k).seq()[i], Place::Local(k)));
            }
        }
        let n: usize = self.heaps.rows.len();
        let t: usize = k.tid as usize;
        let c: usize = k.class as usize;
        match k.lane {
            Lane::Span => {
                self.heaps.rows[t].local_spans[c].push_back(&mut self.mem, s);
            },
            Lane::Run => {
                self.heaps.rows[t].local_runs[c].push_back(&mut self.mem, s);
            },
        }
        self.ledger = Ghost(
            Ledger { place: self.ledger@.place.insert(s, Place::Local(k)), ..self.ledger@ },
        );
        proof {
            broadcast use LocalSpanList::lemma_of;

            let items = pre.local(k).seq();
            let now = items.push(s);
            assert(self.local(k).seq() == now);
            assert(now[items.len() as int] == s);
            assert(forall|i: int| 0 <= i < items.len() ==> now[i] == items[i]);
            if items.len() > 0 {
                assert(pre.at(items[items.len() - 1], Place::Local(k)));
                assert(pre.mem@.headers.dom().contains(items[items.len() - 1]));
            }
            assert(self.mem@.headers.dom() =~= pre.mem@.headers.dom());
            assert(self.shape());
            assert(pre.locals_but(*self, k));
            self.lemma_listed(pre, k, s, items, now);
            pre.lemma_moved_assets(*self, s, Place::Local(k));
        }
    }

    /// Order is kept when `s` joins the private list of `k`.
    proof fn lemma_listed(self, pre: Self, k: Key, s: u64, items: Seq<u64>, now: Seq<u64>)
        requires
            pre.order_ok(),
            pre.at(s, Place::Held(k.tid)),
            pre.fits(s, k),
            k.lane == Lane::Run ==> pre.header(s).state == SpanState::RunFreeLocal,
            pre.moved(self, s, Place::Local(k)),
            pre.locals_but(self, k),
            pre.same_publics(self),
            pre.same_records(self),
            self.homes() == pre.homes(),
            self.mem@.nodes == pre.mem@.nodes,
            items == pre.local(k).seq(),
            now == self.local(k).seq(),
            self.local(k).wf(self.mem@.headers),
            forall|i: int| 0 <= i < now.len() ==> now[i] == s || items.contains(#[trigger] now[i]),
            forall|x: u64| items.contains(x) ==> #[trigger] now.contains(x),
            now.contains(s),
            forall|x: u64| #[trigger]
                pre.mem@.headers.dom().contains(x) ==> {
                    &&& self.header(x).state == pre.header(x).state
                    &&& self.header(x).owner == pre.header(x).owner
                    &&& self.header(x).node == pre.header(x).node
                    &&& x == s || items.contains(x) || self.header(x).local.next_local
                        == pre.header(x).local.next_local
                },
        ensures
            self.order_ok(),
    {
        reveal(WfSpanAllocator::order_ok);
        assert(pre.place_ok(s));
        assert forall|j: Key| #[trigger] self.valid(j) implies self.local_ok(j) && self.public_ok(j)
            && self.record_ok(j) by {
            assert(pre.valid(j));
            let l = self.local(j).seq();
            if j == k {
                assert forall|i: int| 0 <= i < l.len() implies self.at(
                    #[trigger] l[i],
                    Place::Local(k),
                ) by {
                    if l[i] != s {
                        let m = choose|m: int| 0 <= m < items.len() && items[m] == l[i];
                        assert(pre.at(items[m], Place::Local(k)));
                    }
                }
            } else {
                assert forall|i: int| 0 <= i < l.len() implies (#[trigger] self.mem@.headers[l[i]]).local.next_local
                    == succ(l, i) by {
                    assert(pre.at(l[i], Place::Local(j)));
                    assert(pre.mem@.headers[l[i]].local.next_local == succ(l, i));
                    if items.contains(l[i]) {
                        let m = choose|m: int| 0 <= m < items.len() && items[m] == l[i];
                        assert(pre.at(items[m], Place::Local(k)));
                    }
                }
            }
        }
        assert forall|x: u64| #[trigger] self.place().dom().contains(x) implies self.place_ok(x) by {
            assert(pre.place_ok(x));
        }
        self.lemma_homes_kept(pre);
    }

    /// Change owner and state of a span that is in no list and no record.
    pub(crate) fn stamp(&mut self, s: u64, owner: u64, state: SpanState, to: Ghost<Place>)
        requires
            old(self).wf(),
            old(self).place().dom().contains(s),
            old(self).place()[s] is Transit || old(self).place()[s] is Held || old(self).place()[s]
                is Discarded,
            match to@ {
                Place::Held(t) => t < old(self).n() && owner == t,
                Place::Transit(t) => t < old(self).n() && owner == OWNER_PUBLIC && (old(
                    self,
                ).units()[s].kind is Run ==> state == SpanState::RunFreePublic),
                Place::Discarded => owner == OWNER_NONE && old(self).units()[s].kind is Small,
                _ => false,
            },
        ensures
            final(self).wf(),
            old(self).moved(*final(self), s, to@),
            final(self).heaps == old(self).heaps,
            final(self).help == old(self).help,
            final(self).mem@ == (MemView {
                headers: old(self).mem@.headers.insert(
                    s,
                    SpanHeader { owner, state, ..old(self).header(s) },
                ),
                ..old(self).mem@
            }),
    {
        let ghost pre = *self;
        proof {
            reveal(WfSpanAllocator::order_ok);
            assert(pre.place_ok(s));
        }
        let mut h = self.mem.header(s);
        h.owner = owner;
        h.state = state;
        self.mem.set_header(s, h);
        self.ledger = Ghost(Ledger { place: self.ledger@.place.insert(s, to@), ..self.ledger@ });
        proof {
            assert(self.mem@.headers.dom() =~= pre.mem@.headers.dom());
            assert(self.shape());
            assert forall|j: Key| #[trigger] self.valid(j) implies self.local_ok(j)
                && self.public_ok(j) && self.record_ok(j) by {
                assert(pre.valid(j));
                let l = self.local(j).seq();
                assert forall|i: int| 0 <= i < l.len() implies (#[trigger] self.mem@.headers[l[i]]).local.next_local
                    == succ(l, i) by {
                    assert(pre.at(l[i], Place::Local(j)));
                    assert(pre.mem@.headers[l[i]].local.next_local == succ(l, i));
                }
            }
            assert forall|x: u64| #[trigger] self.place().dom().contains(x) implies self.place_ok(
                x,
            ) by {
                assert(pre.place_ok(x));
            }
            self.lemma_homes_kept(pre);
            assert(self.order_ok());
            pre.lemma_moved_assets(*self, s, to@);
        }
    }

    /// Append a span in the thread's hands to its public list.
    pub(crate) fn publish(&mut self, k: Key, s: u64, step: &mut StepCounter)
        requires
            old(self).wf(),
            old(self).at(s, Place::Transit(k.tid)),
            old(self).fits(s, k),
        ensures
            final(self).wf(),
            old(self).moved(*final(self), s, Place::Public(k)),
            final(self).public(k).seq() == old(self).public(k).seq().push(s),
            final(self).public(k).head() == old(self).public(k).head(),
            old(self).publics_but(*final(self), k),
            old(self).same_locals(*final(self)),
            old(self).same_records(*final(self)),
            final(self).header(s).state == old(self).header(s).state,
            *final(step) == *old(step),
    {
        let ghost pre = *self;
        let ghost node = pre.header(s).node;
        proof {
            reveal(WfSpanAllocator::order_ok);
            assert(pre.public_ok(k));
            assert(pre.place_ok(s));
            pre.lemma_span_address(s);
            let l = pre.public(k);
            if l.seq().contains(s) {
                let i = choose|i: int| 0 <= i < l.seq().len() && l.seq()[i] == s;
                assert(pre.at(l.seq()[i], Place::Public(k)));
            }
            if l.chain().contains(node) {
                let i = choose|i: int| 0 <= i < l.chain().len() && l.chain()[i] == node;
                assert(pre.homes()[l.chain()[i]] == Home::List(k));
            }
        }
        let n: usize = self.heaps.rows.len();
        let t: usize = k.tid as usize;
        let c: usize = k.class as usize;
        match k.lane {
            Lane::Span => {
                self.heaps.rows[t].public_spans[c].enqueue_by_owner(&mut self.mem, s, step);
            },
            Lane::Run => {
                self.heaps.rows[t].public_runs[c].enqueue_by_owner(&mut self.mem, s, step);
            },
        }
        self.ledger = Ghost(
            Ledger {
                place: self.ledger@.place.insert(s, Place::Public(k)),
                homes: self.ledger@.homes.insert(node, Home::List(k)),
                ..self.ledger@
            },
        );
        proof {
            broadcast use SpmcSpanList::lemma_of;

            let l = pre.public(k);
            let m = self.public(k);
            let tail = l.chain()[l.chain().len() - 1];
            assert(pre.homes()[tail] == Home::List(k));
            assert(m.seq() == l.seq().push(s));
            assert(m.seq()[l.seq().len() as int] == s);
            assert(self.mem@.headers.dom() =~= pre.mem@.headers.dom());
            assert(self.mem@.nodes.dom() =~= pre.mem@.nodes.dom());
            assert(self.homes().dom() =~= pre.homes().dom());
            assert(self.shape());
            assert(pre.publics_but(*self, k));
            assert forall|j: Key| #[trigger] self.valid(j) implies self.local_ok(j)
                && self.public_ok(j) && self.record_ok(j) by {
                assert(pre.valid(j));
                let a = self.local(j).seq();
                assert forall|i: int| 0 <= i < a.len() implies (#[trigger] self.mem@.headers[a[i]]).local.next_local
                    == succ(a, i) by {
                    assert(pre.mem@.headers[a[i]].local.next_local == succ(a, i));
                }
                let b = pre.public(j);
                if j == k {
                    assert forall|i: int| 0 <= i < m.seq().len() implies self.at(
                        #[trigger] m.seq()[i],
                        Place::Public(k),
                    ) by {
                        if i < l.seq().len() {
                            assert(pre.at(l.seq()[i], Place::Public(k)));
                        }
                    }
                    assert forall|i: int| 0 <= i < m.chain().len() implies self.homes().dom().contains(
                        #[trigger] m.chain()[i],
                    ) && self.homes()[m.chain()[i]] == Home::List(k) by {
                        if i < l.chain().len() {
                            assert(pre.homes()[l.chain()[i]] == Home::List(k));
                        }
                    }
                } else {
                    assert forall|i: int| 0 <= i < b.chain().len() implies #[trigger] b.chain()[i]
                        != node && b.chain()[i] != tail by {
                        assert(pre.homes()[b.chain()[i]] == Home::List(j));
                    }
                    assert forall|i: int|
                        0 <= i < b.chain().len() implies (#[trigger] self.mem@.nodes[b.chain()[i]]).next
                        == succ(b.chain(), i) by {
                        assert(pre.mem@.nodes[b.chain()[i]].next == succ(b.chain(), i));
                        assert(b.chain()[i] != node && b.chain()[i] != tail);
                    }
                    assert forall|i: int| 0 <= i < b.seq().len() implies #[trigger] b.seq()[i] != 0
                        && self.mem@.headers.dom().contains(b.seq()[i])
                        && self.mem@.nodes[b.chain()[i + 1]].span == b.seq()[i] by {
                        assert(b.chain()[i + 1] != node && b.chain()[i + 1] != tail);
                        assert(pre.mem@.nodes[b.chain()[i + 1]].span == b.seq()[i]);
                    }
                    assert forall|i: int| 0 <= i < b.seq().len() implies self.at(
                        #[trigger] b.seq()[i],
                        Place::Public(j),
                    ) by {
                        assert(pre.at(b.seq()[i], Place::Public(j)));
                    }
                }
            }
            assert forall|x: u64| #[trigger] self.place().dom().contains(x) implies self.place_ok(
                x,
            ) by {
                assert(pre.place_ok(x));
                if x != s {
                    match pre.place()[x] {
                        Place::Public(j) => {
                            if j == k {
                                let i = choose|i: int| 0 <= i < l.seq().len() && l.seq()[i] == x;
                                assert(m.seq()[i] == x);
                            }
                        },
                        _ => {},
                    }
                } else {
                    assert(m.seq().contains(s));
                }
            }
            self.lemma_homes_kept(pre);
            assert(self.order_ok());
            pre.lemma_moved_assets(*self, s, Place::Public(k));
        }
    }

    /// Pop the first span of a public list into a thread's hands: one
    /// attempt.
    pub(crate) fn pop_public<B: Cas2Backend>(&mut self, k: Key, tid: u64, step: &mut StepCounter)
        -> (r: TryPop)
        requires
            old(self).wf(),
            old(self).valid(k),
            tid < old(self).n(),
            old(step).room(1),
        ensures
            final(self).wf(),
            r is Empty <==> old(self).public(k).seq().len() == 0,
            B::strong() ==> !(r is Failed),
            old(self).same_states(*final(self)),
            !(r is Span) ==> old(self).inert(*final(self)) && final(self).stats == old(self).stats
                && old(self).same_cursors(*final(self))
                && final(self).place() == old(self).place() && old(self).same_publics(*final(self)),
            r matches TryPop::Span(s) ==> {
                &&& s == old(self).public(k).seq()[0]
                &&& old(self).at(s, Place::Public(k))
                &&& old(self).moved(*final(self), s, Place::Transit(tid))
                &&& final(self).public(k) == old(self).public(k).popped()
                &&& old(self).publics_but(*final(self), k)
            },
            old(self).same_locals(*final(self)),
            old(self).same_records(*final(self)),
            *final(step) == (if r is Empty {
                *old(step)
            } else {
                StepCounter { cas2_attempts: (old(step).cas2_attempts + 1) as u64, ..*old(step) }
            }),
    {
        let ghost pre = *self;
        proof {
            reveal(WfSpanAllocator::order_ok);
            assert(pre.public_ok(k));
        }
        let n: usize = self.heaps.rows.len();
        let t: usize = k.tid as usize;
        let c: usize = k.class as usize;
        let r = match k.lane {
            Lane::Span => self.heaps.rows[t].public_spans[c].try_pop_head_once::<B>(
                &mut self.mem,
                step,
            ),
            Lane::Run => self.heaps.rows[t].public_runs[c].try_pop_head_once::<B>(
                &mut self.mem,
                step,
            ),
        };
        match r {
            TryPop::Span(s) => {
                self.ledger = Ghost(
                    Ledger {
                        place: self.ledger@.place.insert(s, Place::Transit(tid)),
                        homes: self.ledger@.homes.insert(pre.public(k).chain()[0], Home::Span(s)),
                        ..self.ledger@
                    },
                );
                proof {
                    broadcast use SpmcSpanList::lemma_of;

                    let l = pre.public(k);
                    let m = self.public(k);
                    let dummy = l.chain()[0];
                    assert(pre.at(l.seq()[0], Place::Public(k)));
                    assert(pre.place_ok(s));
                    assert(pre.homes()[dummy] == Home::List(k));
                    assert(self.mem@.headers.dom() =~= pre.mem@.headers.dom());
                    assert(self.homes().dom() =~= pre.homes().dom());
                    assert(self.shape());
                    assert(pre.publics_but(*self, k));
                    assert forall|j: Key| #[trigger] self.valid(j) implies self.local_ok(j)
                        && self.public_ok(j) && self.record_ok(j) by {
                        assert(pre.valid(j));
                        let a = self.local(j).seq();
                        assert forall|i: int|
                            0 <= i < a.len() implies (#[trigger] self.mem@.headers[a[i]]).local.next_local
                            == succ(a, i) by {
                            assert(pre.mem@.headers[a[i]].local.next_local == succ(a, i));
                        }
                        let b = pre.public(j);
                        if j == k {
                            assert forall|i: int| 0 <= i < m.seq().len() implies self.at(
                                #[trigger] m.seq()[i],
                                Place::Public(k),
                            ) by {
                                assert(m.seq()[i] == l.seq()[i + 1]);
                                assert(pre.at(l.seq()[i + 1], Place::Public(k)));
                                assert(l.seq()[i + 1] != l.seq()[0]);
                            }
                            assert forall|i: int|
                                0 <= i < m.chain().len() implies self.homes().dom().contains(
                                #[trigger] m.chain()[i],
                            ) && self.homes()[m.chain()[i]] == Home::List(k) by {
                                assert(m.chain()[i] == l.chain()[i + 1]);
                                assert(l.chain()[i + 1] != l.chain()[0]);
                                assert(pre.homes()[l.chain()[i + 1]] == Home::List(k));
                            }
                        } else {
                            assert forall|i: int|
                                0 <= i < b.chain().len() implies self.homes().dom().contains(
                                #[trigger] b.chain()[i],
                            ) && self.homes()[b.chain()[i]] == Home::List(j) by {
                                assert(pre.homes()[b.chain()[i]] == Home::List(j));
                            }
                            assert forall|i: int| 0 <= i < b.seq().len() implies self.at(
                                #[trigger] b.seq()[i],
                                Place::Public(j),
                            ) by {
                                assert(pre.at(b.seq()[i], Place::Public(j)));
                            }
                        }
                    }
                    assert forall|x: u64| #[trigger]
                        self.place().dom().contains(x) implies self.place_ok(x) by {
                        assert(pre.place_ok(x));
                        if x != s {
                            match pre.place()[x] {
                                Place::Public(j) => {
                                    if j == k {
                                        let i = choose|i: int|
                                            0 <= i < l.seq().len() && l.seq()[i] == x;
                                        assert(m.seq()[i - 1] == x);
                                    }
                                },
                                _ => {},
                            }
                        }
                    }
                    self.lemma_homes_kept(pre);
                    assert(self.order_ok());
                    pre.lemma_moved_assets(*self, s, Place::Transit(tid));
                }
            },
            _ => {
                proof {
                    assert(self.shape());
                    pre.lemma_order_frame(*self);
                    pre.lemma_assets_frame(*self);
                }
            },
        }
        r
    }
}

/// Distinct spans of a region are no more than the region has.
pub proof fn lemma_span_pigeonhole(mem: MemView, items: Seq<u64>)
    requires
        items.no_duplicates(),
        forall|a: u64| #[trigger] mem.headers.dom().contains(a) <==> mem.is_span(a),
        forall|i: int| 0 <= i < items.len() ==> mem.headers.dom().contains(#[trigger] items[i]),
        mem.end() <= u64::MAX,
    ensures
        items.len() <= mem.count,
{
    let all = Seq::new(mem.count, |k: int| (mem.base + k * 65536) as u64);
    assert forall|i: int, j: int| 0 <= i < all.len() && 0 <= j < all.len() && i != j implies all[i]
        != all[j] by {
    }
    items.unique_seq_to_set();
    all.unique_seq_to_set();
    assert(items.to_set().subset_of(all.to_set())) by {
        assert forall|a: u64| items.to_set().contains(a) implies all.to_set().contains(a) by {
            let i = choose|i: int| 0 <= i < items.len() && items[i] == a;
            assert(mem.is_span(items[i]));
            let k = (a - mem.base) / 65536;
            assert(all[k] == a);
        }
    }
    vstd::set_lib::lemma_len_subset(items.to_set(), all.to_set());
}

} // verus!
