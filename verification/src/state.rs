//! The allocator's state: where every span is, and what is live.

use crate::chain::succ;
use crate::config::{
    MAX_ACTIVE_THREADS, MAX_LARGE_RUN_CLASSES, MAX_SUPPORTED_CLASSES, OWNER_NONE, OWNER_PUBLIC,
    SPAN_SIZE,
};
use crate::heap::{LocalSpanList, ThreadHeap};
use crate::help_record::{completed, HelpRecord, HelpTable};
use crate::huge::{
    huge_payload, huge_slack, HugeArena, HugeRunSlot, HUGE_SLOT_ALLOCATED, HUGE_SLOT_EMPTY,
    HUGE_SLOT_FREE,
};
use crate::large::{hidden_header, large_need, large_payload, LARGE_HEADER_SIZE};
use crate::layout::Layout;
use crate::memory::{LargeSlot, SpanMemory};
use crate::metadata::RuntimeSlice;
use crate::pagemap::FixedSpanPool;
use crate::size_class::{class_for, class_size};
use crate::span::{is_block, run_header, small_span, span_base, SpanHeader, SpanState};
use crate::spmc_span_list::SpmcSpanList;
use crate::stats::AllocatorStats;
use crate::thread::ThreadRegistry;
use vstd::arithmetic::power2::pow2;
use vstd::prelude::*;

verus! {

/// The two index spaces of lists and records: spans of blocks by size class,
/// and large runs by run class.
#[derive(Clone, Copy, Debug, PartialEq, Eq, Structural)]
pub enum Lane {
    Span,
    Run,
}

/// One thread's lists and record of one class.
#[derive(Clone, Copy, Debug, PartialEq, Eq, Structural)]
pub struct Key {
    pub lane: Lane,
    pub class: u64,
    pub tid: u64,
}

/// Where a span or run is.
pub ghost enum Place {
    /// In a thread's private list.
    Local(Key),
    /// In a thread's public list.
    Public(Key),
    /// Owned by a completed help record.
    Record(Key),
    /// Popped from a public list or a record and in a thread's hands, still
    /// marked public.
    Transit(u64),
    /// Owned by a thread and in no list.
    Held(u64),
    /// Ownerless, with no visible free block.
    Discarded,
    /// A run handed to the user, with this payload address.
    Live(u64),
}

/// What a list node is part of.
pub ghost enum Home {
    List(Key),
    Span(u64),
}

/// What a piece of the region was carved for.
pub ghost enum Kind {
    Small,
    Run,
    Huge,
}

/// A carved piece of the region.
pub ghost struct Unit {
    pub kind: Kind,
    pub spans: nat,
}

/// What the allocator's data structures stand for.
pub ghost struct Ledger {
    /// Where each span of blocks and each run is, by base address.
    pub place: Map<u64, Place>,
    /// What each list node is part of.
    pub homes: Map<u64, Home>,
    /// The carved pieces of the region, by base address.
    pub units: Map<u64, Unit>,
    /// The live allocations, by payload address.
    pub live: Map<u64, Layout>,
}

/// Token-based wait-free span allocator.
///
/// `C` is the number of size classes in use and `HG` the huge granule in
/// spans. Build one with `new`, install its region with `init`, register each
/// thread once, and allocate and free with the tokens.
pub struct WfSpanAllocator<const C: u64, const HG: u64> {
    pub heaps: RuntimeSlice<ThreadHeap<C>>,
    pub help: HelpTable<C>,
    pub pool: FixedSpanPool,
    pub registry: ThreadRegistry,
    pub stats: AllocatorStats,
    pub huge: HugeArena,
    pub mem: SpanMemory,
    pub ledger: Ghost<Ledger>,
}

/// The kind of unit that circulates in a lane.
pub open spec fn lane_kind(lane: Lane) -> Kind {
    match lane {
        Lane::Span => Kind::Small,
        Lane::Run => Kind::Run,
    }
}

/// Two headers differ at most in owner, state, node and owner-list link.
pub open spec fn same_core(a: SpanHeader, b: SpanHeader) -> bool {
    &&& a.size_class == b.size_class
    &&& a.block_size == b.block_size
    &&& a.block_count == b.block_count
    &&& a.local.free == b.local.free
    &&& a.local.free_count == b.local.free_count
    &&& a.local.pending_remote == b.local.pending_remote
    &&& a.local.pending == b.local.pending
    &&& a.remote == b.remote
}

/// Two headers agree in owner, class, node and owner-list link, and in the
/// state too if they are those of a run.
pub open spec fn same_shell(a: SpanHeader, b: SpanHeader) -> bool {
    &&& a.owner == b.owner
    &&& a.size_class == b.size_class
    &&& a.node == b.node
    &&& a.local.next_local == b.local.next_local
}

impl<const C: u64, const HG: u64> WfSpanAllocator<C, HG> {
    /// Number of participating threads.
    pub open spec fn n(self) -> int {
        self.heaps.rows@.len() as int
    }

    /// Where each span and run is.
    pub open spec fn place(self) -> Map<u64, Place> {
        self.ledger@.place
    }

    /// Who has each node.
    pub open spec fn homes(self) -> Map<u64, Home> {
        self.ledger@.homes
    }

    /// The carved pieces, by their first address.
    pub open spec fn units(self) -> Map<u64, Unit> {
        self.ledger@.units
    }

    /// The live allocations, by payload address.
    pub open spec fn live(self) -> Map<u64, Layout> {
        self.ledger@.live
    }

    /// The header of a span.
    pub open spec fn header(self, s: u64) -> SpanHeader {
        self.mem@.headers[s]
    }

    /// Number of classes of a lane.
    pub open spec fn classes(self, lane: Lane) -> u64 {
        match lane {
            Lane::Span => C,
            Lane::Run => MAX_LARGE_RUN_CLASSES,
        }
    }

    /// A key of an existing thread and class.
    pub open spec fn valid(self, k: Key) -> bool {
        k.tid < self.n() && k.class < self.classes(k.lane)
    }

    /// Private list of a key.
    pub open spec fn local(self, k: Key) -> LocalSpanList {
        match k.lane {
            Lane::Span => self.heaps.rows@[k.tid as int].local_spans@[k.class as int],
            Lane::Run => self.heaps.rows@[k.tid as int].local_runs@[k.class as int],
        }
    }

    /// Public list of a key.
    pub open spec fn public(self, k: Key) -> SpmcSpanList {
        match k.lane {
            Lane::Span => self.heaps.rows@[k.tid as int].public_spans@[k.class as int],
            Lane::Run => self.heaps.rows@[k.tid as int].public_runs@[k.class as int],
        }
    }

    /// Help record of a key.
    pub open spec fn record(self, k: Key) -> HelpRecord {
        match k.lane {
            Lane::Span => self.help.records.rows@[k.tid as int]@[k.class as int],
            Lane::Run => self.help.run_records.rows@[k.tid as int]@[k.class as int],
        }
    }

    /// Word of the help record of a key.
    pub open spec fn word(self, k: Key) -> u64 {
        self.record(k).phase_pending_or_span
    }

    /// Saved query position of a key.
    pub open spec fn query(self, k: Key) -> u64 {
        match k.lane {
            Lane::Span => self.heaps.rows@[k.tid as int].cur_query@[k.class as int],
            Lane::Run => self.heaps.rows@[k.tid as int].cur_query_runs@[k.class as int],
        }
    }

    /// Saved helping position of a key.
    pub open spec fn helping(self, k: Key) -> u64 {
        match k.lane {
            Lane::Span => self.heaps.rows@[k.tid as int].helping_pos@[k.class as int],
            Lane::Run => self.heaps.rows@[k.tid as int].helping_pos_runs@[k.class as int],
        }
    }

    /// The tables have a row per thread and an entry per class, and the
    /// parameters are in range.
    pub open spec fn shape(self) -> bool {
        &&& 1 <= self.n() <= MAX_ACTIVE_THREADS
        &&& 1 <= C <= MAX_SUPPORTED_CLASSES
        &&& HG >= 1
        &&& HG * SPAN_SIZE * 4 <= u64::MAX
        &&& forall|t: int| 0 <= t < self.n() ==> (#[trigger] self.heaps.rows@[t]).shape()
        &&& self.help.shape(self.n())
    }

    /// Address of the first span that was never handed out.
    pub open spec fn frontier(self) -> int {
        self.pool.base + self.pool.used() * SPAN_SIZE
    }

    /// The metadata is that of the pool's region.
    pub open spec fn pool_ok(self) -> bool {
        &&& self.pool.wf()
        &&& self.mem.wf()
        &&& self.mem@.base == self.pool.base
        &&& self.mem@.count == self.pool.count
    }

    /// `s` is a span or run that is at a given place.
    pub open spec fn at(self, s: u64, p: Place) -> bool {
        self.place().dom().contains(s) && self.place()[s] == p
    }

    /// The private list is sound and holds what the ledger says.
    pub open spec fn local_ok(self, k: Key) -> bool {
        &&& self.local(k).wf(self.mem@.headers)
        &&& forall|i: int|
            0 <= i < self.local(k).seq().len() ==> self.at(
                #[trigger] self.local(k).seq()[i],
                Place::Local(k),
            )
    }

    /// The public list is sound and holds what the ledger says.
    pub open spec fn public_ok(self, k: Key) -> bool {
        &&& self.public(k).wf(self.mem@)
        &&& forall|i: int|
            0 <= i < self.public(k).seq().len() ==> self.at(
                #[trigger] self.public(k).seq()[i],
                Place::Public(k),
            )
        &&& forall|i: int|
            0 <= i < self.public(k).chain().len() ==> self.homes().dom().contains(
                #[trigger] self.public(k).chain()[i],
            ) && self.homes()[self.public(k).chain()[i]] == Home::List(k)
    }

    /// A completed record owns the span that the ledger says.
    pub open spec fn record_ok(self, k: Key) -> bool {
        completed(self.word(k)) ==> self.at(self.word(k), Place::Record(k))
    }

    /// A listed span fits its list.
    pub open spec fn fits(self, s: u64, k: Key) -> bool {
        &&& self.valid(k)
        &&& self.units()[s].kind == lane_kind(k.lane)
        &&& self.header(s).size_class == k.class
    }

    /// The header of a run that is free in a public place says so.
    pub open spec fn public_state(self, s: u64) -> bool {
        self.units()[s].kind is Run ==> self.header(s).state == SpanState::RunFreePublic
    }

    /// A span is where the ledger says, and owns a node unless it is in a
    /// public list.
    pub open spec fn place_ok(self, s: u64) -> bool {
        let h = self.header(s);
        &&& self.mem@.headers.dom().contains(s)
        &&& self.units().dom().contains(s)
        &&& match self.place()[s] {
            Place::Local(k) => {
                &&& self.fits(s, k)
                &&& h.owner == k.tid
                &&& self.local(k).seq().contains(s)
                &&& k.lane == Lane::Run ==> h.state == SpanState::RunFreeLocal
            },
            Place::Public(k) => {
                &&& self.fits(s, k)
                &&& h.owner == OWNER_PUBLIC
                &&& self.public(k).seq().contains(s)
                &&& self.public_state(s)
            },
            Place::Record(k) => {
                &&& self.fits(s, k)
                &&& h.owner == OWNER_PUBLIC
                &&& self.word(k) == s
                &&& self.public_state(s)
            },
            Place::Transit(t) => {
                &&& t < self.n()
                &&& h.owner == OWNER_PUBLIC
                &&& self.public_state(s)
            },
            Place::Held(t) => {
                &&& t < self.n()
                &&& h.owner == t
            },
            Place::Discarded => {
                &&& self.units()[s].kind is Small
                &&& h.owner == OWNER_NONE
            },
            Place::Live(_) => {
                &&& self.units()[s].kind is Run
                &&& h.owner < self.n()
            },
        }
        &&& match self.place()[s] {
            Place::Public(_) => h.node == 0,
            _ => {
                &&& h.node != 0
                &&& self.mem@.nodes.dom().contains(h.node)
                &&& self.homes().dom().contains(h.node)
                &&& self.homes()[h.node] == Home::Span(s)
            },
        }
    }

    /// Nodes in use exist, and spans that were never handed out keep theirs.
    pub open spec fn homes_ok(self) -> bool {
        &&& forall|x: u64| #[trigger]
            self.homes().dom().contains(x) ==> self.mem@.nodes.dom().contains(x)
        &&& forall|a: u64|
            self.mem@.is_span(a) && a >= self.frontier() ==> !self.homes().dom().contains(
                #[trigger] self.mem@.own_node(a),
            )
    }

    /// Lists, records and nodes are sound, and every span is at exactly one
    /// place.
    #[verifier::opaque]
    pub open spec fn order_ok(self) -> bool {
        &&& forall|k: Key| #[trigger]
            self.valid(k) ==> self.local_ok(k) && self.public_ok(k) && self.record_ok(k)
        &&& forall|s: u64| #[trigger] self.place().dom().contains(s) ==> self.place_ok(s)
        &&& self.homes_ok()
    }

    /// The carved pieces lie one behind the other below the frontier.
    pub open spec fn units_ok(self) -> bool {
        &&& forall|u: u64| #[trigger]
            self.units().dom().contains(u) ==> {
                &&& self.mem@.is_span(u)
                &&& self.units()[u].spans >= 1
                &&& u + self.units()[u].spans * SPAN_SIZE <= self.frontier()
            }
        &&& forall|u: u64, v: u64|
            #![trigger self.units().dom().contains(u), self.units().dom().contains(v)]
            self.units().dom().contains(u) && self.units().dom().contains(v) && u < v ==> u
                + self.units()[u].spans * SPAN_SIZE <= v
        &&& forall|u: u64| #[trigger]
            self.place().dom().contains(u) <==> self.units().dom().contains(u) && !(
            self.units()[u].kind is Huge)
    }

    /// A span of blocks, or a run, is sound in itself.
    pub open spec fn unit_sound(self, s: u64) -> bool {
        let h = self.header(s);
        match self.units()[s].kind {
            Kind::Small => {
                &&& self.units()[s].spans == 1
                &&& h.size_class < C
                &&& h.block_size == class_size(h.size_class as int)
                &&& small_span(self.mem@, s)
            },
            Kind::Run => {
                &&& h.size_class < MAX_LARGE_RUN_CLASSES
                &&& self.units()[s].spans == pow2(h.size_class as nat)
                &&& run_header(h)
            },
            Kind::Huge => true,
        }
    }

    /// The path that serves a request: a function of the layout alone, the
    /// same for allocation and deallocation.
    pub open spec fn dispatch(layout: Layout) -> Path {
        match class_for(layout.size as int, layout.align as int) {
            Some(c) if c < C => Path::Small(c),
            _ => if layout.size >= Self::granule_bytes() {
                Path::Huge
            } else {
                Path::Large
            },
        }
    }

    /// The run whose hidden header stands before the payload `p`.
    pub open spec fn run_of(self, p: u64) -> u64 {
        self.hidden(p).header.run
    }

    /// The hidden header slot of the span that holds the bytes before `p`.
    pub open spec fn hidden(self, p: u64) -> LargeSlot {
        self.mem@.larges[self.mem@.span_of((p - LARGE_HEADER_SIZE) as u64)]
    }

    /// A huge slot.
    pub open spec fn slot(self, c: int, k: int) -> HugeRunSlot {
        self.huge.slots@[c]@[k]
    }

    /// The huge slot `(c, k)` holds the live allocation `p`.
    pub open spec fn slot_serves(self, c: int, k: int, p: u64) -> bool {
        let x = self.slot(c, k);
        &&& 0 <= c < 3
        &&& 0 <= k < 4
        &&& x.state == HUGE_SLOT_ALLOCATED
        &&& p == huge_payload(x.base, x.requested_align)
        &&& self.live()[p] == (Layout { size: x.requested_size, align: x.requested_align })
    }

    /// A live allocation is a block of a span, or the payload of a live run,
    /// or that of an allocated slot, as its layout says.
    pub open spec fn live_entry(self, p: u64) -> bool {
        let l = self.live()[p];
        &&& l.valid()
        &&& p != 0
        &&& match Self::dispatch(l) {
            Path::Small(c) => {
                let s = span_base(p);
                &&& self.units().dom().contains(s)
                &&& self.units()[s].kind is Small
                &&& self.header(s).size_class == c
                &&& is_block(s, class_size(c as int), p)
            },
            Path::Large => self.at(self.run_of(p), Place::Live(p)),
            Path::Huge => exists|c: int, k: int| #[trigger] self.slot_serves(c, k, p),
        }
    }

    /// A block of a span is live or free, never both and never neither.
    pub open spec fn block_ok(self, s: u64, b: u64) -> bool {
        self.live().dom().contains(b) <==> !self.header(s).free_blocks().contains(b)
    }

    /// A live run holds the payload that the ledger says, large enough, and
    /// its hidden header.
    pub open spec fn run_live(self, r: u64, p: u64) -> bool {
        &&& self.live().dom().contains(p)
        &&& Self::dispatch(self.live()[p]) is Large
        &&& p == large_payload(r, self.live()[p])
        &&& large_need(self.live()[p]) <= pow2(self.header(r).size_class as nat) * SPAN_SIZE
        &&& self.hidden(p).at == p - LARGE_HEADER_SIZE
        &&& self.hidden(p).header == hidden_header(r, self.header(r).size_class)
        &&& self.header(r).state == SpanState::RunAllocated
    }

    /// A carved huge slot has a run of its class, and the live allocation in
    /// it is recorded in the slot.
    pub open spec fn slot_ok(self, c: int, k: int) -> bool {
        let x = self.slot(c, k);
        let p = huge_payload(x.base, x.requested_align) as u64;
        &&& x.state == HUGE_SLOT_EMPTY || x.state == HUGE_SLOT_FREE || x.state
            == HUGE_SLOT_ALLOCATED
        &&& x.state == HUGE_SLOT_EMPTY <==> x.base == 0
        &&& x.state != HUGE_SLOT_EMPTY ==> {
            &&& self.units().dom().contains(x.base)
            &&& self.units()[x.base].kind is Huge
            &&& self.units()[x.base].spans == pow2(c as nat) * HG
        }
        &&& x.state == HUGE_SLOT_ALLOCATED ==> {
            let l = Layout { size: x.requested_size, align: x.requested_align };
            &&& self.live().dom().contains(p)
            &&& self.live()[p] == l
            &&& Self::dispatch(l) is Huge
            &&& l.size + huge_slack(l) <= pow2(c as nat) * Self::granule_bytes()
        }
    }

    /// Distinct huge slots have distinct memory.
    pub open spec fn slots_distinct(self) -> bool {
        forall|c: int, k: int, d: int, j: int|
            #![trigger self.slot(c, k), self.slot(d, j)]
            0 <= c < 3 && 0 <= k < 4 && 0 <= d < 3 && 0 <= j < 4 && self.slot(c, k).base != 0
                && self.slot(c, k).base == self.slot(d, j).base ==> c == d && k == j
    }

    /// The carved pieces, the blocks, the live allocations and the huge
    /// directory agree.
    #[verifier::opaque]
    pub open spec fn assets_ok(self) -> bool {
        &&& self.units_ok()
        &&& forall|s: u64| #[trigger] self.place().dom().contains(s) ==> self.unit_sound(s)
        &&& forall|p: u64| #[trigger] self.live().dom().contains(p) ==> self.live_entry(p)
        &&& forall|s: u64, b: u64|
            #![trigger self.place().dom().contains(s), self.live().dom().contains(b)]
            #![trigger self.block_ok(s, b)]
            self.place().dom().contains(s) && self.units()[s].kind is Small && is_block(
                s,
                self.header(s).block_size as int,
                b,
            ) ==> self.block_ok(s, b)
        &&& forall|r: u64, p: u64| #[trigger] self.at(r, Place::Live(p)) ==> self.run_live(r, p)
        &&& forall|c: int, k: int|
            0 <= c < 3 && 0 <= k < 4 ==> #[trigger] self.slot_ok(c, k)
        &&& self.slots_distinct()
    }

    /// The state is sound.
    pub open spec fn wf(self) -> bool {
        &&& self.shape()
        &&& self.pool_ok()
        &&& self.order_ok()
        &&& self.assets_ok()
    }

    /// Two states differ in no list, record, place or node.
    pub open spec fn same_order(self, post: Self) -> bool {
        &&& post.n() == self.n()
        &&& self.same_locals(post)
        &&& self.same_publics(post)
        &&& self.same_records(post)
        &&& post.mem@.base == self.mem@.base
        &&& post.mem@.count == self.mem@.count
        &&& post.mem@.nodes == self.mem@.nodes
        &&& post.mem@.headers.dom() == self.mem@.headers.dom()
        &&& post.frontier() >= self.frontier()
        &&& post.homes() == self.homes()
        &&& post.place() == self.place()
        &&& forall|s: u64| #[trigger]
            self.place().dom().contains(s) ==> {
                &&& same_shell(self.header(s), post.header(s))
                &&& self.units()[s].kind is Run ==> self.header(s).state == post.header(s).state
                &&& self.units().dom().contains(s) ==> post.units().dom().contains(s)
                &&& post.units()[s].kind == self.units()[s].kind
            }
    }

    /// Order is kept where nothing of it changes.
    pub proof fn lemma_order_frame(self, post: Self)
        requires
            self.order_ok(),
            self.same_order(post),
        ensures
            post.order_ok(),
    {
        reveal(WfSpanAllocator::order_ok);
        assert forall|k: Key| #[trigger] post.valid(k) implies post.local_ok(k) && post.public_ok(k)
            && post.record_ok(k) by {
            assert(self.valid(k));
            let items = self.local(k).seq();
            assert forall|i: int| 0 <= i < items.len() implies (#[trigger] post.mem@.headers[items[i]]).local.next_local
                == succ(items, i) by {
                assert(self.at(items[i], Place::Local(k)));
                assert(self.mem@.headers[items[i]].local.next_local == succ(items, i));
            }
        }
        assert forall|s: u64| #[trigger] post.place().dom().contains(s) implies post.place_ok(s) by {
            assert(self.place_ok(s));
        }
        assert forall|a: u64|
            post.mem@.is_span(a) && a >= post.frontier() implies !post.homes().dom().contains(
            #[trigger] post.mem@.own_node(a),
        ) by {
            assert(!self.homes().dom().contains(self.mem@.own_node(a)));
        }
    }

    /// Two states differ in no carved piece, block, live allocation or huge
    /// slot.
    pub open spec fn same_assets(self, post: Self) -> bool {
        &&& post.mem@.base == self.mem@.base
        &&& post.mem@.count == self.mem@.count
        &&& post.mem@.links == self.mem@.links
        &&& post.mem@.larges == self.mem@.larges
        &&& post.mem@.headers.dom() == self.mem@.headers.dom()
        &&& post.frontier() == self.frontier()
        &&& post.units() == self.units()
        &&& post.live() == self.live()
        &&& post.huge == self.huge
        &&& post.place().dom() == self.place().dom()
        &&& forall|s: u64| #[trigger]
            self.place().dom().contains(s) ==> {
                &&& same_core(self.header(s), post.header(s))
                &&& self.place()[s] is Live <==> post.place()[s] is Live
                &&& self.place()[s] is Live ==> post.place()[s] == self.place()[s]
                    && post.header(s).state == self.header(s).state
            }
    }

    /// Assets are kept where nothing of them changes.
    pub proof fn lemma_assets_frame(self, post: Self)
        requires
            self.assets_ok(),
            self.same_assets(post),
        ensures
            post.assets_ok(),
    {
        reveal(WfSpanAllocator::assets_ok);
        assert forall|s: u64| #[trigger] post.place().dom().contains(s) implies post.unit_sound(
            s,
        ) by {
            assert(self.unit_sound(s));
        }
        assert forall|p: u64| #[trigger] post.live().dom().contains(p) implies post.live_entry(
            p,
        ) by {
            assert(self.live_entry(p));
            let l = self.live()[p];
            match Self::dispatch(l) {
                Path::Small(c) => {
                    assert(self.place().dom().contains(span_base(p)));
                },
                Path::Large => {},
                Path::Huge => {
                    let (c, k) = choose|c: int, k: int| #[trigger] self.slot_serves(c, k, p);
                    assert(post.slot_serves(c, k, p));
                },
            }
        }
        assert forall|s: u64, b: u64|
            post.place().dom().contains(s) && post.units()[s].kind is Small && is_block(
                s,
                post.header(s).block_size as int,
                b,
            ) implies post.block_ok(s, b) by {
            assert(self.place().dom().contains(s));
            assert(self.block_ok(s, b));
        }
        assert forall|r: u64, p: u64| #[trigger] post.at(r, Place::Live(p)) implies post.run_live(
            r,
            p,
        ) by {
            assert(self.at(r, Place::Live(p)));
            assert(self.run_live(r, p));
        }
        assert forall|c: int, k: int| 0 <= c < 3 && 0 <= k < 4 implies #[trigger] post.slot_ok(
            c,
            k,
        ) by {
            assert(self.slot_ok(c, k));
        }
        assert forall|c: int, k: int, d: int, j: int|
            #![trigger post.slot(c, k), post.slot(d, j)]
            0 <= c < 3 && 0 <= k < 4 && 0 <= d < 3 && 0 <= j < 4 && post.slot(c, k).base != 0
                && post.slot(c, k).base == post.slot(d, j).base implies c == d && k == j by {
            assert(self.slot(c, k) == post.slot(c, k));
            assert(self.slot(d, j) == post.slot(d, j));
        }
    }
}

/// The three allocation paths.
pub ghost enum Path {
    Small(u64),
    Large,
    Huge,
}

} // verus!
