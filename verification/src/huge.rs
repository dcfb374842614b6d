//! Huge path: allocations of at least one huge granule, from a fixed
//! directory of slots.
//!
//! An allocation scans at most all slots of the classes that are large
//! enough, with one claim per slot. Slot memory is carved from the pool when
//! a slot is first used, and a carved slot keeps its memory forever,
//! alternating between free and allocated.
//!
//! All metadata lives in the slot; the payload is the bare run. So requests
//! of exactly 1, 2 or 4 granules occupy runs of exactly that size.

use crate::align::{
    ceil_log2, div_ceil, lemma_ceil_log2, lemma_ceil_log2_monotone, lemma_ceil_log2_unique,
    lemma_is_pow2_bounds, lemma_pow2_bounds, lemma_up, max, next_power_of_two, round_up, up,
};
use crate::atomic_backend::DefaultCas2Backend;
use crate::config::{MAX_HUGE_GRANULES, MAX_HUGE_RUN_CLASSES, SPAN_SIZE};
use crate::layout::Layout;
use crate::pagemap::FixedSpanPool;
use crate::small::op_room;
use crate::span::is_block;
use crate::state::{Kind, Ledger, Path, Place, Unit, WfSpanAllocator};
use crate::stats::{bumped, AllocatorStats, StepCounter};
use crate::stepwise::{AllocStage, PendingAlloc, ACTION_ROOM};
use crate::thread::ThreadToken;
use vstd::arithmetic::power2::{lemma2_to64, lemma_pow2_pos, lemma_pow2_strictly_increases, pow2};
use vstd::bits::lemma_u64_shl_is_mul;
use vstd::prelude::*;

verus! {

/// The slot has no memory yet.
pub const HUGE_SLOT_EMPTY: u64 = 0;

/// The slot owns a carved run that is free.
pub const HUGE_SLOT_FREE: u64 = 1;

/// The slot's run is handed to a live allocation.
pub const HUGE_SLOT_ALLOCATED: u64 = 2;

/// One directory entry. `base` is written when the slot is first claimed and
/// never changes afterwards.
#[derive(Clone, Copy)]
pub struct HugeRunSlot {
    pub state: u64,
    /// Base address of the carved run; 0 while the slot is empty.
    pub base: u64,
    /// Last allocating or freeing thread.
    pub owner: u64,
    /// Layout of the live allocation.
    pub requested_size: u64,
    pub requested_align: u64,
}

impl HugeRunSlot {
    /// A slot that was never used.
    pub open spec fn empty() -> HugeRunSlot {
        HugeRunSlot {
            state: HUGE_SLOT_EMPTY,
            base: 0,
            owner: u64::MAX,
            requested_size: 0,
            requested_align: 0,
        }
    }

    pub fn new() -> (r: Self)
        ensures
            r == Self::empty(),
    {
        HugeRunSlot {
            state: HUGE_SLOT_EMPTY,
            base: 0,
            owner: u64::MAX,
            requested_size: 0,
            requested_align: 0,
        }
    }
}

impl Default for HugeRunSlot {
    fn default() -> (r: Self)
        ensures
            r == HugeRunSlot::empty(),
    {
        HugeRunSlot::new()
    }
}

/// Fixed directory: one row of slots per huge class. Slots of class `r` hold
/// runs of `2^r` granules.
pub struct HugeArena {
    pub slots: [[HugeRunSlot; 4]; 3],
}

impl HugeArena {
    pub fn new() -> (r: Self)
        ensures
            forall|c: int, k: int|
                0 <= c < 3 && 0 <= k < 4 ==> #[trigger] r.slots@[c]@[k] == HugeRunSlot::empty(),
    {
        let e = HugeRunSlot::new();
        HugeArena { slots: [[e, e, e, e], [e, e, e, e], [e, e, e, e]] }
    }
}

impl Default for HugeArena {
    fn default() -> (r: Self)
        ensures
            forall|c: int, k: int|
                0 <= c < 3 && 0 <= k < 4 ==> #[trigger] r.slots@[c]@[k] == HugeRunSlot::empty(),
    {
        HugeArena::new()
    }
}

/// Room needed in front of a payload in a run whose base is only aligned to
/// the span size.
pub open spec fn huge_slack(layout: Layout) -> int {
    if layout.align > SPAN_SIZE {
        layout.align - SPAN_SIZE
    } else {
        0
    }
}

/// Granules of `granule` bytes that a request takes.
pub open spec fn huge_granules_needed(layout: Layout, granule: int) -> int {
    let g = (layout.size + huge_slack(layout) + granule - 1) / granule;
    if g >= 1 { g } else { 1 }
}

/// The least huge class whose runs hold a request, if there is one.
pub open spec fn huge_class_of(layout: Layout, granule: int) -> Option<u64> {
    let class = ceil_log2(huge_granules_needed(layout, granule));
    if class < MAX_HUGE_RUN_CLASSES {
        Some(class as u64)
    } else {
        None
    }
}

/// Payload address of a request in the run at `base`.
pub open spec fn huge_payload(base: u64, align: u64) -> int {
    up(base as int, align as int)
}

/// `huge_class_of` picks the least class whose runs are large enough.
pub proof fn lemma_huge_class(layout: Layout, granule: int)
    requires
        layout.valid(),
        granule >= 1,
    ensures
        huge_class_of(layout, granule) is Some <==> layout.size + huge_slack(layout)
            <= MAX_HUGE_GRANULES * granule,
        huge_class_of(layout, granule) matches Some(c) ==> {
            &&& c < MAX_HUGE_RUN_CLASSES
            &&& layout.size + huge_slack(layout) <= pow2(c as nat) * granule
            &&& forall|d: nat|
                d < c ==> #[trigger] pow2(d) * granule < layout.size + huge_slack(layout)
        },
{
    let need = layout.size + huge_slack(layout);
    let g = (need + granule - 1) / granule;
    let m = huge_granules_needed(layout, granule);
    lemma_is_pow2_bounds(layout.align);
    lemma2_to64();
    lemma_ceil_log2(m);
    lemma_ceil_log2_unique(4, 2);
    let r = (need + granule - 1) % granule;
    vstd::arithmetic::div_mod::lemma_fundamental_div_mod(need + granule - 1, granule);
    assert(need <= g * granule && g * granule < need + granule) by (nonlinear_arith)
        requires
            need + granule - 1 == granule * g + r,
            0 <= r < granule,
    ;
    assert forall|x: int| x >= 0 implies (m <= x <==> (need <= #[trigger] (x * granule) && x >= 1)) by {
        if g <= x {
            assert(g * granule <= x * granule) by (nonlinear_arith)
                requires
                    g <= x,
                    granule >= 1,
            ;
        } else {
            assert(x * granule + granule <= g * granule) by (nonlinear_arith)
                requires
                    x + 1 <= g,
                    granule >= 1,
            ;
        }
    }
    if m <= 4 {
        lemma_ceil_log2_monotone(m, 4);
    } else if ceil_log2(m) <= 2 {
        if ceil_log2(m) < 2 {
            lemma_pow2_strictly_increases(ceil_log2(m), 2);
        }
    }
    assert(m <= 4 <==> need <= 4 * granule);
    let c = ceil_log2(m);
    lemma_pow2_pos(c);
    assert(need <= pow2(c) as int * granule);
    assert forall|d: nat| d < c implies #[trigger] pow2(d) * granule < need by {
        lemma_pow2_pos(d);
        assert(pow2(d) < m);
        assert(!(m <= pow2(d) as int));
        assert(!(need <= pow2(d) as int * granule));
    }
}

/// A huge payload is aligned and lies at most the slack behind the base.
pub proof fn lemma_huge_payload(base: u64, layout: Layout)
    requires
        layout.valid(),
        base % SPAN_SIZE == 0,
    ensures
        huge_payload(base, layout.align) % (layout.align as int) == 0,
        base <= huge_payload(base, layout.align) <= base + huge_slack(layout),
{
    lemma_is_pow2_bounds(layout.align);
    lemma2_to64();
    assert(SPAN_SIZE == pow2(16));
    let a = layout.align as int;
    let p = huge_payload(base, layout.align);
    lemma_up(base as int, a);
    if layout.align <= SPAN_SIZE {
        crate::align::lemma_is_pow2_divides(layout.align, SPAN_SIZE, base as int);
    } else {
        crate::align::lemma_is_pow2_divides(SPAN_SIZE, layout.align, p);
        crate::align::lemma_is_pow2_divides(SPAN_SIZE, layout.align, a);
    }
}

/// Granules in a huge run of `class`.
pub fn huge_class_granules(class: u64) -> (r: u64)
    requires
        class < 64,
    ensures
        r == pow2(class as nat),
{
    proof {
        lemma_pow2_bounds(class as nat);
        lemma_u64_shl_is_mul(1, class);
    }
    1 << class
}

impl<const C: u64, const HG: u64> WfSpanAllocator<C, HG> {
    /// Bytes in one huge granule, which is the huge dispatch threshold.
    pub open spec fn granule_bytes() -> int {
        HG * SPAN_SIZE
    }

    /// Bytes in one huge granule.
    pub fn huge_granule_bytes() -> (r: u64)
        requires
            HG * SPAN_SIZE <= u64::MAX,
        ensures
            r == Self::granule_bytes(),
    {
        HG * SPAN_SIZE
    }

    /// Bytes in a huge run of `class`.
    pub fn huge_class_bytes(class: u64) -> (r: u64)
        requires
            class < 64,
            HG * SPAN_SIZE * pow2(class as nat) <= u64::MAX,
        ensures
            r == Self::granule_bytes() * pow2(class as nat),
    {
        proof {
            lemma_pow2_pos(class as nat);
            assert(HG * SPAN_SIZE <= HG * SPAN_SIZE * pow2(class as nat)) by (nonlinear_arith)
                requires
                    pow2(class as nat) >= 1,
                    HG * SPAN_SIZE >= 0,
            ;
            lemma_u64_shl_is_mul((HG * SPAN_SIZE) as u64, class);
        }
        (HG * SPAN_SIZE) << class
    }

    /// Smallest huge class whose run holds an aligned payload. A request of
    /// exactly `2^r` granules fits class `r`. `None` if more than
    /// `MAX_HUGE_GRANULES` granules are needed. Alignments above `SPAN_SIZE`
    /// are honored by slack.
    pub fn huge_class_for_layout(layout: Layout) -> (r: Option<u64>)
        requires
            layout.valid(),
            HG >= 1,
            HG * SPAN_SIZE <= u64::MAX,
        ensures
            r == huge_class_of(layout, Self::granule_bytes()),
    {
        proof {
            lemma_is_pow2_bounds(layout.align);
            lemma2_to64();
        }
        let slack: u64 = layout.align().saturating_sub(SPAN_SIZE);
        let needed: u64 = layout.size() + slack;
        let granules: u64 = div_ceil(needed, Self::huge_granule_bytes());
        let m: u64 = max(granules, 1);
        proof {
            assert(m == huge_granules_needed(layout, Self::granule_bytes()));
        }
        match next_power_of_two(m) {
            None => None,
            Some((k, g)) => {
                proof {
                    if k > 2 {
                        lemma_pow2_strictly_increases(2, k as nat);
                    } else if k < 2 {
                        lemma_pow2_strictly_increases(k as nat, 2);
                    }
                }
                if g > MAX_HUGE_GRANULES {
                    None
                } else {
                    Some(k)
                }
            },
        }
    }

    /// Only the huge slot `(c, k)` and the live allocation in its run changed.
    pub open spec fn only_slot(self, post: Self, c: int, k: int) -> bool {
        let u = post.slot(c, k).base;
        &&& post.heaps == self.heaps
        &&& post.help == self.help
        &&& post.pool == self.pool
        &&& post.registry == self.registry
        &&& post.stats == self.stats
        &&& post.mem == self.mem
        &&& post.homes() == self.homes()
        &&& post.units() == self.units()
        &&& post.place() == self.place()
        &&& forall|d: int, j: int|
            0 <= d < 3 && 0 <= j < 4 && !(d == c && j == k) ==> #[trigger] post.slot(d, j)
                == self.slot(d, j)
        &&& forall|p: u64|
            !self.inside(u, p as int) ==> (#[trigger] post.live().dom().contains(p)
                <==> self.live().dom().contains(p)) && (self.live().dom().contains(p)
                ==> post.live()[p] == self.live()[p])
    }

    /// The huge slot whose run holds a live huge allocation.
    pub(crate) proof fn lemma_slot_of(self, p: u64) -> (r: (int, int))
        requires
            self.wf(),
            self.live().dom().contains(p),
            Self::dispatch(self.live()[p]) is Huge,
        ensures
            self.slot_serves(r.0, r.1, p),
            self.slot_ok(r.0, r.1),
            self.slot(r.0, r.1).base == self.unit_of(p),
            self.inside(self.slot(r.0, r.1).base, p as int),
            self.units().dom().contains(self.slot(r.0, r.1).base),
    {
        reveal(WfSpanAllocator::assets_ok);
        assert(self.live_entry(p));
        self.lemma_live_in_unit(p);
        let (c, k) = choose|c: int, k: int| #[trigger] self.slot_serves(c, k, p);
        assert(self.slot_serves(c, k, p));
        assert(self.slot_ok(c, k));
        (c, k)
    }

    /// A carved huge run whose slot is not allocated has nothing live in it,
    /// and neither has a run that no slot has.
    pub(crate) proof fn lemma_huge_run_empty(self, c: int, k: int, u: u64, q: u64)
        requires
            self.wf(),
            0 <= c < 3,
            0 <= k < 4,
            self.units().dom().contains(u),
            self.units()[u].kind is Huge,
            self.slot(c, k).state != HUGE_SLOT_ALLOCATED,
            self.slot(c, k).base == u || (forall|d: int, j: int|
                0 <= d < 3 && 0 <= j < 4 ==> (#[trigger] self.slot(d, j)).base != u),
            self.live().dom().contains(q),
        ensures
            !self.inside(u, q as int),
    {
        self.lemma_live_in_unit(q);
        if self.inside(u, q as int) {
            self.lemma_unit_unique(u, self.unit_of(q), q as int);
            let (d, j) = self.lemma_slot_of(q);
            reveal(WfSpanAllocator::assets_ok);
            assert(self.slot(d, j).base == u);
            assert(self.slot_ok(c, k));
            assert(u != 0) by {
                assert(self.slot_ok(d, j));
            }
            if self.slot(c, k).base == u {
                assert(self.slots_distinct());
                assert(c == d && k == j);
            }
        }
    }

    /// The state stays sound when only one huge slot changed, and that one is
    /// sound.
    pub(crate) proof fn lemma_slot_step(self, post: Self, c: int, k: int)
        requires
            self.wf(),
            0 <= c < 3,
            0 <= k < 4,
            self.only_slot(post, c, k),
            post.slot_ok(c, k),
            post.slot(c, k).state != HUGE_SLOT_EMPTY,
            self.slot(c, k).base == 0 || self.slot(c, k).base == post.slot(c, k).base,
            forall|d: int, j: int|
                0 <= d < 3 && 0 <= j < 4 && !(d == c && j == k) ==> (#[trigger] self.slot(
                    d,
                    j,
                )).base != post.slot(c, k).base,
            forall|q: u64| #[trigger]
                post.live().dom().contains(q) && self.inside(post.slot(c, k).base, q as int) ==> {
                    &&& post.slot(c, k).state == HUGE_SLOT_ALLOCATED
                    &&& q == huge_payload(
                        post.slot(c, k).base,
                        post.slot(c, k).requested_align,
                    )
                    &&& q != 0
                    &&& post.live()[q].valid()
                },
        ensures
            post.wf(),
    {
        let u = post.slot(c, k).base;
        assert(post.shape());
        self.lemma_order_frame(post);
        assert forall|p: u64|
            self.live().dom().contains(p) && self.unit_of(p) != u implies !self.inside(
            u,
            p as int,
        ) by {
            self.lemma_live_in_unit(p);
            if self.inside(u, p as int) {
                self.lemma_unit_unique(u, self.unit_of(p), p as int);
            }
        }
        assert(post.assets_ok()) by {
            reveal(WfSpanAllocator::assets_ok);
            assert forall|x: u64| #[trigger] post.place().dom().contains(x) implies post.unit_sound(
                x,
            ) by {
                assert(self.unit_sound(x));
            }
            assert forall|p: u64| #[trigger] post.live().dom().contains(p) implies post.live_entry(
                p,
            ) by {
                if self.inside(u, p as int) {
                    assert(post.slot_serves(c, k, p));
                } else {
                    assert(self.live_entry(p));
                    match Self::dispatch(self.live()[p]) {
                        Path::Huge => {
                            let (d, j) = self.lemma_slot_of(p);
                            assert(!(d == c && j == k)) by {
                                if d == c && j == k {
                                    assert(self.slot_ok(c, k));
                                    self.lemma_slot_keeps_base(post, c, k, p);
                                }
                            }
                            assert(post.slot_serves(d, j, p));
                        },
                        _ => {},
                    }
                }
            }
            assert forall|x: u64, b: u64|
                post.place().dom().contains(x) && post.units()[x].kind is Small && is_block(
                    x,
                    post.header(x).block_size as int,
                    b,
                ) implies post.block_ok(x, b) by {
                assert(self.place().dom().contains(x));
                assert(self.block_ok(x, b));
                self.lemma_free_room(x);
                crate::span::lemma_block(&self.mem, x, self.header(x).block_size, b);
                if self.inside(u, b as int) {
                    self.lemma_unit_unique(u, x, b as int);
                }
            }
            assert forall|r: u64, p: u64| #[trigger] post.at(
                r,
                Place::Live(p),
            ) implies post.run_live(r, p) by {
                assert(self.at(r, Place::Live(p)));
                self.lemma_run_inside(r, p);
                if self.inside(u, p as int) {
                    self.lemma_unit_unique(u, r, p as int);
                }
                assert(post.live().dom().contains(p));
            }
            assert forall|d: int, j: int| 0 <= d < 3 && 0 <= j < 4 implies #[trigger] post.slot_ok(
                d,
                j,
            ) by {
                if !(d == c && j == k) {
                    assert(self.slot_ok(d, j));
                    let x = self.slot(d, j);
                    assert(post.slot(d, j) == x);
                    let p = huge_payload(x.base, x.requested_align) as u64;
                    if x.state == HUGE_SLOT_ALLOCATED {
                        assert(self.slot_serves(d, j, p)) by {
                            self.lemma_allocated_payload(d, j);
                        }
                        let (d2, j2) = self.lemma_slot_of(p);
                        self.lemma_allocated_payload(d, j);
                        self.lemma_live_in_unit(p);
                        if self.inside(u, p as int) {
                            self.lemma_unit_unique(u, x.base, p as int);
                        }
                        assert(post.live().dom().contains(p));
                    }
                }
            }
            assert forall|c1: int, k1: int, d: int, j: int|
                #![trigger post.slot(c1, k1), post.slot(d, j)]
                0 <= c1 < 3 && 0 <= k1 < 4 && 0 <= d < 3 && 0 <= j < 4 && post.slot(c1, k1).base
                    != 0 && post.slot(c1, k1).base == post.slot(d, j).base implies c1 == d && k1
                == j by {
                if !(c1 == c && k1 == k) {
                    assert(self.slot(c1, k1) == post.slot(c1, k1));
                }
                if !(d == c && j == k) {
                    assert(self.slot(d, j) == post.slot(d, j));
                }
            }
        }
    }

    /// The payload of an allocated slot lies in its run.
    pub(crate) proof fn lemma_allocated_payload(self, c: int, k: int)
        requires
            self.wf(),
            0 <= c < 3,
            0 <= k < 4,
            self.slot(c, k).state == HUGE_SLOT_ALLOCATED,
        ensures
            ({
                let x = self.slot(c, k);
                let p = huge_payload(x.base, x.requested_align);
                &&& 0 < p <= u64::MAX
                &&& self.inside(x.base, p)
                &&& self.slot_serves(c, k, p as u64)
                &&& self.live().dom().contains(p as u64)
                &&& self.units().dom().contains(x.base)
                &&& p + x.requested_size <= x.base + self.units()[x.base].spans * SPAN_SIZE
            }),
    {
        reveal(WfSpanAllocator::assets_ok);
        assert(self.slot_ok(c, k));
        let x = self.slot(c, k);
        let l = Layout { size: x.requested_size, align: x.requested_align };
        let p = huge_payload(x.base, x.requested_align);
        self.mem.lemma_view();
        assert(self.mem@.is_span(x.base));
        let q = p as u64;
        assert(self.live_entry(q));
        assert(l.valid());
        lemma_huge_payload(x.base, l);
        self.lemma_huge_unit(c, x.base);
        assert(l.size >= HG * SPAN_SIZE);
        assert(HG * SPAN_SIZE >= 1) by (nonlinear_arith)
            requires
                HG >= 1,
        ;
    }

    /// The bytes of a carved huge run of a class, which lies in the region.
    pub(crate) proof fn lemma_huge_unit(self, c: int, u: u64)
        requires
            self.wf(),
            self.units().dom().contains(u),
            self.units()[u].spans == pow2(c as nat) * HG,
        ensures
            self.units()[u].spans * SPAN_SIZE == pow2(c as nat) * Self::granule_bytes(),
            u + self.units()[u].spans * SPAN_SIZE <= self.mem@.end(),
            self.mem@.end() <= u64::MAX,
            self.mem@.is_span(u),
            u % SPAN_SIZE == 0,
            u > 0,
    {
        reveal(WfSpanAllocator::assets_ok);
        let g = pow2(c as nat);
        assert(self.units()[u].spans * SPAN_SIZE == g * (HG * SPAN_SIZE)) by (nonlinear_arith)
            requires
                self.units()[u].spans == g * HG,
        ;
        assert(self.pool.used() * SPAN_SIZE <= self.pool.count * SPAN_SIZE) by (nonlinear_arith)
            requires
                self.pool.used() <= self.pool.count,
        ;
        self.mem.lemma_view();
    }

    /// A slot that serves an allocation outside the run it has now had
    /// another run before.
    proof fn lemma_slot_keeps_base(self, post: Self, c: int, k: int, p: u64)
        requires
            self.wf(),
            self.slot_serves(c, k, p),
            self.inside(self.slot(c, k).base, p as int),
            !self.inside(post.slot(c, k).base, p as int),
        ensures
            self.slot(c, k).base != post.slot(c, k).base,
    {
    }

    /// The slot at flat index `i` of the directory can be claimed: its run is
    /// free, or it has none yet and the pool has room for one.
    pub open spec fn claimable(self, i: int) -> bool {
        let x = self.slot(i / 4, i % 4);
        x.state == HUGE_SLOT_FREE || (x.state == HUGE_SLOT_EMPTY && self.pool.next + pow2(
            (i / 4) as nat,
        ) * HG <= self.pool.count)
    }

    /// Flat index of the first slot that can be claimed, from `i` on; 12 if
    /// there is none.
    pub open spec fn huge_pick(self, i: int) -> int
        decreases 12 - i,
    {
        if i >= 12 {
            12
        } else if self.claimable(i) {
            i
        } else {
            self.huge_pick(i + 1)
        }
    }

    /// The run that a claim of the slot at flat index `i` uses.
    pub open spec fn huge_base(self, i: int) -> u64 {
        if self.slot(i / 4, i % 4).state == HUGE_SLOT_FREE {
            self.slot(i / 4, i % 4).base
        } else {
            self.frontier() as u64
        }
    }

    /// What the huge path returns for a request.
    pub open spec fn huge_result(self, layout: Layout) -> u64 {
        match huge_class_of(layout, Self::granule_bytes()) {
            Some(min) => {
                let i = self.huge_pick(4 * min);
                if i < 12 {
                    huge_payload(self.huge_base(i), layout.align) as u64
                } else {
                    0
                }
            },
            None => 0,
        }
    }

    /// The step counts after the slots from flat index `i` on were tried: one
    /// look at each up to the one that is claimed, one claim of each that is
    /// not allocated, and one request to the pool for each without a run.
    pub open spec fn huge_count(self, i: int, step: StepCounter) -> StepCounter
        decreases 12 - i,
    {
        let x = self.slot(i / 4, i % 4);
        let looked = StepCounter { huge_slot_scans: (step.huge_slot_scans + 1) as u64, ..step };
        let claimed = StepCounter {
            cas_attempts: (looked.cas_attempts + 1) as u64,
            ..looked
        };
        let asked = self.pool.run_count(pow2((i / 4) as nat) * HG, claimed);
        if i >= 12 {
            step
        } else if x.state == HUGE_SLOT_FREE {
            claimed
        } else if x.state != HUGE_SLOT_EMPTY {
            self.huge_count(i + 1, looked)
        } else if self.claimable(i) {
            asked
        } else {
            self.huge_count(i + 1, asked)
        }
    }

    /// The step counts after a huge allocation.
    pub open spec fn huge_steps(self, layout: Layout, step: StepCounter) -> StepCounter {
        match huge_class_of(layout, Self::granule_bytes()) {
            Some(min) => self.huge_count(4 * min, step),
            None => step,
        }
    }

    /// What a huge allocation of thread `tid` changes: the slot it claims,
    /// and, where the slot had no run yet, the pool that its run is carved
    /// from. Nothing where no slot can be claimed.
    pub open spec fn huge_effects(self, post: Self, layout: Layout, tid: u64) -> bool {
        let i = match huge_class_of(layout, Self::granule_bytes()) {
            Some(min) => self.huge_pick(4 * min),
            None => 12,
        };
        if i >= 12 {
            post == self
        } else {
            self.slot_taken(post, i, layout, tid)
        }
    }

    /// The huge slot at flat index `i` was claimed for a request of thread
    /// `tid`; where it had no run yet, its run was carved from the pool.
    pub open spec fn slot_taken(self, post: Self, i: int, layout: Layout, tid: u64) -> bool {
        let c = i / 4;
        let k = i % 4;
        let base = self.huge_base(i);
        let spans = pow2(c as nat) * HG;
        &&& post.heaps == self.heaps
        &&& post.help == self.help
        &&& post.registry == self.registry
        &&& post.mem == self.mem
        &&& post.place() == self.place()
        &&& post.slot(c, k) == (HugeRunSlot {
            state: HUGE_SLOT_ALLOCATED,
            base,
            owner: tid,
            requested_size: layout.size,
            requested_align: layout.align,
        })
        &&& forall|d: int, j: int|
            0 <= d < 3 && 0 <= j < 4 && !(d == c && j == k) ==> #[trigger] post.slot(d, j)
                == self.slot(d, j)
        &&& if self.slot(c, k).state == HUGE_SLOT_FREE {
            &&& post.pool == self.pool
            &&& post.units() == self.units()
            &&& post.stats == self.stats
        } else {
            &&& post.pool == (FixedSpanPool {
                next: (self.pool.next + spans) as u64,
                ..self.pool
            })
            &&& post.units() == self.units().insert(
                base,
                Unit { kind: Kind::Huge, spans: spans as nat },
            )
            &&& post.stats == (AllocatorStats {
                allocated_huge_runs: bumped(self.stats.allocated_huge_runs),
                ..self.stats
            })
        }
    }

    /// One attempt to claim the huge slot at flat index `i`, seen in the state
    /// `seen`: it fails where the slot is in another state now, or where it
    /// has no run yet and the pool has no room for one.
    pub open spec fn claim_ended(
        self,
        post: Self,
        i: int,
        seen: u64,
        layout: Layout,
        tid: u64,
        p: u64,
    ) -> bool {
        if self.slot(i / 4, i % 4).state == seen && self.claimable(i) {
            &&& p == huge_payload(self.huge_base(i), layout.align)
            &&& p != 0
            &&& !self.live().dom().contains(p)
            &&& post.live() == self.live().insert(p, layout)
            &&& self.slot_taken(post, i, layout, tid)
        } else {
            p == 0 && post == self
        }
    }

    /// The step counts after one attempt to claim a huge slot.
    pub open spec fn claim_count(self, i: int, seen: u64, step: StepCounter) -> StepCounter {
        let claimed = StepCounter { cas_attempts: (step.cas_attempts + 1) as u64, ..step };
        if self.slot(i / 4, i % 4).state == seen && seen == HUGE_SLOT_EMPTY {
            self.pool.run_count(pow2((i / 4) as nat) * HG, claimed)
        } else {
            claimed
        }
    }

    /// Claim a huge slot that was seen in the state `seen`. Returns 0 where
    /// that fails.
    pub(crate) fn act_claim(
        &mut self,
        i: u64,
        seen: u64,
        layout: Layout,
        tid: u64,
        step: &mut StepCounter,
    ) -> (p: u64)
        requires
            old(self).wf(),
            i < 12,
            seen == HUGE_SLOT_FREE || seen == HUGE_SLOT_EMPTY,
            layout.valid(),
            Self::dispatch(layout) is Huge,
            layout.size + huge_slack(layout) <= pow2((i / 4) as nat) * Self::granule_bytes(),
            old(step).room(2),
        ensures
            final(self).wf(),
            old(self).claim_ended(*final(self), i as int, seen, layout, tid, p),
            *final(step) == old(self).claim_count(i as int, seen, *old(step)),
            old(self).keeps(*final(self)),
            old(self).undisturbed(*final(self), tid),
    {
        let ghost pre = *self;
        let ghost c = i as int / 4;
        let ghost k = i as int % 4;
        let token = ThreadToken { id: tid };
        proof {
            pre.lemma_same_effects(pre, tid);
            assert(pre.slot_ok(c, k)) by {
                reveal(WfSpanAllocator::assets_ok);
            }
        }
        let class: usize = (i / 4) as usize;
        let index: usize = (i % 4) as usize;
        let slot = self.huge.slots[class][index];
        assert(slot == pre.slot(c, k));
        step.cas_attempts = step.cas_attempts + 1;
        if slot.state != seen {
            return 0;
        }
        if seen == HUGE_SLOT_FREE {
            let p: u64 = self.finish_huge(i, slot.base, layout, token);
            proof {
                pre.lemma_only_slot_effects(*self, c, k, tid);
            }
            return p;
        }
        proof {
            vstd::arithmetic::power2::lemma_pow2_pos((i / 4) as nat);
            lemma2_to64();
            assert(pow2((i / 4) as nat) <= 4) by {
                if i / 4 < 2 {
                    lemma_pow2_strictly_increases((i / 4) as nat, 2);
                }
            }
            assert(1 <= pow2((i / 4) as nat) * HG && pow2((i / 4) as nat) * HG <= 4 * HG)
                by (nonlinear_arith)
                requires
                    1 <= pow2((i / 4) as nat) <= 4,
                    HG >= 1,
            ;
        }
        let spans: u64 = huge_class_granules(i / 4) * HG;
        let base: u64 = self.carve_huge(spans, step);
        let ghost carved = *self;
        if base == 0 {
            return 0;
        }
        let mut stats = self.stats;
        AllocatorStats::bump(&mut stats.allocated_huge_runs);
        self.set_stats(stats);
        let ghost counted = *self;
        proof {
            assert forall|d: int, j: int| 0 <= d < 3 && 0 <= j < 4 implies (#[trigger] counted.slot(
                d,
                j,
            )).base != base by {
                assert(pre.slot(d, j).base != base);
            }
            assert(counted.slot(c, k) == pre.slot(c, k));
        }
        let p: u64 = self.finish_huge(i, base, layout, token);
        proof {
            pre.lemma_huge_carved_effects(carved, base, spans as nat, tid);
            carved.lemma_stats_effects(counted, tid);
            counted.lemma_only_slot_effects(*self, c, k, tid);
            pre.lemma_undisturbed_twice(carved, counted, tid);
            pre.lemma_undisturbed_twice(counted, *self, tid);
            pre.lemma_keeps_twice(carved, counted);
            pre.lemma_keeps_twice(counted, *self);
        }
        p
    }

    /// Carve the memory of a huge slot from the pool, or return 0 where it
    /// does not fit.
    pub(crate) fn carve_huge(&mut self, spans: u64, step: &mut StepCounter) -> (s: u64)
        requires
            old(self).wf(),
            spans >= 1,
            old(step).room(1),
        ensures
            final(self).wf(),
            s == 0 <==> old(self).pool.next + spans > old(self).pool.count,
            s == 0 ==> *final(self) == *old(self),
            s != 0 ==> {
                &&& old(self).carved(*final(self), s, Unit { kind: Kind::Huge, spans: spans as nat })
                &&& !old(self).units().dom().contains(s)
                &&& final(self).place() == old(self).place()
                &&& final(self).mem == old(self).mem
                &&& final(self).stats == old(self).stats
                &&& final(self).pool == (FixedSpanPool {
                    next: (old(self).pool.next + spans) as u64,
                    ..old(self).pool
                })
                &&& forall|d: int, j: int|
                    0 <= d < 3 && 0 <= j < 4 ==> (#[trigger] old(self).slot(d, j)).base != s
            },
            *final(step) == old(self).pool.run_count(spans as int, *old(step)),
    {
        let ghost pre = *self;
        proof {
            if pre.pool.next + spans <= pre.pool.count {
                pre.lemma_frontier(spans as int);
            }
        }
        let s: u64 = self.pool.acquire_raw_run(spans, step);
        if s == 0 {
            assert(self.pool == pre.pool);
            assert(*self == pre);
            return 0;
        }
        let ghost unit = Unit { kind: Kind::Huge, spans: spans as nat };
        self.ledger = Ghost(
            Ledger { units: self.ledger@.units.insert(s, unit), ..self.ledger@ },
        );
        proof {
            assert((pre.pool.next + spans) * SPAN_SIZE == pre.pool.next * SPAN_SIZE + spans
                * SPAN_SIZE) by (nonlinear_arith);
            assert(spans * SPAN_SIZE >= 0) by (nonlinear_arith)
                requires
                    spans >= 1,
            ;
            assert(pre.carved(*self, s, unit));
            assert(self.shape());
            assert(pre.same_order(*self)) by {
                reveal(WfSpanAllocator::assets_ok);
            }
            pre.lemma_order_frame(*self);
            pre.lemma_carved_assets(*self, s, unit);
            assert forall|d: int, j: int| 0 <= d < 3 && 0 <= j < 4 implies (#[trigger] pre.slot(
                d,
                j,
            )).base != s by {
                reveal(WfSpanAllocator::assets_ok);
                assert(pre.slot_ok(d, j));
            }
        }
        s
    }

    /// Record the claimed allocation in the slot and return the aligned
    /// payload.
    pub(crate) fn finish_huge(&mut self, i: u64, base: u64, layout: Layout, token: ThreadToken) -> (p: u64)
        requires
            old(self).wf(),
            i < 12,
            layout.valid(),
            Self::dispatch(layout) is Huge,
            layout.size + huge_slack(layout) <= pow2((i / 4) as nat) * Self::granule_bytes(),
            old(self).slot(i as int / 4, i as int % 4).state != HUGE_SLOT_ALLOCATED,
            old(self).units().dom().contains(base),
            old(self).units()[base].kind is Huge,
            old(self).units()[base].spans == pow2((i / 4) as nat) * HG,
            (old(self).slot(i as int / 4, i as int % 4).state == HUGE_SLOT_FREE && old(self).slot(
                i as int / 4,
                i as int % 4,
            ).base == base) || (old(self).slot(i as int / 4, i as int % 4).state == HUGE_SLOT_EMPTY
                && forall|d: int, j: int|
                0 <= d < 3 && 0 <= j < 4 ==> (#[trigger] old(self).slot(d, j)).base != base),
        ensures
            final(self).wf(),
            p == huge_payload(base, layout.align),
            p != 0,
            !old(self).live().dom().contains(p),
            final(self).live() == old(self).live().insert(p, layout),
            old(self).only_slot(*final(self), i as int / 4, i as int % 4),
            final(self).slot(i as int / 4, i as int % 4) == (HugeRunSlot {
                state: HUGE_SLOT_ALLOCATED,
                base,
                owner: token.id,
                requested_size: layout.size,
                requested_align: layout.align,
            }),
    {
        let ghost pre = *self;
        let ghost c = i as int / 4;
        let ghost k = i as int % 4;
        proof {
            pre.lemma_huge_unit(c, base);
            lemma_huge_payload(base, layout);
            lemma_is_pow2_bounds(layout.align);
            assert(HG * SPAN_SIZE >= SPAN_SIZE) by (nonlinear_arith)
                requires
                    HG >= 1,
            ;
            assert(pre.slot(c, k).state == pre.slot(c, k).state);
        }
        let class: usize = (i / 4) as usize;
        let index: usize = (i % 4) as usize;
        self.huge.slots[class][index] = HugeRunSlot {
            state: HUGE_SLOT_ALLOCATED,
            base,
            owner: token.id,
            requested_size: layout.size(),
            requested_align: layout.align(),
        };
        let p: u64 = round_up(base, layout.align());
        self.ledger = Ghost(Ledger { live: self.ledger@.live.insert(p, layout), ..self.ledger@ });
        proof {
            if pre.live().dom().contains(p) {
                pre.lemma_huge_run_empty(c, k, base, p);
            }
            assert(pre.slot_ok(c, k)) by {
                reveal(WfSpanAllocator::assets_ok);
            }
            assert forall|d: int, j: int|
                0 <= d < 3 && 0 <= j < 4 && !(d == c && j == k) implies (#[trigger] pre.slot(
                d,
                j,
            )).base != base by {
                if pre.slot(c, k).base == base {
                    reveal(WfSpanAllocator::assets_ok);
                    assert(pre.slots_distinct());
                    assert(pre.slot(c, k).base != 0);
                }
            }
            assert forall|d: int, j: int|
                0 <= d < 3 && 0 <= j < 4 && !(d == c && j == k) implies #[trigger] self.slot(d, j)
                == pre.slot(d, j) by {
            }
            assert(pre.only_slot(*self, c, k));
            assert forall|q: u64| #[trigger]
                self.live().dom().contains(q) && pre.inside(base, q as int) implies q == p by {
                if q != p {
                    pre.lemma_huge_run_empty(c, k, base, q);
                }
            }
            pre.lemma_slot_step(*self, c, k);
        }
        p
    }

    /// What a huge allocation that has ended with `r` returned, changed and
    /// counted.
    pub open spec fn huge_done(
        self,
        post: Self,
        tid: u64,
        layout: Layout,
        r: u64,
        base: StepCounter,
        step: StepCounter,
    ) -> bool {
        &&& r == self.huge_result(layout)
        &&& r != 0 ==> !self.live().dom().contains(r) && post.live() == self.live().insert(
            r,
            layout,
        )
        &&& r == 0 ==> post.live() == self.live()
        &&& self.keeps(post)
        &&& self.undisturbed(post, tid)
        &&& self.huge_effects(post, layout, tid)
        &&& huge_cost(base, step)
        &&& step == self.huge_steps(layout, base)
    }

    /// What holds of a huge allocation that began in this state with the
    /// counts `base`, while no other thread acts.
    pub closed spec fn huge_since(
        self,
        here: Self,
        a: PendingAlloc,
        base: StepCounter,
        step: StepCounter,
    ) -> bool {
        let i = a.at as int;
        let first = 4 * a.min;
        &&& self.wf()
        &&& a.tid < self.n()
        &&& a.min < 3
        &&& huge_class_of(a.layout, Self::granule_bytes()) == Some(a.min)
        &&& here.wf()
        &&& here.n() == self.n()
        &&& here.alloc_ready(a)
        &&& base.room(op_room(self.n()))
        &&& match a.stage {
            AllocStage::Slot => {
                &&& here == self
                &&& self.huge_pick(first) == self.huge_pick(i)
                &&& self.huge_count(first, base) == self.huge_count(i, step)
                &&& step.huge_slot_scans == base.huge_slot_scans + i - first
                &&& huge_cost(base, step)
            },
            AllocStage::Claim(seen) => {
                &&& here == self
                &&& seen == self.slot(i / 4, i % 4).state
                &&& exists|now: StepCounter|
                    {
                        &&& self.huge_pick(first) == self.huge_pick(i)
                        &&& self.huge_count(first, base) == #[trigger] self.huge_count(i, now)
                        &&& now.huge_slot_scans == base.huge_slot_scans + i - first
                        &&& huge_cost(base, now)
                        &&& step == (StepCounter {
                            huge_slot_scans: (now.huge_slot_scans + 1) as u64,
                            ..now
                        })
                    }
            },
            AllocStage::Done(r) => self.huge_done(here, a.tid, a.layout, r, base, step),
            _ => false,
        }
    }

    /// A huge allocation begins.
    pub(crate) proof fn lemma_huge_begins(self, a: PendingAlloc, base: StepCounter)
        requires
            self.wf(),
            self.alloc_ready(a),
            a.stage is Slot,
            a.at == 4 * a.min,
            base.room(op_room(self.n())),
        ensures
            self.huge_since(self, a, base, base),
    {
        lemma_huge_class(a.layout, Self::granule_bytes());
    }

    /// A huge allocation has room for its next action.
    pub(crate) proof fn lemma_huge_room(
        self,
        here: Self,
        a: PendingAlloc,
        base: StepCounter,
        step: StepCounter,
    )
        requires
            self.huge_since(here, a, base, step),
            !(a.stage is Done),
        ensures
            step.room(ACTION_ROOM as int),
            here.wf(),
            here.alloc_ready(a),
    {
    }

    /// A huge allocation goes on.
    pub(crate) proof fn lemma_huge_goes_on(
        self,
        here: Self,
        post: Self,
        a: (PendingAlloc, PendingAlloc),
        base: StepCounter,
        step: (StepCounter, StepCounter),
    )
        requires
            self.huge_since(here, a.0, base, step.0),
            !(a.0.stage is Done),
            here.alloc_acted(a.0, step.0, post, a.1, step.1, true),
        ensures
            self.huge_since(post, a.1, base, step.1),
    {
        self.lemma_same_effects(self, a.0.tid);
        if a.0.stage is Slot && a.1.stage is Claim {
            let i = a.0.at as int;
            assert(self.huge_count(4 * a.0.min, base) == self.huge_count(i, step.0));
        }
    }

    /// A huge allocation has ended.
    pub(crate) proof fn lemma_huge_ends(
        self,
        here: Self,
        a: PendingAlloc,
        base: StepCounter,
        step: StepCounter,
    )
        requires
            self.huge_since(here, a, base, step),
        ensures
            a.stage matches AllocStage::Done(r) ==> self.huge_done(
                here,
                a.tid,
                a.layout,
                r,
                base,
                step,
            ),
    {
    }

    /// Allocate on the huge path: claim the first slot of the classes that
    /// are large enough whose run is free or can be carved. Takes the actions
    /// of an allocation that has just begun until it has ended.
    pub(crate) fn alloc_huge_with_token_counted(
        &mut self,
        a: &mut PendingAlloc,
        step: &mut StepCounter,
    ) -> (r: u64)
        requires
            old(self).wf(),
            old(self).alloc_ready(*old(a)),
            old(a).stage is Slot,
            old(a).at == 4 * old(a).min,
            old(step).room(op_room(old(self).n())),
        ensures
            final(self).wf(),
            final(a).same_request(*old(a)),
            final(a).stage == AllocStage::Done(r),
            old(self).huge_done(
                *final(self),
                old(a).tid,
                old(a).layout,
                r,
                *old(step),
                *final(step),
            ),
    {
        let ghost pre = *self;
        proof {
            pre.lemma_huge_begins(*a, *step);
        }
        while !a.done()
            invariant
                pre == *old(self),
                self.wf(),
                self.n() == pre.n(),
                a.same_request(*old(a)),
                pre.huge_since(*self, *a, *old(step), *step),
            decreases a.rank(pre.n()),
        {
            let ghost here = *self;
            let ghost a0 = *a;
            let ghost now = *step;
            proof {
                pre.lemma_huge_room(here, a0, *old(step), now);
            }
            self.advance_alloc::<DefaultCas2Backend>(a, step);
            proof {
                pre.lemma_huge_goes_on(here, *self, (a0, *a), *old(step), (now, *step));
            }
        }
        proof {
            pre.lemma_huge_ends(*self, *a, *old(step), *step);
        }
        a.result()
    }

    /// A class that is not below the least one that fits has room.
    pub(crate) proof fn lemma_larger_huge(layout: Layout, min: u64, class: u64)
        requires
            layout.valid(),
            HG >= 1,
            huge_class_of(layout, Self::granule_bytes()) == Some(min),
            min <= class,
        ensures
            layout.size + huge_slack(layout) <= pow2(class as nat) * Self::granule_bytes(),
    {
        assert(HG * SPAN_SIZE >= 1) by (nonlinear_arith)
            requires
                HG >= 1,
        ;
        lemma_huge_class(layout, Self::granule_bytes());
        if min < class {
            lemma_pow2_strictly_increases(min as nat, class as nat);
        }
        let g = Self::granule_bytes();
        assert(pow2(min as nat) * g <= pow2(class as nat) * g) by (nonlinear_arith)
            requires
                pow2(min as nat) <= pow2(class as nat),
                g >= 0,
        ;
    }

    /// A change of one slot that keeps its run disturbs no other thread and
    /// keeps what is kept forever.
    pub(crate) proof fn lemma_only_slot_effects(self, post: Self, c: int, k: int, t: u64)
        requires
            self.wf(),
            post.wf(),
            0 <= c < 3,
            0 <= k < 4,
            self.only_slot(post, c, k),
            self.slot(c, k).base == 0 || post.slot(c, k).base == self.slot(c, k).base,
        ensures
            self.undisturbed(post, t),
            self.keeps(post),
    {
        assert forall|d: int, j: int|
            0 <= d < 3 && 0 <= j < 4 && (#[trigger] self.slot(d, j)).base != 0 implies post.slot(
            d,
            j,
        ).base == self.slot(d, j).base by {
            if !(d == c && j == k) {
                assert(post.slot(d, j) == self.slot(d, j));
            }
        }
    }

    /// Carving a huge run disturbs no other thread and keeps what is kept
    /// forever.
    pub(crate) proof fn lemma_huge_carved_effects(self, post: Self, s: u64, spans: nat, t: u64)
        requires
            self.wf(),
            post.wf(),
            self.carved(post, s, Unit { kind: Kind::Huge, spans }),
            !self.units().dom().contains(s),
            post.place() == self.place(),
            post.mem == self.mem,
        ensures
            self.undisturbed(post, t),
            self.keeps(post),
    {
        reveal(WfSpanAllocator::assets_ok);
        assert(spans * SPAN_SIZE >= 0) by (nonlinear_arith);
        assert(post.pool.used() >= self.pool.used()) by (nonlinear_arith)
            requires
                post.pool.base + post.pool.used() * SPAN_SIZE >= self.pool.base + self.pool.used()
                    * SPAN_SIZE,
                post.pool.base == self.pool.base,
        ;
        assert forall|x: u64| #[trigger] self.place().dom().contains(x) implies x != s by {
            assert(self.units().dom().contains(x));
        }
    }

    /// What freeing a huge allocation does: the slot whose run holds it is
    /// free again.
    pub open spec fn freed_huge(self, post: Self, p: u64, tid: u64) -> bool {
        exists|c: int, k: int|
            {
                &&& #[trigger] self.slot_serves(c, k, p)
                &&& self.only_slot(post, c, k)
                &&& post.slot(c, k) == (HugeRunSlot {
                    state: HUGE_SLOT_FREE,
                    owner: tid,
                    ..self.slot(c, k)
                })
                &&& post.live() == self.live().remove(p)
            }
    }

    /// The step counts after the slot of a live huge allocation was looked up:
    /// one look at each slot up to it.
    pub open spec fn lookup_count(self, p: u64, base: StepCounter, now: StepCounter) -> bool {
        exists|c: int, k: int|
            #[trigger] self.slot_serves(c, k, p) && now == (StepCounter {
                huge_slot_scans: (base.huge_slot_scans + 4 * c + k + 1) as u64,
                ..base
            })
    }

    /// Free on the huge path: find the slot whose run holds the address and
    /// make it claimable again.
    pub(crate) fn dealloc_huge_with_token_counted(
        &mut self,
        ptr: u64,
        layout: Layout,
        token: ThreadToken,
        step: &mut StepCounter,
    )
        requires
            old(self).wf(),
            token.id < old(self).n(),
            old(self).live().dom().contains(ptr),
            old(self).live()[ptr] == layout,
            Self::dispatch(layout) is Huge,
            old(step).room(12),
        ensures
            final(self).wf(),
            old(self).freed_huge(*final(self), ptr, token.id),
            final(self).live() == old(self).live().remove(ptr),
            old(self).keeps(*final(self)),
            old(self).undisturbed(*final(self), token.id),
            old(self).lookup_count(ptr, *old(step), *final(step)),
    {
        let ghost pre = *self;
        let ghost mut home: (int, int) = (0, 0);
        proof {
            home = pre.lemma_slot_of(ptr);
            lemma2_to64();
        }
        let mut i: u64 = 0;
        while i < 12
            invariant
                i <= 12,
                pre == *old(self),
                *self == pre,
                pre.wf(),
                token.id < pre.n(),
                pre.live().dom().contains(ptr),
                pre.slot_serves(home.0, home.1, ptr),
                pre.slot(home.0, home.1).base == pre.unit_of(ptr),
                pre.inside(pre.slot(home.0, home.1).base, ptr as int),
                pre.units().dom().contains(pre.slot(home.0, home.1).base),
                4 * home.0 + home.1 >= i,
                old(step).room(12),
                *step == (StepCounter {
                    huge_slot_scans: (old(step).huge_slot_scans + i) as u64,
                    ..*old(step)
                }),
            decreases 12 - i,
        {
            let ghost c = i as int / 4;
            let ghost k = i as int % 4;
            step.huge_slot_scans = step.huge_slot_scans + 1;
            let class: usize = (i / 4) as usize;
            let index: usize = (i % 4) as usize;
            let slot = self.huge.slots[class][index];
            proof {
                assert(slot == pre.slot(c, k));
                assert(pre.slot_ok(c, k)) by {
                    reveal(WfSpanAllocator::assets_ok);
                }
                lemma2_to64();
                if i / 4 < 2 {
                    lemma_pow2_strictly_increases((i / 4) as nat, 2);
                }
                assert(HG * SPAN_SIZE * pow2((i / 4) as nat) <= HG * SPAN_SIZE * 4)
                    by (nonlinear_arith)
                    requires
                        pow2((i / 4) as nat) <= 4,
                        HG * SPAN_SIZE >= 0,
                ;
            }
            if slot.base != 0 {
                proof {
                    pre.lemma_huge_unit(c, slot.base);
                    assert(pow2((i / 4) as nat) * Self::granule_bytes() == Self::granule_bytes()
                        * pow2((i / 4) as nat)) by (nonlinear_arith);
                }
                let end: u64 = slot.base + Self::huge_class_bytes(i / 4);
                if ptr >= slot.base && ptr < end {
                    proof {
                        pre.lemma_unit_unique(
                            slot.base,
                            pre.slot(home.0, home.1).base,
                            ptr as int,
                        );
                        reveal(WfSpanAllocator::assets_ok);
                        assert(pre.slots_distinct());
                        assert(c == home.0 && k == home.1);
                    }
                    self.huge.slots[class][index] = HugeRunSlot {
                        state: HUGE_SLOT_FREE,
                        owner: token.id,
                        ..slot
                    };
                    self.ledger = Ghost(
                        Ledger { live: self.ledger@.live.remove(ptr), ..self.ledger@ },
                    );
                    proof {
                        assert forall|d: int, j: int|
                            0 <= d < 3 && 0 <= j < 4 && !(d == c && j
                                == k) implies #[trigger] self.slot(d, j) == pre.slot(d, j) by {
                        }
                        assert forall|d: int, j: int|
                            0 <= d < 3 && 0 <= j < 4 && !(d == c && j == k) implies (
                        #[trigger] pre.slot(d, j)).base != slot.base by {
                            assert(pre.slots_distinct());
                        }
                        assert(pre.only_slot(*self, c, k));
                        assert forall|q: u64| #[trigger] self.live().dom().contains(
                            q,
                        ) implies !pre.inside(slot.base, q as int) by {
                            if pre.inside(slot.base, q as int) {
                                pre.lemma_live_in_unit(q);
                                pre.lemma_unit_unique(slot.base, pre.unit_of(q), q as int);
                                let (d, j) = pre.lemma_slot_of(q);
                                assert(d == c && j == k);
                            }
                        }
                        pre.lemma_slot_step(*self, c, k);
                        pre.lemma_only_slot_effects(*self, c, k, token.id);
                        assert(pre.slot_serves(c, k, ptr));
                    }
                    return;
                }
            }
            proof {
                if 4 * home.0 + home.1 == i {
                    assert(c == home.0 && k == home.1);
                    pre.lemma_huge_unit(c, slot.base);
                }
            }
            i = i + 1;
        }
    }
}

/// Steps of one huge allocation.
pub open spec fn huge_cost(base: StepCounter, now: StepCounter) -> bool {
    let scans = now.huge_slot_scans - base.huge_slot_scans;
    &&& 0 <= scans <= 12
    &&& 0 <= now.cas_attempts - base.cas_attempts <= 2 * scans
    &&& 0 <= now.faa_ops - base.faa_ops <= scans
    &&& now == (StepCounter {
        huge_slot_scans: now.huge_slot_scans,
        cas_attempts: now.cas_attempts,
        faa_ops: now.faa_ops,
        ..base
    })
}

} // verus!
