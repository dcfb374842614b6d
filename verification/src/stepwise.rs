//! Allocations and deallocations one action at a time.
//!
//! An operation is a run of actions between which other threads may act.
//! `alloc_with_token` and `dealloc_with_token` take the actions of one operation
//! in a row. The step bounds are shown for every way in which others act in
//! between.
//!
//! An action of the helping protocol is one access to a request record, or one
//! pop attempt on a public list: the load of its head and one double-word
//! compare-exchange. A head that others replace in between fails the attempt; a
//! backend whose attempts may fail at any time stands for that. Outside the
//! protocol, some actions are made of several atomic operations, between which
//! nobody acts here:
//!
//! - a remote free pushes its block with a swap, stores the link, and raises the
//!   visible count with a fetch-and-add (`dealloc_remote`);
//! - asking a span for a block pops its local list, or drains the remote list
//!   with a swap, walks the links, lowers the count with a fetch-and-add and pops
//!   (`try_serve`);
//! - a request to the pool raises its counter with a fetch-and-add, and where the
//!   spans do not fit takes them back with a compare-exchange
//!   (`acquire_raw_run`); the fresh span or run is set up in the same action;
//! - the claim of a huge slot is a compare-exchange, the carving of its run where
//!   it has none, and the stores of its fields (`act_claim`);
//! - the free of a block by the owner of its span, of a run, or of a huge
//!   allocation is one action, which may publish the span or run.

use crate::acquire::acquire_cost;
use crate::atomic_backend::Cas2Backend;
use crate::block::block_from_payload;
use crate::config::{
    HELP_BUDGET_H, LOCAL_SPAN_LIMIT_K, MAX_HUGE_RUNS_PER_CLASS, MAX_HUGE_RUN_CLASSES,
    MAX_LARGE_RUN_CLASSES, SPAN_SIZE,
};
use crate::huge::{huge_class_of, huge_cost, lemma_huge_class, HUGE_SLOT_EMPTY, HUGE_SLOT_FREE};
use crate::large::{
    large_cost, lemma_large_cost, lemma_run_class, run_class_for_layout, run_class_of,
};
use crate::layout::Layout;
use crate::protocol::Acquisition;
use crate::refill::serve_count;
use crate::size_class::{class_size, span_blocks};
use crate::small::{serve_cost, TurnEnd};
use crate::span::{span_base, span_from_ptr};
use crate::state::{Key, Lane, Path, Place, WfSpanAllocator};
use crate::stats::StepCounter;
use crate::thread::ThreadToken;
use vstd::arithmetic::power2::pow2;
use vstd::prelude::*;

verus! {

/// Room that one action needs in every step counter.
pub const ACTION_ROOM: u64 = 0x2_0010;

/// What an allocation does next.
pub enum AllocStage {
    /// Ask the first span of the private list.
    Turn,
    /// Make a span ownerless that had no free block.
    Mark(u64),
    /// Look at it again, and take it back if a block was freed meanwhile.
    Settle(u64),
    /// Go on with the acquisition of a span.
    Ask(Acquisition),
    /// Own an acquired span and ask it.
    Serve(u64),
    /// Carve a span and take its first block.
    Carve,
    /// Look at the private list of a run class.
    Look,
    /// Go on with the acquisition of a run.
    RunAsk(Acquisition),
    /// Own an acquired run and hand it out.
    RunTake(u64),
    /// Carve a run and hand it out.
    RunCarve,
    /// Look at a huge slot.
    Slot,
    /// Claim the slot, seen in this state.
    Claim(u64),
    /// The allocation has ended with this address, or 0.
    Done(u64),
}

/// One allocation in progress.
pub struct PendingAlloc {
    pub layout: Layout,
    pub tid: u64,
    /// The size class, or the least run or huge class that fits.
    pub min: u64,
    /// Turns taken, or the run class, or the flat index of the huge slot.
    pub at: u64,
    pub stage: AllocStage,
    /// The step counts when the last acquisition began.
    pub began: Ghost<StepCounter>,
    /// The step counts when the last span or run class was asked.
    pub asked: Ghost<StepCounter>,
}

/// What a deallocation does next.
pub enum FreeStage {
    /// Return the block, run or slot.
    Give,
    /// Claim the span on which a first block was made visible.
    Claim(u64),
    Done,
}

/// One deallocation in progress.
pub struct PendingFree {
    pub ptr: u64,
    pub layout: Layout,
    pub tid: u64,
    pub stage: FreeStage,
}

/// Steps of `i` turns of spans with `m` blocks, `j` of which may have taken a
/// span back.
pub open spec fn turns_cost(
    base: StepCounter,
    now: StepCounter,
    i: int,
    j: int,
    m: int,
) -> bool {
    &&& base.blocks_scanned <= now.blocks_scanned <= base.blocks_scanned + i * m
    &&& now == (StepCounter {
        local_steps: now.local_steps,
        blocks_scanned: now.blocks_scanned,
        swap_ops: now.swap_ops,
        faa_ops: now.faa_ops,
        cas_attempts: now.cas_attempts,
        ..base
    })
    &&& base.cas_attempts <= now.cas_attempts <= base.cas_attempts + j
}

/// Steps of a small allocation with `n` threads and `m` blocks per span,
/// whatever other threads do.
pub open spec fn contended_cost(base: StepCounter, now: StepCounter, n: int, m: int) -> bool {
    let dh = now.help_steps - base.help_steps;
    let dq = now.query_steps - base.query_steps;
    &&& 0 <= dh <= n + 1
    &&& 0 <= dq <= n
    &&& 0 <= now.cas2_attempts - base.cas2_attempts <= dh + dq
    &&& 0 <= now.cas_attempts - base.cas_attempts <= dh + dq + LOCAL_SPAN_LIMIT_K + 2
    &&& base.blocks_scanned <= now.blocks_scanned <= base.blocks_scanned + (LOCAL_SPAN_LIMIT_K + 2)
        * m
    &&& now.remote_steps == base.remote_steps
    &&& now.large_class_steps == base.large_class_steps
    &&& now.huge_slot_scans == base.huge_slot_scans
}

impl PendingAlloc {
    /// The lists and the record that the allocation is at.
    pub open spec fn key(self) -> Key {
        match self.stage {
            AllocStage::Look | AllocStage::RunAsk(_) | AllocStage::RunTake(_)
            | AllocStage::RunCarve => Key { lane: Lane::Run, class: self.at, tid: self.tid },
            _ => Key { lane: Lane::Span, class: self.min, tid: self.tid },
        }
    }

    /// The request, its thread and the least class that fits.
    pub open spec fn same_request(self, a: PendingAlloc) -> bool {
        self.layout == a.layout && self.tid == a.tid && self.min == a.min
    }

    /// Whether the allocation has ended.
    pub fn done(&self) -> (r: bool)
        ensures
            r == (self.stage is Done),
    {
        match self.stage {
            AllocStage::Done(_) => true,
            _ => false,
        }
    }

    /// What an allocation that has ended returns.
    pub fn result(&self) -> (r: u64)
        requires
            self.stage is Done,
        ensures
            self.stage == AllocStage::Done(r),
    {
        match self.stage {
            AllocStage::Done(p) => p,
            _ => 0,
        }
    }

    /// Blocks per span of the size class.
    pub open spec fn blocks(self) -> int {
        span_blocks(class_size(self.min as int))
    }

    /// Bound on the actions that are left, whatever other threads do.
    pub open spec fn rank(self, n: int) -> int {
        let w = 14 * n + 60;
        let turns = 3 * (LOCAL_SPAN_LIMIT_K + 1 - self.at);
        let classes = (MAX_LARGE_RUN_CLASSES - self.at) * w;
        match self.stage {
            AllocStage::Turn => turns + w,
            AllocStage::Mark(_) => turns + w + 2,
            AllocStage::Settle(_) => turns + w + 1,
            AllocStage::Ask(m) => m.rank(n) + 3,
            AllocStage::Serve(_) => 2,
            AllocStage::Carve => 1,
            AllocStage::Look => classes + 1,
            AllocStage::RunAsk(m) => classes - w + m.rank(n) + 5,
            AllocStage::RunTake(_) => classes - w + 4,
            AllocStage::RunCarve => classes - w + 3,
            AllocStage::Slot => 2 * (12 - self.at) + 1,
            AllocStage::Claim(_) => 2 * (12 - self.at),
            AllocStage::Done(_) => 0,
        }
    }
}

/// Where an allocation goes on after a step of the acquisition of a span.
pub open spec fn ask_next(q: Acquisition) -> AllocStage {
    if !(q.stage is Done) {
        AllocStage::Ask(q)
    } else if q.result != 0 {
        AllocStage::Serve(q.result)
    } else {
        AllocStage::Carve
    }
}

/// Where an allocation goes on after a step of the acquisition of a run.
pub open spec fn run_next(a: PendingAlloc, q: Acquisition) -> (u64, AllocStage) {
    if !(q.stage is Done) {
        (a.at, AllocStage::RunAsk(q))
    } else if q.result != 0 {
        (a.at, AllocStage::RunTake(q.result))
    } else if a.at == a.min {
        (a.at, AllocStage::RunCarve)
    } else {
        ((a.at + 1) as u64, AllocStage::Look)
    }
}

impl<const C: u64, const HG: u64> WfSpanAllocator<C, HG> {
    /// The steps counted since `base` keep the bounds of the path.
    pub open spec fn alloc_spent(a: PendingAlloc, base: StepCounter, now: StepCounter, n: int) -> bool {
        let m = a.blocks();
        let i = a.at - a.min;
        let turned = turns_cost(
            base,
            a.began@,
            LOCAL_SPAN_LIMIT_K + 1,
            LOCAL_SPAN_LIMIT_K + 1,
            m,
        );
        let looked = StepCounter {
            large_class_steps: (a.asked@.large_class_steps + 1) as u64,
            ..a.asked@
        };
        let run_asked = large_cost(base, a.asked@, i, n) && a.began@ == looked && (i == 0
            ==> a.asked@ == base) && a.asked@.large_class_steps < u64::MAX;
        let slots = a.at - 4 * a.min;
        match a.stage {
            AllocStage::Turn => turns_cost(base, now, a.at as int, a.at as int, m),
            AllocStage::Mark(_) | AllocStage::Settle(_) => turns_cost(
                base,
                now,
                a.at as int,
                a.at - 1,
                m,
            ),
            AllocStage::Ask(q) => turned && q.spent(a.began@, now, n),
            AllocStage::Serve(_) => turned && acquire_cost(a.began@, now, n),
            AllocStage::Carve => turned && acquire_cost(a.began@, a.asked@, n) && serve_cost(
                a.asked@,
                now,
                m,
            ),
            AllocStage::Look => large_cost(base, now, i, n) && (i == 0 ==> now == base),
            AllocStage::RunAsk(q) => run_asked && q.spent(a.began@, now, n),
            AllocStage::RunTake(_) => large_cost(base, now, i + 1, n),
            AllocStage::RunCarve => run_asked && acquire_cost(a.began@, now, n),
            AllocStage::Slot => {
                &&& huge_cost(base, now)
                &&& now.huge_slot_scans == base.huge_slot_scans + slots
            },
            AllocStage::Claim(_) => {
                &&& huge_cost(base, now)
                &&& now.huge_slot_scans == base.huge_slot_scans + slots + 1
                &&& now.cas_attempts <= base.cas_attempts + 2 * slots
                &&& now.faa_ops <= base.faa_ops + slots
            },
            AllocStage::Done(_) => match Self::dispatch(a.layout) {
                Path::Small(_) => contended_cost(base, now, n, m),
                Path::Large => exists|j: int|
                    0 <= j <= MAX_LARGE_RUN_CLASSES && #[trigger] large_cost(base, now, j, n),
                Path::Huge => huge_cost(base, now),
            },
        }
    }

    /// The allocation is one that this state can go on with: what it holds is
    /// in its thread's hands.
    pub open spec fn alloc_ready(self, a: PendingAlloc) -> bool {
        let k = a.key();
        let small = Self::dispatch(a.layout) == Path::Small(a.min) && a.at <= LOCAL_SPAN_LIMIT_K + 1;
        let large = Self::dispatch(a.layout) is Large && run_class_of(a.layout) == Some(a.min)
            && a.min <= a.at;
        let huge = Self::dispatch(a.layout) is Huge && huge_class_of(
            a.layout,
            Self::granule_bytes(),
        ) == Some(a.min) && 4 * a.min <= a.at;
        &&& a.tid < self.n()
        &&& a.layout.valid()
        &&& match a.stage {
            AllocStage::Turn => small,
            AllocStage::Mark(s) => small && a.at >= 1 && self.at(s, Place::Held(a.tid))
                && self.fits(s, k),
            AllocStage::Settle(s) => small && a.at >= 1 && self.place().dom().contains(s)
                && self.fits(s, k),
            AllocStage::Ask(q) => small && q.key == k && self.acquiring(q) && !(q.stage is Done),
            AllocStage::Serve(s) => small && s != 0 && self.in_hand(s, k),
            AllocStage::Carve => small,
            AllocStage::Look => large && a.at <= MAX_LARGE_RUN_CLASSES,
            AllocStage::RunAsk(q) => large && a.at < MAX_LARGE_RUN_CLASSES && q.key == k
                && self.acquiring(q) && !(q.stage is Done),
            AllocStage::RunTake(s) => large && a.at < MAX_LARGE_RUN_CLASSES && s != 0
                && self.in_hand(s, k),
            AllocStage::RunCarve => large && a.at == a.min && a.at < MAX_LARGE_RUN_CLASSES,
            AllocStage::Slot => huge && a.at <= 12,
            AllocStage::Claim(state) => huge && a.at < 12 && (state == HUGE_SLOT_FREE || state
                == HUGE_SLOT_EMPTY),
            AllocStage::Done(_) => true,
        }
    }

    /// An allocation in progress survives every action of another thread.
    pub proof fn law_allocation_survives_others(self, post: Self, t: u64, a: PendingAlloc)
        requires
            self.alloc_ready(a),
            self.undisturbed(post, t),
            a.tid != t,
        ensures
            post.alloc_ready(a),
    {
    }

    /// What one action of an allocation does at each stage, and where it leads.
    pub open spec fn alloc_effect(
        self,
        a: PendingAlloc,
        now: StepCounter,
        post: Self,
        b: PendingAlloc,
        then: StepCounter,
        strong: bool,
    ) -> bool {
        let k = a.key();
        let here = a.at;
        let next = (a.at + 1) as u64;
        let slot = self.slot(a.at as int / 4, a.at as int % 4);
        match a.stage {
            AllocStage::Turn => if a.at > LOCAL_SPAN_LIMIT_K {
                post == self && then == now && b.at == here && b.stage == AllocStage::Ask(
                    self.started(k),
                )
            } else {
                &&& self.turn_ended(post, k, a.layout, self.turn_end(k))
                &&& then == self.ask_count(k, now)
                &&& match self.turn_end(k) {
                    TurnEnd::Empty => b.at == here && b.stage == AllocStage::Ask(self.started(k)),
                    TurnEnd::Served(p) => b.at == here && b.stage == AllocStage::Done(p),
                    TurnEnd::Dead(s) => b.at == next && b.stage == AllocStage::Mark(s),
                    TurnEnd::Kept => b.at == next && b.stage is Turn,
                }
            },
            AllocStage::Mark(s) => {
                &&& self.discard_marked(post, s)
                &&& then == now
                &&& b.at == here && b.stage == AllocStage::Settle(s)
            },
            AllocStage::Settle(s) => {
                &&& self.settle_ended(post, k, s)
                &&& then == (if self.header(s).remote.free_count != 0 {
                    StepCounter { cas_attempts: (now.cas_attempts + 1) as u64, ..now }
                } else {
                    now
                })
                &&& b.at == here && b.stage is Turn
            },
            AllocStage::Ask(q) => exists|q2: Acquisition|
                #[trigger] self.advanced(q, now, post, q2, then, strong) && b.at == here && b.stage
                    == ask_next(q2),
            AllocStage::Serve(s) => {
                let p = self.serve_block(s);
                &&& self.serve_ended(post, k, s, a.layout, p)
                &&& then == serve_count(self.header(s), self.mem@.links, now)
                &&& b.at == here && b.stage == (if p != 0 {
                    AllocStage::Done(p)
                } else {
                    AllocStage::Carve
                })
            },
            AllocStage::Carve => {
                &&& then == self.carve_count(now)
                &&& b.at == here
                &&& b.stage matches AllocStage::Done(p) && self.carve_ended(post, k, a.layout, p)
            },
            AllocStage::Look => if a.at >= MAX_LARGE_RUN_CLASSES {
                post == self && then == now && b.at == here && b.stage == AllocStage::Done(0)
            } else {
                &&& then == (StepCounter {
                    large_class_steps: (now.large_class_steps + 1) as u64,
                    ..now
                })
                &&& b.at == here
                &&& if self.local(k).seq().len() > 0 {
                    b.stage matches AllocStage::Done(p) && self.run_listed(post, k, a.layout, p)
                } else {
                    post == self && b.stage == AllocStage::RunAsk(self.started(k))
                }
            },
            AllocStage::RunAsk(q) => exists|q2: Acquisition|
                #[trigger] self.advanced(q, now, post, q2, then, strong) && (b.at, b.stage)
                    == run_next(a, q2),
            AllocStage::RunTake(run) => {
                &&& then == now
                &&& b.at == here
                &&& b.stage matches AllocStage::Done(p) && self.run_taken(
                    post,
                    k,
                    run,
                    a.layout,
                    p,
                )
            },
            AllocStage::RunCarve => {
                &&& then == self.pool.run_count(pow2(a.at as nat) as int, now)
                &&& if self.pool.next + pow2(a.at as nat) <= self.pool.count {
                    b.at == here && (b.stage matches AllocStage::Done(p) && self.run_carved(
                        post,
                        k,
                        a.layout,
                        p,
                    ))
                } else {
                    post == self && b.at == next && b.stage is Look
                }
            },
            AllocStage::Slot => {
                &&& post == self
                &&& if a.at >= 12 {
                    then == now && b.at == here && b.stage == AllocStage::Done(0)
                } else {
                    &&& then == (StepCounter {
                        huge_slot_scans: (now.huge_slot_scans + 1) as u64,
                        ..now
                    })
                    &&& if slot.state == HUGE_SLOT_FREE || slot.state == HUGE_SLOT_EMPTY {
                        b.at == here && b.stage == AllocStage::Claim(slot.state)
                    } else {
                        b.at == next && b.stage is Slot
                    }
                }
            },
            AllocStage::Claim(seen) => {
                &&& then == self.claim_count(a.at as int, seen, now)
                &&& if slot.state == seen && self.claimable(a.at as int) {
                    b.at == here && (b.stage matches AllocStage::Done(p) && self.claim_ended(
                        post,
                        a.at as int,
                        seen,
                        a.layout,
                        a.tid,
                        p,
                    ))
                } else {
                    post == self && b.at == next && b.stage is Slot
                }
            },
            AllocStage::Done(_) => false,
        }
    }

    /// One action of an allocation: what it does, and what it keeps whatever
    /// other threads did before it.
    pub open spec fn alloc_acted(
        self,
        a: PendingAlloc,
        now: StepCounter,
        post: Self,
        b: PendingAlloc,
        then: StepCounter,
        strong: bool,
    ) -> bool {
        &&& self.alloc_effect(a, now, post, b, then, strong)
        &&& post.wf()
        &&& post.n() == self.n()
        &&& self.undisturbed(post, a.tid)
        &&& self.keeps_pieces(post)
        &&& (a.stage matches AllocStage::Mark(s) ==> self.header(s).free_blocks().len() == 0)
            ==> self.keeps(post)
        &&& post.alloc_ready(b)
        &&& b.same_request(a)
        &&& 0 <= b.rank(self.n()) < a.rank(self.n())
        &&& forall|base: StepCounter| #[trigger]
            Self::alloc_spent(a, base, now, self.n()) ==> Self::alloc_spent(
                b,
                base,
                then,
                self.n(),
            )
        &&& match b.stage {
            AllocStage::Done(p) => if p != 0 {
                !self.live().dom().contains(p) && post.live() == self.live().insert(p, a.layout)
            } else {
                post.live() == self.live()
            },
            _ => post.live() == self.live(),
        }
    }

    /// Where an allocation starts.
    pub open spec fn alloc_start(layout: Layout) -> (u64, u64, AllocStage) {
        match Self::dispatch(layout) {
            Path::Small(c) => (c, 0, AllocStage::Turn),
            Path::Large => match run_class_of(layout) {
                Some(c) => (c, c, AllocStage::Look),
                None => (0, 0, AllocStage::Done(0)),
            },
            Path::Huge => match huge_class_of(layout, Self::granule_bytes()) {
                Some(c) => (c, (4 * c) as u64, AllocStage::Slot),
                None => (0, 0, AllocStage::Done(0)),
            },
        }
    }

    /// An allocation that has not taken an action yet.
    pub open spec fn alloc_begun(a: PendingAlloc, n: int) -> bool {
        &&& forall|step: StepCounter| #[trigger] Self::alloc_spent(a, step, step, n)
        &&& 0 <= a.rank(n) <= 17 * (14 * n + 60) + 1
        &&& (a.min, a.at, a.stage) == Self::alloc_start(a.layout)
    }

    /// Start an allocation.
    pub fn begin_alloc(&self, layout: Layout, token: ThreadToken) -> (a: PendingAlloc)
        requires
            self.wf(),
            layout.valid(),
            token.id < self.n(),
        ensures
            self.alloc_ready(a),
            a.layout == layout,
            a.tid == token.id,
            Self::alloc_begun(a, self.n()),
    {
        let tid: u64 = token.id;
        let began = Ghost(StepCounter::zero());
        let asked = Ghost(StepCounter::zero());
        let ghost n = self.n();
        proof {
            lemma_run_class(layout);
            assert(HG * SPAN_SIZE >= 1) by (nonlinear_arith)
                requires
                    HG >= 1,
            ;
            lemma_huge_class(layout, Self::granule_bytes());
            assert forall|x: int| 0 <= x <= 17 implies 0 <= #[trigger] ((17 - x) * (14 * n + 60))
                <= 17 * (14 * n + 60) by {
                assert(0 <= (17 - x) * (14 * n + 60) <= 17 * (14 * n + 60)) by (nonlinear_arith)
                    requires
                        0 <= x <= 17,
                        n >= 1,
                ;
            }
        }
        let start: (u64, u64, AllocStage) = match Self::small_class(layout) {
            Some(class) => (class, 0, AllocStage::Turn),
            None => {
                if layout.size() >= Self::huge_threshold() {
                    match Self::huge_class_for_layout(layout) {
                        Some(c) => (c, 4 * c, AllocStage::Slot),
                        None => (0, 0, AllocStage::Done(0)),
                    }
                } else {
                    match run_class_for_layout(layout) {
                        Some(c) => (c, c, AllocStage::Look),
                        None => (0, 0, AllocStage::Done(0)),
                    }
                }
            },
        };
        let a = PendingAlloc {
            layout,
            tid,
            min: start.0,
            at: start.1,
            stage: start.2,
            began,
            asked,
        };
        proof {
            assert forall|step: StepCounter| #[trigger] Self::alloc_spent(a, step, step, n) by {
                assert(large_cost(step, step, 0, n));
            }
        }
        a
    }

    /// Take one action of an allocation. Other threads may act between any
    /// two actions.
    pub fn advance_alloc<B: Cas2Backend>(&mut self, a: &mut PendingAlloc, step: &mut StepCounter)
        requires
            old(self).wf(),
            old(self).alloc_ready(*old(a)),
            !(old(a).stage is Done),
            old(step).room(ACTION_ROOM as int),
        ensures
            old(self).alloc_acted(
                *old(a),
                *old(step),
                *final(self),
                *final(a),
                *final(step),
                B::strong(),
            ),
    {
        match a.stage {
            AllocStage::Turn | AllocStage::Mark(_) | AllocStage::Settle(_) => {
                self.step_turn(a, step);
            },
            AllocStage::Ask(_) | AllocStage::Serve(_) | AllocStage::Carve => {
                self.step_ask::<B>(a, step);
            },
            AllocStage::Slot | AllocStage::Claim(_) => {
                self.step_slot(a, step);
            },
            _ => {
                self.step_run::<B>(a, step);
            },
        }
    }

    /// Actions on the private list of a size class.
    fn step_turn(&mut self, a: &mut PendingAlloc, step: &mut StepCounter)
        requires
            old(self).wf(),
            old(self).alloc_ready(*old(a)),
            old(a).stage is Turn || old(a).stage is Mark || old(a).stage is Settle,
            old(step).room(ACTION_ROOM as int),
        ensures
            forall|strong: bool|
                #![trigger old(self).alloc_acted(
                    *old(a),
                    *old(step),
                    *final(self),
                    *final(a),
                    *final(step),
                    strong,
                )]
                old(self).alloc_acted(
                    *old(a),
                    *old(step),
                    *final(self),
                    *final(a),
                    *final(step),
                    strong,
                ),
    {
        let ghost pre = *self;
        let ghost a0 = *a;
        let ghost now = *step;
        let ghost n = self.n();
        let ghost m = a.blocks();
        let tid: u64 = a.tid;
        let k = Key { lane: Lane::Span, class: a.min, tid };
        assert(k == a0.key());
        proof {
            pre.lemma_listed_small(k);
            pre.lemma_same_effects(pre, tid);
        }
        match a.stage {
            AllocStage::Mark(s) => {
                self.mark_discarded(s, tid);
                a.stage = AllocStage::Settle(s);
                proof {
                    pre.lemma_mark_effects(*self, s, tid);
                }
            },
            AllocStage::Settle(s) => {
                self.act_settle(k, s, step);
                a.stage = AllocStage::Turn;
            },
            _ => {
                if a.at > LOCAL_SPAN_LIMIT_K {
                    let q = self.begin_acquisition(k);
                    a.began = Ghost(*step);
                    a.stage = AllocStage::Ask(q);
                    proof {
                        Self::lemma_begin_ask(a0, *a, now, n);
                    }
                    return ;
                }
                let r = self.act_turn(k, a.layout, step);
                proof {
                    assert forall|base: StepCounter| #[trigger]
                        Self::alloc_spent(a0, base, now, n) && !(r is Empty) implies turns_cost(
                        base,
                        *step,
                        a0.at + 1,
                        a0.at as int,
                        m,
                    ) by {
                        assert((a0.at + 1) * m == a0.at * m + m) by (nonlinear_arith);
                    }
                }
                match r {
                    TurnEnd::Empty => {
                        let q = self.begin_acquisition(k);
                        a.began = Ghost(*step);
                        a.stage = AllocStage::Ask(q);
                        proof {
                            Self::lemma_begin_ask(a0, *a, now, n);
                        }
                    },
                    TurnEnd::Served(p) => {
                        a.stage = AllocStage::Done(p);
                        proof {
                            lemma_turns_bound(a0.at + 1, m);
                        }
                    },
                    TurnEnd::Dead(s) => {
                        a.at = a.at + 1;
                        a.stage = AllocStage::Mark(s);
                        proof {
                            reveal(WfSpanAllocator::order_ok);
                            assert(pre.place_ok(s));
                        }
                    },
                    TurnEnd::Kept => {
                        a.at = a.at + 1;
                    },
                }
            },
        }
    }

    /// Actions of a small request that its private list did not serve.
    fn step_ask<B: Cas2Backend>(&mut self, a: &mut PendingAlloc, step: &mut StepCounter)
        requires
            old(self).wf(),
            old(self).alloc_ready(*old(a)),
            old(a).stage is Ask || old(a).stage is Serve || old(a).stage is Carve,
            old(step).room(ACTION_ROOM as int),
        ensures
            old(self).alloc_acted(
                *old(a),
                *old(step),
                *final(self),
                *final(a),
                *final(step),
                B::strong(),
            ),
    {
        let ghost pre = *self;
        let ghost a0 = *a;
        let ghost now = *step;
        let ghost n = self.n();
        let ghost m = a.blocks();
        let tid: u64 = a.tid;
        let k = Key { lane: Lane::Span, class: a.min, tid };
        assert(k == a0.key());
        proof {
            pre.lemma_listed_small(k);
            lemma_turns_bound(0, m);
        }
        match a.stage {
            AllocStage::Ask(q0) => {
                let mut q = q0;
                self.advance::<B>(&mut q, step);
                proof {
                    pre.lemma_inert_keeps(*self);
                    assert(pre.advanced(q0, now, *self, q, *step, B::strong()));
                }
                if q.done() {
                    if q.result != 0 {
                        a.stage = AllocStage::Serve(q.result);
                    } else {
                        a.asked = Ghost(*step);
                        a.stage = AllocStage::Carve;
                    }
                } else {
                    a.stage = AllocStage::Ask(q);
                }
            },
            AllocStage::Serve(s) => {
                proof {
                    pre.lemma_free_room(s);
                }
                let p: u64 = self.act_serve(k, s, a.layout, step);
                if p != 0 {
                    a.stage = AllocStage::Done(p);
                } else {
                    a.asked = Ghost(now);
                    a.stage = AllocStage::Carve;
                }
            },
            _ => {
                let p: u64 = self.act_carve(k, a.layout, step);
                a.stage = AllocStage::Done(p);
            },
        }
    }

    /// Actions of a large request.
    fn step_run<B: Cas2Backend>(&mut self, a: &mut PendingAlloc, step: &mut StepCounter)
        requires
            old(self).wf(),
            old(self).alloc_ready(*old(a)),
            old(a).stage is Look || old(a).stage is RunAsk || old(a).stage is RunTake || old(
                a,
            ).stage is RunCarve,
            old(step).room(ACTION_ROOM as int),
        ensures
            old(self).alloc_acted(
                *old(a),
                *old(step),
                *final(self),
                *final(a),
                *final(step),
                B::strong(),
            ),
    {
        let ghost pre = *self;
        let ghost a0 = *a;
        let ghost now = *step;
        let ghost n = self.n();
        let tid: u64 = a.tid;
        let k = Key { lane: Lane::Run, class: a.at, tid };
        assert(k == a0.key());
        proof {
            pre.lemma_same_effects(pre, tid);
            lemma_run_class(a.layout);
            if a.at < MAX_LARGE_RUN_CLASSES {
                lemma_large_cost(a.at - a.min, n);
                Self::lemma_larger_class(a.layout, a.min, a.at);
                assert((17 - a.at) * (14 * n + 60) == (17 - a.at - 1) * (14 * n + 60) + 14 * n + 60)
                    by (nonlinear_arith);
                assert((17 - a.at - 1) * (14 * n + 60) >= 0) by (nonlinear_arith)
                    requires
                        a.at < 17,
                        n >= 1,
                ;
            }
        }
        match a.stage {
            AllocStage::Look => {
                if a.at >= MAX_LARGE_RUN_CLASSES {
                    a.stage = AllocStage::Done(0);
                    proof {
                        assert((17 - a0.at) * (14 * n + 60) == 0) by (nonlinear_arith)
                            requires
                                a0.at == 17,
                        ;
                    }
                    return ;
                }
                step.large_class_steps = step.large_class_steps + 1;
                if self.front(k) != 0 {
                    let p: u64 = self.act_run_local(k, a.layout);
                    a.stage = AllocStage::Done(p);
                    proof {
                        assert forall|base: StepCounter| #[trigger]
                            Self::alloc_spent(a0, base, now, n) implies Self::alloc_spent(
                            *a,
                            base,
                            *step,
                            n,
                        ) by {
                            assert(large_cost(base, *step, a0.at - a0.min + 1, n));
                        }
                    }
                    return ;
                }
                let q = self.begin_acquisition(k);
                a.asked = Ghost(now);
                a.began = Ghost(*step);
                a.stage = AllocStage::RunAsk(q);
                proof {
                    assert(q.spent(*step, *step, n));
                }
            },
            AllocStage::RunAsk(q0) => {
                let mut q = q0;
                self.advance::<B>(&mut q, step);
                proof {
                    pre.lemma_inert_keeps(*self);
                    assert(pre.advanced(q0, now, *self, q, *step, B::strong()));
                }
                if !q.done() {
                    a.stage = AllocStage::RunAsk(q);
                } else if q.result != 0 {
                    a.stage = AllocStage::RunTake(q.result);
                } else if a.at == a.min {
                    a.stage = AllocStage::RunCarve;
                } else {
                    a.at = a.at + 1;
                    a.stage = AllocStage::Look;
                }
            },
            AllocStage::RunTake(run) => {
                let p: u64 = self.act_run_take(k, run, a.layout);
                a.stage = AllocStage::Done(p);
            },
            _ => {
                let p: u64 = self.act_run_carve(k, a.layout, step);
                proof {
                    assert forall|base: StepCounter| #[trigger]
                        Self::alloc_spent(a0, base, now, n) implies large_cost(
                        base,
                        *step,
                        a0.at - a0.min + 1,
                        n,
                    ) by {
                    }
                }
                if p == 0 {
                    a.at = a.at + 1;
                    a.stage = AllocStage::Look;
                } else {
                    a.stage = AllocStage::Done(p);
                }
            },
        }
    }

    /// Actions of a huge request.
    fn step_slot(&mut self, a: &mut PendingAlloc, step: &mut StepCounter)
        requires
            old(self).wf(),
            old(self).alloc_ready(*old(a)),
            old(a).stage is Slot || old(a).stage is Claim,
            old(step).room(ACTION_ROOM as int),
        ensures
            forall|strong: bool|
                #![trigger old(self).alloc_acted(
                    *old(a),
                    *old(step),
                    *final(self),
                    *final(a),
                    *final(step),
                    strong,
                )]
                old(self).alloc_acted(
                    *old(a),
                    *old(step),
                    *final(self),
                    *final(a),
                    *final(step),
                    strong,
                ),
    {
        let ghost pre = *self;
        let tid: u64 = a.tid;
        let i: u64 = a.at;
        proof {
            pre.lemma_same_effects(pre, tid);
            assert(HG * SPAN_SIZE >= 1) by (nonlinear_arith)
                requires
                    HG >= 1,
            ;
            lemma_huge_class(a.layout, Self::granule_bytes());
        }
        if i >= 12 {
            a.stage = AllocStage::Done(0);
            return ;
        }
        proof {
            Self::lemma_larger_huge(a.layout, a.min, i / 4);
        }
        if let AllocStage::Claim(seen) = a.stage {
            let p: u64 = self.act_claim(i, seen, a.layout, tid, step);
            if p == 0 {
                a.at = i + 1;
                a.stage = AllocStage::Slot;
            } else {
                a.stage = AllocStage::Done(p);
            }
        } else {
            let class: usize = (i / 4) as usize;
            let index: usize = (i % 4) as usize;
            let state: u64 = self.huge.slots[class][index].state;
            assert(state == pre.slot(i as int / 4, i as int % 4).state);
            step.huge_slot_scans = step.huge_slot_scans + 1;
            if state == HUGE_SLOT_FREE || state == HUGE_SLOT_EMPTY {
                a.stage = AllocStage::Claim(state);
            } else {
                a.at = i + 1;
            }
        }
    }

    /// The deallocation is one that this state can go on with.
    pub open spec fn free_ready(self, a: PendingFree) -> bool {
        &&& a.tid < self.n()
        &&& match a.stage {
            FreeStage::Give => self.live().dom().contains(a.ptr) && self.live()[a.ptr] == a.layout,
            FreeStage::Claim(s) => {
                &&& Self::dispatch(a.layout) is Small
                &&& self.place().dom().contains(s)
                &&& self.units()[s].kind is Small
            },
            FreeStage::Done => true,
        }
    }

    /// The steps counted since `base` are few.
    pub open spec fn free_spent(a: PendingFree, base: StepCounter, now: StepCounter) -> bool {
        let local = StepCounter { local_steps: (base.local_steps + 1) as u64, ..base };
        let given = StepCounter {
            remote_steps: (base.remote_steps + 1) as u64,
            swap_ops: (base.swap_ops + 1) as u64,
            faa_ops: (base.faa_ops + 1) as u64,
            ..base
        };
        let claimed = StepCounter { cas_attempts: (given.cas_attempts + 1) as u64, ..given };
        match a.stage {
            FreeStage::Give => now == base,
            FreeStage::Claim(_) => now == given,
            FreeStage::Done => match Self::dispatch(a.layout) {
                Path::Small(_) => now == local || now == given || now == claimed,
                Path::Large => now == local,
                Path::Huge => {
                    &&& base.huge_slot_scans < now.huge_slot_scans <= base.huge_slot_scans + 12
                    &&& now == (StepCounter { huge_slot_scans: now.huge_slot_scans, ..base })
                },
            },
        }
    }

    /// What one action of a deallocation does at each stage, and where it
    /// leads.
    pub open spec fn free_effect(
        self,
        a: PendingFree,
        now: StepCounter,
        post: Self,
        b: PendingFree,
        then: StepCounter,
    ) -> bool {
        let local = StepCounter { local_steps: (now.local_steps + 1) as u64, ..now };
        let s = span_base(a.ptr);
        match a.stage {
            FreeStage::Give => match Self::dispatch(a.layout) {
                Path::Small(_) => if self.header(s).owner == a.tid {
                    &&& self.freed_local(post, s, a.ptr, a.tid)
                    &&& then == local
                    &&& b.stage is Done
                } else {
                    &&& self.remotely_given(post, s, a.ptr)
                    &&& then == (StepCounter {
                        remote_steps: (now.remote_steps + 1) as u64,
                        swap_ops: (now.swap_ops + 1) as u64,
                        faa_ops: (now.faa_ops + 1) as u64,
                        ..now
                    })
                    &&& b.stage == (if self.header(s).remote.free_count == 0 {
                        FreeStage::Claim(s)
                    } else {
                        FreeStage::Done
                    })
                },
                Path::Large => {
                    &&& self.freed_large(post, a.ptr, a.tid)
                    &&& then == local
                    &&& b.stage is Done
                },
                Path::Huge => {
                    &&& self.freed_huge(post, a.ptr, a.tid)
                    &&& self.lookup_count(a.ptr, now, then)
                    &&& b.stage is Done
                },
            },
            FreeStage::Claim(s) => {
                &&& self.span_claimed(post, s, a.tid, self.at(s, Place::Discarded))
                &&& then == (StepCounter { cas_attempts: (now.cas_attempts + 1) as u64, ..now })
                &&& b.stage is Done
            },
            FreeStage::Done => false,
        }
    }

    /// One action of a deallocation: what it does, and what it keeps whatever
    /// other threads did before it.
    pub open spec fn free_acted(
        self,
        a: PendingFree,
        now: StepCounter,
        post: Self,
        b: PendingFree,
        then: StepCounter,
    ) -> bool {
        &&& self.free_effect(a, now, post, b, then)
        &&& post.wf()
        &&& post.n() == self.n()
        &&& self.undisturbed(post, a.tid)
        &&& self.keeps_pieces(post)
        &&& !(b.stage is Claim) ==> self.keeps(post)
        &&& post.free_ready(b)
        &&& b == (PendingFree { stage: b.stage, ..a })
        &&& a.stage is Give ==> post.live() == self.live().remove(a.ptr)
        &&& a.stage is Claim ==> post.live() == self.live()
        &&& forall|base: StepCounter| #[trigger]
            Self::free_spent(a, base, now) ==> Self::free_spent(b, base, then)
    }

    /// Take one action of a deallocation. Other threads may act between its
    /// two actions.
    pub fn advance_free(&mut self, a: &mut PendingFree, step: &mut StepCounter)
        requires
            old(self).wf(),
            old(self).free_ready(*old(a)),
            !(old(a).stage is Done),
            old(step).room(if old(a).stage is Give { 12 } else { 1 }),
        ensures
            old(self).free_acted(*old(a), *old(step), *final(self), *final(a), *final(step)),
    {
        let ghost pre = *self;
        let tid: u64 = a.tid;
        if let FreeStage::Claim(s) = a.stage {
            let claimed: bool = self.claim_discarded(s, tid, step);
            a.stage = FreeStage::Done;
            proof {
                pre.lemma_claim_effects(*self, s, tid, claimed);
            }
            return ;
        }
        let token = ThreadToken { id: tid };
        match Self::small_class(a.layout) {
            None => {
                a.stage = FreeStage::Done;
                if a.layout.size() >= Self::huge_threshold() {
                    self.dealloc_huge_with_token_counted(a.ptr, a.layout, token, step);
                } else {
                    self.dealloc_large_with_token_counted(a.ptr, a.layout, token, step);
                }
            },
            Some(_) => {
                let s: u64 = span_from_ptr(a.ptr);
                let b: u64 = block_from_payload(a.ptr);
                proof {
                    reveal(WfSpanAllocator::assets_ok);
                    assert(pre.live_entry(a.ptr));
                    assert(pre.place().dom().contains(s));
                    pre.lemma_free_room(s);
                }
                if self.header_of(s).owner == tid {
                    a.stage = FreeStage::Done;
                    self.dealloc_local(s, b, tid, step);
                } else {
                    a.stage = if self.dealloc_remote(s, b, step) {
                        FreeStage::Claim(s)
                    } else {
                        FreeStage::Done
                    };
                    proof {
                        pre.lemma_given_effects(*self, s, b, tid);
                    }
                }
            },
        }
    }

    /// Start a deallocation of a live address.
    pub fn begin_free(&self, ptr: u64, layout: Layout, token: ThreadToken) -> (a: PendingFree)
        requires
            self.wf(),
            self.live().dom().contains(ptr),
            self.live()[ptr] == layout,
            token.id < self.n(),
        ensures
            self.free_ready(a),
            a == (PendingFree { ptr, layout, tid: token.id, stage: FreeStage::Give }),
    {
        PendingFree { ptr, layout, tid: token.id, stage: FreeStage::Give }
    }

    /// A deallocation in progress survives the actions of another thread that
    /// leave its allocation live.
    pub proof fn law_deallocation_survives_others(self, post: Self, t: u64, a: PendingFree)
        requires
            self.free_ready(a),
            self.undisturbed(post, t),
            a.stage is Give ==> post.live().dom().contains(a.ptr) && post.live()[a.ptr]
                == self.live()[a.ptr],
        ensures
            post.free_ready(a),
    {
    }

    /// Whatever other threads do, an allocation that ends with an address has
    /// one that was not live before its last action, is live afterwards, is
    /// aligned, and lies in the region with room for the request.
    pub proof fn law_contended_allocation_is_fresh(
        self,
        now: StepCounter,
        post: Self,
        a: PendingAlloc,
        b: PendingAlloc,
        then: StepCounter,
        strong: bool,
        p: u64,
    )
        requires
            self.alloc_acted(a, now, post, b, then, strong),
            b.stage == AllocStage::Done(p),
            p != 0,
        ensures
            !self.live().dom().contains(p),
            post.live() == self.live().insert(p, a.layout),
            p % a.layout.align == 0,
            post.pool.base <= p,
            p + a.layout.size <= post.pool.base + post.pool.count * SPAN_SIZE,
    {
        post.lemma_live_bounds(p);
    }

    /// Whatever other threads do, an allocation fails only where its last
    /// action finds the pool exhausted, or the last run class or the last huge
    /// slot passed.
    pub proof fn law_contended_failure_means_exhaustion(
        self,
        now: StepCounter,
        post: Self,
        a: PendingAlloc,
        b: PendingAlloc,
        then: StepCounter,
        strong: bool,
    )
        requires
            self.alloc_ready(a),
            self.alloc_acted(a, now, post, b, then, strong),
            b.stage == AllocStage::Done(0),
        ensures
            post.live() == self.live(),
            match a.stage {
                AllocStage::Carve => self.pool.next >= self.pool.count,
                AllocStage::Look => a.at == MAX_LARGE_RUN_CLASSES,
                AllocStage::Slot => a.at == 12,
                _ => false,
            },
    {
    }

    /// A deallocation takes at most two actions and few steps, whatever other
    /// threads do between them.
    pub proof fn law_contended_deallocation_steps_are_bounded(
        first: (Self, Self),
        second: (Self, Self),
        a: (PendingFree, PendingFree, PendingFree),
        step: (StepCounter, StepCounter),
    )
        requires
            a.0.stage is Give,
            first.0.free_acted(a.0, StepCounter::zero(), first.1, a.1, step.0),
            !(a.1.stage is Done) ==> second.0.free_acted(a.1, step.0, second.1, a.2, step.1),
        ensures
            ({
                let end = if a.1.stage is Done {
                    a.1
                } else {
                    a.2
                };
                let now = if a.1.stage is Done {
                    step.0
                } else {
                    step.1
                };
                &&& end.stage is Done
                &&& now.help_steps == 0 && now.query_steps == 0 && now.cas2_attempts == 0
                &&& now.blocks_scanned == 0 && now.large_class_steps == 0
                &&& match Self::dispatch(a.0.layout) {
                    Path::Small(_) => now.local_steps + now.remote_steps == 1 && now.swap_ops <= 1
                        && now.faa_ops <= 1 && now.cas_attempts <= 1 && now.huge_slot_scans == 0,
                    Path::Large => now.local_steps == 1 && now.cas_attempts == 0
                        && now.huge_slot_scans == 0,
                    Path::Huge => now.huge_slot_scans <= 12 && now.cas_attempts == 0,
                }
            }),
    {
        let zero = StepCounter::zero();
        assert(Self::free_spent(a.0, zero, zero));
        assert(Self::free_spent(a.1, zero, step.0));
    }

    /// The step bounds of a whole allocation hold whatever other threads do:
    /// however they act between its actions, it ends within a number of
    /// actions that depends on the number of threads alone, and when it has
    /// ended, the counts keep the bounds of its path. `before` and `after`
    /// are the states around each of its actions, `a` and `step` its own
    /// states and counts.
    pub proof fn law_contended_allocation_steps_are_bounded(
        before: Seq<Self>,
        after: Seq<Self>,
        a: Seq<PendingAlloc>,
        step: Seq<StepCounter>,
        strong: bool,
        n: int,
    )
        requires
            a.len() == before.len() + 1,
            a.len() == after.len() + 1,
            a.len() == step.len(),
            before.len() > 0,
            step[0] == StepCounter::zero(),
            Self::alloc_begun(a[0], n),
            1 <= n,
            forall|i: int|
                0 <= i < before.len() ==> (#[trigger] before[i]).n() == n && before[i].alloc_acted(
                    a[i],
                    step[i],
                    after[i],
                    a[i + 1],
                    step[i + 1],
                    strong,
                ),
        ensures
            before.len() <= 17 * (14 * n + 60) + 1,
            ({
                let end = a[a.len() - 1];
                let now = step[a.len() - 1];
                end.stage is Done ==> match Self::dispatch(a[0].layout) {
                    Path::Small(c) => now.within_bounds(
                        n,
                        HELP_BUDGET_H as int,
                        n,
                        span_blocks(class_size(c as int)),
                        LOCAL_SPAN_LIMIT_K as int,
                    ),
                    Path::Large => now.within_large_bounds(
                        n,
                        HELP_BUDGET_H as int,
                        n,
                        MAX_LARGE_RUN_CLASSES as int,
                    ),
                    Path::Huge => now.within_huge_bounds(
                        MAX_HUGE_RUN_CLASSES as int,
                        MAX_HUGE_RUNS_PER_CLASS as int,
                    ),
                }
            }),
    {
        let len = before.len() as int;
        Self::lemma_actions(before, after, a, step, strong, n, len);
        assert(before[len - 1].n() == n);
        let end = a[len];
        let now = step[len];
        let zero = StepCounter::zero();
        assert(HELP_BUDGET_H * n == n) by (nonlinear_arith)
            requires
                HELP_BUDGET_H == 1,
        ;
        if end.stage is Done {
            match Self::dispatch(a[0].layout) {
                Path::Small(_) => {
                    let m = end.blocks();
                    assert(m * (LOCAL_SPAN_LIMIT_K + 2) == (LOCAL_SPAN_LIMIT_K + 2) * m)
                        by (nonlinear_arith);
                },
                Path::Large => {
                    let i = choose|i: int|
                        0 <= i <= MAX_LARGE_RUN_CLASSES && #[trigger] large_cost(zero, now, i, n);
                    assert(i * (n + 1) <= 17 * (n + n + 1)) by (nonlinear_arith)
                        requires
                            0 <= i <= 17,
                            n >= 1,
                    ;
                    assert(i * n <= 17 * (n + n + 1)) by (nonlinear_arith)
                        requires
                            0 <= i <= 17,
                            n >= 1,
                    ;
                },
                Path::Huge => {},
            }
        }
    }

    /// What holds after `i` actions.
    proof fn lemma_actions(
        before: Seq<Self>,
        after: Seq<Self>,
        a: Seq<PendingAlloc>,
        step: Seq<StepCounter>,
        strong: bool,
        n: int,
        i: int,
    )
        requires
            a.len() == before.len() + 1,
            a.len() == after.len() + 1,
            a.len() == step.len(),
            Self::alloc_begun(a[0], n),
            0 <= i <= before.len(),
            forall|i: int|
                0 <= i < before.len() ==> (#[trigger] before[i]).n() == n && before[i].alloc_acted(
                    a[i],
                    step[i],
                    after[i],
                    a[i + 1],
                    step[i + 1],
                    strong,
                ),
        ensures
            Self::alloc_spent(a[i], step[0], step[i], n),
            a[i].rank(n) <= 17 * (14 * n + 60) + 1 - i,
            a[i].layout == a[0].layout,
            a[i].min == a[0].min,
        decreases i,
    {
        if i > 0 {
            Self::lemma_actions(before, after, a, step, strong, n, i - 1);
            assert(before[i - 1].n() == n);
        }
    }

    /// Turns end where an acquisition begins.
    proof fn lemma_begin_ask(a: PendingAlloc, b: PendingAlloc, now: StepCounter, n: int)
        requires
            a.stage is Turn,
            a.at <= LOCAL_SPAN_LIMIT_K + 1,
            a.blocks() >= 0,
            b == (PendingAlloc { began: Ghost(now), stage: b.stage, ..a }),
            b.stage matches AllocStage::Ask(q) && q.stage is Reclaim,
            n >= 1,
        ensures
            forall|base: StepCounter| #[trigger]
                Self::alloc_spent(a, base, now, n) ==> Self::alloc_spent(b, base, now, n),
            0 <= b.rank(n) < a.rank(n),
    {
        lemma_turns_bound(a.at as int, a.blocks());
    }
}

/// The blocks of some turns are no more than those of all.
proof fn lemma_turns_bound(i: int, m: int)
    requires
        0 <= i <= LOCAL_SPAN_LIMIT_K + 1,
        m >= 0,
    ensures
        0 <= i * m <= (LOCAL_SPAN_LIMIT_K + 1) * m,
        (LOCAL_SPAN_LIMIT_K + 1) * m + m == (LOCAL_SPAN_LIMIT_K + 2) * m,
{
    assert(0 <= i * m <= (LOCAL_SPAN_LIMIT_K + 1) * m) by (nonlinear_arith)
        requires
            0 <= i <= LOCAL_SPAN_LIMIT_K + 1,
            m >= 0,
    ;
    assert((LOCAL_SPAN_LIMIT_K + 1) * m + m == (LOCAL_SPAN_LIMIT_K + 2) * m) by (nonlinear_arith);
}

} // verus!
