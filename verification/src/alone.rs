//! Runs of actions while no other thread acts.
//!
//! Taken in a row, the actions of an allocation or a deallocation do what the
//! whole operation is said to do.

use crate::huge::huge_class_of;
use crate::large::{large_cost, run_class_of};
use crate::layout::Layout;
use crate::small::op_room;
use crate::span::span_base;
use crate::state::{Key, Lane, Path, WfSpanAllocator};
use crate::stats::StepCounter;
use crate::stepwise::{AllocStage, FreeStage, PendingAlloc, PendingFree};
use vstd::prelude::*;

verus! {

impl<const C: u64, const HG: u64> WfSpanAllocator<C, HG> {
    /// What an allocation of thread `tid` that has ended with `r` did on its
    /// path.
    pub(crate) open spec fn alloc_done(
        self,
        post: Self,
        layout: Layout,
        tid: u64,
        r: u64,
        base: StepCounter,
        step: StepCounter,
    ) -> bool {
        let nothing = post == self && r == 0 && step == base;
        match Self::dispatch(layout) {
            Path::Small(class) => self.small_done(
                post,
                Key { lane: Lane::Span, class, tid },
                layout,
                r,
                base,
                step,
            ),
            Path::Large => match run_class_of(layout) {
                Some(min) => self.large_done(post, tid, layout, min, r, base, step),
                None => nothing,
            },
            Path::Huge => match huge_class_of(layout, Self::granule_bytes()) {
                Some(_) => self.huge_done(post, tid, layout, r, base, step),
                None => nothing,
            },
        }
    }

    /// An allocation that has ended on its path is as whole operations are
    /// said to be.
    pub(crate) proof fn lemma_alloc_done(
        self,
        post: Self,
        layout: Layout,
        tid: u64,
        r: u64,
        base: StepCounter,
        step: StepCounter,
    )
        requires
            self.wf(),
            post.wf(),
            layout.valid(),
            tid < self.n(),
            self.alloc_done(post, layout, tid, r, base, step),
        ensures
            self.allocated(post, layout, tid, r),
            step == self.alloc_count(layout, tid, base),
            self.alloc_cost(layout, base, step),
    {
        self.lemma_same_effects(self, tid);
        assert(large_cost(base, base, 0, self.n()));
        if r != 0 {
            post.lemma_live_in_unit(r);
            post.lemma_live_bounds(r);
        }
        if self.joined() {
            self.lemma_alloc_stays_joined(post, layout, tid, r);
        }
    }

    /// What holds of an allocation that began in this state with the counts
    /// `base`, while no other thread acts.
    spec fn alloc_since(
        self,
        here: Self,
        a: PendingAlloc,
        base: StepCounter,
        step: StepCounter,
    ) -> bool {
        match Self::dispatch(a.layout) {
            Path::Small(_) => self.small_since(here, a, base, step),
            Path::Large => self.large_since(here, a, base, step),
            Path::Huge => self.huge_since(here, a, base, step),
        }
    }

    /// Single actions make up whole allocations: a run of actions of one
    /// allocation from its start to its end, in which no other thread acts,
    /// returns, changes and counts what `alloc_with_token_counted` does.
    /// `states` are the states before the first action and after each, `a` and
    /// `step` those of the allocation and its counts.
    pub proof fn law_uncontended_allocation(
        states: Seq<Self>,
        a: Seq<PendingAlloc>,
        step: Seq<StepCounter>,
        r: u64,
    )
        requires
            states.len() >= 1,
            a.len() == states.len(),
            step.len() == states.len(),
            states[0].wf(),
            states[0].alloc_ready(a[0]),
            (a[0].min, a[0].at, a[0].stage) == Self::alloc_start(a[0].layout),
            step[0].room(op_room(states[0].n())),
            forall|i: int|
                0 <= i < states.len() - 1 ==> (#[trigger] states[i]).alloc_acted(
                    a[i],
                    step[i],
                    states[i + 1],
                    a[i + 1],
                    step[i + 1],
                    true,
                ),
            a.last().stage == AllocStage::Done(r),
        ensures
            states[0].allocated(states.last(), a[0].layout, a[0].tid, r),
            step.last() == states[0].alloc_count(a[0].layout, a[0].tid, step[0]),
            states[0].alloc_cost(a[0].layout, step[0], step.last()),
    {
        let m = states.len() - 1;
        let pre = states[0];
        let base = step[0];
        if a[0].stage is Done {
            if m > 0 {
                assert(states[0].alloc_acted(a[0], step[0], states[1], a[1], step[1], true));
            }
        } else {
            match a[0].stage {
                AllocStage::Turn => pre.lemma_small_begins(a[0], base),
                AllocStage::Look => pre.lemma_large_begins(a[0], base),
                _ => pre.lemma_huge_begins(a[0], base),
            }
            Self::lemma_alloc_run(states, a, step, m);
            pre.lemma_path_ends(states[m], a[m], base, step[m]);
        }
        pre.lemma_alloc_done(states[m], a[0].layout, a[0].tid, r, base, step[m]);
    }

    /// What has been reached on a path holds of its end.
    proof fn lemma_path_ends(
        self,
        here: Self,
        a: PendingAlloc,
        base: StepCounter,
        step: StepCounter,
    )
        requires
            self.alloc_since(here, a, base, step),
        ensures
            a.stage matches AllocStage::Done(r) ==> match Self::dispatch(a.layout) {
                Path::Small(_) => self.small_done(
                    here,
                    Key { lane: Lane::Span, class: a.min, tid: a.tid },
                    a.layout,
                    r,
                    base,
                    step,
                ),
                Path::Large => self.large_done(here, a.tid, a.layout, a.min, r, base, step),
                Path::Huge => self.huge_done(here, a.tid, a.layout, r, base, step),
            },
    {
        match Self::dispatch(a.layout) {
            Path::Small(_) => self.lemma_small_ends(here, a, base, step),
            Path::Large => self.lemma_large_ends(here, a, base, step),
            Path::Huge => self.lemma_huge_ends(here, a, base, step),
        }
    }

    /// What holds after `i` actions of a run.
    proof fn lemma_alloc_run(
        states: Seq<Self>,
        a: Seq<PendingAlloc>,
        step: Seq<StepCounter>,
        i: int,
    )
        requires
            states.len() >= 1,
            a.len() == states.len(),
            step.len() == states.len(),
            0 <= i < states.len(),
            states[0].wf(),
            states[0].alloc_since(states[0], a[0], step[0], step[0]),
            forall|i: int|
                0 <= i < states.len() - 1 ==> (#[trigger] states[i]).alloc_acted(
                    a[i],
                    step[i],
                    states[i + 1],
                    a[i + 1],
                    step[i + 1],
                    true,
                ),
        ensures
            states[0].alloc_since(states[i], a[i], step[0], step[i]),
            states[i].wf(),
            a[i].same_request(a[0]),
        decreases i,
    {
        if i > 0 {
            let pre = states[0];
            let j = i - 1;
            Self::lemma_alloc_run(states, a, step, j);
            assert(states[j].alloc_acted(a[j], step[j], states[i], a[i], step[i], true));
            match Self::dispatch(a[0].layout) {
                Path::Small(_) => pre.lemma_small_goes_on(
                    states[j],
                    states[i],
                    (a[j], a[i]),
                    step[0],
                    (step[j], step[i]),
                ),
                Path::Large => pre.lemma_large_goes_on(
                    states[j],
                    states[i],
                    (a[j], a[i]),
                    step[0],
                    (step[j], step[i]),
                ),
                Path::Huge => pre.lemma_huge_goes_on(
                    states[j],
                    states[i],
                    (a[j], a[i]),
                    step[0],
                    (step[j], step[i]),
                ),
            }
        }
    }

    /// Single actions make up whole deallocations: the one or two actions of a
    /// deallocation, between which no other thread acts, change and count what
    /// `dealloc_with_token_counted` does.
    pub proof fn law_uncontended_deallocation(
        self,
        given: Self,
        post: Self,
        a: (PendingFree, PendingFree, PendingFree),
        step: (StepCounter, StepCounter, StepCounter),
    )
        requires
            self.wf(),
            self.free_ready(a.0),
            a.0.stage is Give,
            step.0.room(12),
            self.free_acted(a.0, step.0, given, a.1, step.1),
            if a.1.stage is Done {
                (post, a.2, step.2) == (given, a.1, step.1)
            } else {
                given.free_acted(a.1, step.1, post, a.2, step.2)
            },
        ensures
            a.2 == (PendingFree { stage: FreeStage::Done, ..a.0 }),
            self.deallocated(post, a.0.ptr, a.0.tid),
            self.dealloc_cost(a.0.ptr, a.0.tid, step.0, step.2),
    {
        let ptr = a.0.ptr;
        let tid = a.0.tid;
        let s = span_base(ptr);
        if Self::dispatch(a.0.layout) is Small {
            reveal(WfSpanAllocator::assets_ok);
            assert(self.live_entry(ptr));
            assert(self.place().dom().contains(s));
            self.lemma_free_room(s);
            if self.header(s).owner != tid {
                self.lemma_freed_remote(given, post, s, ptr, tid);
            }
        }
        if self.joined() {
            self.lemma_dealloc_stays_joined(post, ptr, tid);
        }
    }
}

} // verus!
