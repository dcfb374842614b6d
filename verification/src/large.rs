//! Large path: whole runs of contiguous spans.
//!
//! A request that fits no size class is served by a large run: `2^r`
//! contiguous spans carved from the same region as the small spans. The run's
//! base span carries a header, so free runs circulate through the same
//! private lists, public lists and help records as small spans.
//!
//! If class `k` has no free run, a whole run of a larger class may be used as
//! it is. A run keeps the class it was carved at forever; freeing it returns
//! it to the lists of that class.
//!
//! The deallocating thread becomes the owner of a freed run and keeps it or
//! publishes it.
//!
//! A run holds, from its base on: the header reserve, padding, the hidden
//! header of the allocation, and the aligned payload.

use crate::acquire::{loose, peer};
use crate::align::{
    ceil_log2, div_ceil, is_pow2, lemma_ceil_log2, lemma_ceil_log2_monotone, lemma_ceil_log2_unique,
    lemma_is_pow2_bounds, lemma_pow2_bounds, lemma_up, max, next_power_of_two, round_up, up,
};
use crate::atomic_backend::DefaultCas2Backend;
use crate::chain::cons;
use crate::config::{
    LARGE_LOCAL_RUN_LIMIT_K, MAX_LARGE_RUN_CLASSES, MAX_LARGE_SPANS, OWNER_PUBLIC,
    SPAN_HEADER_RESERVE, SPAN_SIZE,
};
use crate::heap::LocalSpanList;
use crate::layout::Layout;
use crate::memory::{LargeSlot, MemView, SpanMemory};
use crate::pagemap::FixedSpanPool;
use crate::protocol::Acquisition;
use crate::small::op_room;
use crate::span::SpanState;
use crate::state::{same_core, Key, Kind, Lane, Place, Unit, WfSpanAllocator};
use crate::stats::{bumped, AllocatorStats, StepCounter};
use crate::stepwise::{run_next, AllocStage, PendingAlloc, ACTION_ROOM};
use crate::thread::ThreadToken;
use vstd::arithmetic::power2::{lemma2_to64, lemma_pow2_adds, lemma_pow2_strictly_increases, pow2};
use vstd::bits::lemma_u64_shl_is_mul;
use vstd::prelude::*;

verus! {

/// Marks the hidden header of a large allocation: "WFLRUN1" in ASCII.
pub const LARGE_MAGIC: u64 = 0x5746_4C52_554E_3100;

/// Bytes of the hidden header.
pub const LARGE_HEADER_SIZE: u64 = 32;

/// Alignment of the hidden header.
pub const LARGE_HEADER_ALIGN: u64 = 8;

/// Hidden header placed immediately before every large payload.
#[derive(Clone, Copy)]
pub struct LargeAllocHeader {
    pub magic: u64,
    /// Base address of the run.
    pub run: u64,
    /// Class that the run was carved at.
    pub run_class: u64,
    /// Number of spans of the run.
    pub span_count: u64,
}

impl LargeAllocHeader {
    /// What a span holds before a payload was placed in it.
    pub fn blank() -> (r: Self)
        ensures
            r == (LargeAllocHeader { magic: 0, run: 0, run_class: 0, span_count: 0 }),
    {
        LargeAllocHeader { magic: 0, run: 0, run_class: 0, span_count: 0 }
    }
}

/// Alignment of a large payload.
pub open spec fn large_align(layout: Layout) -> int {
    if layout.align >= LARGE_HEADER_ALIGN {
        layout.align as int
    } else {
        LARGE_HEADER_ALIGN as int
    }
}

/// Bytes that a run must have to hold the header reserve, the hidden header,
/// and the aligned payload wherever the run lies.
pub open spec fn large_need(layout: Layout) -> int {
    SPAN_HEADER_RESERVE + LARGE_HEADER_SIZE + large_align(layout) - 1 + layout.size
}

/// The least run class whose runs have room for a request, if there is one.
pub open spec fn run_class_of(layout: Layout) -> Option<u64> {
    let class = ceil_log2((large_need(layout) + SPAN_SIZE - 1) / (SPAN_SIZE as int));
    if class < MAX_LARGE_RUN_CLASSES {
        Some(class as u64)
    } else {
        None
    }
}

/// Payload address of a request placed in the run at `run`.
pub open spec fn large_payload(run: u64, layout: Layout) -> int {
    up(run + SPAN_HEADER_RESERVE + LARGE_HEADER_SIZE, large_align(layout))
}

/// `run_class_of` picks the least class whose runs are large enough.
pub proof fn lemma_run_class(layout: Layout)
    requires
        layout.valid(),
    ensures
        run_class_of(layout) is Some <==> large_need(layout) <= MAX_LARGE_SPANS * SPAN_SIZE,
        run_class_of(layout) matches Some(c) ==> {
            &&& c < MAX_LARGE_RUN_CLASSES
            &&& large_need(layout) <= pow2(c as nat) * SPAN_SIZE
            &&& forall|d: nat| d < c ==> #[trigger] pow2(d) * SPAN_SIZE < large_need(layout)
        },
{
    let need = large_need(layout);
    let spans = (need + SPAN_SIZE - 1) / (SPAN_SIZE as int);
    lemma_is_pow2_bounds(layout.align);
    lemma2_to64();
    lemma_ceil_log2(spans);
    lemma_ceil_log2_unique(65536, 16);
    if spans <= 65536 {
        lemma_ceil_log2_monotone(spans, 65536);
    } else {
        if ceil_log2(spans) <= 16 {
            if ceil_log2(spans) < 16 {
                lemma_pow2_strictly_increases(ceil_log2(spans), 16);
            }
        }
    }
    assert forall|d: nat| d < ceil_log2(spans) implies #[trigger] pow2(d) * SPAN_SIZE < need by {
        assert(pow2(d) < spans);
    }
}

/// A payload placed in a run that is large enough lies inside the run, past
/// the header reserve and the hidden header, and is aligned.
pub proof fn lemma_large_payload(run: u64, class: u64, layout: Layout)
    requires
        layout.valid(),
        large_need(layout) <= pow2(class as nat) * SPAN_SIZE,
    ensures
        large_payload(run, layout) % (layout.align as int) == 0,
        run + SPAN_HEADER_RESERVE + LARGE_HEADER_SIZE <= large_payload(run, layout),
        large_payload(run, layout) + layout.size <= run + pow2(class as nat) * SPAN_SIZE,
        is_pow2(large_align(layout) as u64),
        large_payload(run, layout) < run + SPAN_HEADER_RESERVE + LARGE_HEADER_SIZE + large_align(
            layout,
        ),
{
    lemma_is_pow2_bounds(layout.align);
    lemma2_to64();
    assert(LARGE_HEADER_ALIGN == pow2(3));
    let a = large_align(layout);
    lemma_up(run + SPAN_HEADER_RESERVE + LARGE_HEADER_SIZE, a);
    crate::align::lemma_is_pow2_divides(layout.align, a as u64, large_payload(run, layout));
}

/// Spans in a run of `class`.
pub fn run_class_spans(class: u64) -> (r: u64)
    requires
        class < 64,
    ensures
        r == pow2(class as nat),
{
    proof {
        lemma_pow2_bounds(class as nat);
        lemma_u64_shl_is_mul(1, class);
    }
    1 << class
}

/// The low 64 bits of the size of a run of `class`.
pub open spec fn run_bytes(class: int) -> int {
    if class < 48 {
        pow2(class as nat) * SPAN_SIZE
    } else {
        0
    }
}

/// Bytes in a run of `class`. From class 48 on the size does not fit and its
/// low 64 bits are zero.
pub fn run_class_bytes(class: u64) -> (r: u64)
    requires
        class < 64,
    ensures
        r == run_bytes(class as int),
        class < 48 ==> r == pow2(class as nat) * SPAN_SIZE,
        class >= 48 ==> r == 0,
{
    proof {
        if class < 48 {
            lemma2_to64();
            lemma_pow2_adds(16, class as nat);
            lemma_pow2_bounds((class + 16) as nat);
            lemma_u64_shl_is_mul(65536, class);
        } else {
            assert(class >= 48 && class < 64 ==> 65536u64 << class == 0u64) by (bit_vector);
        }
    }
    SPAN_SIZE << class
}

/// Smallest run class whose run is guaranteed to hold the header reserve, the
/// hidden header and an aligned payload. `None` if the request needs more
/// than `MAX_LARGE_SPANS` spans. Alignments above `SPAN_SIZE` are honored by
/// slack.
pub fn run_class_for_layout(layout: Layout) -> (r: Option<u64>)
    requires
        layout.valid(),
    ensures
        r == run_class_of(layout),
{
    proof {
        lemma_is_pow2_bounds(layout.align);
        lemma_run_class(layout);
        lemma2_to64();
    }
    let align: u64 = max(layout.align(), LARGE_HEADER_ALIGN);
    let needed: u64 = SPAN_HEADER_RESERVE + LARGE_HEADER_SIZE + (align - 1) + layout.size();
    let needed_spans: u64 = div_ceil(needed, SPAN_SIZE);
    match next_power_of_two(needed_spans) {
        None => None,
        Some((k, spans)) => {
            proof {
                if k > 16 {
                    lemma_pow2_strictly_increases(16, k as nat);
                } else if k < 16 {
                    lemma_pow2_strictly_increases(k as nat, 16);
                }
            }
            if spans > MAX_LARGE_SPANS {
                None
            } else {
                Some(k)
            }
        },
    }
}

/// The hidden header of a payload in a run.
pub open spec fn hidden_header(run: u64, run_class: u64) -> LargeAllocHeader {
    LargeAllocHeader {
        magic: LARGE_MAGIC,
        run,
        run_class,
        span_count: pow2(run_class as nat) as u64,
    }
}

/// Write the hidden header of a request into a run of `run_class` and return
/// the payload address.
pub fn place_large_payload(mem: &mut SpanMemory, run: u64, run_class: u64, layout: Layout) -> (r:
    u64)
    requires
        old(mem).wf(),
        layout.valid(),
        run_class < MAX_LARGE_RUN_CLASSES,
        large_need(layout) <= pow2(run_class as nat) * SPAN_SIZE,
        old(mem)@.base <= run,
        run + pow2(run_class as nat) * SPAN_SIZE <= old(mem)@.end(),
    ensures
        r == large_payload(run, layout),
        r % layout.align == 0,
        run + SPAN_HEADER_RESERVE + LARGE_HEADER_SIZE <= r,
        r + layout.size <= run + pow2(run_class as nat) * SPAN_SIZE,
        final(mem).wf(),
        final(mem)@ == (MemView {
            larges: old(mem)@.larges.insert(
                old(mem)@.span_of((r - LARGE_HEADER_SIZE) as u64),
                LargeSlot {
                    at: (r - LARGE_HEADER_SIZE) as u64,
                    header: hidden_header(run, run_class),
                },
            ),
            ..old(mem)@
        }),
{
    proof {
        mem.lemma_view();
        lemma_large_payload(run, run_class, layout);
        lemma_is_pow2_bounds(layout.align);
        lemma_pow2_bounds(run_class as nat);
    }
    let align: u64 = max(layout.align(), LARGE_HEADER_ALIGN);
    let payload: u64 = round_up(run + SPAN_HEADER_RESERVE + LARGE_HEADER_SIZE, align);
    let at: u64 = payload - LARGE_HEADER_SIZE;
    let span: u64 = mem.span_of(at);
    proof {
        mem.lemma_view();
    }
    let header = LargeAllocHeader {
        magic: LARGE_MAGIC,
        run,
        run_class,
        span_count: run_class_spans(run_class),
    };
    mem.set_large(span, LargeSlot { at, header });
    payload
}

/// Steps of one large allocation that looked at `i` classes with `n` threads.
pub open spec fn large_cost(base: StepCounter, now: StepCounter, i: int, n: int) -> bool {
    let dh = now.help_steps - base.help_steps;
    let dq = now.query_steps - base.query_steps;
    &&& now.large_class_steps == base.large_class_steps + i
    &&& 0 <= dh <= i * (n + 1)
    &&& 0 <= dq <= i * n
    &&& 0 <= now.cas2_attempts - base.cas2_attempts <= dh + dq
    &&& 0 <= now.cas_attempts - base.cas_attempts <= dh + dq + i + 1
    &&& 0 <= now.swap_ops - base.swap_ops <= dq + 2 * i
    &&& 0 <= now.faa_ops - base.faa_ops <= 1
    &&& now.local_steps == base.local_steps
    &&& now.remote_steps == base.remote_steps
    &&& now.blocks_scanned == base.blocks_scanned
    &&& now.huge_slot_scans == base.huge_slot_scans
}

/// The steps of one more class.
pub(crate) proof fn lemma_large_cost(i: int, n: int)
    requires
        0 <= i < MAX_LARGE_RUN_CLASSES,
        1 <= n,
    ensures
        (i + 1) * (n + 1) == i * (n + 1) + n + 1,
        (i + 1) * n == i * n + n,
        0 <= i * (n + 1) <= 17 * n + 17,
        0 <= i * n <= 17 * n,
{
    assert((i + 1) * (n + 1) == i * (n + 1) + n + 1) by (nonlinear_arith);
    assert((i + 1) * n == i * n + n) by (nonlinear_arith);
    assert(0 <= i * (n + 1) <= 17 * n + 17) by (nonlinear_arith)
        requires
            0 <= i < 17,
            1 <= n,
    ;
    assert(0 <= i * n <= 17 * n) by (nonlinear_arith)
        requires
            0 <= i < 17,
            1 <= n,
    ;
}

/// The lists and the record of a thread for a run class.
pub open spec fn run_key(tid: u64, class: int) -> Key {
    Key { lane: Lane::Run, class: class as u64, tid }
}

impl<const C: u64, const HG: u64> WfSpanAllocator<C, HG> {
    /// The run that a large allocation uses, looking at the classes from
    /// `class` on: one of the private list, else one that an acquisition
    /// gives, else, in the least class `min` that fits, a fresh one; and 0 if
    /// no class has one.
    pub open spec fn large_source(self, tid: u64, class: int, min: int) -> u64
        decreases MAX_LARGE_RUN_CLASSES - class,
    {
        let k = run_key(tid, class);
        if class >= MAX_LARGE_RUN_CLASSES {
            0
        } else if self.local(k).seq().len() > 0 {
            self.local(k).seq()[0]
        } else if self.acquisition(k).result != 0 {
            self.acquisition(k).result
        } else if class == min && self.pool.next + pow2(class as nat) <= self.pool.count {
            self.frontier() as u64
        } else {
            self.large_source(tid, class + 1, min)
        }
    }

    /// The run class at which the search of a large allocation ends, looking
    /// at the classes from `class` on; the number of classes if it finds no
    /// run.
    pub open spec fn large_stop(self, tid: u64, class: int, min: int) -> int
        decreases MAX_LARGE_RUN_CLASSES - class,
    {
        let k = run_key(tid, class);
        if class >= MAX_LARGE_RUN_CLASSES {
            MAX_LARGE_RUN_CLASSES as int
        } else if self.local(k).seq().len() > 0 || self.acquisition(k).result != 0 || (class == min
            && self.pool.next + pow2(class as nat) <= self.pool.count) {
            class
        } else {
            self.large_stop(tid, class + 1, min)
        }
    }

    /// What a large allocation of thread `tid` changes, where `min` is the
    /// least class that fits and `p` the payload.
    ///
    /// The thread asks the public lists of every class that it passes, and of
    /// the last one unless its private list has a run. It takes one run: the
    /// first of the private list, the one that the last acquisition gave, or
    /// a fresh one.
    pub open spec fn large_effects(self, post: Self, tid: u64, min: int, p: u64) -> bool {
        let c = self.large_stop(tid, min, min);
        let k = run_key(tid, c);
        let run = self.large_source(tid, min, min);
        let found = c < MAX_LARGE_RUN_CLASSES;
        let listed = found && self.local(k).seq().len() > 0;
        let given = found && !listed && self.acquisition(k).result != 0;
        let fresh = found && !listed && !given;
        let asked = if found && !listed {
            c + 1
        } else {
            c
        };
        &&& self.lower_classes_only(post, min, asked)
        &&& forall|j: int| min <= j < asked ==> self.asked(post, #[trigger] run_key(tid, j))
        &&& self.locals_but(post, k)
        &&& found ==> post.local(k).seq() == (if listed {
            self.local(k).seq().drop_first()
        } else {
            self.local(k).seq()
        })
        &&& post.pool == (if fresh {
            FixedSpanPool { next: (self.pool.next + pow2(min as nat)) as u64, ..self.pool }
        } else {
            self.pool
        })
        &&& post.units() == (if fresh {
            self.units().insert(run, Unit { kind: Kind::Run, spans: pow2(min as nat) })
        } else {
            self.units()
        })
        &&& found ==> post.at(run, Place::Live(p)) && post.header(run).owner == tid
            && post.header(run).state == SpanState::RunAllocated
        &&& self.other_states_stay(post, run)
        &&& forall|x: u64| #[trigger]
            self.place().dom().contains(x) && x != run ==> post.place()[x] == self.place()[x] || (
            loose(self.place()[x]) && loose(post.place()[x]))
        &&& post.mem@.links == self.mem@.links
        &&& forall|x: u64| #[trigger]
            self.place().dom().contains(x) ==> same_core(self.header(x), post.header(x))
        &&& post.stats == (if given {
            self.stats_after(k, run)
        } else if fresh {
            self.stats.runs_carved()
        } else {
            self.stats
        })
    }

    /// The step counts after a large allocation looked at the classes from
    /// `class` on: one class step each, an acquisition where the private list
    /// is empty, and in the least class `min` a request to the pool where the
    /// acquisition gave nothing.
    pub open spec fn large_count(
        self,
        tid: u64,
        class: int,
        min: int,
        step: StepCounter,
    ) -> StepCounter
        decreases MAX_LARGE_RUN_CLASSES - class,
    {
        let k = run_key(tid, class);
        let looked = StepCounter { large_class_steps: (step.large_class_steps + 1) as u64, ..step };
        let asked = self.acquire_count(k, looked);
        let tried = if class == min {
            self.pool.run_count(pow2(class as nat) as int, asked)
        } else {
            asked
        };
        if class >= MAX_LARGE_RUN_CLASSES {
            step
        } else if self.local(k).seq().len() > 0 {
            looked
        } else if self.acquisition(k).result != 0 {
            asked
        } else if class == min && self.pool.next + pow2(class as nat) <= self.pool.count {
            tried
        } else {
            self.large_count(tid, class + 1, min, tried)
        }
    }

    /// The step counts after a large allocation.
    pub open spec fn large_steps(
        self,
        tid: u64,
        layout: Layout,
        step: StepCounter,
    ) -> StepCounter {
        match run_class_of(layout) {
            Some(min) => self.large_count(tid, min as int, min as int, step),
            None => step,
        }
    }

    /// What the large path returns for a request of thread `tid`.
    pub open spec fn large_result(self, tid: u64, layout: Layout) -> u64 {
        match run_class_of(layout) {
            Some(min) => {
                let run = self.large_source(tid, min as int, min as int);
                if run == 0 {
                    0
                } else {
                    large_payload(run, layout) as u64
                }
            },
            None => 0,
        }
    }

    /// No public list, record or position but those of the run classes from
    /// `min` to below `class` changed.
    pub open spec fn lower_classes_only(self, post: Self, min: int, class: int) -> bool {
        forall|j: Key| #[trigger]
            self.valid(j) && !(j.lane == Lane::Run && min <= j.class < class) ==> post.public(j)
                == self.public(j) && post.record(j) == self.record(j) && post.query(j)
                == self.query(j) && post.helping(j) == self.helping(j)
    }

    /// An acquisition depends on nothing but its own class.
    proof fn lemma_acquisition_frame(self, post: Self, k: Key, min: int)
        requires
            self.shape(),
            self.valid(k),
            k.lane == Lane::Run,
            post.n() == self.n(),
            self.lower_classes_only(post, min, k.class as int),
        ensures
            post.acquisition(k) == self.acquisition(k),
            post.word(k) == self.word(k),
            forall|step: StepCounter| #[trigger]
                post.acquire_count(k, step) == self.acquire_count(k, step),
    {
        assert forall|u: int| 0 <= u < self.n() implies #[trigger] post.board(k).lists[u]
            == self.board(k).lists[u] by {
            assert(self.valid(peer(k, u)));
        }
        assert forall|u: int| 0 <= u < self.n() implies #[trigger] post.board(k).words[u]
            == self.board(k).words[u] by {
            assert(self.valid(peer(k, u)));
        }
        assert(post.board(k).lists =~= self.board(k).lists);
        assert(post.board(k).words =~= self.board(k).words);
    }

    /// What acquisitions of lower classes left stays while those classes do.
    proof fn lemma_asked_before(self, mid: Self, post: Self, tid: u64, min: int, class: int)
        requires
            self.shape(),
            tid < self.n(),
            0 <= min,
            class <= MAX_LARGE_RUN_CLASSES,
            mid.n() == self.n(),
            post.n() == self.n(),
            forall|j: int| min <= j < class ==> self.asked(mid, #[trigger] run_key(tid, j)),
            forall|j: Key| #[trigger]
                mid.valid(j) && j.lane == Lane::Run && j.class < class ==> {
                    &&& post.public(j) == mid.public(j)
                    &&& post.record(j) == mid.record(j)
                    &&& post.query(j) == mid.query(j)
                    &&& post.helping(j) == mid.helping(j)
                },
        ensures
            forall|j: int| min <= j < class ==> self.asked(post, #[trigger] run_key(tid, j)),
    {
        assert forall|j: int| min <= j < class implies self.asked(
            post,
            #[trigger] run_key(tid, j),
        ) by {
            self.lemma_asked_stays(mid, post, run_key(tid, j));
        }
    }

    /// Handing out or taking back one run disturbs no other thread and keeps
    /// what is kept forever.
    pub(crate) proof fn lemma_only_run_effects(self, post: Self, r: u64, t: u64)
        requires
            self.wf(),
            post.wf(),
            self.place().dom().contains(r),
            self.place()[r] == Place::Held(t) || self.place()[r] is Live,
            !(post.place()[r] is Discarded),
            self.units()[r].kind is Run,
            self.only_run(post, r),
        ensures
            self.undisturbed(post, t),
            self.keeps(post),
    {
    }

    /// A class that is not below the least one that fits has room.
    pub(crate) proof fn lemma_larger_class(layout: Layout, min: u64, class: u64)
        requires
            layout.valid(),
            run_class_of(layout) == Some(min),
            min <= class,
        ensures
            large_need(layout) <= pow2(class as nat) * SPAN_SIZE,
    {
        lemma_run_class(layout);
        if min < class {
            lemma_pow2_strictly_increases(min as nat, class as nat);
        }
        assert(pow2(min as nat) * SPAN_SIZE <= pow2(class as nat) * SPAN_SIZE) by (nonlinear_arith)
            requires
                pow2(min as nat) <= pow2(class as nat),
        ;
    }

    /// The run at `run` was handed out to thread `tid` for a request, with its
    /// payload at `p`.
    pub open spec fn run_handed(
        self,
        post: Self,
        run: u64,
        layout: Layout,
        tid: u64,
        p: u64,
    ) -> bool {
        &&& p == large_payload(run, layout)
        &&& p != 0
        &&& !self.live().dom().contains(p)
        &&& post.live() == self.live().insert(p, layout)
        &&& post.place() == self.place().insert(run, Place::Live(p))
        &&& post.header(run).owner == tid
        &&& post.header(run).state == SpanState::RunAllocated
        &&& self.other_states_stay(post, run)
        &&& self.same_publics(post)
        &&& self.same_records(post)
        &&& self.same_cursors(post)
        &&& post.huge == self.huge
        &&& post.mem@.links == self.mem@.links
        &&& forall|x: u64| #[trigger]
            self.place().dom().contains(x) ==> same_core(self.header(x), post.header(x))
    }

    /// The first run of the private list of `k` was handed out.
    pub open spec fn run_listed(self, post: Self, k: Key, layout: Layout, p: u64) -> bool {
        &&& self.run_handed(post, self.local(k).seq()[0], layout, k.tid, p)
        &&& self.local(k).seq()[0] != 0
        &&& self.locals_but(post, k)
        &&& post.local(k).seq() == self.local(k).seq().drop_first()
        &&& post.pool == self.pool
        &&& post.units() == self.units()
        &&& post.stats == self.stats
    }

    /// Hand out the first run of a private list.
    pub(crate) fn act_run_local(&mut self, k: Key, layout: Layout) -> (p: u64)
        requires
            old(self).wf(),
            old(self).valid(k),
            k.lane == Lane::Run,
            old(self).local(k).seq().len() > 0,
            layout.valid(),
            Self::dispatch(layout) is Large,
            large_need(layout) <= pow2(k.class as nat) * SPAN_SIZE,
        ensures
            final(self).wf(),
            old(self).run_listed(*final(self), k, layout, p),
            old(self).keeps(*final(self)),
            old(self).undisturbed(*final(self), k.tid),
    {
        let ghost pre = *self;
        let tid: u64 = k.tid;
        proof {
            reveal(WfSpanAllocator::order_ok);
            assert(pre.local_ok(k));
            assert(pre.at(pre.local(k).seq()[0], Place::Local(k)));
            assert(pre.place_ok(pre.local(k).seq()[0]));
            pre.mem.lemma_view();
            pre.lemma_span_address(pre.local(k).seq()[0]);
        }
        let run: u64 = self.take_front(k);
        let ghost held = *self;
        proof {
            pre.lemma_moved_effects(held, run, Place::Held(tid), tid);
        }
        let p: u64 = self.finish_large(run, layout, Ghost(tid));
        proof {
            broadcast use LocalSpanList::lemma_of;

            pre.lemma_placed();
            held.lemma_placed();
            held.lemma_only_run_effects(*self, run, tid);
            pre.lemma_undisturbed_twice(held, *self, tid);
            pre.lemma_keeps_twice(held, *self);
            pre.lemma_inert_cores(held);
            assert(forall|j: Key| #[trigger] pre.valid(j) ==> held.valid(j));
            assert(self.place() =~= pre.place().insert(run, Place::Live(p)));
        }
        p
    }

    /// An acquired run was handed out.
    pub open spec fn run_taken(self, post: Self, k: Key, run: u64, layout: Layout, p: u64) -> bool {
        &&& self.run_handed(post, run, layout, k.tid, p)
        &&& self.same_locals(post)
        &&& post.pool == self.pool
        &&& post.units() == self.units()
        &&& post.stats == self.stats
    }

    /// Own an acquired run and hand it out.
    pub(crate) fn act_run_take(&mut self, k: Key, run: u64, layout: Layout) -> (p: u64)
        requires
            old(self).wf(),
            k.lane == Lane::Run,
            old(self).in_hand(run, k),
            layout.valid(),
            Self::dispatch(layout) is Large,
            large_need(layout) <= pow2(k.class as nat) * SPAN_SIZE,
        ensures
            final(self).wf(),
            old(self).run_taken(*final(self), k, run, layout, p),
            old(self).keeps(*final(self)),
            old(self).undisturbed(*final(self), k.tid),
    {
        let ghost pre = *self;
        let tid: u64 = k.tid;
        self.stamp(run, tid, SpanState::RunAllocated, Ghost(Place::Held(tid)));
        let ghost held = *self;
        proof {
            pre.lemma_moved_effects(held, run, Place::Held(tid), tid);
        }
        let p: u64 = self.finish_large(run, layout, Ghost(tid));
        proof {
            pre.lemma_placed();
            held.lemma_placed();
            held.lemma_only_run_effects(*self, run, tid);
            pre.lemma_undisturbed_twice(held, *self, tid);
            pre.lemma_keeps_twice(held, *self);
            pre.lemma_inert_cores(held);
            assert(forall|j: Key| #[trigger] pre.valid(j) ==> held.valid(j));
            assert(self.place() =~= pre.place().insert(run, Place::Live(p)));
        }
        p
    }

    /// A run of the class of `k` was carved and handed out; or it does not
    /// fit, and nothing changed.
    pub open spec fn run_carved(self, post: Self, k: Key, layout: Layout, p: u64) -> bool {
        let run = self.frontier() as u64;
        let spans = pow2(k.class as nat);
        if self.pool.next + spans <= self.pool.count {
            &&& self.run_handed(post, run, layout, k.tid, p)
            &&& run != 0
            &&& self.same_locals(post)
            &&& !self.place().dom().contains(run)
            &&& post.pool == (FixedSpanPool {
                next: (self.pool.next + spans) as u64,
                ..self.pool
            })
            &&& post.units() == self.units().insert(run, Unit { kind: Kind::Run, spans })
            &&& post.stats == self.stats.runs_carved()
        } else {
            p == 0 && post == self
        }
    }

    /// Carve a run and hand it out.
    pub(crate) fn act_run_carve(&mut self, k: Key, layout: Layout, step: &mut StepCounter) -> (p: u64)
        requires
            old(self).wf(),
            old(self).valid(k),
            k.lane == Lane::Run,
            layout.valid(),
            Self::dispatch(layout) is Large,
            large_need(layout) <= pow2(k.class as nat) * SPAN_SIZE,
            old(step).room(1),
        ensures
            final(self).wf(),
            old(self).run_carved(*final(self), k, layout, p),
            *final(step) == old(self).pool.run_count(pow2(k.class as nat) as int, *old(step)),
            old(self).keeps(*final(self)),
            old(self).undisturbed(*final(self), k.tid),
    {
        let ghost pre = *self;
        let tid: u64 = k.tid;
        let run: u64 = self.carve_run(k.class, tid, step);
        let ghost fresh = *self;
        if run == 0 {
            proof {
                pre.lemma_order_same_effects(fresh, tid);
            }
            return 0;
        }
        proof {
            vstd::arithmetic::power2::lemma_pow2_pos(k.class as nat);
            pre.lemma_frontier(pow2(k.class as nat) as int);
            pre.lemma_carved_effects(
                fresh,
                run,
                Unit { kind: Kind::Run, spans: pow2(k.class as nat) },
                tid,
            );
        }
        let p: u64 = self.finish_large(run, layout, Ghost(tid));
        proof {
            fresh.lemma_placed();
            fresh.lemma_only_run_effects(*self, run, tid);
            pre.lemma_undisturbed_twice(fresh, *self, tid);
            pre.lemma_keeps_twice(fresh, *self);
            assert(forall|j: Key| #[trigger] pre.valid(j) ==> fresh.valid(j));
            assert(self.place() =~= pre.place().insert(run, Place::Live(p)));
        }
        p
    }

    /// What a large allocation that has ended with `r` returned, changed and
    /// counted.
    pub open spec fn large_done(
        self,
        post: Self,
        tid: u64,
        layout: Layout,
        min: u64,
        r: u64,
        base: StepCounter,
        step: StepCounter,
    ) -> bool {
        &&& r == self.large_result(tid, layout)
        &&& r != 0 ==> !self.live().dom().contains(r) && post.live() == self.live().insert(
            r,
            layout,
        )
        &&& r == 0 ==> post.live() == self.live()
        &&& self.keeps(post)
        &&& self.undisturbed(post, tid)
        &&& post.huge == self.huge
        &&& self.large_effects(post, tid, min as int, r)
        &&& exists|i: int|
            0 <= i <= MAX_LARGE_RUN_CLASSES && #[trigger] large_cost(base, step, i, self.n())
        &&& step == self.large_steps(tid, layout, base)
    }

    /// What holds when a large allocation that began in this state looks at
    /// the run class `class`, while no other thread acts.
    spec fn looked_since(
        self,
        here: Self,
        tid: u64,
        min: u64,
        class: u64,
        base: StepCounter,
        step: StepCounter,
    ) -> bool {
        &&& here.wf()
        &&& self.inert(here)
        &&& self.same_states(here)
        &&& here.stats == self.stats
        &&& self.same_locals(here)
        &&& self.undisturbed(here, tid)
        &&& self.keeps(here)
        &&& self.lower_classes_only(here, min as int, class as int)
        &&& self.large_source(tid, min as int, min as int) == self.large_source(
            tid,
            class as int,
            min as int,
        )
        &&& self.large_stop(tid, min as int, min as int) == self.large_stop(
            tid,
            class as int,
            min as int,
        )
        &&& forall|j: int| min <= j < class ==> self.asked(here, #[trigger] run_key(tid, j))
        &&& self.settled(here)
        &&& class > min ==> self.pool.next + pow2(min as nat) > self.pool.count
        &&& large_cost(base, step, class - min, self.n())
        &&& self.large_count(tid, min as int, min as int, base) == self.large_count(
            tid,
            class as int,
            min as int,
            step,
        )
        &&& class == min ==> step == base
    }

    /// The step counts after a look at one more run class.
    spec fn look_count(step: StepCounter) -> StepCounter {
        StepCounter { large_class_steps: (step.large_class_steps + 1) as u64, ..step }
    }

    /// The private list of a run class is empty, and the public lists were
    /// asked.
    spec fn run_asked(
        self,
        before: Self,
        now: StepCounter,
        here: Self,
        a: PendingAlloc,
        base: StepCounter,
        step: StepCounter,
    ) -> bool {
        let k = Key { lane: Lane::Run, class: a.at, tid: a.tid };
        &&& self.looked_since(before, a.tid, a.min, a.at, base, now)
        &&& before.local(k).seq().len() == 0
        &&& before.acquisition_ended(here, k, Self::look_count(now), step)
    }

    /// What holds of a large allocation that began in this state with the
    /// counts `base`, while no other thread acts.
    pub closed spec fn large_since(
        self,
        here: Self,
        a: PendingAlloc,
        base: StepCounter,
        step: StepCounter,
    ) -> bool {
        let k = Key { lane: Lane::Run, class: a.at, tid: a.tid };
        &&& self.wf()
        &&& a.tid < self.n()
        &&& run_class_of(a.layout) == Some(a.min)
        &&& a.layout.valid()
        &&& Self::dispatch(a.layout) is Large
        &&& here.wf()
        &&& here.n() == self.n()
        &&& here.alloc_ready(a)
        &&& base.room(op_room(self.n()))
        &&& match a.stage {
            AllocStage::Look => self.looked_since(here, a.tid, a.min, a.at, base, step),
            AllocStage::RunAsk(q) => exists|before: Self, now: StepCounter|
                #[trigger] self.looked_since(before, a.tid, a.min, a.at, base, now) && before.local(
                    k,
                ).seq().len() == 0 && before.acquiring_since(
                    here,
                    k,
                    q,
                    Self::look_count(now),
                    step,
                    true,
                ),
            AllocStage::RunTake(run) => exists|before: Self, now: StepCounter|
                #[trigger] self.run_asked(before, now, here, a, base, step) && run
                    == before.acquisition(k).result,
            AllocStage::RunCarve => a.at == a.min && exists|before: Self, now: StepCounter|
                #[trigger] self.run_asked(before, now, here, a, base, step) && before.acquisition(
                    k,
                ).result == 0,
            AllocStage::Done(r) => self.large_done(here, a.tid, a.layout, a.min, r, base, step),
            _ => false,
        }
    }

    /// A large allocation begins.
    pub(crate) proof fn lemma_large_begins(self, a: PendingAlloc, base: StepCounter)
        requires
            self.wf(),
            self.alloc_ready(a),
            a.stage is Look,
            a.at == a.min,
            base.room(op_room(self.n())),
        ensures
            self.large_since(self, a, base, base),
    {
        lemma_run_class(a.layout);
        self.lemma_same_effects(self, a.tid);
        assert(large_cost(base, base, 0, self.n()));
    }

    /// A large allocation has room for its next action.
    pub(crate) proof fn lemma_large_room(
        self,
        here: Self,
        a: PendingAlloc,
        base: StepCounter,
        step: StepCounter,
    )
        requires
            self.large_since(here, a, base, step),
            !(a.stage is Done),
        ensures
            step.room(ACTION_ROOM as int),
            here.wf(),
            here.alloc_ready(a),
    {
        lemma_run_class(a.layout);
        if a.at < MAX_LARGE_RUN_CLASSES {
            lemma_large_cost(a.at - a.min, self.n());
        } else {
            lemma_large_cost(a.at - a.min - 1, self.n());
        }
    }

    /// What asking the public lists of one more run class did.
    proof fn lemma_run_asked(
        self,
        before: Self,
        now: StepCounter,
        here: Self,
        a: PendingAlloc,
        base: StepCounter,
        step: StepCounter,
    )
        requires
            self.wf(),
            a.tid < self.n(),
            run_class_of(a.layout) == Some(a.min),
            a.min <= a.at < MAX_LARGE_RUN_CLASSES,
            base.room(op_room(self.n())),
            self.run_asked(before, now, here, a, base, step),
        ensures
            ({
                let k = Key { lane: Lane::Run, class: a.at, tid: a.tid };
                &&& self.local(k).seq().len() == 0
                &&& before.acquisition(k) == self.acquisition(k)
                &&& before.acquire_count(k, Self::look_count(now)) == self.acquire_count(
                    k,
                    Self::look_count(now),
                )
                &&& self.undisturbed(here, a.tid)
                &&& self.keeps(here)
                &&& large_cost(base, step, a.at - a.min + 1, self.n())
                &&& self.inert(here)
                &&& self.same_states(here)
                &&& self.same_locals(here)
                &&& self.lower_classes_only(here, a.min as int, a.at + 1)
                &&& self.settled(here)
                &&& forall|j: int|
                    a.min <= j < a.at + 1 ==> self.asked(here, #[trigger] run_key(a.tid, j))
            }),
    {
        let k = Key { lane: Lane::Run, class: a.at, tid: a.tid };
        let min = a.min as int;
        let class = a.at as int;
        lemma_large_cost(class - min, self.n());
        assert(k == run_key(a.tid, class));
        assert(self.valid(k));
        self.lemma_acquisition_frame(before, k, min);
        before.lemma_inert_keeps(here);
        self.lemma_undisturbed_twice(before, here, a.tid);
        self.lemma_keeps_twice(before, here);
        assert(forall|j: Key| #[trigger] self.valid(j) ==> before.valid(j));
        assert(self.asked(here, k));
        self.lemma_asked_before(before, here, a.tid, min, class);
        assert(forall|x: u64| #[trigger]
            self.place().dom().contains(x) ==> before.place().dom().contains(x));
        assert forall|x: u64| #[trigger] self.mem@.headers.dom().contains(x) implies same_core(
            self.header(x),
            here.header(x),
        ) by {
            assert(before.mem@.headers.dom().contains(x));
        }
    }

    /// A large allocation goes on.
    #[verifier::rlimit(80)]
    #[verifier::spinoff_prover]
    pub(crate) proof fn lemma_large_goes_on(
        self,
        here: Self,
        post: Self,
        a: (PendingAlloc, PendingAlloc),
        base: StepCounter,
        step: (StepCounter, StepCounter),
    )
        requires
            self.large_since(here, a.0, base, step.0),
            !(a.0.stage is Done),
            here.alloc_acted(a.0, step.0, post, a.1, step.1, true),
        ensures
            self.large_since(post, a.1, base, step.1),
    {
        let n = self.n();
        let tid = a.0.tid;
        let min = a.0.min as int;
        let class = a.0.at as int;
        let k = a.0.key();
        assert(k == Key { lane: Lane::Run, class: a.0.at, tid });
        lemma_run_class(a.0.layout);
        self.lemma_placed();
        here.lemma_placed();
        if class >= MAX_LARGE_RUN_CLASSES {
            self.lemma_inert_cores(here);
            return ;
        }
        lemma_large_cost(class - min, n);
        assert(k == run_key(tid, class));
        assert(self.valid(k));
        match a.0.stage {
            AllocStage::Look => {
                self.lemma_acquisition_frame(here, k, min);
                assert(forall|j: Key| #[trigger] self.valid(j) ==> here.valid(j));
                if let AllocStage::Done(p) = a.1.stage {
                    self.lemma_undisturbed_twice(here, post, tid);
                    self.lemma_keeps_twice(here, post);
                    assert(large_cost(base, step.1, class - min + 1, n));
                    self.lemma_inert_cores(here);
                    assert(forall|x: u64| #[trigger]
                        self.place().dom().contains(x) ==> here.place().dom().contains(x));
                    self.lemma_asked_before(here, post, tid, min, class);
                    assert(self.large_effects(post, tid, min, p));
                } else {
                    here.lemma_acquire_begins(k, step.1, true);
                    assert(self.looked_since(here, tid, a.0.min, a.0.at, base, step.0));
                }
            },
            AllocStage::RunAsk(q) => {
                let (before, now) = choose|before: Self, now: StepCounter|
                    #[trigger] self.looked_since(before, tid, a.0.min, a.0.at, base, now)
                        && before.local(k).seq().len() == 0 && before.acquiring_since(
                        here,
                        k,
                        q,
                        Self::look_count(now),
                        step.0,
                        true,
                    );
                let q2 = choose|q2: Acquisition|
                    #[trigger] here.advanced(q, step.0, post, q2, step.1, true) && (
                    a.1.at,
                    a.1.stage,
                    ) == run_next(a.0, q2);
                before.lemma_acquire_goes_on(
                    here,
                    post,
                    k,
                    (q, q2),
                    Self::look_count(now),
                    (step.0, step.1),
                    true,
                );
                if q2.stage is Done {
                    before.lemma_acquire_ends(
                        post,
                        k,
                        q2,
                        Self::look_count(now),
                        step.1,
                        true,
                    );
                    assert(self.run_asked(before, now, post, a.0, base, step.1));
                    if a.1.stage is Look {
                        self.lemma_run_asked(before, now, post, a.0, base, step.1);
                    } else {
                        assert(self.run_asked(before, now, post, a.1, base, step.1));
                    }
                } else {
                    assert(self.looked_since(before, tid, a.1.min, a.1.at, base, now));
                }
            },
            AllocStage::RunTake(run) => {
                let (before, now) = choose|before: Self, now: StepCounter|
                    #[trigger] self.run_asked(before, now, here, a.0, base, step.0) && run
                        == before.acquisition(k).result;
                self.lemma_run_asked(before, now, here, a.0, base, step.0);
                self.lemma_undisturbed_twice(here, post, tid);
                self.lemma_keeps_twice(here, post);
                self.lemma_inert_cores(here);
                assert(forall|x: u64| #[trigger]
                    self.place().dom().contains(x) ==> here.place().dom().contains(x));
                assert(forall|j: Key| #[trigger] self.valid(j) ==> here.valid(j));
                self.lemma_asked_before(here, post, tid, min, class + 1);
                if let AllocStage::Done(p) = a.1.stage {
                    assert(self.large_effects(post, tid, min, p));
                }
            },
            _ => {
                let (before, now) = choose|before: Self, now: StepCounter|
                    #[trigger] self.run_asked(before, now, here, a.0, base, step.0)
                        && before.acquisition(k).result == 0;
                self.lemma_run_asked(before, now, here, a.0, base, step.0);
                assert(large_cost(base, step.1, class - min + 1, n));
                if let AllocStage::Done(p) = a.1.stage {
                    self.lemma_undisturbed_twice(here, post, tid);
                    self.lemma_keeps_twice(here, post);
                    self.lemma_inert_cores(here);
                    assert(forall|x: u64| #[trigger]
                        self.place().dom().contains(x) ==> here.place().dom().contains(x));
                    assert(forall|j: Key| #[trigger] self.valid(j) ==> here.valid(j));
                    self.lemma_asked_before(here, post, tid, min, class + 1);
                    assert(self.large_effects(post, tid, min, p));
                }
            },
        }
    }

    /// A large allocation has ended.
    pub(crate) proof fn lemma_large_ends(
        self,
        here: Self,
        a: PendingAlloc,
        base: StepCounter,
        step: StepCounter,
    )
        requires
            self.large_since(here, a, base, step),
        ensures
            a.stage matches AllocStage::Done(r) ==> self.large_done(
                here,
                a.tid,
                a.layout,
                a.min,
                r,
                base,
                step,
            ),
    {
    }

    /// Allocate on the large path: a whole run of the least class that has
    /// one, looking first into the private list, then into the public lists,
    /// and in the least class that fits also into the pool. Takes the actions
    /// of an allocation that has just begun until it has ended.
    pub(crate) fn alloc_large_with_token_counted(
        &mut self,
        a: &mut PendingAlloc,
        step: &mut StepCounter,
    ) -> (r: u64)
        requires
            old(self).wf(),
            old(self).alloc_ready(*old(a)),
            old(a).stage is Look,
            old(a).at == old(a).min,
            old(step).room(op_room(old(self).n())),
        ensures
            final(self).wf(),
            final(a).same_request(*old(a)),
            final(a).stage == AllocStage::Done(r),
            old(self).large_done(
                *final(self),
                old(a).tid,
                old(a).layout,
                old(a).min,
                r,
                *old(step),
                *final(step),
            ),
    {
        let ghost pre = *self;
        proof {
            pre.lemma_large_begins(*a, *step);
        }
        while !a.done()
            invariant
                pre == *old(self),
                self.wf(),
                self.n() == pre.n(),
                a.same_request(*old(a)),
                pre.large_since(*self, *a, *old(step), *step),
            decreases a.rank(pre.n()),
        {
            let ghost here = *self;
            let ghost a0 = *a;
            let ghost now = *step;
            proof {
                pre.lemma_large_room(here, a0, *old(step), now);
            }
            self.advance_alloc::<DefaultCas2Backend>(a, step);
            proof {
                pre.lemma_large_goes_on(here, *self, (a0, *a), *old(step), (now, *step));
            }
        }
        proof {
            pre.lemma_large_ends(*self, *a, *old(step), *step);
        }
        a.result()
    }

    /// What freeing a large allocation does: the deallocating thread keeps the
    /// run in its private list of the run's class, or publishes it if that
    /// list holds `LARGE_LOCAL_RUN_LIMIT_K` runs already.
    pub open spec fn freed_large(self, post: Self, p: u64, tid: u64) -> bool {
        let r = self.run_of(p);
        let k = run_key(tid, self.header(r).size_class as int);
        &&& post.live() == self.live().remove(p)
        &&& post.pool == self.pool
        &&& post.huge == self.huge
        &&& post.units() == self.units()
        &&& post.mem@.links == self.mem@.links
        &&& forall|x: u64| #[trigger]
            self.place().dom().contains(x) ==> same_core(self.header(x), post.header(x))
        &&& self.same_records(post)
        &&& self.same_cursors(post)
        &&& self.other_states_stay(post, r)
        &&& if self.local(k).seq().len() >= LARGE_LOCAL_RUN_LIMIT_K {
            &&& post.place() == self.place().insert(r, Place::Public(k))
            &&& post.public(k).seq() == self.public(k).seq().push(r)
            &&& self.publics_but(post, k)
            &&& self.same_locals(post)
            &&& post.header(r).owner == OWNER_PUBLIC
            &&& post.header(r).state == SpanState::RunFreePublic
            &&& post.stats == (AllocatorStats {
                published_runs: bumped(self.stats.published_runs),
                ..self.stats
            })
        } else {
            &&& post.place() == self.place().insert(r, Place::Local(k))
            &&& post.local(k).seq() == cons(r, self.local(k).seq())
            &&& self.locals_but(post, k)
            &&& self.same_publics(post)
            &&& post.header(r).owner == tid
            &&& post.header(r).state == SpanState::RunFreeLocal
            &&& post.stats == self.stats
        }
    }

    /// Free on the large path.
    pub(crate) fn dealloc_large_with_token_counted(
        &mut self,
        ptr: u64,
        layout: Layout,
        token: ThreadToken,
        step: &mut StepCounter,
    )
        requires
            old(self).wf(),
            token.id < old(self).n(),
            old(self).live().dom().contains(ptr),
            old(self).live()[ptr] == layout,
            Self::dispatch(layout) is Large,
            old(step).room(1),
        ensures
            final(self).wf(),
            old(self).freed_large(*final(self), ptr, token.id),
            old(self).keeps(*final(self)),
            old(self).undisturbed(*final(self), token.id),
            *final(step) == (StepCounter {
                local_steps: (old(step).local_steps + 1) as u64,
                ..*old(step)
            }),
    {
        let ghost pre = *self;
        let tid: u64 = token.id;
        step.local_steps = step.local_steps + 1;
        proof {
            pre.lemma_live_in_unit(ptr);
            pre.lemma_run_inside(pre.unit_of(ptr), ptr);
            pre.lemma_run_bounds(pre.unit_of(ptr));
            pre.lemma_span_in_unit(pre.unit_of(ptr), (ptr - LARGE_HEADER_SIZE) as u64);
            pre.mem.lemma_view();
        }
        let at: u64 = ptr - LARGE_HEADER_SIZE;
        let header = self.mem.large(self.mem.span_of(at)).header;
        let run: u64 = header.run;
        let class: u64 = header.run_class;
        let k = Key { lane: Lane::Run, class, tid };
        assert(k == run_key(tid, pre.header(run).size_class as int));
        if self.local_len(k) >= LARGE_LOCAL_RUN_LIMIT_K {
            self.retire_large(
                run,
                OWNER_PUBLIC,
                SpanState::RunFreePublic,
                Ghost(ptr),
                Ghost(Place::Transit(tid)),
            );
            let ghost open = *self;
            proof {
                pre.lemma_placed();
                open.lemma_placed();
                pre.lemma_only_run_effects(open, run, tid);
                assert(forall|x: u64| #[trigger]
                    pre.place().dom().contains(x) ==> open.place().dom().contains(x));
            }
            self.publish(k, run, step);
            let ghost out = *self;
            proof {
                open.lemma_moved_effects(out, run, Place::Public(k), tid);
                open.lemma_inert_cores(out);
                pre.lemma_undisturbed_twice(open, out, tid);
                pre.lemma_keeps_twice(open, out);
            }
            let mut stats = self.stats;
            AllocatorStats::bump(&mut stats.published_runs);
            self.set_stats(stats);
            proof {
                out.lemma_stats_effects(*self, tid);
                pre.lemma_undisturbed_twice(out, *self, tid);
                pre.lemma_keeps_twice(out, *self);
                assert(forall|j: Key| #[trigger] pre.valid(j) ==> open.valid(j));
                assert(self.place() =~= pre.place().insert(run, Place::Public(k)));
                reveal(WfSpanAllocator::order_ok);
                assert(self.place_ok(run));
            }
        } else {
            self.retire_large(
                run,
                tid,
                SpanState::RunFreeLocal,
                Ghost(ptr),
                Ghost(Place::Held(tid)),
            );
            let ghost held = *self;
            proof {
                pre.lemma_placed();
                held.lemma_placed();
                pre.lemma_only_run_effects(held, run, tid);
                assert(forall|x: u64| #[trigger]
                    pre.place().dom().contains(x) ==> held.place().dom().contains(x));
            }
            self.put_front(k, run);
            proof {
                broadcast use LocalSpanList::lemma_of;

                held.lemma_moved_effects(*self, run, Place::Local(k), tid);
                held.lemma_inert_cores(*self);
                pre.lemma_undisturbed_twice(held, *self, tid);
                pre.lemma_keeps_twice(held, *self);
                assert(forall|j: Key| #[trigger] pre.valid(j) ==> held.valid(j));
                assert(self.place() =~= pre.place().insert(run, Place::Local(k)));
                reveal(WfSpanAllocator::order_ok);
                assert(self.place_ok(run));
            }
        }
    }
}

} // verus!
