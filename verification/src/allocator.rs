//! Construction, registration, and token-based allocation and deallocation.
//!
//! No loop of an operation is unbounded: every loop is bounded by the number
//! of threads, the number of classes, the helping budget, the local span
//! limit, or the number of blocks per span. Metadata is allocated by the
//! constructors and by `init` only.

use crate::align::{align_up, lemma_up, max, up};
use crate::config::{MAX_ACTIVE_THREADS, MAX_LARGE_RUN_CLASSES, MAX_SUPPORTED_CLASSES, SPAN_SIZE};
use crate::heap::ThreadHeap;
use crate::help_record::HelpTable;
use crate::huge::{huge_cost, HugeArena, HugeRunSlot};
use crate::large::{large_cost, run_class_of};
use crate::layout::{Layout, MAX_OBJECT_SIZE};
use crate::memory::SpanMemory;
use crate::metadata::RuntimeSlice;
use crate::pagemap::FixedSpanPool;
use crate::size_class::{class_size, size_to_class, span_blocks};
use crate::small::{op_room, small_cost};
use crate::span::span_base;
use crate::state::{Home, Key, Lane, Ledger, Path, Place};
use crate::stats::{extra_bound, theoretical_extra_bound, AllocatorStats, StepCounter};
use crate::stepwise::{AllocStage, FreeStage, PendingAlloc, PendingFree};
use crate::thread::{ThreadRegistry, ThreadToken};
use vstd::arithmetic::power2::{lemma2_to64, pow2};
use vstd::prelude::*;

pub use crate::state::WfSpanAllocator;

verus! {

/// Bytes per class of a thread heap row: a private list of three words, a
/// public list of a versioned head, a tail and a dummy node, and two saved
/// positions.
pub const HEAP_BYTES_PER_CLASS: u64 = 88;

/// Alignment of a thread heap row: that of a versioned head.
pub const HEAP_ALIGN: u64 = 16;

/// Bytes of a help record: the request word and the last phase.
pub const RECORD_BYTES: u64 = 16;

/// Alignment of a help record.
pub const RECORD_ALIGN: u64 = 8;

/// Where the metadata rows of a number of threads lie in a region: the heaps,
/// the help records of the size classes, those of the run classes, and the
/// end.
pub ghost struct MetadataOffsets {
    pub heaps: int,
    pub records: int,
    pub run_records: int,
    pub end: int,
}

impl<const C: u64, const HG: u64> WfSpanAllocator<C, HG> {
    /// The parameters of the allocator type are in range.
    pub open spec fn params() -> bool {
        &&& 1 <= C <= MAX_SUPPORTED_CLASSES
        &&& HG >= 1
        &&& HG * SPAN_SIZE * 4 <= u64::MAX
    }

    /// An allocator for `n` threads before its region is installed.
    pub open spec fn blank(self, n: int) -> bool {
        &&& Self::params()
        &&& 1 <= n <= MAX_ACTIVE_THREADS
        &&& self.n() == n
        &&& forall|t: int| 0 <= t < n ==> (#[trigger] self.heaps.rows@[t]).blank()
        &&& self.help.blank(n)
        &&& self.pool == (FixedSpanPool { base: 0, count: 0, next: 0 })
        &&& self.registry.max == n
        &&& self.stats == AllocatorStats::zero()
        &&& forall|c: int, k: int|
            0 <= c < 3 && 0 <= k < 4 ==> #[trigger] self.slot(c, k) == HugeRunSlot::empty()
        &&& self.place() == Map::<u64, Place>::empty()
        &&& self.homes() == Map::<u64, Home>::empty()
        &&& self.units() == Map::<u64, crate::state::Unit>::empty()
        &&& self.live() == Map::<u64, Layout>::empty()
    }

    /// Size in bytes from which on requests use the huge path.
    pub fn huge_threshold() -> (r: u64)
        requires
            HG * SPAN_SIZE <= u64::MAX,
        ensures
            r == Self::granule_bytes(),
    {
        HG * SPAN_SIZE
    }

    /// Create an allocator for `active_threads` participating threads, with
    /// public lists that are not initialized. `init` must be called before
    /// use.
    pub fn new(active_threads: u64) -> (r: Self)
        requires
            Self::params(),
            1 <= active_threads <= MAX_ACTIVE_THREADS,
        ensures
            r.blank(active_threads as int),
            r.registry == (ThreadRegistry { next: 0, max: active_threads }),
    {
        let mut heaps: Vec<ThreadHeap<C>> = Vec::new();
        let mut t: u64 = 0;
        while t < active_threads
            invariant
                t <= active_threads,
                heaps@.len() == t,
                forall|i: int| 0 <= i < t ==> (#[trigger] heaps@[i]).blank(),
            decreases active_threads - t,
        {
            heaps.push(ThreadHeap::new());
            t = t + 1;
        }
        WfSpanAllocator {
            heaps: RuntimeSlice::from_vec(heaps),
            help: HelpTable::new(active_threads),
            pool: FixedSpanPool::new(),
            registry: ThreadRegistry::new(active_threads),
            stats: AllocatorStats::new(),
            huge: HugeArena::new(),
            mem: SpanMemory::new(0, 0),
            ledger: Ghost(
                Ledger {
                    place: Map::empty(),
                    homes: Map::empty(),
                    units: Map::empty(),
                    live: Map::empty(),
                },
            ),
        }
    }

    /// Required alignment of the region passed to `from_metadata_region`.
    pub fn metadata_region_align() -> (r: u64)
        ensures
            r == HEAP_ALIGN,
    {
        max(HEAP_ALIGN, RECORD_ALIGN)
    }

    /// Bytes of the row of one thread heap.
    pub open spec fn heap_row() -> int {
        up(HEAP_BYTES_PER_CLASS * (C + MAX_LARGE_RUN_CLASSES), HEAP_ALIGN as int)
    }

    /// Where the metadata rows of `n` threads lie.
    pub open spec fn offsets(n: int) -> MetadataOffsets {
        let records = up(Self::heap_row() * n, RECORD_ALIGN as int);
        let run_records = up(records + RECORD_BYTES * C * n, RECORD_ALIGN as int);
        MetadataOffsets {
            heaps: 0,
            records,
            run_records,
            end: run_records + RECORD_BYTES * MAX_LARGE_RUN_CLASSES * n,
        }
    }

    /// Offsets of the three tables and the end, or `None` for no thread or
    /// where an offset does not fit.
    fn metadata_offsets(active_threads: u64) -> (r: Option<(u64, u64, u64, u64)>)
        requires
            Self::params(),
        ensures
            r is Some <==> active_threads >= 1 && Self::offsets(active_threads as int).end
                <= u64::MAX,
            r matches Some(o) ==> {
                let m = Self::offsets(active_threads as int);
                o.0 == m.heaps && o.1 == m.records && o.2 == m.run_records && o.3 == m.end
            },
    {
        if active_threads == 0 {
            return None;
        }
        let ghost n = active_threads as int;
        proof {
            lemma2_to64();
            assert(HEAP_ALIGN == pow2(4));
            assert(RECORD_ALIGN == pow2(3));
            Self::lemma_offsets(n);
        }
        let row: u64 = crate::align::round_up(
            HEAP_BYTES_PER_CLASS * (C + MAX_LARGE_RUN_CLASSES),
            HEAP_ALIGN,
        );
        let heap_off: u64 = match align_up(0, HEAP_ALIGN) {
            Some(v) => v,
            None => {
                return None;
            },
        };
        let heap_bytes: u64 = match row.checked_mul(active_threads) {
            Some(v) => v,
            None => {
                return None;
            },
        };
        let heap_end: u64 = match heap_off.checked_add(heap_bytes) {
            Some(v) => v,
            None => {
                return None;
            },
        };
        let records_off: u64 = match align_up(heap_end, RECORD_ALIGN) {
            Some(v) => v,
            None => {
                return None;
            },
        };
        let records_bytes: u64 = match (RECORD_BYTES * C).checked_mul(active_threads) {
            Some(v) => v,
            None => {
                return None;
            },
        };
        let records_end: u64 = match records_off.checked_add(records_bytes) {
            Some(v) => v,
            None => {
                return None;
            },
        };
        let run_records_off: u64 = match align_up(records_end, RECORD_ALIGN) {
            Some(v) => v,
            None => {
                return None;
            },
        };
        let run_bytes: u64 = match (RECORD_BYTES * MAX_LARGE_RUN_CLASSES).checked_mul(
            active_threads,
        ) {
            Some(v) => v,
            None => {
                return None;
            },
        };
        match run_records_off.checked_add(run_bytes) {
            Some(end) => Some((heap_off, records_off, run_records_off, end)),
            None => None,
        }
    }

    /// The metadata tables follow one another, in this order and without
    /// overlap.
    pub proof fn lemma_offsets(n: int)
        requires
            Self::params(),
            n >= 1,
        ensures
            ({
                let m = Self::offsets(n);
                let a = Self::heap_row() * n;
                let b = RECORD_BYTES * C * n;
                let c = RECORD_BYTES * MAX_LARGE_RUN_CLASSES * n;
                &&& up(0, HEAP_ALIGN as int) == 0
                &&& 0 <= a <= m.records
                &&& 0 <= b
                &&& m.records + b <= m.run_records
                &&& 0 <= c
                &&& m.run_records + c == m.end
                &&& m.records == a
                &&& m.run_records == m.records + b
                &&& Self::heap_row() >= 1584
                &&& m.end >= 1584 * n
            }),
    {
        let row = Self::heap_row();
        lemma_up(0, HEAP_ALIGN as int);
        lemma_up(HEAP_BYTES_PER_CLASS * (C + MAX_LARGE_RUN_CLASSES), HEAP_ALIGN as int);
        assert(row % 16 == 0);
        let q = row / 16;
        assert(row == 16 * q);
        assert(row * n == 8 * (2 * q * n)) by (nonlinear_arith)
            requires
                row == 16 * q,
        ;
        assert((row * n) % 8 == 0);
        lemma_up(row * n, RECORD_ALIGN as int);
        assert(RECORD_BYTES * C * n == 8 * (2 * C * n)) by (nonlinear_arith)
            requires
                RECORD_BYTES == 16,
        ;
        assert(RECORD_BYTES * C * n >= 0) by (nonlinear_arith)
            requires
                n >= 1,
                C >= 1,
        ;
        assert(RECORD_BYTES * MAX_LARGE_RUN_CLASSES * n >= 0) by (nonlinear_arith)
            requires
                n >= 1,
        ;
        let m = Self::offsets(n);
        assert((m.records + RECORD_BYTES * C * n) % 8 == 0);
        lemma_up(m.records + RECORD_BYTES * C * n, RECORD_ALIGN as int);
        assert(row * n >= 1584 * n) by (nonlinear_arith)
            requires
                row >= 1584,
                n >= 1,
        ;
    }

    /// Bytes required by `from_metadata_region` for `active_threads` rows.
    pub fn metadata_region_size(active_threads: u64) -> (r: Option<u64>)
        requires
            Self::params(),
        ensures
            r == (if active_threads >= 1 && Self::offsets(active_threads as int).end <= u64::MAX {
                Some(Self::offsets(active_threads as int).end as u64)
            } else {
                None
            }),
    {
        match Self::metadata_offsets(active_threads) {
            Some((_, _, _, end)) => Some(end),
            None => None,
        }
    }

    /// Create an allocator whose metadata is accounted for in the region of
    /// `metadata_len` bytes at `metadata`. Returns it with the number of
    /// bytes used, or `None` if there is no thread, the region is null or
    /// not aligned, or it is too small.
    pub fn from_metadata_region(active_threads: u64, metadata: u64, metadata_len: u64) -> (r: Option<
        (Self, u64),
    >)
        requires
            Self::params(),
            metadata_len <= MAX_OBJECT_SIZE,
        ensures
            r is Some <==> active_threads >= 1 && metadata != 0 && metadata % HEAP_ALIGN == 0
                && Self::offsets(active_threads as int).end <= metadata_len,
            r matches Some((alloc, used)) ==> {
                &&& alloc.blank(active_threads as int)
                &&& alloc.registry == (ThreadRegistry { next: 0, max: active_threads })
                &&& used == Self::offsets(active_threads as int).end
            },
    {
        if active_threads == 0 || metadata == 0 || metadata % Self::metadata_region_align() != 0 {
            return None;
        }
        match Self::metadata_offsets(active_threads) {
            None => None,
            Some((_, _, _, end)) => {
                if end > metadata_len {
                    return None;
                }
                proof {
                    Self::lemma_offsets(active_threads as int);
                }
                Some((Self::new(active_threads), end))
            },
        }
    }

    /// Number of participating threads.
    pub fn active_threads(&self) -> (r: u64)
        ensures
            r == self.n(),
    {
        self.heaps.len()
    }

    /// Register a thread; fails after as many registrations as there are
    /// participating threads. Threads may register before or after `init`.
    pub fn register_thread(&mut self) -> (r: Option<ThreadToken>)
        ensures
            old(self).wf() ==> final(self).wf(),
            forall|n: int| #[trigger] old(self).blank(n) ==> final(self).blank(n),
            ThreadRegistry::registers(old(self).registry, final(self).registry, r),
            *final(self) == (WfSpanAllocator { registry: final(self).registry, ..*old(self) }),
    {
        let ghost pre = *self;
        let r = self.registry.register();
        proof {
            assert(forall|c: int, k: int| #[trigger] self.slot(c, k) == pre.slot(c, k));
            if pre.wf() {
                assert(self.shape());
                pre.lemma_order_frame(*self);
                pre.lemma_assets_frame(*self);
            }
        }
        r
    }

    /// Bound on the additional footprint in bytes, with the query limit equal
    /// to the number of threads.
    pub fn theoretical_extra_bound(&self) -> (r: u64)
        requires
            self.n() >= 1,
            self.n() + self.n() * (self.n() - 1) <= u64::MAX,
            (self.n() + self.n() * (self.n() - 1)) * C <= u64::MAX,
            extra_bound(self.n(), C as int, SPAN_SIZE as int, self.n()) <= u64::MAX,
        ensures
            r == extra_bound(self.n(), C as int, SPAN_SIZE as int, self.n()),
            r == self.n() * self.n() * C * SPAN_SIZE,
    {
        let n: u64 = self.active_threads();
        proof {
            assert((n + n - 1) / (n as int) == 1) by (nonlinear_arith)
                requires
                    n >= 1,
            ;
            assert(n + n * (n - 1) == n * n) by (nonlinear_arith);
        }
        theoretical_extra_bound(n, C, SPAN_SIZE, n)
    }

    /// The size class if a layout fits the small path: the same function of
    /// the layout for allocation and deallocation.
    pub(crate) fn small_class(layout: Layout) -> (r: Option<u64>)
        ensures
            r matches Some(c) ==> Self::dispatch(layout) == Path::Small(c) && c < C,
            r is None ==> Self::dispatch(layout) == (if layout.size >= Self::granule_bytes() {
                Path::Huge
            } else {
                Path::Large
            }),
    {
        match size_to_class(layout.size(), layout.align()) {
            Some(c) => {
                if c < C {
                    Some(c)
                } else {
                    None
                }
            },
            None => None,
        }
    }

    /// What an allocation returns while no other thread acts: the first block
    /// of the first span that can serve one, the payload in the first run
    /// that can be had, or that in the first huge slot that can be claimed;
    /// and 0 if there is none.
    pub open spec fn alloc_result(self, layout: Layout, tid: u64) -> u64 {
        match Self::dispatch(layout) {
            Path::Small(c) => self.small_result(Key { lane: Lane::Span, class: c, tid }),
            Path::Large => self.large_result(tid, layout),
            Path::Huge => self.huge_result(layout),
        }
    }

    /// The step counts after an allocation of thread `tid` while no other
    /// thread acts.
    pub open spec fn alloc_count(self, layout: Layout, tid: u64, step: StepCounter) -> StepCounter {
        match Self::dispatch(layout) {
            Path::Small(class) => self.small_count(Key { lane: Lane::Span, class, tid }, step),
            Path::Large => self.large_steps(tid, layout, step),
            Path::Huge => self.huge_steps(layout, step),
        }
    }

    /// The steps of an allocation keep the bounds of its path.
    pub open spec fn alloc_cost(self, layout: Layout, base: StepCounter, now: StepCounter) -> bool {
        match Self::dispatch(layout) {
            Path::Small(c) => small_cost(base, now, self.n(), span_blocks(class_size(c as int))),
            Path::Large => exists|i: int|
                0 <= i <= MAX_LARGE_RUN_CLASSES && #[trigger] large_cost(base, now, i, self.n()),
            Path::Huge => huge_cost(base, now),
        }
    }

    /// Allocate; returns 0 where no path can serve the request.
    pub fn alloc_with_token(&mut self, layout: Layout, token: ThreadToken) -> (r: u64)
        requires
            old(self).wf(),
            layout.valid(),
            token.id < old(self).n(),
        ensures
            final(self).wf(),
            old(self).allocated(*final(self), layout, token.id, r),
    {
        let mut step = StepCounter::new();
        self.alloc_with_token_counted(layout, token, &mut step)
    }

    /// An allocation returned `r`: a fresh, aligned address in the region
    /// with room for the request, which is live now; or 0, and then nothing
    /// else is live than before. Lists, records, pool, slots and statistics
    /// changed as the path of the request says.
    pub open spec fn allocated(self, post: Self, layout: Layout, tid: u64, r: u64) -> bool {
        &&& r == self.alloc_result(layout, tid)
        &&& r != 0 ==> {
            &&& !self.live().dom().contains(r)
            &&& post.live() == self.live().insert(r, layout)
            &&& r % layout.align == 0
            &&& self.pool.base <= r
            &&& r + layout.size <= self.pool.base + self.pool.count * SPAN_SIZE
        }
        &&& r == 0 ==> post.live() == self.live()
        &&& self.keeps(post)
        &&& self.joined() ==> post.joined()
        &&& self.undisturbed(post, tid)
        &&& match Self::dispatch(layout) {
            Path::Small(class) => {
                &&& self.small_effects(post, Key { lane: Lane::Span, class, tid })
                &&& post.huge == self.huge
            },
            Path::Large => {
                &&& match run_class_of(layout) {
                    Some(min) => self.large_effects(post, tid, min as int, r),
                    None => post == self,
                }
                &&& post.huge == self.huge
            },
            Path::Huge => self.huge_effects(post, layout, tid),
        }
    }

    /// Allocation with step accounting.
    pub fn alloc_with_token_counted(
        &mut self,
        layout: Layout,
        token: ThreadToken,
        step: &mut StepCounter,
    ) -> (r: u64)
        requires
            old(self).wf(),
            layout.valid(),
            token.id < old(self).n(),
            old(step).room(op_room(old(self).n())),
        ensures
            final(self).wf(),
            old(self).allocated(*final(self), layout, token.id, r),
            *final(step) == old(self).alloc_count(layout, token.id, *old(step)),
            old(self).alloc_cost(layout, *old(step), *final(step)),
    {
        let mut a = self.begin_alloc(layout, token);
        self.run_alloc(&mut a, step)
    }

    /// Take the actions of an allocation that has just begun until it has
    /// ended, while no other thread acts.
    pub fn run_alloc(&mut self, a: &mut PendingAlloc, step: &mut StepCounter) -> (r: u64)
        requires
            old(self).wf(),
            old(self).alloc_ready(*old(a)),
            (old(a).min, old(a).at, old(a).stage) == Self::alloc_start(old(a).layout),
            old(step).room(op_room(old(self).n())),
        ensures
            final(self).wf(),
            final(a).same_request(*old(a)),
            final(a).stage == AllocStage::Done(r),
            old(self).allocated(*final(self), old(a).layout, old(a).tid, r),
            *final(step) == old(self).alloc_count(old(a).layout, old(a).tid, *old(step)),
            old(self).alloc_cost(old(a).layout, *old(step), *final(step)),
    {
        let r: u64 = match a.stage {
            AllocStage::Turn => self.alloc_small(a, step),
            AllocStage::Look => self.alloc_large_with_token_counted(a, step),
            AllocStage::Slot => self.alloc_huge_with_token_counted(a, step),
            _ => 0,
        };
        proof {
            old(self).lemma_alloc_done(*self, a.layout, a.tid, r, *old(step), *step);
        }
        r
    }

    /// A live allocation lies in the region.
    pub proof fn lemma_live_bounds(self, p: u64)
        requires
            self.wf(),
            self.live().dom().contains(p),
        ensures
            p % self.live()[p].align == 0,
            self.pool.base <= p,
            p + self.live()[p].size <= self.pool.base + self.pool.count * SPAN_SIZE,
    {
        self.lemma_live_in_unit(p);
        reveal(WfSpanAllocator::assets_ok);
        assert(self.pool.used() * SPAN_SIZE <= self.pool.count * SPAN_SIZE) by (nonlinear_arith)
            requires
                self.pool.used() <= self.pool.count,
        ;
        assert(self.mem@.is_span(self.unit_of(p)));
    }

    /// A deallocation of `ptr` by thread `tid`: it is no longer live, and the
    /// block, run or slot went back where its path says.
    pub open spec fn deallocated(self, post: Self, ptr: u64, tid: u64) -> bool {
        &&& post.live() == self.live().remove(ptr)
        &&& self.keeps(post)
        &&& self.joined() ==> post.joined()
        &&& self.undisturbed(post, tid)
        &&& match Self::dispatch(self.live()[ptr]) {
            Path::Small(_) => {
                let s = span_base(ptr);
                if self.header(s).owner == tid {
                    self.freed_local(post, s, ptr, tid)
                } else {
                    self.freed_remote(post, s, ptr, tid)
                }
            },
            Path::Large => self.freed_large(post, ptr, tid),
            Path::Huge => self.freed_huge(post, ptr, tid),
        }
    }

    /// The steps of a deallocation: a constant number, or one look at each
    /// huge slot up to that of the allocation.
    pub open spec fn dealloc_cost(
        self,
        ptr: u64,
        tid: u64,
        base: StepCounter,
        now: StepCounter,
    ) -> bool {
        match Self::dispatch(self.live()[ptr]) {
            Path::Small(_) => {
                let h = self.header(span_base(ptr));
                if h.owner == tid {
                    now == (StepCounter { local_steps: (base.local_steps + 1) as u64, ..base })
                } else {
                    now == (StepCounter {
                        remote_steps: (base.remote_steps + 1) as u64,
                        swap_ops: (base.swap_ops + 1) as u64,
                        faa_ops: (base.faa_ops + 1) as u64,
                        cas_attempts: (base.cas_attempts + (if h.remote.free_count == 0 {
                            1int
                        } else {
                            0
                        })) as u64,
                        ..base
                    })
                }
            },
            Path::Large => now == (StepCounter {
                local_steps: (base.local_steps + 1) as u64,
                ..base
            }),
            Path::Huge => {
                self.lookup_count(ptr, base, now)
            },
        }
    }

    /// Deallocate. Freeing 0 does nothing.
    pub fn dealloc_with_token(&mut self, ptr: u64, layout: Layout, token: ThreadToken)
        requires
            old(self).wf(),
            token.id < old(self).n(),
            ptr == 0 || (old(self).live().dom().contains(ptr) && old(self).live()[ptr] == layout),
        ensures
            final(self).wf(),
            ptr == 0 ==> *final(self) == *old(self),
            ptr != 0 ==> old(self).deallocated(*final(self), ptr, token.id),
    {
        let mut step = StepCounter::new();
        self.dealloc_with_token_counted(ptr, layout, token, &mut step);
    }

    /// Deallocation with step accounting.
    pub fn dealloc_with_token_counted(
        &mut self,
        ptr: u64,
        layout: Layout,
        token: ThreadToken,
        step: &mut StepCounter,
    )
        requires
            old(self).wf(),
            token.id < old(self).n(),
            ptr == 0 || (old(self).live().dom().contains(ptr) && old(self).live()[ptr] == layout),
            old(step).room(12),
        ensures
            final(self).wf(),
            ptr == 0 ==> *final(self) == *old(self) && *final(step) == *old(step),
            ptr != 0 ==> old(self).deallocated(*final(self), ptr, token.id),
            ptr != 0 ==> old(self).dealloc_cost(ptr, token.id, *old(step), *final(step)),
    {
        if ptr == 0 {
            return;
        }
        let mut a = self.begin_free(ptr, layout, token);
        self.run_free(&mut a, step);
    }

    /// Take the actions of a deallocation that has just begun until it has
    /// ended, while no other thread acts.
    pub fn run_free(&mut self, a: &mut PendingFree, step: &mut StepCounter)
        requires
            old(self).wf(),
            old(self).free_ready(*old(a)),
            old(a).stage is Give,
            old(step).room(12),
        ensures
            final(self).wf(),
            *final(a) == (PendingFree { stage: FreeStage::Done, ..*old(a) }),
            old(self).deallocated(*final(self), old(a).ptr, old(a).tid),
            old(self).dealloc_cost(old(a).ptr, old(a).tid, *old(step), *final(step)),
    {
        let ghost a0 = *a;
        self.advance_free(a, step);
        let ghost given = *self;
        let ghost a1 = *a;
        let ghost now = *step;
        if let FreeStage::Claim(_) = a.stage {
            self.advance_free(a, step);
        }
        proof {
            old(self).law_uncontended_deallocation(
                given,
                *self,
                (a0, a1, *a),
                (*old(step), now, *step),
            );
        }
    }
}

} // verus!
