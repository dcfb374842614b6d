//! What the operations are for, said of their inputs and results.
//!
//! Sizes, addresses and limits stand here as numbers, and lists, records and
//! slots as what they hold, so that each statement can be read on its own.

use crate::acquire::peer;
use crate::align::{is_pow2, lemma_is_pow2_bounds, lemma_up};
use crate::block::UNLINKED;
use crate::capacity::{landed, lemma_landed_refill};
use crate::chain::{lemma_stall, lemma_stall_unique, stall};
use crate::config::{OWNER_NONE, OWNER_PUBLIC};
use crate::help_record::{completed, pending, pending_word};
use crate::huge::{
    huge_class_of, huge_payload, lemma_huge_class, HugeRunSlot, HUGE_SLOT_ALLOCATED,
    HUGE_SLOT_EMPTY, HUGE_SLOT_FREE,
};
use crate::large::{
    large_align, large_cost, large_payload, lemma_run_class, run_bytes, run_class_of, run_key,
};
use crate::layout::Layout;
use crate::local_list::LocalFreeList;
use crate::pagemap::{region_spans, region_start, FixedSpanPool};
use crate::protocol::{
    calm, lemma_calm_step, lemma_model_step, lemma_next_full, lemma_next_full_none,
    lemma_run_outcome, model_step, next_full, run, run_count, step_count, Acquisition, Board, Stage,
};
use crate::refill::{lemma_refilled, refilled, serve_count};
use crate::remote_mpsc::RemoteMpscFreeList;
use crate::size_class::{
    class_for, class_size, first_offset, lemma_block_size_divides, lemma_class_for,
    lemma_class_size, lemma_span_blocks, span_blocks,
};
use crate::span::{all_blocks, is_block, lemma_all_blocks, span_base, SpanHeader, SpanState};
use crate::state::{Key, Lane, Path, Place, WfSpanAllocator};
use crate::stats::{bumped, bumped_by, extra_bound, AllocatorStats, StepCounter};
use vstd::arithmetic::power2::{lemma2_to64, lemma_pow2_pos, lemma_pow2_strictly_increases, pow2};
use vstd::prelude::*;

verus! {

/// A layout is valid exactly if its alignment is a power of two and its size,
/// rounded up to the alignment, is the size of an object.
pub proof fn law_valid_layouts(layout: Layout)
    ensures
        layout.valid() <==> {
            &&& exists|n: nat| n < 64 && layout.align == #[trigger] pow2(n)
            &&& layout.size + layout.align - 1 <= 0x7fff_ffff_ffff_ffff
        },
{
}

/// A request is given the least size class whose blocks are at least as large
/// as its size and as its alignment: 16 bytes, 32, and so on to 16384. There is
/// none exactly if the size or the alignment is above 16384.
pub proof fn law_size_class_is_least(size: u64, align: u64)
    ensures
        class_for(size as int, align as int) is Some <==> size <= 16384 && align <= 16384,
        class_for(size as int, align as int) matches Some(c) ==> {
            &&& c <= 10
            &&& size <= 16 * pow2(c as nat)
            &&& align <= 16 * pow2(c as nat)
            &&& forall|d: nat|
                d < c ==> 16 * #[trigger] pow2(d) < size || 16 * pow2(d) < align
        },
{
    lemma_class_for(size as int, align as int);
    if let Some(c) = class_for(size as int, align as int) {
        assert forall|d: nat| d < c implies 16 * #[trigger] pow2(d) < size || 16 * pow2(d)
            < align by {
            lemma_pow2_pos(d);
            assert(class_size(d as int) == 16 * pow2(d));
        }
    }
}

/// Blocks of class `c` have `16 * 2^c` bytes.
pub proof fn law_block_sizes_double(c: nat)
    ensures
        class_size(0) == 16,
        class_size(c as int) == 16 * pow2(c),
        class_size(c as int + 1) == 2 * class_size(c as int),
{
    lemma2_to64();
    vstd::arithmetic::power2::lemma_pow2_unfold(c + 1);
}

/// Blocks start at the first multiple of their size behind the 1024 bytes of
/// the span's header, and fill the span: no block more would fit.
pub proof fn law_blocks_fill_the_span(bs: u64)
    requires
        is_pow2(bs),
        bs <= 65536,
    ensures
        first_offset(bs as int) % (bs as int) == 0,
        1024 <= first_offset(bs as int) < 1024 + bs,
        span_blocks(bs as int) >= 0,
        first_offset(bs as int) + span_blocks(bs as int) * bs <= 65536,
        first_offset(bs as int) + (span_blocks(bs as int) + 1) * bs > 65536,
{
    lemma_is_pow2_bounds(bs);
    lemma_block_size_divides(bs);
    lemma_span_blocks(bs as int);
    lemma_up(1024, bs as int);
    let m = span_blocks(bs as int);
    assert((m + 1) * bs == m * bs + bs) by (nonlinear_arith);
}

/// A request is given the least run class whose runs hold, wherever they lie,
/// the 1024 bytes of the run's header, the 32 bytes of the hidden header, the
/// padding up to an address aligned to at least 8, and the payload. There is
/// none exactly if 2^16 spans are not enough.
pub proof fn law_run_class_is_least(layout: Layout)
    requires
        layout.valid(),
    ensures
        ({
            let align: int = if layout.align >= 8 { layout.align as int } else { 8 };
            let need = 1024 + 32 + align - 1 + layout.size;
            &&& run_class_of(layout) is Some <==> need <= 65536 * 65536
            &&& run_class_of(layout) matches Some(r) ==> {
                &&& r <= 16
                &&& need <= pow2(r as nat) * 65536
                &&& forall|d: nat| d < r ==> need > #[trigger] pow2(d) * 65536
            }
        }),
{
    lemma_run_class(layout);
}

/// A run of class `r` has `65536 * 2^r` bytes, as a 64-bit number.
pub proof fn law_run_bytes_double(r: nat)
    ensures
        run_bytes(0) == 65536,
        r < 47 ==> run_bytes(r as int + 1) == 2 * run_bytes(r as int),
        r >= 48 ==> run_bytes(r as int) == 0,
{
    lemma2_to64();
    vstd::arithmetic::power2::lemma_pow2_unfold(r + 1);
}

/// The payload of a large request starts at the first address behind the run's
/// header and the hidden header that is aligned as requested, and to 8.
pub proof fn law_large_payload_is_first(run: u64, layout: Layout, x: int)
    requires
        layout.valid(),
    ensures
        ({
            let align: int = if layout.align >= 8 { layout.align as int } else { 8 };
            let p = large_payload(run, layout);
            &&& p % align == 0
            &&& run + 1024 + 32 <= p < run + 1024 + 32 + align
            &&& x % align == 0 && run + 1024 + 32 <= x ==> p <= x
        }),
{
    lemma_is_pow2_bounds(layout.align);
    let align: int = if layout.align >= 8 { layout.align as int } else { 8 };
    let p = large_payload(run, layout);
    assert(large_align(layout) == align);
    lemma_up(run + 1024 + 32, align);
    if x % align == 0 && run + 1056 <= x {
        lemma_first_multiple(p, x, run + 1056, align);
    }
}

/// The only multiple of `a` in an interval of length `a` is the first one
/// behind its start.
pub(crate) proof fn lemma_first_multiple(p: int, x: int, start: int, a: int)
    requires
        a > 0,
        p % a == 0,
        start <= p < start + a,
        start <= x,
        x % a == 0,
    ensures
        p <= x,
{
    if x < p {
        vstd::arithmetic::div_mod::lemma_fundamental_div_mod(p, a);
        vstd::arithmetic::div_mod::lemma_fundamental_div_mod(x, a);
        let i = p / a;
        let j = x / a;
        assert(false) by (nonlinear_arith)
            requires
                p == a * i,
                x == a * j,
                x < p,
                p - x < a,
                a > 0,
        ;
    }
}

/// A huge request is given the least class whose runs, which are aligned to
/// 65536 bytes, hold the payload and what its alignment takes beyond that.
/// There is none exactly if four granules are not enough.
pub proof fn law_huge_class_is_least(layout: Layout, granule: int)
    requires
        layout.valid(),
        granule >= 1,
    ensures
        ({
            let slack: int = if layout.align >= 65536 { layout.align - 65536 } else { 0 };
            let need = layout.size + slack;
            &&& huge_class_of(layout, granule) is Some <==> need <= 4 * granule
            &&& huge_class_of(layout, granule) matches Some(r) ==> {
                &&& r <= 2
                &&& need <= pow2(r as nat) * granule
                &&& forall|d: nat| d < r ==> need > #[trigger] pow2(d) * granule
            }
        }),
{
    lemma_huge_class(layout, granule);
}

/// The payload of a huge request starts at the first address of its run that is
/// aligned as requested.
pub proof fn law_huge_payload_is_first(base: u64, align: u64, x: int)
    requires
        is_pow2(align),
    ensures
        ({
            let p = huge_payload(base, align);
            &&& p % (align as int) == 0
            &&& base <= p < base + align
            &&& x % (align as int) == 0 && base <= x ==> p <= x
        }),
{
    lemma_is_pow2_bounds(align);
    lemma_up(base as int, align as int);
    let p = huge_payload(base, align);
    if base <= x && x % (align as int) == 0 {
        lemma_first_multiple(p, x, base as int, align as int);
    }
}

/// The spans of a region are those that lie in it as a whole, at multiples of
/// 65536: the first starts less than a span behind the start of the region, and
/// behind the last there is no room for another.
pub proof fn law_region_is_used_up(ptr: u64, len: u64)
    ensures
        ({
            let start = region_start(ptr as int);
            let count = region_spans(ptr as int, len as int);
            let end: int = if ptr + len <= u64::MAX { ptr + len } else { u64::MAX as int };
            &&& start % 65536 == 0
            &&& ptr <= start < ptr + 65536
            &&& count >= 0
            &&& count > 0 ==> start + count * 65536 <= end
            &&& start + (count + 1) * 65536 > end
        }),
{
    lemma_up(ptr as int, 65536);
}

/// The span at index `i` of a region starts `i` spans behind the first, and
/// what was handed out is what lies below the next index.
pub proof fn law_spans_follow_one_another(pool: FixedSpanPool, i: int)
    ensures
        pool.span_at(i) == pool.base + i * 65536,
        pool.used() <= pool.count,
        pool.next <= pool.count ==> pool.used() == pool.next,
        pool.next > pool.count ==> pool.used() == pool.count,
{
}

impl<const C: u64, const HG: u64> WfSpanAllocator<C, HG> {
    /// The path of a request is a function of its layout: small exactly if some
    /// class of the allocator has blocks as large as its size and alignment,
    /// and then with the least such class; otherwise huge exactly if its size
    /// is at least one huge granule, and large if not.
    pub proof fn law_path_of_a_request(layout: Layout)
        requires
            C <= 11,
        ensures
            ({
                let fits = |c: nat| layout.size <= 16 * pow2(c) && layout.align <= 16 * pow2(c);
                &&& Self::dispatch(layout) is Small <==> exists|c: nat| c < C && #[trigger] fits(c)
                &&& Self::dispatch(layout) matches Path::Small(c) ==> {
                    &&& c < C
                    &&& fits(c as nat)
                    &&& forall|d: nat| d < c ==> !#[trigger] fits(d)
                }
                &&& !(Self::dispatch(layout) is Small) ==> (Self::dispatch(layout) is Huge
                    <==> layout.size >= HG * 65536)
            }),
    {
        let fits = |c: nat| layout.size <= 16 * pow2(c) && layout.align <= 16 * pow2(c);
        law_size_class_is_least(layout.size, layout.align);
        lemma2_to64();
        match class_for(layout.size as int, layout.align as int) {
            Some(c) => {
                assert(fits(c as nat));
                assert forall|d: nat| d < c implies !#[trigger] fits(d) by {
                    assert(16 * pow2(d) < layout.size || 16 * pow2(d) < layout.align);
                }
            },
            None => {
                assert forall|d: nat| d < C implies !#[trigger] fits(d) by {
                    if d < 10 {
                        lemma_pow2_strictly_increases(d, 10);
                    }
                }
            },
        }
    }

    /// A block freed by the owner of its span is the first of the span's local
    /// list. If that makes the span full, the owner's private list of the class
    /// did not hold more than 40 spans, or the span has left it and is the last
    /// of the owner's public list of the class, from which every thread may
    /// take it. Otherwise no list changes.
    pub proof fn law_surplus_full_span_is_published(
        self,
        post: Self,
        p: u64,
        t: u64,
        s: u64,
        k: Key,
    )
        requires
            self.wf(),
            post.wf(),
            t < self.n(),
            self.live().dom().contains(p),
            Self::dispatch(self.live()[p]) is Small,
            s % 65536 == 0,
            s <= p < s + 65536,
            self.header(s).owner == t,
            k == (Key { lane: Lane::Span, class: self.header(s).size_class, tid: t }),
            self.deallocated(post, p, t),
        ensures
            post.header(s).local.free.seq() == seq![p] + self.header(s).local.free.seq(),
            post.header(s).remote == self.header(s).remote,
            ({
                let before = self.local(k).seq();
                let after = post.local(k).seq();
                let full = post.header(s).free_blocks().len() == post.header(s).block_count;
                &&& full && before.contains(s) && before.len() > 40 ==> {
                    &&& !after.contains(s)
                    &&& after.len() == before.len() - 1
                    &&& forall|x: u64| #[trigger] before.contains(x) && x != s ==> after.contains(x)
                    &&& post.public(k).seq() == self.public(k).seq().push(s)
                    &&& post.header(s).owner == OWNER_PUBLIC
                    &&& post.header(s).state == SpanState::FullPublic
                    &&& self.stats.published_spans < u64::MAX ==> post.stats.published_spans
                        == self.stats.published_spans + 1
                    &&& post.stats == (AllocatorStats {
                        published_spans: post.stats.published_spans,
                        ..self.stats
                    })
                }
                &&& !(full && before.contains(s) && before.len() > 40) ==> {
                    &&& after == before
                    &&& post.public(k).seq() == self.public(k).seq()
                    &&& post.header(s).owner == t
                    &&& post.header(s).state == (if full {
                        SpanState::FullLocal
                    } else {
                        self.header(s).state
                    })
                    &&& post.stats == self.stats
                }
            }),
            forall|j: Key| #[trigger]
                self.valid(j) && j != k ==> post.local(j).seq() == self.local(j).seq()
                    && post.public(j).seq() == self.public(j).seq(),
    {
        self.lemma_small_entry(p, s);
        self.lemma_owned(s, t);
        self.lemma_listed_small(k);
        post.lemma_owned(s, t);
        let before = self.local(k).seq();
        let after = post.local(k).seq();
        let h = self.header(s);
        let g = post.header(s);
        assert(seq![p] + h.local.free.seq() =~= crate::chain::cons(p, h.local.free.seq()));
        assert(g.free_blocks().len() == h.free_blocks().len() + 1);
        self.lemma_local_place(s, k);
        if self.at(s, Place::Local(k)) {
            assert(before.contains(s));
        }
        if self.publishes(s, t) {
            let i = choose|i: int|
                0 <= i < before.len() && before[i] == s && after == #[trigger] before.remove(i);
            assert forall|x: u64| #[trigger] before.contains(x) && x != s implies after.contains(
                x,
            ) by {
                let w = choose|w: int| 0 <= w < before.len() && before[w] == x;
                if w < i {
                    assert(after[w] == x);
                } else {
                    assert(after[w - 1] == x);
                }
            }
            assert(!after.contains(s)) by {
                if after.contains(s) {
                    let w = choose|w: int| 0 <= w < after.len() && after[w] == s;
                    if w < i {
                        assert(before[w] == s);
                    } else {
                        assert(before[w + 1] == s);
                    }
                }
            }
            post.lemma_local_place(s, k);
            reveal(WfSpanAllocator::order_ok);
            assert(post.place_ok(s));
        }
    }

    /// The span of a live small allocation.
    proof fn lemma_small_entry(self, p: u64, s: u64)
        requires
            self.wf(),
            self.live().dom().contains(p),
            Self::dispatch(self.live()[p]) is Small,
            s % 65536 == 0,
            s <= p < s + 65536,
        ensures
            s == span_base(p),
            self.place().dom().contains(s),
            self.units()[s].kind is Small,
            is_block(s, self.header(s).block_size as int, p),
            Self::dispatch(self.live()[p]) == Path::Small(self.header(s).size_class),
    {
        assert(s == span_base(p));
        reveal(WfSpanAllocator::assets_ok);
        assert(self.live_entry(p));
        assert(self.place().dom().contains(s));
        self.lemma_free_room(s);
    }

    /// A span is in a private list exactly if that is its place.
    proof fn lemma_local_place(self, s: u64, k: Key)
        requires
            self.wf(),
            self.valid(k),
            self.place().dom().contains(s),
        ensures
            self.local(k).seq().contains(s) <==> self.place()[s] == Place::Local(k),
    {
        self.law_owner_says_where(s);
    }

    /// A block freed by a thread that does not own its span is the first of the
    /// span's remote list and visible in its count. If nobody owned the span,
    /// which had no visible block, the freeing thread owns it now, first in its
    /// private list; otherwise no list and no owner changes.
    pub proof fn law_remote_free_claims_a_discarded_span(
        self,
        post: Self,
        p: u64,
        t: u64,
        s: u64,
        k: Key,
    )
        requires
            self.wf(),
            post.wf(),
            t < self.n(),
            self.live().dom().contains(p),
            Self::dispatch(self.live()[p]) is Small,
            s % 65536 == 0,
            s <= p < s + 65536,
            self.header(s).owner != t,
            k == (Key { lane: Lane::Span, class: self.header(s).size_class, tid: t }),
            self.deallocated(post, p, t),
        ensures
            post.header(s).remote.free.seq() == seq![p] + self.header(s).remote.free.seq(),
            post.header(s).remote.free_count == self.header(s).remote.free_count + 1,
            post.header(s).local.free.seq() == self.header(s).local.free.seq(),
            self.header(s).owner == OWNER_NONE && self.header(s).remote.free_count == 0 ==> {
                &&& post.local(k).seq() == seq![s] + self.local(k).seq()
                &&& post.header(s).owner == t
                &&& post.header(s).state == SpanState::NonEmptyLocal
                &&& self.stats.claimed_spans < u64::MAX ==> post.stats.claimed_spans
                    == self.stats.claimed_spans + 1
                &&& post.stats == (AllocatorStats {
                    claimed_spans: post.stats.claimed_spans,
                    ..self.stats
                })
            },
            !(self.header(s).owner == OWNER_NONE && self.header(s).remote.free_count == 0) ==> {
                &&& post.local(k).seq() == self.local(k).seq()
                &&& post.header(s).owner == self.header(s).owner
                &&& post.header(s).state == self.header(s).state
                &&& post.stats == self.stats
            },
            forall|j: Key| #[trigger]
                self.valid(j) ==> post.public(j).seq() == self.public(j).seq() && (j != k
                    ==> post.local(j).seq() == self.local(j).seq()),
    {
        self.lemma_small_entry(p, s);
        self.lemma_owned(s, t);
        post.lemma_owned(s, t);
        let h = self.header(s);
        assert(seq![p] + h.remote.free.seq() =~= crate::chain::cons(p, h.remote.free.seq()));
        assert(seq![s] + self.local(k).seq() =~= crate::chain::cons(s, self.local(k).seq()));
        reveal(WfSpanAllocator::order_ok);
        assert(self.place_ok(s));
        assert(post.place_ok(s));
    }

    /// A freed run goes to the front of the freeing thread's private list of the
    /// run's class while that holds fewer than 8 runs, and else to the end of
    /// its public list, from which every thread may take it.
    pub proof fn law_freed_run_is_kept_or_published(
        self,
        post: Self,
        p: u64,
        t: u64,
        r: u64,
        k: Key,
    )
        requires
            self.wf(),
            post.wf(),
            t < self.n(),
            self.live().dom().contains(p),
            self.at(r, Place::Live(p)),
            k == (Key { lane: Lane::Run, class: self.header(r).size_class, tid: t }),
            self.deallocated(post, p, t),
        ensures
            self.local(k).seq().len() < 8 ==> {
                &&& post.local(k).seq() == seq![r] + self.local(k).seq()
                &&& post.public(k).seq() == self.public(k).seq()
                &&& post.header(r).owner == t
                &&& post.header(r).state == SpanState::RunFreeLocal
                &&& post.stats == self.stats
            },
            self.local(k).seq().len() >= 8 ==> {
                &&& post.local(k).seq() == self.local(k).seq()
                &&& post.public(k).seq() == self.public(k).seq().push(r)
                &&& post.header(r).owner == OWNER_PUBLIC
                &&& post.header(r).state == SpanState::RunFreePublic
                &&& self.stats.published_runs < u64::MAX ==> post.stats.published_runs
                    == self.stats.published_runs + 1
                &&& post.stats == (AllocatorStats {
                    published_runs: post.stats.published_runs,
                    ..self.stats
                })
            },
            forall|j: Key| #[trigger]
                self.valid(j) && j != k ==> post.local(j).seq() == self.local(j).seq()
                    && post.public(j).seq() == self.public(j).seq(),
    {
        self.lemma_run_inside(r, p);
        self.lemma_run_bounds(r);
        assert(k == run_key(t, self.header(r).size_class as int));
        assert(self.valid(k));
        assert(seq![r] + self.local(k).seq() =~= crate::chain::cons(r, self.local(k).seq()));
    }

    /// A freed huge allocation leaves its run to its slot, for the next request
    /// that the slot fits; no other slot, list or piece of memory changes.
    pub proof fn law_freed_huge_slot_is_free(
        self,
        post: Self,
        p: u64,
        t: u64,
        c: int,
        j: int,
    )
        requires
            self.wf(),
            0 <= c < 3,
            0 <= j < 4,
            self.slot(c, j).state == HUGE_SLOT_ALLOCATED,
            self.slot(c, j).base <= p < self.slot(c, j).base + pow2(c as nat) * HG * 65536,
            self.live().dom().contains(p),
            Self::dispatch(self.live()[p]) is Huge,
            self.deallocated(post, p, t),
        ensures
            post.slot(c, j).state == HUGE_SLOT_FREE,
            post.slot(c, j).base == self.slot(c, j).base,
            post.slot(c, j).owner == t,
            post.slot(c, j).requested_size == self.slot(c, j).requested_size,
            post.slot(c, j).requested_align == self.slot(c, j).requested_align,
            forall|d: int, i: int|
                0 <= d < 3 && 0 <= i < 4 && !(d == c && i == j) ==> #[trigger] post.slot(d, i)
                    == self.slot(d, i),
            post.heaps == self.heaps,
            post.help == self.help,
            post.pool == self.pool,
            post.units() == self.units(),
            post.stats == self.stats,
    {
        let (d, i) = choose|d: int, i: int|
            {
                &&& #[trigger] self.slot_serves(d, i, p)
                &&& self.only_slot(post, d, i)
                &&& post.slot(d, i) == (HugeRunSlot {
                    state: HUGE_SLOT_FREE,
                    owner: t,
                    ..self.slot(d, i)
                })
                &&& post.live() == self.live().remove(p)
            };
        self.lemma_same_slot(p, c, j, d, i);
    }

    /// The public list of thread `u` for the class of `k`.
    pub open spec fn public_of(self, k: Key, u: int) -> Seq<u64> {
        self.public(Key { lane: k.lane, class: k.class, tid: u as u64 }).seq()
    }

    /// The request of thread `u` for the class of `k`: 0 if there is none, odd
    /// while it is pending, and else the span that completed it.
    pub open spec fn request_of(self, k: Key, u: int) -> u64 {
        self.word(Key { lane: k.lane, class: k.class, tid: u as u64 })
    }

    /// The first public list that is not empty, going round from the saved
    /// query position, is `e` threads further.
    pub open spec fn nearest_public(self, k: Key, e: int) -> bool {
        let n = self.n();
        let q = self.query(k) as int;
        &&& 0 <= e < n
        &&& forall|d: int| 0 <= d < e ==> #[trigger] self.public_of(k, (q + d) % n).len() == 0
        &&& self.public_of(k, (q + e) % n).len() > 0
    }

    /// Lists and words of a board are those of the threads.
    proof fn lemma_board_of(self, k: Key, u: int)
        requires
            0 <= u < self.n(),
        ensures
            self.board(k).lists[u] == self.public_of(k, u),
            self.board(k).words[u] == self.request_of(k, u),
    {
    }

    /// Where the nearest public list is.
    proof fn lemma_nearest(self, k: Key, e: int)
        requires
            self.n() >= 1,
            self.nearest_public(k, e),
        ensures
            ({
                let n = self.n();
                let q = self.query(k) as int % n;
                &&& next_full(self.board(k).lists, q, 0, n) == e
                &&& (q + e) % n == (self.query(k) + e) % n
                &&& 0 <= (q + e) % n < n
            }),
    {
        let n = self.n();
        let q = self.query(k) as int % n;
        let lists = self.board(k).lists;
        assert forall|d: int| 0 <= d <= e implies (self.query(k) + d) % n == #[trigger] ((q + d)
            % n) by {
            lemma_round(self.query(k) as int, d, n);
        }
        assert forall|d: int| 0 <= d < e implies lists[#[trigger] ((q + d) % n)].len() == 0 by {
            self.lemma_board_of(k, (q + d) % n);
            assert(self.public_of(k, (self.query(k) + d) % n).len() == 0);
        }
        self.lemma_board_of(k, (q + e) % n);
        lemma_next_is(lists, q, 0, e, n);
    }

    /// A span that waits in the own record is what an acquisition returns; the
    /// record is empty then, and no list and no position changes.
    pub proof fn law_completed_request_is_reclaimed(self, post: Self, k: Key, r: u64)
        requires
            self.wf(),
            self.valid(k),
            post.n() == self.n(),
            self.acquires(post, k, r) || self.asked(post, k) && r == self.acquisition(k).result,
            self.word(k) != 0,
            self.word(k) % 2 == 0,
        ensures
            r == self.word(k),
            post.word(k) == 0,
            post.query(k) == self.query(k) as int % self.n(),
            post.helping(k) == self.helping(k) as int % self.n(),
            post.record(k).last_phase == self.record(k).last_phase,
            forall|u: int|
                0 <= u < self.n() ==> #[trigger] post.public_of(k, u) == self.public_of(k, u),
            forall|u: int|
                0 <= u < self.n() && u != k.tid ==> #[trigger] post.request_of(k, u)
                    == self.request_of(k, u),
    {
        let t = k.tid as int;
        assert(peer(k, t) == k);
        self.lemma_board_of(k, t);
        post.lemma_board_of(k, t);
        assert forall|u: int| 0 <= u < self.n() implies #[trigger] post.public_of(k, u)
            == self.public_of(k, u) by {
            self.lemma_board_of(k, u);
            post.lemma_board_of(k, u);
        }
        assert forall|u: int| 0 <= u < self.n() && u != k.tid implies #[trigger] post.request_of(
            k,
            u,
        ) == self.request_of(k, u) by {
            self.lemma_board_of(k, u);
            post.lemma_board_of(k, u);
        }
    }

    /// An acquisition takes the first span of the first public list that is not
    /// empty, going round once from the saved query position, and leaves all
    /// other lists as they are. If the request at the saved helping position is
    /// another thread's and pending, that request gets this span, and the
    /// acquisition the next one in the same order, if there is one. The helping
    /// position moves on by one.
    pub proof fn law_acquisition_goes_round_once(
        self,
        post: Self,
        k: Key,
        r: u64,
        e: int,
        f: int,
    )
        requires
            self.wf(),
            self.valid(k),
            post.n() == self.n(),
            self.acquires(post, k, r) || self.asked(post, k) && r == self.acquisition(k).result,
            self.word(k) == 0 || self.word(k) % 2 == 1,
            self.nearest_public(k, e),
        ensures
            ({
                let n = self.n();
                let q = self.query(k) as int;
                let h = self.helping(k) as int % n;
                let u = (q + e) % n;
                let s = self.public_of(k, u)[0];
                let helps = h != k.tid && self.request_of(k, h) % 2 == 1;
                let left = |v: int| if v == u {
                    self.public_of(k, v).drop_first()
                } else {
                    self.public_of(k, v)
                };
                let v = (q + f) % n;
                &&& post.helping(k) == (h + 1) % n
                &&& post.word(k) == 0
                &&& post.record(k).last_phase == (self.record(k).last_phase + 1)
                    % 0x1_0000_0000_0000_0000
                &&& !helps ==> {
                    &&& r == s
                    &&& post.query(k) == u
                    &&& forall|w: int| 0 <= w < n ==> #[trigger] post.public_of(k, w) == left(w)
                    &&& forall|w: int|
                        0 <= w < n && w != k.tid ==> #[trigger] post.request_of(k, w)
                            == self.request_of(k, w)
                }
                &&& helps ==> post.request_of(k, h) == s && (forall|w: int|
                    0 <= w < n && w != k.tid && w != h ==> #[trigger] post.request_of(k, w)
                        == self.request_of(k, w))
                &&& helps && (forall|d: int| e <= d < n ==> (#[trigger] left((q + d) % n)).len()
                    == 0) ==> r == 0 && post.query(k) == q % n && (forall|w: int|
                    0 <= w < n ==> #[trigger] post.public_of(k, w) == left(w))
                &&& helps && e <= f < n && left(v).len() > 0 && (forall|d: int|
                    e <= d < f ==> (#[trigger] left((q + d) % n)).len() == 0) ==> r == left(v)[0]
                    && post.public_of(k, v) == left(v).drop_first() && post.query(k) == v && (
                forall|w: int|
                    0 <= w < n && w != v ==> #[trigger] post.public_of(k, w) == left(w))
            }),
    {
        let n = self.n();
        let q0 = self.query(k) as int;
        let q = q0 % n;
        let h = self.helping(k) as int % n;
        let t = k.tid as int;
        let b = self.board(k);
        let u = (q + e) % n;
        let left = |v: int| if v == u {
            self.public_of(k, v).drop_first()
        } else {
            self.public_of(k, v)
        };
        self.lemma_board_proper(k);
        assert(peer(k, t) == k);
        self.lemma_nearest(k, e);
        self.lemma_board_of(k, t);
        self.lemma_board_of(k, h);
        self.lemma_board_of(k, u);
        post.lemma_board_of(k, t);
        post.lemma_board_of(k, h);
        post.lemma_board_of(k, u);
        let s = b.lists[u][0];
        assert(completed(s));
        let helps = h != t && pending(b.words[h]);
        let b2 = b.take(u);
        assert forall|w: int| 0 <= w < n implies #[trigger] b2.lists[w] == left(w) by {
            self.lemma_board_of(k, w);
        }
        if !helps {
            assert forall|w: int| 0 <= w < n implies #[trigger] post.public_of(k, w) == left(w) by {
                self.lemma_board_of(k, w);
                post.lemma_board_of(k, w);
            }
            assert forall|w: int| 0 <= w < n && w != t implies #[trigger] post.request_of(k, w)
                == self.request_of(k, w) by {
                self.lemma_board_of(k, w);
                post.lemma_board_of(k, w);
            }
        } else {
            assert forall|d: int| (q0 + d) % n == #[trigger] ((q + d) % n) by {
                lemma_round(q0, d, n);
            }
            let lists = b2.write(h, s).lists;
            assert(lists == b2.lists);
            assert forall|w: int| 0 <= w < n implies {
                &&& #[trigger] post.public_of(k, w) == post.board(k).lists[w]
                &&& post.request_of(k, w) == post.board(k).words[w]
                &&& self.request_of(k, w) == b.words[w]
            } by {
                self.lemma_board_of(k, w);
                post.lemma_board_of(k, w);
            }
            assert forall|w: int|
                0 <= w < n && w != t && w != h implies #[trigger] post.request_of(k, w)
                == self.request_of(k, w) by {
                assert(post.public_of(k, w) == post.board(k).lists[w]);
            }
            if forall|d: int| e <= d < n ==> (#[trigger] left((q0 + d) % n)).len() == 0 {
                assert forall|d: int| e <= d < n implies lists[#[trigger] ((q + d) % n)].len()
                    == 0 by {
                    assert(left((q0 + d) % n).len() == 0);
                }
                lemma_next_is(lists, q, e, n, n);
            }
            let v = (q0 + f) % n;
            if e <= f < n && left(v).len() > 0 && (forall|d: int|
                e <= d < f ==> (#[trigger] left((q0 + d) % n)).len() == 0) {
                assert forall|d: int| e <= d < f implies lists[#[trigger] ((q + d) % n)].len()
                    == 0 by {
                    assert(left((q0 + d) % n).len() == 0);
                }
                assert((q + f) % n == v);
                lemma_next_is(lists, q, e, f, n);
                post.lemma_board_of(k, v);
            }
        }
    }

    /// Where all public lists of the class are empty and no span waits in the
    /// own record, an acquisition returns nothing and changes no list and no
    /// request but its own. It stays at its query position, and moves on from
    /// its helping position only where another thread's request is not pending.
    pub proof fn law_acquisition_of_nothing(self, post: Self, k: Key, r: u64)
        requires
            self.wf(),
            self.valid(k),
            post.n() == self.n(),
            self.acquires(post, k, r) || self.asked(post, k) && r == self.acquisition(k).result,
            self.word(k) == 0 || self.word(k) % 2 == 1,
            forall|u: int| 0 <= u < self.n() ==> #[trigger] self.public_of(k, u).len() == 0,
        ensures
            r == 0,
            post.word(k) == 0,
            post.query(k) == self.query(k) as int % self.n(),
            post.record(k).last_phase == (self.record(k).last_phase + 1) % 0x1_0000_0000_0000_0000,
            ({
                let h = self.helping(k) as int % self.n();
                post.helping(k) == (if h != k.tid && self.request_of(k, h) % 2 == 0 {
                    (h + 1) % self.n()
                } else {
                    h
                })
            }),
            forall|u: int| 0 <= u < self.n() ==> #[trigger] post.public_of(k, u).len() == 0,
            forall|u: int|
                0 <= u < self.n() && u != k.tid ==> #[trigger] post.request_of(k, u)
                    == self.request_of(k, u),
    {
        let n = self.n();
        let q = self.query(k) as int % n;
        let t = k.tid as int;
        let b = self.board(k);
        assert(peer(k, t) == k);
        self.lemma_board_of(k, t);
        post.lemma_board_of(k, t);
        self.lemma_board_of(k, self.helping(k) as int % n);
        assert forall|u: int| 0 <= u < n implies (#[trigger] b.lists[u]).len() == 0 by {
            self.lemma_board_of(k, u);
        }
        lemma_next_full_none(b.lists, q, 0, n);
        assert forall|u: int| 0 <= u < n implies #[trigger] post.public_of(k, u).len() == 0 by {
            self.lemma_board_of(k, u);
            post.lemma_board_of(k, u);
        }
        assert forall|u: int| 0 <= u < n && u != k.tid implies #[trigger] post.request_of(k, u)
            == self.request_of(k, u) by {
            self.lemma_board_of(k, u);
            post.lemma_board_of(k, u);
        }
    }

    /// A span whose links have landed serves one of its free blocks, the first
    /// of its local list if that is not empty, and none if it has none.
    proof fn lemma_served_block(self, s: u64)
        requires
            self.wf(),
            self.joined(),
            self.place().dom().contains(s),
            self.units()[s].kind is Small,
        ensures
            self.serve_block(s) == 0 <==> self.header(s).free_blocks().len() == 0,
            self.serve_block(s) != 0 ==> self.header(s).free_blocks().contains(
                self.serve_block(s),
            ),
            self.header(s).local.free.seq().len() > 0 ==> self.serve_block(s) == self.header(
                s,
            ).local.free.seq()[0],
            !self.stalls(s),
    {
        let h = self.header(s);
        let links = self.mem@.links;
        assert(landed(h, links));
        lemma_landed_refill(h, links);
        self.law_landed_blocks_are_recovered(s);
        self.lemma_free_room(s);
        lemma_refilled(&self.mem, s, links);
        let h2 = refilled(h, links);
        let b = self.serve_block(s);
        if b != 0 {
            if h.local.free.seq().len() > 0 {
                assert(h.free_blocks()[0] == b);
            } else {
                assert(h2.free_blocks()[0] == b);
                assert(h2.free_blocks().contains(b));
            }
        }
    }

    /// A private list whose first `v` spans have no free block, and whose next
    /// one, if it gets a turn, has one.
    pub open spec fn used_up(self, items: Seq<u64>, v: int) -> bool {
        &&& 0 <= v <= items.len()
        &&& v <= 41
        &&& forall|j: int|
            0 <= j < v ==> (#[trigger] self.header(items[j])).free_blocks().len() == 0
        &&& v < items.len() && v < 41 ==> self.header(items[v]).free_blocks().len() > 0
    }

    /// What the turns of such a list come to.
    proof fn lemma_used_up(self, k: Key, v: int)
        requires
            self.wf(),
            self.joined(),
            self.valid(k),
            k.lane == Lane::Span,
            self.used_up(self.local(k).seq(), v),
        ensures
            ({
                let items = self.local(k).seq();
                let t = self.turn(items, 41);
                &&& self.scan(items, 0, 41) == (if v < items.len() { v } else { 41 })
                &&& t.list == items.skip(v)
                &&& t.out == items.take(v)
                &&& t.kept == 0
            }),
    {
        let items = self.local(k).seq();
        self.lemma_listed_small(k);
        assert forall|j: int| 0 <= j < items.len() implies {
            &&& self.serve_block(#[trigger] items[j]) == 0 <==> self.header(
                items[j],
            ).free_blocks().len() == 0
        } by {
            assert(self.at(items[j], Place::Local(k)));
            self.lemma_served_block(items[j]);
        }
        assert forall|j: int| 0 <= j < v implies self.serve_block(#[trigger] items[j]) == 0
            && self.header(items[j]).free_blocks().len() == 0 by {
            assert(self.header(items[j]).free_blocks().len() == 0);
        }
        self.lemma_scan_used_up(items, 0, v);
        self.lemma_turn_used_up(items, 41, v);
    }

    /// The position of the first span that serves.
    proof fn lemma_scan_used_up(self, items: Seq<u64>, i: int, v: int)
        requires
            0 <= i <= v <= items.len(),
            v <= 41,
            forall|j: int| 0 <= j < v ==> self.serve_block(#[trigger] items[j]) == 0,
            v < items.len() && v < 41 ==> self.serve_block(items[v]) != 0,
        ensures
            self.scan(items, i, 41) == (if v < items.len() { v } else { 41 }),
        decreases v - i,
    {
        if i < v {
            self.lemma_scan_used_up(items, i + 1, v);
        }
    }

    /// The turns of a list whose first `v` spans have no free block.
    proof fn lemma_turn_used_up(self, list: Seq<u64>, n: int, v: int)
        requires
            0 <= v <= list.len(),
            v <= n,
            forall|j: int|
                0 <= j < v ==> self.serve_block(#[trigger] list[j]) == 0 && self.header(
                    list[j],
                ).free_blocks().len() == 0,
            v < list.len() && v < n ==> self.serve_block(list[v]) != 0,
        ensures
            self.turn(list, n).list == list.skip(v),
            self.turn(list, n).out == list.take(v),
            self.turn(list, n).kept == 0,
        decreases v,
    {
        if v > 0 {
            let rest = list.drop_first();
            assert(self.serve_block(list[0]) == 0);
            assert forall|j: int| 0 <= j < v - 1 implies self.serve_block(#[trigger] rest[j]) == 0
                && self.header(rest[j]).free_blocks().len() == 0 by {
                assert(rest[j] == list[j + 1]);
            }
            self.lemma_turn_used_up(rest, n - 1, v - 1);
            assert(rest.skip(v - 1) =~= list.skip(v));
            assert(crate::chain::cons(list[0], rest.take(v - 1)) =~= list.take(v));
        } else {
            assert(list.skip(0) =~= list);
            assert(list.take(0) =~= Seq::<u64>::empty());
        }
    }

    /// A small allocation is served by the first span of the private list that
    /// has a free block, if that is one of the first 41: it gets one of that
    /// span's free blocks, the first of its local list if that is not empty.
    /// The spans before it leave the list and are discarded. No other list, no
    /// record and nothing of the pool changes.
    pub proof fn law_own_spans_serve_first(
        self,
        post: Self,
        layout: Layout,
        k: Key,
        r: u64,
        v: int,
    )
        requires
            self.wf(),
            post.wf(),
            self.joined(),
            layout.valid(),
            self.valid(k),
            k.lane == Lane::Span,
            Self::dispatch(layout) == Path::Small(k.class),
            self.allocated(post, layout, k.tid, r),
            self.used_up(self.local(k).seq(), v),
            v < self.local(k).seq().len(),
            v < 41,
        ensures
            ({
                let items = self.local(k).seq();
                let h = self.header(items[v]);
                &&& r != 0
                &&& h.free_blocks().contains(r)
                &&& h.local.free.seq().len() > 0 ==> r == h.local.free.seq()[0]
                &&& post.local(k).seq() == items.skip(v)
                &&& post.header(items[v]).state == SpanState::NonEmptyLocal
                &&& forall|j: int|
                    0 <= j < v ==> post.header(#[trigger] items[j]).owner == OWNER_NONE
                        && post.header(items[j]).state == SpanState::Discarded
            }),
            post.pool == self.pool,
            spans_counted(self.stats, post.stats, 0, v, 0, 0),
            forall|j: Key| #[trigger]
                self.valid(j) ==> post.public(j) == self.public(j) && post.record(j)
                    == self.record(j) && (j != k ==> post.local(j) == self.local(j)),
    {
        let items = self.local(k).seq();
        self.lemma_listed_small(k);
        self.lemma_used_up(k, v);
        assert(self.at(items[v], Place::Local(k)));
        assert(items[v] != 0) by {
            reveal(WfSpanAllocator::order_ok);
            assert(self.local_ok(k));
            self.mem.lemma_view();
            self.lemma_span_address(items[v]);
        }
        self.lemma_served_block(items[v]);
        let none = Seq::<u64>::empty();
        assert(none + (none + items.skip(v)) =~= items.skip(v));
        assert(!items.take(v).contains(items[v])) by {
            reveal(WfSpanAllocator::order_ok);
            assert(self.local_ok(k));
            if items.take(v).contains(items[v]) {
                let w = choose|w: int| 0 <= w < v && items.take(v)[w] == items[v];
                assert(items[w] == items[v]);
            }
        }
        assert forall|j: int| 0 <= j < v implies post.header(#[trigger] items[j]).owner
            == OWNER_NONE && post.header(items[j]).state == SpanState::Discarded by {
            assert(self.at(items[j], Place::Local(k)));
            assert(items.take(v)[j] == items[j]);
            assert(items.take(v).contains(items[j]));
            post.law_owner_says_where(items[j]);
        }
        lemma_bumped_sum(self.stats.discarded_spans, v as nat);
    }

    /// The free blocks of a span wait for a link: its local list is empty, and
    /// the first of its stashed blocks, or of the remotely freed ones if none is
    /// stashed, is not linked yet.
    pub open spec fn stuck(self, s: u64) -> bool {
        let h = self.header(s);
        let links = self.mem@.links;
        &&& h.local.free.seq().len() == 0
        &&& if h.local.pending@.len() > 0 {
            links[h.local.pending@[0]] == UNLINKED
        } else {
            h.remote.free.seq().len() > 0 && links[h.remote.free.seq()[0]] == UNLINKED
        }
    }

    /// A small allocation passes spans whose free blocks wait for a link. They
    /// go to the end of the private list, in their order, and stay with the
    /// thread; each is counted as blocked, and none as discarded.
    pub proof fn law_stuck_spans_go_to_the_end(
        self,
        post: Self,
        layout: Layout,
        k: Key,
        r: u64,
        v: int,
    )
        requires
            self.wf(),
            post.wf(),
            layout.valid(),
            self.valid(k),
            k.lane == Lane::Span,
            Self::dispatch(layout) == Path::Small(k.class),
            self.allocated(post, layout, k.tid, r),
            0 <= v < self.local(k).seq().len(),
            v < 41,
            forall|j: int| 0 <= j < v ==> self.stuck(#[trigger] self.local(k).seq()[j]),
            self.header(self.local(k).seq()[v]).local.free.seq().len() > 0,
        ensures
            ({
                let items = self.local(k).seq();
                &&& r == self.header(items[v]).local.free.seq()[0]
                &&& post.local(k).seq() == items.skip(v) + items.take(v)
                &&& forall|j: int|
                    0 <= j < v ==> post.header(#[trigger] items[j]).owner == k.tid
                &&& self.stats.remote_blocked_events + v <= u64::MAX ==> post.stats
                    == (AllocatorStats {
                    remote_blocked_events: (self.stats.remote_blocked_events + v) as u64,
                    ..self.stats
                })
            }),
            post.pool == self.pool,
    {
        let items = self.local(k).seq();
        self.lemma_listed_small(k);
        assert forall|j: int| 0 <= j < v implies self.serve_block(#[trigger] items[j]) == 0
            && self.header(items[j]).free_blocks().len() > 0 by {
            self.lemma_stuck(items[j]);
        }
        let none = Seq::<u64>::empty();
        let list = items.skip(v) + items.take(v);
        assert(items.skip(0) + items.take(0) =~= items);
        assert(none + (none + list) =~= list);
        assert(self.at(items[v], Place::Local(k)));
        self.lemma_free_room(items[v]);
        self.lemma_scan_used_up(items, 0, v);
        self.lemma_turn_stuck(items, v, 0);
        lemma_bumped_sum(self.stats.remote_blocked_events, v as nat);
        assert forall|j: int| 0 <= j < v implies post.header(#[trigger] items[j]).owner
            == k.tid by {
            assert(self.at(items[j], Place::Local(k)));
            assert(list[items.len() - v + j] == items[j]);
            post.lemma_listed_small(k);
            assert(post.at(post.local(k).seq()[items.len() - v + j], Place::Local(k)));
            post.law_owner_says_where(items[j]);
        }
    }

    /// A span whose blocks wait has none to serve.
    proof fn lemma_stuck(self, s: u64)
        requires
            self.stuck(s),
        ensures
            self.serve_block(s) == 0,
            self.header(s).free_blocks().len() > 0,
    {
        broadcast use LocalFreeList::lemma_of, RemoteMpscFreeList::lemma_of;

        let h = self.header(s);
        let links = self.mem@.links;
        let p = h.local.pending@;
        if p.len() > 0 {
            lemma_stall_unique(links, p, 0);
        } else {
            lemma_stall_unique(links, p, 0);
            lemma_stall_unique(links, h.remote.free.seq(), 0);
        }
        assert(refilled(h, links).local.free.seq().len() == 0);
    }

    /// The turns of a list whose first spans wait.
    proof fn lemma_turn_stuck(self, items: Seq<u64>, v: int, j: int)
        requires
            0 <= j <= v < items.len(),
            v < 41,
            forall|i: int|
                0 <= i < v ==> self.serve_block(#[trigger] items[i]) == 0 && self.header(
                    items[i],
                ).free_blocks().len() > 0,
            self.serve_block(items[v]) != 0,
        ensures
            ({
                let t = self.turn(items.skip(j) + items.take(j), 41 - j);
                &&& t.list == items.skip(v) + items.take(v)
                &&& t.out == Seq::<u64>::empty()
                &&& t.kept == v - j
            }),
        decreases v - j,
    {
        let list = items.skip(j) + items.take(j);
        assert(list[0] == items[j]);
        if j < v {
            self.lemma_turn_stuck(items, v, j + 1);
            assert(list.drop_first().push(list[0]) =~= items.skip(j + 1) + items.take(j + 1));
        }
    }

    /// A thread none of whose first 41 spans of the class has a free block takes
    /// the span that waits in its record, if there is one: it goes to the front
    /// of its private list, and serves one of its free blocks.
    pub proof fn law_completed_request_serves(
        self,
        post: Self,
        layout: Layout,
        k: Key,
        r: u64,
        v: int,
    )
        requires
            self.wf(),
            post.wf(),
            self.joined(),
            layout.valid(),
            self.valid(k),
            k.lane == Lane::Span,
            Self::dispatch(layout) == Path::Small(k.class),
            self.allocated(post, layout, k.tid, r),
            self.used_up(self.local(k).seq(), v),
            v == self.local(k).seq().len() || v == 41,
            self.word(k) != 0,
            self.word(k) % 2 == 0,
            self.header(self.word(k)).free_blocks().len() > 0,
        ensures
            r != 0,
            self.header(self.word(k)).free_blocks().contains(r),
            post.local(k).seq() == seq![self.word(k)] + self.local(k).seq().skip(v),
            post.header(self.word(k)).owner == k.tid,
            post.word(k) == 0,
            post.pool == self.pool,
    {
        let got = self.word(k);
        self.lemma_used_up(k, v);
        assert(peer(k, k.tid as int) == k);
        self.lemma_board_of(k, k.tid as int);
        post.lemma_board_of(k, k.tid as int);
        assert(self.acquisition(k).result == got);
        self.law_acquired_span_serves(post, layout, k, r, v);
    }

    /// No private list but that of `k` changed, and no public list, request or
    /// position of another class.
    pub open spec fn other_lists_stay(self, post: Self, k: Key) -> bool {
        forall|j: Key| #[trigger]
            self.valid(j) ==> {
                &&& j != k ==> post.local(j).seq() == self.local(j).seq()
                &&& j.lane != k.lane || j.class != k.class ==> {
                    &&& post.public(j).seq() == self.public(j).seq()
                    &&& post.word(j) == self.word(j)
                    &&& post.query(j) == self.query(j)
                    &&& post.helping(j) == self.helping(j)
                }
            }
    }

    /// A thread none of whose first 41 spans of the class has a free block asks
    /// the public lists. The span that it gets goes to the front of its private
    /// list, and serves one of its free blocks.
    pub proof fn law_acquired_span_serves(
        self,
        post: Self,
        layout: Layout,
        k: Key,
        r: u64,
        v: int,
    )
        requires
            self.wf(),
            post.wf(),
            self.joined(),
            layout.valid(),
            self.valid(k),
            k.lane == Lane::Span,
            Self::dispatch(layout) == Path::Small(k.class),
            self.allocated(post, layout, k.tid, r),
            self.used_up(self.local(k).seq(), v),
            v == self.local(k).seq().len() || v == 41,
            self.acquisition(k).result != 0,
            self.header(self.acquisition(k).result).free_blocks().len() > 0,
        ensures
            r != 0,
            self.header(self.acquisition(k).result).free_blocks().contains(r),
            post.local(k).seq() == seq![self.acquisition(k).result] + self.local(k).seq().skip(v),
            post.header(self.acquisition(k).result).owner == k.tid,
            post.header(self.acquisition(k).result).state == SpanState::NonEmptyLocal,
            post.pool == self.pool,
            self.word(k) != 0 && self.word(k) % 2 == 0 ==> spans_counted(
                self.stats,
                post.stats,
                0,
                v,
                0,
                1,
            ),
            self.word(k) == 0 || self.word(k) % 2 == 1 ==> spans_counted(
                self.stats,
                post.stats,
                0,
                v,
                1,
                0,
            ),
            self.asked(post, k),
            self.other_lists_stay(post, k),
    {
        lemma_bumped_sum(self.stats.discarded_spans, v as nat);
        let items = self.local(k).seq();
        let got = self.acquisition(k).result;
        self.lemma_used_up(k, v);
        self.lemma_acquisition_is_span(k);
        self.lemma_served_block(got);
        let none = Seq::<u64>::empty();
        let list = seq![got] + items.skip(v);
        assert(none + list =~= list);
        assert(!items.take(v).contains(got)) by {
            if items.take(v).contains(got) {
                let w = choose|w: int| 0 <= w < v && items.take(v)[w] == got;
                self.lemma_listed_small(k);
                assert(self.at(items[w], Place::Local(k)));
            }
        }
        post.law_owner_says_where(got);
    }

    /// A thread none of whose first 41 spans of the class has a free block, and
    /// in whose record no span waits, takes the first span of the nearest public
    /// list that is not empty, unless the request at its helping position is
    /// another thread's and pending: the span goes to the front of its private
    /// list, and serves one of its free blocks.
    pub proof fn law_public_spans_serve_next(
        self,
        post: Self,
        layout: Layout,
        k: Key,
        r: u64,
        v: int,
        e: int,
    )
        requires
            self.wf(),
            post.wf(),
            self.joined(),
            layout.valid(),
            self.valid(k),
            k.lane == Lane::Span,
            Self::dispatch(layout) == Path::Small(k.class),
            self.allocated(post, layout, k.tid, r),
            self.used_up(self.local(k).seq(), v),
            v == self.local(k).seq().len() || v == 41,
            self.word(k) == 0 || self.word(k) % 2 == 1,
            self.nearest_public(k, e),
            ({
                let h = self.helping(k) as int % self.n();
                h == k.tid || self.request_of(k, h) % 2 == 0
            }),
            self.header(
                self.public_of(k, (self.query(k) + e) % self.n())[0],
            ).free_blocks().len() > 0,
        ensures
            ({
                let u = (self.query(k) + e) % self.n();
                let s = self.public_of(k, u)[0];
                &&& r != 0
                &&& self.header(s).free_blocks().contains(r)
                &&& post.local(k).seq() == seq![s] + self.local(k).seq().skip(v)
                &&& post.header(s).owner == k.tid
                &&& post.public_of(k, u) == self.public_of(k, u).drop_first()
            }),
            post.pool == self.pool,
    {
        let n = self.n();
        let u = (self.query(k) + e) % n;
        let h = self.helping(k) as int % n;
        self.lemma_nearest(k, e);
        assert(peer(k, k.tid as int) == k);
        self.lemma_board_of(k, k.tid as int);
        self.lemma_board_of(k, h);
        self.lemma_board_of(k, u);
        post.lemma_board_of(k, u);
        self.lemma_board_proper(k);
        assert(completed(self.board(k).lists[u][0]));
        assert(self.acquisition(k).result == self.public_of(k, u)[0]);
        self.law_acquired_span_serves(post, layout, k, r, v);
    }

    /// A thread none of whose first 41 spans of the class has a free block, and
    /// that gets no span from the public lists, carves the next span of the
    /// region and gets its first block, the first multiple of the block size
    /// behind the span's header. It gets nothing exactly if the region is used
    /// up.
    pub proof fn law_fresh_span_serves_last(
        self,
        post: Self,
        layout: Layout,
        k: Key,
        r: u64,
        v: int,
    )
        requires
            self.wf(),
            post.wf(),
            self.joined(),
            layout.valid(),
            self.valid(k),
            k.lane == Lane::Span,
            Self::dispatch(layout) == Path::Small(k.class),
            self.allocated(post, layout, k.tid, r),
            self.used_up(self.local(k).seq(), v),
            v == self.local(k).seq().len() || v == 41,
            self.acquisition(k).result == 0,
        ensures
            ({
                let bs = 16 * pow2(k.class as nat);
                let s = self.pool.base + self.pool.next * 65536;
                let rest = self.local(k).seq().skip(v);
                &&& r == 0 <==> self.pool.next >= self.pool.count
                &&& r != 0 ==> {
                    &&& (r - s) % bs as int == 0
                    &&& s + 1024 <= r < s + 1024 + bs
                    &&& post.pool.next == self.pool.next + 1
                    &&& post.local(k).seq() == seq![s as u64] + rest
                    &&& post.header(s as u64).owner == k.tid
                    &&& post.header(s as u64).state == SpanState::NonEmptyLocal
                    &&& post.header(s as u64).local.free.seq().len() == span_blocks(bs as int) - 1
                    &&& forall|i: int|
                        0 <= i < span_blocks(bs as int) - 1 ==> #[trigger] post.header(
                            s as u64,
                        ).local.free.seq()[i] == r + (i + 1) * bs
                    &&& post.header(s as u64).size_class == k.class
                    &&& post.header(s as u64).block_count == span_blocks(bs as int)
                    &&& spans_counted(self.stats, post.stats, 1, v, 0, 0)
                }
                &&& r == 0 ==> {
                    &&& post.local(k).seq() == rest
                    &&& spans_counted(self.stats, post.stats, 0, v, 0, 0)
                }
            }),
            self.asked(post, k),
            self.other_lists_stay(post, k),
    {
        let items = self.local(k).seq();
        self.lemma_used_up(k, v);
        lemma_bumped_sum(self.stats.discarded_spans, v as nat);
        let none = Seq::<u64>::empty();
        let rest = items.skip(v);
        assert(none + rest =~= rest);
        assert(none + (none + rest) =~= rest);
        lemma_class_size(k.class as int);
        let bs = class_size(k.class as int);
        law_block_sizes_double(k.class as nat);
        law_blocks_fill_the_span(bs as u64);
        if self.pool.next < self.pool.count {
            self.lemma_frontier(1);
            self.mem.lemma_view();
            assert(self.frontier() == self.pool.base + self.pool.next * 65536);
            let s = self.frontier();
            assert(seq![s as u64] + (none + rest) =~= seq![s as u64] + rest);
            post.lemma_free_room(s as u64);
            lemma_all_blocks(s as u64, bs as u64);
            let size = 16 * pow2(k.class as nat);
            assert(size == bs);
            assert(post.header(s as u64).local.free.seq() == all_blocks(s as u64, bs).drop_first());
            crate::small::lemma_fresh_first(s as u64, k.class);
            assert(all_blocks(s as u64, bs).len() == span_blocks(size as int));
            assert forall|i: int| 0 <= i < span_blocks(size as int) - 1 implies #[trigger] post.header(
                s as u64,
            ).local.free.seq()[i] == r + (i + 1) * size by {
                assert(all_blocks(s as u64, bs)[i + 1] == s + first_offset(bs) + (i + 1) * bs);
                assert(all_blocks(s as u64, bs)[0] == s + first_offset(bs) + 0 * bs);
            }
        }
    }

    /// A public span is memory for every thread: where some public list of the
    /// class holds a span, a small allocation of any thread succeeds, unless the
    /// request at its helping position is another thread's and pending. Public
    /// spans are full, and their links have landed.
    pub proof fn law_public_span_is_memory_for_all(
        self,
        layout: Layout,
        k: Key,
        u: int,
    )
        requires
            self.wf(),
            self.joined(),
            self.tidy(),
            self.valid(k),
            k.lane == Lane::Span,
            Self::dispatch(layout) == Path::Small(k.class),
            0 <= u < self.n(),
            self.public_of(k, u).len() > 0,
            ({
                let h = self.helping(k) as int % self.n();
                h == k.tid || self.request_of(k, h) % 2 == 0
            }),
        ensures
            self.alloc_result(layout, k.tid) != 0,
    {
        let n = self.n();
        let t = k.tid as int;
        let h = self.helping(k) as int % n;
        let q = self.query(k) as int % n;
        let b = self.board(k);
        let items = self.local(k).seq();
        self.lemma_board_proper(k);
        assert(peer(k, t) == k);
        self.lemma_board_of(k, t);
        self.lemma_board_of(k, h);
        self.lemma_board_of(k, u);
        let got = self.acquisition(k).result;
        let d = if u >= q { u - q } else { u - q + n };
        assert((q + d) % n == u) by {
            vstd::arithmetic::div_mod::lemma_small_mod(u as nat, n as nat);
            vstd::arithmetic::div_mod::lemma_mod_add_multiples_vanish(u, n);
        }
        lemma_next_found(b.lists, q, 0, d, n);
        lemma_next_full(b.lists, q, 0, n);
        let e = next_full(b.lists, q, 0, n);
        assert(completed(b.lists[(q + e) % n][0]));
        assert(got != 0);
        self.lemma_acquisition_is_span(k);
        self.lemma_free_room(got);
        crate::size_class::lemma_some_blocks(k.class as int);
        lemma_class_size(k.class as int);
        assert(self.full(got));
        self.lemma_served_block(got);
        self.lemma_scan_serves(items, 0, 41);
    }

    /// Surplus memory reaches the other threads: after the free that fills a
    /// span of a private list of more than 40, a small allocation of the same
    /// class succeeds for every thread, with the pool exhausted too, unless the
    /// request at its helping position is another thread's and pending.
    pub proof fn law_surplus_reaches_other_threads(
        self,
        post: Self,
        p: u64,
        t: u64,
        s: u64,
        k: Key,
        layout: Layout,
    )
        requires
            self.wf(),
            post.wf(),
            self.joined(),
            self.tidy(),
            t < self.n(),
            self.live().dom().contains(p),
            Self::dispatch(self.live()[p]) is Small,
            s % 65536 == 0,
            s <= p < s + 65536,
            self.header(s).owner == t,
            self.deallocated(post, p, t),
            post.header(s).free_blocks().len() == post.header(s).block_count,
            ({
                let own = Key { lane: Lane::Span, class: self.header(s).size_class, tid: t };
                self.local(own).seq().contains(s) && self.local(own).seq().len() > 40
            }),
            self.valid(k),
            k.lane == Lane::Span,
            k.class == self.header(s).size_class,
            Self::dispatch(layout) == Path::Small(k.class),
            ({
                let h = post.helping(k) as int % post.n();
                h == k.tid || post.request_of(k, h) % 2 == 0
            }),
        ensures
            post.alloc_result(layout, k.tid) != 0,
    {
        let own = Key { lane: Lane::Span, class: self.header(s).size_class, tid: t };
        self.law_surplus_full_span_is_published(post, p, t, s, own);
        assert(post.public_of(k, t as int) == post.public(own).seq());
        post.law_public_span_is_memory_for_all(layout, k, t as int);
    }

    /// Thread `t` finds no run of a class without carving one: its private list
    /// is empty, and the public lists give it none.
    pub open spec fn no_run(self, t: u64, class: int) -> bool {
        let k = Key { lane: Lane::Run, class: class as u64, tid: t };
        self.local(k).seq().len() == 0 && self.acquisition(k).result == 0
    }

    /// A large allocation gets to class `c`: no class from the least one that
    /// fits on has a run for it, and the pool has none of the least class.
    pub open spec fn gets_to_class(self, t: u64, min: int, c: int) -> bool {
        &&& 0 <= min <= c <= 17
        &&& forall|d: int| min <= d < c ==> #[trigger] self.no_run(t, d)
        &&& c > min ==> self.pool.next + pow2(min as nat) > self.pool.count
    }

    /// The search of a large allocation goes on to class `c`.
    proof fn lemma_gets_to_class(self, t: u64, min: int, class: int, c: int)
        requires
            self.wf(),
            t < self.n(),
            min <= class <= c,
            self.gets_to_class(t, min, c),
        ensures
            self.large_source(t, class, min) == self.large_source(t, c, min),
            self.large_stop(t, class, min) == self.large_stop(t, c, min),
        decreases c - class,
    {
        if class < c {
            assert(self.no_run(t, class));
            self.lemma_gets_to_class(t, min, class + 1, c);
        }
    }

    /// A large allocation takes the first run of its private list in the least
    /// class that has one, and leaves the others in the list.
    pub proof fn law_own_runs_serve_first(
        self,
        post: Self,
        layout: Layout,
        k: Key,
        min: u64,
        r: u64,
    )
        requires
            self.wf(),
            post.wf(),
            layout.valid(),
            k.lane == Lane::Run,
            k.class < 17,
            k.tid < self.n(),
            Self::dispatch(layout) is Large,
            run_class_of(layout) == Some(min),
            self.allocated(post, layout, k.tid, r),
            self.gets_to_class(k.tid, min as int, k.class as int),
            self.local(k).seq().len() > 0,
        ensures
            ({
                let run = self.local(k).seq()[0];
                &&& r == large_payload(run, layout)
                &&& r != 0
                &&& post.local(k).seq() == self.local(k).seq().drop_first()
                &&& post.header(run).owner == k.tid
                &&& post.header(run).state == SpanState::RunAllocated
                &&& post.place()[run] == Place::Live(r)
            }),
            post.pool == self.pool,
            post.stats == self.stats,
            forall|j: Key| #[trigger]
                self.valid(j) && j != k ==> post.local(j).seq() == self.local(j).seq(),
            forall|j: Key| #[trigger]
                self.valid(j) && (j.lane != Lane::Run || j.class < min || j.class >= k.class)
                    ==> post.public(j).seq() == self.public(j).seq() && post.word(j)
                    == self.word(j),
    {
        assert(k == run_key(k.tid, k.class as int));
        assert(self.valid(k));
        self.lemma_gets_to_class(k.tid, min as int, min as int, k.class as int);
        self.lemma_run_result(layout, k, min, self.local(k).seq()[0]);
    }

    /// The payload in the run that a large allocation uses.
    proof fn lemma_run_result(self, layout: Layout, k: Key, min: u64, run: u64)
        requires
            self.wf(),
            layout.valid(),
            k.tid < self.n(),
            Self::dispatch(layout) is Large,
            run_class_of(layout) == Some(min),
            run == self.large_source(k.tid, min as int, min as int),
            run != 0 || self.local(k).seq().len() > 0 && self.valid(k) && run
                == self.local(k).seq()[0],
        ensures
            run != 0,
            self.alloc_result(layout, k.tid) == large_payload(run, layout),
            self.alloc_result(layout, k.tid) != 0,
    {
        if self.local(k).seq().len() > 0 && self.valid(k) && run == self.local(k).seq()[0] {
            reveal(WfSpanAllocator::order_ok);
            assert(self.local_ok(k));
            assert(self.at(self.local(k).seq()[0], Place::Local(k)));
            self.mem.lemma_view();
            self.lemma_span_address(run);
        }
        lemma_run_class(layout);
        self.lemma_source_sound(k.tid, min as int, min as int);
        crate::large::lemma_large_payload(run, min, layout);
    }

    /// A large allocation whose private list of the class is empty takes the run
    /// that the public lists give it, if they do.
    pub proof fn law_acquired_run_serves(
        self,
        post: Self,
        layout: Layout,
        k: Key,
        min: u64,
        r: u64,
    )
        requires
            self.wf(),
            post.wf(),
            layout.valid(),
            k.lane == Lane::Run,
            k.class < 17,
            k.tid < self.n(),
            Self::dispatch(layout) is Large,
            run_class_of(layout) == Some(min),
            self.allocated(post, layout, k.tid, r),
            self.gets_to_class(k.tid, min as int, k.class as int),
            self.local(k).seq().len() == 0,
            self.acquisition(k).result != 0,
        ensures
            ({
                let run = self.acquisition(k).result;
                &&& r == large_payload(run, layout)
                &&& r != 0
                &&& post.header(run).owner == k.tid
                &&& post.header(run).state == SpanState::RunAllocated
                &&& post.place()[run] == Place::Live(r)
            }),
            post.pool == self.pool,
            self.word(k) != 0 && self.word(k) % 2 == 0 ==> runs_counted(
                self.stats,
                post.stats,
                0,
                0,
                1,
            ),
            self.word(k) == 0 || self.word(k) % 2 == 1 ==> runs_counted(
                self.stats,
                post.stats,
                0,
                1,
                0,
            ),
            self.asked(post, k),
            forall|j: Key| #[trigger]
                self.valid(j) ==> post.local(j).seq() == self.local(j).seq(),
            forall|j: Key| #[trigger]
                self.valid(j) && (j.lane != Lane::Run || j.class < min || j.class > k.class)
                    ==> post.public(j).seq() == self.public(j).seq() && post.word(j)
                    == self.word(j),
    {
        assert(k == run_key(k.tid, k.class as int));
        assert(self.valid(k));
        self.lemma_gets_to_class(k.tid, min as int, min as int, k.class as int);
        self.lemma_run_result(layout, k, min, self.acquisition(k).result);
        assert(self.asked(post, run_key(k.tid, k.class as int)));
    }

    /// A large allocation whose private list of the class is empty takes the run
    /// that waits in its record, if there is one.
    pub proof fn law_completed_run_request_serves(
        self,
        post: Self,
        layout: Layout,
        k: Key,
        min: u64,
        r: u64,
    )
        requires
            self.wf(),
            post.wf(),
            layout.valid(),
            k.lane == Lane::Run,
            k.class < 17,
            k.tid < self.n(),
            Self::dispatch(layout) is Large,
            run_class_of(layout) == Some(min),
            self.allocated(post, layout, k.tid, r),
            self.gets_to_class(k.tid, min as int, k.class as int),
            self.local(k).seq().len() == 0,
            self.word(k) != 0,
            self.word(k) % 2 == 0,
        ensures
            r == large_payload(self.word(k), layout),
            r != 0,
            post.word(k) == 0,
            post.header(self.word(k)).owner == k.tid,
            post.place()[self.word(k)] == Place::Live(r),
            post.pool == self.pool,
    {
        assert(k == run_key(k.tid, k.class as int));
        assert(self.valid(k));
        assert(peer(k, k.tid as int) == k);
        self.lemma_board_of(k, k.tid as int);
        post.lemma_board_of(k, k.tid as int);
        self.lemma_gets_to_class(k.tid, min as int, min as int, k.class as int);
        self.lemma_run_result(layout, k, min, self.word(k));
        assert(self.asked(post, run_key(k.tid, k.class as int)));
    }

    /// A large allocation with an empty private list of the class and no run in
    /// its record takes the first run of the nearest public list that is not
    /// empty, unless the request at its helping position is another thread's
    /// and pending.
    pub proof fn law_public_runs_serve_next(
        self,
        post: Self,
        layout: Layout,
        k: Key,
        min: u64,
        r: u64,
        e: int,
    )
        requires
            self.wf(),
            post.wf(),
            layout.valid(),
            k.lane == Lane::Run,
            k.class < 17,
            k.tid < self.n(),
            Self::dispatch(layout) is Large,
            run_class_of(layout) == Some(min),
            self.allocated(post, layout, k.tid, r),
            self.gets_to_class(k.tid, min as int, k.class as int),
            self.local(k).seq().len() == 0,
            self.word(k) == 0 || self.word(k) % 2 == 1,
            self.nearest_public(k, e),
            ({
                let h = self.helping(k) as int % self.n();
                h == k.tid || self.request_of(k, h) % 2 == 0
            }),
        ensures
            ({
                let u = (self.query(k) + e) % self.n();
                let run = self.public_of(k, u)[0];
                &&& r == large_payload(run, layout)
                &&& r != 0
                &&& post.public_of(k, u) == self.public_of(k, u).drop_first()
                &&& post.header(run).owner == k.tid
                &&& post.header(run).state == SpanState::RunAllocated
                &&& post.place()[run] == Place::Live(r)
            }),
            post.pool == self.pool,
    {
        let n = self.n();
        let u = (self.query(k) + e) % n;
        let h = self.helping(k) as int % n;
        assert(k == run_key(k.tid, k.class as int));
        assert(self.valid(k));
        self.lemma_nearest(k, e);
        assert(peer(k, k.tid as int) == k);
        self.lemma_board_of(k, k.tid as int);
        self.lemma_board_of(k, h);
        self.lemma_board_of(k, u);
        post.lemma_board_of(k, u);
        self.lemma_board_proper(k);
        let run = self.public_of(k, u)[0];
        assert(completed(self.board(k).lists[u][0]));
        assert(self.acquisition(k).result == run);
        self.lemma_gets_to_class(k.tid, min as int, min as int, k.class as int);
        self.lemma_run_result(layout, k, min, run);
        assert(self.asked(post, run_key(k.tid, k.class as int)));
    }

    /// A large allocation that finds no run of the least class that fits carves
    /// one from the pool, if that has as many spans left; only then does it look
    /// at larger classes.
    pub proof fn law_fresh_run_serves_before_larger_ones(
        self,
        post: Self,
        layout: Layout,
        t: u64,
        min: u64,
        r: u64,
    )
        requires
            self.wf(),
            post.wf(),
            layout.valid(),
            t < self.n(),
            Self::dispatch(layout) is Large,
            run_class_of(layout) == Some(min),
            self.allocated(post, layout, t, r),
            self.no_run(t, min as int),
            self.pool.next + pow2(min as nat) <= self.pool.count,
        ensures
            ({
                let run = self.pool.base + self.pool.next * 65536;
                &&& r == large_payload(run as u64, layout)
                &&& r != 0
                &&& post.pool.next == self.pool.next + pow2(min as nat)
                &&& post.header(run as u64).owner == t
                &&& post.header(run as u64).state == SpanState::RunAllocated
                &&& post.header(run as u64).size_class == min
                &&& runs_counted(self.stats, post.stats, 1, 0, 0)
            }),
            self.asked(post, Key { lane: Lane::Run, class: min, tid: t }),
            forall|j: Key| #[trigger]
                self.valid(j) ==> post.local(j).seq() == self.local(j).seq(),
    {
        let k = run_key(t, min as int);
        lemma_run_class(layout);
        lemma_pow2_pos(min as nat);
        self.lemma_frontier(pow2(min as nat) as int);
        self.mem.lemma_view();
        let run = self.frontier() as u64;
        assert(self.large_source(t, min as int, min as int) == run);
        assert(run == self.pool.base + self.pool.next * 65536);
        self.lemma_run_result(layout, k, min, run);
        reveal(WfSpanAllocator::order_ok);
        reveal(WfSpanAllocator::assets_ok);
        post.lemma_run_bounds(run);
        assert(self.large_stop(t, min as int, min as int) == min);
        assert(pow2(post.header(run).size_class as nat) == pow2(min as nat));
        lemma_pow2_same(post.header(run).size_class as nat, min as nat);
    }

    /// A large allocation fails where no class from the least one that fits on
    /// has a run for it and the pool has none of the least class, and then no
    /// private list, pool or live allocation changes.
    pub proof fn law_no_run_anywhere_fails(
        self,
        post: Self,
        layout: Layout,
        t: u64,
        min: u64,
        r: u64,
    )
        requires
            self.wf(),
            layout.valid(),
            t < self.n(),
            Self::dispatch(layout) is Large,
            run_class_of(layout) == Some(min),
            self.allocated(post, layout, t, r),
            self.gets_to_class(t, min as int, 17),
        ensures
            r == 0,
            post.live() == self.live(),
            post.pool == self.pool,
            post.stats == self.stats,
            forall|j: Key| #[trigger]
                self.valid(j) ==> post.local(j).seq() == self.local(j).seq(),
    {
        lemma_run_class(layout);
        self.lemma_gets_to_class(t, min as int, min as int, 17);
    }

    /// A huge allocation takes the first slot, from the least class that fits
    /// on, that holds a free run or, where it has none yet, whose run the pool
    /// has room for. All slots before it stay as they are.
    pub proof fn law_first_huge_slot_serves(
        self,
        post: Self,
        layout: Layout,
        t: u64,
        min: u64,
        r: u64,
        i: int,
    )
        requires
            self.wf(),
            post.wf(),
            layout.valid(),
            t < self.n(),
            Self::dispatch(layout) is Huge,
            huge_class_of(layout, HG * 65536) == Some(min),
            self.allocated(post, layout, t, r),
            4 * min <= i <= 12,
            forall|j: int|
                4 * min <= j < i ==> {
                    let x = #[trigger] self.slot(j / 4, j % 4);
                    x.state == HUGE_SLOT_ALLOCATED || x.state == HUGE_SLOT_EMPTY && self.pool.next
                        + pow2((j / 4) as nat) * HG > self.pool.count
                },
            i < 12 ==> {
                let x = self.slot(i / 4, i % 4);
                x.state == HUGE_SLOT_FREE || x.state == HUGE_SLOT_EMPTY && self.pool.next + pow2(
                    (i / 4) as nat,
                ) * HG <= self.pool.count
            },
        ensures
            i == 12 ==> r == 0 && post == self,
            i < 12 ==> {
                let x = self.slot(i / 4, i % 4);
                let spans = pow2((i / 4) as nat) * HG;
                let base: int = if x.state == HUGE_SLOT_FREE {
                    x.base as int
                } else {
                    self.pool.base + self.pool.next * 65536
                };
                let y = post.slot(i / 4, i % 4);
                &&& r == huge_payload(base as u64, layout.align)
                &&& r != 0
                &&& y.state == HUGE_SLOT_ALLOCATED
                &&& y.base == base
                &&& y.owner == t
                &&& y.requested_size == layout.size
                &&& y.requested_align == layout.align
                &&& post.pool.next == (if x.state == HUGE_SLOT_FREE {
                    self.pool.next as int
                } else {
                    self.pool.next + spans
                })
                &&& x.state == HUGE_SLOT_FREE ==> post.stats == self.stats
                &&& x.state == HUGE_SLOT_EMPTY ==> {
                    &&& self.stats.allocated_huge_runs < u64::MAX
                        ==> post.stats.allocated_huge_runs == self.stats.allocated_huge_runs + 1
                    &&& post.stats == (AllocatorStats {
                        allocated_huge_runs: post.stats.allocated_huge_runs,
                        ..self.stats
                    })
                }
                &&& forall|c: int, j: int|
                    0 <= c < 3 && 0 <= j < 4 && !(c == i / 4 && j == i % 4)
                        ==> #[trigger] post.slot(c, j) == self.slot(c, j)
            },
    {
        assert(Self::granule_bytes() == HG * 65536);
        self.lemma_pick_is(4 * min, i);
        if i < 12 {
            self.lemma_claim_serves(layout, min, i);
            let x = self.slot(i / 4, i % 4);
            let spans = pow2((i / 4) as nat) * HG;
            assert(spans * 65536 == pow2((i / 4) as nat) * (HG * 65536)) by (nonlinear_arith)
                requires
                    spans == pow2((i / 4) as nat) * HG,
            ;
            Self::lemma_larger_huge(layout, min, (i / 4) as u64);
            self.mem.lemma_view();
            if x.state == HUGE_SLOT_FREE {
                reveal(WfSpanAllocator::assets_ok);
                assert(self.slot_ok(i / 4, i % 4));
                self.lemma_huge_unit(i / 4, x.base);
                crate::huge::lemma_huge_payload(x.base, layout);
            } else {
                lemma_pow2_pos((i / 4) as nat);
                assert(spans >= 1) by (nonlinear_arith)
                    requires
                        spans == pow2((i / 4) as nat) * HG,
                        pow2((i / 4) as nat) >= 1,
                        HG >= 1,
                ;
                self.lemma_frontier(spans);
                self.mem.lemma_view();
                assert(self.frontier() == self.pool.base + self.pool.next * 65536);
                crate::huge::lemma_huge_payload(self.frontier() as u64, layout);
            }
            assert(self.slot_taken(post, i, layout, t));
        }
    }

    /// The first slot that can be claimed.
    proof fn lemma_pick_is(self, from: int, i: int)
        requires
            0 <= from <= i <= 12,
            forall|j: int|
                from <= j < i ==> {
                    let x = #[trigger] self.slot(j / 4, j % 4);
                    x.state == HUGE_SLOT_ALLOCATED || x.state == HUGE_SLOT_EMPTY && self.pool.next
                        + pow2((j / 4) as nat) * HG > self.pool.count
                },
            i < 12 ==> {
                let x = self.slot(i / 4, i % 4);
                x.state == HUGE_SLOT_FREE || x.state == HUGE_SLOT_EMPTY && self.pool.next + pow2(
                    (i / 4) as nat,
                ) * HG <= self.pool.count
            },
        ensures
            self.huge_pick(from) == i,
        decreases i - from,
    {
        if from < i {
            let x = self.slot(from / 4, from % 4);
            assert(!self.claimable(from));
            self.lemma_pick_is(from + 1, i);
        }
    }

    /// Some number of spans at the front of a list has no free block.
    proof fn lemma_used_up_exists(self, items: Seq<u64>, v: int) -> (w: int)
        requires
            0 <= v <= items.len(),
            v <= 41,
            forall|j: int|
                0 <= j < v ==> (#[trigger] self.header(items[j])).free_blocks().len() == 0,
        ensures
            self.used_up(items, w),
        decreases 41 - v,
    {
        if v < items.len() && v < 41 && self.header(items[v]).free_blocks().len() == 0 {
            self.lemma_used_up_exists(items, v + 1)
        } else {
            v
        }
    }

    /// A small allocation leaves the span of its block in front of the private
    /// list of the thread, which owns it.
    pub proof fn law_serving_span_is_in_front(
        self,
        post: Self,
        layout: Layout,
        k: Key,
        r: u64,
        s: u64,
    )
        requires
            self.wf(),
            post.wf(),
            self.joined(),
            self.tidy(),
            layout.valid(),
            self.valid(k),
            k.lane == Lane::Span,
            Self::dispatch(layout) == Path::Small(k.class),
            self.allocated(post, layout, k.tid, r),
            r != 0,
            s % 65536 == 0,
            s <= r < s + 65536,
        ensures
            post.local(k).seq().len() > 0,
            post.local(k).seq()[0] == s,
            post.header(s).owner == k.tid,
            post.header(s).size_class == k.class,
    {
        let items = self.local(k).seq();
        let v = self.lemma_used_up_exists(items, 0);
        post.lemma_small_entry(r, s);
        self.lemma_listed_small(k);
        if v < items.len() && v < 41 {
            self.law_own_spans_serve_first(post, layout, k, r, v);
            assert(self.at(items[v], Place::Local(k)));
            self.lemma_block_span(items[v], r, s);
            assert(items.skip(v)[0] == items[v]);
        } else {
            let got = self.acquisition(k).result;
            if got != 0 {
                self.lemma_acquisition_is_span(k);
                self.lemma_free_room(got);
                crate::size_class::lemma_some_blocks(k.class as int);
                lemma_class_size(k.class as int);
                assert(self.full(got));
                self.law_acquired_span_serves(post, layout, k, r, v);
                self.lemma_block_span(got, r, s);
            } else {
                self.law_fresh_span_serves_last(post, layout, k, r, v);
                let f = self.pool.base + self.pool.next * 65536;
                lemma_class_size(k.class as int);
                law_block_sizes_double(k.class as nat);
                self.lemma_frontier(1);
                self.mem.lemma_view();
                assert(f % 65536 == 0) by {
                    self.lemma_span_address(f as u64);
                }
                assert(s == f);
            }
        }
        assert(post.local(k).seq()[0] == s);
        reveal(WfSpanAllocator::order_ok);
        assert(post.local_ok(k));
        assert(post.at(s, Place::Local(k)));
        assert(post.place_ok(s));
    }

    /// A free block of a span lies in it.
    proof fn lemma_block_span(self, x: u64, r: u64, s: u64)
        requires
            self.wf(),
            self.place().dom().contains(x),
            self.units()[x].kind is Small,
            self.header(x).free_blocks().contains(r),
            s % 65536 == 0,
            s <= r < s + 65536,
        ensures
            s == x,
    {
        self.lemma_free_room(x);
        self.lemma_free_is_block(x, r);
        self.mem.lemma_view();
        self.lemma_span_address(x);
        let bs = self.header(x).block_size;
        lemma_is_pow2_bounds(bs);
        law_blocks_fill_the_span(bs);
    }

    /// A small block that a thread got and frees is the next one that it gets
    /// for the same request, unless the free fills the span of a private list of
    /// more than 40 spans, which is then public.
    pub proof fn law_freed_block_comes_back(
        self,
        mid: Self,
        post: Self,
        layout: Layout,
        k: Key,
        r: u64,
    )
        requires
            self.wf(),
            mid.wf(),
            post.wf(),
            self.joined(),
            self.tidy(),
            layout.valid(),
            self.valid(k),
            k.lane == Lane::Span,
            Self::dispatch(layout) == Path::Small(k.class),
            self.allocated(mid, layout, k.tid, r),
            r != 0,
            mid.deallocated(post, r, k.tid),
            ({
                let s = (r - r % 65536) as u64;
                mid.local(k).seq().len() <= 40 || mid.header(s).free_blocks().len() + 1
                    < mid.header(s).block_count
            }),
        ensures
            post.alloc_result(layout, k.tid) == r,
    {
        let s = (r - r % 65536) as u64;
        self.law_serving_span_is_in_front(mid, layout, k, r, s);
        assert(s == span_base(r));
        assert(mid.span_key(s, k.tid) == k);
        mid.lemma_small_entry(r, s);
        mid.law_freed_block_is_reused(post, r, k.tid, layout);
    }

    /// The metadata of `n` threads: one row of 88 bytes per size class and run
    /// class for each thread, rows being multiples of 16; behind them 16 bytes
    /// per thread and size class, and behind those 16 bytes per thread and run
    /// class, each table at the next multiple of 8.
    pub proof fn law_metadata_tables(n: int)
        requires
            n >= 1,
        ensures
            ({
                let row = Self::heap_row();
                let m = Self::offsets(n);
                &&& row % 16 == 0
                &&& 88 * (C + 17) <= row < 88 * (C + 17) + 16
                &&& m.heaps == 0
                &&& m.records % 8 == 0
                &&& row * n <= m.records < row * n + 8
                &&& m.run_records % 8 == 0
                &&& m.records + 16 * C * n <= m.run_records < m.records + 16 * C * n + 8
                &&& m.end == m.run_records + 16 * 17 * n
            }),
    {
        lemma_up(88 * (C + 17), 16);
        lemma_up(Self::heap_row() * n, 8);
        lemma_up(Self::offsets(n).records + 16 * C * n, 8);
    }

    /// A deallocation counts: one local step for the owner of the span of a
    /// block, and for a run; one remote step, one swap and one fetch-and-add for
    /// any other thread, and one compare-exchange if no block was visible
    /// before; and a look at each huge slot up to the one that holds the
    /// allocation. Nothing else is counted.
    pub proof fn law_deallocation_counts(
        self,
        p: u64,
        t: u64,
        base: StepCounter,
        now: StepCounter,
        s: u64,
        c: int,
        j: int,
    )
        requires
            self.wf(),
            base.room(12),
            self.live().dom().contains(p),
            self.dealloc_cost(p, t, base, now),
            s % 65536 == 0,
            s <= p < s + 65536,
            Self::dispatch(self.live()[p]) is Huge ==> {
                &&& 0 <= c < 3
                &&& 0 <= j < 4
                &&& self.slot(c, j).state == HUGE_SLOT_ALLOCATED
                &&& self.slot(c, j).base <= p < self.slot(c, j).base + pow2(c as nat) * HG * 65536
            },
        ensures
            match Self::dispatch(self.live()[p]) {
                Path::Small(_) => {
                    let own = self.header(s).owner == t;
                    let unseen = self.header(s).remote.free_count == 0;
                    &&& now.local_steps == base.local_steps + (if own { 1int } else { 0 })
                    &&& now.remote_steps == base.remote_steps + (if own { 0int } else { 1 })
                    &&& now.swap_ops == base.swap_ops + (if own { 0int } else { 1 })
                    &&& now.faa_ops == base.faa_ops + (if own { 0int } else { 1 })
                    &&& now.cas_attempts == base.cas_attempts + (if !own && unseen {
                        1int
                    } else {
                        0
                    })
                    &&& now.huge_slot_scans == base.huge_slot_scans
                },
                Path::Large => {
                    &&& now.local_steps == base.local_steps + 1
                    &&& now.remote_steps == base.remote_steps
                    &&& now.swap_ops == base.swap_ops
                    &&& now.faa_ops == base.faa_ops
                    &&& now.cas_attempts == base.cas_attempts
                    &&& now.huge_slot_scans == base.huge_slot_scans
                },
                Path::Huge => {
                    &&& now.huge_slot_scans == base.huge_slot_scans + 4 * c + j + 1
                    &&& now.local_steps == base.local_steps
                    &&& now.remote_steps == base.remote_steps
                    &&& now.swap_ops == base.swap_ops
                    &&& now.faa_ops == base.faa_ops
                    &&& now.cas_attempts == base.cas_attempts
                },
            },
            now.cas2_attempts == base.cas2_attempts,
            now.help_steps == base.help_steps,
            now.query_steps == base.query_steps,
            now.blocks_scanned == base.blocks_scanned,
            now.large_class_steps == base.large_class_steps,
    {
        match Self::dispatch(self.live()[p]) {
            Path::Small(_) => {
                self.lemma_small_entry(p, s);
            },
            Path::Large => {},
            Path::Huge => {
                let (d, i) = choose|d: int, i: int|
                    #[trigger] self.slot_serves(d, i, p) && now == (StepCounter {
                        huge_slot_scans: (base.huge_slot_scans + 4 * d + i + 1) as u64,
                        ..base
                    });
                self.lemma_same_slot(p, c, j, d, i);
            },
        }
    }

    /// A small allocation that an own span serves counts one local step and one
    /// swap for each span before it, and one local step for itself; if its local
    /// list was empty, one more local step, one swap, one fetch-and-add, and a
    /// look at each block that it absorbs. Nothing else is counted.
    pub proof fn law_steps_of_own_spans(self, layout: Layout, k: Key, v: int, step: StepCounter)
        requires
            self.wf(),
            self.joined(),
            self.valid(k),
            k.lane == Lane::Span,
            Self::dispatch(layout) == Path::Small(k.class),
            self.used_up(self.local(k).seq(), v),
            v < self.local(k).seq().len(),
            v < 41,
            step.room(0x2_0000),
        ensures
            ({
                let h = self.header(self.local(k).seq()[v]);
                let absorbs = h.local.free.seq().len() == 0;
                let now = self.alloc_count(layout, k.tid, step);
                &&& now.local_steps == step.local_steps + v + (if absorbs { 2int } else { 1 })
                &&& now.swap_ops == step.swap_ops + v + (if absorbs { 1int } else { 0 })
                &&& now.faa_ops == step.faa_ops + (if absorbs { 1int } else { 0 })
                &&& now.blocks_scanned == step.blocks_scanned + (if absorbs {
                    h.free_blocks().len() as int
                } else {
                    0
                })
                &&& now == (StepCounter {
                    local_steps: now.local_steps,
                    swap_ops: now.swap_ops,
                    faa_ops: now.faa_ops,
                    blocks_scanned: now.blocks_scanned,
                    ..step
                })
            }),
    {
        let items = self.local(k).seq();
        self.lemma_listed_small(k);
        self.lemma_used_up(k, v);
        assert forall|j: int| 0 <= j < items.len() implies {
            &&& self.serve_block(#[trigger] items[j]) == 0 <==> self.header(
                items[j],
            ).free_blocks().len() == 0
            &&& landed(self.header(items[j]), self.mem@.links)
        } by {
            assert(self.at(items[j], Place::Local(k)));
            self.lemma_served_block(items[j]);
        }
        assert forall|j: int| 0 <= j < v implies self.serve_block(#[trigger] items[j]) == 0
            && self.header(items[j]).free_blocks().len() == 0 by {
            assert(self.header(items[j]).free_blocks().len() == 0);
        }
        assert(self.at(items[v], Place::Local(k)));
        self.lemma_free_room(items[v]);
        lemma_refilled(&self.mem, items[v], self.mem@.links);
        self.lemma_count_used_up(items, 41, items.len() as int, v, step);
    }

    /// The counts of the turns of a list whose first `v` spans have no free
    /// block.
    proof fn lemma_count_used_up(
        self,
        list: Seq<u64>,
        n: int,
        unseen: int,
        v: int,
        step: StepCounter,
    )
        requires
            0 <= v < list.len(),
            v < n,
            unseen == list.len(),
            forall|j: int|
                0 <= j < v ==> self.serve_block(#[trigger] list[j]) == 0 && self.header(
                    list[j],
                ).free_blocks().len() == 0,
            self.serve_block(list[v]) != 0,
            landed(self.header(list[v]), self.mem@.links),
            self.header(list[v]).free_blocks().len() <= 0x1_0000,
            step.room(0x1_1000 + v),
        ensures
            ({
                let h = self.header(list[v]);
                let absorbs = h.local.free.seq().len() == 0;
                self.turn_count(list, n, unseen, step) == (StepCounter {
                    local_steps: (step.local_steps + v + (if absorbs { 2int } else { 1 })) as u64,
                    swap_ops: (step.swap_ops + v + (if absorbs { 1int } else { 0 })) as u64,
                    faa_ops: (step.faa_ops + (if absorbs { 1int } else { 0 })) as u64,
                    blocks_scanned: (step.blocks_scanned + (if absorbs {
                        h.free_blocks().len() as int
                    } else {
                        0
                    })) as u64,
                    ..step
                })
            }),
        decreases v,
    {
        let links = self.mem@.links;
        let s = list[0];
        let h = self.header(s);
        let asked = serve_count(h, links, step);
        if v > 0 {
            assert(self.serve_block(list[0]) == 0 && h.free_blocks().len() == 0);
            assert(landed(h, links));
            lemma_landed_counts(h, links, step);
            let rest = list.drop_first();
            assert forall|j: int| 0 <= j < v - 1 implies self.serve_block(#[trigger] rest[j]) == 0
                && self.header(rest[j]).free_blocks().len() == 0 by {
                assert(rest[j] == list[j + 1]);
            }
            assert(rest[v - 1] == list[v]);
            self.lemma_count_used_up(rest, n - 1, unseen - 1, v - 1, asked);
        } else {
            lemma_landed_counts(h, links, step);
            if h.local.free.seq().len() == 0 && h.free_blocks().len() == 0 {
                lemma_landed_refill(h, links);
            }
        }
    }

    /// The slot that holds a live huge allocation is the one whose memory it
    /// lies in.
    proof fn lemma_same_slot(self, p: u64, c: int, j: int, d: int, i: int)
        requires
            self.wf(),
            0 <= c < 3,
            0 <= j < 4,
            self.slot(c, j).state == HUGE_SLOT_ALLOCATED,
            self.slot(c, j).base <= p < self.slot(c, j).base + pow2(c as nat) * HG * 65536,
            self.live().dom().contains(p),
            Self::dispatch(self.live()[p]) is Huge,
            self.slot_serves(d, i, p),
        ensures
            d == c,
            i == j,
    {
        let u = self.slot(c, j).base;
        let v = self.slot(d, i).base;
        reveal(WfSpanAllocator::assets_ok);
        assert(self.slot_ok(c, j));
        assert(self.slot_ok(d, i));
        self.lemma_huge_unit(d, v);
        assert(self.live_entry(p));
        crate::huge::lemma_huge_payload(v, self.live()[p]);
        law_huge_payload_is_first(v, self.slot(d, i).requested_align, 0);
        if u < v {
            self.law_pieces_are_disjoint(u, v);
        } else if v < u {
            self.law_pieces_are_disjoint(v, u);
        }
        assert(u == v);
        assert(self.slots_distinct());
    }

    /// The step bounds of an allocation in numbers. A small one makes at most
    /// `n + 1` helping steps and `n` queries, no more double-word attempts than
    /// these together, one compare-exchange more, and looks at the blocks of at
    /// most 42 spans. A large one does that for at most 17 classes. A huge one
    /// looks at no more than 12 slots.
    pub proof fn law_allocation_steps_in_numbers(
        self,
        layout: Layout,
        base: StepCounter,
        now: StepCounter,
    )
        requires
            self.n() >= 1,
            self.alloc_cost(layout, base, now),
        ensures
            ({
                let n = self.n();
                let help = now.help_steps - base.help_steps;
                let query = now.query_steps - base.query_steps;
                match Self::dispatch(layout) {
                    Path::Small(c) => {
                        &&& 0 <= help <= n + 1
                        &&& 0 <= query <= n
                        &&& 0 <= now.cas2_attempts - base.cas2_attempts <= help + query
                        &&& 0 <= now.cas_attempts - base.cas_attempts <= help + query + 1
                        &&& 0 <= now.blocks_scanned - base.blocks_scanned <= 42 * span_blocks(
                            16 * pow2(c as nat) as int,
                        )
                        &&& now.remote_steps == base.remote_steps
                        &&& now.large_class_steps == base.large_class_steps
                        &&& now.huge_slot_scans == base.huge_slot_scans
                    },
                    Path::Large => {
                        &&& 0 <= now.large_class_steps - base.large_class_steps <= 17
                        &&& 0 <= help <= 17 * (n + 1)
                        &&& 0 <= query <= 17 * n
                        &&& 0 <= now.cas2_attempts - base.cas2_attempts <= help + query
                        &&& now.blocks_scanned == base.blocks_scanned
                        &&& now.huge_slot_scans == base.huge_slot_scans
                    },
                    Path::Huge => {
                        &&& 0 <= now.huge_slot_scans - base.huge_slot_scans <= 12
                        &&& help == 0
                        &&& query == 0
                        &&& now.cas2_attempts == base.cas2_attempts
                        &&& now.blocks_scanned == base.blocks_scanned
                    },
                }
            }),
    {
        let n = self.n();
        match Self::dispatch(layout) {
            Path::Small(c) => {
                law_block_sizes_double(c as nat);
            },
            Path::Large => {
                let i = choose|i: int|
                    0 <= i <= 17 && #[trigger] large_cost(base, now, i, self.n());
                assert(i * (n + 1) <= 17 * (n + 1)) by (nonlinear_arith)
                    requires
                        0 <= i <= 17,
                        n >= 1,
                ;
                assert(i * n <= 17 * n) by (nonlinear_arith)
                    requires
                        0 <= i <= 17,
                        n >= 1,
                ;
            },
            Path::Huge => {},
        }
    }

    /// A new allocator has its heaps, empty records, no memory and nothing
    /// counted.
    pub proof fn law_new_allocator_is_blank(self, n: int, k: Key)
        requires
            self.blank(n),
            self.valid(k),
        ensures
            self.n() == n,
            self.registry.max == n,
            self.pool.base == 0,
            self.pool.count == 0,
            self.pool.next == 0,
            self.word(k) == 0,
            self.record(k).last_phase == 0,
            self.query(k) == 0,
            self.helping(k) == 0,
            self.live() == Map::<u64, Layout>::empty(),
            self.stats.allocated_spans == 0,
            self.stats.discarded_spans == 0,
            self.stats.claimed_spans == 0,
            self.stats.published_spans == 0,
            self.stats.acquired_public_spans == 0,
            self.stats.help_record_spans == 0,
            self.stats.help_record_reclaimed == 0,
            self.stats.remote_blocked_events == 0,
            self.stats.allocated_runs == 0,
            self.stats.published_runs == 0,
            self.stats.acquired_public_runs == 0,
            self.stats.run_help_record_runs == 0,
            self.stats.run_help_record_reclaimed == 0,
            self.stats.allocated_huge_runs == 0,
    {
        assert(self.heaps.rows@[k.tid as int].blank());
    }

    /// After its initialization an allocator has empty lists whose version is
    /// 0, no request, all positions at the first thread, and empty huge slots.
    pub proof fn law_initialized_lists_are_empty(self, k: Key, c: int, j: int)
        requires
            self.started_empty(),
            self.valid(k),
            0 <= c < 3,
            0 <= j < 4,
        ensures
            self.local(k).seq() == Seq::<u64>::empty(),
            self.public(k).seq() == Seq::<u64>::empty(),
            self.public(k).head().version == 0,
            self.word(k) == 0,
            self.record(k).last_phase == 0,
            self.query(k) == 0,
            self.helping(k) == 0,
            self.slot(c, j).state == HUGE_SLOT_EMPTY,
            self.slot(c, j).base == 0,
    {
    }

    /// An acquisition makes one double-word attempt for each span that it takes
    /// out of the public lists.
    pub proof fn law_one_attempt_per_span_taken(self, k: Key, step: StepCounter)
        requires
            self.wf(),
            self.valid(k),
            self.acquiring(self.started(k)),
            step.room(4 * self.n() + 8),
        ensures
            self.acquire_count(k, step).cas2_attempts + listed(
                self.acquisition(k).board.lists,
                self.n(),
            ) == step.cas2_attempts + listed(self.board(k).lists, self.n()),
    {
        self.lemma_board_proper(k);
        self.lemma_acquire_begins(k, step, true);
        lemma_run_outcome(self.board(k), self.started(k), self.fresh(k), self.n());
        lemma_run_attempts(
            self.board(k),
            self.started(k),
            self.fresh(k),
            self.n(),
            step,
            step,
        );
    }
}

/// The statistics counted so many spans carved, discarded, acquired from public
/// lists and reclaimed from a record, and nothing else.
pub open spec fn spans_counted(
    before: AllocatorStats,
    after: AllocatorStats,
    carved: int,
    discarded: int,
    acquired: int,
    reclaimed: int,
) -> bool {
    &&& before.allocated_spans + carved <= u64::MAX ==> after.allocated_spans
        == before.allocated_spans + carved
    &&& before.discarded_spans + discarded <= u64::MAX ==> after.discarded_spans
        == before.discarded_spans + discarded
    &&& before.acquired_public_spans + acquired <= u64::MAX ==> after.acquired_public_spans
        == before.acquired_public_spans + acquired
    &&& before.help_record_reclaimed + reclaimed <= u64::MAX ==> after.help_record_reclaimed
        == before.help_record_reclaimed + reclaimed
    &&& after == (AllocatorStats {
        allocated_spans: after.allocated_spans,
        discarded_spans: after.discarded_spans,
        acquired_public_spans: after.acquired_public_spans,
        help_record_reclaimed: after.help_record_reclaimed,
        ..before
    })
}

/// The statistics counted so many runs carved, acquired from public lists and
/// reclaimed from a record, and nothing else.
pub open spec fn runs_counted(
    before: AllocatorStats,
    after: AllocatorStats,
    carved: int,
    acquired: int,
    reclaimed: int,
) -> bool {
    &&& before.allocated_runs + carved <= u64::MAX ==> after.allocated_runs
        == before.allocated_runs + carved
    &&& before.acquired_public_runs + acquired <= u64::MAX ==> after.acquired_public_runs
        == before.acquired_public_runs + acquired
    &&& before.run_help_record_reclaimed + reclaimed <= u64::MAX
        ==> after.run_help_record_reclaimed == before.run_help_record_reclaimed + reclaimed
    &&& after == (AllocatorStats {
        allocated_runs: after.allocated_runs,
        acquired_public_runs: after.acquired_public_runs,
        run_help_record_reclaimed: after.run_help_record_reclaimed,
        ..before
    })
}

/// Each event of an acquisition or a refill counts once, in the statistic of its
/// lane, and counters begin anew at 0 after their greatest value.
pub proof fn law_events_are_counted_once(stats: AllocatorStats)
    ensures
        stats.acquired_public_spans < u64::MAX ==> stats.acquired(Lane::Span) == (AllocatorStats {
            acquired_public_spans: (stats.acquired_public_spans + 1) as u64,
            ..stats
        }),
        stats.acquired_public_runs < u64::MAX ==> stats.acquired(Lane::Run) == (AllocatorStats {
            acquired_public_runs: (stats.acquired_public_runs + 1) as u64,
            ..stats
        }),
        stats.help_record_reclaimed < u64::MAX ==> stats.reclaimed(Lane::Span) == (AllocatorStats {
            help_record_reclaimed: (stats.help_record_reclaimed + 1) as u64,
            ..stats
        }),
        stats.run_help_record_reclaimed < u64::MAX ==> stats.reclaimed(Lane::Run) == (
        AllocatorStats {
            run_help_record_reclaimed: (stats.run_help_record_reclaimed + 1) as u64,
            ..stats
        }),
        stats.help_record_spans < u64::MAX ==> stats.stashed(Lane::Span) == (AllocatorStats {
            help_record_spans: (stats.help_record_spans + 1) as u64,
            ..stats
        }),
        stats.run_help_record_runs < u64::MAX ==> stats.stashed(Lane::Run) == (AllocatorStats {
            run_help_record_runs: (stats.run_help_record_runs + 1) as u64,
            ..stats
        }),
        stats.remote_blocked_events < u64::MAX ==> stats.blocked() == (AllocatorStats {
            remote_blocked_events: (stats.remote_blocked_events + 1) as u64,
            ..stats
        }),
        bumped(u64::MAX) == 0,
{
}

/// The spans used are those that the pool handed out, and never more than there
/// are.
pub proof fn law_used_spans(pool: FixedSpanPool)
    ensures
        pool.used() <= pool.count,
        pool.used() <= pool.next,
        pool.used() == pool.count || pool.used() == pool.next,
{
}

/// Spans in the first `n` lists.
pub open spec fn listed(lists: Seq<Seq<u64>>, n: int) -> nat
    decreases n,
{
    if n <= 0 {
        0
    } else {
        listed(lists, n - 1) + lists[n - 1].len()
    }
}

/// Requests among the first `n` words that hold a span.
pub open spec fn holding(words: Seq<u64>, n: int) -> nat
    decreases n,
{
    if n <= 0 {
        0
    } else {
        holding(words, n - 1) + (if words[n - 1] != 0 && words[n - 1] % 2 == 0 {
            1nat
        } else {
            0
        })
    }
}

/// Spans of a class that are in public lists, in records, or in the hands of an
/// acquisition.
pub open spec fn spans_about(b: Board, m: Acquisition, n: int) -> int {
    listed(b.lists, n) + holding(b.words, n) + (if m.held != 0 {
        1int
    } else {
        0
    }) + (if m.result != 0 {
        1int
    } else {
        0
    })
}

/// No step of an acquisition loses or doubles a span: each one that is in a
/// public list, in a record, or in the acquisition's hands stays in one of
/// these. A span that the acquisition has no use for goes to its own record.
pub proof fn law_acquisition_loses_no_span(b: Board, m: Acquisition, fresh: u64, n: int)
    requires
        b.proper(n),
        m.in_range(n),
        m.held == 0 || m.held % 2 == 0,
        m.result != 0 ==> m.stage is Finish || m.stage is Done,
        ({
            let own = b.words[m.key.tid as int];
            m.stage is Announce || m.stage is Finish && m.held != 0 ==> own == 0 || own % 2 == 1
        }),
    ensures
        ({
            let (b2, m2) = model_step(b, m, fresh, n);
            &&& spans_about(b2, m2, n) == spans_about(b, m, n)
            &&& m.stage is Finish && m.held != 0 ==> b2.words[m.key.tid as int] == m.held
        }),
{
    let t = m.key.tid as int;
    let (b2, m2) = model_step(b, m, fresh, n);
    match m.stage {
        Stage::Pop(_, _) => {
            let q = m.query_pos as int;
            if b.lists[q].len() > 0 {
                lemma_listed_update(b.lists, q, b.lists[q].drop_first(), n);
                assert(completed(b.lists[q][0]));
            }
        },
        Stage::Complete(own, phase) => {
            let u = m.target(own) as int;
            if b.words[u] == pending_word(phase) {
                lemma_holding_update(b.words, u, m.held, n);
            }
        },
        Stage::Announce => {
            lemma_holding_update(b.words, t, pending_word(fresh), n);
        },
        Stage::Finish => {
            lemma_holding_update(b.words, t, m.held, n);
        },
        _ => {
            lemma_holding_update(b.words, t, 0, n);
        },
    }
}

/// One list replaced.
proof fn lemma_listed_update(lists: Seq<Seq<u64>>, u: int, list: Seq<u64>, n: int)
    requires
        0 <= u < lists.len(),
        n <= lists.len(),
    ensures
        u < n ==> listed(lists.update(u, list), n) + lists[u].len() == listed(lists, n)
            + list.len(),
        u >= n ==> listed(lists.update(u, list), n) == listed(lists, n),
    decreases n,
{
    if n > 0 {
        lemma_listed_update(lists, u, list, n - 1);
    }
}

/// One word replaced.
proof fn lemma_holding_update(words: Seq<u64>, u: int, word: u64, n: int)
    requires
        0 <= u < words.len(),
        n <= words.len(),
    ensures
        u >= n ==> holding(words.update(u, word), n) == holding(words, n),
        u < n ==> holding(words.update(u, word), n) + (if words[u] != 0 && words[u] % 2 == 0 {
            1nat
        } else {
            0
        }) == holding(words, n) + (if word != 0 && word % 2 == 0 {
            1nat
        } else {
            0
        }),
    decreases n,
{
    if n > 0 {
        lemma_holding_update(words, u, word, n - 1);
    }
}

/// The attempts of what is left of an acquisition.
proof fn lemma_run_attempts(
    b: Board,
    m: Acquisition,
    fresh: u64,
    n: int,
    base: StepCounter,
    step: StepCounter,
)
    requires
        b.proper(n),
        m.in_range(n),
        n <= u64::MAX,
        calm(b, m, n),
        m.spent(base, step, n),
        base.room(4 * n + 8),
    ensures
        run_count(b, m, fresh, n, step).cas2_attempts + listed(run(b, m, fresh, n).0.lists, n)
            == step.cas2_attempts + listed(b.lists, n),
    decreases m.rank(n),
{
    if !(m.stage is Done) {
        let (b2, m2) = model_step(b, m, fresh, n);
        let then = step_count(b, m, n, step);
        lemma_model_step(b, m, fresh, n);
        lemma_calm_step(b, m, fresh, n);
        if let Stage::Pop(_, _) = m.stage {
            let q = m.query_pos as int;
            if b.lists[q].len() > 0 {
                lemma_listed_update(b.lists, q, b.lists[q].drop_first(), n);
            }
        }
        lemma_run_attempts(b2, m2, fresh, n, base, then);
    }
}

/// What asking a span counts whose links have landed.
proof fn lemma_landed_counts(h: SpanHeader, links: Map<u64, u64>, step: StepCounter)
    requires
        landed(h, links),
        h.free_blocks().len() <= 0x1_0000,
        step.room(0x1_1000),
    ensures
        h.local.free.seq().len() > 0 ==> serve_count(h, links, step) == (StepCounter {
            local_steps: (step.local_steps + 1) as u64,
            ..step
        }),
        h.local.free.seq().len() == 0 && h.free_blocks().len() > 0 ==> serve_count(h, links, step)
            == (StepCounter {
            local_steps: (step.local_steps + 2) as u64,
            swap_ops: (step.swap_ops + 1) as u64,
            faa_ops: (step.faa_ops + 1) as u64,
            blocks_scanned: (step.blocks_scanned + h.free_blocks().len()) as u64,
            ..step
        }),
        h.free_blocks().len() == 0 ==> serve_count(h, links, step) == (StepCounter {
            local_steps: (step.local_steps + 1) as u64,
            swap_ops: (step.swap_ops + 1) as u64,
            ..step
        }),
{
    let l = h.local.free.seq();
    let p = h.local.pending@;
    let r = h.remote.free.seq();
    let all = h.free_blocks();
    lemma_landed_refill(h, links);
    lemma_stall(links, p);
    lemma_stall(links, r);
    let a = stall(links, p) as int;
    let b = stall(links, r) as int;
    if a < p.len() {
        assert(all[l.len() + a] == p[a]);
        assert(all.contains(p[a]));
    }
    if b < r.len() {
        assert(all[l.len() + p.len() + b] == r[b]);
        assert(all.contains(r[b]));
    }
}

/// A refill goes through the stashed chain, and behind it through the remotely
/// freed blocks, up to the first block whose link is missing: what comes before
/// moves to the front of the local list, and the rest is stashed. The counts
/// follow the blocks.
pub proof fn law_refill_stops_at_a_missing_link(
    h: SpanHeader,
    links: Map<u64, u64>,
    a: int,
    b: int,
)
    requires
        ({
            let p = h.local.pending@;
            let r = h.remote.free.seq();
            &&& 0 <= a <= p.len()
            &&& 0 <= b <= r.len()
            &&& forall|i: int| 0 <= i < a ==> links[#[trigger] p[i]] != UNLINKED
            &&& forall|i: int| 0 <= i < b ==> links[#[trigger] r[i]] != UNLINKED
            &&& a < p.len() ==> links[p[a]] == UNLINKED
            &&& b < r.len() ==> links[r[b]] == UNLINKED
            &&& h.local.free_count + a + b <= u64::MAX
            &&& i64::MIN + a + b <= h.remote.free_count
        }),
    ensures
        ({
            let l = h.local.free.seq();
            let p = h.local.pending@;
            let r = h.remote.free.seq();
            let g = refilled(h, links);
            let list = g.local.free.seq();
            &&& a < p.len() ==> {
                &&& list.len() == a + l.len()
                &&& forall|i: int| 0 <= i < a ==> #[trigger] list[i] == p[a - 1 - i]
                &&& forall|i: int| 0 <= i < l.len() ==> #[trigger] list[a + i] == l[i]
                &&& g.local.pending@ == p.skip(a)
                &&& g.local.pending_remote == p[a]
                &&& g.remote.free == h.remote.free
                &&& g.local.free_count == h.local.free_count + a
                &&& g.remote.free_count == h.remote.free_count - a
            }
            &&& a == p.len() ==> {
                &&& list.len() == b + a + l.len()
                &&& forall|i: int| 0 <= i < b ==> #[trigger] list[i] == r[b - 1 - i]
                &&& forall|i: int| 0 <= i < a ==> #[trigger] list[b + i] == p[a - 1 - i]
                &&& forall|i: int| 0 <= i < l.len() ==> #[trigger] list[b + a + i] == l[i]
                &&& g.local.pending@ == r.skip(b)
                &&& b < r.len() ==> g.local.pending_remote == r[b]
                &&& b == r.len() ==> g.local.pending_remote == 0
                &&& g.remote.free.seq().len() == 0
                &&& g.local.free_count == h.local.free_count + a + b
                &&& g.remote.free_count == h.remote.free_count - a - b
            }
            &&& g.owner == h.owner
            &&& g.state == h.state
        }),
{
    broadcast use LocalFreeList::lemma_of, RemoteMpscFreeList::lemma_of;

    let p = h.local.pending@;
    let r = h.remote.free.seq();
    lemma_stall_unique(links, p, a);
    lemma_stall_unique(links, r, b);
}

/// A refill of a span whose links have landed puts all its stashed and remotely
/// freed blocks on the local list, the oldest first, and counts them there.
pub proof fn law_refill_puts_the_oldest_first(h: SpanHeader, links: Map<u64, u64>, i: int)
    requires
        landed(h, links),
        h.local.free.seq().len() == 0,
        h.local.pending@.len() == 0,
        h.local.free_count == 0,
        h.remote.free_count == h.remote.free.seq().len(),
        0 <= i < h.remote.free.seq().len(),
    ensures
        ({
            let r = h.remote.free.seq();
            let g = refilled(h, links);
            &&& g.local.free.seq().len() == r.len()
            &&& g.local.free.seq()[i] == r[r.len() - 1 - i]
            &&& g.local.free_count == r.len()
            &&& g.remote.free.seq().len() == 0
            &&& g.remote.free_count == 0
            &&& g.local.pending@.len() == 0
        }),
{
    broadcast use LocalFreeList::lemma_of, RemoteMpscFreeList::lemma_of;

    let l = h.local.free.seq();
    let p = h.local.pending@;
    let r = h.remote.free.seq();
    let all = h.free_blocks();
    lemma_landed_refill(h, links);
    lemma_stall(links, p);
    lemma_stall(links, r);
    let b = stall(links, r) as int;
    if b < r.len() {
        assert(all[l.len() + p.len() + b] == r[b]);
        assert(all.contains(r[b]));
    }
    assert(r.take(b) =~= r);
    assert(crate::chain::rev(r) + (crate::chain::rev(p) + l) =~= crate::chain::rev(r));
}

/// A request to the pool counts one fetch-and-add, and one compare-exchange more
/// where the spans do not fit; none where the region never had as many.
pub proof fn law_pool_requests_are_counted(pool: FixedSpanPool, spans: int, step: StepCounter)
    requires
        step.room(1),
    ensures
        ({
            let now = pool.run_count(spans, step);
            let tries = spans <= pool.count;
            let fits = pool.next + spans <= pool.count;
            &&& now.faa_ops == step.faa_ops + (if tries { 1int } else { 0 })
            &&& now.cas_attempts == step.cas_attempts + (if tries && !fits { 1int } else { 0 })
            &&& now == (StepCounter {
                faa_ops: now.faa_ops,
                cas_attempts: now.cas_attempts,
                ..step
            })
        }),
{
}

/// The bounds that step counts are held to, in numbers.
pub proof fn law_step_bounds(x: StepCounter, n: int, h: int, p: int, m: int, k: int)
    ensures
        x.within_bounds(n, h, p, m, k) <==> {
            &&& x.help_steps <= h * n + p + 1
            &&& x.query_steps <= p + n + 1
            &&& x.cas2_attempts <= x.help_steps + x.query_steps + 2
            &&& x.blocks_scanned <= m * (k + 2)
        },
{
}

/// The bound on the additional footprint: `q` is the number of threads divided
/// by the query limit, rounded up. With a query limit of at least the number of
/// threads it is `n * n` spans per class.
pub proof fn law_footprint_bound(n: int, c: int, s: int, p: int, q: int)
    requires
        n >= 1,
        p >= 1,
        q * p >= n > (q - 1) * p,
    ensures
        extra_bound(n, c, s, p) == (n + (q + n - 1) * (n - 1)) * c * s,
        p >= n ==> extra_bound(n, c, s, p) == n * n * c * s,
{
    let d = (n + p - 1) / p;
    vstd::arithmetic::div_mod::lemma_fundamental_div_mod(n + p - 1, p);
    let r = (n + p - 1) % p;
    assert(d == q) by (nonlinear_arith)
        requires
            n + p - 1 == p * d + r,
            0 <= r < p,
            q * p >= n,
            n > (q - 1) * p,
            p >= 1,
    ;
    if p >= n {
        assert(q == 1) by (nonlinear_arith)
            requires
                q * p >= n,
                n > (q - 1) * p,
                p >= n,
                n >= 1,
        ;
        assert(n + n * (n - 1) == n * n) by (nonlinear_arith);
    }
}

/// Powers of two differ.
proof fn lemma_pow2_same(a: nat, b: nat)
    requires
        pow2(a) == pow2(b),
    ensures
        a == b,
{
    if a < b {
        lemma_pow2_strictly_increases(a, b);
    } else if b < a {
        lemma_pow2_strictly_increases(b, a);
    }
}

/// A list that is not empty is found.
proof fn lemma_next_found(lists: Seq<Seq<u64>>, q: int, i: int, d: int, n: int)
    requires
        n >= 1,
        0 <= i <= d < n,
        lists[(q + d) % n].len() > 0,
    ensures
        next_full(lists, q, i, n) <= d,
    decreases d - i,
{
    if i < d && lists[(q + i) % n].len() == 0 {
        lemma_next_found(lists, q, i + 1, d, n);
    }
}

/// A counter after events that do not wrap it.
proof fn lemma_bumped_sum(counter: u64, n: nat)
    ensures
        counter + n <= u64::MAX ==> bumped_by(counter, n) == counter + n,
    decreases n,
{
    if n > 0 {
        lemma_bumped_sum(counter, (n - 1) as nat);
    }
}

/// Going round from a position or from its remainder is the same.
proof fn lemma_round(q: int, d: int, n: int)
    requires
        n >= 1,
    ensures
        (q + d) % n == (q % n + d) % n,
{
    vstd::arithmetic::div_mod::lemma_add_mod_noop(q, d, n);
    vstd::arithmetic::div_mod::lemma_add_mod_noop(q % n, d, n);
    vstd::arithmetic::div_mod::lemma_mod_twice(q, n);
}

/// The next list that is not empty is the first one that is not.
proof fn lemma_next_is(lists: Seq<Seq<u64>>, q: int, d: int, e: int, n: int)
    requires
        n >= 1,
        0 <= d <= e <= n,
        forall|i: int| d <= i < e ==> lists[#[trigger] ((q + i) % n)].len() == 0,
        e < n ==> lists[(q + e) % n].len() > 0,
    ensures
        next_full(lists, q, d, n) == e,
    decreases e - d,
{
    if d < e {
        assert(lists[(q + d) % n].len() == 0);
        lemma_next_is(lists, q, d + 1, e, n);
    }
}

} // verus!
