//! Fixed pre-provisioned span pool.
//!
//! Spans are `SPAN_SIZE`-aligned, so the span of an address is found by
//! masking; this module is the source of raw spans. The pool is a region
//! handed out from its start, and spans never return to it.

use crate::align::{lemma_up, round_up, up};
use crate::config::{SPAN_ALIGN, SPAN_SIZE};
use crate::stats::StepCounter;
use vstd::arithmetic::power2::{lemma2_to64, pow2};
use vstd::prelude::*;

verus! {

/// A region of `count` spans at `base`, of which `next` were handed out.
pub struct FixedSpanPool {
    /// Address of the first span.
    pub base: u64,
    /// Number of spans in the region.
    pub count: u64,
    /// Index of the next raw span; at or above `count` the pool is exhausted.
    pub next: u64,
}

/// First span boundary at or above an address.
pub open spec fn region_start(ptr: int) -> int {
    up(ptr, SPAN_ALIGN as int)
}

/// Whole spans between the first span boundary and the end of a region.
pub open spec fn region_spans(ptr: int, len: int) -> int {
    let end = if ptr + len <= u64::MAX { ptr + len } else { u64::MAX as int };
    if end <= region_start(ptr) { 0 } else { (end - region_start(ptr)) / SPAN_SIZE as int }
}

impl FixedSpanPool {
    /// The spans lie in the address space, at multiples of the span size.
    pub open spec fn wf(self) -> bool {
        &&& self.base % SPAN_SIZE == 0
        &&& self.base + self.count * SPAN_SIZE <= u64::MAX
    }

    /// Address of the span at an index.
    pub open spec fn span_at(self, i: int) -> int {
        self.base + i * SPAN_SIZE
    }

    /// Spans handed out so far.
    pub open spec fn used(self) -> u64 {
        if self.next < self.count {
            self.next
        } else {
            self.count
        }
    }

    pub fn new() -> (r: Self)
        ensures
            r.wf(),
            r.base == 0,
            r.count == 0,
            r.next == 0,
    {
        FixedSpanPool { base: 0, count: 0, next: 0 }
    }

    /// Install the backing region: the largest aligned array of spans inside
    /// `[ptr, ptr + len)`.
    pub fn set_region(&mut self, ptr: u64, len: u64)
        requires
            ptr + SPAN_ALIGN - 1 <= u64::MAX,
        ensures
            final(self).wf(),
            final(self).base == region_start(ptr as int),
            final(self).count == region_spans(ptr as int, len as int),
            final(self).next == 0,
    {
        proof {
            lemma2_to64();
            assert(SPAN_ALIGN == pow2(16));
            lemma_up(ptr as int, SPAN_ALIGN as int);
        }
        let start: u64 = round_up(ptr, SPAN_ALIGN);
        let end: u64 = ptr.saturating_add(len);
        self.base = start;
        self.count = end.saturating_sub(start) / SPAN_SIZE;
        self.next = 0;
    }

    /// Take one raw span, or 0 on exhaustion. One fetch-and-add.
    pub fn acquire_raw_span(&mut self, step: &mut StepCounter) -> (r: u64)
        requires
            old(self).wf(),
            old(step).room(1),
        ensures
            final(self).base == old(self).base,
            final(self).count == old(self).count,
            final(self).next == (if old(self).next < u64::MAX {
                (old(self).next + 1) as u64
            } else {
                u64::MAX
            }),
            r == (if old(self).next < old(self).count {
                old(self).span_at(old(self).next as int)
            } else {
                0
            }),
            *final(step) == (StepCounter { faa_ops: (old(step).faa_ops + 1) as u64, ..*old(step) }),
    {
        step.faa_ops = step.faa_ops + 1;
        let i: u64 = self.next;
        self.next = i.saturating_add(1);
        if i >= self.count {
            return 0;
        }
        proof {
            assert(i * SPAN_SIZE <= self.count * SPAN_SIZE) by (nonlinear_arith)
                requires
                    i <= self.count,
            ;
        }
        self.base + i * SPAN_SIZE
    }

    /// The step counts after a request for so many contiguous spans: one
    /// fetch-and-add unless the region has fewer spans, and one rollback
    /// where they do not fit.
    pub open spec fn run_count(self, spans: int, step: StepCounter) -> StepCounter {
        if spans > self.count {
            step
        } else if self.next + spans <= self.count {
            StepCounter { faa_ops: (step.faa_ops + 1) as u64, ..step }
        } else {
            StepCounter {
                faa_ops: (step.faa_ops + 1) as u64,
                cas_attempts: (step.cas_attempts + 1) as u64,
                ..step
            }
        }
    }

    /// Take `span_count` contiguous raw spans, or 0 where they do not fit.
    /// One fetch-and-add and at most one rollback; a failed request leaves
    /// the pool as it was.
    pub fn acquire_raw_run(&mut self, span_count: u64, step: &mut StepCounter) -> (r: u64)
        requires
            old(self).wf(),
            span_count >= 1,
            old(step).room(1),
        ensures
            final(self).base == old(self).base,
            final(self).count == old(self).count,
            r == (if old(self).next + span_count <= old(self).count {
                old(self).span_at(old(self).next as int)
            } else {
                0
            }),
            final(self).next == (if old(self).next + span_count <= old(self).count {
                (old(self).next + span_count) as u64
            } else {
                old(self).next
            }),
            *final(step) == old(self).run_count(span_count as int, *old(step)),
    {
        if span_count > self.count {
            return 0;
        }
        step.faa_ops = step.faa_ops + 1;
        let i: u64 = self.next;
        let bumped: u64 = i.wrapping_add(span_count);
        self.next = bumped;
        if i >= self.count || self.count - i < span_count {
            step.cas_attempts = step.cas_attempts + 1;
            if self.next == bumped {
                self.next = i;
            }
            return 0;
        }
        proof {
            assert(i * SPAN_SIZE <= self.count * SPAN_SIZE) by (nonlinear_arith)
                requires
                    i <= self.count,
            ;
        }
        self.base + i * SPAN_SIZE
    }

    /// Total spans in the region.
    pub fn spans_total(&self) -> (r: u64)
        ensures
            r == self.count,
    {
        self.count
    }

    /// Raw spans handed out so far.
    pub fn spans_used(&self) -> (r: u64)
        ensures
            r == self.used(),
    {
        if self.next < self.count {
            self.next
        } else {
            self.count
        }
    }

    pub fn base_addr(&self) -> (r: u64)
        ensures
            r == self.base,
    {
        self.base
    }
}

impl Default for FixedSpanPool {
    fn default() -> (r: Self)
        ensures
            r.wf(),
            r.base == 0,
            r.count == 0,
            r.next == 0,
    {
        FixedSpanPool::new()
    }
}

} // verus!
