//! Help records and the bounded helping primitive.
//!
//! A record is one word: empty (0), a pending request (low bit set, phase in
//! the other bits), or a completed request (the address of a span). A
//! completed record owns its span and is never overwritten before the span
//! is reclaimed.

use crate::atomic_backend::Cas2Backend;
use crate::config::MAX_LARGE_RUN_CLASSES;
use crate::memory::SpanMemory;
use crate::metadata::RuntimeSlice;
use crate::spmc_span_list::{SpmcSpanList, TryPop};
use crate::stats::StepCounter;
use vstd::prelude::*;

verus! {

/// A request word: empty, pending with a phase, or completed with a span.
#[derive(Copy, Clone, Debug, PartialEq, Eq, Structural)]
pub struct EncodedReq(pub u64);

/// The word of a pending request.
pub open spec fn pending_word(phase: u64) -> u64 {
    ((2 * phase) % 0x1_0000_0000_0000_0000 + 1) as u64
}

/// The word is that of a pending request.
pub open spec fn pending(word: u64) -> bool {
    word % 2 == 1
}

/// The word is that of a completed request: it owns a span.
pub open spec fn completed(word: u64) -> bool {
    word != 0 && word % 2 == 0
}

impl EncodedReq {
    pub fn empty() -> (r: Self)
        ensures
            r.0 == 0,
    {
        EncodedReq(0)
    }

    /// A pending request of a phase. The top bit of the phase is lost.
    pub fn pending(phase: u64) -> (r: Self)
        ensures
            r.0 == pending_word(phase),
            pending(r.0),
    {
        proof {
            assert(phase << 1 == (2 * phase) % 0x1_0000_0000_0000_0000int) by (bit_vector);
            assert((phase << 1) | 1 == (phase << 1) + 1) by (bit_vector);
        }
        EncodedReq((phase << 1) | 1)
    }

    /// A request completed with a span.
    pub fn done_with_span(span: u64) -> (r: Self)
        requires
            span % 2 == 0,
        ensures
            r.0 == span,
    {
        EncodedReq(span)
    }

    pub fn is_empty(self) -> (r: bool)
        ensures
            r == (self.0 == 0),
    {
        self.0 == 0
    }

    pub fn is_pending(self) -> (r: bool)
        ensures
            r == pending(self.0),
    {
        let w: u64 = self.0;
        proof {
            assert(w & 1 == w % 2) by (bit_vector);
        }
        (w & 1) == 1
    }

    /// The phase of a pending request.
    pub fn phase(self) -> (r: u64)
        ensures
            r == self.0 / 2,
    {
        let w: u64 = self.0;
        proof {
            assert(w >> 1 == w / 2) by (bit_vector);
        }
        w >> 1
    }

    /// The span of a completed request.
    pub fn span(self) -> (r: u64)
        ensures
            r == self.0 - self.0 % 2,
    {
        let w: u64 = self.0;
        proof {
            assert(w & !1 == w - w % 2) by (bit_vector);
        }
        w & !1
    }
}

/// Encoding and decoding a request: the three kinds of words exclude one
/// another, and each gives back what it was made from. A phase keeps its low
/// 63 bits.
pub proof fn law_encoding(phase: u64, span: u64)
    requires
        span % 2 == 0,
        span != 0,
    ensures
        pending(pending_word(phase)),
        pending_word(phase) != 0,
        pending_word(phase) / 2 == phase % 0x8000_0000_0000_0000,
        completed(span),
        !pending(span),
        !pending(0),
        !completed(0),
        span - span % 2 == span,
{
}

/// The request of one thread for one class, and the phase it used last.
pub struct HelpRecord {
    pub phase_pending_or_span: u64,
    pub last_phase: u64,
}

impl HelpRecord {
    pub fn new() -> (r: Self)
        ensures
            r == (HelpRecord { phase_pending_or_span: 0, last_phase: 0 }),
    {
        HelpRecord { phase_pending_or_span: 0, last_phase: 0 }
    }
}

impl Default for HelpRecord {
    fn default() -> (r: Self)
        ensures
            r == (HelpRecord { phase_pending_or_span: 0, last_phase: 0 }),
    {
        HelpRecord::new()
    }
}

/// Request table: one record per thread and size class, and one per thread
/// and run class.
pub struct HelpTable<const C: u64> {
    pub records: RuntimeSlice<Vec<HelpRecord>>,
    pub run_records: RuntimeSlice<Vec<HelpRecord>>,
}

/// A row of `n` empty records.
fn empty_row(n: u64) -> (r: Vec<HelpRecord>)
    ensures
        r@.len() == n,
        forall|i: int|
            0 <= i < n ==> r@[i] == (HelpRecord { phase_pending_or_span: 0, last_phase: 0 }),
{
    let mut r: Vec<HelpRecord> = Vec::new();
    let mut i: u64 = 0;
    while i < n
        invariant
            i <= n,
            r@.len() == i,
            forall|k: int|
                0 <= k < i ==> r@[k] == (HelpRecord { phase_pending_or_span: 0, last_phase: 0 }),
        decreases n - i,
    {
        r.push(HelpRecord::new());
        i = i + 1;
    }
    r
}

/// `rows` rows of `n` empty records.
fn empty_rows(rows: u64, n: u64) -> (r: Vec<Vec<HelpRecord>>)
    ensures
        r@.len() == rows,
        forall|t: int| 0 <= t < rows ==> (#[trigger] r@[t])@.len() == n,
        forall|t: int, i: int|
            0 <= t < rows && 0 <= i < n ==> #[trigger] r@[t]@[i] == (HelpRecord {
                phase_pending_or_span: 0,
                last_phase: 0,
            }),
{
    let mut r: Vec<Vec<HelpRecord>> = Vec::new();
    let mut t: u64 = 0;
    while t < rows
        invariant
            t <= rows,
            r@.len() == t,
            forall|k: int| 0 <= k < t ==> (#[trigger] r@[k])@.len() == n,
            forall|k: int, i: int|
                0 <= k < t && 0 <= i < n ==> #[trigger] r@[k]@[i] == (HelpRecord {
                    phase_pending_or_span: 0,
                    last_phase: 0,
                }),
        decreases rows - t,
    {
        r.push(empty_row(n));
        t = t + 1;
    }
    r
}

impl<const C: u64> HelpTable<C> {
    /// Every row has a record per class.
    pub open spec fn shape(self, threads: int) -> bool {
        &&& self.records.rows@.len() == threads
        &&& self.run_records.rows@.len() == threads
        &&& forall|t: int| 0 <= t < threads ==> (#[trigger] self.records.rows@[t])@.len() == C
        &&& forall|t: int|
            0 <= t < threads ==> (#[trigger] self.run_records.rows@[t])@.len()
                == MAX_LARGE_RUN_CLASSES
    }

    /// All records are empty.
    pub open spec fn blank(self, threads: int) -> bool {
        &&& self.shape(threads)
        &&& forall|t: int, i: int|
            0 <= t < threads && 0 <= i < C ==> #[trigger] self.records.rows@[t]@[i] == (HelpRecord {
                phase_pending_or_span: 0,
                last_phase: 0,
            })
        &&& forall|t: int, i: int|
            0 <= t < threads && 0 <= i < MAX_LARGE_RUN_CLASSES
                ==> #[trigger] self.run_records.rows@[t]@[i] == (HelpRecord {
                phase_pending_or_span: 0,
                last_phase: 0,
            })
    }

    pub fn new(threads: u64) -> (r: Self)
        ensures
            r.blank(threads as int),
    {
        HelpTable {
            records: RuntimeSlice::from_vec(empty_rows(threads, C)),
            run_records: RuntimeSlice::from_vec(empty_rows(threads, MAX_LARGE_RUN_CLASSES)),
        }
    }
}

/// Take a completed span out of `req` and clear it. Returns 0 if the record
/// was empty or still pending.
///
/// Only the owner of the record calls this. Clearing a pending phase is safe:
/// only the owner publishes phases, and the completion of a helper against
/// the cleared phase fails.
pub fn reclaim_request(req: &mut HelpRecord, step: &mut StepCounter) -> (r: u64)
    requires
        old(step).room(1),
    ensures
        r == (if completed(old(req).phase_pending_or_span) {
            old(req).phase_pending_or_span
        } else {
            0
        }),
        *final(req) == (HelpRecord { phase_pending_or_span: 0, ..*old(req) }),
        *final(step) == (StepCounter { swap_ops: (old(step).swap_ops + 1) as u64, ..*old(step) }),
{
    step.swap_ops = step.swap_ops + 1;
    let old_word: u64 = req.phase_pending_or_span;
    req.phase_pending_or_span = EncodedReq::empty().0;
    let enc = EncodedReq(old_word);
    if enc.is_empty() || enc.is_pending() {
        0
    } else {
        enc.span()
    }
}

/// Complete the request `req`, seen pending with the phase `phase`, with the
/// span `held`: one attempt, which fails if the record changed meanwhile.
/// Returns whether the record took the span over.
pub fn complete_request(req: &mut HelpRecord, phase: u64, held: u64, step: &mut StepCounter) -> (r:
    bool)
    requires
        held % 2 == 0,
        old(step).room(1),
    ensures
        r == (old(req).phase_pending_or_span == pending_word(phase)),
        *final(req) == (if r {
            HelpRecord { phase_pending_or_span: held, ..*old(req) }
        } else {
            *old(req)
        }),
        *final(step) == (StepCounter {
            cas_attempts: (old(step).cas_attempts + 1) as u64,
            ..*old(step)
        }),
{
    let expected: u64 = EncodedReq::pending(phase).0;
    let desired: u64 = EncodedReq::done_with_span(held).0;
    step.cas_attempts = step.cas_attempts + 1;
    if req.phase_pending_or_span == expected {
        req.phase_pending_or_span = desired;
        true
    } else {
        false
    }
}

/// Try once to complete the pending request `req` with a span popped from
/// `list`: at most one pop attempt and one compare-exchange.
///
/// `held_span` is a span popped earlier that has not been placed yet, or 0;
/// when the request is completed it moves into the record. `list_is_null` is
/// set when the list was found empty, so that the caller goes on to the next.
pub fn help_finishing_req<B: Cas2Backend>(
    list: &mut SpmcSpanList,
    mem: &mut SpanMemory,
    req: &mut HelpRecord,
    held_span: &mut u64,
    list_is_null: &mut bool,
    step: &mut StepCounter,
)
    requires
        old(mem).wf(),
        old(list).wf(old(mem)@),
        *old(held_span) % 2 == 0,
        old(step).room(2),
    ensures
        final(mem).wf(),
        final(list).wf(final(mem)@),
        ({
            let asked = pending(old(req).phase_pending_or_span);
            let pops = asked && *old(held_span) == 0;
            // No request: nothing happens.
            &&& !asked ==> *final(req) == *old(req) && *final(held_span) == *old(held_span)
            // A span in hand, or one popped, completes the request.
            &&& asked && *old(held_span) != 0 ==> *final(req) == (HelpRecord {
                phase_pending_or_span: *old(held_span),
                ..*old(req)
            }) && *final(held_span) == 0
            &&& pops ==> *final(held_span) == 0
            &&& pops && old(list).seq().len() == 0 ==> *final(req) == *old(req)
            &&& pops && old(list).seq().len() > 0 && B::strong() ==> *final(req) != *old(req)
            &&& pops && *final(req) != *old(req) ==> {
                &&& old(list).seq().len() > 0
                &&& *final(req) == (HelpRecord {
                    phase_pending_or_span: old(list).seq()[0],
                    ..*old(req)
                })
                &&& *final(list) == old(list).popped()
                &&& final(mem)@ == old(list).popped_mem(old(mem)@)
            }
            &&& !pops || *final(req) == *old(req) ==> *final(list) == *old(list) && final(mem)@
                == old(mem)@
            &&& *final(list_is_null) == (*old(list_is_null) || (pops && old(list).seq().len() == 0))
            &&& *final(step) == (StepCounter {
                cas_attempts: (old(step).cas_attempts + (if *final(req) != *old(req) {
                    1int
                } else {
                    0
                })) as u64,
                cas2_attempts: (old(step).cas2_attempts + (if pops && old(list).seq().len() > 0 {
                    1int
                } else {
                    0
                })) as u64,
                ..*old(step)
            })
        }),
{
    let start = EncodedReq(req.phase_pending_or_span);
    if !start.is_pending() {
        return;
    }
    let phase: u64 = start.phase();
    // Read again, so that no stale phase is helped.
    let now = EncodedReq(req.phase_pending_or_span);
    if !now.is_pending() || now.phase() != phase {
        return;
    }
    if *held_span == 0 {
        match list.try_pop_head_once::<B>(mem, step) {
            TryPop::Span(span) => {
                proof {
                    assert(old(list).seq()[0] != 0);
                    old(mem).lemma_view();
                }
                *held_span = span;
            },
            TryPop::Empty => {
                *list_is_null = true;
                return;
            },
            TryPop::Failed => {
                return;
            },
        }
    }
    if complete_request(req, phase, *held_span, step) {
        *held_span = 0;
    }
}

} // verus!
