//! Actions on help records and saved positions.

use crate::help_record::{
    complete_request, completed, pending_word, reclaim_request, EncodedReq, HelpRecord,
};
use crate::spmc_span_list::next_version;
use crate::state::{Key, Lane, Ledger, Place, WfSpanAllocator};
use crate::stats::{AllocatorStats, StepCounter};
use vstd::prelude::*;

verus! {

impl<const C: u64, const HG: u64> WfSpanAllocator<C, HG> {
    /// No list changed, and no record but that of `k`.
    pub open spec fn only_record(self, post: Self, k: Key) -> bool {
        &&& self.inert(post)
        &&& post.stats == self.stats
        &&& self.same_cursors(post)
        &&& self.same_locals(post)
        &&& self.same_publics(post)
        &&& self.records_but(post, k)
        &&& post.mem@ == self.mem@
    }

    /// Order is kept when the record of `k` changes and `s` moves into a
    /// thread's hands, into that record, or not at all.
    proof fn lemma_recorded(self, pre: Self, k: Key, s: u64)
        requires
            pre.order_ok(),
            pre.valid(k),
            pre.only_record(self, k),
            self.homes() == pre.homes(),
            self.record_ok(k),
            self.place().dom() == pre.place().dom(),
            forall|x: u64| #[trigger]
                pre.place().dom().contains(x) ==> self.place()[x] == pre.place()[x] || (x == s
                    && self.place_ok(x) && !(pre.place()[x] is Local) && !(pre.place()[x] is Public)
                    && (pre.place()[x] is Record ==> pre.place()[x] == Place::Record(k))),
            forall|x: u64| #[trigger]
                pre.at(x, Place::Record(k)) && self.place()[x] == pre.place()[x] ==> self.word(k)
                    == x,
        ensures
            self.order_ok(),
    {
        reveal(WfSpanAllocator::order_ok);
        assert forall|j: Key| #[trigger] self.valid(j) implies self.local_ok(j) && self.public_ok(j)
            && self.record_ok(j) by {
            assert(pre.valid(j));
            assert forall|i: int| 0 <= i < self.local(j).seq().len() implies self.at(
                #[trigger] self.local(j).seq()[i],
                Place::Local(j),
            ) by {
                assert(pre.at(pre.local(j).seq()[i], Place::Local(j)));
                assert(pre.place().dom().contains(pre.local(j).seq()[i]));
            }
            assert forall|i: int| 0 <= i < self.public(j).seq().len() implies self.at(
                #[trigger] self.public(j).seq()[i],
                Place::Public(j),
            ) by {
                assert(pre.at(pre.public(j).seq()[i], Place::Public(j)));
                assert(pre.place().dom().contains(pre.public(j).seq()[i]));
            }
            if j != k && completed(self.word(j)) {
                assert(pre.at(pre.word(j), Place::Record(j)));
                assert(pre.place().dom().contains(pre.word(j)));
            }
        }
        assert forall|x: u64| #[trigger] self.place().dom().contains(x) implies self.place_ok(x) by {
            assert(pre.place().dom().contains(x));
            if self.place()[x] == pre.place()[x] {
                assert(pre.place_ok(x));
                match pre.place()[x] {
                    Place::Record(j) => {
                        if j == k {
                            assert(pre.at(x, Place::Record(k)));
                        }
                    },
                    _ => {},
                }
            }
        }
        assert(self.homes_ok());
    }

    /// The word of a record.
    pub(crate) fn load_word(&self, k: Key) -> (r: u64)
        requires
            self.shape(),
            self.valid(k),
        ensures
            r == self.word(k),
    {
        let n: usize = self.heaps.rows.len();
        let t: usize = k.tid as usize;
        let c: usize = k.class as usize;
        match k.lane {
            Lane::Span => self.help.records.rows[t][c].phase_pending_or_span,
            Lane::Run => self.help.run_records.rows[t][c].phase_pending_or_span,
        }
    }

    /// Publish a new pending request and return its phase.
    pub(crate) fn announce(&mut self, k: Key) -> (phase: u64)
        requires
            old(self).wf(),
            old(self).valid(k),
            !completed(old(self).word(k)),
        ensures
            final(self).wf(),
            old(self).only_record(*final(self), k),
            final(self).place() == old(self).place(),
            phase == next_version(old(self).record(k).last_phase),
            final(self).record(k) == (HelpRecord {
                phase_pending_or_span: pending_word(phase),
                last_phase: phase,
            }),
    {
        let ghost pre = *self;
        let n: usize = self.heaps.rows.len();
        let t: usize = k.tid as usize;
        let c: usize = k.class as usize;
        let phase: u64 = match k.lane {
            Lane::Span => {
                let phase: u64 = self.help.records.rows[t][c].last_phase.wrapping_add(1);
                self.help.records.rows[t][c].last_phase = phase;
                self.help.records.rows[t][c].phase_pending_or_span = EncodedReq::pending(phase).0;
                phase
            },
            Lane::Run => {
                let phase: u64 = self.help.run_records.rows[t][c].last_phase.wrapping_add(1);
                self.help.run_records.rows[t][c].last_phase = phase;
                self.help.run_records.rows[t][c].phase_pending_or_span = EncodedReq::pending(
                    phase,
                ).0;
                phase
            },
        };
        proof {
            assert(self.shape());
            assert(pre.records_but(*self, k));
            self.lemma_word_only(pre, k);
        }
        phase
    }

    /// A record that owns no span changes to one that owns none either.
    proof fn lemma_word_only(self, pre: Self, k: Key)
        requires
            pre.wf(),
            pre.valid(k),
            pre.only_record(self, k),
            self.ledger == pre.ledger,
            self.mem.wf(),
            !completed(pre.word(k)),
            !completed(self.word(k)),
        ensures
            self.wf(),
    {
        assert forall|x: u64| #[trigger] pre.at(x, Place::Record(k)) implies self.word(k) == x by {
            reveal(WfSpanAllocator::order_ok);
            assert(pre.place_ok(x));
            pre.lemma_span_address(x);
        }
        self.lemma_recorded(pre, k, 0);
        pre.lemma_assets_frame(self);
    }

    /// One attempt to complete the request of `k`, seen pending with `phase`,
    /// with the span `s`: it succeeds exactly if the request is still pending
    /// with that phase, and then the record takes the span over.
    pub open spec fn completion(self, post: Self, k: Key, phase: u64, s: u64, r: bool) -> bool {
        &&& r == (self.word(k) == pending_word(phase))
        &&& self.only_record(post, k)
        &&& r ==> post.place() == self.place().insert(s, Place::Record(k)) && post.record(k) == (
        HelpRecord { phase_pending_or_span: s, ..self.record(k) })
        &&& !r ==> post.place() == self.place() && post.record(k) == self.record(k)
    }

    /// Complete the request of `k`, seen pending with `phase`, with a span in
    /// the hands of `tid`. One attempt; returns whether the record took over.
    pub(crate) fn complete(&mut self, k: Key, tid: u64, phase: u64, s: u64, step: &mut StepCounter)
        -> (r: bool)
        requires
            old(self).wf(),
            old(self).valid(k),
            old(self).at(s, Place::Transit(tid)),
            old(self).fits(s, k),
            old(step).room(1),
        ensures
            final(self).wf(),
            old(self).completion(*final(self), k, phase, s, r),
            *final(step) == (StepCounter {
                cas_attempts: (old(step).cas_attempts + 1) as u64,
                ..*old(step)
            }),
    {
        let ghost pre = *self;
        proof {
            reveal(WfSpanAllocator::order_ok);
            assert(pre.place_ok(s));
            pre.lemma_span_address(s);
        }
        let n: usize = self.heaps.rows.len();
        let t: usize = k.tid as usize;
        let c: usize = k.class as usize;
        let r: bool = match k.lane {
            Lane::Span => complete_request(&mut self.help.records.rows[t][c], phase, s, step),
            Lane::Run => complete_request(&mut self.help.run_records.rows[t][c], phase, s, step),
        };
        if r {
            self.ledger = Ghost(
                Ledger { place: self.ledger@.place.insert(s, Place::Record(k)), ..self.ledger@ },
            );
        }
        proof {
            assert(self.shape());
            assert(pre.records_but(*self, k));
            assert(self.mem@.headers.dom() =~= pre.mem@.headers.dom());
            if r {
                assert forall|x: u64| #[trigger]
                    pre.at(x, Place::Record(k)) && x != s implies self.word(k) == x by {
                    reveal(WfSpanAllocator::order_ok);
                    assert(pre.place_ok(x));
                    pre.lemma_span_address(x);
                }
                assert(self.place().dom() =~= pre.place().dom());
                self.lemma_recorded(pre, k, s);
                pre.lemma_assets_frame(*self);
            } else {
                assert forall|x: u64| #[trigger] pre.at(x, Place::Record(k)) implies self.word(k)
                    == x by {
                    reveal(WfSpanAllocator::order_ok);
                    assert(pre.place_ok(x));
                }
                assert(self.record_ok(k)) by {
                    reveal(WfSpanAllocator::order_ok);
                    assert(pre.record_ok(k));
                }
                self.lemma_recorded(pre, k, 0);
                pre.lemma_assets_frame(*self);
            }
        }
        r
    }

    /// Clear the thread's own record and take over the span of a completed
    /// request. Returns 0 if there was none.
    pub(crate) fn reclaim(&mut self, k: Key, step: &mut StepCounter) -> (r: u64)
        requires
            old(self).wf(),
            old(self).valid(k),
            old(step).room(1),
        ensures
            final(self).wf(),
            r == (if completed(old(self).word(k)) {
                old(self).word(k)
            } else {
                0
            }),
            old(self).only_record(*final(self), k),
            final(self).record(k) == (HelpRecord {
                phase_pending_or_span: 0,
                ..old(self).record(k)
            }),
            r != 0 ==> old(self).at(r, Place::Record(k)) && final(self).place() == old(
                self,
            ).place().insert(r, Place::Transit(k.tid)),
            r == 0 ==> final(self).place() == old(self).place(),
            *final(step) == (StepCounter { swap_ops: (old(step).swap_ops + 1) as u64, ..*old(step) }),
    {
        let ghost pre = *self;
        let n: usize = self.heaps.rows.len();
        let t: usize = k.tid as usize;
        let c: usize = k.class as usize;
        let r: u64 = match k.lane {
            Lane::Span => reclaim_request(&mut self.help.records.rows[t][c], step),
            Lane::Run => reclaim_request(&mut self.help.run_records.rows[t][c], step),
        };
        if r != 0 {
            self.ledger = Ghost(
                Ledger {
                    place: self.ledger@.place.insert(r, Place::Transit(k.tid)),
                    ..self.ledger@
                },
            );
        }
        proof {
            assert(self.shape());
            assert(pre.records_but(*self, k));
            assert(self.mem@.headers.dom() =~= pre.mem@.headers.dom());
            if r != 0 {
                assert(pre.at(r, Place::Record(k)) && pre.place_ok(r)) by {
                    reveal(WfSpanAllocator::order_ok);
                    assert(pre.record_ok(k));
                }
                assert forall|x: u64| #[trigger]
                    pre.at(x, Place::Record(k)) && x != r implies self.word(k) == x by {
                    reveal(WfSpanAllocator::order_ok);
                    assert(pre.place_ok(x));
                }
                assert(self.place().dom() =~= pre.place().dom());
                self.lemma_recorded(pre, k, r);
                pre.lemma_assets_frame(*self);
            } else {
                self.lemma_word_only(pre, k);
            }
        }
        r
    }

    /// Withdraw the thread's own request if it is still pending. One attempt.
    pub(crate) fn withdraw(&mut self, k: Key, phase: u64, step: &mut StepCounter)
        requires
            old(self).wf(),
            old(self).valid(k),
            old(step).room(1),
        ensures
            final(self).wf(),
            old(self).only_record(*final(self), k),
            final(self).place() == old(self).place(),
            final(self).record(k) == (if old(self).word(k) == pending_word(phase) {
                HelpRecord { phase_pending_or_span: 0, ..old(self).record(k) }
            } else {
                old(self).record(k)
            }),
            *final(step) == (StepCounter {
                cas_attempts: (old(step).cas_attempts + 1) as u64,
                ..*old(step)
            }),
    {
        let ghost pre = *self;
        let n: usize = self.heaps.rows.len();
        let t: usize = k.tid as usize;
        let c: usize = k.class as usize;
        step.cas_attempts = step.cas_attempts + 1;
        let expected: u64 = EncodedReq::pending(phase).0;
        if self.load_word(k) == expected {
            match k.lane {
                Lane::Span => {
                    self.help.records.rows[t][c].phase_pending_or_span = EncodedReq::empty().0;
                },
                Lane::Run => {
                    self.help.run_records.rows[t][c].phase_pending_or_span = EncodedReq::empty().0;
                },
            }
            proof {
                assert(self.shape());
                assert(pre.records_but(*self, k));
                self.lemma_word_only(pre, k);
            }
        }
    }

    /// Put a surplus span in the thread's hands into its own record, as a
    /// completed request that the next acquisition reclaims.
    pub(crate) fn stash(&mut self, k: Key, s: u64)
        requires
            old(self).wf(),
            old(self).valid(k),
            !completed(old(self).word(k)),
            old(self).at(s, Place::Transit(k.tid)),
            old(self).fits(s, k),
        ensures
            final(self).wf(),
            old(self).only_record(*final(self), k),
            final(self).place() == old(self).place().insert(s, Place::Record(k)),
            final(self).record(k) == (HelpRecord {
                phase_pending_or_span: s,
                ..old(self).record(k)
            }),
    {
        let ghost pre = *self;
        proof {
            reveal(WfSpanAllocator::order_ok);
            assert(pre.place_ok(s));
            pre.lemma_span_address(s);
        }
        let n: usize = self.heaps.rows.len();
        let t: usize = k.tid as usize;
        let c: usize = k.class as usize;
        let word: u64 = EncodedReq::done_with_span(s).0;
        match k.lane {
            Lane::Span => {
                self.help.records.rows[t][c].phase_pending_or_span = word;
            },
            Lane::Run => {
                self.help.run_records.rows[t][c].phase_pending_or_span = word;
            },
        }
        self.ledger = Ghost(
            Ledger { place: self.ledger@.place.insert(s, Place::Record(k)), ..self.ledger@ },
        );
        proof {
            assert(self.shape());
            assert(pre.records_but(*self, k));
            assert(self.mem@.headers.dom() =~= pre.mem@.headers.dom());
            assert forall|x: u64| #[trigger] pre.at(x, Place::Record(k)) && x != s implies self.word(
                k,
            ) == x by {
                reveal(WfSpanAllocator::order_ok);
                assert(pre.place_ok(x));
                pre.lemma_span_address(x);
            }
            assert(self.place().dom() =~= pre.place().dom());
            self.lemma_recorded(pre, k, s);
            pre.lemma_assets_frame(*self);
        }
    }

    /// Replace the statistics.
    pub(crate) fn set_stats(&mut self, stats: AllocatorStats)
        requires
            old(self).wf(),
        ensures
            final(self).wf(),
            *final(self) == (WfSpanAllocator { stats, ..*old(self) }),
    {
        let ghost pre = *self;
        self.stats = stats;
        proof {
            assert(self.shape());
            pre.lemma_order_frame(*self);
            pre.lemma_assets_frame(*self);
        }
    }

    /// Read the saved positions of an acquisition.
    pub(crate) fn load_cursors(&self, k: Key) -> (r: (u64, u64))
        requires
            self.shape(),
            self.valid(k),
        ensures
            r.0 == self.query(k),
            r.1 == self.helping(k),
    {
        let n: usize = self.heaps.rows.len();
        let t: usize = k.tid as usize;
        let c: usize = k.class as usize;
        match k.lane {
            Lane::Span => (self.heaps.rows[t].cur_query[c], self.heaps.rows[t].helping_pos[c]),
            Lane::Run => (
                self.heaps.rows[t].cur_query_runs[c],
                self.heaps.rows[t].helping_pos_runs[c],
            ),
        }
    }

    /// Save the positions of an acquisition.
    pub(crate) fn save_cursors(&mut self, k: Key, query: u64, helping: u64)
        requires
            old(self).wf(),
            old(self).valid(k),
        ensures
            final(self).wf(),
            old(self).inert(*final(self)),
            final(self).stats == old(self).stats,
            final(self).mem@ == old(self).mem@,
            final(self).ledger == old(self).ledger,
            old(self).same_locals(*final(self)),
            old(self).same_publics(*final(self)),
            old(self).same_records(*final(self)),
            final(self).query(k) == query,
            final(self).helping(k) == helping,
            forall|j: Key| #[trigger]
                old(self).valid(j) && j != k ==> final(self).query(j) == old(self).query(j)
                    && final(self).helping(j) == old(self).helping(j),
    {
        let ghost pre = *self;
        let n: usize = self.heaps.rows.len();
        let t: usize = k.tid as usize;
        let c: usize = k.class as usize;
        match k.lane {
            Lane::Span => {
                self.heaps.rows[t].cur_query.set(c, query);
                self.heaps.rows[t].helping_pos.set(c, helping);
            },
            Lane::Run => {
                self.heaps.rows[t].cur_query_runs.set(c, query);
                self.heaps.rows[t].helping_pos_runs.set(c, helping);
            },
        }
        proof {
            assert(self.shape());
            pre.lemma_order_frame(*self);
            pre.lemma_assets_frame(*self);
        }
    }
}

} // verus!
