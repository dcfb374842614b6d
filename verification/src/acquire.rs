//! Bounded, helping-based acquisition from public lists, shared by the
//! small-span and large-run paths.
//!
//! 1. Reclaim a span already completed into this thread's help record.
//! 2. Publish a new pending request with a fresh phase.
//! 3. Help at most `HELP_BUDGET_H` other pending requests.
//! 4. Traverse at most as many public lists as there are threads, finishing
//!    the own request.
//! 5. On exit, withdraw or reclaim the pending request and save positions.
//!
//! One request may end up with two spans: one returned directly, one
//! completed into the record by a helper. The extra span stays in the record
//! and is reclaimed by a later call. It is never dropped.

use crate::atomic_backend::Cas2Backend;
use crate::config::{HELP_BUDGET_H, MAX_LARGE_RUN_CLASSES};
use crate::help_record::{completed, pending, pending_word, EncodedReq};
use crate::protocol::{
    calm, lemma_calm_step, lemma_model_step, lemma_run_outcome, model_step, outcome, run, run_count,
    step_count, Acquisition, Board, Outcome, Stage,
};
use crate::spmc_span_list::{next_version, SpmcSpanList, TryPop};
use crate::state::{Key, Lane, Place, WfSpanAllocator};
use crate::stats::{bumped, AllocatorStats, StepCounter};
use vstd::prelude::*;

verus! {

impl Acquisition {
    /// The steps counted since `base` keep the bounds of the protocol.
    pub open spec fn spent(self, base: StepCounter, now: StepCounter, n: int) -> bool {
        let dh = now.help_steps - base.help_steps;
        let dq = now.query_steps - base.query_steps;
        let d2 = now.cas2_attempts - base.cas2_attempts;
        let dc = now.cas_attempts - base.cas_attempts;
        let ds = now.swap_ops - base.swap_ops;
        &&& now.local_steps == base.local_steps
        &&& now.remote_steps == base.remote_steps
        &&& now.faa_ops == base.faa_ops
        &&& now.blocks_scanned == base.blocks_scanned
        &&& now.large_class_steps == base.large_class_steps
        &&& now.huge_slot_scans == base.huge_slot_scans
        &&& 0 <= dh <= n + 1
        &&& 0 <= dq <= n
        &&& 0 <= d2
        &&& 0 <= dc
        &&& 0 <= ds
        &&& match self.stage {
            Stage::Reclaim => dh == 0 && dq == 0 && d2 == 0 && dc == 0 && ds == 0,
            Stage::Announce => dh == 0 && dq == 0 && d2 == 0 && dc == 0 && ds <= 1,
            Stage::HelpCheck => dq == 0 && dh <= self.help_query + self.help_count && d2 <= dh && dc
                <= dh && ds <= 1,
            Stage::Start(own) => if own {
                dq <= self.help_query + 1 && d2 <= dh + dq - 1 && dc <= dh + dq - 1 && ds <= dq
            } else {
                dq == 0 && dh <= self.help_query + self.help_count + 1 && d2 <= dh - 1 && dc <= dh
                    - 1 && ds <= 1
            },
            Stage::Again(own, _) => if own {
                dq <= self.help_query + 1 && d2 <= dh + dq - 1 && dc <= dh + dq - 1 && ds <= dq
            } else {
                dq == 0 && dh <= self.help_query + self.help_count + 1 && d2 <= dh - 1 && dc <= dh
                    - 1 && ds <= 1
            },
            Stage::Pop(own, _) => if own {
                dq <= self.help_query + 1 && d2 <= dh + dq - 1 && dc <= dh + dq - 1 && ds <= dq
            } else {
                dq == 0 && dh <= self.help_query + self.help_count + 1 && d2 <= dh - 1 && dc <= dh
                    - 1 && ds <= 1
            },
            Stage::Complete(own, _) => if own {
                dq <= self.help_query + 1 && d2 <= dh + dq && dc <= dh + dq - 1 && ds <= dq
            } else {
                dq == 0 && dh <= self.help_query + self.help_count + 1 && d2 <= dh && dc <= dh - 1
                    && ds <= 1
            },
            Stage::OwnCheck => dq <= self.help_query && d2 <= dh + dq && dc <= dh + dq && ds <= 1
                + dq,
            Stage::OwnTake | Stage::OwnReclaim => dq <= self.help_query + 1 && d2 <= dh + dq && dc
                <= dh + dq && ds <= dq,
            Stage::Withdraw => d2 <= dh + dq && dc <= dh + dq && ds <= 1 + dq,
            Stage::LastReclaim => d2 <= dh + dq && dc <= dh + dq + 1 && ds <= 1 + dq,
            Stage::Finish | Stage::Done => d2 <= dh + dq && dc <= dh + dq + 1 && ds <= 2 + dq,
        }
    }
}

/// The key of another thread for the same class.
pub open spec fn peer(k: Key, u: int) -> Key {
    Key { tid: u as u64, ..k }
}

/// Public, or on the way between public lists, records and threads.
pub open spec fn loose(p: Place) -> bool {
    p is Public || p is Record || p is Transit
}

/// Two keys of the same class.
pub open spec fn same_class(j: Key, k: Key) -> bool {
    j.lane == k.lane && j.class == k.class
}

impl<const C: u64, const HG: u64> WfSpanAllocator<C, HG> {
    /// The public lists and record words of the class of `k`.
    pub open spec fn board(self, k: Key) -> Board {
        Board {
            lists: Seq::new(self.n() as nat, |u: int| self.public(peer(k, u)).seq()),
            words: Seq::new(self.n() as nat, |u: int| self.word(peer(k, u))),
        }
    }

    /// The phase of the next request.
    pub open spec fn fresh(self, k: Key) -> u64 {
        next_version(self.record(k).last_phase)
    }

    /// No public list and no record of another class changed.
    pub open spec fn other_classes_same(self, post: Self, k: Key) -> bool {
        forall|j: Key| #[trigger]
            self.valid(j) && !same_class(j, k) ==> post.public(j) == self.public(j) && post.record(
                j,
            ) == self.record(j)
    }

    /// A span popped for an acquisition is in the thread's hands and of the
    /// right class.
    pub open spec fn in_hand(self, s: u64, k: Key) -> bool {
        self.at(s, Place::Transit(k.tid)) && self.fits(s, k)
    }

    /// An acquisition in progress: what it holds is in its thread's hands,
    /// and where it relies on its record being empty, it is.
    pub open spec fn acquiring(self, m: Acquisition) -> bool {
        &&& self.valid(m.key)
        &&& m.in_range(self.n())
        &&& m.held != 0 ==> self.in_hand(m.held, m.key)
        &&& (m.stage is Finish || m.stage is Done) && m.result != 0 ==> self.in_hand(
            m.result,
            m.key,
        ) && m.result != m.held
        &&& m.stage is Announce || m.stage is Finish ==> self.word(m.key) == 0
    }

    /// What an action of thread `t` leaves to the others: what they have in
    /// hand, and their records, except that a pending request may have been
    /// completed.
    pub open spec fn undisturbed(self, post: Self, t: u64) -> bool {
        &&& post.n() == self.n()
        &&& forall|s: u64| #[trigger]
            self.place().dom().contains(s) ==> {
                &&& post.place().dom().contains(s)
                &&& post.header(s).size_class == self.header(s).size_class
                &&& post.units()[s].kind == self.units()[s].kind
                &&& (self.place()[s] matches Place::Transit(u) ==> u != t ==> post.place()[s]
                    == self.place()[s])
                &&& (self.place()[s] matches Place::Held(u) ==> u != t ==> post.place()[s]
                    == self.place()[s])
            }
        &&& forall|k: Key| #[trigger]
            self.valid(k) && k.tid != t ==> post.word(k) == self.word(k) || (pending(self.word(k))
                && completed(post.word(k)))
    }

    /// Whatever is in a private list, held, discarded or live stays so.
    pub open spec fn settled(self, post: Self) -> bool {
        forall|s: u64| #[trigger]
            self.place().dom().contains(s) ==> post.place()[s] == self.place()[s] || (loose(
                self.place()[s],
            ) && loose(post.place()[s]))
    }

    /// An acquisition in progress survives every action of another thread.
    pub proof fn law_acquisition_survives_others(self, post: Self, t: u64, m: Acquisition)
        requires
            self.acquiring(m),
            self.undisturbed(post, t),
            m.key.tid != t,
        ensures
            post.acquiring(m),
    {
    }

    /// The last phase of the record of `k` is `phase`, and no other record has
    /// another last phase than before.
    pub open spec fn phases(self, post: Self, k: Key, phase: u64) -> bool {
        &&& post.record(k).last_phase == phase
        &&& forall|j: Key| #[trigger]
            self.valid(j) && j != k ==> post.record(j).last_phase == self.record(j).last_phase
    }

    /// The last phase after an acquisition: a new one, unless the record had
    /// a span at the start.
    pub open spec fn phase_after(self, k: Key) -> u64 {
        if completed(self.word(k)) {
            self.record(k).last_phase
        } else {
            self.fresh(k)
        }
    }

    /// One step did what the protocol says.
    pub open spec fn acted(self, m: Acquisition, post: Self, m2: Acquisition, strong: bool) -> bool {
        &&& post.wf()
        &&& self.inert(post)
        &&& self.same_states(post)
        &&& self.same_locals(post)
        &&& self.other_classes_same(post, m.key)
        &&& post.acquiring(m2)
        &&& self.undisturbed(post, m.key.tid)
        &&& self.settled(post)
        &&& m2.key == m.key
        &&& 0 <= m2.rank(self.n()) < m.rank(self.n())
        &&& self.phases(
            post,
            m.key,
            if m.stage is Announce {
                self.fresh(m.key)
            } else {
                self.record(m.key).last_phase
            },
        )
        &&& !(m.stage is Finish) ==> self.same_cursors(post)
        &&& m2.stage is Done ==> m.stage is Finish && m2.query_pos == m.query_pos && m2.helping
            == m.helping
        &&& strong || !(m.stage is Pop) ==> (post.board(m.key), m2) == model_step(
            self.board(m.key),
            m,
            self.fresh(m.key),
            self.n(),
        )
        &&& post.stats == (match m.stage {
            Stage::Finish => if m.held != 0 {
                self.stats.stashed(m.key.lane)
            } else {
                self.stats
            },
            _ => self.counted(m, m2),
        })
        &&& m.stage is Finish ==> {
            &&& post.query(m.key) == m.query_pos
            &&& post.helping(m.key) == m.helping
            &&& self.other_cursors_same(post, m.key)
        }
    }

    /// One step did what the protocol says, and was counted.
    pub open spec fn advanced(
        self,
        m: Acquisition,
        now: StepCounter,
        post: Self,
        m2: Acquisition,
        then: StepCounter,
        strong: bool,
    ) -> bool {
        &&& self.acted(m, post, m2, strong)
        &&& then == step_count(self.board(m.key), m, self.n(), now)
        &&& forall|base: StepCounter| #[trigger]
            m.spent(base, now, self.n()) ==> m2.spent(base, then, self.n())
    }

    /// The board of a sound state holds only spans.
    pub proof fn lemma_board_proper(self, k: Key)
        requires
            self.wf(),
            self.valid(k),
        ensures
            self.board(k).proper(self.n()),
    {
        reveal(WfSpanAllocator::order_ok);
        assert forall|u: int, i: int|
            0 <= u < self.n() && 0 <= i < self.board(k).lists[u].len() implies completed(
            #[trigger] self.board(k).lists[u][i],
        ) by {
            let j = peer(k, u);
            assert(self.valid(j));
            assert(self.public_ok(j));
            self.lemma_span_address(self.public(j).seq()[i]);
        }
    }

    /// How the board changes when one record does.
    proof fn lemma_board_write(self, post: Self, k: Key, j: Key)
        requires
            self.shape(),
            self.valid(k),
            self.valid(j),
            same_class(j, k),
            self.only_record(post, j),
        ensures
            post.board(k) == self.board(k).write(j.tid as int, post.word(j)),
            self.other_classes_same(post, k),
    {
        assert forall|u: int| 0 <= u < self.n() implies #[trigger] post.board(k).words[u]
            == self.board(k).write(j.tid as int, post.word(j)).words[u] by {
            assert(self.valid(peer(k, u)));
            if u == j.tid {
                assert(peer(k, u) == j);
            }
        }
        assert(post.board(k).words =~= self.board(k).write(j.tid as int, post.word(j)).words);
        assert forall|u: int| 0 <= u < self.n() implies #[trigger] post.board(k).lists[u]
            == self.board(k).lists[u] by {
            assert(self.valid(peer(k, u)));
        }
        assert(post.board(k).lists =~= self.board(k).lists);
    }

    /// How the board changes when one public list loses its first span.
    proof fn lemma_board_take(self, post: Self, k: Key, j: Key)
        requires
            self.shape(),
            self.valid(k),
            self.valid(j),
            same_class(j, k),
            post.n() == self.n(),
            self.publics_but(post, j),
            self.same_records(post),
            post.public(j) == self.public(j).popped(),
        ensures
            post.board(k) == self.board(k).take(j.tid as int),
            self.other_classes_same(post, k),
    {
        broadcast use SpmcSpanList::lemma_of;

        assert forall|u: int| 0 <= u < self.n() implies #[trigger] post.board(k).lists[u]
            == self.board(k).take(j.tid as int).lists[u] by {
            assert(self.valid(peer(k, u)));
            if u == j.tid {
                assert(peer(k, u) == j);
            }
        }
        assert(post.board(k).lists =~= self.board(k).take(j.tid as int).lists);
        assert forall|u: int| 0 <= u < self.n() implies #[trigger] post.board(k).words[u]
            == self.board(k).words[u] by {
            assert(self.valid(peer(k, u)));
        }
        assert(post.board(k).words =~= self.board(k).words);
    }

    /// The board stays when neither lists nor records change.
    pub(crate) proof fn lemma_board_same(self, post: Self, k: Key)
        requires
            self.valid(k),
            post.n() == self.n(),
            self.same_publics(post),
            self.same_records(post),
        ensures
            post.board(k) == self.board(k),
            self.other_classes_same(post, k),
    {
        assert forall|u: int| 0 <= u < self.n() implies #[trigger] post.board(k).lists[u]
            == self.board(k).lists[u] by {
            assert(self.valid(peer(k, u)));
        }
        assert forall|u: int| 0 <= u < self.n() implies #[trigger] post.board(k).words[u]
            == self.board(k).words[u] by {
            assert(self.valid(peer(k, u)));
        }
        assert(post.board(k).lists =~= self.board(k).lists);
        assert(post.board(k).words =~= self.board(k).words);
    }

    /// Start an acquisition from the saved positions.
    pub fn begin_acquisition(&self, k: Key) -> (m: Acquisition)
        requires
            self.wf(),
            self.valid(k),
        ensures
            self.acquiring(m),
            m == self.started(k),
    {
        let n: u64 = self.heaps.len();
        let (query, helping) = self.load_cursors(k);
        Acquisition {
            key: k,
            query_pos: query % n,
            helping: helping % n,
            phase: 0,
            held: 0,
            help_count: 0,
            help_query: 0,
            stage: Stage::Reclaim,
            result: 0,
        }
    }

    /// An acquisition at its start.
    pub open spec fn started(self, k: Key) -> Acquisition {
        Acquisition {
            key: k,
            query_pos: (self.query(k) as int % self.n()) as u64,
            helping: (self.helping(k) as int % self.n()) as u64,
            phase: 0,
            held: 0,
            help_count: 0,
            help_query: 0,
            stage: Stage::Reclaim,
            result: 0,
        }
    }

    /// Loads that decide what comes next.
    fn act_look(&self, m: &mut Acquisition, step: &mut StepCounter)
        requires
            self.wf(),
            self.acquiring(*old(m)),
            old(m).stage is HelpCheck || old(m).stage is OwnCheck || old(m).stage is Start || old(
                m,
            ).stage is Again,
            old(step).room(1),
        ensures
            self.acted(*old(m), *self, *final(m), true),
            !(final(m).stage is Finish),
            *final(step) == step_count(self.board(old(m).key), *old(m), self.n(), *old(step)),
            forall|base: StepCounter| #[trigger]
                old(m).spent(base, *old(step), self.n()) ==> final(m).spent(
                    base,
                    *final(step),
                    self.n(),
                ),
    {
        let ghost pre = *m;
        let n: u64 = self.heaps.len();
        proof {
            self.lemma_board_same(*self, m.key);
            self.lemma_board_proper(m.key);
            lemma_model_step(self.board(m.key), *m, self.fresh(m.key), self.n());
            assert(peer(m.key, m.helping as int) == (Key { tid: m.helping, ..m.key }));
            assert(peer(m.key, m.key.tid as int) == m.key);
        }
        match m.stage {
            Stage::HelpCheck => {
                if m.help_count < HELP_BUDGET_H && m.help_query < n {
                    step.help_steps = step.help_steps + 1;
                    let req = EncodedReq(self.load_word(Key { tid: m.helping, ..m.key }));
                    if req.is_pending() {
                        m.stage = Stage::Start(false);
                    } else {
                        m.count_attempt(false, n);
                    }
                } else {
                    m.stage = Stage::OwnCheck;
                }
            },
            Stage::OwnCheck => {
                if m.help_query < n {
                    step.query_steps = step.query_steps + 1;
                    let req = EncodedReq(self.load_word(m.key));
                    if req.is_pending() {
                        m.stage = Stage::Start(true);
                    } else {
                        m.stage = Stage::OwnTake;
                    }
                } else {
                    m.stage = Stage::Withdraw;
                }
            },
            Stage::Start(own) => {
                let target: u64 = if own { m.key.tid } else { m.helping };
                let req = EncodedReq(self.load_word(Key { tid: target, ..m.key }));
                if req.is_pending() {
                    m.stage = Stage::Again(own, req.phase());
                } else {
                    m.count_attempt(own, n);
                }
            },
            Stage::Again(own, phase) => {
                let target: u64 = if own { m.key.tid } else { m.helping };
                let req = EncodedReq(self.load_word(Key { tid: target, ..m.key }));
                if req.is_pending() && req.phase() == phase {
                    if m.held == 0 {
                        m.stage = Stage::Pop(own, phase);
                    } else {
                        m.stage = Stage::Complete(own, phase);
                    }
                } else {
                    m.count_attempt(own, n);
                }
            },
            _ => {},
        }
    }

    /// One pop attempt on the list at the query position.
    fn act_pop<B: Cas2Backend>(&mut self, m: &mut Acquisition, step: &mut StepCounter)
        requires
            old(self).wf(),
            old(self).acquiring(*old(m)),
            old(m).stage is Pop,
            old(step).room(1),
        ensures
            old(self).acted(*old(m), *final(self), *final(m), B::strong()),
            final(self).stats == old(self).stats,
            !(final(m).stage is Finish),
            *final(step) == step_count(
                old(self).board(old(m).key),
                *old(m),
                old(self).n(),
                *old(step),
            ),
            forall|base: StepCounter| #[trigger]
                old(m).spent(base, *old(step), old(self).n()) ==> final(m).spent(
                    base,
                    *final(step),
                    old(self).n(),
                ),
    {
        let ghost pre = *self;
        let n: u64 = self.heaps.len();
        let list = Key { tid: m.query_pos, ..m.key };
        proof {
            pre.lemma_board_proper(m.key);
            lemma_model_step(pre.board(m.key), *m, pre.fresh(m.key), pre.n());
            assert(peer(m.key, m.query_pos as int) == list);
        }
        if let Stage::Pop(own, phase) = m.stage {
            let r = self.pop_public::<B>(list, m.key.tid, step);
            match r {
                TryPop::Span(s) => {
                    m.held = s;
                    m.stage = Stage::Complete(own, phase);
                    proof {
                        pre.lemma_board_take(*self, m.key, list);
                        reveal(WfSpanAllocator::order_ok);
                        assert(pre.place_ok(s));
                        pre.lemma_span_address(s);
                        assert(pre.undisturbed(*self, m.key.tid)) by {
                            assert forall|x: u64| #[trigger]
                                pre.place().dom().contains(x) implies self.header(x).size_class
                                == pre.header(x).size_class by {
                                assert(pre.place_ok(x));
                            }
                        }
                    }
                },
                TryPop::Empty => {
                    m.skip_list(own, n);
                    proof {
                        pre.lemma_board_same(*self, m.key);
                        pre.lemma_undisturbed_same(*self, m.key.tid);
                    }
                },
                TryPop::Failed => {
                    m.count_attempt(own, n);
                    proof {
                        pre.lemma_board_same(*self, m.key);
                        pre.lemma_undisturbed_same(*self, m.key.tid);
                    }
                },
            }
        }
    }

    /// Nothing is disturbed when no place and no record changes.
    pub proof fn lemma_undisturbed_same(self, post: Self, t: u64)
        requires
            self.wf(),
            self.inert(post),
            post.place() == self.place(),
            self.same_records(post),
        ensures
            self.undisturbed(post, t),
    {
        reveal(WfSpanAllocator::order_ok);
        assert forall|x: u64| #[trigger] self.place().dom().contains(x) implies post.header(
            x,
        ).size_class == self.header(x).size_class by {
            assert(self.place_ok(x));
        }
    }

    /// One completion attempt with the span in hand.
    fn act_complete(&mut self, m: &mut Acquisition, step: &mut StepCounter)
        requires
            old(self).wf(),
            old(self).acquiring(*old(m)),
            old(m).stage is Complete,
            old(step).room(1),
        ensures
            old(self).acted(*old(m), *final(self), *final(m), true),
            final(self).stats == old(self).stats,
            !(final(m).stage is Finish),
            *final(step) == step_count(
                old(self).board(old(m).key),
                *old(m),
                old(self).n(),
                *old(step),
            ),
            forall|base: StepCounter| #[trigger]
                old(m).spent(base, *old(step), old(self).n()) ==> final(m).spent(
                    base,
                    *final(step),
                    old(self).n(),
                ),
    {
        let ghost pre = *self;
        let n: u64 = self.heaps.len();
        proof {
            pre.lemma_board_proper(m.key);
            lemma_model_step(pre.board(m.key), *m, pre.fresh(m.key), pre.n());
            reveal(WfSpanAllocator::order_ok);
            assert(pre.place_ok(m.held));
            pre.lemma_span_address(m.held);
        }
        if let Stage::Complete(own, phase) = m.stage {
            let target: u64 = if own { m.key.tid } else { m.helping };
            let req = Key { tid: target, ..m.key };
            let ghost s = m.held;
            let r: bool = self.complete(req, m.key.tid, phase, m.held, step);
            if r {
                m.held = 0;
            }
            m.count_attempt(own, n);
            proof {
                assert(peer(m.key, target as int) == req);
                pre.lemma_board_write(*self, m.key, req);
                if !r {
                    assert(pre.board(m.key).write(target as int, pre.word(req)).words
                        =~= pre.board(m.key).words);
                }
                assert(pending(pending_word(phase)));
                assert(pre.undisturbed(*self, m.key.tid));
            }
        }
    }

    /// Actions on the own record.
    fn act_record(&mut self, m: &mut Acquisition, step: &mut StepCounter)
        requires
            old(self).wf(),
            old(self).acquiring(*old(m)),
            old(m).stage is Reclaim || old(m).stage is Announce || old(m).stage is OwnTake || old(
                m,
            ).stage is OwnReclaim || old(m).stage is Withdraw || old(m).stage is LastReclaim,
            old(step).room(1),
        ensures
            old(self).acted(*old(m), *final(self), *final(m), true),
            final(self).stats == old(self).counted(*old(m), *final(m)),
            *final(step) == step_count(
                old(self).board(old(m).key),
                *old(m),
                old(self).n(),
                *old(step),
            ),
            forall|base: StepCounter| #[trigger]
                old(m).spent(base, *old(step), old(self).n()) ==> final(m).spent(
                    base,
                    *final(step),
                    old(self).n(),
                ),
    {
        let ghost pre = *self;
        let ghost m0 = *m;
        let n: u64 = self.heaps.len();
        let k = m.key;
        proof {
            pre.lemma_board_proper(k);
            lemma_model_step(pre.board(k), *m, pre.fresh(k), pre.n());
            assert(peer(k, k.tid as int) == k);
            if m.held != 0 {
                reveal(WfSpanAllocator::order_ok);
                assert(pre.place_ok(m.held));
                pre.lemma_span_address(m.held);
            }
        }
        match m.stage {
            Stage::Announce => {
                m.phase = self.announce(k);
                m.stage = Stage::HelpCheck;
                proof {
                    pre.lemma_board_write(*self, k, k);
                    pre.lemma_undisturbed_own(*self, k, 0);
                }
            },
            Stage::Withdraw => {
                self.withdraw(k, m.phase, step);
                m.stage = Stage::LastReclaim;
                proof {
                    pre.lemma_board_write(*self, k, k);
                    assert(pre.board(k).write(k.tid as int, pre.word(k)).words =~= pre.board(
                        k,
                    ).words);
                    pre.lemma_undisturbed_own(*self, k, 0);
                }
            },
            _ => {
                let r: u64 = self.reclaim(k, step);
                let ghost mid = *self;
                proof {
                    pre.lemma_board_write(mid, k, k);
                    pre.lemma_undisturbed_own(mid, k, r);
                    if r != 0 {
                        reveal(WfSpanAllocator::order_ok);
                        assert(pre.place_ok(r));
                    }
                }
                match m.stage {
                    Stage::Reclaim => {
                        if r != 0 {
                            self.count_reclaimed(k.lane);
                            m.result = r;
                            m.stage = Stage::Finish;
                        } else {
                            m.stage = Stage::Announce;
                        }
                    },
                    Stage::OwnTake => {
                        self.count_acquired(k.lane);
                        m.result = r;
                        m.stage = Stage::Finish;
                    },
                    Stage::OwnReclaim => {
                        if r != 0 {
                            self.count_acquired(k.lane);
                            m.result = r;
                            m.stage = Stage::Finish;
                        } else if m.held != 0 {
                            self.count_acquired(k.lane);
                            m.result = m.held;
                            m.held = 0;
                            m.stage = Stage::Finish;
                        } else {
                            m.skip_list(true, n);
                        }
                    },
                    _ => {
                        if r != 0 {
                            self.count_acquired(k.lane);
                            m.result = r;
                        } else {
                            if m.held != 0 {
                                self.count_acquired(k.lane);
                            }
                            m.result = m.held;
                            m.held = 0;
                        }
                        m.stage = Stage::Finish;
                    },
                }
                proof {
                    mid.lemma_board_same(*self, k);
                    assert(pre.inert(*self));
                    assert(pre.undisturbed(*self, k.tid));
                    assert(self.acquiring(*m));
                }
            },
        }
    }

    /// Others are not disturbed when only the own record of `k` changes and at
    /// most `s`, which was in it, moves into the own hands.
    proof fn lemma_undisturbed_own(self, post: Self, k: Key, s: u64)
        requires
            self.wf(),
            self.valid(k),
            self.only_record(post, k),
            post.place() == self.place() || (self.at(s, Place::Record(k)) && post.place()
                == self.place().insert(s, Place::Transit(k.tid))),
        ensures
            self.undisturbed(post, k.tid),
    {
    }

    /// Actions of one thread after another leave to the others what each of
    /// them leaves.
    pub proof fn lemma_undisturbed_twice(self, mid: Self, post: Self, t: u64)
        requires
            self.undisturbed(mid, t),
            mid.undisturbed(post, t),
        ensures
            self.undisturbed(post, t),
    {
        assert forall|s: u64| #[trigger] self.place().dom().contains(s) implies {
            &&& post.place().dom().contains(s)
            &&& post.header(s).size_class == self.header(s).size_class
            &&& post.units()[s].kind == self.units()[s].kind
            &&& (self.place()[s] matches Place::Transit(u) ==> u != t ==> post.place()[s]
                == self.place()[s])
            &&& (self.place()[s] matches Place::Held(u) ==> u != t ==> post.place()[s]
                == self.place()[s])
        } by {
            assert(mid.place().dom().contains(s));
        }
        assert forall|k: Key| #[trigger] self.valid(k) && k.tid != t implies post.word(k)
            == self.word(k) || (pending(self.word(k)) && completed(post.word(k))) by {
            assert(mid.valid(k));
        }
    }

    /// Save the positions and stash a surplus span.
    fn act_finish(&mut self, m: &mut Acquisition)
        requires
            old(self).wf(),
            old(self).acquiring(*old(m)),
            old(m).stage is Finish,
        ensures
            old(self).acted(*old(m), *final(self), *final(m), true),
            final(self).stats == (if old(m).held != 0 {
                old(self).stats.stashed(old(m).key.lane)
            } else {
                old(self).stats
            }),
            *final(m) == (Acquisition { held: 0, stage: Stage::Done, ..*old(m) }),
            final(self).query(old(m).key) == old(m).query_pos,
            final(self).helping(old(m).key) == old(m).helping,
            forall|j: Key| #[trigger]
                old(self).valid(j) && j != old(m).key ==> final(self).query(j) == old(self).query(j)
                    && final(self).helping(j) == old(self).helping(j),
    {
        let ghost pre = *self;
        let k = m.key;
        proof {
            pre.lemma_board_proper(k);
            lemma_model_step(pre.board(k), *m, pre.fresh(k), pre.n());
            assert(peer(k, k.tid as int) == k);
        }
        self.save_cursors(k, m.query_pos, m.helping);
        let ghost mid = *self;
        proof {
            pre.lemma_board_same(mid, k);
            pre.lemma_undisturbed_same(mid, k.tid);
        }
        if m.held != 0 {
            self.stash(k, m.held);
            let ghost stashed = *self;
            proof {
                mid.lemma_board_write(stashed, k, k);
                assert(mid.undisturbed(stashed, k.tid));
            }
            self.count_stashed(k.lane);
            m.held = 0;
            proof {
                stashed.lemma_board_same(*self, k);
                assert(mid.undisturbed(*self, k.tid));
            }
        }
        m.stage = Stage::Done;
        proof {
            pre.lemma_undisturbed_twice(mid, *self, k.tid);
            assert(mid.valid(k));
            assert(forall|j: Key| #[trigger] pre.valid(j) ==> mid.valid(j));
            assert(pre.inert(*self));
            assert(self.acquiring(*m));
        }
    }

    /// The statistics after an action on the own record.
    pub open spec fn counted(self, m: Acquisition, m2: Acquisition) -> AllocatorStats {
        if !(m2.stage is Finish) {
            self.stats
        } else if m.stage is Reclaim {
            self.stats.reclaimed(m.key.lane)
        } else if m.stage is OwnTake || m2.result != 0 {
            self.stats.acquired(m.key.lane)
        } else {
            self.stats
        }
    }

    /// Take one step of an acquisition: one action on the shared state.
    ///
    /// Other threads may act between any two steps. Every step uses up steps
    /// from a budget that depends on the number of threads alone, so that the
    /// acquisition ends whatever the others do.
    pub fn advance<B: Cas2Backend>(&mut self, m: &mut Acquisition, step: &mut StepCounter)
        requires
            old(self).wf(),
            old(self).acquiring(*old(m)),
            !(old(m).stage is Done),
            old(step).room(1),
        ensures
            old(self).advanced(
                *old(m),
                *old(step),
                *final(self),
                *final(m),
                *final(step),
                B::strong(),
            ),
    {
        match m.stage {
            Stage::HelpCheck | Stage::OwnCheck | Stage::Start(_) | Stage::Again(_, _) => {
                self.act_look(m, step);
            },
            Stage::Pop(_, _) => {
                self.act_pop::<B>(m, step);
            },
            Stage::Complete(_, _) => {
                self.act_complete(m, step);
            },
            Stage::Finish => {
                self.act_finish(m);
            },
            _ => {
                self.act_record(m, step);
            },
        }
    }

    /// The bounded helping protocol shared by both lanes: acquire a span or
    /// run of the class of `k` for its thread, or return 0 when the query
    /// budget is exhausted. The span returned is marked public and in the
    /// thread's hands.
    pub fn acquire_from_lists<B: Cas2Backend>(&mut self, k: Key, step: &mut StepCounter) -> (r: u64)
        requires
            old(self).wf(),
            old(self).valid(k),
            old(step).room(4 * old(self).n() + 8),
        ensures
            final(self).wf(),
            old(self).inert(*final(self)),
            old(self).same_states(*final(self)),
            old(self).same_locals(*final(self)),
            old(self).other_classes_same(*final(self), k),
            old(self).undisturbed(*final(self), k.tid),
            old(self).settled(*final(self)),
            old(self).other_cursors_same(*final(self), k),
            r != 0 ==> final(self).in_hand(r, k),
            old(self).foreseen(k, B::strong()) ==> old(self).acquires(*final(self), k, r)
                && *final(step) == old(self).acquire_count(k, *old(step)),
            acquire_cost(*old(step), *final(step), old(self).n()),
    {
        let ghost pre = *self;
        let mut m = self.begin_acquisition(k);
        proof {
            pre.lemma_acquire_begins(k, *step, B::strong());
        }
        while !m.done()
            invariant
                pre == *old(self),
                pre.acquiring_since(*self, k, m, *old(step), *step, B::strong()),
                old(step).room(4 * pre.n() + 8),
            decreases m.rank(pre.n()),
        {
            let ghost here = *self;
            let ghost mh = m;
            let ghost sh = *step;
            self.advance::<B>(&mut m, step);
            proof {
                pre.lemma_acquire_goes_on(
                    here,
                    *self,
                    k,
                    (mh, m),
                    *old(step),
                    (sh, *step),
                    B::strong(),
                );
            }
        }
        proof {
            pre.lemma_acquire_ends(*self, k, m, *old(step), *step, B::strong());
        }
        m.result
    }

    /// What an acquisition of `k` does is known from the start: the backend
    /// does not fail spuriously, or a span waits in the own record.
    pub open spec fn foreseen(self, k: Key, strong: bool) -> bool {
        strong || completed(self.word(k))
    }

    /// What holds of an acquisition that began in this state, while no other
    /// thread acts.
    pub open spec fn acquiring_since(
        self,
        here: Self,
        k: Key,
        m: Acquisition,
        base: StepCounter,
        step: StepCounter,
        strong: bool,
    ) -> bool {
        let n = self.n();
        let fresh = self.fresh(k);
        let m0 = self.started(k);
        &&& here.wf()
        &&& here.acquiring(m)
        &&& self.wf()
        &&& self.valid(k)
        &&& m.key == k
        &&& self.board(k).proper(n)
        &&& m0.in_range(n)
        &&& self.inert(here)
        &&& self.same_states(here)
        &&& self.same_locals(here)
        &&& self.other_classes_same(here, k)
        &&& self.undisturbed(here, k.tid)
        &&& self.settled(here)
        &&& self.other_cursors_same(here, k)
        &&& m.stage is Done ==> here.query(k) == m.query_pos && here.helping(k) == m.helping
        &&& m.stage is Reclaim || m.stage is Announce ==> here.fresh(k) == fresh
        &&& m.spent(base, step, n)
        &&& self.foreseen(k, strong) ==> {
            &&& run(here.board(k), m, fresh, n) == run(self.board(k), m0, fresh, n)
            &&& run_count(here.board(k), m, fresh, n, step) == run_count(
                self.board(k),
                m0,
                fresh,
                n,
                base,
            )
            &&& calm(here.board(k), m, n)
            &&& m.stage is Reclaim ==> here.board(k) == self.board(k)
            &&& self.phases(
                here,
                k,
                if m.stage is Reclaim || m.stage is Announce {
                    self.record(k).last_phase
                } else {
                    self.phase_after(k)
                },
            )
            &&& m.stage is Announce ==> !completed(self.word(k))
            &&& !(m.stage is Reclaim) && completed(self.word(k)) ==> m.stage is Finish || m.stage
                is Done
            &&& here.stats == (if !(m.stage is Finish || m.stage is Done) {
                self.stats
            } else {
                self.stats_after(k, m.result)
            })
        }
    }

    /// An acquisition begins.
    pub(crate) proof fn lemma_acquire_begins(self, k: Key, step: StepCounter, strong: bool)
        requires
            self.wf(),
            self.valid(k),
            self.acquiring(self.started(k)),
        ensures
            self.acquiring_since(self, k, self.started(k), step, step, strong),
    {
        let m = self.started(k);
        self.lemma_board_proper(k);
        assert(peer(k, k.tid as int) == k);
        assert(m.spent(step, step, self.n()));
        self.lemma_undisturbed_same(self, k.tid);
    }

    /// An acquisition goes on while no other thread acts.
    pub(crate) proof fn lemma_acquire_goes_on(
        self,
        here: Self,
        post: Self,
        k: Key,
        m: (Acquisition, Acquisition),
        base: StepCounter,
        step: (StepCounter, StepCounter),
        strong: bool,
    )
        requires
            self.acquiring_since(here, k, m.0, base, step.0, strong),
            !(m.0.stage is Done),
            here.advanced(m.0, step.0, post, m.1, step.1, strong),
        ensures
            self.acquiring_since(post, k, m.1, base, step.1, strong),
    {
        let n = self.n();
        let fresh = self.fresh(k);
        let sure = self.foreseen(k, strong);
        assert(peer(k, k.tid as int) == k);
        here.lemma_board_proper(k);
        lemma_model_step(here.board(k), m.0, here.fresh(k), n);
        lemma_model_step(here.board(k), m.0, fresh, n);
        if sure {
            lemma_calm_step(here.board(k), m.0, fresh, n);
        }
        self.lemma_undisturbed_twice(here, post, k.tid);
        assert(forall|x: u64| #[trigger]
            self.place().dom().contains(x) ==> here.place().dom().contains(x));
        assert(forall|j: Key| #[trigger] self.valid(j) ==> here.valid(j));
        assert(self.inert(post)) by {
            assert forall|a: u64| #[trigger]
                self.mem@.headers.dom().contains(a) implies crate::state::same_core(
                self.header(a),
                post.header(a),
            ) by {
                assert(here.mem@.headers.dom().contains(a));
            }
        }
        if sure {
            assert((post.board(k), m.1) == model_step(here.board(k), m.0, fresh, n));
            assert(run(here.board(k), m.0, fresh, n) == run(post.board(k), m.1, fresh, n));
            assert(run_count(here.board(k), m.0, fresh, n, step.0) == run_count(
                post.board(k),
                m.1,
                fresh,
                n,
                step.1,
            ));
        }
    }

    /// An acquisition ends.
    pub(crate) proof fn lemma_acquire_ends(
        self,
        here: Self,
        k: Key,
        m: Acquisition,
        base: StepCounter,
        step: StepCounter,
        strong: bool,
    )
        requires
            self.acquiring_since(here, k, m, base, step, strong),
            m.stage is Done,
        ensures
            self.foreseen(k, strong) ==> self.acquires(here, k, m.result) && step
                == self.acquire_count(k, base),
            acquire_cost(base, step, self.n()),
            m.result != 0 ==> here.in_hand(m.result, k),
    {
        here.lemma_board_proper(k);
        if self.foreseen(k, strong) {
            lemma_run_outcome(self.board(k), self.started(k), self.fresh(k), self.n());
        }
    }

    /// An acquisition of `k` that began in this state ended in `post`, while no
    /// other thread acted.
    pub open spec fn acquisition_ended(
        self,
        post: Self,
        k: Key,
        base: StepCounter,
        step: StepCounter,
    ) -> bool {
        let r = self.acquisition(k).result;
        &&& post.wf()
        &&& self.inert(post)
        &&& self.same_states(post)
        &&& self.same_locals(post)
        &&& self.other_classes_same(post, k)
        &&& self.undisturbed(post, k.tid)
        &&& self.settled(post)
        &&& self.other_cursors_same(post, k)
        &&& r != 0 ==> post.in_hand(r, k)
        &&& self.acquires(post, k, r)
        &&& step == self.acquire_count(k, base)
        &&& acquire_cost(base, step, self.n())
    }

    /// The statistics after an acquisition that returned `r` while no other
    /// thread acted.
    pub open spec fn stats_after(self, k: Key, r: u64) -> AllocatorStats {
        if completed(self.word(k)) {
            self.stats.reclaimed(k.lane)
        } else if r != 0 {
            self.stats.acquired(k.lane)
        } else {
            self.stats
        }
    }

    /// No saved position but those of `k` changed.
    pub open spec fn other_cursors_same(self, post: Self, k: Key) -> bool {
        forall|j: Key| #[trigger]
            self.valid(j) && j != k ==> post.query(j) == self.query(j) && post.helping(j)
                == self.helping(j)
    }

    /// What an acquisition returns and leaves behind while no other thread
    /// acts.
    pub open spec fn acquisition(self, k: Key) -> Outcome {
        outcome(
            self.board(k),
            k.tid as int,
            self.query(k) as int % self.n(),
            self.helping(k) as int % self.n(),
            self.n(),
        )
    }

    /// The step counts after an acquisition while no other thread acts.
    pub open spec fn acquire_count(self, k: Key, step: StepCounter) -> StepCounter {
        run_count(self.board(k), self.started(k), self.fresh(k), self.n(), step)
    }

    /// An acquisition returned `r` and left `post`, as the protocol says.
    pub open spec fn acquires(self, post: Self, k: Key, r: u64) -> bool {
        let o = self.acquisition(k);
        &&& r == o.result
        &&& post.board(k) == o.board
        &&& post.query(k) == o.query
        &&& post.helping(k) == o.helping
        &&& self.phases(post, k, self.phase_after(k))
        &&& post.stats == self.stats_after(k, r)
    }

    /// The lists, records and saved positions of the class of `k` are as an
    /// acquisition leaves them.
    pub open spec fn asked(self, post: Self, k: Key) -> bool {
        let o = self.acquisition(k);
        &&& post.board(k) == o.board
        &&& post.query(k) == o.query
        &&& post.helping(k) == o.helping
        &&& post.record(k).last_phase == self.phase_after(k)
        &&& forall|j: Key| #[trigger]
            self.valid(j) && same_class(j, k) && j != k ==> post.query(j) == self.query(j)
                && post.helping(j) == self.helping(j) && post.record(j).last_phase == self.record(
                j,
            ).last_phase
    }

    /// What an acquisition left stays while nothing of its class changes.
    pub(crate) proof fn lemma_asked_stays(self, mid: Self, post: Self, k: Key)
        requires
            self.valid(k),
            self.asked(mid, k),
            mid.n() == self.n(),
            post.n() == self.n(),
            forall|j: Key| #[trigger]
                mid.valid(j) && same_class(j, k) ==> {
                    &&& post.public(j) == mid.public(j)
                    &&& post.record(j) == mid.record(j)
                    &&& post.query(j) == mid.query(j)
                    &&& post.helping(j) == mid.helping(j)
                },
        ensures
            self.asked(post, k),
    {
        assert(mid.valid(k));
        assert(forall|j: Key| #[trigger] self.valid(j) ==> mid.valid(j));
        assert forall|u: int| 0 <= u < self.n() implies #[trigger] post.board(k).lists[u]
            == mid.board(k).lists[u] by {
            assert(mid.valid(peer(k, u)));
        }
        assert forall|u: int| 0 <= u < self.n() implies #[trigger] post.board(k).words[u]
            == mid.board(k).words[u] by {
            assert(mid.valid(peer(k, u)));
        }
        assert(post.board(k).lists =~= mid.board(k).lists);
        assert(post.board(k).words =~= mid.board(k).words);
    }

    /// Count an acquisition in the statistics of its lane.
    fn count_acquired(&mut self, lane: Lane)
        requires
            old(self).wf(),
        ensures
            final(self).wf(),
            *final(self) == (WfSpanAllocator {
                stats: old(self).stats.acquired(lane),
                ..*old(self)
            }),
    {
        let mut stats = self.stats;
        match lane {
            Lane::Span => AllocatorStats::bump(&mut stats.acquired_public_spans),
            Lane::Run => AllocatorStats::bump(&mut stats.acquired_public_runs),
        }
        self.set_stats(stats);
    }

    /// Count a reclaimed record in the statistics of its lane.
    fn count_reclaimed(&mut self, lane: Lane)
        requires
            old(self).wf(),
        ensures
            final(self).wf(),
            *final(self) == (WfSpanAllocator {
                stats: old(self).stats.reclaimed(lane),
                ..*old(self)
            }),
    {
        let mut stats = self.stats;
        match lane {
            Lane::Span => AllocatorStats::bump(&mut stats.help_record_reclaimed),
            Lane::Run => AllocatorStats::bump(&mut stats.run_help_record_reclaimed),
        }
        self.set_stats(stats);
    }

    /// Count a stashed span in the statistics of its lane.
    fn count_stashed(&mut self, lane: Lane)
        requires
            old(self).wf(),
        ensures
            final(self).wf(),
            *final(self) == (WfSpanAllocator {
                stats: old(self).stats.stashed(lane),
                ..*old(self)
            }),
    {
        let mut stats = self.stats;
        match lane {
            Lane::Span => AllocatorStats::bump(&mut stats.help_record_spans),
            Lane::Run => AllocatorStats::bump(&mut stats.run_help_record_runs),
        }
        self.set_stats(stats);
    }
}

impl AllocatorStats {
    /// One more acquisition from a public list.
    pub open spec fn acquired(self, lane: Lane) -> AllocatorStats {
        match lane {
            Lane::Span => AllocatorStats {
                acquired_public_spans: bumped(self.acquired_public_spans),
                ..self
            },
            Lane::Run => AllocatorStats {
                acquired_public_runs: bumped(self.acquired_public_runs),
                ..self
            },
        }
    }

    /// One more record reclaimed.
    pub open spec fn reclaimed(self, lane: Lane) -> AllocatorStats {
        match lane {
            Lane::Span => AllocatorStats {
                help_record_reclaimed: bumped(self.help_record_reclaimed),
                ..self
            },
            Lane::Run => AllocatorStats {
                run_help_record_reclaimed: bumped(self.run_help_record_reclaimed),
                ..self
            },
        }
    }

    /// One more span stashed.
    pub open spec fn stashed(self, lane: Lane) -> AllocatorStats {
        match lane {
            Lane::Span => AllocatorStats {
                help_record_spans: bumped(self.help_record_spans),
                ..self
            },
            Lane::Run => AllocatorStats {
                run_help_record_runs: bumped(self.run_help_record_runs),
                ..self
            },
        }
    }
}

/// The steps of one acquisition: at most one more than the threads for
/// helping, at most as many as the threads for querying, and at most one
/// double-word attempt and one completion for each of them.
pub open spec fn acquire_cost(base: StepCounter, now: StepCounter, n: int) -> bool {
    let dh = now.help_steps - base.help_steps;
    let dq = now.query_steps - base.query_steps;
    &&& now.local_steps == base.local_steps
    &&& now.remote_steps == base.remote_steps
    &&& now.faa_ops == base.faa_ops
    &&& now.blocks_scanned == base.blocks_scanned
    &&& now.large_class_steps == base.large_class_steps
    &&& now.huge_slot_scans == base.huge_slot_scans
    &&& 0 <= dh <= n + 1
    &&& 0 <= dq <= n
    &&& 0 <= now.cas2_attempts - base.cas2_attempts <= dh + dq
    &&& 0 <= now.cas_attempts - base.cas_attempts <= dh + dq + 1
    &&& 0 <= now.swap_ops - base.swap_ops <= dq + 2
}

/// Acquire a span of `size_class` for thread `tid`, or return 0 within the
/// query budget. The span is marked public; the caller claims ownership.
pub fn spanlists_acquire_span<B: Cas2Backend, const C: u64, const HG: u64>(
    alloc: &mut WfSpanAllocator<C, HG>,
    tid: u64,
    size_class: u64,
    step: &mut StepCounter,
) -> (r: u64)
    requires
        old(alloc).wf(),
        tid < old(alloc).n(),
        size_class < C,
        old(step).room(4 * old(alloc).n() + 8),
    ensures
        final(alloc).wf(),
        ({
            let k = Key { lane: Lane::Span, class: size_class, tid };
            &&& old(alloc).inert(*final(alloc))
            &&& old(alloc).same_states(*final(alloc))
            &&& old(alloc).same_locals(*final(alloc))
            &&& old(alloc).other_classes_same(*final(alloc), k)
            &&& old(alloc).undisturbed(*final(alloc), tid)
            &&& old(alloc).settled(*final(alloc))
            &&& old(alloc).other_cursors_same(*final(alloc), k)
            &&& r != 0 ==> final(alloc).in_hand(r, k)
            &&& old(alloc).foreseen(k, B::strong()) ==> old(alloc).acquires(*final(alloc), k, r)
                && *final(step) == old(alloc).acquire_count(k, *old(step))
        }),
        acquire_cost(*old(step), *final(step), old(alloc).n()),
{
    alloc.acquire_from_lists::<B>(Key { lane: Lane::Span, class: size_class, tid }, step)
}

/// Acquire a run of `run_class` for thread `tid`, or return 0 within the
/// query budget. The run is marked public; the caller claims ownership.
pub fn runlists_acquire_run<B: Cas2Backend, const C: u64, const HG: u64>(
    alloc: &mut WfSpanAllocator<C, HG>,
    tid: u64,
    run_class: u64,
    step: &mut StepCounter,
) -> (r: u64)
    requires
        old(alloc).wf(),
        tid < old(alloc).n(),
        run_class < MAX_LARGE_RUN_CLASSES,
        old(step).room(4 * old(alloc).n() + 8),
    ensures
        final(alloc).wf(),
        ({
            let k = Key { lane: Lane::Run, class: run_class, tid };
            &&& old(alloc).inert(*final(alloc))
            &&& old(alloc).same_states(*final(alloc))
            &&& old(alloc).same_locals(*final(alloc))
            &&& old(alloc).other_classes_same(*final(alloc), k)
            &&& old(alloc).undisturbed(*final(alloc), tid)
            &&& old(alloc).settled(*final(alloc))
            &&& old(alloc).other_cursors_same(*final(alloc), k)
            &&& r != 0 ==> final(alloc).in_hand(r, k)
            &&& old(alloc).foreseen(k, B::strong()) ==> old(alloc).acquires(*final(alloc), k, r)
                && *final(step) == old(alloc).acquire_count(k, *old(step))
        }),
        acquire_cost(*old(step), *final(step), old(alloc).n()),
{
    alloc.acquire_from_lists::<B>(Key { lane: Lane::Run, class: run_class, tid }, step)
}

impl Acquisition {
    /// Whether the acquisition has ended.
    pub fn done(&self) -> (r: bool)
        ensures
            r == (self.stage is Done),
    {
        matches!(self.stage, Stage::Done)
    }

    /// Go on after an attempt at a request.
    fn count_attempt(&mut self, own: bool, n: u64)
        requires
            old(self).help_count < HELP_BUDGET_H || own,
            old(self).helping < n,
            n < u64::MAX,
        ensures
            *final(self) == old(self).attempted(own, n as int),
    {
        if own {
            self.stage = Stage::OwnReclaim;
        } else {
            self.help_count = self.help_count + 1;
            self.helping = (self.helping + 1) % n;
            self.stage = Stage::HelpCheck;
        }
    }

    /// Go on to the next list.
    fn skip_list(&mut self, own: bool, n: u64)
        requires
            old(self).help_query < n,
            old(self).query_pos < n,
            n < u64::MAX,
        ensures
            *final(self) == old(self).next_list(own, n as int),
    {
        self.help_query = self.help_query + 1;
        self.query_pos = (self.query_pos + 1) % n;
        self.stage = if own { Stage::OwnCheck } else { Stage::HelpCheck };
    }
}

} // verus!
