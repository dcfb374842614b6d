//! The helping protocol over the public lists and help records of one class,
//! as a machine that takes one shared action per step.

use crate::config::HELP_BUDGET_H;
use crate::help_record::{completed, pending, pending_word};
use crate::state::Key;
use crate::stats::StepCounter;
use vstd::prelude::*;

verus! {

/// What an acquisition does next.
#[derive(Clone, Copy, Debug, PartialEq, Eq, Structural)]
pub enum Stage {
    /// Reclaim a span that a helper completed for an earlier request.
    Reclaim,
    /// Publish a new pending request.
    Announce,
    /// Look for a request to help, while the budgets last.
    HelpCheck,
    /// Look at the own request, while the budget lasts.
    OwnCheck,
    /// Read the phase of the request to finish; the flag says whether it is
    /// the own one.
    Start(bool),
    /// Read the request again, so that no stale phase is helped.
    Again(bool, u64),
    /// Pop a span from the list at the query position.
    Pop(bool, u64),
    /// Complete the request with the span in hand.
    Complete(bool, u64),
    /// Take the span of the own request, which is no longer pending.
    OwnTake,
    /// After an attempt at the own request: take its span.
    OwnReclaim,
    /// Budget exhausted: withdraw the own request.
    Withdraw,
    /// Take the span of a request that was completed before it could be
    /// withdrawn.
    LastReclaim,
    /// Save the positions, and stash a surplus span.
    Finish,
    Done,
}

/// One acquisition in progress, for the thread and class of `key`.
#[derive(Clone, Copy, Debug, PartialEq, Eq, Structural)]
pub struct Acquisition {
    pub key: Key,
    pub query_pos: u64,
    pub helping: u64,
    /// Phase of the own request.
    pub phase: u64,
    /// A span popped and not placed yet, or 0.
    pub held: u64,
    pub help_count: u64,
    pub help_query: u64,
    pub stage: Stage,
    /// The span acquired, or 0; final once the stage is `Done`.
    pub result: u64,
}

/// The public lists and the record words of one class, by thread.
pub ghost struct Board {
    pub lists: Seq<Seq<u64>>,
    pub words: Seq<u64>,
}

impl Board {
    /// The list of thread `u` without its first span.
    pub open spec fn take(self, u: int) -> Board {
        Board { lists: self.lists.update(u, self.lists[u].drop_first()), ..self }
    }

    /// The word of thread `u` replaced.
    pub open spec fn write(self, u: int, word: u64) -> Board {
        Board { words: self.words.update(u, word), ..self }
    }

    /// A row per thread, and only spans in the lists.
    pub open spec fn proper(self, n: int) -> bool {
        &&& self.lists.len() == n
        &&& self.words.len() == n
        &&& forall|u: int, i: int|
            0 <= u < n && 0 <= i < self.lists[u].len() ==> completed(#[trigger] self.lists[u][i])
    }
}

impl Acquisition {
    /// The thread whose request is being finished.
    pub open spec fn target(self, own: bool) -> u64 {
        if own {
            self.key.tid
        } else {
            self.helping
        }
    }

    /// After an attempt at a request.
    pub open spec fn attempted(self, own: bool, n: int) -> Acquisition {
        if own {
            Acquisition { stage: Stage::OwnReclaim, ..self }
        } else {
            Acquisition {
                help_count: (self.help_count + 1) as u64,
                helping: ((self.helping + 1) % n) as u64,
                stage: Stage::HelpCheck,
                ..self
            }
        }
    }

    /// On to the next list.
    pub open spec fn next_list(self, own: bool, n: int) -> Acquisition {
        Acquisition {
            help_query: (self.help_query + 1) as u64,
            query_pos: ((self.query_pos + 1) % n) as u64,
            stage: if own { Stage::OwnCheck } else { Stage::HelpCheck },
            ..self
        }
    }

    /// Bound on the steps that are left, whatever other threads do.
    pub open spec fn rank(self, n: int) -> int {
        let queries = n - self.help_query;
        let helps = HELP_BUDGET_H - self.help_count;
        match self.stage {
            Stage::Reclaim => 14 * n + 48,
            Stage::Announce => 14 * n + 47,
            Stage::HelpCheck => 14 * queries + 6 * helps + 20 + 5,
            Stage::Start(false) => 14 * queries + 6 * helps + 20 + 4,
            Stage::Again(false, _) => 14 * queries + 6 * helps + 20 + 3,
            Stage::Pop(false, _) => 14 * queries + 6 * helps + 20 + 2,
            Stage::Complete(false, _) => 14 * queries + 6 * helps + 20 + 1,
            Stage::OwnCheck => 8 * queries + 6 + 6,
            Stage::Start(true) => 8 * queries + 6 + 5,
            Stage::Again(true, _) => 8 * queries + 6 + 4,
            Stage::Pop(true, _) => 8 * queries + 6 + 3,
            Stage::Complete(true, _) => 8 * queries + 6 + 2,
            Stage::OwnReclaim => 8 * queries + 6 + 1,
            Stage::OwnTake => 5,
            Stage::Withdraw => 5,
            Stage::LastReclaim => 4,
            Stage::Finish => 3,
            Stage::Done => 0,
        }
    }

    /// The counters are in range, and inside a loop its condition holds.
    pub open spec fn in_range(self, n: int) -> bool {
        &&& self.key.tid < n
        &&& self.query_pos < n
        &&& self.helping < n
        &&& self.help_count <= HELP_BUDGET_H
        &&& self.help_query <= n
        &&& match self.stage {
            Stage::Reclaim | Stage::Announce => self.help_count == 0 && self.help_query == 0
                && self.held == 0,
            Stage::Start(own) => self.help_query < n && (own || self.help_count < HELP_BUDGET_H),
            Stage::Again(own, _) => self.help_query < n && (own || self.help_count
                < HELP_BUDGET_H),
            Stage::Pop(own, _) => self.help_query < n && (own || self.help_count < HELP_BUDGET_H)
                && self.held == 0,
            Stage::Complete(own, _) => self.help_query < n && (own || self.help_count
                < HELP_BUDGET_H) && self.held != 0,
            Stage::OwnReclaim | Stage::OwnTake => self.help_query < n,
            Stage::Done => self.held == 0,
            _ => true,
        }
    }
}

/// One step of an acquisition while no other thread acts and no attempt fails
/// for no reason. `fresh` is the phase of its request.
pub open spec fn model_step(b: Board, m: Acquisition, fresh: u64, n: int) -> (Board, Acquisition) {
    let t = m.key.tid as int;
    let own_word = b.words[t];
    match m.stage {
        Stage::Reclaim => if completed(own_word) {
            (b.write(t, 0), Acquisition { result: own_word, stage: Stage::Finish, ..m })
        } else {
            (b.write(t, 0), Acquisition { stage: Stage::Announce, ..m })
        },
        Stage::Announce => (
            b.write(t, pending_word(fresh)),
            Acquisition { phase: fresh, stage: Stage::HelpCheck, ..m },
        ),
        Stage::HelpCheck => if m.help_count < HELP_BUDGET_H && m.help_query < n {
            if pending(b.words[m.helping as int]) {
                (b, Acquisition { stage: Stage::Start(false), ..m })
            } else {
                (b, m.attempted(false, n))
            }
        } else {
            (b, Acquisition { stage: Stage::OwnCheck, ..m })
        },
        Stage::OwnCheck => if m.help_query < n {
            if pending(own_word) {
                (b, Acquisition { stage: Stage::Start(true), ..m })
            } else {
                (b, Acquisition { stage: Stage::OwnTake, ..m })
            }
        } else {
            (b, Acquisition { stage: Stage::Withdraw, ..m })
        },
        Stage::Start(own) => {
            let w = b.words[m.target(own) as int];
            if pending(w) {
                (b, Acquisition { stage: Stage::Again(own, w / 2), ..m })
            } else {
                (b, m.attempted(own, n))
            }
        },
        Stage::Again(own, phase) => {
            let w = b.words[m.target(own) as int];
            if pending(w) && w / 2 == phase {
                if m.held == 0 {
                    (b, Acquisition { stage: Stage::Pop(own, phase), ..m })
                } else {
                    (b, Acquisition { stage: Stage::Complete(own, phase), ..m })
                }
            } else {
                (b, m.attempted(own, n))
            }
        },
        Stage::Pop(own, phase) => {
            let l = b.lists[m.query_pos as int];
            if l.len() == 0 {
                (b, m.next_list(own, n))
            } else {
                (
                    b.take(m.query_pos as int),
                    Acquisition { held: l[0], stage: Stage::Complete(own, phase), ..m },
                )
            }
        },
        Stage::Complete(own, phase) => {
            let u = m.target(own) as int;
            if b.words[u] == pending_word(phase) {
                (b.write(u, m.held), (Acquisition { held: 0, ..m }).attempted(own, n))
            } else {
                (b, m.attempted(own, n))
            }
        },
        Stage::OwnTake => (
            b.write(t, 0),
            Acquisition {
                result: if completed(own_word) { own_word } else { 0 },
                stage: Stage::Finish,
                ..m
            },
        ),
        Stage::OwnReclaim => if completed(own_word) {
            (b.write(t, 0), Acquisition { result: own_word, stage: Stage::Finish, ..m })
        } else if m.held != 0 {
            (b.write(t, 0), Acquisition { result: m.held, held: 0, stage: Stage::Finish, ..m })
        } else {
            (b.write(t, 0), m.next_list(true, n))
        },
        Stage::Withdraw => (
            if own_word == pending_word(m.phase) {
                b.write(t, 0)
            } else {
                b
            },
            Acquisition { stage: Stage::LastReclaim, ..m },
        ),
        Stage::LastReclaim => if completed(own_word) {
            (b.write(t, 0), Acquisition { result: own_word, stage: Stage::Finish, ..m })
        } else {
            (b.write(t, 0), Acquisition { result: m.held, held: 0, stage: Stage::Finish, ..m })
        },
        Stage::Finish => (
            if m.held != 0 {
                b.write(t, m.held)
            } else {
                b
            },
            Acquisition { held: 0, stage: Stage::Done, ..m },
        ),
        Stage::Done => (b, m),
    }
}

/// The step counts after one step of an acquisition.
pub open spec fn step_count(b: Board, m: Acquisition, n: int, step: StepCounter) -> StepCounter {
    match m.stage {
        Stage::Reclaim | Stage::OwnTake | Stage::OwnReclaim | Stage::LastReclaim => StepCounter {
            swap_ops: (step.swap_ops + 1) as u64,
            ..step
        },
        Stage::HelpCheck => if m.help_count < HELP_BUDGET_H && m.help_query < n {
            StepCounter { help_steps: (step.help_steps + 1) as u64, ..step }
        } else {
            step
        },
        Stage::OwnCheck => if m.help_query < n {
            StepCounter { query_steps: (step.query_steps + 1) as u64, ..step }
        } else {
            step
        },
        Stage::Pop(_, _) => if b.lists[m.query_pos as int].len() > 0 {
            StepCounter { cas2_attempts: (step.cas2_attempts + 1) as u64, ..step }
        } else {
            step
        },
        Stage::Complete(_, _) | Stage::Withdraw => StepCounter {
            cas_attempts: (step.cas_attempts + 1) as u64,
            ..step
        },
        _ => step,
    }
}

/// The step counts after a whole acquisition while no other thread acts.
pub open spec fn run_count(
    b: Board,
    m: Acquisition,
    fresh: u64,
    n: int,
    step: StepCounter,
) -> StepCounter
    decreases m.rank(n),
    when b.proper(n) && m.in_range(n) && n <= u64::MAX
    via run_count_ends
{
    if m.stage is Done {
        step
    } else {
        let (b2, m2) = model_step(b, m, fresh, n);
        run_count(b2, m2, fresh, n, step_count(b, m, n, step))
    }
}

#[via_fn]
proof fn run_count_ends(b: Board, m: Acquisition, fresh: u64, n: int, step: StepCounter) {
    if !(m.stage is Done) {
        lemma_model_step(b, m, fresh, n);
    }
}

/// A step keeps the counters in range and uses up steps.
pub proof fn lemma_model_step(b: Board, m: Acquisition, fresh: u64, n: int)
    requires
        b.proper(n),
        m.in_range(n),
        !(m.stage is Done),
        n <= u64::MAX,
    ensures
        ({
            let (b2, m2) = model_step(b, m, fresh, n);
            &&& m2.in_range(n)
            &&& m2.rank(n) < m.rank(n)
            &&& m2.rank(n) >= 0
            &&& m2.key == m.key
            &&& b2.proper(n)
        }),
{
    let (b2, m2) = model_step(b, m, fresh, n);
    match m.stage {
        Stage::Pop(own, _) => {
            let q = m.query_pos as int;
            if b.lists[q].len() > 0 {
                assert(completed(b.lists[q][0]));
                assert forall|u: int, i: int| 0 <= u < n && 0 <= i < b2.lists[u].len() implies completed(
                    #[trigger] b2.lists[u][i],
                ) by {
                    if u == q {
                        assert(b2.lists[u][i] == b.lists[q][i + 1]);
                    }
                }
            }
        },
        _ => {},
    }
}

/// A whole acquisition while no other thread acts.
pub open spec fn run(b: Board, m: Acquisition, fresh: u64, n: int) -> (Board, Acquisition)
    decreases m.rank(n),
    when b.proper(n) && m.in_range(n) && n <= u64::MAX
    via run_ends
{
    if m.stage is Done {
        (b, m)
    } else {
        let (b2, m2) = model_step(b, m, fresh, n);
        run(b2, m2, fresh, n)
    }
}

#[via_fn]
proof fn run_ends(b: Board, m: Acquisition, fresh: u64, n: int) {
    if !(m.stage is Done) {
        lemma_model_step(b, m, fresh, n);
    }
}

/// The word is that of a pending request of the given phase.
pub open spec fn seen(word: u64, phase: u64) -> bool {
    pending(word) && word / 2 == phase && word == pending_word(phase)
}

/// What holds of an acquisition while no other thread acts: its own request
/// stays pending until a span completes it, and no span is left over.
pub open spec fn calm(b: Board, m: Acquisition, n: int) -> bool {
    let w = b.words[m.key.tid as int];
    let asking = w == pending_word(m.phase);
    match m.stage {
        Stage::Reclaim => true,
        Stage::Announce => w == 0,
        Stage::HelpCheck => (asking || (completed(w) && m.help_query < n && m.help_count
            == HELP_BUDGET_H)) && m.held == 0,
        Stage::OwnCheck => (asking || (completed(w) && m.help_query < n)) && m.held == 0,
        Stage::Start(_) => asking && m.held == 0,
        Stage::Again(own, phase) => asking && m.held == 0 && seen(
            b.words[m.target(own) as int],
            phase,
        ),
        Stage::Pop(own, phase) => asking && m.held == 0 && seen(
            b.words[m.target(own) as int],
            phase,
        ),
        Stage::Complete(own, phase) => asking && completed(m.held) && seen(
            b.words[m.target(own) as int],
            phase,
        ),
        Stage::OwnTake | Stage::OwnReclaim => completed(w) && m.held == 0,
        Stage::Withdraw => asking && m.held == 0,
        Stage::LastReclaim => w == 0 && m.held == 0,
        Stage::Finish | Stage::Done => m.held == 0,
    }
}

/// A step without interference stays calm.
pub proof fn lemma_calm_step(b: Board, m: Acquisition, fresh: u64, n: int)
    requires
        b.proper(n),
        m.in_range(n),
        n <= u64::MAX,
        calm(b, m, n),
    ensures
        ({
            let (b2, m2) = model_step(b, m, fresh, n);
            calm(b2, m2, n)
        }),
{
    let w = b.words[m.key.tid as int];
    match m.stage {
        Stage::Pop(own, phase) => {
            let l = b.lists[m.query_pos as int];
            let (b2, m2) = model_step(b, m, fresh, n);
            assert(b2.words == b.words && m2.phase == m.phase && m2.key == m.key);
            if l.len() > 0 {
                assert(completed(l[0]));
                assert(m2.stage == Stage::Complete(own, phase) && m2.held == l[0]);
            } else if own {
                assert(m2.stage is OwnCheck);
            } else {
                assert(m2.stage is HelpCheck);
            }
        },
        Stage::Start(own) => {
            let v = b.words[m.target(own) as int];
            assert(pending(v) ==> pending_word((v / 2) as u64) == v);
            assert(pending(w));
        },
        _ => {},
    }
}

/// Offset of the first non-empty list at or behind offset `d` from `q`, in
/// cyclic order, or `n`.
pub open spec fn next_full(lists: Seq<Seq<u64>>, q: int, d: int, n: int) -> int
    decreases n - d,
{
    if d >= n {
        n
    } else if lists[(q + d) % n].len() > 0 {
        d
    } else {
        next_full(lists, q, d + 1, n)
    }
}

/// Where all lists are empty, there is no next one that is not.
pub proof fn lemma_next_full_none(lists: Seq<Seq<u64>>, q: int, d: int, n: int)
    requires
        n >= 1,
        0 <= q,
        0 <= d,
        forall|u: int| 0 <= u < n ==> (#[trigger] lists[u]).len() == 0,
    ensures
        next_full(lists, q, d, n) >= n,
    decreases n - d,
{
    if d < n {
        assert(lists[(q + d) % n].len() == 0);
        lemma_next_full_none(lists, q, d + 1, n);
    }
}

/// Where there is no next list that is not empty, all lists are empty.
pub proof fn lemma_all_empty(lists: Seq<Seq<u64>>, q: int, n: int, u: int)
    requires
        0 <= q < n,
        next_full(lists, q, 0, n) >= n,
        0 <= u < n,
    ensures
        lists[u].len() == 0,
{
    let d = if u >= q { u - q } else { u + n - q };
    assert((q + d) % n == u) by (nonlinear_arith)
        requires
            q + d == u || q + d == u + n,
            0 <= u < n,
    ;
    lemma_empty_at(lists, q, 0, n, d);
}

/// The lists before the next one that is not empty are empty.
proof fn lemma_empty_at(lists: Seq<Seq<u64>>, q: int, d: int, n: int, e: int)
    requires
        0 <= d <= e < n,
        next_full(lists, q, d, n) >= n,
    ensures
        lists[(q + e) % n].len() == 0,
    decreases n - d,
{
    if d < e {
        lemma_empty_at(lists, q, d + 1, n, e);
    }
}

/// What an acquisition leaves behind and returns.
pub ghost struct Outcome {
    pub board: Board,
    pub result: u64,
    pub query: int,
    pub helping: int,
}

/// The own turn: the first span in cyclic order from offset `d` on, if there
/// is one; the own request is gone.
pub open spec fn own_turn(b: Board, t: int, q: int, d: int, helping: int, n: int) -> Outcome {
    let e = next_full(b.lists, q, d, n);
    if e >= n {
        Outcome { board: b.write(t, 0), result: 0, query: q, helping }
    } else {
        let u = (q + e) % n;
        Outcome { board: b.take(u).write(t, 0), result: b.lists[u][0], query: u, helping }
    }
}

/// What an acquisition of thread `t` does while no other thread acts, from
/// query position `q` and helping position `h`.
///
/// A span that waits in the own record is taken. Otherwise, if the request at
/// the helping position is pending, it gets the first span in cyclic order,
/// and the acquisition the next one; and if it is not, the acquisition gets
/// the first one.
pub open spec fn outcome(b: Board, t: int, q: int, h: int, n: int) -> Outcome {
    let e = next_full(b.lists, q, 0, n);
    if completed(b.words[t]) {
        Outcome { board: b.write(t, 0), result: b.words[t], query: q, helping: h }
    } else if h != t && !pending(b.words[h]) {
        own_turn(b, t, q, 0, (h + 1) % n, n)
    } else if e >= n {
        Outcome { board: b.write(t, 0), result: 0, query: q, helping: h }
    } else if h == t {
        own_turn(b, t, q, 0, (h + 1) % n, n)
    } else {
        let u = (q + e) % n;
        own_turn(b.take(u).write(h, b.lists[u][0]), t, q, e, (h + 1) % n, n)
    }
}

/// A finished acquisition with a given outcome.
pub open spec fn ends_with(r: (Board, Acquisition), o: Outcome) -> bool {
    &&& r.0 == o.board
    &&& r.1.result == o.result
    &&& r.1.query_pos == o.query
    &&& r.1.helping == o.helping
    &&& r.1.stage is Done
    &&& r.1.held == 0
}

/// One step of a run.
proof fn lemma_run_step(b: Board, m: Acquisition, fresh: u64, n: int)
    requires
        b.proper(n),
        m.in_range(n),
        n <= u64::MAX,
        !(m.stage is Done),
    ensures
        ({
            let (b2, m2) = model_step(b, m, fresh, n);
            &&& run(b, m, fresh, n) == run(b2, m2, fresh, n)
            &&& b2.proper(n)
            &&& m2.in_range(n)
        }),
{
    lemma_model_step(b, m, fresh, n);
}

/// The position at offset `d`, moved on by one.
pub(crate) proof fn lemma_next_pos(q: int, d: int, n: int)
    requires
        n > 0,
        0 <= q,
        0 <= d,
    ensures
        ((q + d) % n + 1) % n == (q + d + 1) % n,
{
    vstd::arithmetic::div_mod::lemma_add_mod_noop(q + d, 1, n);
    vstd::arithmetic::div_mod::lemma_add_mod_noop((q + d) % n, 1, n);
    vstd::arithmetic::div_mod::lemma_mod_twice(q + d, n);
}

/// A run that has a result in hand and saves it.
proof fn lemma_run_finish(b: Board, m: Acquisition, fresh: u64, n: int)
    requires
        b.proper(n),
        m.in_range(n),
        n <= u64::MAX,
        m.stage is Finish,
        m.held == 0,
    ensures
        run(b, m, fresh, n) == (b, Acquisition { stage: Stage::Done, ..m }),
{
    lemma_run_step(b, m, fresh, n);
    assert(run(b, Acquisition { stage: Stage::Done, held: 0, ..m }, fresh, n) == (
        b,
        Acquisition { stage: Stage::Done, ..m },
    ));
}

/// A run from the own turn on.
proof fn lemma_run_own(b: Board, m: Acquisition, fresh: u64, n: int, q: int)
    requires
        b.proper(n),
        m.in_range(n),
        1 <= n <= u64::MAX,
        m.stage is OwnCheck,
        m.held == 0,
        m.phase == fresh,
        0 <= q < n,
        m.query_pos == (q + m.help_query) % n,
        b.words[m.key.tid as int] == pending_word(fresh),
    ensures
        ends_with(
            run(b, m, fresh, n),
            own_turn(b, m.key.tid as int, q, m.help_query as int, m.helping as int, n),
        ),
    decreases n - m.help_query,
{
    let t = m.key.tid as int;
    let d = m.help_query as int;
    lemma_run_step(b, m, fresh, n);
    let (b1, m1) = model_step(b, m, fresh, n);
    if d >= n {
        // Withdraw, last reclaim, finish.
        lemma_run_step(b1, m1, fresh, n);
        let (b2, m2) = model_step(b1, m1, fresh, n);
        lemma_run_step(b2, m2, fresh, n);
        let (b3, m3) = model_step(b2, m2, fresh, n);
        lemma_run_finish(b3, m3, fresh, n);
        assert(b3.words =~= b.words.update(t, 0));
        assert((q + n) % n == q) by {
            vstd::arithmetic::div_mod::lemma_mod_add_multiples_vanish(q, n);
            vstd::arithmetic::div_mod::lemma_small_mod(q as nat, n as nat);
        }
    } else {
        lemma_run_step(b1, m1, fresh, n);
        let (b2, m2) = model_step(b1, m1, fresh, n);
        lemma_run_step(b2, m2, fresh, n);
        let (b3, m3) = model_step(b2, m2, fresh, n);
        lemma_run_step(b3, m3, fresh, n);
        let (b4, m4) = model_step(b3, m3, fresh, n);
        let u = m.query_pos as int;
        if b.lists[u].len() == 0 {
            lemma_next_pos(q, d, n);
            lemma_run_own(b4, m4, fresh, n, q);
        } else {
            let s = b.lists[u][0];
            assert(completed(s));
            lemma_run_step(b4, m4, fresh, n);
            let (b5, m5) = model_step(b4, m4, fresh, n);
            assert(m4.held == s);
            assert(pending_word(pending_word(fresh) / 2) == pending_word(fresh));
            assert(b5.words[t] == s);
            lemma_run_step(b5, m5, fresh, n);
            let (b6, m6) = model_step(b5, m5, fresh, n);
            lemma_run_finish(b6, m6, fresh, n);
            assert(b6.words =~= b.words.update(t, 0));
        }
    }
}

/// A run from the helping loop on, while nothing was helped yet.
proof fn lemma_run_help(b: Board, m: Acquisition, fresh: u64, n: int, q: int)
    requires
        b.proper(n),
        m.in_range(n),
        1 <= n <= u64::MAX,
        m.stage is HelpCheck,
        m.held == 0,
        m.help_count == 0,
        m.phase == fresh,
        0 <= q < n,
        m.query_pos == (q + m.help_query) % n,
        b.words[m.key.tid as int] == pending_word(fresh),
        m.help_query == 0 || pending(b.words[m.helping as int]),
    ensures
        ({
            let t = m.key.tid as int;
            let h = m.helping as int;
            let d = m.help_query as int;
            let e = next_full(b.lists, q, d, n);
            let u = (q + e) % n;
            ends_with(
                run(b, m, fresh, n),
                if !pending(b.words[h]) {
                    own_turn(b, t, q, 0, (h + 1) % n, n)
                } else if e >= n {
                    Outcome { board: b.write(t, 0), result: 0, query: q, helping: h }
                } else if h == t {
                    own_turn(b, t, q, d, (h + 1) % n, n)
                } else {
                    own_turn(b.take(u).write(h, b.lists[u][0]), t, q, e, (h + 1) % n, n)
                },
            )
        }),
    decreases n - m.help_query,
{
    let t = m.key.tid as int;
    let h = m.helping as int;
    let d = m.help_query as int;
    lemma_run_step(b, m, fresh, n);
    let (b1, m1) = model_step(b, m, fresh, n);
    if d >= n {
        lemma_run_own(b1, m1, fresh, n, q);
    } else if !pending(b.words[h]) {
        lemma_run_step(b1, m1, fresh, n);
        let (b2, m2) = model_step(b1, m1, fresh, n);
        lemma_run_own(b2, m2, fresh, n, q);
    } else {
        let w = b.words[h];
        lemma_run_step(b1, m1, fresh, n);
        let (b2, m2) = model_step(b1, m1, fresh, n);
        lemma_run_step(b2, m2, fresh, n);
        let (b3, m3) = model_step(b2, m2, fresh, n);
        lemma_run_step(b3, m3, fresh, n);
        let (b4, m4) = model_step(b3, m3, fresh, n);
        let u = m.query_pos as int;
        if b.lists[u].len() == 0 {
            lemma_next_pos(q, d, n);
            lemma_run_help(b4, m4, fresh, n, q);
        } else {
            let s = b.lists[u][0];
            assert(completed(s));
            assert(pending_word((w / 2) as u64) == w);
            lemma_run_step(b4, m4, fresh, n);
            let (b5, m5) = model_step(b4, m4, fresh, n);
            assert(b5 == b.take(u).write(h, s));
            lemma_run_step(b5, m5, fresh, n);
            let (b6, m6) = model_step(b5, m5, fresh, n);
            if h == t {
                lemma_run_step(b6, m6, fresh, n);
                let (b7, m7) = model_step(b6, m6, fresh, n);
                lemma_run_step(b7, m7, fresh, n);
                let (b8, m8) = model_step(b7, m7, fresh, n);
                lemma_run_finish(b8, m8, fresh, n);
                assert(b8.words =~= b.words.update(t, 0));
            } else {
                lemma_run_own(b6, m6, fresh, n, q);
            }
        }
    }
}

/// The protocol, run without interference, has the stated outcome.
pub proof fn lemma_run_outcome(b: Board, m: Acquisition, fresh: u64, n: int)
    requires
        b.proper(n),
        m.in_range(n),
        1 <= n <= u64::MAX,
        m.stage is Reclaim,
    ensures
        ends_with(
            run(b, m, fresh, n),
            outcome(b, m.key.tid as int, m.query_pos as int, m.helping as int, n),
        ),
{
    let t = m.key.tid as int;
    let q = m.query_pos as int;
    let h = m.helping as int;
    lemma_run_step(b, m, fresh, n);
    let (b1, m1) = model_step(b, m, fresh, n);
    if completed(b.words[t]) {
        lemma_run_finish(b1, m1, fresh, n);
    } else {
        lemma_run_step(b1, m1, fresh, n);
        let (b2, m2) = model_step(b1, m1, fresh, n);
        vstd::arithmetic::div_mod::lemma_small_mod(q as nat, n as nat);
        lemma_run_help(b2, m2, fresh, n, q);
        assert(b2.words.update(t, 0) =~= b.words.update(t, 0));
        lemma_own_word(b, b2, t, q, 0, (h + 1) % n, n);
        let e = next_full(b.lists, q, 0, n);
        if e < n && h != t {
            let u = (q + e) % n;
            let s = b.lists[u][0];
            assert(b2.take(u).write(h, s).words.update(t, 0) =~= b.take(u).write(
                h,
                s,
            ).words.update(t, 0));
            lemma_own_word(b.take(u).write(h, s), b2.take(u).write(h, s), t, q, e, (h + 1) % n, n);
        }
    }
}

/// The own word plays no part in the own turn.
proof fn lemma_own_word(b: Board, c: Board, t: int, q: int, d: int, helping: int, n: int)
    requires
        b.lists == c.lists,
        b.words.update(t, 0) == c.words.update(t, 0),
    ensures
        own_turn(b, t, q, d, helping, n) == own_turn(c, t, q, d, helping, n),
{
}

/// What an acquisition returns waited in the own record or was in a list.
pub proof fn lemma_outcome_source(b: Board, t: int, q: int, h: int, n: int)
    requires
        b.proper(n),
        n >= 1,
        0 <= t < n,
        0 <= h < n,
        outcome(b, t, q, h, n).result != 0,
    ensures
        completed(b.words[t]) ==> outcome(b, t, q, h, n).result == b.words[t],
        !completed(b.words[t]) ==> exists|u: int, i: int|
            0 <= u < n && 0 <= i < b.lists[u].len() && outcome(b, t, q, h, n).result
                == #[trigger] b.lists[u][i],
{
    if !completed(b.words[t]) {
        let e = next_full(b.lists, q, 0, n);
        let u = (q + e) % n;
        lemma_next_full(b.lists, q, 0, n);
        if h != t && pending(b.words[h]) && e < n {
            let c = b.take(u).write(h, b.lists[u][0]);
            lemma_next_full(c.lists, q, e, n);
            let f = next_full(c.lists, q, e, n);
            let v = (q + f) % n;
            if f < n {
                let r = c.lists[v][0];
                if v == u {
                    assert(r == b.lists[u][1]);
                } else {
                    assert(r == b.lists[v][0]);
                }
            }
        } else if e < n {
            assert(outcome(b, t, q, h, n).result == b.lists[u][0]);
        }
    }
}

/// The list that `next_full` finds is not empty.
pub proof fn lemma_next_full(lists: Seq<Seq<u64>>, q: int, d: int, n: int)
    requires
        n >= 1,
        d >= 0,
    ensures
        next_full(lists, q, d, n) < n ==> lists[(q + next_full(lists, q, d, n)) % n].len() > 0,
        next_full(lists, q, d, n) >= n ==> next_full(lists, q, d, n) == n,
        0 <= (q + next_full(lists, q, d, n)) % n < n,
        next_full(lists, q, d, n) >= 0,
    decreases n - d,
{
    if d < n && lists[(q + d) % n].len() == 0 {
        lemma_next_full(lists, q, d + 1, n);
    }
}

} // verus!
