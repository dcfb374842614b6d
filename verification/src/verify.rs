//! Invariants of an allocator that no thread is using.
//!
//! All lists and records are walked, and compared with what the headers of
//! the spans say. The raw region is never walked: the inner spans of a run
//! carry no header.

use crate::block::UNLINKED;
use crate::chain::{blocks, cons, first, lemma_drop_first, linked, succ};
use crate::config::{MAX_LARGE_RUN_CLASSES, OWNER_PUBLIC, SPAN_SIZE};
use crate::heap::{spans_linked, LocalSpanList};
use crate::help_record::{completed, EncodedReq};
use crate::huge::{huge_class_granules, HUGE_SLOT_ALLOCATED, HUGE_SLOT_EMPTY, HUGE_SLOT_FREE};
use crate::large::run_class_spans;
use crate::local_list::LocalFreeList;
use crate::memory::{MemView, SpanMemory, GRANULE, SPAN_GRANULES};
use crate::remote_mpsc::RemoteMpscFreeList;
use crate::span::{lemma_block, SpanHeader, SpanState};
use crate::spmc_span_list::SpmcSpanList;
use crate::state::{Key, Lane, Place, WfSpanAllocator};
use vstd::arithmetic::power2::pow2;
use vstd::prelude::*;

verus! {

/// The blocks `w` lie inside the span at `s` and are linked one after the other
/// from `head` on, to the end of their list.
pub open spec fn chained(links: Map<u64, u64>, w: Seq<u64>, s: u64, head: u64) -> bool {
    &&& head == (if w.len() > 0 { w[0] } else { 0 })
    &&& forall|i: int|
        0 <= i < w.len() ==> {
            &&& s < #[trigger] w[i] < s + 65536
            &&& links[w[i]] == (if i + 1 < w.len() { w[i + 1] } else { 0 })
        }
}

/// The spans of a private list, following the links from `cur` on; `None` if
/// the list leaves the region or has more than `fuel` spans.
pub open spec fn walk_local(headers: Map<u64, SpanHeader>, cur: u64, fuel: nat) -> Option<Seq<u64>>
    decreases fuel,
{
    if cur == 0 {
        Some(Seq::empty())
    } else if fuel == 0 || !headers.dom().contains(cur) {
        None
    } else {
        match walk_local(headers, headers[cur].local.next_local, (fuel - 1) as nat) {
            Some(rest) => Some(cons(cur, rest)),
            None => None,
        }
    }
}

/// The spans of a public list behind the node `node`; `None` if the list
/// leaves the nodes or the region, or has more than `fuel` spans.
pub open spec fn walk_public(mem: MemView, node: u64, fuel: nat) -> Option<Seq<u64>>
    decreases fuel,
{
    if !mem.nodes.dom().contains(node) {
        None
    } else {
        let next = mem.nodes[node].next;
        if next == 0 {
            Some(Seq::empty())
        } else if fuel == 0 || !mem.nodes.dom().contains(next) || !mem.headers.dom().contains(
            mem.nodes[next].span,
        ) {
            None
        } else {
            match walk_public(mem, next, (fuel - 1) as nat) {
                Some(rest) => Some(cons(mem.nodes[next].span, rest)),
                None => None,
            }
        }
    }
}

/// The blocks of a local free list of the span `s`, following the links from
/// `cur` on; `None` if the list leaves the span, holds an unlinked block, or
/// has more than `fuel` blocks.
pub open spec fn walk_free(links: Map<u64, u64>, s: u64, cur: u64, fuel: nat) -> Option<Seq<u64>>
    decreases fuel,
{
    if cur == 0 {
        Some(Seq::empty())
    } else if fuel == 0 || cur == UNLINKED || !(s < cur < s + SPAN_SIZE) || !links.dom().contains(
        cur,
    ) {
        None
    } else {
        match walk_free(links, s, links[cur], (fuel - 1) as nat) {
            Some(rest) => Some(cons(cur, rest)),
            None => None,
        }
    }
}

/// A sequence put in front of a walk.
pub open spec fn prepend(done: Seq<u64>, rest: Option<Seq<u64>>) -> Option<Seq<u64>> {
    match rest {
        Some(r) => Some(done + r),
        None => None,
    }
}

/// One span or run found in a list or record. The owner is the thread of the
/// private list, or `None` in a public list or a record.
#[derive(Clone, Copy)]
pub struct Entry {
    pub at: u64,
    pub lane: Lane,
    pub class: u64,
    pub owner: Option<u64>,
}

/// Spans that an entry takes up.
pub open spec fn entry_spans(e: Entry) -> int {
    match e.lane {
        Lane::Span => 1,
        Lane::Run => pow2(e.class as nat) as int,
    }
}

/// The counts of a span of blocks are in range, and its local free list has
/// exactly as many distinct blocks of the span as its count says.
pub open spec fn span_checks(mem: MemView, s: u64, owner: Option<u64>, class: u64) -> bool {
    let h = mem.headers[s];
    &&& h.size_class == class
    &&& (owner matches Some(t) ==> h.owner == t)
    &&& h.local.free_count <= h.block_count
    &&& h.remote.free_count >= 0
    &&& h.local.free_count + h.remote.free_count <= h.block_count
    &&& match walk_free(mem.links, s, h.local.free.head(), h.block_count as nat) {
        Some(w) => w.len() == h.local.free_count && w.no_duplicates(),
        None => false,
    }
}

/// Class and span count of a run agree, its state is that of the list it is
/// in, and it has no blocks.
pub open spec fn run_checks(mem: MemView, r: u64, owner: Option<u64>, class: u64) -> bool {
    let h = mem.headers[r];
    &&& h.size_class == class
    &&& h.block_count == pow2(class as nat)
    &&& match owner {
        Some(t) => h.owner == t && h.state == SpanState::RunFreeLocal,
        None => h.state == SpanState::RunFreePublic,
    }
    &&& h.local.free_count == 0
    &&& h.remote.free_count == 0
}

/// An entry passes the checks of its kind, and is marked public unless it is
/// in a private list.
pub open spec fn entry_checks(mem: MemView, e: Entry) -> bool {
    &&& match e.lane {
        Lane::Span => span_checks(mem, e.at, e.owner, e.class),
        Lane::Run => run_checks(mem, e.at, e.owner, e.class),
    }
    &&& e.owner is None ==> mem.headers[e.at].owner == OWNER_PUBLIC
}

/// Check the local free list of a span of blocks.
pub fn check_span(mem: &SpanMemory, s: u64, owner: Option<u64>, class: u64) -> (r: bool)
    requires
        mem.wf(),
        mem@.headers.dom().contains(s),
    ensures
        r == span_checks(mem@, s, owner, class),
{
    let h = mem.header(s);
    if h.size_class != class {
        return false;
    }
    if let Some(t) = owner {
        if h.owner != t {
            return false;
        }
    }
    if h.local.free_count > h.block_count || h.remote.free_count < 0 {
        return false;
    }
    let g: u64 = h.remote.free_count as u64;
    if g > h.block_count - h.local.free_count {
        return false;
    }
    let mut marks: Vec<bool> = Vec::new();
    let mut i: u64 = 0;
    while i < SPAN_GRANULES
        invariant
            i <= SPAN_GRANULES,
            marks@.len() == i,
            forall|k: int| 0 <= k < i ==> !marks@[k],
        decreases SPAN_GRANULES - i,
    {
        marks.push(false);
        i = i + 1;
    }
    let start: u64 = h.local.free.peek_for_verify();
    let mut cur: u64 = start;
    let mut walked: u64 = 0;
    let ghost links = mem@.links;
    let ghost m = h.block_count as nat;
    let ghost mut done: Seq<u64> = Seq::empty();
    proof {
        mem.lemma_view();
        assert(prepend(done, walk_free(links, s, cur, m)) == walk_free(links, s, start, m)) by {
            if let Some(w) = walk_free(links, s, cur, m) {
                assert(done + w =~= w);
            }
        }
    }
    while cur != 0
        invariant
            mem.wf(),
            mem@.is_span(s),
            links == mem@.links,
            forall|a: u64| #[trigger] links.dom().contains(a) <==> mem@.is_word(a),
            mem@.base % SPAN_SIZE == 0,
            mem@.end() <= u64::MAX,
            h == mem@.headers[s],
            m == h.block_count,
            marks@.len() == SPAN_GRANULES,
            done.len() == walked,
            walked <= m,
            done.no_duplicates(),
            prepend(done, walk_free(links, s, cur, (m - walked) as nat)) == walk_free(
                links,
                s,
                start,
                m,
            ),
            start == h.local.free.head(),
            forall|k: int| 0 <= k < done.len() ==> s < #[trigger] done[k] < s + SPAN_SIZE && (
            done[k] - s) % 16 == 0,
            forall|a: u64|
                s < a < s + SPAN_SIZE && (a - s) % 16 == 0 ==> (#[trigger] done.contains(a)
                    <==> marks@[(a - s) / 16]),
            h.size_class == class,
            owner matches Some(t) ==> h.owner == t,
            h.local.free_count <= h.block_count,
            h.remote.free_count >= 0,
            h.local.free_count + h.remote.free_count <= h.block_count,
        decreases m - walked, cur,
    {
        if cur == UNLINKED || walked >= h.block_count || cur <= s || cur - s >= SPAN_SIZE
            || !mem.has_word(cur) {
            return false;
        }
        let next: u64 = mem.link(cur);
        let slot: usize = ((cur - s) / GRANULE) as usize;
        proof {
            assert((cur - s) % 16 == 0) by {
                assert(mem@.is_word(cur));
            }
        }
        if marks[slot] {
            proof {
                assert(done.contains(cur));
                let rest = walk_free(links, s, cur, (m - walked) as nat);
                if let Some(w) = rest {
                    assert(w[0] == cur);
                    let j = choose|j: int| 0 <= j < done.len() && done[j] == cur;
                    let all = done + w;
                    assert(all[j] == cur && all[done.len() as int] == cur);
                    assert(!all.no_duplicates());
                }
            }
            return false;
        }
        marks.set(slot, true);
        proof {
            let before = done;
            assert(!before.contains(cur));
            done = before.push(cur);
            assert forall|a: u64| s < a < s + SPAN_SIZE && (a - s) % 16 == 0 implies (
            #[trigger] done.contains(a) <==> marks@[(a - s) / 16]) by {
                if a == cur {
                    assert(done[before.len() as int] == cur);
                } else {
                    assert((a - s) / 16 != (cur - s) / 16);
                    assert(before.contains(a) <==> done.contains(a)) by {
                        if before.contains(a) {
                            let j = choose|j: int| 0 <= j < before.len() && before[j] == a;
                            assert(done[j] == a);
                        }
                        if done.contains(a) {
                            let j = choose|j: int| 0 <= j < done.len() && done[j] == a;
                            assert(before[j] == a);
                        }
                    }
                }
            }
            assert forall|x: int, y: int| 0 <= x < done.len() && 0 <= y < done.len() && x
                != y implies done[x] != done[y] by {
                if x < before.len() && y < before.len() {
                    assert(before[x] != before[y]);
                } else if x < before.len() {
                    assert(before.contains(before[x]));
                } else {
                    assert(before.contains(before[y]));
                }
            }
            if let Some(w) = walk_free(links, s, next, (m - walked - 1) as nat) {
                assert(before + cons(cur, w) =~= done + w);
            }
        }
        walked = walked + 1;
        cur = next;
    }
    proof {
        assert(done + Seq::<u64>::empty() =~= done);
    }
    walked == h.local.free_count
}

/// Check the header of a free run.
pub fn check_run(mem: &SpanMemory, run: u64, owner: Option<u64>, class: u64) -> (r: bool)
    requires
        mem.wf(),
        mem@.headers.dom().contains(run),
        class < 64,
    ensures
        r == run_checks(mem@, run, owner, class),
{
    let h = mem.header(run);
    if h.size_class != class || h.block_count != run_class_spans(class) {
        return false;
    }
    let in_place: bool = match owner {
        Some(t) => h.owner == t && h.state == SpanState::RunFreeLocal,
        None => h.state == SpanState::RunFreePublic,
    };
    in_place && h.local.free_count == 0 && h.remote.free_count == 0
}

/// Walk a private list; `None` if it leaves the region or is too long.
fn collect_local(mem: &SpanMemory, head: u64, limit: u64) -> (r: Option<Vec<u64>>)
    requires
        mem.wf(),
    ensures
        r is Some <==> walk_local(mem@.headers, head, limit as nat) is Some,
        r matches Some(v) ==> Some(v@) == walk_local(mem@.headers, head, limit as nat),
{
    let mut out: Vec<u64> = Vec::new();
    let mut cur: u64 = head;
    let mut walked: u64 = 0;
    proof {
        if let Some(w) = walk_local(mem@.headers, head, limit as nat) {
            assert(out@ + w =~= w);
        }
    }
    while cur != 0
        invariant
            mem.wf(),
            walked <= limit,
            prepend(out@, walk_local(mem@.headers, cur, (limit - walked) as nat)) == walk_local(
                mem@.headers,
                head,
                limit as nat,
            ),
        decreases limit - walked, cur,
    {
        if walked >= limit || !mem.has_span(cur) {
            return None;
        }
        let ghost before = out@;
        let next: u64 = mem.header(cur).local.next_local;
        out.push(cur);
        proof {
            if let Some(w) = walk_local(mem@.headers, next, (limit - walked - 1) as nat) {
                assert(before + cons(cur, w) =~= out@ + w);
            }
        }
        walked = walked + 1;
        cur = next;
    }
    proof {
        assert(out@ + Seq::<u64>::empty() =~= out@);
    }
    Some(out)
}

/// Walk a public list; `None` if it is not initialized, leaves the region or
/// is too long.
fn walk_public_list(mem: &SpanMemory, dummy: u64, limit: u64) -> (r: Option<Vec<u64>>)
    requires
        mem.wf(),
    ensures
        r is Some <==> walk_public(mem@, dummy, limit as nat) is Some,
        r matches Some(v) ==> Some(v@) == walk_public(mem@, dummy, limit as nat),
{
    let mut out: Vec<u64> = Vec::new();
    if !mem.has_node(dummy) {
        return None;
    }
    let mut node: u64 = dummy;
    let mut walked: u64 = 0;
    proof {
        if let Some(w) = walk_public(mem@, dummy, limit as nat) {
            assert(out@ + w =~= w);
        }
    }
    let mut next: u64 = mem.node(node).next;
    while next != 0
        invariant
            mem.wf(),
            walked <= limit,
            mem@.nodes.dom().contains(node),
            next == mem@.nodes[node].next,
            prepend(out@, walk_public(mem@, node, (limit - walked) as nat)) == walk_public(
                mem@,
                dummy,
                limit as nat,
            ),
        decreases limit - walked, next,
    {
        if walked >= limit || !mem.has_node(next) {
            return None;
        }
        let span: u64 = mem.node(next).span;
        if !mem.has_span(span) {
            return None;
        }
        let ghost before = out@;
        out.push(span);
        proof {
            if let Some(w) = walk_public(mem@, next, (limit - walked - 1) as nat) {
                assert(before + cons(span, w) =~= out@ + w);
            }
        }
        walked = walked + 1;
        node = next;
        next = mem.node(node).next;
    }
    proof {
        assert(out@ + Seq::<u64>::empty() =~= out@);
    }
    Some(out)
}

/// Entries for the spans of a list.
pub open spec fn tag(spans: Seq<u64>, k: Key, owner: Option<u64>) -> Seq<Entry> {
    Seq::new(
        spans.len(),
        |i: int| Entry { at: spans[i], lane: k.lane, class: k.class, owner },
    )
}

/// A range of spans: its first index and its length.
pub open spec fn apart_ranges(a: (u64, u64), b: (u64, u64)) -> bool {
    a.0 + a.1 <= b.0 || b.0 + b.1 <= a.0
}

/// No two ranges share a span.
pub open spec fn all_apart(claims: Seq<(u64, u64)>) -> bool {
    forall|i: int, j: int|
        0 <= i < j < claims.len() ==> apart_ranges(#[trigger] claims[i], #[trigger] claims[j])
}

impl<const C: u64, const HG: u64> WfSpanAllocator<C, HG> {
    /// The keys of all threads and classes, in order.
    pub open spec fn key_at(self, i: int) -> Key {
        let width = C + MAX_LARGE_RUN_CLASSES;
        let j = i % width;
        Key {
            lane: if j < C { Lane::Span } else { Lane::Run },
            class: (if j < C { j } else { j - C }) as u64,
            tid: (i / width) as u64,
        }
    }

    /// Number of keys.
    pub open spec fn keys(self) -> int {
        self.n() * (C + MAX_LARGE_RUN_CLASSES)
    }

    /// Longest list that can be sound.
    pub open spec fn walk_limit(self) -> nat {
        (self.pool.count + 1) as nat
    }

    /// What the lists and the record of a key hold; `None` if a list is
    /// broken, its length is wrong, or the record's span is none.
    pub open spec fn entries_of(self, k: Key) -> Option<Seq<Entry>> {
        let word = self.word(k);
        match (
            walk_local(self.mem@.headers, self.local(k).head_addr(), self.walk_limit()),
            walk_public(self.mem@, self.public(k).head().ptr, self.walk_limit()),
        ) {
            (Some(a), Some(b)) => if a.len() == self.local(k).count() && (completed(word)
                ==> self.mem@.headers.dom().contains(word)) {
                Some(
                    tag(a, k, Some(k.tid)) + tag(b, k, None) + (if completed(word) {
                        tag(seq![word], k, None)
                    } else {
                        Seq::empty()
                    }),
                )
            } else {
                None
            },
            _ => None,
        }
    }

    /// What all lists and records of the first `i` keys hold.
    pub open spec fn inventory(self, i: int) -> Option<Seq<Entry>>
        decreases i,
    {
        if i <= 0 {
            Some(Seq::empty())
        } else {
            match (self.inventory(i - 1), self.entries_of(self.key_at(i - 1))) {
                (Some(a), Some(b)) => Some(a + b),
                _ => None,
            }
        }
    }

    /// Spans and runs in private lists, public lists and records of the first
    /// `i` keys.
    pub open spec fn tally(self, i: int) -> (nat, nat, nat)
        decreases i,
    {
        if i <= 0 {
            (0, 0, 0)
        } else {
            let k = self.key_at(i - 1);
            let t = self.tally(i - 1);
            (
                t.0 + self.local(k).count() as nat,
                t.1 + walk_public(
                    self.mem@,
                    self.public(k).head().ptr,
                    self.walk_limit(),
                )->0.len(),
                t.2 + (if completed(self.word(k)) {
                    1nat
                } else {
                    0
                }),
            )
        }
    }

    /// The spans of the region that an entry takes up.
    pub open spec fn claim_of(self, e: Entry) -> (u64, u64) {
        (((e.at - self.pool.base) / (SPAN_SIZE as int)) as u64, entry_spans(e) as u64)
    }

    /// The state of the huge slot at flat index `i` agrees with its memory.
    pub open spec fn slot_checks(self, i: int) -> bool {
        let x = self.slot(i / 4, i % 4);
        if x.state == HUGE_SLOT_EMPTY {
            x.base == 0
        } else {
            (x.state == HUGE_SLOT_FREE || x.state == HUGE_SLOT_ALLOCATED) && x.base != 0
        }
    }

    /// The spans that the first `i` huge slots take up.
    pub open spec fn huge_claims(self, i: int) -> Seq<(u64, u64)>
        decreases i,
    {
        if i <= 0 {
            Seq::empty()
        } else {
            let x = self.slot((i - 1) / 4, (i - 1) % 4);
            let before = self.huge_claims(i - 1);
            if x.state == HUGE_SLOT_EMPTY || x.base < self.pool.base {
                before
            } else {
                before.push(
                    (
                        ((x.base - self.pool.base) / (SPAN_SIZE as int)) as u64,
                        (pow2(((i - 1) / 4) as nat) * HG) as u64,
                    ),
                )
            }
        }
    }

    /// All that the entries and the huge directory take up.
    pub open spec fn occupied(self, entries: Seq<Entry>) -> Seq<(u64, u64)> {
        Seq::new(entries.len(), |i: int| self.claim_of(entries[i])) + self.huge_claims(12)
    }

    /// The checks of a quiescent allocator: lists and records are whole, every
    /// entry is sound, the huge slots are, and nothing overlaps. The counts
    /// are those of private lists, public lists and records.
    pub open spec fn quiescent(self) -> Option<(nat, nat, nat)> {
        match self.inventory(self.keys()) {
            Some(entries) => if (forall|i: int|
                0 <= i < entries.len() ==> entry_checks(self.mem@, #[trigger] entries[i])) && (
            forall|i: int| 0 <= i < 12 ==> #[trigger] self.slot_checks(i)) && all_apart(
                self.occupied(entries),
            ) {
                Some(self.tally(self.keys()))
            } else {
                None
            },
            None => None,
        }
    }
}

/// The entry of a span in a list.
fn entry(at: u64, k: Key, owner: Option<u64>) -> (r: Entry)
    ensures
        r == (Entry { at, lane: k.lane, class: k.class, owner }),
{
    Entry { at, lane: k.lane, class: k.class, owner }
}

/// Append the entries of a list.
fn push_all(entries: &mut Vec<Entry>, spans: &Vec<u64>, k: Key, owner: Option<u64>)
    ensures
        final(entries)@ == old(entries)@ + tag(spans@, k, owner),
{
    let ghost before = entries@;
    let n: usize = spans.len();
    let mut i: usize = 0;
    while i < n
        invariant
            n == spans@.len(),
            i <= n,
            entries@ == before + tag(spans@, k, owner).take(i as int),
        decreases n - i,
    {
        entries.push(entry(spans[i], k, owner));
        proof {
            let t = tag(spans@, k, owner);
            assert(t.take(i + 1) =~= t.take(i as int).push(t[i as int]));
            assert(before + t.take(i + 1) =~= (before + t.take(i as int)).push(t[i as int]));
        }
        i = i + 1;
    }
    proof {
        let t = tag(spans@, k, owner);
        assert(t.take(n as int) =~= t);
    }
}

/// Whether no two ranges share a span.
fn check_apart(claims: &Vec<(u64, u64)>) -> (r: bool)
    requires
        forall|i: int| 0 <= i < claims@.len() ==> (#[trigger] claims@[i]).0 + claims@[i].1 <= u64::MAX,
    ensures
        r == all_apart(claims@),
{
    let n: usize = claims.len();
    let mut j: usize = 0;
    while j < n
        invariant
            n == claims@.len(),
            j <= n,
            forall|i: int| 0 <= i < claims@.len() ==> (#[trigger] claims@[i]).0 + claims@[i].1
                <= u64::MAX,
            forall|a: int, b: int|
                0 <= a < b < j ==> apart_ranges(#[trigger] claims@[a], #[trigger] claims@[b]),
        decreases n - j,
    {
        let mut i: usize = 0;
        while i < j
            invariant
                n == claims@.len(),
                i <= j < n,
                forall|k: int| 0 <= k < claims@.len() ==> (#[trigger] claims@[k]).0 + claims@[k].1
                    <= u64::MAX,
                forall|a: int, b: int|
                    0 <= a < b < j ==> apart_ranges(#[trigger] claims@[a], #[trigger] claims@[b]),
                forall|a: int|
                    0 <= a < i ==> apart_ranges(#[trigger] claims@[a], claims@[j as int]),
            decreases j - i,
        {
            let a = claims[i];
            let b = claims[j];
            if a.0 + a.1 > b.0 && b.0 + b.1 > a.0 {
                assert(!apart_ranges(claims@[i as int], claims@[j as int]));
                return false;
            }
            i = i + 1;
        }
        j = j + 1;
    }
    true
}

impl<const C: u64, const HG: u64> WfSpanAllocator<C, HG> {
    /// The key at an index is one of this allocator, and no other index has
    /// the same.
    proof fn lemma_key_at(self, i: int)
        requires
            self.shape(),
            0 <= i < self.keys(),
        ensures
            self.valid(self.key_at(i)),
            forall|j: int| 0 <= j < i ==> #[trigger] self.key_at(j) != self.key_at(i),
            i / (C + MAX_LARGE_RUN_CLASSES) < self.n(),
    {
        let w = C + MAX_LARGE_RUN_CLASSES;
        let n = self.n();
        vstd::arithmetic::div_mod::lemma_fundamental_div_mod(i, w);
        assert(0 <= i / w < n) by (nonlinear_arith)
            requires
                0 <= i < n * w,
                i == w * (i / w) + i % w,
                0 <= i % w < w,
                w > 0,
        ;
        assert forall|j: int| 0 <= j < i implies #[trigger] self.key_at(j) != self.key_at(i) by {
            vstd::arithmetic::div_mod::lemma_fundamental_div_mod(j, w);
            assert(0 <= j / w < n) by (nonlinear_arith)
                requires
                    0 <= j < n * w,
                    j == w * (j / w) + j % w,
                    0 <= j % w < w,
                    w > 0,
            ;
            if self.key_at(j) == self.key_at(i) {
                assert(j / w == i / w);
                assert(j % w == i % w);
            }
        }
    }

    /// Walk the lists and the record of a key, and append what they hold.
    fn collect(&self, k: Key, entries: &mut Vec<Entry>) -> (r: Option<(u64, u64, u64)>)
        requires
            self.shape(),
            self.pool_ok(),
            self.valid(k),
        ensures
            r is Some <==> self.entries_of(k) is Some,
            r matches Some(t) ==> {
                &&& final(entries)@ == old(entries)@ + self.entries_of(k)->0
                &&& t.0 == self.local(k).count()
                &&& t.1 == walk_public(
                    self.mem@,
                    self.public(k).head().ptr,
                    self.walk_limit(),
                )->0.len()
                &&& t.2 == (if completed(self.word(k)) {
                    1int
                } else {
                    0
                })
                &&& t.0 + t.1 + t.2 == (self.entries_of(k)->0).len()
            },
    {
        let ghost before = entries@;
        let n: usize = self.heaps.rows.len();
        let t: usize = k.tid as usize;
        let c: usize = k.class as usize;
        proof {
            self.mem.lemma_view();
        }
        let limit: u64 = self.pool.spans_total() + 1;
        let (head, len, dummy) = match k.lane {
            Lane::Span => (
                self.heaps.rows[t].local_spans[c].front(),
                self.heaps.rows[t].local_spans[c].len(),
                self.heaps.rows[t].public_spans[c].head_word().ptr,
            ),
            Lane::Run => (
                self.heaps.rows[t].local_runs[c].front(),
                self.heaps.rows[t].local_runs[c].len(),
                self.heaps.rows[t].public_runs[c].head_word().ptr,
            ),
        };
        let local = match collect_local(&self.mem, head, limit) {
            Some(v) => v,
            None => {
                return None;
            },
        };
        let public = match walk_public_list(&self.mem, dummy, limit) {
            Some(v) => v,
            None => {
                return None;
            },
        };
        if local.len() as u64 != len {
            return None;
        }
        let word: u64 = self.load_word(k);
        let enc = EncodedReq(word);
        let full: bool = !enc.is_empty() && !enc.is_pending();
        if full && !self.mem.has_span(enc.span()) {
            return None;
        }
        push_all(entries, &local, k, Some(k.tid));
        push_all(entries, &public, k, None);
        if full {
            entries.push(entry(word, k, None));
        }
        proof {
            let a = tag(local@, k, Some(k.tid));
            let b = tag(public@, k, None);
            let tail = if completed(word) {
                tag(seq![word], k, None)
            } else {
                Seq::empty()
            };
            assert(entries@ =~= before + (a + b + tail));
        }
        Some((len, public.len() as u64, if full { 1 } else { 0 }))
    }

    /// Check one entry.
    fn check_entry(&self, e: Entry) -> (r: bool)
        requires
            self.shape(),
            self.pool_ok(),
            self.mem@.headers.dom().contains(e.at),
            e.class < 64,
        ensures
            r == entry_checks(self.mem@, e),
    {
        let ok: bool = match e.lane {
            Lane::Span => check_span(&self.mem, e.at, e.owner, e.class),
            Lane::Run => check_run(&self.mem, e.at, e.owner, e.class),
        };
        if !ok {
            return false;
        }
        match e.owner {
            Some(_) => true,
            None => self.mem.header(e.at).owner == OWNER_PUBLIC,
        }
    }

    /// The entries of a key are spans of the region, of a class of the key.
    proof fn lemma_entries(self, k: Key)
        requires
            self.valid(k),
            self.shape(),
            self.entries_of(k) is Some,
        ensures
            forall|i: int|
                0 <= i < (self.entries_of(k)->0).len() ==> {
                    let e = #[trigger] self.entries_of(k)->0[i];
                    self.mem@.headers.dom().contains(e.at) && e.class < 17 && e.lane == k.lane
                },
    {
        let a = walk_local(self.mem@.headers, self.local(k).head_addr(), self.walk_limit())->0;
        let b = walk_public(self.mem@, self.public(k).head().ptr, self.walk_limit())->0;
        lemma_walk_local_spans(self.mem@.headers, self.local(k).head_addr(), self.walk_limit());
        lemma_walk_public_spans(self.mem@, self.public(k).head().ptr, self.walk_limit());
        let all = self.entries_of(k)->0;
        assert forall|i: int| 0 <= i < all.len() implies {
            let e = #[trigger] all[i];
            self.mem@.headers.dom().contains(e.at) && e.class < 17 && e.lane == k.lane
        } by {
            if i < a.len() {
                assert(all[i].at == a[i]);
            } else if i < a.len() + b.len() {
                assert(all[i].at == b[i - a.len()]);
            } else {
                assert(all[i].at == self.word(k));
            }
        }
    }

    /// Check all lists, records and huge slots.
    fn check_all(&self) -> (r: Option<(u64, u64, u64)>)
        requires
            self.shape(),
            self.pool_ok(),
        ensures
            r is Some <==> self.quiescent() is Some,
            r matches Some(t) ==> {
                let q = self.quiescent()->0;
                t.0 == q.0 && t.1 == q.1 && t.2 == q.2
            },
    {
        let n: u64 = self.heaps.len();
        let width: u64 = C + MAX_LARGE_RUN_CLASSES;
        proof {
            assert(n * width <= 0x20_0000_0000_0000 * 28) by (nonlinear_arith)
                requires
                    n <= 0x20_0000_0000_0000,
                    width <= 28,
            ;
        }
        let total: u64 = n * width;
        let mut entries: Vec<Entry> = Vec::new();
        let mut local: u64 = 0;
        let mut public: u64 = 0;
        let mut in_help: u64 = 0;
        let mut i: u64 = 0;
        while i < total
            invariant
                self.shape(),
                self.pool_ok(),
                total == self.keys(),
                width == C + MAX_LARGE_RUN_CLASSES,
                i <= total,
                self.inventory(i as int) == Some(entries@),
                local + public + in_help == entries@.len(),
                self.tally(i as int) == (local as nat, public as nat, in_help as nat),
                forall|j: int|
                    0 <= j < entries@.len() ==> self.mem@.headers.dom().contains(
                        (#[trigger] entries@[j]).at,
                    ) && entries@[j].class < 17,
            decreases total - i,
        {
            let j: u64 = i % width;
            let k = Key {
                lane: if j < C { Lane::Span } else { Lane::Run },
                class: if j < C { j } else { j - C },
                tid: i / width,
            };
            let ghost before = entries@;
            proof {
                self.lemma_key_at(i as int);
                assert(k == self.key_at(i as int));
            }
            match self.collect(k, &mut entries) {
                None => {
                    proof {
                        self.lemma_broken(i + 1, self.keys());
                    }
                    return None;
                },
                Some((a, b, c)) => {
                    let bound: usize = entries.len();
                    proof {
                        self.lemma_entries(k);
                        let more = self.entries_of(k)->0;
                        assert forall|j: int| 0 <= j < entries@.len() implies self.mem@.headers.dom().contains(
                            (#[trigger] entries@[j]).at,
                        ) && entries@[j].class < 17 by {
                            if j >= before.len() {
                                assert(entries@[j] == more[j - before.len()]);
                            }
                        }
                        assert(entries@.len() == bound);
                    }
                    local = local + a;
                    public = public + b;
                    in_help = in_help + c;
                },
            }
            i = i + 1;
        }
        let mut claims: Vec<(u64, u64)> = Vec::new();
        let count: usize = entries.len();
        let mut j: usize = 0;
        while j < count
            invariant
                self.shape(),
                self.pool_ok(),
                count == entries@.len(),
                j <= count,
                self.inventory(self.keys()) == Some(entries@),
                forall|x: int|
                    0 <= x < entries@.len() ==> self.mem@.headers.dom().contains(
                        (#[trigger] entries@[x]).at,
                    ) && entries@[x].class < 17,
                forall|x: int| 0 <= x < j ==> entry_checks(self.mem@, #[trigger] entries@[x]),
                claims@ == Seq::new(j as nat, |x: int| self.claim_of(entries@[x])),
                forall|x: int|
                    0 <= x < claims@.len() ==> (#[trigger] claims@[x]).0 + claims@[x].1 <= u64::MAX,
            decreases count - j,
        {
            let e = entries[j];
            if !self.check_entry(e) {
                return None;
            }
            proof {
                self.mem.lemma_view();
                vstd::arithmetic::power2::lemma2_to64();
                if e.class < 16 {
                    vstd::arithmetic::power2::lemma_pow2_strictly_increases(e.class as nat, 16);
                }
            }
            let spans: u64 = match e.lane {
                Lane::Span => 1,
                Lane::Run => run_class_spans(e.class),
            };
            claims.push(((e.at - self.pool.base_addr()) / SPAN_SIZE, spans));
            proof {
                assert(claims@ =~= Seq::new((j + 1) as nat, |x: int| self.claim_of(entries@[x])));
            }
            j = j + 1;
        }
        let ghost listed = claims@;
        proof {
            assert(listed + self.huge_claims(0) =~= listed);
        }
        let mut s: u64 = 0;
        while s < 12
            invariant
                self.shape(),
                self.pool_ok(),
                s <= 12,
                self.inventory(self.keys()) == Some(entries@),
                forall|x: int| 0 <= x < s ==> #[trigger] self.slot_checks(x),
                claims@ == listed + self.huge_claims(s as int),
                forall|x: int|
                    0 <= x < claims@.len() ==> (#[trigger] claims@[x]).0 + claims@[x].1 <= u64::MAX,
            decreases 12 - s,
        {
            let slot = self.huge.slots[(s / 4) as usize][(s % 4) as usize];
            proof {
                assert(slot == self.slot(s as int / 4, s as int % 4));
                vstd::arithmetic::power2::lemma2_to64();
                if s / 4 < 2 {
                    vstd::arithmetic::power2::lemma_pow2_strictly_increases((s / 4) as nat, 2);
                }
                assert(pow2((s / 4) as nat) * HG <= 4 * HG) by (nonlinear_arith)
                    requires
                        pow2((s / 4) as nat) <= 4,
                ;
            }
            if slot.state == HUGE_SLOT_EMPTY {
                if slot.base != 0 {
                    assert(!self.slot_checks(s as int));
                    return None;
                }
            } else {
                if !(slot.state == HUGE_SLOT_FREE || slot.state == HUGE_SLOT_ALLOCATED)
                    || slot.base == 0 {
                    assert(!self.slot_checks(s as int));
                    return None;
                }
                if slot.base >= self.pool.base_addr() {
                    let ghost before = claims@;
                    let first_span: u64 = (slot.base - self.pool.base_addr()) / SPAN_SIZE;
                    let spans: u64 = huge_class_granules(s / 4) * HG;
                    claims.push((first_span, spans));
                    proof {
                        assert(claims@ =~= listed + self.huge_claims(s as int).push(
                            (first_span, spans),
                        ));
                    }
                }
            }
            s = s + 1;
        }
        proof {
            assert(claims@ == self.occupied(entries@));
        }
        if !check_apart(&claims) {
            return None;
        }
        Some((local, public, in_help))
    }

    /// A broken list makes the whole inventory broken.
    proof fn lemma_broken(self, i: int, j: int)
        requires
            i <= j,
            self.inventory(i) is None,
        ensures
            self.inventory(j) is None,
        decreases j - i,
    {
        if i < j {
            self.lemma_broken(i, j - 1);
        }
    }
}

/// A walk of a private list stays in the region.
proof fn lemma_walk_local_spans(headers: Map<u64, SpanHeader>, cur: u64, fuel: nat)
    ensures
        walk_local(headers, cur, fuel) matches Some(w) ==> forall|i: int|
            0 <= i < w.len() ==> headers.dom().contains(#[trigger] w[i]),
    decreases fuel,
{
    if cur != 0 && fuel > 0 && headers.dom().contains(cur) {
        let next = headers[cur].local.next_local;
        lemma_walk_local_spans(headers, next, (fuel - 1) as nat);
        if let Some(rest) = walk_local(headers, next, (fuel - 1) as nat) {
            let w = cons(cur, rest);
            assert forall|i: int| 0 <= i < w.len() implies headers.dom().contains(
                #[trigger] w[i],
            ) by {
                if i > 0 {
                    assert(w[i] == rest[i - 1]);
                }
            }
        }
    }
}

/// A walk of a public list stays in the region.
proof fn lemma_walk_public_spans(mem: MemView, node: u64, fuel: nat)
    ensures
        walk_public(mem, node, fuel) matches Some(w) ==> forall|i: int|
            0 <= i < w.len() ==> mem.headers.dom().contains(#[trigger] w[i]),
    decreases fuel,
{
    if mem.nodes.dom().contains(node) {
        let next = mem.nodes[node].next;
        if next != 0 && fuel > 0 && mem.nodes.dom().contains(next) && mem.headers.dom().contains(
            mem.nodes[next].span,
        ) {
            lemma_walk_public_spans(mem, next, (fuel - 1) as nat);
            if let Some(rest) = walk_public(mem, next, (fuel - 1) as nat) {
                let w = cons(mem.nodes[next].span, rest);
                assert forall|i: int| 0 <= i < w.len() implies mem.headers.dom().contains(
                    #[trigger] w[i],
                ) by {
                    if i > 0 {
                        assert(w[i] == rest[i - 1]);
                    }
                }
            }
        }
    }
}

/// Check the invariants of an allocator that no thread is using. Returns the
/// number of spans and runs in private lists, public lists and help records,
/// or `None` where an invariant is violated. Discarded spans are in no list
/// and are not counted; neither are live runs and huge slots.
pub fn check_quiescent<const C: u64, const HG: u64>(alloc: &WfSpanAllocator<C, HG>) -> (r: Option<
    (u64, u64, u64),
>)
    requires
        alloc.shape(),
        alloc.pool_ok(),
    ensures
        r is Some <==> alloc.quiescent() is Some,
        r matches Some(t) ==> {
            let q = alloc.quiescent()->0;
            t.0 == q.0 && t.1 == q.1 && t.2 == q.2
        },
{
    alloc.check_all()
}

/// A walk of a free list follows its links.
proof fn lemma_walk_chained(links: Map<u64, u64>, s: u64, cur: u64, fuel: nat)
    requires
        walk_free(links, s, cur, fuel) is Some,
    ensures
        chained(links, walk_free(links, s, cur, fuel)->0, s, cur),
    decreases fuel,
{
    if cur != 0 {
        lemma_walk_chained(links, s, links[cur], (fuel - 1) as nat);
        let rest = walk_free(links, s, links[cur], (fuel - 1) as nat)->0;
        let w = cons(cur, rest);
        assert forall|i: int| 0 <= i < w.len() implies s < #[trigger] w[i] < s + 65536
            && links[w[i]] == (if i + 1 < w.len() {
            w[i + 1]
        } else {
            0
        }) by {
            if i > 0 {
                assert(w[i] == rest[i - 1]);
            }
        }
    }
}

/// The walk of a sound private list.
proof fn lemma_walk_local(headers: Map<u64, SpanHeader>, items: Seq<u64>, fuel: nat)
    requires
        spans_linked(headers, items),
        items.len() <= fuel,
    ensures
        walk_local(headers, first(items), fuel) == Some(items),
    decreases fuel,
{
    if items.len() > 0 {
        let rest = items.drop_first();
        assert(items[0] != 0);
        assert(headers[items[0]].local.next_local == succ(items, 0));
        assert(spans_linked(headers, rest)) by {
            assert forall|i: int, j: int| 0 <= i < rest.len() && 0 <= j < rest.len() && i
                != j implies rest[i] != rest[j] by {
                assert(items[i + 1] != items[j + 1]);
            }
            assert forall|i: int| 0 <= i < rest.len() implies #[trigger] rest[i] != 0
                && headers.dom().contains(rest[i]) by {
                assert(items[i + 1] != 0);
            }
            assert forall|i: int| 0 <= i < rest.len() implies (#[trigger] headers[rest[i]]).local.next_local
                == succ(rest, i) by {
                assert(headers[items[i + 1]].local.next_local == succ(items, i + 1));
            }
        }
        lemma_walk_local(headers, rest, (fuel - 1) as nat);
        assert(first(rest) == succ(items, 0));
        assert(cons(items[0], rest) =~= items);
    } else {
        assert(items =~= Seq::<u64>::empty());
    }
}

/// The walk of a sound public list from its node `d` on.
proof fn lemma_walk_public(mem: MemView, l: SpmcSpanList, d: int, fuel: nat)
    requires
        l.wf(mem),
        0 <= d < l.chain().len(),
        l.seq().len() - d <= fuel,
    ensures
        walk_public(mem, l.chain()[d], fuel) == Some(l.seq().skip(d)),
    decreases fuel,
{
    let c = l.chain();
    assert(c[d] != 0);
    assert(mem.nodes[c[d]].next == succ(c, d));
    if d + 1 < c.len() {
        assert(c[d + 1] != 0);
        assert(l.seq()[d] != 0);
        lemma_walk_public(mem, l, d + 1, (fuel - 1) as nat);
        assert(cons(l.seq()[d], l.seq().skip(d + 1)) =~= l.seq().skip(d));
    } else {
        assert(l.seq().skip(d) =~= Seq::<u64>::empty());
    }
}

/// The walk of a sound local free list whose blocks lie in the span.
proof fn lemma_walk_free(links: Map<u64, u64>, s: u64, items: Seq<u64>, fuel: nat)
    requires
        blocks(links, items),
        linked(links, items),
        items.len() <= fuel,
        forall|i: int| 0 <= i < items.len() ==> s < #[trigger] items[i] < s + SPAN_SIZE,
    ensures
        walk_free(links, s, first(items), fuel) == Some(items),
    decreases fuel,
{
    if items.len() > 0 {
        let rest = items.drop_first();
        assert(items[0] != 0);
        assert(links[items[0]] == succ(items, 0));
        lemma_drop_first(links, items);
        assert forall|i: int| 0 <= i < rest.len() implies s < #[trigger] rest[i] < s + SPAN_SIZE by {
            assert(rest[i] == items[i + 1]);
        }
        lemma_walk_free(links, s, rest, (fuel - 1) as nat);
        assert(cons(items[0], rest) =~= items);
    } else {
        assert(items =~= Seq::<u64>::empty());
    }
}

impl<const C: u64, const HG: u64> WfSpanAllocator<C, HG> {
    /// An entry is a span or run in a list or record of the key `k`.
    spec fn entry_at(self, e: Entry, k: Key) -> bool {
        &&& self.place().dom().contains(e.at)
        &&& e.lane == k.lane
        &&& e.class == k.class
        &&& match e.owner {
            Some(t) => t == k.tid && self.place()[e.at] == Place::Local(k),
            None => self.place()[e.at] == Place::Public(k) || self.place()[e.at] == Place::Record(
                k,
            ),
        }
    }

    /// In a sound state the lists and the record of a key are whole, and
    /// nothing is in them twice.
    proof fn lemma_entries_sound(self, k: Key)
        requires
            self.wf(),
            self.valid(k),
        ensures
            self.entries_of(k) is Some,
            ({
                let es = self.entries_of(k)->0;
                &&& forall|i: int| 0 <= i < es.len() ==> self.entry_at(#[trigger] es[i], k)
                &&& forall|i: int, j: int|
                    0 <= i < j < es.len() ==> (#[trigger] es[i]).at != (#[trigger] es[j]).at
            }),
            self.local(k).count() == self.local(k).seq().len(),
            walk_public(self.mem@, self.public(k).head().ptr, self.walk_limit()) == Some(
                self.public(k).seq(),
            ),
    {
        broadcast use LocalSpanList::lemma_of, SpmcSpanList::lemma_of;

        reveal(WfSpanAllocator::order_ok);
        assert(self.local_ok(k) && self.public_ok(k) && self.record_ok(k));
        let l = self.local(k).seq();
        let p = self.public(k);
        self.lemma_local_len(k);
        lemma_walk_local(self.mem@.headers, l, self.walk_limit());
        self.mem.lemma_view();
        crate::moves::lemma_span_pigeonhole(self.mem@, p.seq());
        assert(p.head().ptr == p.chain()[0]);
        lemma_walk_public(self.mem@, p, 0, self.walk_limit());
        assert(p.seq().skip(0) =~= p.seq());
        let word = self.word(k);
        if completed(word) {
            assert(self.at(word, Place::Record(k)));
            assert(self.place_ok(word));
        }
        let es = self.entries_of(k)->0;
        assert forall|i: int| 0 <= i < es.len() implies self.entry_at(#[trigger] es[i], k) by {
            if i < l.len() {
                assert(es[i].at == l[i]);
                assert(self.at(l[i], Place::Local(k)));
            } else if i < l.len() + p.seq().len() {
                assert(es[i].at == p.seq()[i - l.len()]);
                assert(self.at(p.seq()[i - l.len()], Place::Public(k)));
            } else {
                assert(es[i].at == word);
            }
        }
        assert forall|i: int, j: int| 0 <= i < j < es.len() implies (#[trigger] es[i]).at != (
        #[trigger] es[j]).at by {
            assert(self.entry_at(es[i], k));
            assert(self.entry_at(es[j], k));
            if j < l.len() {
                assert(es[i].at == l[i] && es[j].at == l[j]);
                assert(l[i] != l[j]);
            } else if i >= l.len() && j < l.len() + p.seq().len() {
                let x = i - l.len();
                let y = j - l.len();
                assert(es[i].at == p.seq()[x] && es[j].at == p.seq()[y]);
                assert(p.seq()[x] != p.seq()[y]);
            } else if i >= l.len() {
                assert(es[i].at == p.seq()[i - l.len()]);
                assert(self.at(p.seq()[i - l.len()], Place::Public(k)));
                assert(es[j].at == word);
            } else if j < l.len() + p.seq().len() {
                assert(es[i].at == l[i]);
                assert(self.at(l[i], Place::Local(k)));
                assert(es[j].at == p.seq()[j - l.len()]);
                assert(self.at(p.seq()[j - l.len()], Place::Public(k)));
            } else {
                assert(es[i].at == l[i]);
                assert(self.at(l[i], Place::Local(k)));
                assert(es[j].at == word);
            }
        }
    }

    /// In a sound state nothing is in two lists or records.
    proof fn lemma_inventory_sound(self, i: int)
        requires
            self.wf(),
            0 <= i <= self.keys(),
        ensures
            self.inventory(i) is Some,
            ({
                let es = self.inventory(i)->0;
                &&& forall|x: int|
                    #![trigger es[x]]
                    0 <= x < es.len() ==> exists|j: int|
                        0 <= j < i && self.entry_at(es[x], #[trigger] self.key_at(j))
                &&& forall|x: int, y: int|
                    0 <= x < y < es.len() ==> (#[trigger] es[x]).at != (#[trigger] es[y]).at
            }),
        decreases i,
    {
        if i > 0 {
            let k = self.key_at(i - 1);
            self.lemma_inventory_sound(i - 1);
            self.lemma_key_at(i - 1);
            self.lemma_entries_sound(k);
            let a = self.inventory(i - 1)->0;
            let b = self.entries_of(k)->0;
            let es = a + b;
            assert forall|x: int|
                #![trigger es[x]]
                0 <= x < es.len() implies exists|j: int|
                0 <= j < i && self.entry_at(es[x], #[trigger] self.key_at(j)) by {
                if x < a.len() {
                    assert(es[x] == a[x]);
                    let j = choose|j: int|
                        0 <= j < i - 1 && self.entry_at(a[x], #[trigger] self.key_at(j));
                    assert(self.entry_at(es[x], self.key_at(j)));
                } else {
                    assert(es[x] == b[x - a.len()]);
                    assert(self.entry_at(es[x], self.key_at(i - 1)));
                }
            }
            assert forall|x: int, y: int| 0 <= x < y < es.len() implies (#[trigger] es[x]).at != (
            #[trigger] es[y]).at by {
                if y < a.len() {
                    assert(es[x] == a[x] && es[y] == a[y]);
                } else if x >= a.len() {
                    assert(es[x] == b[x - a.len()] && es[y] == b[y - a.len()]);
                } else {
                    assert(es[x] == a[x] && es[y] == b[y - a.len()]);
                    let j = choose|j: int|
                        0 <= j < i - 1 && self.entry_at(a[x], #[trigger] self.key_at(j));
                    assert(self.key_at(j) != k);
                    assert(self.entry_at(b[y - a.len()], k));
                }
            }
        }
    }

    /// In a sound state every entry passes its checks and takes up its unit.
    proof fn lemma_entry_sound(self, e: Entry, k: Key)
        requires
            self.wf(),
            self.valid(k),
            self.entry_at(e, k),
        ensures
            entry_checks(self.mem@, e),
            self.units().dom().contains(e.at),
            self.units()[e.at].spans == entry_spans(e),
            self.mem@.is_span(e.at),
    {
        reveal(WfSpanAllocator::order_ok);
        reveal(WfSpanAllocator::assets_ok);
        broadcast use LocalFreeList::lemma_of, RemoteMpscFreeList::lemma_of;

        let s = e.at;
        assert(self.place_ok(s));
        assert(self.unit_sound(s));
        self.mem.lemma_view();
        match e.lane {
            Lane::Span => {
                self.lemma_free_room(s);
                let h = self.header(s);
                let l = h.local.free.seq();
                assert forall|i: int| 0 <= i < l.len() implies s < #[trigger] l[i] < s
                    + SPAN_SIZE by {
                    assert(h.free_blocks()[i] == l[i]);
                    lemma_block(&self.mem, s, h.block_size, l[i]);
                }
                lemma_walk_free(self.mem@.links, s, l, h.block_count as nat);
            },
            Lane::Run => {},
        }
    }

    /// What an entry or a huge slot takes up, by address.
    proof fn lemma_units_apart(self, u: u64, v: u64)
        requires
            self.wf(),
            self.units().dom().contains(u),
            self.units().dom().contains(v),
            u != v,
        ensures
            ({
                let b = self.pool.base;
                let x = ((u - b) / (SPAN_SIZE as int)) as u64;
                let y = ((v - b) / (SPAN_SIZE as int)) as u64;
                &&& x + self.units()[u].spans <= y || y + self.units()[v].spans <= x
                &&& self.units()[u].spans <= u64::MAX
            }),
    {
        reveal(WfSpanAllocator::assets_ok);
        self.mem.lemma_view();
        let b = self.pool.base as int;
        let p = self.units()[u].spans as int;
        let q = self.units()[v].spans as int;
        let x = (u - b) / (SPAN_SIZE as int);
        let y = (v - b) / (SPAN_SIZE as int);
        assert(self.mem@.is_span(u) && self.mem@.is_span(v));
        assert(u == b + x * SPAN_SIZE);
        assert(v == b + y * SPAN_SIZE);
        if u < v {
            assert(x + p <= y) by (nonlinear_arith)
                requires
                    b + x * SPAN_SIZE + p * SPAN_SIZE <= b + y * SPAN_SIZE,
            ;
        } else {
            assert(y + q <= x) by (nonlinear_arith)
                requires
                    b + y * SPAN_SIZE + q * SPAN_SIZE <= b + x * SPAN_SIZE,
            ;
        }
        self.lemma_unit_count(u);
    }

    /// A carved piece has no more spans than the pool.
    proof fn lemma_unit_count(self, u: u64)
        requires
            self.wf(),
            self.units().dom().contains(u),
        ensures
            self.units()[u].spans <= self.pool.count,
    {
        reveal(WfSpanAllocator::assets_ok);
        let p = self.units()[u].spans as int;
        let used = self.pool.used() as int;
        assert(self.mem@.is_span(u));
        assert(p <= used) by (nonlinear_arith)
            requires
                p * SPAN_SIZE <= used * SPAN_SIZE,
        ;
    }

    /// In a sound state the huge slots pass their checks, and the first `i`
    /// of them take up distinct units.
    proof fn lemma_huge_claims(self, i: int)
        requires
            self.wf(),
            0 <= i <= 12,
        ensures
            forall|j: int| 0 <= j < i ==> #[trigger] self.slot_checks(j),
            forall|x: int|
                0 <= x < self.huge_claims(i).len() ==> self.slot_claimed(
                    #[trigger] self.huge_claims(i)[x],
                    i,
                ),
            all_apart(self.huge_claims(i)),
        decreases i,
    {
        if i > 0 {
            self.lemma_huge_claims(i - 1);
            let c = (i - 1) / 4;
            let k = (i - 1) % 4;
            reveal(WfSpanAllocator::assets_ok);
            assert(self.slot_ok(c, k));
            let x = self.slot(c, k);
            let before = self.huge_claims(i - 1);
            let now = self.huge_claims(i);
            assert(self.slot_checks(i - 1));
            if x.base != 0 {
                self.lemma_huge_unit(c, x.base);
                self.lemma_unit_count(x.base);
                assert(self.claim_of_slot(now[before.len() as int], i - 1));
            }
            assert forall|y: int| 0 <= y < now.len() implies self.slot_claimed(
                #[trigger] now[y],
                i,
            ) by {
                if y < before.len() {
                    assert(self.slot_claimed(before[y], i - 1));
                    let j = choose|j: int|
                        0 <= j < i - 1 && #[trigger] self.claim_of_slot(before[y], j);
                    assert(now[y] == before[y]);
                    assert(self.claim_of_slot(now[y], j));
                } else {
                    assert(self.claim_of_slot(now[y], i - 1));
                }
            }
            assert forall|y: int, z: int| 0 <= y < z < now.len() implies apart_ranges(
                #[trigger] now[y],
                #[trigger] now[z],
            ) by {
                if z < before.len() {
                    assert(apart_ranges(before[y], before[z]));
                } else {
                    assert(self.slot_claimed(before[y], i - 1));
                    let j = choose|j: int|
                        0 <= j < i - 1 && #[trigger] self.claim_of_slot(before[y], j);
                    let w = self.slot(j / 4, j % 4);
                    assert(self.slot_ok(j / 4, j % 4));
                    assert(self.slots_distinct());
                    assert(w.base != x.base);
                    self.lemma_units_apart(w.base, x.base);
                }
            }
        } else {
            assert(self.huge_claims(i) =~= Seq::<(u64, u64)>::empty());
        }
    }

    /// A claim is that of the unit of the huge slot at flat index `j`.
    spec fn claim_of_slot(self, claim: (u64, u64), j: int) -> bool {
        let x = self.slot(j / 4, j % 4);
        &&& x.base != 0
        &&& self.units().dom().contains(x.base)
        &&& self.units()[x.base].kind is Huge
        &&& claim.0 == ((x.base - self.pool.base) / (SPAN_SIZE as int)) as u64
        &&& claim.1 == self.units()[x.base].spans
    }

    /// A claim is that of the unit of one of the first `i` huge slots.
    spec fn slot_claimed(self, claim: (u64, u64), i: int) -> bool {
        exists|j: int| 0 <= j < i && #[trigger] self.claim_of_slot(claim, j)
    }

    /// A sound state passes the checks of a quiescent allocator.
    pub proof fn law_sound_state_is_quiescent(self)
        requires
            self.wf(),
        ensures
            self.quiescent() == Some(self.tally(self.keys())),
    {
        let n = self.keys();
        self.lemma_inventory_sound(n);
        self.lemma_huge_claims(12);
        let es = self.inventory(n)->0;
        let listed = Seq::new(es.len(), |i: int| self.claim_of(es[i]));
        let all = self.occupied(es);
        assert forall|i: int| 0 <= i < es.len() implies {
            &&& entry_checks(self.mem@, #[trigger] es[i])
            &&& self.units().dom().contains(es[i].at)
            &&& self.units()[es[i].at].spans == entry_spans(es[i])
            &&& !(self.units()[es[i].at].kind is Huge)
        } by {
            let j = choose|j: int| 0 <= j < n && self.entry_at(es[i], #[trigger] self.key_at(j));
            self.lemma_key_at(j);
            self.lemma_entry_sound(es[i], self.key_at(j));
            reveal(WfSpanAllocator::assets_ok);
        }
        assert forall|x: int, y: int| 0 <= x < y < all.len() implies apart_ranges(
            #[trigger] all[x],
            #[trigger] all[y],
        ) by {
            if y < es.len() {
                assert(all[x] == self.claim_of(es[x]) && all[y] == self.claim_of(es[y]));
                assert(es[x].at != es[y].at);
                self.lemma_units_apart(es[x].at, es[y].at);
                self.lemma_unit_count(es[y].at);
            } else if x >= es.len() {
                let h = self.huge_claims(12);
                assert(all[x] == h[x - es.len()] && all[y] == h[y - es.len()]);
            } else {
                let h = self.huge_claims(12);
                assert(all[x] == self.claim_of(es[x]) && all[y] == h[y - es.len()]);
                assert(self.slot_claimed(h[y - es.len()], 12));
                let j = choose|j: int|
                    0 <= j < 12 && #[trigger] self.claim_of_slot(h[y - es.len()], j);
                assert(entry_checks(self.mem@, es[x]));
                self.lemma_units_apart(es[x].at, self.slot(j / 4, j % 4).base);
            }
        }
    }

    /// The lists and the record of every thread and class are checked: each has
    /// a place in the order of the check, and what is in them is part of what is
    /// compared.
    pub proof fn law_every_list_is_checked(self, k: Key, e: Entry)
        requires
            self.valid(k),
            self.quiescent() is Some,
        ensures
            self.entries_of(k) is Some,
            self.entries_of(k)->0.contains(e) ==> self.inventory(self.keys())->0.contains(e),
    {
        let x = self.lemma_key_position(k);
        self.lemma_inventory_part(x, self.keys());
        let es = self.entries_of(k)->0;
        if es.contains(e) {
            let i = choose|i: int| 0 <= i < es.len() && es[i] == e;
            assert(self.inventory(self.keys())->0.contains(es[i]));
        }
    }

    /// The place of a key in the order of the check.
    proof fn lemma_key_position(self, k: Key) -> (x: int)
        requires
            self.valid(k),
        ensures
            0 <= x < self.keys(),
            self.key_at(x) == k,
    {
        let w = C + MAX_LARGE_RUN_CLASSES;
        let j: int = match k.lane {
            Lane::Span => k.class as int,
            Lane::Run => C + k.class,
        };
        let x = k.tid * w + j;
        assert(x / w == k.tid && x % w == j) by (nonlinear_arith)
            requires
                x == k.tid * w + j,
                0 <= j < w,
        ;
        assert(x < self.n() * w) by (nonlinear_arith)
            requires
                x == k.tid * w + j,
                0 <= j < w,
                k.tid + 1 <= self.n(),
        ;
        assert(0 <= k.tid * w) by (nonlinear_arith)
            requires
                w >= 0,
        ;
        x
    }

    /// What a key holds is part of what all hold.
    proof fn lemma_inventory_part(self, x: int, i: int)
        requires
            0 <= x < i,
            self.inventory(i) is Some,
        ensures
            self.entries_of(self.key_at(x)) is Some,
            forall|y: int|
                0 <= y < self.entries_of(self.key_at(x))->0.len() ==> self.inventory(
                    i,
                )->0.contains(#[trigger] self.entries_of(self.key_at(x))->0[y]),
        decreases i,
    {
        let a = self.inventory(i - 1)->0;
        let b = self.entries_of(self.key_at(i - 1))->0;
        let es = self.entries_of(self.key_at(x))->0;
        if x < i - 1 {
            self.lemma_inventory_part(x, i - 1);
        }
        assert forall|y: int| 0 <= y < es.len() implies self.inventory(i)->0.contains(
            #[trigger] es[y],
        ) by {
            if x < i - 1 {
                assert(a.contains(es[y]));
                let z = choose|z: int| 0 <= z < a.len() && a[z] == es[y];
                assert((a + b)[z] == es[y]);
            } else {
                assert((a + b)[a.len() + y] == es[y]);
            }
        }
    }

    /// Entries of runs have a run class.
    proof fn lemma_inventory_classes(self, i: int)
        requires
            0 <= i,
            self.inventory(i) is Some,
        ensures
            forall|x: int|
                0 <= x < self.inventory(i)->0.len() ==> ((#[trigger] self.inventory(
                    i,
                )->0[x]).lane == Lane::Run ==> self.inventory(i)->0[x].class
                    < MAX_LARGE_RUN_CLASSES),
        decreases i,
    {
        if i > 0 {
            let k = self.key_at(i - 1);
            let a = self.inventory(i - 1)->0;
            let b = self.entries_of(k)->0;
            self.lemma_inventory_classes(i - 1);
            let w = C + MAX_LARGE_RUN_CLASSES;
            assert(0 <= (i - 1) % w < w) by (nonlinear_arith)
                requires
                    w >= 1,
            ;
            assert forall|x: int| 0 <= x < (a + b).len() implies ((#[trigger] (a + b)[x]).lane
                == Lane::Run ==> (a + b)[x].class < MAX_LARGE_RUN_CLASSES) by {
                if x < a.len() {
                    assert((a + b)[x] == a[x]);
                } else {
                    assert((a + b)[x] == b[x - a.len()]);
                    assert(b[x - a.len()].lane == k.lane && b[x - a.len()].class == k.class);
                }
            }
        }
    }

    /// What passes the check is filed as its header says: in a list of its own
    /// class; in a private list only if the thread owns it, and elsewhere only
    /// if it is marked public. A span of blocks has no more free blocks than
    /// blocks, and a run has `2^r` spans, no free blocks, and the state of the
    /// list that it is in.
    pub proof fn law_accepted_entry_is_filed_right(self, i: int)
        requires
            self.quiescent() is Some,
            0 <= i < self.inventory(self.keys())->0.len(),
        ensures
            ({
                let e = self.inventory(self.keys())->0[i];
                let h = self.header(e.at);
                &&& h.size_class == e.class
                &&& match e.owner {
                    Some(t) => h.owner == t,
                    None => h.owner == OWNER_PUBLIC,
                }
                &&& e.lane == Lane::Span ==> {
                    &&& 0 <= h.remote.free_count
                    &&& h.local.free_count + h.remote.free_count <= h.block_count
                    &&& exists|w: Seq<u64>|
                        #[trigger] chained(self.mem@.links, w, e.at, h.local.free.head())
                            && w.no_duplicates() && w.len() == h.local.free_count
                }
                &&& e.lane == Lane::Run ==> {
                    &&& h.block_count == pow2(e.class as nat)
                    &&& h.local.free_count == 0 && h.remote.free_count == 0
                    &&& h.state == (if e.owner is Some {
                        SpanState::RunFreeLocal
                    } else {
                        SpanState::RunFreePublic
                    })
                }
            }),
    {
        let es = self.inventory(self.keys())->0;
        let e = es[i];
        let h = self.header(e.at);
        assert(entry_checks(self.mem@, es[i]));
        if e.lane == Lane::Span {
            lemma_walk_chained(self.mem@.links, e.at, h.local.free.head(), h.block_count as nat);
            let w = walk_free(self.mem@.links, e.at, h.local.free.head(), h.block_count as nat)->0;
            assert(chained(self.mem@.links, w, e.at, h.local.free.head()));
        }
    }

    /// In a sound state what is checked of a thread and class is what its
    /// private list, its public list and its record hold.
    pub proof fn law_listed_spans_are_checked(self, k: Key, s: u64)
        requires
            self.wf(),
            self.valid(k),
        ensures
            ({
                let es = self.entries_of(k)->0;
                let entry = |owner: Option<u64>| Entry { at: s, lane: k.lane, class: k.class, owner };
                &&& self.entries_of(k) is Some
                &&& es.contains(entry(Some(k.tid))) <==> self.local(k).seq().contains(s)
                &&& es.contains(entry(None)) <==> self.public(k).seq().contains(s) || self.word(k)
                    == s && s != 0 && s % 2 == 0
            }),
    {
        broadcast use LocalSpanList::lemma_of, SpmcSpanList::lemma_of;

        self.lemma_entries_sound(k);
        reveal(WfSpanAllocator::order_ok);
        assert(self.local_ok(k));
        let l = self.local(k).seq();
        let p = self.public(k).seq();
        let word = self.word(k);
        self.lemma_local_len(k);
        lemma_walk_local(self.mem@.headers, l, self.walk_limit());
        let es = self.entries_of(k)->0;
        let own = Entry { at: s, lane: k.lane, class: k.class, owner: Some(k.tid) };
        let open = Entry { at: s, lane: k.lane, class: k.class, owner: None };
        if l.contains(s) {
            let i = choose|i: int| 0 <= i < l.len() && l[i] == s;
            assert(es[i] == own);
        }
        if p.contains(s) {
            let i = choose|i: int| 0 <= i < p.len() && p[i] == s;
            assert(es[l.len() + i] == open);
        }
        if word == s && s != 0 && s % 2 == 0 {
            assert(es[(l.len() + p.len()) as int] == open);
        }
        if es.contains(own) {
            let i = choose|i: int| 0 <= i < es.len() && es[i] == own;
            assert(i < l.len());
            assert(l[i] == s);
        }
        if es.contains(open) {
            let i = choose|i: int| 0 <= i < es.len() && es[i] == open;
            assert(i >= l.len());
            if i < l.len() + p.len() {
                assert(p[i - l.len()] == s);
            }
        }
    }

    /// Nothing that passes the check is filed twice, and no two pieces share a
    /// span: spans take up one, runs of class `r` take up `2^r`.
    pub proof fn law_accepted_entries_do_not_overlap(self, i: int, j: int)
        requires
            1 <= C,
            self.quiescent() is Some,
            0 <= i < j < self.inventory(self.keys())->0.len(),
        ensures
            ({
                let es = self.inventory(self.keys())->0;
                let a = (es[i].at - self.pool.base) / 65536;
                let b = (es[j].at - self.pool.base) / 65536;
                let m: int = if es[i].lane == Lane::Run { pow2(es[i].class as nat) as int } else { 1 };
                let n: int = if es[j].lane == Lane::Run { pow2(es[j].class as nat) as int } else { 1 };
                &&& es[i].at != es[j].at
                &&& es[i].at >= self.pool.base && es[j].at >= self.pool.base ==> a + m <= b || b + n
                    <= a
            }),
    {
        let es = self.inventory(self.keys())->0;
        let all = self.occupied(es);
        assert(all[i] == self.claim_of(es[i]));
        assert(all[j] == self.claim_of(es[j]));
        assert(apart_ranges(all[i], all[j]));
        assert(0 <= self.keys()) by (nonlinear_arith)
            requires
                self.keys() == self.n() * (C + MAX_LARGE_RUN_CLASSES),
                self.n() >= 0,
        ;
        self.lemma_inventory_classes(self.keys());
        assert forall|c: nat| c < 17 implies 1 <= #[trigger] pow2(c) <= 65536 by {
            vstd::arithmetic::power2::lemma2_to64();
            vstd::arithmetic::power2::lemma_pow2_pos(c);
            if c < 16 {
                vstd::arithmetic::power2::lemma_pow2_strictly_increases(c, 16);
            }
        }
    }

    /// A huge slot passes the check exactly if it has memory unless it is empty,
    /// and its memory, `2^c` granules of `HG` spans, shares no span with what is
    /// in lists and records.
    pub proof fn law_accepted_huge_slots_do_not_overlap(self, i: int, j: int)
        requires
            self.quiescent() is Some,
            0 <= i < 12,
            0 <= j < self.inventory(self.keys())->0.len(),
            1 <= C,
            1 <= HG,
            HG * 4 <= u64::MAX,
        ensures
            ({
                let x = self.slot(i / 4, i % 4);
                let e = self.inventory(self.keys())->0[j];
                let a = (x.base - self.pool.base) / 65536;
                let b = (e.at - self.pool.base) / 65536;
                let m = pow2((i / 4) as nat) * HG;
                let n: int = if e.lane == Lane::Run { pow2(e.class as nat) as int } else { 1 };
                &&& x.state == HUGE_SLOT_EMPTY <==> x.base == 0
                &&& x.state == HUGE_SLOT_EMPTY || x.state == HUGE_SLOT_FREE || x.state
                    == HUGE_SLOT_ALLOCATED
                &&& x.base != 0 && x.base >= self.pool.base && e.at >= self.pool.base ==> a + m <= b
                    || b + n <= a
            }),
    {
        let es = self.inventory(self.keys())->0;
        let all = self.occupied(es);
        let x = self.slot(i / 4, i % 4);
        assert(self.slot_checks(i));
        assert(0 <= self.keys()) by (nonlinear_arith)
            requires
                self.keys() == self.n() * (C + MAX_LARGE_RUN_CLASSES),
                self.n() >= 0,
        ;
        self.lemma_inventory_classes(self.keys());
        assert forall|c: nat| c < 17 implies 1 <= #[trigger] pow2(c) <= 65536 by {
            vstd::arithmetic::power2::lemma2_to64();
            vstd::arithmetic::power2::lemma_pow2_pos(c);
            if c < 16 {
                vstd::arithmetic::power2::lemma_pow2_strictly_increases(c, 16);
            }
        }
        if x.base != 0 && x.base >= self.pool.base {
            let y = self.lemma_claim_found(i, 12);
            assert(all[j] == self.claim_of(es[j]));
            assert(all[es.len() + y] == self.huge_claims(12)[y]);
            assert(apart_ranges(all[j], all[es.len() + y]));
            assert(pow2((i / 4) as nat) <= 4) by {
                vstd::arithmetic::power2::lemma2_to64();
                if i / 4 < 2 {
                    vstd::arithmetic::power2::lemma_pow2_strictly_increases((i / 4) as nat, 2);
                }
            }
            assert(0 <= pow2((i / 4) as nat) * HG <= 4 * HG) by (nonlinear_arith)
                requires
                    0 <= pow2((i / 4) as nat) <= 4,
                    HG >= 0,
            ;
        }
    }

    /// What a huge slot takes up is among what all take up.
    proof fn lemma_claim_found(self, i: int, n: int) -> (y: int)
        requires
            0 <= i < n,
            self.slot(i / 4, i % 4).state != HUGE_SLOT_EMPTY,
            self.slot(i / 4, i % 4).base >= self.pool.base,
        ensures
            0 <= y < self.huge_claims(n).len(),
            self.huge_claims(n)[y] == (
                ((self.slot(i / 4, i % 4).base - self.pool.base) / (SPAN_SIZE as int)) as u64,
                (pow2((i / 4) as nat) * HG) as u64,
            ),
        decreases n,
    {
        if i == n - 1 {
            self.huge_claims(n).len() - 1
        } else {
            self.lemma_claim_found(i, n - 1)
        }
    }

    /// The counts of a sound state are those of the lists and records: each
    /// private list, public list and record of every thread and class is counted
    /// once, with what it holds.
    pub proof fn law_lists_are_counted_once(self, k: Key)
        requires
            self.wf(),
            self.valid(k),
        ensures
            exists|x: int|
                {
                    &&& 0 <= x < self.keys()
                    &&& #[trigger] self.key_at(x) == k
                    &&& self.tally(x + 1).0 == self.tally(x).0 + self.local(k).seq().len()
                    &&& self.tally(x + 1).1 == self.tally(x).1 + self.public(k).seq().len()
                    &&& self.tally(x + 1).2 == self.tally(x).2 + (if self.word(k) != 0
                        && self.word(k) % 2 == 0 {
                        1nat
                    } else {
                        0
                    })
                },
            self.tally(0) == (0nat, 0nat, 0nat),
    {
        let x = self.lemma_key_position(k);
        self.lemma_entries_sound(k);
        assert(self.key_at(x) == k);
    }
}

} // verus!
