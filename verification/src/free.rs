//! Small path: freeing blocks, by the owner of the span or by another thread.

use crate::acquire::loose;
use crate::chain::{cons, first};
use crate::config::{LOCAL_SPAN_LIMIT_K, OWNER_NONE, OWNER_PUBLIC};
use crate::heap::LocalSpanList;
use crate::local_list::LocalFreeList;
use crate::remote_mpsc::RemoteMpscFreeList;
use crate::span::{is_block, lemma_block_pigeonhole, pushed, SpanHeader, SpanState};
use crate::state::{same_core, Key, Lane, Path, Place, WfSpanAllocator};
use crate::stats::{bumped, AllocatorStats, StepCounter};
use vstd::prelude::*;

verus! {

impl<const C: u64, const HG: u64> WfSpanAllocator<C, HG> {
    /// The lists of thread `tid` for the class of a span of blocks.
    pub open spec fn span_key(self, s: u64, tid: u64) -> Key {
        Key { lane: Lane::Span, class: self.header(s).size_class, tid }
    }

    /// Freeing one more block makes the span full.
    pub open spec fn fills(self, s: u64) -> bool {
        self.header(s).free_blocks().len() + 1 == self.header(s).block_count
    }

    /// Freeing one more block on its owner `tid` publishes the span: it
    /// becomes full, and its list holds more than the limit.
    pub open spec fn publishes(self, s: u64, tid: u64) -> bool {
        let k = self.span_key(s, tid);
        &&& self.fills(s)
        &&& self.at(s, Place::Local(k))
        &&& self.local(k).seq().len() > LOCAL_SPAN_LIMIT_K
    }

    /// A remote free of a block of `s` claims the span: it was discarded, and
    /// its count of visible free blocks was 0.
    pub open spec fn claims(self, s: u64) -> bool {
        self.at(s, Place::Discarded) && self.header(s).remote.free_count == 0
    }

    /// Set the state of a span of blocks.
    fn mark(&mut self, s: u64, state: SpanState)
        requires
            old(self).wf(),
            old(self).place().dom().contains(s),
            old(self).units()[s].kind is Small,
        ensures
            final(self).wf(),
            old(self).only_blocks(*final(self), s),
            final(self).header(s) == (SpanHeader { state, ..old(self).header(s) }),
            final(self).live() == old(self).live(),
            final(self).mem@.links == old(self).mem@.links,
            final(self).stats == old(self).stats,
    {
        let ghost pre = *self;
        proof {
            pre.lemma_free_room(s);
        }
        let mut h = self.mem.header(s);
        h.state = state;
        self.mem.set_header(s, h);
        proof {
            let bs = pre.header(s).block_size as int;
            assert forall|b: u64| is_block(s, bs, b) implies #[trigger] self.block_ok(s, b) by {
                assert(pre.block_ok(s, b)) by {
                    reveal(WfSpanAllocator::assets_ok);
                }
            }
            assert forall|b: u64| is_block(s, bs, b) && self.live().dom().contains(b) implies (
            #[trigger] self.live()[b]).valid() && Self::dispatch(self.live()[b]) == Path::Small(
                pre.header(s).size_class,
            ) by {
                pre.lemma_live_block(s, b);
                assert(pre.live_entry(b)) by {
                    reveal(WfSpanAllocator::assets_ok);
                }
            }
            pre.lemma_blocks_step(*self, s);
        }
    }

    /// Free a block by the owner of its span: push it on the local list, and
    /// publish the span if it became full and the heap holds more than
    /// `LOCAL_SPAN_LIMIT_K` spans of its class.
    pub(crate) fn dealloc_local(&mut self, s: u64, b: u64, tid: u64, step: &mut StepCounter)
        requires
            old(self).wf(),
            old(self).place().dom().contains(s),
            old(self).units()[s].kind is Small,
            old(self).header(s).owner == tid,
            tid < old(self).n(),
            old(self).live().dom().contains(b),
            is_block(s, old(self).header(s).block_size as int, b),
            old(step).room(1),
        ensures
            final(self).wf(),
            old(self).keeps(*final(self)),
            old(self).undisturbed(*final(self), tid),
            old(self).freed_local(*final(self), s, b, tid),
            *final(step) == (StepCounter {
                local_steps: (old(step).local_steps + 1) as u64,
                ..*old(step)
            }),
    {
        let ghost pre = *self;
        let ghost k = pre.span_key(s, tid);
        step.local_steps = step.local_steps + 1;
        proof {
            pre.lemma_placed();
            broadcast use LocalFreeList::lemma_of, RemoteMpscFreeList::lemma_of;

            pre.lemma_owned(s, tid);
            pre.lemma_free_room(s);
            assert(pushed(pre.header(s), b).free_blocks() =~= cons(b, pre.header(s).free_blocks()));
        }
        self.give_block_local(s, b);
        let ghost given = *self;
        proof {
            broadcast use LocalFreeList::lemma_of, RemoteMpscFreeList::lemma_of;

            pre.lemma_blocks_effects(given, s, tid);
            pre.lemma_untouched_blocks(pre, given, s);
            given.lemma_free_room(s);
            assert(given.header(s).local.free.seq() == cons(b, pre.header(s).local.free.seq()));
            assert(given.header(s).free_blocks().len() == given.header(s).local.free.seq().len()
                + given.header(s).local.pending@.len() + given.header(s).remote.free.seq().len());
        }
        let h = self.header_of(s);
        let q: i64 = h.local.free_count as i64;
        let g: i64 = h.remote.free_count;
        let m: i64 = h.block_count as i64;
        if q + g == m {
            self.mark(s, SpanState::FullLocal);
            let ghost full = *self;
            proof {
                pre.lemma_untouched_blocks(given, full, s);
                given.lemma_blocks_effects(full, s, tid);
                pre.lemma_undisturbed_twice(given, full, tid);
                pre.lemma_keeps_twice(given, full);
            }
            let key = Key { lane: Lane::Span, class: h.size_class, tid };
            assert(key == k);
            if self.local_len(key) > LOCAL_SPAN_LIMIT_K {
                let taken: bool = self.take_listed(key, s);
                let ghost held = *self;
                if taken {
                    proof {
                        full.lemma_moved_effects(held, s, Place::Held(tid), tid);
                        pre.lemma_untouched_all(full, held);
                        pre.lemma_undisturbed_twice(full, held, tid);
                        pre.lemma_keeps_twice(full, held);
                    }
                    self.stamp(s, OWNER_PUBLIC, SpanState::FullPublic, Ghost(Place::Transit(tid)));
                    let ghost open = *self;
                    proof {
                        held.lemma_moved_effects(open, s, Place::Transit(tid), tid);
                        pre.lemma_untouched_all(held, open);
                        pre.lemma_undisturbed_twice(held, open, tid);
                        pre.lemma_keeps_twice(held, open);
                    }
                    self.publish(key, s, step);
                    let ghost out = *self;
                    proof {
                        open.lemma_moved_effects(out, s, Place::Public(k), tid);
                        pre.lemma_untouched_all(open, out);
                        pre.lemma_undisturbed_twice(open, out, tid);
                        pre.lemma_keeps_twice(open, out);
                    }
                    let mut stats = self.stats;
                    AllocatorStats::bump(&mut stats.published_spans);
                    self.set_stats(stats);
                    proof {
                        out.lemma_stats_effects(*self, tid);
                        pre.lemma_undisturbed_twice(out, *self, tid);
                        pre.lemma_keeps_twice(out, *self);
                        assert(forall|j: Key| #[trigger]
                            pre.valid(j) ==> held.valid(j) && open.valid(j) && full.valid(j));
                        assert(self.place() =~= pre.place().insert(s, Place::Public(k)));
                        full.lemma_placed();
                        held.lemma_placed();
                        open.lemma_placed();
                        out.lemma_placed();
                        assert(full.mem@.headers.dom().contains(s));
                        assert(held.mem@.headers.dom().contains(s));
                        assert(open.mem@.headers.dom().contains(s));
                        assert(same_core(full.header(s), held.header(s)));
                        assert(same_core(held.header(s), open.header(s)));
                        assert(same_core(open.header(s), out.header(s)));
                        broadcast use LocalSpanList::lemma_of, LocalFreeList::lemma_of;

                        assert(self.local(k) == held.local(k));
                        let i = choose|i: int|
                            0 <= i < full.local(k).seq().len() && full.local(k).seq()[i] == s
                                && held.local(k) == LocalSpanList::of(
                                #[trigger] full.local(k).seq().remove(i),
                            );
                        assert(self.local(k).seq() == pre.local(k).seq().remove(i));
                        assert(pre.publishes(s, tid));
                        assert(pre.freed_local(*self, s, b, tid));
                    }
                } else {
                    proof {
                        full.lemma_same_effects(held, tid);
                        pre.lemma_undisturbed_twice(full, held, tid);
                        pre.lemma_keeps_twice(full, held);
                        assert(forall|j: Key| #[trigger] pre.valid(j) ==> full.valid(j));
                    }
                }
            }
        }
    }

    /// Nothing of the blocks of any span but `s` changed.
    pub open spec fn untouched_but(self, post: Self, s: u64) -> bool {
        forall|x: u64| #[trigger]
            self.place().dom().contains(x) && x != s ==> self.untouched(post, x)
    }

    /// What freeing a block by its owner does.
    pub open spec fn freed_local(self, post: Self, s: u64, b: u64, tid: u64) -> bool {
        let k = self.span_key(s, tid);
        &&& post.live() == self.live().remove(b)
        &&& post.pool == self.pool
        &&& post.huge == self.huge
        &&& post.units() == self.units()
        &&& self.untouched_but(post, s)
        &&& post.header(s).local.free.seq() == cons(b, self.header(s).local.free.seq())
        &&& post.mem@.links == self.mem@.links.insert(b, first(self.header(s).local.free.seq()))
        &&& post.header(s).local.pending == self.header(s).local.pending
        &&& post.header(s).remote == self.header(s).remote
        &&& self.other_states_stay(post, s)
        &&& post.header(s).state == (if self.publishes(s, tid) {
            SpanState::FullPublic
        } else if self.fills(s) {
            SpanState::FullLocal
        } else {
            self.header(s).state
        })
        &&& self.same_records(post)
        &&& self.same_cursors(post)
        &&& if self.publishes(s, tid) {
            &&& post.place() == self.place().insert(s, Place::Public(k))
            &&& post.public(k).seq() == self.public(k).seq().push(s)
            &&& self.publics_but(post, k)
            &&& self.locals_but(post, k)
            &&& exists|i: int|
                0 <= i < self.local(k).seq().len() && self.local(k).seq()[i] == s && post.local(
                    k,
                ).seq() == #[trigger] self.local(k).seq().remove(i)
            &&& post.stats == (AllocatorStats {
                published_spans: bumped(self.stats.published_spans),
                ..self.stats
            })
        } else {
            &&& post.place() == self.place()
            &&& self.same_publics(post)
            &&& self.same_locals(post)
            &&& post.stats == self.stats
        }
    }

    /// A span of blocks whose owner is a thread is in that thread's private
    /// list of its class, or held by it.
    pub(crate) proof fn lemma_owned(self, s: u64, tid: u64)
        requires
            self.wf(),
            self.place().dom().contains(s),
            self.units()[s].kind is Small,
            tid < self.n(),
        ensures
            self.header(s).owner == tid <==> self.at(s, Place::Local(self.span_key(s, tid)))
                || self.at(s, Place::Held(tid)),
            self.header(s).owner == OWNER_NONE <==> self.at(s, Place::Discarded),
            self.fits(s, self.span_key(s, tid)),
            self.valid(self.span_key(s, tid)),
    {
        reveal(WfSpanAllocator::order_ok);
        assert(self.place_ok(s));
        self.lemma_free_room(s);
        match self.place()[s] {
            Place::Local(j) => {
                assert(j.lane == Lane::Span);
            },
            _ => {},
        }
    }

    /// Statistics disturb nobody.
    pub(crate) proof fn lemma_stats_effects(self, post: Self, t: u64)
        requires
            self.wf(),
            post == (WfSpanAllocator { stats: post.stats, ..self }),
        ensures
            self.undisturbed(post, t),
            self.keeps(post),
    {
    }

    /// Nothing is disturbed where no list, record, place or header changed.
    pub(crate) proof fn lemma_same_effects(self, post: Self, t: u64)
        requires
            self.wf(),
            post.wf(),
            self.inert(post),
            post.place() == self.place(),
            self.same_records(post),
        ensures
            self.undisturbed(post, t),
            self.keeps(post),
    {
        self.lemma_undisturbed_same(post, t);
        self.lemma_inert_keeps(post);
    }

    /// What freeing a block by another thread does.
    pub open spec fn freed_remote(self, post: Self, s: u64, b: u64, tid: u64) -> bool {
        let k = self.span_key(s, tid);
        &&& post.live() == self.live().remove(b)
        &&& post.pool == self.pool
        &&& post.huge == self.huge
        &&& post.units() == self.units()
        &&& self.untouched_but(post, s)
        &&& post.header(s).local.free == self.header(s).local.free
        &&& post.header(s).local.pending == self.header(s).local.pending
        &&& post.header(s).remote.free.seq() == cons(b, self.header(s).remote.free.seq())
        &&& post.header(s).remote.free_count == self.header(s).remote.free_count + 1
        &&& post.mem@.links == self.mem@.links.insert(b, first(self.header(s).remote.free.seq()))
        &&& self.other_states_stay(post, s)
        &&& post.header(s).state == (if self.claims(s) {
            SpanState::NonEmptyLocal
        } else {
            self.header(s).state
        })
        &&& self.same_records(post)
        &&& self.same_cursors(post)
        &&& self.same_publics(post)
        &&& if self.claims(s) {
            &&& post.place() == self.place().insert(s, Place::Local(k))
            &&& post.local(k).seq() == cons(s, self.local(k).seq())
            &&& self.locals_but(post, k)
            &&& post.stats == (AllocatorStats {
                claimed_spans: bumped(self.stats.claimed_spans),
                ..self.stats
            })
        } else {
            &&& post.place() == self.place()
            &&& self.same_locals(post)
            &&& post.stats == self.stats
        }
    }

    /// The two actions of a remote free, one after the other.
    pub(crate) proof fn lemma_freed_remote(
        self,
        given: Self,
        post: Self,
        s: u64,
        b: u64,
        tid: u64,
    )
        requires
            self.wf(),
            given.wf(),
            post.wf(),
            self.place().dom().contains(s),
            self.units()[s].kind is Small,
            self.header(s).owner != tid,
            tid < self.n(),
            self.live().dom().contains(b),
            is_block(s, self.header(s).block_size as int, b),
            self.remotely_given(given, s, b),
            if self.header(s).remote.free_count == 0 {
                given.span_claimed(post, s, tid, given.at(s, Place::Discarded))
            } else {
                post == given
            },
        ensures
            self.freed_remote(post, s, b, tid),
            self.keeps(post),
            self.undisturbed(post, tid),
    {
        broadcast use LocalSpanList::lemma_of, RemoteMpscFreeList::lemma_of;

        let k = self.span_key(s, tid);
        self.lemma_placed();
        given.lemma_placed();
        self.lemma_owned(s, tid);
        self.lemma_free_room(s);
        self.lemma_blocks_effects(given, s, tid);
        self.lemma_untouched_blocks(self, given, s);
        assert(given.header(s).owner == self.header(s).owner);
        if self.tidy() && loose(self.place()[s]) {
            self.lemma_full_has_no_live(s, b);
        }
        if self.tidy() && !self.claims(s) {
            assert(self.header(s).free_blocks().len() == self.header(s).local.free.seq().len()
                + self.header(s).local.pending@.len() + self.header(s).remote.free.seq().len());
            assert(!(self.place()[s] is Discarded));
        }
        if self.claims(s) {
            assert(forall|j: Key| #[trigger] self.valid(j) ==> given.valid(j));
            assert(given.mem@.headers.dom().contains(s));
            assert(same_core(given.header(s), post.header(s)));
            given.lemma_claimed(post, self, s, k);
            given.lemma_inert_untouched(post);
            self.lemma_untouched_all(given, post);
        }
    }

    /// A remote free that claims no span keeps what is kept forever.
    pub(crate) proof fn lemma_given_effects(self, post: Self, s: u64, b: u64, tid: u64)
        requires
            self.wf(),
            post.wf(),
            self.place().dom().contains(s),
            self.units()[s].kind is Small,
            tid < self.n(),
            self.live().dom().contains(b),
            is_block(s, self.header(s).block_size as int, b),
            self.remotely_given(post, s, b),
        ensures
            self.keeps_pieces(post),
            self.header(s).remote.free_count != 0 ==> self.keeps(post),
            self.undisturbed(post, tid),
    {
        broadcast use RemoteMpscFreeList::lemma_of;

        self.lemma_owned(s, tid);
        self.lemma_free_room(s);
        self.lemma_blocks_effects(post, s, tid);
        if self.tidy() && loose(self.place()[s]) {
            self.lemma_full_has_no_live(s, b);
        }
        if self.tidy() && self.header(s).remote.free_count != 0 {
            assert(self.header(s).free_blocks().len() == self.header(s).local.free.seq().len()
                + self.header(s).local.pending@.len() + self.header(s).remote.free.seq().len());
            assert(!(self.place()[s] is Discarded));
        }
    }

    /// An attempt to claim a span disturbs no other thread and keeps what is
    /// kept forever.
    pub(crate) proof fn lemma_claim_effects(self, post: Self, s: u64, tid: u64, r: bool)
        requires
            self.wf(),
            post.wf(),
            self.place().dom().contains(s),
            self.span_claimed(post, s, tid, r),
        ensures
            self.keeps(post),
            self.undisturbed(post, tid),
            post.live() == self.live(),
    {
        if r {
            self.lemma_inert_cores(post);
            if self.tidy() {
                assert forall|x: u64| #[trigger] post.place().dom().contains(x) implies {
                    &&& post.place()[x] is Discarded ==> post.header(x).free_blocks().len() == 0
                    &&& loose(post.place()[x]) && post.units()[x].kind is Small ==> post.full(x)
                } by {
                    assert(self.place().dom().contains(x));
                }
            }
        } else {
            self.lemma_same_effects(post, tid);
        }
    }

    /// First action of a free by a thread that does not own the span: push the
    /// block on the remote list and make it visible in the count. Returns
    /// whether no block was visible before; then the span may be discarded,
    /// and the thread tries to claim it.
    pub(crate) fn dealloc_remote(&mut self, s: u64, b: u64, step: &mut StepCounter) -> (r: bool)
        requires
            old(self).wf(),
            old(self).place().dom().contains(s),
            old(self).units()[s].kind is Small,
            old(self).live().dom().contains(b),
            is_block(s, old(self).header(s).block_size as int, b),
            old(step).room(1),
        ensures
            final(self).wf(),
            old(self).remotely_given(*final(self), s, b),
            r == (old(self).header(s).remote.free_count == 0),
            *final(step) == (StepCounter {
                remote_steps: (old(step).remote_steps + 1) as u64,
                swap_ops: (old(step).swap_ops + 1) as u64,
                faa_ops: (old(step).faa_ops + 1) as u64,
                ..*old(step)
            }),
    {
        step.remote_steps = step.remote_steps + 1;
        step.swap_ops = step.swap_ops + 1;
        step.faa_ops = step.faa_ops + 1;
        let visible: i64 = self.header_of(s).remote.free_count;
        self.give_block_remote(s, b);
        visible == 0
    }

    /// One attempt of the thread `tid` to claim a discarded span: where it is
    /// discarded, it is the first of the thread's private list now.
    pub open spec fn span_claimed(self, post: Self, s: u64, tid: u64, r: bool) -> bool {
        let k = self.span_key(s, tid);
        &&& r == self.at(s, Place::Discarded)
        &&& !r ==> post == self
        &&& r ==> {
            &&& self.inert(post)
            &&& self.states_but(post, s)
            &&& post.header(s).state == SpanState::NonEmptyLocal
            &&& self.same_cursors(post)
            &&& self.same_publics(post)
            &&& self.same_records(post)
            &&& self.locals_but(post, k)
            &&& post.place() == self.place().insert(s, Place::Local(k))
            &&& post.local(k).seq() == cons(s, self.local(k).seq())
            &&& post.stats == (AllocatorStats {
                claimed_spans: bumped(self.stats.claimed_spans),
                ..self.stats
            })
        }
    }

    /// Second action of a remote free that made a block visible on a span
    /// that had none: claim the span if it is discarded. One attempt.
    pub(crate) fn claim_discarded(&mut self, s: u64, tid: u64, step: &mut StepCounter) -> (r: bool)
        requires
            old(self).wf(),
            old(self).place().dom().contains(s),
            old(self).units()[s].kind is Small,
            tid < old(self).n(),
            old(step).cas_attempts < u64::MAX,
        ensures
            final(self).wf(),
            old(self).span_claimed(*final(self), s, tid, r),
            *final(step) == (StepCounter {
                cas_attempts: (old(step).cas_attempts + 1) as u64,
                ..*old(step)
            }),
    {
        let ghost given = *self;
        let ghost k = given.span_key(s, tid);
        proof {
            given.lemma_owned(s, tid);
        }
        step.cas_attempts = step.cas_attempts + 1;
        if self.header_of(s).owner != OWNER_NONE {
            return false;
        }
        self.stamp(s, tid, SpanState::NonEmptyLocal, Ghost(Place::Held(tid)));
        let ghost held = *self;
        let key = Key { lane: Lane::Span, class: self.header_of(s).size_class, tid };
        assert(key == k);
        self.put_front(key, s);
        let mut stats = self.stats;
        AllocatorStats::bump(&mut stats.claimed_spans);
        self.set_stats(stats);
        proof {
            broadcast use LocalSpanList::lemma_of;

            assert(forall|j: Key| #[trigger] given.valid(j) ==> held.valid(j));
            assert(self.place() =~= given.place().insert(s, Place::Local(k)));
            assert forall|a: u64| #[trigger] given.mem@.headers.dom().contains(a) implies same_core(
                given.header(a),
                self.header(a),
            ) by {
                assert(held.mem@.headers.dom().contains(a));
            }
        }
        true
    }

    /// Moves touch no blocks.
    proof fn lemma_inert_untouched(self, post: Self)
        requires
            self.wf(),
            self.inert(post),
        ensures
            forall|x: u64| #[trigger]
                self.place().dom().contains(x) ==> self.untouched(post, x),
    {
        self.lemma_inert_cores(post);
    }

    /// A full span has no live block.
    pub(crate) proof fn lemma_full_has_no_live(self, s: u64, b: u64)
        requires
            self.wf(),
            self.place().dom().contains(s),
            self.units()[s].kind is Small,
            self.full(s),
            is_block(s, self.header(s).block_size as int, b),
        ensures
            !self.live().dom().contains(b),
    {
        self.lemma_free_room(s);
        let h = self.header(s);
        let all = h.free_blocks();
        assert(self.block_ok(s, b)) by {
            reveal(WfSpanAllocator::assets_ok);
        }
        if !all.contains(b) {
            let more = cons(b, all);
            assert forall|i: int, j: int|
                0 <= i < more.len() && 0 <= j < more.len() && i != j implies more[i] != more[j] by {
                if i > 0 && j > 0 {
                    assert(all[i - 1] != all[j - 1]);
                } else if i > 0 {
                    assert(all.contains(all[i - 1]));
                } else {
                    assert(all.contains(all[j - 1]));
                }
            }
            assert forall|i: int| 0 <= i < more.len() implies is_block(
                s,
                h.block_size as int,
                #[trigger] more[i],
            ) by {
                if i > 0 {
                    assert(is_block(s, h.block_size as int, all[i - 1]));
                }
            }
            self.mem.lemma_view();
            lemma_block_pigeonhole(s, h.block_size, more);
        }
    }

    /// Claiming a discarded span disturbs no other thread, keeps what is kept
    /// forever, and leaves no discarded span with free blocks.
    proof fn lemma_claimed(self, post: Self, pre: Self, s: u64, k: Key)
        requires
            pre.wf(),
            self.wf(),
            post.wf(),
            pre.place().dom().contains(s),
            pre.units()[s].kind is Small,
            pre.only_blocks(self, s),
            pre.undisturbed(self, k.tid),
            pre.keeps_pieces(self),
            self.at(s, Place::Discarded),
            self.inert(post),
            pre.same_records(post),
            post.place() == pre.place().insert(s, Place::Local(k)),
        ensures
            pre.undisturbed(post, k.tid),
            pre.keeps(post),
    {
        reveal(WfSpanAllocator::order_ok);
        assert forall|x: u64| #[trigger] pre.place().dom().contains(x) implies same_core(
            self.header(x),
            post.header(x),
        ) && self.mem@.headers.dom().contains(x) by {
            assert(self.place().dom().contains(x));
            assert(self.place_ok(x));
        }
        assert(pre.keeps_pieces(post)) by {
            assert(post.pool == pre.pool);
            assert forall|x: u64| #[trigger] pre.place().dom().contains(x) implies {
                &&& post.place().dom().contains(x)
                &&& post.header(x).size_class == pre.header(x).size_class
                &&& post.header(x).block_size == pre.header(x).block_size
                &&& post.header(x).block_count == pre.header(x).block_count
            } by {
                assert(self.place().dom().contains(x));
            }
        }
        if pre.tidy() {
            assert forall|x: u64| #[trigger] post.place().dom().contains(x) implies {
                &&& post.place()[x] is Discarded ==> post.header(x).free_blocks().len() == 0
                &&& loose(post.place()[x]) && post.units()[x].kind is Small ==> post.full(x)
            } by {
                if x != s {
                    assert(pre.place().dom().contains(x));
                    assert(self.header(x) == pre.header(x));
                }
            }
        }
    }
}

} // verus!
