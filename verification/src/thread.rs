//! Explicit thread tokens and bounded thread registration.

use vstd::prelude::*;

verus! {

/// Identity of a registered thread.
#[derive(Clone, Copy, Debug, PartialEq, Eq, Structural)]
pub struct ThreadToken {
    pub id: u64,
}

/// Hands out the ids `0, 1, ..., max - 1`, each once.
pub struct ThreadRegistry {
    pub next: u64,
    pub max: u64,
}

impl ThreadRegistry {
    /// Registrations that succeeded so far.
    pub open spec fn count(self) -> u64 {
        if self.next < self.max {
            self.next
        } else {
            self.max
        }
    }

    /// One registration: the next id while there is one below the maximum.
    pub open spec fn registers(
        before: ThreadRegistry,
        after: ThreadRegistry,
        r: Option<ThreadToken>,
    ) -> bool {
        &&& after.max == before.max
        &&& r == (if before.next < before.max {
            Some(ThreadToken { id: before.next })
        } else {
            None
        })
        &&& after.next == (if before.next < u64::MAX {
            (before.next + 1) as u64
        } else {
            u64::MAX
        })
    }

    pub fn new(max: u64) -> (r: Self)
        ensures
            r.max == max,
            r.next == 0,
    {
        ThreadRegistry { next: 0, max }
    }

    /// Register a thread. Fails after `max` registrations.
    pub fn register(&mut self) -> (r: Option<ThreadToken>)
        ensures
            Self::registers(*old(self), *final(self), r),
    {
        let id: u64 = self.next;
        self.next = id.saturating_add(1);
        if id < self.max {
            Some(ThreadToken { id })
        } else {
            None
        }
    }

    /// Number of registered threads.
    pub fn registered(&self) -> (r: u64)
        ensures
            r == self.count(),
    {
        if self.next < self.max {
            self.next
        } else {
            self.max
        }
    }

    /// Build a token from an id that is managed elsewhere, such as a processor
    /// id where one heap is bound per core.
    pub fn token_from_raw(&self, id: u64) -> (r: ThreadToken)
        requires
            id < self.max,
        ensures
            r.id == id,
    {
        ThreadToken { id }
    }
}

/// No id is handed out twice, and every id is below the maximum: a
/// registration that succeeds after another one gets a different id.
pub proof fn law_tokens_are_distinct(
    before: ThreadRegistry,
    after: ThreadRegistry,
    first: ThreadToken,
    later: ThreadRegistry,
    last: ThreadRegistry,
    second: ThreadToken,
)
    requires
        ThreadRegistry::registers(before, after, Some(first)),
        later.max == after.max,
        later.next >= after.next,
        ThreadRegistry::registers(later, last, Some(second)),
    ensures
        first.id != second.id,
        first.id < before.max,
        second.id < before.max,
{
}

/// A registry for `max` threads registers exactly that many: of successive
/// registrations, the one at index `i` gets the id `i` while that is below
/// `max`, and none afterwards.
pub proof fn law_as_many_threads_as_places(
    states: Seq<ThreadRegistry>,
    r: Seq<Option<ThreadToken>>,
    i: int,
)
    requires
        states.len() == r.len() + 1,
        states.len() <= u64::MAX,
        states[0].next == 0,
        forall|j: int|
            0 <= j < r.len() ==> ThreadRegistry::registers(
                #[trigger] states[j],
                states[j + 1],
                r[j],
            ),
        0 <= i <= r.len(),
    ensures
        states[i].max == states[0].max,
        states[i].count() == (if i < states[0].max { i } else { states[0].max as int }),
        i < r.len() && i < states[0].max ==> r[i] == Some(ThreadToken { id: i as u64 }),
        i < r.len() && i >= states[0].max ==> r[i] is None,
{
    lemma_registered(states, r, i);
    if i < r.len() {
        assert(ThreadRegistry::registers(states[i], states[i + 1], r[i]));
    }
}

/// The next id counts the registrations.
proof fn lemma_registered(states: Seq<ThreadRegistry>, r: Seq<Option<ThreadToken>>, i: int)
    requires
        states.len() == r.len() + 1,
        states.len() <= u64::MAX,
        states[0].next == 0,
        forall|j: int|
            0 <= j < r.len() ==> ThreadRegistry::registers(
                #[trigger] states[j],
                states[j + 1],
                r[j],
            ),
        0 <= i <= r.len(),
    ensures
        states[i].max == states[0].max,
        states[i].next == i,
    decreases i,
{
    if i > 0 {
        lemma_registered(states, r, i - 1);
        assert(ThreadRegistry::registers(states[i - 1], states[i], r[i - 1]));
    }
}

} // verus!
