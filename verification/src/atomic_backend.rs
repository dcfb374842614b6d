//! Double-word compare-and-exchange on a `HeadWord`.

use crate::tagged::HeadWord;
use vstd::prelude::*;

verus! {

/// One attempt at a time: no implementation retries internally. An attempt
/// may fail spuriously on a backend that is not strong, and callers treat a
/// failure as "this attempt made no progress".
pub trait Cas2Backend {
    /// Whether an attempt succeeds whenever the head holds the expected word.
    spec fn strong() -> bool;

    /// Load the head word.
    fn load(head: &HeadWord) -> (r: HeadWord)
        ensures
            r == *head,
    ;

    /// One compare-exchange attempt: `Ok` with the previous word on success,
    /// `Err` on failure, which leaves the head as it was.
    fn compare_exchange(head: &mut HeadWord, current: HeadWord, new: HeadWord) -> (r: Result<
        HeadWord,
        HeadWord,
    >)
        ensures
            r matches Ok(previous) ==> {
                &&& *old(head) == current
                &&& previous == current
                &&& *final(head) == new
            },
            r is Err ==> *final(head) == *old(head),
            Self::strong() ==> (r is Ok <==> *old(head) == current),
            Self::strong() ==> (r matches Err(actual) ==> actual == *old(head)),
    ;
}

/// Compare-and-exchange on a head word that no other thread accesses during
/// the call. Fails only on a mismatch.
pub struct PlainCas2;

impl Cas2Backend for PlainCas2 {
    open spec fn strong() -> bool {
        true
    }

    fn load(head: &HeadWord) -> (r: HeadWord) {
        *head
    }

    fn compare_exchange(head: &mut HeadWord, current: HeadWord, new: HeadWord) -> (r: Result<
        HeadWord,
        HeadWord,
    >) {
        let previous = *head;
        if previous == current {
            *head = new;
            Ok(previous)
        } else {
            Err(previous)
        }
    }
}

/// The backend that the allocator runs on.
pub type DefaultCas2Backend = PlainCas2;

} // verus!
