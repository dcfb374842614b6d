//! Singly linked chains, as sequences of addresses.

use crate::block::UNLINKED;
use vstd::prelude::*;

verus! {

/// The first element, or 0.
pub open spec fn first(items: Seq<u64>) -> u64 {
    if items.len() > 0 {
        items[0]
    } else {
        0
    }
}

/// The last element, or 0.
pub open spec fn last(items: Seq<u64>) -> u64 {
    if items.len() > 0 {
        items[items.len() - 1]
    } else {
        0
    }
}

/// The element after position `i`, or 0.
pub open spec fn succ(items: Seq<u64>, i: int) -> u64 {
    if i + 1 < items.len() {
        items[i + 1]
    } else {
        0
    }
}

/// `x` in front of `items`.
pub open spec fn cons(x: u64, items: Seq<u64>) -> Seq<u64> {
    seq![x] + items
}

/// Distinct blocks with a link word each.
pub open spec fn blocks(links: Map<u64, u64>, items: Seq<u64>) -> bool {
    &&& items.no_duplicates()
    &&& forall|i: int|
        #![trigger items[i]]
        0 <= i < items.len() ==> items[i] != 0 && items[i] != UNLINKED && links.dom().contains(
            items[i],
        )
}

/// Every block links to the next one.
pub open spec fn linked(links: Map<u64, u64>, items: Seq<u64>) -> bool {
    forall|i: int| 0 <= i < items.len() ==> #[trigger] links[items[i]] == succ(items, i)
}

/// Every block links to the next one, or its link is still missing.
pub open spec fn half_linked(links: Map<u64, u64>, items: Seq<u64>) -> bool {
    forall|i: int|
        0 <= i < items.len() ==> #[trigger] links[items[i]] == succ(items, i) || links[items[i]]
            == UNLINKED
}

/// Position of the first block whose link is missing, or the length.
pub open spec fn stall(links: Map<u64, u64>, items: Seq<u64>) -> nat
    decreases items.len(),
{
    if items.len() == 0 || links[items[0]] == UNLINKED {
        0
    } else {
        1 + stall(links, items.drop_first())
    }
}

/// `items` from the last to the first.
pub open spec fn rev(items: Seq<u64>) -> Seq<u64> {
    items.reverse()
}

/// `stall` finds the first missing link.
pub proof fn lemma_stall(links: Map<u64, u64>, items: Seq<u64>)
    ensures
        stall(links, items) <= items.len(),
        forall|i: int| 0 <= i < stall(links, items) ==> links[#[trigger] items[i]] != UNLINKED,
        stall(links, items) < items.len() ==> links[items[stall(links, items) as int]] == UNLINKED,
    decreases items.len(),
{
    if items.len() > 0 && links[items[0]] != UNLINKED {
        let rest = items.drop_first();
        lemma_stall(links, rest);
        assert forall|i: int| 0 <= i < stall(links, items) implies links[#[trigger] items[i]]
            != UNLINKED by {
            if i > 0 {
                assert(items[i] == rest[i - 1]);
            }
        }
        if stall(links, items) < items.len() {
            assert(items[stall(links, items) as int] == rest[stall(links, rest) as int]);
        }
    }
}

/// The first missing link is the only position that fits.
pub proof fn lemma_stall_unique(links: Map<u64, u64>, items: Seq<u64>, k: int)
    requires
        0 <= k <= items.len(),
        forall|i: int| 0 <= i < k ==> links[#[trigger] items[i]] != UNLINKED,
        k < items.len() ==> links[items[k]] == UNLINKED,
    ensures
        stall(links, items) == k,
{
    lemma_stall(links, items);
    let s = stall(links, items) as int;
    if s < k {
        assert(links[items[s]] != UNLINKED);
    }
    if k < s {
        assert(links[items[k]] != UNLINKED);
    }
}

/// Dropping the first element of a chain.
pub proof fn lemma_drop_first(links: Map<u64, u64>, items: Seq<u64>)
    requires
        items.len() > 0,
    ensures
        first(items.drop_first()) == succ(items, 0),
        linked(links, items) ==> linked(links, items.drop_first()),
        half_linked(links, items) ==> half_linked(links, items.drop_first()),
        blocks(links, items) ==> blocks(links, items.drop_first()),
        blocks(links, items) ==> !items.drop_first().contains(items[0]),
{
    let rest = items.drop_first();
    assert(forall|i: int| 0 <= i < rest.len() ==> rest[i] == items[i + 1]);
    if linked(links, items) {
        assert forall|i: int| 0 <= i < rest.len() implies #[trigger] links[rest[i]] == succ(
            rest,
            i,
        ) by {
            assert(links[items[i + 1]] == succ(items, i + 1));
        }
    }
    if half_linked(links, items) {
        assert forall|i: int| 0 <= i < rest.len() implies #[trigger] links[rest[i]] == succ(rest, i)
            || links[rest[i]] == UNLINKED by {
            assert(links[items[i + 1]] == succ(items, i + 1) || links[items[i + 1]] == UNLINKED);
        }
    }
    if blocks(links, items) {
        assert forall|i: int, j: int| 0 <= i < rest.len() && 0 <= j < rest.len() && i
            != j implies rest[i] != rest[j] by {
            assert(items[i + 1] != items[j + 1]);
        }
        if rest.contains(items[0]) {
            let i = choose|i: int| 0 <= i < rest.len() && rest[i] == items[0];
            assert(items[i + 1] != items[0]);
        }
    }
}

/// Putting a linked block in front of a chain.
pub proof fn lemma_cons(links: Map<u64, u64>, items: Seq<u64>, x: u64)
    requires
        blocks(links, items),
        !items.contains(x),
        x != 0,
        x != UNLINKED,
        links.dom().contains(x),
    ensures
        first(cons(x, items)) == x,
        cons(x, items).drop_first() == items,
        blocks(links.insert(x, first(items)), cons(x, items)),
        linked(links, items) ==> linked(links.insert(x, first(items)), cons(x, items)),
        half_linked(links, items) ==> half_linked(links.insert(x, first(items)), cons(x, items)),
        half_linked(links, items) ==> half_linked(links.insert(x, UNLINKED), cons(x, items)),
{
    let c = cons(x, items);
    let l = links.insert(x, first(items));
    assert(c.drop_first() =~= items);
    assert forall|i: int| 0 < i < c.len() implies #[trigger] c[i] == items[i - 1] && c[i] != x
        && succ(c, i) == succ(items, i - 1) && items.contains(c[i]) by {
        assert(items.contains(items[i - 1]));
    }
    assert(succ(c, 0) == first(items));
    assert forall|i: int, j: int| 0 <= i < c.len() && 0 <= j < c.len() && i != j implies c[i]
        != c[j] by {
        if i > 0 && j > 0 {
            assert(items[i - 1] != items[j - 1]);
        }
    }
}

/// Links of other blocks do not matter to a chain.
pub proof fn lemma_frame(links: Map<u64, u64>, other: Map<u64, u64>, items: Seq<u64>)
    requires
        blocks(links, items),
        forall|i: int|
            0 <= i < items.len() ==> other.dom().contains(#[trigger] items[i]) && other[items[i]]
                == links[items[i]],
    ensures
        blocks(other, items),
        linked(links, items) ==> linked(other, items),
        half_linked(links, items) ==> half_linked(other, items),
        stall(links, items) == stall(other, items),
{
    lemma_stall(links, items);
    lemma_stall_unique(other, items, stall(links, items) as int);
}

/// Two sequences have no element in common.
pub open spec fn apart(a: Seq<u64>, b: Seq<u64>) -> bool {
    forall|x: u64| !(#[trigger] a.contains(x) && b.contains(x))
}

/// The elements of two sequences behind one another.
pub proof fn lemma_concat(a: Seq<u64>, b: Seq<u64>)
    ensures
        forall|x: u64| #[trigger] (a + b).contains(x) <==> a.contains(x) || b.contains(x),
        (a + b).no_duplicates() <==> a.no_duplicates() && b.no_duplicates() && apart(a, b),
{
    let c = a + b;
    assert forall|x: u64| #[trigger] c.contains(x) <==> a.contains(x) || b.contains(x) by {
        if a.contains(x) {
            let i = choose|i: int| 0 <= i < a.len() && a[i] == x;
            assert(c[i] == x);
        }
        if b.contains(x) {
            let i = choose|i: int| 0 <= i < b.len() && b[i] == x;
            assert(c[a.len() + i] == x);
        }
        if c.contains(x) {
            let i = choose|i: int| 0 <= i < c.len() && c[i] == x;
            if i < a.len() {
                assert(a[i] == x);
            } else {
                assert(b[i - a.len()] == x);
            }
        }
    }
    if c.no_duplicates() {
        assert forall|i: int, j: int| 0 <= i < a.len() && 0 <= j < a.len() && i != j implies a[i]
            != a[j] by {
            assert(c[i] != c[j]);
        }
        assert forall|i: int, j: int| 0 <= i < b.len() && 0 <= j < b.len() && i != j implies b[i]
            != b[j] by {
            assert(c[a.len() + i] != c[a.len() + j]);
        }
        assert forall|x: u64| !(#[trigger] a.contains(x) && b.contains(x)) by {
            if a.contains(x) && b.contains(x) {
                let i = choose|i: int| 0 <= i < a.len() && a[i] == x;
                let j = choose|j: int| 0 <= j < b.len() && b[j] == x;
                assert(c[i] != c[a.len() + j]);
            }
        }
    }
    if a.no_duplicates() && b.no_duplicates() && apart(a, b) {
        assert forall|i: int, j: int| 0 <= i < c.len() && 0 <= j < c.len() && i != j implies c[i]
            != c[j] by {
            if i < a.len() && j >= a.len() {
                assert(a.contains(a[i]));
                assert(b.contains(b[j - a.len()]));
            } else if i >= a.len() && j < a.len() {
                assert(a.contains(a[j]));
                assert(b.contains(b[i - a.len()]));
            }
        }
    }
}

/// The elements of a reversed sequence.
pub proof fn lemma_rev(a: Seq<u64>)
    ensures
        forall|x: u64| #[trigger] rev(a).contains(x) <==> a.contains(x),
        a.no_duplicates() ==> rev(a).no_duplicates(),
        rev(a).len() == a.len(),
{
    let r = rev(a);
    assert forall|x: u64| #[trigger] r.contains(x) <==> a.contains(x) by {
        if r.contains(x) {
            let i = choose|i: int| 0 <= i < r.len() && r[i] == x;
            assert(a[a.len() - 1 - i] == x);
        }
        if a.contains(x) {
            let i = choose|i: int| 0 <= i < a.len() && a[i] == x;
            assert(r[a.len() - 1 - i] == x);
        }
    }
}

/// A sequence is its first `k` elements and the others.
pub proof fn lemma_split(a: Seq<u64>, k: int)
    requires
        0 <= k <= a.len(),
    ensures
        a.take(k) + a.skip(k) == a,
        forall|x: u64| #[trigger] a.contains(x) <==> a.take(k).contains(x) || a.skip(k).contains(x),
        a.no_duplicates() ==> a.take(k).no_duplicates() && a.skip(k).no_duplicates() && apart(
            a.take(k),
            a.skip(k),
        ),
{
    assert(a.take(k) + a.skip(k) =~= a);
    lemma_concat(a.take(k), a.skip(k));
}

/// The part of a chain behind its first `k` blocks.
pub proof fn lemma_skip(links: Map<u64, u64>, a: Seq<u64>, k: int)
    requires
        0 <= k <= a.len(),
        blocks(links, a),
        half_linked(links, a),
    ensures
        blocks(links, a.skip(k)),
        half_linked(links, a.skip(k)),
{
    let b = a.skip(k);
    lemma_split(a, k);
    assert forall|i: int| 0 <= i < b.len() implies #[trigger] links[b[i]] == succ(b, i)
        || links[b[i]] == UNLINKED by {
        assert(links[a[k + i]] == succ(a, k + i) || links[a[k + i]] == UNLINKED);
    }
}

} // verus!
