//! Putting a list into an order without disturbing what the order leaves
//! open: values that may stand either way keep the order in which they
//! came.

use vstd::prelude::*;

verus! {

/// Where a value goes into an ordered list: behind the longest beginning
/// of the list whose values all may stand before it.
pub open spec fn slot<T>(sorted: Seq<T>, value: T, before: spec_fn(T, T) -> bool) -> int
    decreases sorted.len(),
{
    if sorted.len() == 0 || !before(sorted[0], value) {
        0
    } else {
        1 + slot(sorted.skip(1), value, before)
    }
}

/// The list with its values put into their slots one after the other.
pub open spec fn arranged<T>(list: Seq<T>, before: spec_fn(T, T) -> bool) -> Seq<T>
    decreases list.len(),
{
    if list.len() == 0 {
        Seq::empty()
    } else {
        let front = arranged(list.drop_last(), before);
        front.insert(slot(front, list.last(), before), list.last())
    }
}

/// A place is the slot of a value when all before it may stand before the
/// value and the value at it, if there is one, may not.
pub proof fn lemma_slot<T>(sorted: Seq<T>, value: T, before: spec_fn(T, T) -> bool, at: int)
    requires
        0 <= at <= sorted.len(),
        forall|k: int| 0 <= k < at ==> before(#[trigger] sorted[k], value),
        at < sorted.len() ==> !before(sorted[at], value),
    ensures
        slot(sorted, value, before) == at,
    decreases sorted.len(),
{
    if sorted.len() > 0 && at > 0 {
        let rest = sorted.skip(1);
        assert(before(sorted[0], value));
        assert forall|k: int| 0 <= k < at - 1 implies before(#[trigger] rest[k], value) by {
            assert(rest[k] == sorted[k + 1]);
        }
        if at - 1 < rest.len() {
            assert(rest[at - 1] == sorted[at]);
        }
        lemma_slot(rest, value, before, at - 1);
    }
}

} // verus!
