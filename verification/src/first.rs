//! The first position at which something holds.

use vstd::prelude::*;

verus! {

/// The least position from `from` up to `to` at which `p` holds; `to` if there is none.
pub open spec fn first_at(p: spec_fn(int) -> bool, from: int, to: int) -> int
    decreases to - from,
{
    if from >= to || p(from) {
        from
    } else {
        first_at(p, from + 1, to)
    }
}

/// Where `first_at` stops, `p` holds unless the end was reached, and before that it
/// holds nowhere.
pub proof fn lemma_first_at(p: spec_fn(int) -> bool, from: int, to: int)
    requires
        from <= to,
    ensures
        from <= first_at(p, from, to) <= to,
        first_at(p, from, to) < to ==> p(first_at(p, from, to)),
        forall|j: int| from <= j < first_at(p, from, to) ==> !#[trigger] p(j),
    decreases to - from,
{
    if from >= to || p(from) {
    } else {
        lemma_first_at(p, from + 1, to);
    }
}

} // verus!
