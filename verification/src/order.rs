//! The two orders the treap rests on: elements by `(key, id)`, and heap ranks
//! by `(priority, key, id)`, both lexicographic.

use vstd::prelude::*;
use crate::{Element, Rank};

verus! {

/// `a` comes strictly before `b` in tree order: by key, ties broken by id.
pub open spec fn element_lt(a: Element, b: Element) -> bool {
    a.1 < b.1 || (a.1 == b.1 && a.0 < b.0)
}

/// `a` ranks strictly above `b` in the heap: smaller priority first, ties
/// broken by key and then by id.
pub open spec fn rank_lt(a: Rank, b: Rank) -> bool {
    a.0 < b.0 || (a.0 == b.0 && (a.1 < b.1 || (a.1 == b.1 && a.2 < b.2)))
}

/// Decides `element_lt`.
pub fn element_before(a: Element, b: Element) -> (r: bool)
    ensures
        r == element_lt(a, b),
{
    a.1 < b.1 || (a.1 == b.1 && a.0 < b.0)
}

/// Decides `rank_lt`.
pub fn rank_before(a: Rank, b: Rank) -> (r: bool)
    ensures
        r == rank_lt(a, b),
{
    a.0 < b.0 || (a.0 == b.0 && (a.1 < b.1 || (a.1 == b.1 && a.2 < b.2)))
}

} // verus!
