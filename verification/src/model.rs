//! What a tree is, mathematically: the map from its elements to their
//! priorities, the two orderings a treap keeps, and what searching it yields.

use vstd::prelude::*;
use crate::{Element, Key, Rank};
use crate::data_generator::Action;
use crate::order::{element_lt, rank_lt};
use crate::random::RANDOM_MAX;
use crate::treap::{Link, Node};

verus! {

/// The subtree that consists of `n` and all below it.
pub open spec fn link(n: Node) -> Link {
    Some(Box::new(n))
}

/// The priority of every element in the tree.
pub open spec fn priorities(t: Link) -> Map<Element, u32>
    decreases t,
{
    match t {
        None => Map::empty(),
        Some(n) => priorities(n.left).union_prefer_right(priorities(n.right)).insert(
            n.x,
            n.priority,
        ),
    }
}

/// The elements in the tree.
#[verifier::inline]
pub open spec fn elements(t: Link) -> Set<Element> {
    priorities(t).dom()
}

/// The heap rank that `e` has under the priorities `m`.
pub open spec fn rank_of(m: Map<Element, u32>, e: Element) -> Rank {
    (m[e], e.1, e.0)
}

/// The search-tree ordering: at every node, all of the left subtree comes
/// strictly before the node's element and all of the right subtree strictly
/// after it.
pub open spec fn bst(t: Link) -> bool
    decreases t,
{
    match t {
        None => true,
        Some(n) => {
            &&& bst(n.left)
            &&& bst(n.right)
            &&& forall|e: Element| #[trigger] elements(n.left).contains(e) ==> element_lt(e, n.x)
            &&& forall|e: Element| #[trigger] elements(n.right).contains(e) ==> element_lt(n.x, e)
        },
    }
}

/// The root of `t`, if there is one, ranks strictly below `r`.
pub open spec fn root_below(t: Link, r: Rank) -> bool {
    match t {
        None => true,
        Some(n) => rank_lt(r, n.rank()),
    }
}

/// The heap ordering: every child ranks strictly below its parent, so the
/// smallest rank of a subtree sits at its root.
pub open spec fn heap(t: Link) -> bool
    decreases t,
{
    match t {
        None => true,
        Some(n) => {
            &&& heap(n.left)
            &&& heap(n.right)
            &&& root_below(n.left, n.rank())
            &&& root_below(n.right, n.rank())
        },
    }
}

/// No priority in the tree exceeds what the random source hands out.
pub open spec fn bounded(t: Link) -> bool
    decreases t,
{
    match t {
        None => true,
        Some(n) => n.priority <= RANDOM_MAX && bounded(n.left) && bounded(n.right),
    }
}

/// A treap: search tree, heap, and priorities within bounds.
pub open spec fn treap(t: Link) -> bool {
    bst(t) && heap(t) && bounded(t)
}

/// Every element of `t` ranks strictly below `r`.
pub open spec fn all_below(t: Link, r: Rank) -> bool {
    forall|e: Element| #[trigger]
        elements(t).contains(e) ==> rank_lt(r, rank_of(priorities(t), e))
}

/// `after` is `before` with the new element `x` under some priority that the
/// random source can hand out.
pub open spec fn inserted(before: Map<Element, u32>, after: Map<Element, u32>, x: Element) -> bool {
    &&& after.dom().contains(x)
    &&& after[x] <= RANDOM_MAX
    &&& after == before.insert(x, after[x])
}

/// The heap ordering holds at `n` but perhaps between `n` and the element
/// `x` below it: both subtrees are heaps, and every element below `n` other
/// than `x` ranks below `n`.
pub open spec fn heap_but(n: Node, x: Element) -> bool {
    &&& heap(n.left)
    &&& heap(n.right)
    &&& forall|e: Element| #[trigger]
        elements(n.left).contains(e) && e != x ==> rank_lt(n.rank(), rank_of(priorities(n.left), e))
    &&& forall|e: Element| #[trigger]
        elements(n.right).contains(e) && e != x ==> rank_lt(
            n.rank(),
            rank_of(priorities(n.right), e),
        )
}

/// `n` is on its way out of a treap: its priority is beyond every priority
/// that the random source hands out, its subtrees are treaps, and the
/// search-tree ordering holds at it.
pub open spec fn sinking(n: Node) -> bool {
    &&& n.priority == u32::MAX
    &&& treap(n.left)
    &&& treap(n.right)
    &&& bst(link(n))
}

/// The number of nodes.
pub open spec fn size(t: Link) -> nat
    decreases t,
{
    match t {
        None => 0,
        Some(n) => 1 + size(n.left) + size(n.right),
    }
}

/// The number of nodes on the longest path from the root down.
pub open spec fn height(t: Link) -> nat
    decreases t,
{
    match t {
        None => 0,
        Some(n) => {
            let l = height(n.left);
            let r = height(n.right);
            1 + if l < r { r } else { l }
        },
    }
}

/// The element that a descent for the key `k` meets first: at each node it
/// goes left if `k` is smaller than the node's key, right if larger, and
/// stops if equal.
pub open spec fn find(t: Link, k: Key) -> Option<Element>
    decreases t,
{
    match t {
        None => None,
        Some(n) => if k < n.x.1 {
            find(n.left, k)
        } else if n.x.1 < k {
            find(n.right, k)
        } else {
            Some(n.x)
        },
    }
}

/// One level further down, if anywhere.
pub open spec fn deeper(d: Option<nat>) -> Option<nat> {
    match d {
        None => None,
        Some(d) => Some(d + 1),
    }
}

/// The depth of the node that a descent for the key `k` stops at, the root
/// being at depth 0.
pub open spec fn depth_of(t: Link, k: Key) -> Option<nat>
    decreases t,
{
    match t {
        None => None,
        Some(n) => if k < n.x.1 {
            deeper(depth_of(n.left, k))
        } else if n.x.1 < k {
            deeper(depth_of(n.right, k))
        } else {
            Some(0)
        },
    }
}

/// The depth of every node of `t`, whose root is at depth `d`: the root
/// first, then the right subtree, then the left one.
pub open spec fn all_depths(t: Link, d: nat) -> Seq<nat>
    decreases t,
{
    match t {
        None => Seq::empty(),
        Some(n) => seq![d] + all_depths(n.right, d + 1) + all_depths(n.left, d + 1),
    }
}

/// The same depths, as numbers without bound.
pub open spec fn as_nats(s: Seq<usize>) -> Seq<nat> {
    s.map_values(|d: usize| d as nat)
}

/// Every element of `t` lies strictly after `min` and strictly before
/// `max`, where they are given.
pub open spec fn within(t: Link, min: Option<Element>, max: Option<Element>) -> bool {
    forall|e: Element| #[trigger]
        elements(t).contains(e) ==> (min matches Some(lo) ==> element_lt(lo, e)) && (max matches Some(
            hi,
        ) ==> element_lt(e, hi))
}

/// Some element under `m` has the key `k`.
pub open spec fn has_key(m: Map<Element, u32>, k: Key) -> bool {
    exists|e: Element| #[trigger] m.dom().contains(e) && e.1 == k
}

/// `e` has the key `k`, and no element with that key ranks above it.
pub open spec fn is_first_match(m: Map<Element, u32>, k: Key, e: Element) -> bool {
    &&& m.dom().contains(e)
    &&& e.1 == k
    &&& forall|o: Element| #[trigger]
        m.dom().contains(o) && o.1 == k ==> !rank_lt(rank_of(m, o), rank_of(m, e))
}

/// Among the elements with the key `k`, the one of highest rank: of least
/// priority, and of least id among those. It is the one nearest the root.
pub open spec fn first_match(m: Map<Element, u32>, k: Key) -> Option<Element> {
    if has_key(m, k) {
        Some(choose|e: Element| is_first_match(m, k, e))
    } else {
        None
    }
}

/// `m` without the element `hit`, if there is one.
pub open spec fn without(m: Map<Element, u32>, hit: Option<Element>) -> Map<Element, u32> {
    match hit {
        None => m,
        Some(e) => m.remove(e),
    }
}

/// `after` is what the action `a` makes of a treap that holds `before`.
pub open spec fn applied(before: Map<Element, u32>, a: Action, after: Map<Element, u32>) -> bool {
    match a {
        Action::Insertion(x) => inserted(before, after, x),
        Action::Deletion(k) => after == without(before, first_match(before, k)),
        Action::Search(_) => after == before,
    }
}

} // verus!
