//! Facts about trees that the operations of the treap are proved from.

use vstd::prelude::*;
use crate::{Element, Key, Rank};
use crate::model::{all_below, bounded, bst, depth_of, elements, find, first_match, has_key, heap,
    heap_but, height, inserted, is_first_match, link, priorities, rank_of, root_below, sinking,
    size, treap};
use crate::order::{element_lt, rank_lt};
use crate::random::RANDOM_MAX;
use crate::treap::{rotated, rotated_left, rotated_right, rotation, Link, Node, RotateResult};

verus! {

/// In a heap-ordered search tree whose root ranks below `r`, every element
/// ranks below `r`.
pub proof fn lemma_heap_all_below(t: Link, r: Rank)
    requires
        bst(t),
        heap(t),
        root_below(t, r),
    ensures
        all_below(t, r),
    decreases t,
{
    match t {
        None => {},
        Some(n) => {
            lemma_heap_all_below(n.left, n.rank());
            lemma_heap_all_below(n.right, n.rank());
            assert forall|e: Element| #[trigger] elements(t).contains(e) implies rank_lt(
                r,
                rank_of(priorities(t), e),
            ) by {
                if e == n.x {
                } else if elements(n.right).contains(e) {
                    assert(rank_lt(n.rank(), rank_of(priorities(n.right), e)));
                } else {
                    assert(elements(n.left).contains(e));
                    assert(rank_lt(n.rank(), rank_of(priorities(n.left), e)));
                }
            }
        },
    }
}

/// Promoting the right child keeps the search-tree ordering, the elements
/// and their priorities.
pub proof fn lemma_rotated_left(n: Node)
    requires
        n.right is Some,
        bst(link(n)),
    ensures
        bst(link(rotated_left(n))),
        priorities(link(rotated_left(n))) == priorities(link(n)),
        bounded(link(n)) ==> bounded(link(rotated_left(n))),
{
    reveal_with_fuel(priorities, 3);
    reveal_with_fuel(bounded, 3);
    let r = *n.right.unwrap();
    let m = rotated_left(n);
    let inner = Node { x: n.x, priority: n.priority, left: n.left, right: r.left };
    assert(m.left == link(inner));
    assert(bst(n.right));
    assert(elements(n.right).contains(r.x));
    assert(bst(link(inner))) by {
        assert forall|e: Element| #[trigger] elements(r.left).contains(e) implies element_lt(
            n.x,
            e,
        ) by {
            assert(elements(n.right).contains(e));
        }
    }
    let a = priorities(n.left);
    let b = priorities(r.left);
    let c = priorities(r.right);
    assert(priorities(n.right) == b.union_prefer_right(c).insert(r.x, r.priority));
    assert(priorities(link(n)) == a.union_prefer_right(priorities(n.right)).insert(n.x, n.priority));
    assert(priorities(m.left) == a.union_prefer_right(b).insert(n.x, n.priority));
    assert(priorities(link(m)) == priorities(m.left).union_prefer_right(c).insert(r.x, r.priority));
    assert(element_lt(n.x, r.x));
    assert(!c.dom().contains(n.x)) by {
        if c.dom().contains(n.x) {
            assert(element_lt(r.x, n.x));
        }
    }
    assert(priorities(link(m)) =~= priorities(link(n)));
    assert(bst(link(m))) by {
        assert forall|e: Element| #[trigger] elements(m.left).contains(e) implies element_lt(
            e,
            r.x,
        ) by {
            if e == n.x {
            } else if elements(r.left).contains(e) {
            } else {
                assert(elements(n.left).contains(e));
                assert(element_lt(e, n.x));
            }
        }
    }
}

/// Promoting the left child keeps the search-tree ordering, the elements
/// and their priorities.
pub proof fn lemma_rotated_right(n: Node)
    requires
        n.left is Some,
        bst(link(n)),
    ensures
        bst(link(rotated_right(n))),
        priorities(link(rotated_right(n))) == priorities(link(n)),
        bounded(link(n)) ==> bounded(link(rotated_right(n))),
{
    reveal_with_fuel(priorities, 3);
    reveal_with_fuel(bounded, 3);
    let l = *n.left.unwrap();
    let m = rotated_right(n);
    let inner = Node { x: n.x, priority: n.priority, left: l.right, right: n.right };
    assert(m.right == link(inner));
    assert(bst(n.left));
    assert(elements(n.left).contains(l.x));
    assert(bst(link(inner))) by {
        assert forall|e: Element| #[trigger] elements(l.right).contains(e) implies element_lt(
            e,
            n.x,
        ) by {
            assert(elements(n.left).contains(e));
        }
    }
    let a = priorities(l.left);
    let b = priorities(l.right);
    let c = priorities(n.right);
    assert(priorities(n.left) == a.union_prefer_right(b).insert(l.x, l.priority));
    assert(priorities(link(n)) == priorities(n.left).union_prefer_right(c).insert(n.x, n.priority));
    assert(priorities(m.right) == b.union_prefer_right(c).insert(n.x, n.priority));
    assert(priorities(link(m)) == a.union_prefer_right(priorities(m.right)).insert(l.x, l.priority));
    assert(element_lt(l.x, n.x));
    assert(priorities(link(m)) =~= priorities(link(n)));
    assert(bst(link(m))) by {
        assert forall|e: Element| #[trigger] elements(m.right).contains(e) implies element_lt(
            l.x,
            e,
        ) by {
            if e == n.x {
            } else if elements(l.right).contains(e) {
            } else {
                assert(elements(n.right).contains(e));
                assert(element_lt(n.x, e));
            }
        }
    }
}

/// A node without children, with a priority from the random source, is a
/// treap that holds its element and nothing else.
pub proof fn lemma_leaf(n: Node)
    requires
        n.left is None,
        n.right is None,
        n.priority <= RANDOM_MAX,
    ensures
        treap(link(n)),
        inserted(priorities(None), priorities(link(n)), n.x),
{
    reveal_with_fuel(bst, 2);
    reveal_with_fuel(heap, 2);
    reveal_with_fuel(bounded, 2);
    reveal_with_fuel(priorities, 2);
    assert(priorities(link(n)) =~= priorities(None).insert(n.x, n.priority));
}

/// Where `x` was inserted into the proper subtree of the treap `pre`, and
/// `mid` is the node with that subtree in place, `mid` is a search tree that
/// holds `x` besides what `pre` held, and a heap but perhaps at `x`.
pub proof fn lemma_inserted_below(pre: Node, mid: Node, x: Element)
    requires
        treap(link(pre)),
        !elements(link(pre)).contains(x),
        mid.x == pre.x,
        mid.priority == pre.priority,
        element_lt(pre.x, x) ==> mid.left == pre.left && treap(mid.right) && inserted(
            priorities(pre.right),
            priorities(mid.right),
            x,
        ),
        !element_lt(pre.x, x) ==> mid.right == pre.right && treap(mid.left) && inserted(
            priorities(pre.left),
            priorities(mid.left),
            x,
        ),
    ensures
        bst(link(mid)),
        bounded(link(mid)),
        heap_but(mid, x),
        inserted(priorities(link(pre)), priorities(link(mid)), x),
{
    lemma_heap_all_below(pre.left, pre.rank());
    lemma_heap_all_below(pre.right, pre.rank());
    assert(x != pre.x);
    if element_lt(pre.x, x) {
        assert(priorities(link(mid)) =~= priorities(link(pre)).insert(x, priorities(mid.right)[x]));
    } else {
        assert(element_lt(x, pre.x));
        assert(!elements(pre.right).contains(x));
        assert(priorities(link(mid)) =~= priorities(link(pre)).insert(x, priorities(mid.left)[x]));
    }
}

/// The repair step restores the heap ordering at a node where it holds but
/// perhaps at one element below; if it promotes a child, that element is
/// the one promoted.
pub proof fn lemma_repair(n: Node, x: Element)
    requires
        bst(link(n)),
        heap_but(n, x),
    ensures
        heap(link(rotated(n, rotation(n)))),
        !(rotation(n) is Same) ==> rotated(n, rotation(n)).x == x,
{
    reveal_with_fuel(priorities, 2);
    reveal_with_fuel(heap, 3);
    reveal_with_fuel(bst, 2);
    match n.left {
        Some(l) => {
            assert(elements(n.left).contains(l.x));
            assert(rank_of(priorities(n.left), l.x) == l.rank());
            match l.right {
                Some(c) => {
                    assert(elements(l.right).contains(c.x));
                    assert(elements(n.left).contains(c.x));
                    assert(rank_of(priorities(n.left), c.x) == c.rank());
                },
                None => {},
            }
        },
        None => {},
    }
    match n.right {
        Some(r) => {
            assert(elements(n.right).contains(r.x));
            assert(rank_of(priorities(n.right), r.x) == r.rank());
            match r.left {
                Some(c) => {
                    assert(elements(r.left).contains(c.x));
                    assert(elements(n.right).contains(c.x));
                    assert(!elements(r.right).contains(c.x)) by {
                        if elements(r.right).contains(c.x) {
                            assert(element_lt(r.x, c.x));
                        }
                    }
                    assert(rank_of(priorities(n.right), c.x) == c.rank());
                },
                None => {},
            }
        },
        None => {},
    }
}

/// Two elements that are both first with the key `k` are one.
pub proof fn lemma_first_match_unique(m: Map<Element, u32>, k: Key, a: Element, b: Element)
    requires
        is_first_match(m, k, a),
        is_first_match(m, k, b),
    ensures
        a == b,
{
    assert(!rank_lt(rank_of(m, a), rank_of(m, b)));
    assert(!rank_lt(rank_of(m, b), rank_of(m, a)));
}

/// `first_match` is the element that is first with the key, where one is.
pub proof fn lemma_first_match_is(m: Map<Element, u32>, k: Key, e: Element)
    requires
        is_first_match(m, k, e),
    ensures
        first_match(m, k) == Some(e),
{
    assert(m.dom().contains(e) && e.1 == k);
    let c = choose|c: Element| is_first_match(m, k, c);
    lemma_first_match_unique(m, k, c, e);
}

/// In a treap, the descent for a key stops at the element that is first
/// with that key.
pub proof fn lemma_find(t: Link, k: Key)
    requires
        bst(t),
        heap(t),
    ensures
        find(t, k) == first_match(priorities(t), k),
        find(t, k) matches Some(e) ==> is_first_match(priorities(t), k, e),
        find(t, k) is None ==> !has_key(priorities(t), k),
    decreases t,
{
    let m = priorities(t);
    match t {
        None => {},
        Some(n) => {
            if k < n.x.1 {
                lemma_find(n.left, k);
                lemma_find_through(*n, n.left, k);
            } else if n.x.1 < k {
                lemma_find(n.right, k);
                lemma_find_through(*n, n.right, k);
            } else {
                lemma_heap_all_below(n.left, n.rank());
                lemma_heap_all_below(n.right, n.rank());
                assert(is_first_match(m, k, n.x)) by {
                    assert forall|o: Element| #[trigger] m.dom().contains(o) && o.1 == k implies !rank_lt(
                        rank_of(m, o),
                        rank_of(m, n.x),
                    ) by {
                        if o == n.x {
                        } else if elements(n.right).contains(o) {
                            assert(rank_lt(n.rank(), rank_of(priorities(n.right), o)));
                        } else {
                            assert(elements(n.left).contains(o));
                            assert(rank_lt(n.rank(), rank_of(priorities(n.left), o)));
                        }
                    }
                }
                lemma_first_match_is(m, k, n.x);
            }
        },
    }
}

/// Below a node whose key is not `k`, the elements with the key `k` all lie
/// on the side that the descent takes, with the priorities they have there;
/// so what is first with `k` on that side is first with `k` below the node.
proof fn lemma_find_through(n: Node, side: Link, k: Key)
    requires
        bst(link(n)),
        n.x.1 != k,
        side == if k < n.x.1 { n.left } else { n.right },
        find(side, k) matches Some(e) ==> is_first_match(priorities(side), k, e),
        find(side, k) is None ==> !has_key(priorities(side), k),
    ensures
        find(link(n), k) == first_match(priorities(link(n)), k),
        find(link(n), k) matches Some(e) ==> is_first_match(priorities(link(n)), k, e),
        find(link(n), k) is None ==> !has_key(priorities(link(n)), k),
{
    let m = priorities(link(n));
    let ms = priorities(side);
    assert forall|o: Element| #[trigger] m.dom().contains(o) && o.1 == k implies ms.dom().contains(
        o,
    ) && ms[o] == m[o] by {
        if elements(n.left).contains(o) {
            assert(element_lt(o, n.x));
        }
        if elements(n.right).contains(o) {
            assert(element_lt(n.x, o));
        }
    }
    match find(side, k) {
        Some(e) => {
            assert(m.dom().contains(e));
            assert(m[e] == ms[e]);
            assert(is_first_match(m, k, e)) by {
                assert forall|o: Element| #[trigger] m.dom().contains(o) && o.1 == k implies !rank_lt(
                    rank_of(m, o),
                    rank_of(m, e),
                ) by {
                    assert(ms.dom().contains(o));
                }
            }
            lemma_first_match_is(m, k, e);
        },
        None => {
            assert forall|e: Element| m.dom().contains(e) implies e.1 != k by {
                if e.1 == k {
                    assert(ms.dom().contains(e));
                }
            }
        },
    }
}

/// Where the left subtree of a search tree gives way to a treap that holds
/// what it held but `gone`, all of it ranking below the node, the node roots
/// a treap that holds what it held but `gone`.
pub proof fn lemma_replace_left(before: Node, after: Node, gone: Element)
    requires
        bst(link(before)),
        heap(before.right),
        bounded(before.right),
        root_below(before.right, before.rank()),
        before.priority <= RANDOM_MAX,
        elements(before.left).contains(gone),
        after.x == before.x,
        after.priority == before.priority,
        after.right == before.right,
        treap(after.left),
        priorities(after.left) == priorities(before.left).remove(gone),
        forall|e: Element| #[trigger]
            elements(before.left).contains(e) && e != gone ==> rank_lt(
                before.rank(),
                rank_of(priorities(before.left), e),
            ),
    ensures
        treap(link(after)),
        priorities(link(after)) == priorities(link(before)).remove(gone),
{
    assert(element_lt(gone, before.x));
    assert(!elements(before.right).contains(gone)) by {
        if elements(before.right).contains(gone) {
            assert(element_lt(before.x, gone));
        }
    }
    assert(priorities(link(after)) =~= priorities(link(before)).remove(gone));
    assert(bst(link(after))) by {
        assert forall|e: Element| #[trigger] elements(after.left).contains(e) implies element_lt(
            e,
            after.x,
        ) by {
            assert(elements(before.left).contains(e));
        }
    }
    lemma_root_entry(after.left);
}

/// Where the right subtree of a search tree gives way to a treap that holds
/// what it held but `gone`, all of it ranking below the node, the node roots
/// a treap that holds what it held but `gone`.
pub proof fn lemma_replace_right(before: Node, after: Node, gone: Element)
    requires
        bst(link(before)),
        heap(before.left),
        bounded(before.left),
        root_below(before.left, before.rank()),
        before.priority <= RANDOM_MAX,
        elements(before.right).contains(gone),
        after.x == before.x,
        after.priority == before.priority,
        after.left == before.left,
        treap(after.right),
        priorities(after.right) == priorities(before.right).remove(gone),
        forall|e: Element| #[trigger]
            elements(before.right).contains(e) && e != gone ==> rank_lt(
                before.rank(),
                rank_of(priorities(before.right), e),
            ),
    ensures
        treap(link(after)),
        priorities(link(after)) == priorities(link(before)).remove(gone),
{
    assert(element_lt(before.x, gone));
    assert(!elements(before.left).contains(gone)) by {
        if elements(before.left).contains(gone) {
            assert(element_lt(gone, before.x));
        }
    }
    assert(priorities(link(after)) =~= priorities(link(before)).remove(gone));
    assert(bst(link(after))) by {
        assert forall|e: Element| #[trigger] elements(after.right).contains(e) implies element_lt(
            after.x,
            e,
        ) by {
            assert(elements(before.right).contains(e));
        }
    }
    lemma_root_entry(after.right);
}

/// The root of a tree is among its elements, under its own priority.
pub proof fn lemma_root_entry(t: Link)
    ensures
        t matches Some(n) ==> elements(t).contains(n.x) && rank_of(priorities(t), n.x) == n.rank(),
{
}

/// What the repair step does at a node that is being sunk: nothing if it is
/// a leaf; else it promotes the child of higher rank, which leaves a search
/// tree with the same entries, the node one level down with a smaller
/// subtree, still sinking, and all else below the promoted child in rank.
pub proof fn lemma_sink_step(n: Node)
    requires
        sinking(n),
    ensures
        rotation(n) is Same ==> n.left is None && n.right is None,
        rotation(n) is Left ==> n.right is Some && ({
            let m = rotated_left(n);
            &&& bst(link(m))
            &&& priorities(link(m)) == priorities(link(n))
            &&& m.priority <= RANDOM_MAX
            &&& m.left matches Some(c) && c.x == n.x && sinking(*c)
            &&& size(m.left) < size(link(n))
            &&& treap(m.right)
            &&& root_below(m.right, m.rank())
            &&& forall|e: Element| #[trigger]
                elements(m.left).contains(e) && e != n.x ==> rank_lt(
                    m.rank(),
                    rank_of(priorities(m.left), e),
                )
        }),
        rotation(n) is Right ==> n.left is Some && ({
            let m = rotated_right(n);
            &&& bst(link(m))
            &&& priorities(link(m)) == priorities(link(n))
            &&& m.priority <= RANDOM_MAX
            &&& m.right matches Some(c) && c.x == n.x && sinking(*c)
            &&& size(m.right) < size(link(n))
            &&& treap(m.left)
            &&& root_below(m.left, m.rank())
            &&& forall|e: Element| #[trigger]
                elements(m.right).contains(e) && e != n.x ==> rank_lt(
                    m.rank(),
                    rank_of(priorities(m.right), e),
                )
        }),
{
    reveal_with_fuel(size, 3);
    reveal_with_fuel(bst, 2);
    reveal_with_fuel(heap, 2);
    reveal_with_fuel(bounded, 2);
    reveal_with_fuel(priorities, 2);
    lemma_root_entry(n.left);
    lemma_root_entry(n.right);
    match rotation(n) {
        RotateResult::Same => {},
        RotateResult::Left => {
            let r = *n.right.unwrap();
            let m = rotated_left(n);
            lemma_rotated_left(n);
            lemma_heap_all_below(r.left, r.rank());
            if n.left is Some {
                assert(element_lt(n.left.unwrap().x, n.x));
                lemma_heap_all_below(n.left, r.rank());
            }
            assert forall|e: Element| #[trigger]
                elements(m.left).contains(e) && e != n.x implies rank_lt(
                m.rank(),
                rank_of(priorities(m.left), e),
            ) by {
                if elements(r.left).contains(e) {
                } else {
                    assert(elements(n.left).contains(e));
                }
            }
        },
        RotateResult::Right => {
            let l = *n.left.unwrap();
            let m = rotated_right(n);
            lemma_rotated_right(n);
            lemma_heap_all_below(l.right, l.rank());
            if n.right is Some {
                assert(element_lt(n.x, n.right.unwrap().x));
                lemma_heap_all_below(n.right, l.rank());
            }
            assert forall|e: Element| #[trigger]
                elements(m.right).contains(e) && e != n.x implies rank_lt(
                m.rank(),
                rank_of(priorities(m.right), e),
            ) by {
                if elements(n.right).contains(e) {
                } else {
                    assert(elements(l.right).contains(e));
                }
            }
        },
    }
}

/// A search tree has as many nodes as elements, and is no higher than that.
pub proof fn lemma_size(t: Link)
    requires
        bst(t),
    ensures
        elements(t).finite(),
        size(t) == elements(t).len(),
        height(t) <= size(t),
    decreases t,
{
    match t {
        None => {},
        Some(n) => {
            lemma_size(n.left);
            lemma_size(n.right);
            let l = elements(n.left);
            let r = elements(n.right);
            assert(l.disjoint(r)) by {
                assert forall|e: Element| l.contains(e) implies !r.contains(e) by {
                    assert(element_lt(e, n.x));
                    if r.contains(e) {
                        assert(element_lt(n.x, e));
                    }
                }
            }
            vstd::set_lib::lemma_set_disjoint_lens(l, r);
            assert(!l.union(r).contains(n.x)) by {
                if l.contains(n.x) {
                    assert(element_lt(n.x, n.x));
                }
                if r.contains(n.x) {
                    assert(element_lt(n.x, n.x));
                }
            }
            assert(elements(t) =~= l.union(r).insert(n.x));
        },
    }
}

/// A descent for a key stops at some depth exactly where it finds an
/// element.
pub proof fn lemma_depth_of(t: Link, k: Key)
    ensures
        depth_of(t, k) is Some <==> find(t, k) is Some,
        depth_of(t, k) matches Some(d) ==> d < height(t),
    decreases t,
{
    match t {
        None => {},
        Some(n) => {
            lemma_depth_of(n.left, k);
            lemma_depth_of(n.right, k);
        },
    }
}

/// Below a node of a search tree, the left subtree holds exactly the
/// elements before the node's and the right subtree those after it, under
/// the priorities that they have in the whole.
pub proof fn lemma_sides(n: Node)
    requires
        bst(link(n)),
    ensures
        forall|e: Element|
            #![trigger elements(n.left).contains(e)]
            #![trigger elements(link(n)).contains(e)]
            elements(n.left).contains(e) <==> elements(link(n)).contains(e) && element_lt(e, n.x),
        forall|e: Element|
            #![trigger elements(n.right).contains(e)]
            #![trigger elements(link(n)).contains(e)]
            elements(n.right).contains(e) <==> elements(link(n)).contains(e) && element_lt(n.x, e),
        forall|e: Element| #[trigger]
            elements(n.left).contains(e) ==> priorities(n.left)[e] == priorities(link(n))[e],
        forall|e: Element| #[trigger]
            elements(n.right).contains(e) ==> priorities(n.right)[e] == priorities(link(n))[e],
{
    assert forall|e: Element| #[trigger] elements(link(n)).contains(e) && element_lt(
        e,
        n.x,
    ) implies elements(n.left).contains(e) by {
        if elements(n.right).contains(e) {
            assert(element_lt(n.x, e));
        }
    }
    assert forall|e: Element| #[trigger] elements(link(n)).contains(e) && element_lt(
        n.x,
        e,
    ) implies elements(n.right).contains(e) by {
        if elements(n.left).contains(e) {
            assert(element_lt(e, n.x));
        }
    }
    assert forall|e: Element| #[trigger] elements(n.left).contains(e) implies priorities(n.left)[e]
        == priorities(link(n))[e] by {
        assert(element_lt(e, n.x));
        if elements(n.right).contains(e) {
            assert(element_lt(n.x, e));
        }
    }
}

/// The priorities of its elements settle the shape of a treap: two trees
/// that keep both orderings over the same elements with the same priorities
/// are one tree.
pub proof fn lemma_shape_unique(a: Link, b: Link)
    requires
        bst(a),
        heap(a),
        bst(b),
        heap(b),
        priorities(a) == priorities(b),
    ensures
        a == b,
    decreases a,
{
    lemma_root_entry(a);
    lemma_root_entry(b);
    match (a, b) {
        (Some(na), Some(nb)) => {
            let m = priorities(a);
            lemma_heap_all_below(na.left, na.rank());
            lemma_heap_all_below(na.right, na.rank());
            lemma_heap_all_below(nb.left, nb.rank());
            lemma_heap_all_below(nb.right, nb.rank());
            lemma_sides(*na);
            lemma_sides(*nb);
            assert(na.x == nb.x) by {
                if na.x != nb.x {
                    assert(elements(a).contains(nb.x));
                    assert(elements(b).contains(na.x));
                    assert(rank_lt(na.rank(), rank_of(m, nb.x)));
                    assert(rank_lt(nb.rank(), rank_of(m, na.x)));
                }
            }
            assert(na.priority == nb.priority);
            assert(priorities(na.left) =~= priorities(nb.left));
            assert(priorities(na.right) =~= priorities(nb.right));
            lemma_shape_unique(na.left, nb.left);
            lemma_shape_unique(na.right, nb.right);
        },
        (None, None) => {},
        (Some(na), None) => {
            assert(elements(a).contains(na.x));
        },
        (None, Some(nb)) => {
            assert(elements(b).contains(nb.x));
        },
    }
}

} // verus!
