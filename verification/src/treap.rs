//! The treap: a binary search tree on `(key, id)` whose nodes also form a heap
//! on `(priority, key, id)`, the smallest rank at the root.

use vstd::prelude::*;
use crate::{Element, Key, Rank};
use crate::data_generator::Action;
use crate::lemmas::{lemma_depth_of, lemma_find, lemma_heap_all_below, lemma_inserted_below,
    lemma_leaf, lemma_repair, lemma_replace_left, lemma_replace_right, lemma_rotated_left,
    lemma_rotated_right, lemma_size, lemma_sink_step};
use crate::model::{all_depths, applied, as_nats, bst, depth_of, elements, find, first_match, has_key, heap,
    height, inserted, link, priorities, sinking, size, treap, within, without};
use crate::order::{element_before, element_lt, rank_before, rank_lt};
use crate::random::random_10_7;

verus! {

/// A node owns its element, its priority and its two subtrees.
pub struct Node {
    pub x: Element,
    pub priority: u32,
    pub left: Option<Box<Node>>,
    pub right: Option<Box<Node>>,
}

/// A subtree, or the empty place where one may hang.
pub type Link = Option<Box<Node>>;

/// What one local repair step did to a node.
pub enum RotateResult {
    /// Nothing moved.
    Same,
    /// The right child was promoted; the node is now its left child.
    Left,
    /// The left child was promoted; the node is now its right child.
    Right,
}

/// The node that stands where `n` stood once its right child is promoted.
pub open spec fn rotated_left(n: Node) -> Node
    recommends
        n.right is Some,
{
    let r = *n.right.unwrap();
    Node {
        x: r.x,
        priority: r.priority,
        left: Some(Box::new(Node { x: n.x, priority: n.priority, left: n.left, right: r.left })),
        right: r.right,
    }
}

/// The node that stands where `n` stood once its left child is promoted.
pub open spec fn rotated_right(n: Node) -> Node
    recommends
        n.left is Some,
{
    let l = *n.left.unwrap();
    Node {
        x: l.x,
        priority: l.priority,
        left: l.left,
        right: Some(Box::new(Node { x: n.x, priority: n.priority, left: l.right, right: n.right })),
    }
}

/// The repair step that `rotate` takes at `n`: with two children, none if `n`
/// ranks above both, else the promotion of the child that ranks above the
/// other; with one child, its promotion if it ranks above `n`.
pub open spec fn rotation(n: Node) -> RotateResult {
    match (n.left, n.right) {
        (Some(l), Some(r)) => {
            if rank_lt(n.rank(), r.rank()) && rank_lt(n.rank(), l.rank()) {
                RotateResult::Same
            } else if rank_lt(l.rank(), r.rank()) {
                RotateResult::Right
            } else {
                RotateResult::Left
            }
        },
        (Some(l), None) => {
            if rank_lt(l.rank(), n.rank()) {
                RotateResult::Right
            } else {
                RotateResult::Same
            }
        },
        (None, Some(r)) => {
            if rank_lt(r.rank(), n.rank()) {
                RotateResult::Left
            } else {
                RotateResult::Same
            }
        },
        (None, None) => RotateResult::Same,
    }
}

/// The node that stands where `n` stood after the repair step `step`.
pub open spec fn rotated(n: Node, step: RotateResult) -> Node {
    match step {
        RotateResult::Same => n,
        RotateResult::Left => rotated_left(n),
        RotateResult::Right => rotated_right(n),
    }
}

impl Node {
    /// The rank by which the heap orders this node.
    pub open spec fn rank(self) -> Rank {
        (self.priority, self.x.1, self.x.0)
    }

    /// One local repair step: promotes a child that ranks above this node, if
    /// there is one, and says which way the node went.
    pub fn rotate(&mut self) -> (res: RotateResult)
        ensures
            res == rotation(*old(self)),
            *final(self) == rotated(*old(self), res),
    {
        match (&self.left, &self.right) {
            (Some(left), Some(right)) => {
                if rank_before(self.get_priority(), right.get_priority())
                    && rank_before(self.get_priority(), left.get_priority())
                {
                    RotateResult::Same
                } else if rank_before(left.get_priority(), right.get_priority()) {
                    self.rotate_right();
                    RotateResult::Right
                } else {
                    self.rotate_left();
                    RotateResult::Left
                }
            },
            (Some(left), None) => {
                if rank_before(left.get_priority(), self.get_priority()) {
                    self.rotate_right();
                    RotateResult::Right
                } else {
                    RotateResult::Same
                }
            },
            (None, Some(right)) => {
                if rank_before(right.get_priority(), self.get_priority()) {
                    self.rotate_left();
                    RotateResult::Left
                } else {
                    RotateResult::Same
                }
            },
            _ => RotateResult::Same,
        }
    }

    /// Promotes the right child above this node.
    pub fn rotate_left(&mut self)
        requires
            old(self).right is Some,
        ensures
            *final(self) == rotated_left(*old(self)),
    {
        let mut right = *self.right.take().unwrap();
        std::mem::swap(&mut right, self);
        let mut prev_self = right;
        prev_self.right = self.left.take();
        self.left = Some(Box::new(prev_self));
    }

    /// Promotes the left child above this node.
    pub fn rotate_right(&mut self)
        requires
            old(self).left is Some,
        ensures
            *final(self) == rotated_right(*old(self)),
    {
        let mut left = *self.left.take().unwrap();
        std::mem::swap(&mut left, self);
        let mut prev_self = left;
        prev_self.left = self.right.take();
        self.right = Some(Box::new(prev_self));
    }

    /// Puts `x` below this node, in a new leaf with a fresh random priority,
    /// and repairs the heap order on the way back up. Says whether the root
    /// of this subtree changed, in which case the caller has to repair too.
    pub fn insert(&mut self, x: Element) -> (rotated: bool)
        requires
            treap(link(*old(self))),
            !elements(link(*old(self))).contains(x),
        ensures
            treap(link(*final(self))),
            inserted(priorities(link(*old(self))), priorities(link(*final(self))), x),
            rotated <==> final(self).x == x,
            !rotated ==> final(self).x == old(self).x,
            !rotated ==> final(self).priority == old(self).priority,
        decreases *old(self),
    {
        let ghost pre = *self;
        let need_rotate = if element_before(self.x, x) {
            if let Some(right) = &mut self.right {
                right.insert(x)
            } else {
                let leaf = Node { x, priority: random_10_7(), left: None, right: None };
                proof {
                    lemma_leaf(leaf);
                }
                self.right = Some(Box::new(leaf));
                true
            }
        } else {
            if let Some(left) = &mut self.left {
                left.insert(x)
            } else {
                let leaf = Node { x, priority: random_10_7(), left: None, right: None };
                proof {
                    lemma_leaf(leaf);
                }
                self.left = Some(Box::new(leaf));
                true
            }
        };
        let ghost mid = *self;
        proof {
            lemma_inserted_below(pre, mid, x);
        }
        if need_rotate {
            let step = self.rotate();
            proof {
                lemma_repair(mid, x);
                match step {
                    RotateResult::Same => {},
                    RotateResult::Left => lemma_rotated_left(mid),
                    RotateResult::Right => lemma_rotated_right(mid),
                }
            }
            !matches!(step, RotateResult::Same)
        } else {
            false
        }
    }

    /// The rank by which the heap orders this node.
    pub fn get_priority(&self) -> (r: Rank)
        ensures
            r == self.rank(),
    {
        (self.priority, self.x.1, self.x.0)
    }

    /// Checks the heap ordering at this node and below it.
    pub fn validate_heap(&self) -> (ok: bool)
        ensures
            ok == heap(link(*self)),
        decreases *self,
    {
        proof {
            reveal_with_fuel(heap, 2);
        }
        let mut ok = true;
        if let Some(n) = &self.left {
            ok = ok && rank_before(self.get_priority(), n.get_priority()) && n.validate_heap();
        }
        if let Some(n) = &self.right {
            ok = ok && rank_before(self.get_priority(), n.get_priority()) && n.validate_heap();
        }
        ok
    }

    /// Checks the search-tree ordering at this node and below it, and that
    /// every element lies strictly between `min` and `max`, where given.
    pub fn validate_bst(&self, min: Option<Element>, max: Option<Element>) -> (ok: bool)
        ensures
            ok == (bst(link(*self)) && within(link(*self), min, max)),
        decreases *self,
    {
        let mut ok = true;
        if let Some(lo) = min {
            ok = ok && element_before(lo, self.x);
        }
        if let Some(hi) = max {
            ok = ok && element_before(self.x, hi);
        }
        if let Some(n) = &self.left {
            ok = ok && n.validate_bst(min, Some(self.x));
        }
        if let Some(n) = &self.right {
            ok = ok && n.validate_bst(Some(self.x), max);
        }
        proof {
            lemma_within(*self, min, max);
        }
        ok
    }

    /// Appends the depth of every node at and below this one, which is at
    /// depth `depth`: this node first, then the right subtree, then the left.
    fn traverse(&self, depth: usize, depths: &mut Vec<usize>)
        requires
            depth + height(link(*self)) <= usize::MAX + 1,
        ensures
            as_nats(final(depths)@) == as_nats(old(depths)@) + all_depths(
                link(*self),
                depth as nat,
            ),
        decreases *self,
    {
        proof {
            reveal_with_fuel(height, 2);
            reveal_with_fuel(all_depths, 2);
        }
        depths.push(depth);
        assert(as_nats(depths@) =~= as_nats(old(depths)@) + seq![depth as nat]);
        if let Some(node) = &self.right {
            node.traverse(depth + 1, depths);
        }
        let ghost with_right = as_nats(old(depths)@) + seq![depth as nat] + all_depths(
            self.right,
            depth as nat + 1,
        );
        assert(as_nats(depths@) =~= with_right);
        if let Some(node) = &self.left {
            node.traverse(depth + 1, depths);
        }
        assert(as_nats(depths@) =~= with_right + all_depths(self.left, depth as nat + 1));
        assert(as_nats(depths@) =~= as_nats(old(depths)@) + all_depths(
            link(*self),
            depth as nat,
        ));
    }
}

/// The ordering that `validate_bst` checks at a node follows from, and
/// gives, what it checks of the node's element and of the two subtrees.
proof fn lemma_within(n: Node, min: Option<Element>, max: Option<Element>)
    ensures
        (bst(link(n)) && within(link(n), min, max)) <==> {
            &&& min matches Some(lo) ==> element_lt(lo, n.x)
            &&& max matches Some(hi) ==> element_lt(n.x, hi)
            &&& n.left is Some ==> bst(n.left) && within(n.left, min, Some(n.x))
            &&& n.right is Some ==> bst(n.right) && within(n.right, Some(n.x), max)
        },
{
    reveal_with_fuel(bst, 2);
    reveal_with_fuel(priorities, 2);
    let t = link(n);
    assert(elements(t).contains(n.x));
    if bst(t) && within(t, min, max) {
        assert(within(n.left, min, Some(n.x))) by {
            assert forall|e: Element| #[trigger] elements(n.left).contains(e) implies (min matches Some(
                lo,
            ) ==> element_lt(lo, e)) && element_lt(e, n.x) by {
                assert(elements(t).contains(e));
            }
        }
        assert(within(n.right, Some(n.x), max)) by {
            assert forall|e: Element| #[trigger] elements(n.right).contains(e) implies (max matches Some(
                hi,
            ) ==> element_lt(e, hi)) && element_lt(n.x, e) by {
                assert(elements(t).contains(e));
            }
        }
    }
    if (min matches Some(lo) ==> element_lt(lo, n.x)) && (max matches Some(hi) ==> element_lt(
        n.x,
        hi,
    )) && (n.left is Some ==> bst(n.left) && within(n.left, min, Some(n.x))) && (n.right is Some
        ==> bst(n.right) && within(n.right, Some(n.x), max)) {
        assert(within(t, min, max)) by {
            assert forall|e: Element| #[trigger] elements(t).contains(e) implies (min matches Some(
                lo,
            ) ==> element_lt(lo, e)) && (max matches Some(hi) ==> element_lt(e, hi)) by {
                if e == n.x {
                } else if elements(n.right).contains(e) {
                } else {
                    assert(elements(n.left).contains(e));
                }
            }
        }
        assert(bst(t));
    }
}

/// Takes the root out of `*t`: rotates it down, each time below the child of
/// higher rank, until it is a leaf, and drops it there.
fn sink(t: &mut Link)
    requires
        *old(t) matches Some(n) && sinking(*n),
    ensures
        treap(*final(t)),
        priorities(*final(t)) == priorities(*old(t)).remove(old(t).unwrap().x),
    decreases size(*old(t)),
{
    let ghost n = *old(t).unwrap();
    proof {
        lemma_sink_step(n);
    }
    if let Some(node) = t {
        match node.rotate() {
            RotateResult::Same => {
                *t = None;
                assert(priorities(*t) =~= priorities(*old(t)).remove(n.x));
            },
            RotateResult::Left => {
                let ghost m = **node;
                sink(&mut node.left);
                proof {
                    lemma_replace_left(m, **node, n.x);
                }
            },
            RotateResult::Right => {
                let ghost m = **node;
                sink(&mut node.right);
                proof {
                    lemma_replace_right(m, **node, n.x);
                }
            },
        }
    }
}

/// Removes from `*t` the element that a descent for `k` meets first, if it
/// meets one.
fn delete_at(t: &mut Link, k: Key)
    requires
        treap(*old(t)),
    ensures
        treap(*final(t)),
        priorities(*final(t)) == without(priorities(*old(t)), find(*old(t), k)),
        find(*old(t), k) is None ==> *final(t) == *old(t),
    decreases *old(t),
{
    if let Some(node) = t {
        let ghost pre = **node;
        proof {
            lemma_heap_all_below(pre.left, pre.rank());
            lemma_heap_all_below(pre.right, pre.rank());
            lemma_find(pre.left, k);
            lemma_find(pre.right, k);
        }
        if k < node.x.1 {
            delete_at(&mut node.left, k);
            proof {
                if let Some(e) = find(pre.left, k) {
                    lemma_replace_left(pre, **node, e);
                }
            }
        } else if node.x.1 < k {
            delete_at(&mut node.right, k);
            proof {
                if let Some(e) = find(pre.right, k) {
                    lemma_replace_right(pre, **node, e);
                }
            }
        } else {
            node.priority = u32::MAX;
            sink(t);
        }
    }
}

/// A treap. Its elements are pairwise distinct; several may share a key.
pub struct Treap {
    root: Link,
}

impl View for Treap {
    type V = Map<Element, u32>;

    /// The priority of every element held.
    open spec fn view(&self) -> Map<Element, u32> {
        priorities(self.tree())
    }
}

impl Treap {
    /// The tree as it stands: which node hangs where.
    pub closed spec fn tree(self) -> Link {
        self.root
    }

    #[verifier::type_invariant]
    spec fn well_formed(self) -> bool {
        treap(self.root)
    }

    /// Both orderings hold throughout the tree, and the priorities are
    /// within bounds.
    pub open spec fn is_valid(self) -> bool {
        treap(self.tree())
    }

    /// The empty treap.
    pub fn new() -> (t: Self)
        ensures
            t.tree() is None,
            t@ == Map::<Element, u32>::empty(),
            t.is_valid(),
    {
        Self { root: None }
    }

    /// Adds `x` under a fresh random priority.
    pub fn insert(&mut self, x: Element)
        requires
            !old(self)@.dom().contains(x),
        ensures
            final(self).is_valid(),
            inserted(old(self)@, final(self)@, x),
    {
        proof {
            use_type_invariant(&*self);
        }
        let mut root: Link = None;
        std::mem::swap(&mut root, &mut self.root);
        if let Some(node) = &mut root {
            node.insert(x);
        } else {
            let leaf = Node { x, priority: random_10_7(), left: None, right: None };
            proof {
                lemma_leaf(leaf);
            }
            root = Some(Box::new(leaf));
        }
        self.root = root;
    }

    /// Removes the element that is first with the key `k`, if there is one:
    /// the target is made to rank below everything, rotated down to a leaf
    /// and dropped. Where no element has the key, the tree stays as it is.
    pub fn delete(&mut self, k: Key)
        ensures
            final(self).is_valid(),
            final(self)@ == without(old(self)@, first_match(old(self)@, k)),
            first_match(old(self)@, k) is None ==> final(self).tree() == old(self).tree(),
    {
        proof {
            use_type_invariant(&*self);
            lemma_find(self.root, k);
        }
        let mut root: Link = None;
        std::mem::swap(&mut root, &mut self.root);
        delete_at(&mut root, k);
        self.root = root;
    }

    /// The element that is first with the key `k`, if any has it.
    pub fn search(&self, k: Key) -> (r: Option<Element>)
        ensures
            r == first_match(self@, k),
    {
        proof {
            use_type_invariant(self);
            lemma_find(self.root, k);
        }
        let mut node = &self.root;
        while node.is_some()
            invariant
                find(*node, k) == find(self.root, k),
                find(self.root, k) == first_match(self@, k),
            decreases *node,
        {
            let n = node.as_ref().unwrap();
            if k < n.x.1 {
                node = &n.left;
            } else if n.x.1 < k {
                node = &n.right;
            } else {
                return Some(n.x);
            }
        }
        None
    }

    /// The depth of every node, the root being at depth 0: a node before
    /// its subtrees, the right subtree before the left.
    pub fn get_depths(&self) -> (r: Vec<usize>)
        requires
            self@.dom().len() <= usize::MAX,
        ensures
            as_nats(r@) == all_depths(self.tree(), 0),
    {
        proof {
            use_type_invariant(self);
            lemma_size(self.root);
        }
        let mut depths = Vec::new();
        if let Some(root) = &self.root {
            root.traverse(0, &mut depths);
        }
        assert(as_nats(depths@) =~= all_depths(self.root, 0));
        depths
    }

    /// The depth of the element that is first with the key `k`, if any has
    /// it, the root being at depth 0.
    pub fn get_depth(&self, k: Key) -> (r: Option<usize>)
        requires
            self@.dom().len() <= usize::MAX,
        ensures
            r is Some <==> has_key(self@, k),
            match r {
                Some(d) => depth_of(self.tree(), k) == Some(d as nat),
                None => depth_of(self.tree(), k) is None,
            },
    {
        proof {
            use_type_invariant(self);
            lemma_size(self.root);
            lemma_find(self.root, k);
            lemma_depth_of(self.root, k);
        }
        let mut depth: usize = 0;
        let mut node = &self.root;
        while node.is_some()
            invariant
                depth + height(*node) <= usize::MAX,
                depth_of(self.root, k) is Some <==> has_key(self@, k),
                match depth_of(*node, k) {
                    Some(d) => depth_of(self.root, k) == Some((d + depth) as nat),
                    None => depth_of(self.root, k) is None,
                },
            decreases *node,
        {
            let n = node.as_ref().unwrap();
            if k < n.x.1 {
                node = &n.left;
            } else if n.x.1 < k {
                node = &n.right;
            } else {
                return Some(depth);
            }
            depth += 1;
        }
        None
    }

    /// Checks both orderings over the whole tree. They always hold.
    pub fn validate(&self) -> (ok: bool)
        ensures
            ok == (bst(self.tree()) && heap(self.tree())),
            ok,
            self.is_valid(),
    {
        proof {
            use_type_invariant(self);
        }
        if let Some(n) = &self.root {
            let heap_ok = n.validate_heap();
            let bst_ok = n.validate_bst(None, None);
            heap_ok && bst_ok
        } else {
            true
        }
    }

    /// Does one action of a workload, and returns what a search found.
    pub fn apply(&mut self, action: Action) -> (found: Option<Element>)
        requires
            action matches Action::Insertion(x) ==> !old(self)@.dom().contains(x),
        ensures
            final(self).is_valid(),
            applied(old(self)@, action, final(self)@),
            action is Search ==> final(self).tree() == old(self).tree(),
            found == match action {
                Action::Search(k) => first_match(old(self)@, k),
                _ => None,
            },
    {
        match action {
            Action::Insertion(e) => {
                self.insert(e);
                None
            },
            Action::Deletion(k) => {
                self.delete(k);
                None
            },
            Action::Search(k) => {
                proof {
                    use_type_invariant(&*self);
                }
                self.search(k)
            },
        }
    }
}

} // verus!
