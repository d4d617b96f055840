use treap::order::{element_before, rank_before};
use treap::treap::{Node, RotateResult};

fn node(id: u64, key: u32, priority: u32, left: Option<Node>, right: Option<Node>) -> Node {
    Node { x: (id, key), priority, left: left.map(Box::new), right: right.map(Box::new) }
}

fn shape(n: &Option<Box<Node>>) -> String {
    match n {
        None => String::from("-"),
        Some(n) => format!("({} {}:{}/{} {})", shape(&n.left), n.x.0, n.x.1, n.priority, shape(&n.right)),
    }
}

fn shape_of(n: Node) -> String {
    shape(&Some(Box::new(n)))
}

#[test]
fn elements_are_ordered_by_key_then_id() {
    assert!(element_before((9, 1), (1, 2)));
    assert!(!element_before((1, 2), (9, 1)));
    assert!(element_before((1, 5), (2, 5)));
    assert!(!element_before((2, 5), (1, 5)));
    assert!(!element_before((3, 5), (3, 5)));
    assert!(element_before((0, 0), (u64::MAX, u32::MAX)));
}

#[test]
fn ranks_are_ordered_by_priority_then_key_then_id() {
    assert!(rank_before((1, 9, 9), (2, 0, 0)));
    assert!(!rank_before((2, 0, 0), (1, 9, 9)));
    assert!(rank_before((4, 1, 9), (4, 2, 0)));
    assert!(!rank_before((4, 2, 0), (4, 1, 9)));
    assert!(rank_before((4, 2, 7), (4, 2, 8)));
    assert!(!rank_before((4, 2, 8), (4, 2, 7)));
    assert!(!rank_before((4, 2, 8), (4, 2, 8)));
}

#[test]
fn get_priority_is_priority_key_id() {
    let n = node(11, 22, 33, None, None);
    assert_eq!(n.get_priority(), (33, 22, 11));
}

#[test]
fn rotate_left_promotes_the_right_child() {
    let mut n = node(
        2,
        20,
        9,
        Some(node(1, 10, 11, None, None)),
        Some(node(4, 40, 5, Some(node(3, 30, 12, None, None)), Some(node(5, 50, 13, None, None)))),
    );
    n.rotate_left();
    assert_eq!(
        shape_of(n),
        "(((- 1:10/11 -) 2:20/9 (- 3:30/12 -)) 4:40/5 (- 5:50/13 -))"
    );
}

#[test]
fn rotate_right_promotes_the_left_child() {
    let mut n = node(
        4,
        40,
        9,
        Some(node(2, 20, 5, Some(node(1, 10, 12, None, None)), Some(node(3, 30, 13, None, None)))),
        Some(node(5, 50, 11, None, None)),
    );
    n.rotate_right();
    assert_eq!(
        shape_of(n),
        "((- 1:10/12 -) 2:20/5 ((- 3:30/13 -) 4:40/9 (- 5:50/11 -)))"
    );
}

#[test]
fn rotate_leaves_a_heap_ordered_node_alone() {
    let mut n = node(2, 20, 1, Some(node(1, 10, 2, None, None)), Some(node(3, 30, 3, None, None)));
    assert!(matches!(n.rotate(), RotateResult::Same));
    assert_eq!(shape_of(n), "((- 1:10/2 -) 2:20/1 (- 3:30/3 -))");

    let mut leaf = node(1, 1, 7, None, None);
    assert!(matches!(leaf.rotate(), RotateResult::Same));
    assert_eq!(shape_of(leaf), "(- 1:1/7 -)");

    let mut left_only = node(2, 20, 1, Some(node(1, 10, 2, None, None)), None);
    assert!(matches!(left_only.rotate(), RotateResult::Same));
    let mut right_only = node(2, 20, 1, None, Some(node(3, 30, 2, None, None)));
    assert!(matches!(right_only.rotate(), RotateResult::Same));
}

#[test]
fn rotate_promotes_the_child_of_higher_rank() {
    let mut both = node(2, 20, 9, Some(node(1, 10, 4, None, None)), Some(node(3, 30, 3, None, None)));
    assert!(matches!(both.rotate(), RotateResult::Left));
    assert_eq!(shape_of(both), "(((- 1:10/4 -) 2:20/9 -) 3:30/3 -)");

    let mut both = node(2, 20, 9, Some(node(1, 10, 3, None, None)), Some(node(3, 30, 4, None, None)));
    assert!(matches!(both.rotate(), RotateResult::Right));
    assert_eq!(shape_of(both), "(- 1:10/3 (- 2:20/9 (- 3:30/4 -)))");

    let mut left_only = node(2, 20, 9, Some(node(1, 10, 3, None, None)), None);
    assert!(matches!(left_only.rotate(), RotateResult::Right));
    assert_eq!(shape_of(left_only), "(- 1:10/3 (- 2:20/9 -))");

    let mut right_only = node(2, 20, 9, None, Some(node(3, 30, 3, None, None)));
    assert!(matches!(right_only.rotate(), RotateResult::Left));
    assert_eq!(shape_of(right_only), "((- 2:20/9 -) 3:30/3 -)");
}

#[test]
fn rotate_breaks_equal_priorities_by_key_then_id() {
    // the left child has the node's priority and a smaller key: it ranks above
    let mut n = node(2, 20, 5, Some(node(1, 10, 5, None, None)), None);
    assert!(matches!(n.rotate(), RotateResult::Right));
    // the right child has the node's priority and a larger key: it ranks below
    let mut n = node(2, 20, 5, None, Some(node(3, 30, 5, None, None)));
    assert!(matches!(n.rotate(), RotateResult::Same));
    // same priority and key, larger id: it ranks below
    let mut n = node(2, 20, 5, None, Some(node(3, 20, 5, None, None)));
    assert!(matches!(n.rotate(), RotateResult::Same));
}

#[test]
fn validate_heap_finds_a_child_above_its_parent() {
    let good = node(2, 20, 1, Some(node(1, 10, 2, None, None)), Some(node(3, 30, 3, None, None)));
    assert!(good.validate_heap());
    let bad_left = node(2, 20, 5, Some(node(1, 10, 2, None, None)), Some(node(3, 30, 6, None, None)));
    assert!(!bad_left.validate_heap());
    let bad_right = node(2, 20, 5, Some(node(1, 10, 7, None, None)), Some(node(3, 30, 4, None, None)));
    assert!(!bad_right.validate_heap());
    let bad_deep = node(
        4,
        40,
        1,
        Some(node(2, 20, 5, None, Some(node(3, 30, 4, None, None)))),
        None,
    );
    assert!(!bad_deep.validate_heap());
    let same_rank = node(2, 20, 5, Some(node(2, 20, 5, None, None)), None);
    assert!(!same_rank.validate_heap());
}

#[test]
fn validate_bst_finds_an_element_out_of_place() {
    let good = node(2, 20, 1, Some(node(1, 10, 2, None, None)), Some(node(3, 30, 3, None, None)));
    assert!(good.validate_bst(None, None));
    assert!(good.validate_bst(Some((0, 10)), Some((4, 30))));
    assert!(!good.validate_bst(Some((1, 10)), None));
    assert!(!good.validate_bst(None, Some((3, 30))));
    assert!(!good.validate_bst(Some((0, 25)), None));

    let swapped = node(2, 20, 1, Some(node(3, 30, 2, None, None)), Some(node(1, 10, 3, None, None)));
    assert!(!swapped.validate_bst(None, None));
    let twice = node(2, 20, 1, Some(node(2, 20, 2, None, None)), None);
    assert!(!twice.validate_bst(None, None));
    // 35 is after 20, as a right child must be, but not before 30 above it
    let deep = node(
        3,
        30,
        1,
        Some(node(2, 20, 2, None, Some(node(9, 35, 3, None, None)))),
        None,
    );
    assert!(!deep.validate_bst(None, None));
    let by_id = node(2, 20, 1, Some(node(1, 20, 2, None, None)), Some(node(3, 20, 3, None, None)));
    assert!(by_id.validate_bst(None, None));
    let ends = node(0, 0, 1, None, Some(node(u64::MAX, u32::MAX, 2, None, None)));
    assert!(ends.validate_bst(None, None));
}

#[test]
fn node_insert_keeps_both_orderings() {
    let mut root = node(50, 500, 0, None, None);
    for i in 1..=40u32 {
        let rotated = root.insert((i as u64, i * 25));
        // nothing ranks above priority 0, key 500 but a priority 0 with a
        // smaller key
        if root.x != (50, 500) {
            assert!(rotated);
            assert_eq!(root.priority, 0);
            assert!(root.x.1 < 500);
            break;
        }
        assert!(!rotated);
        assert!(root.validate_heap());
        assert!(root.validate_bst(None, None));
    }
    assert!(root.validate_heap());
    assert!(root.validate_bst(None, None));
}
