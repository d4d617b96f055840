use treap::treap::{Node, RotateResult};

fn leaf(priority: u32) -> Option<Box<Node>> {
    Some(Box::new(Node { x: (0, 1), priority, left: None, right: None }))
}

#[test]
fn test_node() {
    let mut node = Node {
        x: (0, 1),
        priority: 3,
        left: Some(Box::new(Node { x: (0, 1), priority: 2, left: leaf(5), right: leaf(6) })),
        right: leaf(4),
    };
    assert!(matches!(node.rotate(), RotateResult::Right));
    assert_eq!(node.priority, 2);
    assert_eq!(node.left.as_ref().unwrap().priority, 5);
    assert_eq!(node.right.as_ref().unwrap().priority, 3);
    assert_eq!(node.right.as_ref().unwrap().right.as_ref().unwrap().priority, 4);
    assert_eq!(node.right.as_ref().unwrap().left.as_ref().unwrap().priority, 6);

    node.left.as_mut().unwrap().priority = 1;
    node.rotate();
    assert_eq!(node.priority, 1);
    assert_eq!(node.right.as_ref().unwrap().priority, 2);
    assert_eq!(node.right.as_ref().unwrap().right.as_ref().unwrap().priority, 3);
    assert_eq!(
        node.right.as_ref().unwrap().right.as_ref().unwrap().right.as_ref().unwrap().priority,
        4
    );
    assert_eq!(
        node.right.as_ref().unwrap().right.as_ref().unwrap().left.as_ref().unwrap().priority,
        6
    );
}
