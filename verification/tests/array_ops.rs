use treap::data_generator::Action;
use treap::dynamic_array::DynamicArray;

#[test]
fn dynamic_array_scenario() {
    let mut a = DynamicArray::new();
    a.insert((1, 10));
    a.insert((2, 20));
    a.insert((3, 30));
    a.delete(20);
    assert_eq!(a.search(20), None);
    assert_eq!(a.search(10), Some((1, 10)));
    assert_eq!(a.search(30), Some((3, 30)));
    assert_eq!(a.search(999), None);
    for k in 0..100u32 {
        if k != 10 && k != 30 {
            assert_eq!(a.search(k), None);
        }
    }
}

#[test]
fn empty_array_finds_nothing() {
    let mut a = DynamicArray::new();
    assert_eq!(a.search(0), None);
    a.delete(0);
    assert_eq!(a.search(0), None);
}

#[test]
fn search_returns_the_first_of_several() {
    let mut a = DynamicArray::new();
    a.insert((1, 10));
    a.insert((2, 20));
    a.insert((3, 10));
    a.insert((4, 20));
    assert_eq!(a.search(10), Some((1, 10)));
    assert_eq!(a.search(20), Some((2, 20)));
}

#[test]
fn delete_puts_the_last_element_in_the_gap() {
    let mut a = DynamicArray::new();
    a.insert((1, 10));
    a.insert((2, 20));
    a.insert((3, 10));
    a.insert((4, 20));
    // [1,2,3,4] -> delete key 10 -> [4,2,3]
    a.delete(10);
    assert_eq!(a.search(20), Some((4, 20)));
    assert_eq!(a.search(10), Some((3, 10)));
    // [4,2,3] -> delete key 20 -> [3,2]
    a.delete(20);
    assert_eq!(a.search(20), Some((2, 20)));
    assert_eq!(a.search(10), Some((3, 10)));
    // [3,2] -> delete key 10 -> [2]
    a.delete(10);
    assert_eq!(a.search(10), None);
    assert_eq!(a.search(20), Some((2, 20)));
    a.delete(20);
    assert_eq!(a.search(20), None);
}

#[test]
fn delete_of_an_absent_key_is_a_no_op() {
    let mut a = DynamicArray::new();
    a.insert((1, 10));
    a.insert((2, 20));
    a.insert((3, 10));
    a.delete(15);
    a.delete(0);
    a.delete(u32::MAX);
    assert_eq!(a.search(10), Some((1, 10)));
    assert_eq!(a.search(20), Some((2, 20)));
    a.delete(10);
    assert_eq!(a.search(10), Some((3, 10)));
}

#[test]
fn array_grows_and_shrinks_and_grows_again() {
    let mut a = DynamicArray::new();
    for round in 0..3u64 {
        for i in 1..=1000u32 {
            a.insert((round * 1000 + i as u64, i));
        }
        for i in 1..=1000u32 {
            assert_eq!(a.search(i).map(|e| e.1), Some(i));
        }
        for i in 1..=1000u32 {
            a.delete(i);
            assert_eq!(a.search(i), None);
        }
        for i in 1..=1000u32 {
            assert_eq!(a.search(i), None);
        }
    }
    a.insert((7, 7));
    assert_eq!(a.search(7), Some((7, 7)));
}

#[test]
fn array_keeps_what_the_treap_keeps() {
    let mut a = DynamicArray::new();
    let mut t = treap::treap::Treap::new();
    for i in 1..=500u32 {
        let e = (i as u64, (i * 7919) % 1009);
        a.insert(e);
        t.insert(e);
    }
    for k in (0..1009u32).step_by(3) {
        a.delete(k);
        t.delete(k);
    }
    for k in 0..1009u32 {
        assert_eq!(a.search(k).is_some(), t.search(k).is_some());
    }
}

#[test]
fn array_apply_does_what_the_action_says() {
    let mut a = DynamicArray::new();
    assert_eq!(a.apply(Action::Insertion((1, 5))), None);
    assert_eq!(a.apply(Action::Insertion((2, 3))), None);
    assert_eq!(a.apply(Action::Search(3)), Some((2, 3)));
    assert_eq!(a.apply(Action::Search(4)), None);
    assert_eq!(a.apply(Action::Deletion(3)), None);
    assert_eq!(a.apply(Action::Search(3)), None);
    assert_eq!(a.apply(Action::Search(5)), Some((1, 5)));
    assert_eq!(a.search(5), Some((1, 5)));
}
