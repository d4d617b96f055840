use treap::data_generator::{Action, DataGenerator};
use treap::treap::Treap;

fn scan(t: &Treap, keys: std::ops::RangeInclusive<u32>) -> usize {
    let mut found = 0;
    for k in keys {
        if t.search(k).is_some() {
            found += 1;
        }
    }
    found
}

#[test]
fn empty_treap_is_valid_and_finds_nothing() {
    let t = Treap::new();
    assert!(t.validate());
    assert_eq!(t.search(0), None);
    assert_eq!(t.search(u32::MAX), None);
    assert_eq!(t.get_depth(7), None);
    assert_eq!(t.get_depths(), Vec::<usize>::new());
}

#[test]
fn concrete_scenario() {
    let mut t = Treap::new();
    t.insert((1, 5));
    assert!(t.validate());
    t.insert((2, 3));
    assert!(t.validate());
    t.insert((3, 8));
    assert!(t.validate());
    assert_eq!(t.search(3), Some((2, 3)));
    assert_eq!(t.search(5), Some((1, 5)));
    assert_eq!(t.search(8), Some((3, 8)));
    assert_eq!(t.search(99), None);

    t.delete(3);
    assert_eq!(t.search(3), None);
    assert!(t.validate());
    assert_eq!(t.search(5), Some((1, 5)));
    assert_eq!(t.search(8), Some((3, 8)));

    let shape = t.get_depths();
    let depth_5 = t.get_depth(5);
    let depth_8 = t.get_depth(8);
    t.delete(3);
    assert!(t.validate());
    assert_eq!(t.get_depths(), shape);
    assert_eq!(t.get_depth(5), depth_5);
    assert_eq!(t.get_depth(8), depth_8);
    assert_eq!(t.search(3), None);
    assert_eq!(t.search(5), Some((1, 5)));
    assert_eq!(t.search(8), Some((3, 8)));
}

#[test]
fn insert_then_search_returns_the_key() {
    let mut t = Treap::new();
    for i in 1..=200u32 {
        let e = (i as u64, i.wrapping_mul(2_654_435_761) % 1000);
        t.insert(e);
        let hit = t.search(e.1);
        assert!(hit.is_some());
        assert_eq!(hit.unwrap().1, e.1);
    }
    assert!(t.validate());
}

#[test]
fn delete_then_search_returns_nothing_for_a_lone_key() {
    let mut t = Treap::new();
    for i in 1..=100u32 {
        t.insert((i as u64, i * 3));
    }
    for i in 1..=100u32 {
        assert_eq!(t.search(i * 3), Some((i as u64, i * 3)));
        t.delete(i * 3);
        assert_eq!(t.search(i * 3), None);
        assert!(t.validate());
    }
    assert_eq!(t.get_depths(), Vec::<usize>::new());
}

#[test]
fn delete_of_a_shared_key_takes_one_element_at_a_time() {
    let mut t = Treap::new();
    t.insert((1, 5));
    t.insert((2, 5));
    t.insert((3, 5));
    assert!(t.validate());
    let first = t.search(5).unwrap();
    assert_eq!(t.get_depth(5), Some(0));
    t.delete(5);
    assert!(t.validate());
    let second = t.search(5).unwrap();
    assert_ne!(first, second);
    t.delete(5);
    let third = t.search(5).unwrap();
    assert_ne!(first, third);
    assert_ne!(second, third);
    t.delete(5);
    assert_eq!(t.search(5), None);
    let mut ids = vec![first.0, second.0, third.0];
    ids.sort();
    assert_eq!(ids, vec![1, 2, 3]);
}

#[test]
fn delete_of_an_absent_key_changes_nothing() {
    let mut t = Treap::new();
    for i in 1..=64u32 {
        t.insert((i as u64, i * 2));
    }
    let shape = t.get_depths();
    let depths: Vec<Option<usize>> = (0..=130).map(|k| t.get_depth(k)).collect();
    for k in [0u32, 1, 3, 127, 129, 1_000_000, u32::MAX] {
        t.delete(k);
        assert!(t.validate());
        assert_eq!(t.get_depths(), shape);
    }
    let after: Vec<Option<usize>> = (0..=130).map(|k| t.get_depth(k)).collect();
    assert_eq!(after, depths);
}

#[test]
fn size_is_conserved() {
    let mut t = Treap::new();
    let n = 300usize;
    for i in 1..=n as u32 {
        t.insert((i as u64, i));
    }
    assert_eq!(scan(&t, 0..=400), n);
    assert_eq!(t.get_depths().len(), n);
    let mut d = 0usize;
    for k in (1..=n as u32).filter(|k| k % 3 == 0) {
        t.delete(k);
        d += 1;
        assert_eq!(scan(&t, 0..=400), n - d);
    }
    assert_eq!(d, 100);
    assert_eq!(scan(&t, 0..=400), 200);
    assert_eq!(t.get_depths().len(), 200);
    assert!(t.validate());
}

#[test]
fn orderings_hold_after_every_step_of_a_random_workload() {
    let mut generator = DataGenerator::new();
    let mut t = Treap::new();
    let mut live = 0usize;
    for step in 0..600 {
        let action = if step % 4 == 3 {
            generator.gen_deletion()
        } else {
            generator.gen_insertion()
        };
        match action {
            Action::Insertion(e) => {
                t.insert(e);
                live += 1;
            }
            Action::Deletion(k) => {
                if t.search(k).is_some() {
                    live -= 1;
                }
                t.delete(k);
            }
            Action::Search(_) => unreachable!(),
        }
        assert!(t.validate());
        assert_eq!(t.get_depths().len(), live);
    }
}

#[test]
fn elements_at_the_ends_of_the_order_are_valid() {
    let mut t = Treap::new();
    t.insert((0, 0));
    t.insert((u64::MAX, u32::MAX));
    t.insert((5, 5));
    assert!(t.validate());
    assert_eq!(t.search(0), Some((0, 0)));
    assert_eq!(t.search(u32::MAX), Some((u64::MAX, u32::MAX)));
    t.delete(0);
    t.delete(u32::MAX);
    assert!(t.validate());
    assert_eq!(t.get_depths(), vec![0]);
}

#[test]
fn depths_of_small_treaps() {
    let mut t = Treap::new();
    t.insert((1, 10));
    assert_eq!(t.get_depths(), vec![0]);
    assert_eq!(t.get_depth(10), Some(0));
    assert_eq!(t.get_depth(11), None);
    t.insert((2, 20));
    assert_eq!(t.get_depths(), vec![0, 1]);
    let a = t.get_depth(10).unwrap();
    let b = t.get_depth(20).unwrap();
    assert_eq!(a + b, 1);
    t.insert((3, 30));
    let mut all = t.get_depths();
    assert_eq!(all[0], 0);
    all.sort();
    assert!(all == vec![0, 1, 1] || all == vec![0, 1, 2]);
    let mut looked_up: Vec<usize> =
        [10, 20, 30].iter().map(|k| t.get_depth(*k).unwrap()).collect();
    looked_up.sort();
    assert_eq!(looked_up, all);
}

fn walk(nodes: &[(u32, usize)], out: &mut Vec<usize>) {
    if nodes.is_empty() {
        return;
    }
    let mut top = 0;
    for i in 0..nodes.len() {
        if nodes[i].1 < nodes[top].1 {
            top = i;
        }
    }
    out.push(nodes[top].1);
    walk(&nodes[top + 1..], out);
    walk(&nodes[..top], out);
}

#[test]
fn depths_list_a_node_then_its_right_subtree_then_its_left() {
    // The nodes of a subtree are those of a run of consecutive keys, the one
    // of least depth at its root: so the depth of each key settles the shape.
    for _ in 0..20 {
        let mut t = Treap::new();
        for k in 1..=60u32 {
            t.insert((k as u64, k));
        }
        let nodes: Vec<(u32, usize)> = (1..=60u32).map(|k| (k, t.get_depth(k).unwrap())).collect();
        let mut expected = Vec::new();
        walk(&nodes, &mut expected);
        assert_eq!(t.get_depths(), expected);
    }
}

#[test]
fn average_depth_is_logarithmic() {
    let trials = 20;
    let n = 1024u32;
    let mut total = 0.0f64;
    for _ in 0..trials {
        let mut t = Treap::new();
        for i in 1..=n {
            t.insert((i as u64, i));
        }
        assert!(t.validate());
        let depths = t.get_depths();
        assert_eq!(depths.len(), n as usize);
        let sum: usize = depths.iter().sum();
        let average = sum as f64 / depths.len() as f64;
        assert!(average > 5.0 && average < 30.0);
        assert!(*depths.iter().max().unwrap() < 200);
        total += average;
    }
    let mean = total / trials as f64;
    assert!(mean >= 8.0 && mean <= 20.0, "mean depth {}", mean);
}

#[test]
fn apply_does_what_the_action_says() {
    let mut t = Treap::new();
    assert_eq!(t.apply(Action::Insertion((1, 5))), None);
    assert_eq!(t.apply(Action::Insertion((2, 3))), None);
    assert_eq!(t.apply(Action::Search(3)), Some((2, 3)));
    assert_eq!(t.apply(Action::Search(4)), None);
    assert_eq!(t.apply(Action::Deletion(3)), None);
    assert_eq!(t.apply(Action::Search(3)), None);
    assert_eq!(t.apply(Action::Search(5)), Some((1, 5)));
    assert_eq!(t.search(5), Some((1, 5)));
    assert_eq!(t.get_depths(), vec![0]);
    assert!(t.validate());
}
