use tree_collections::{BinarySearchTree, TreeMap, TreeSet};

fn sample() -> BinarySearchTree<i32, char> {
    let mut tree = BinarySearchTree::new();
    for (k, v) in [(4, 'd'), (2, 'b'), (6, 'f'), (1, 'a'), (3, 'c'), (5, 'e'), (7, 'g')] {
        tree.insert(k, v);
    }
    tree
}

#[test]
fn cursor_yields_one_entry_per_step() {
    let tree = sample();
    let mut cursor = tree.iter();
    assert_eq!(Some((&1, &'a')), cursor.next());
    assert_eq!(Some((&2, &'b')), cursor.next());
    assert_eq!(Some((&3, &'c')), cursor.next());
    assert_eq!(Some((&4, &'d')), cursor.next());
    assert_eq!(Some((&5, &'e')), cursor.next());
    assert_eq!(Some((&6, &'f')), cursor.next());
    assert_eq!(Some((&7, &'g')), cursor.next());
    assert_eq!(None, cursor.next());
}

#[test]
fn exhausted_cursor_stays_exhausted() {
    let tree = sample();
    let mut cursor = tree.iter();
    while cursor.next().is_some() {}
    assert_eq!(None, cursor.next());
    assert_eq!(None, cursor.next());
    let mut keys = tree.keys();
    while keys.next().is_some() {}
    assert_eq!(None, keys.next());
    let mut values = tree.values();
    while values.next().is_some() {}
    assert_eq!(None, values.next());
}

#[test]
fn cursor_on_an_empty_tree_yields_nothing() {
    let tree: BinarySearchTree<u8, u8> = BinarySearchTree::new();
    let mut cursor = tree.iter();
    assert_eq!(None, cursor.next());
    assert_eq!(None, cursor.next());
    assert_eq!(None, tree.keys().next());
    assert_eq!(None, tree.values().next());
}

#[test]
fn cursors_can_be_restarted_and_run_side_by_side() {
    let tree = sample();
    let first: Vec<(i32, char)> = tree.iter().map(|(k, v)| (*k, *v)).collect();
    let second: Vec<(i32, char)> = tree.iter().map(|(k, v)| (*k, *v)).collect();
    assert_eq!(first, second);

    let mut a = tree.iter();
    let mut b = tree.iter();
    assert_eq!(Some((&1, &'a')), a.next());
    assert_eq!(Some((&2, &'b')), a.next());
    assert_eq!(Some((&1, &'a')), b.next());
    assert_eq!(Some((&3, &'c')), a.next());
    assert_eq!(Some((&2, &'b')), b.next());
}

#[test]
fn keys_and_values_cursors_step_in_key_order() {
    let tree = sample();
    let mut keys = tree.keys();
    assert_eq!(Some(&1), keys.next());
    assert_eq!(Some(&2), keys.next());
    let mut values = tree.values();
    assert_eq!(Some(&'a'), values.next());
    assert_eq!(Some(&'b'), values.next());
    assert_eq!(vec![&3, &4, &5, &6, &7], keys.collect::<Vec<&i32>>());
    assert_eq!(vec![&'c', &'d', &'e', &'f', &'g'], values.collect::<Vec<&char>>());
}

#[test]
fn cursor_walks_right_subtrees_with_left_spines() {
    let mut tree = BinarySearchTree::new();
    for k in [10, 20, 15, 12, 11, 13, 18, 30, 25] {
        tree.insert(k, ());
    }
    assert_eq!(
        vec![10, 11, 12, 13, 15, 18, 20, 25, 30],
        tree.keys().copied().collect::<Vec<i32>>()
    );
}

#[test]
fn a_prefix_can_be_taken_from_a_large_tree() {
    let mut tree = BinarySearchTree::new();
    let n: u64 = 200_000;
    let mut x: u64 = 1;
    for _ in 0..n {
        x = (x * 48271) % 2147483647;
        tree.insert(x, ());
    }
    assert_eq!(n as usize, tree.size());
    let mut smallest: Vec<u64> = Vec::new();
    let mut cursor = tree.keys();
    for _ in 0..3 {
        smallest.push(*cursor.next().unwrap());
    }
    assert!(smallest[0] < smallest[1] && smallest[1] < smallest[2]);
    assert!(tree.search(&smallest[0]).is_some());
    let below: usize = tree.keys().take_while(|k| **k < smallest[2]).count();
    assert_eq!(2, below);
}

#[test]
fn a_prefix_of_a_chain_is_its_smallest_keys() {
    let mut tree = BinarySearchTree::new();
    for k in (0..3000u32).rev() {
        tree.insert(k, ());
    }
    let first: Vec<u32> = tree.keys().take(5).copied().collect();
    assert_eq!(vec![0, 1, 2, 3, 4], first);
    let mut right_chain = BinarySearchTree::new();
    for k in 0..3000u32 {
        right_chain.insert(k, ());
    }
    let first: Vec<u32> = right_chain.keys().take(5).copied().collect();
    assert_eq!(vec![0, 1, 2, 3, 4], first);
}

#[test]
fn map_and_set_cursors_agree_with_the_tree() {
    let mut map = TreeMap::new();
    let mut set = TreeSet::new();
    let mut tree = BinarySearchTree::new();
    for k in [8, 3, 10, 1, 6, 14, 4, 7, 13] {
        map.put(k, k * 3);
        set.add(k);
        tree.insert(k, k * 3);
    }
    assert_eq!(
        tree.iter().collect::<Vec<_>>(),
        map.iter().collect::<Vec<_>>()
    );
    assert_eq!(
        tree.keys().collect::<Vec<_>>(),
        map.keys().collect::<Vec<_>>()
    );
    assert_eq!(
        tree.values().collect::<Vec<_>>(),
        map.values().collect::<Vec<_>>()
    );
    assert_eq!(
        tree.keys().collect::<Vec<_>>(),
        set.iter().collect::<Vec<_>>()
    );
}
