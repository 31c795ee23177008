use tree_collections::BinarySearchTree;

#[test]
fn it_works() {
    let mut tree = BinarySearchTree::new();

    tree.insert(4, true);
    tree.insert(2, true);
    tree.insert(5, true);
    tree.insert(1, true);
    tree.insert(3, true);

    assert_eq!(5, tree.size());

    assert_eq!(
        vec![
            (&1, &true),
            (&2, &true),
            (&3, &true),
            (&4, &true),
            (&5, &true)
        ],
        tree.iter().collect::<Vec<(&i32, &bool)>>()
    );
}

#[test]
fn new_tree_is_empty() {
    let tree: BinarySearchTree<i32, &str> = BinarySearchTree::new();
    assert_eq!(0, tree.size());
    assert_eq!(None, tree.search(&0));
    assert!(tree.iter().next().is_none());
    assert_eq!(0, tree.iter().count());
    assert_eq!(0, tree.keys().count());
    assert_eq!(0, tree.values().count());
}

#[test]
fn first_insert_becomes_the_only_entry() {
    let mut tree = BinarySearchTree::new();
    tree.insert(7, "seven");
    assert_eq!(1, tree.size());
    assert_eq!(Some((&7, &"seven")), tree.search(&7));
    assert_eq!(vec![(&7, &"seven")], tree.iter().collect::<Vec<_>>());
}

#[test]
fn search_returns_the_stored_key_and_value() {
    let mut tree = BinarySearchTree::new();
    for (k, v) in [(50, 'a'), (30, 'b'), (70, 'c'), (20, 'd'), (40, 'e'), (60, 'f'), (80, 'g')] {
        tree.insert(k, v);
    }
    assert_eq!(Some((&50, &'a')), tree.search(&50));
    assert_eq!(Some((&20, &'d')), tree.search(&20));
    assert_eq!(Some((&40, &'e')), tree.search(&40));
    assert_eq!(Some((&60, &'f')), tree.search(&60));
    assert_eq!(Some((&80, &'g')), tree.search(&80));
}

#[test]
fn search_for_a_key_never_inserted_finds_nothing() {
    let mut tree = BinarySearchTree::new();
    for k in [50, 30, 70, 20, 40, 60, 80] {
        tree.insert(k, k * 2);
    }
    for absent in [i32::MIN, 10, 25, 35, 45, 55, 65, 75, 90, i32::MAX] {
        assert_eq!(None, tree.search(&absent));
    }
    assert_eq!(7, tree.size());
}

#[test]
fn iteration_ascends_whatever_the_insertion_order() {
    let orders: [[u32; 9]; 4] = [
        [1, 2, 3, 4, 5, 6, 7, 8, 9],
        [9, 8, 7, 6, 5, 4, 3, 2, 1],
        [5, 3, 8, 1, 4, 7, 9, 2, 6],
        [2, 9, 4, 7, 1, 6, 3, 8, 5],
    ];
    for order in orders {
        let mut tree = BinarySearchTree::new();
        for k in order {
            tree.insert(k, k + 100);
        }
        assert_eq!(9, tree.size());
        let keys: Vec<u32> = tree.keys().copied().collect();
        assert_eq!(vec![1, 2, 3, 4, 5, 6, 7, 8, 9], keys);
        let values: Vec<u32> = tree.values().copied().collect();
        assert_eq!(vec![101, 102, 103, 104, 105, 106, 107, 108, 109], values);
        let pairs: Vec<(u32, u32)> = tree.iter().map(|(k, v)| (*k, *v)).collect();
        for pair in pairs.windows(2) {
            assert!(pair[0].0 < pair[1].0);
        }
    }
}

#[test]
fn size_counts_distinct_keys() {
    let mut tree = BinarySearchTree::new();
    let inserted = [3, 1, 3, 2, 1, 1, 5, 3, 2, 4, 5];
    let mut expected = 0;
    let mut seen: Vec<i32> = Vec::new();
    for (step, k) in inserted.iter().enumerate() {
        tree.insert(*k, step);
        if !seen.contains(k) {
            seen.push(*k);
            expected += 1;
        }
        assert_eq!(expected, tree.size());
    }
    assert_eq!(5, tree.size());
    assert_eq!(5, tree.iter().count());
}

#[test]
fn insert_on_a_stored_key_overwrites_its_value() {
    let mut tree = BinarySearchTree::new();
    tree.insert(2, "two");
    tree.insert(1, "one");
    tree.insert(3, "three");
    assert_eq!(3, tree.size());

    tree.insert(1, "uno");
    assert_eq!(3, tree.size());
    assert_eq!(Some((&1, &"uno")), tree.search(&1));
    assert_eq!(Some((&2, &"two")), tree.search(&2));
    assert_eq!(Some((&3, &"three")), tree.search(&3));

    tree.insert(2, "dos");
    assert_eq!(3, tree.size());
    assert_eq!(
        vec![(&1, &"uno"), (&2, &"dos"), (&3, &"three")],
        tree.iter().collect::<Vec<_>>()
    );
}

#[test]
fn the_last_value_stored_under_a_key_wins() {
    let mut tree = BinarySearchTree::new();
    for round in 0..5 {
        for k in [4, 2, 6] {
            tree.insert(k, k * 10 + round);
        }
    }
    assert_eq!(3, tree.size());
    assert_eq!(Some((&2, &24)), tree.search(&2));
    assert_eq!(Some((&4, &44)), tree.search(&4));
    assert_eq!(Some((&6, &64)), tree.search(&6));
}

#[test]
fn ascending_insertions_make_a_chain_that_still_works() {
    let mut tree = BinarySearchTree::new();
    for k in 0..2000u32 {
        tree.insert(k, k * k);
    }
    assert_eq!(2000, tree.size());
    assert_eq!(Some((&0, &0)), tree.search(&0));
    assert_eq!(Some((&1999, &(1999 * 1999))), tree.search(&1999));
    assert_eq!(None, tree.search(&2000));
    let keys: Vec<u32> = tree.keys().copied().collect();
    assert_eq!((0..2000).collect::<Vec<u32>>(), keys);
}

#[test]
fn descending_insertions_make_a_chain_that_still_works() {
    let mut tree = BinarySearchTree::new();
    for k in (0..2000i64).rev() {
        tree.insert(k, -k);
    }
    assert_eq!(2000, tree.size());
    assert_eq!(Some((&1000, &-1000)), tree.search(&1000));
    assert_eq!(None, tree.search(&-1));
    let pairs: Vec<(i64, i64)> = tree.iter().map(|(k, v)| (*k, *v)).collect();
    assert_eq!((0..2000).map(|k| (k, -k)).collect::<Vec<(i64, i64)>>(), pairs);
}

#[test]
fn keys_may_be_negative_or_extreme() {
    let mut tree = BinarySearchTree::new();
    for k in [0, i64::MAX, i64::MIN, -1, 1] {
        tree.insert(k, ());
    }
    assert_eq!(
        vec![i64::MIN, -1, 0, 1, i64::MAX],
        tree.keys().copied().collect::<Vec<i64>>()
    );
}

#[test]
fn keys_may_be_strings() {
    let mut tree = BinarySearchTree::new();
    for word in ["pear", "apple", "fig", "apple", "banana"] {
        tree.insert(String::from(word), word.len());
    }
    assert_eq!(4, tree.size());
    assert_eq!(
        vec!["apple", "banana", "fig", "pear"],
        tree.keys().map(|k| k.as_str()).collect::<Vec<&str>>()
    );
    assert_eq!(vec![5, 6, 3, 4], tree.values().copied().collect::<Vec<usize>>());
    assert_eq!(
        Some((&String::from("fig"), &3)),
        tree.search(&String::from("fig"))
    );
    assert_eq!(None, tree.search(&String::from("plum")));
}

#[test]
fn keys_may_be_tuples() {
    let mut tree = BinarySearchTree::new();
    for k in [(2, 'a'), (1, 'z'), (1, 'a'), (2, 'b')] {
        tree.insert(k, ());
    }
    assert_eq!(
        vec![(1, 'a'), (1, 'z'), (2, 'a'), (2, 'b')],
        tree.keys().copied().collect::<Vec<(i32, char)>>()
    );
}

#[test]
fn size_matches_what_a_fresh_cursor_yields() {
    let mut tree = BinarySearchTree::new();
    assert_eq!(tree.size(), tree.iter().count());
    let mut x: u64 = 12345;
    for _ in 0..500 {
        x = x.wrapping_mul(6364136223846793005).wrapping_add(1442695040888963407);
        tree.insert(x >> 55, x);
        assert_eq!(tree.size(), tree.iter().count());
    }
    assert!(tree.size() <= 512);
}

#[test]
fn insertion_order_decides_the_shape() {
    let mut bushy = BinarySearchTree::new();
    for k in [2, 1, 3] {
        bushy.insert(k, ());
    }
    assert_eq!(
        "BinarySearchTree { root: Some(BTNode { key: 2, value: (), \
         left: Some(BTNode { key: 1, value: (), left: None, right: None }), \
         right: Some(BTNode { key: 3, value: (), left: None, right: None }) }), size: 3 }",
        format!("{:?}", bushy)
    );

    let mut chain = BinarySearchTree::new();
    for k in [1, 2, 3] {
        chain.insert(k, ());
    }
    assert_eq!(
        "BinarySearchTree { root: Some(BTNode { key: 1, value: (), left: None, \
         right: Some(BTNode { key: 2, value: (), left: None, \
         right: Some(BTNode { key: 3, value: (), left: None, right: None }) }) }), size: 3 }",
        format!("{:?}", chain)
    );
    assert_eq!(
        bushy.keys().collect::<Vec<_>>(),
        chain.keys().collect::<Vec<_>>()
    );
}

#[test]
fn overwriting_leaves_every_node_in_place() {
    let mut tree = BinarySearchTree::new();
    for (k, v) in [(2, 'b'), (1, 'a'), (3, 'c')] {
        tree.insert(k, v);
    }
    tree.insert(1, 'z');
    tree.insert(2, 'y');
    assert_eq!(
        "BinarySearchTree { root: Some(BTNode { key: 2, value: 'y', \
         left: Some(BTNode { key: 1, value: 'z', left: None, right: None }), \
         right: Some(BTNode { key: 3, value: 'c', left: None, right: None }) }), size: 3 }",
        format!("{:?}", tree)
    );
}

#[test]
fn an_empty_tree_has_no_root() {
    let tree: BinarySearchTree<u8, u8> = BinarySearchTree::new();
    assert_eq!("BinarySearchTree { root: None, size: 0 }", format!("{:?}", tree));
}
