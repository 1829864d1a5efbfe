use red_black_bst::tree::RedBlackBST;

#[test]
fn test_red_black_tree_shape() {
    let mut t = RedBlackBST::<i32, ()>::new();
    assert_eq!(0, t.depth());
    for c in 0..255 {
        t.put(c, ());
    }
    assert_eq!(255, t.size());
    // max for n=255
    assert!(t.depth() <= 8);
}

#[test]
fn test_red_black_tree() {
    let mut t = RedBlackBST::<char, usize>::new();
    for (i, c) in "SEARCHEXAMP".chars().enumerate() {
        t.put(c, i);
    }

    assert_eq!(t.get(&'E'), Some(&6));
    assert_eq!(t.floor(&'O'), Some(&'M'));
    assert_eq!(t.ceiling(&'Q'), Some(&'R'));
    assert_eq!(t.size(), 9);
    assert_eq!(t.rank(&'E'), 2);
    assert_eq!(t.select(2), Some('E'));
    assert_eq!(t.rank(&'M'), 4);
    assert_eq!(t.select(4), Some('M'));
    assert_eq!(t.max(), Some(&'X'));
    assert_eq!(t.min(), Some(&'A'));
    // inorder visit
    assert_eq!(String::from_iter(t.keys().into_iter()), "ACEHMPRSX");
}

#[test]
fn test_keys_sorted_any_insertion_order() {
    let mut a = RedBlackBST::<i32, i32>::new();
    for k in [5, 1, 4, 2, 3] {
        a.put(k, 0);
    }
    let mut b = RedBlackBST::<i32, i32>::new();
    for k in [3, 2, 4, 1, 5] {
        b.put(k, 0);
    }
    assert_eq!(a.keys(), vec![1, 2, 3, 4, 5]);
    assert_eq!(b.keys(), vec![1, 2, 3, 4, 5]);
    // re-traversal observes the same sequence
    assert_eq!(a.keys(), a.keys());
}

#[test]
fn test_size_matches_keys_count() {
    let mut t = RedBlackBST::<i32, i32>::new();
    assert_eq!(t.size(), t.keys().len());
    for k in [7, 7, 2, 9, 2, 11] {
        t.put(k, k);
        assert_eq!(t.size(), t.keys().len());
    }
    assert_eq!(t.size(), 4);
}

#[test]
fn test_round_trip_get_until_delete() {
    let mut t = RedBlackBST::<u64, u64>::new();
    t.put(10, 1);
    t.put(20, 2);
    t.put(10, 3);
    assert_eq!(t.get(&10), Some(&3));
    assert_eq!(t.get(&20), Some(&2));
    t.delete(&10);
    assert_eq!(t.get(&10), None);
    assert_eq!(t.get(&20), Some(&2));
}

#[test]
fn test_delete_leaf_one_child_two_children() {
    // puts of 1..=7 build the complete tree with 4 at the root, 2 and 6
    // below it, and the odd keys as leaves
    let mut t = RedBlackBST::<i32, i32>::new();
    for k in 1..=7 {
        t.put(k, k * 10);
    }
    assert_eq!(t.size(), 7);

    // 1 is a leaf
    t.delete(&1);
    assert_eq!(t.size(), 6);
    assert_eq!(t.get(&1), None);
    assert_eq!(t.keys(), vec![2, 3, 4, 5, 6, 7]);

    // 2 now has the single child 3
    t.delete(&2);
    assert_eq!(t.size(), 5);
    assert_eq!(t.get(&2), None);
    assert_eq!(t.keys(), vec![3, 4, 5, 6, 7]);

    // the root 4 still has two children
    t.delete(&4);
    assert_eq!(t.size(), 4);
    assert_eq!(t.get(&4), None);
    assert_eq!(t.keys(), vec![3, 5, 6, 7]);
    assert_eq!(t.get(&5), Some(&50));

    // deleting an absent key changes nothing
    t.delete(&4);
    assert_eq!(t.keys(), vec![3, 5, 6, 7]);
}

#[test]
fn test_delete_min_and_max() {
    let mut t = RedBlackBST::<i32, i32>::new();
    for k in 1..=5 {
        t.put(k, k);
    }
    t.delete_min();
    assert_eq!(t.keys(), vec![2, 3, 4, 5]);
    t.delete_max();
    assert_eq!(t.keys(), vec![2, 3, 4]);
    assert_eq!(t.min(), Some(&2));
    assert_eq!(t.max(), Some(&4));

    let mut e = RedBlackBST::<i32, i32>::new();
    e.delete_min();
    e.delete_max();
    assert!(e.is_empty());
    assert_eq!(e.min(), None);
    assert_eq!(e.max(), None);
}

#[test]
fn test_floor_ceiling_bounds() {
    let mut t = RedBlackBST::<i32, i32>::new();
    assert_eq!(t.floor(&5), None);
    assert_eq!(t.ceiling(&5), None);
    for k in [10, 20, 30] {
        t.put(k, k);
    }
    assert_eq!(t.floor(&5), None);
    assert_eq!(t.ceiling(&35), None);
    assert_eq!(t.floor(&20), Some(&20));
    assert_eq!(t.ceiling(&20), Some(&20));
    assert_eq!(t.floor(&25), Some(&20));
    assert_eq!(t.ceiling(&25), Some(&30));
}

#[test]
fn test_rank_select_duality() {
    let mut t = RedBlackBST::<char, usize>::new();
    for (i, c) in "SEARCHEXAMP".chars().enumerate() {
        t.put(c, i);
    }
    for (i, k) in t.keys().into_iter().enumerate() {
        assert_eq!(t.rank(&k), i);
        assert_eq!(t.select(t.rank(&k)), Some(k));
    }
    assert_eq!(t.select(9), None);
}

#[test]
fn test_height_bound_after_scattered_puts() {
    // 101 distinct keys in a scattered order; the proved bound
    // 2^depth <= (n+1)^2 forces depth <= 13 for n = 101
    let mut t = RedBlackBST::<i32, i32>::new();
    for i in 0..101 {
        t.put((i * 37) % 101, i);
    }
    assert_eq!(t.size(), 101);
    assert!(t.depth() <= 13);
}

#[test]
fn test_outline_rendering() {
    let mut t = RedBlackBST::<char, usize>::new();
    assert_eq!(t.to_outline(), "<empty tree>");
    t.put('S', 0);
    t.put('E', 1);
    assert_eq!(t.to_outline(), "\nS[0]\n+==E[1]\n");
    t.put('A', 2);
    assert_eq!(t.to_outline(), "\nE[1]\n+--A[2]\n`--S[0]\n");
}

#[test]
fn test_overwrite_keeps_shape() {
    let mut t = RedBlackBST::<char, usize>::new();
    t.put('S', 0);
    t.put('E', 1);
    t.put('A', 2);
    assert_eq!(t.to_outline(), "\nE[1]\n+--A[2]\n`--S[0]\n");
    t.put('A', 9);
    assert_eq!(t.to_outline(), "\nE[1]\n+--A[9]\n`--S[0]\n");
    assert_eq!(t.size(), 3);
}

#[test]
fn test_decimal_rendering_in_outline() {
    let mut t = RedBlackBST::<i32, i32>::new();
    t.put(305, -47);
    assert_eq!(t.to_outline(), "\n305[-47]\n");
    t.put(10, 0);
    assert_eq!(t.to_outline(), "\n305[-47]\n+==10[0]\n");
}

#[test]
fn test_empty_and_overwrite() {
    let mut t = RedBlackBST::<u64, u64>::new();
    assert!(t.is_empty());
    assert_eq!(t.size(), 0);
    assert_eq!(t.get(&1), None);
    t.put(1, 100);
    assert!(!t.is_empty());
    t.put(1, 200);
    assert_eq!(t.size(), 1);
    assert_eq!(t.get(&1), Some(&200));
}
