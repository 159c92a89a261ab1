use succtree::{SuccTree, SuccTreeError};

fn snapshot(tree: &SuccTree) -> Vec<Vec<u64>> {
    let mut layers = Vec::new();
    for l in 0..tree.layer_count() {
        let mut words = Vec::new();
        for i in 0..tree.layer_len(l) {
            words.push(tree.word(l, i));
        }
        layers.push(words);
    }
    layers
}

fn summaries_hold(tree: &SuccTree) -> bool {
    for l in 0..tree.layer_count() - 1 {
        for b in 0..tree.layer_len(l) {
            let parent = tree.word(l + 1, b / 64) >> (b % 64) & 1 == 1;
            let mut any = false;
            for i in 0..64 {
                if tree.word(l, b) >> i & 1 == 1 {
                    any = true;
                }
            }
            if parent != any {
                return false;
            }
        }
    }
    true
}

#[test]
fn summaries_hold_after_mixed_updates() {
    let mut tree = SuccTree::new(300000);
    let mut x: usize = 12345;
    for step in 0..3000 {
        x = (x * 1103515245 + 12345) % 300000;
        if step % 3 == 2 {
            tree.delete(x);
        } else {
            tree.insert(x);
        }
        if step % 500 == 0 {
            assert!(summaries_hold(&tree));
        }
    }
    assert!(summaries_hold(&tree));
    for v in tree.rquery(0, 300000) {
        tree.delete(v);
    }
    assert!(summaries_hold(&tree));
    assert!(tree.is_empty());
}

#[test]
fn insert_twice_same_layers() {
    let mut tree = SuccTree::new(5000);
    tree.insert(7);
    tree.insert(4100);
    let once = snapshot(&tree);
    tree.insert(4100);
    assert_eq!(once, snapshot(&tree));
}

#[test]
fn delete_twice_same_layers() {
    let mut tree = SuccTree::new(5000);
    tree.insert(7);
    tree.insert(4100);
    tree.delete(4100);
    let once = snapshot(&tree);
    tree.delete(4100);
    assert_eq!(once, snapshot(&tree));
}

#[test]
fn insert_then_delete_restores_zero_layers() {
    let mut tree = SuccTree::new(1000000);
    let empty = snapshot(&tree);
    tree.insert(777777);
    assert_ne!(empty, snapshot(&tree));
    tree.delete(777777);
    assert_eq!(empty, snapshot(&tree));
    for layer in snapshot(&tree) {
        for w in layer {
            assert_eq!(0, w);
        }
    }
}

#[test]
fn successor_over_layers() {
    let mut tree = SuccTree::new(1000000);
    for v in [5, 9, 30, 64, 65, 99, 99999, 100000] {
        tree.insert(v);
    }
    assert_eq!(Some(9), tree.successor(5));
    assert_eq!(Some(30), tree.successor(9));
    assert_eq!(Some(64), tree.successor(30));
    assert_eq!(Some(99), tree.successor(65));
    assert_eq!(Some(100000), tree.successor(99999));
    assert_eq!(None, tree.successor(100000));
    assert_eq!(Some(5), tree.successor(0));
    assert_eq!(Some(99999), tree.successor(100));
}

#[test]
fn successor_of_largest_element() {
    let mut tree = SuccTree::new(1000000);
    tree.insert(999999);
    assert_eq!(Some(999999), tree.successor(0));
    assert_eq!(Some(999999), tree.successor(999998));
    assert_eq!(None, tree.successor(999999));
    assert_eq!(Some(999999), tree.min());
}

#[test]
fn emptiness_follows_elements() {
    let mut tree = SuccTree::new(1000000);
    assert!(tree.is_empty());
    assert_eq!(None, tree.min());
    tree.insert(424242);
    assert!(!tree.is_empty());
    assert_eq!(Some(424242), tree.min());
    tree.delete(424242);
    assert!(tree.is_empty());
    assert_eq!(None, tree.min());
}

#[test]
fn sizing_at_boundaries() {
    let tree = SuccTree::new(1);
    assert_eq!(1, tree.layer_count());
    assert_eq!(1, tree.layer_len(0));

    let tree = SuccTree::new(65);
    assert_eq!(3, tree.layer_count());
    assert_eq!(2, tree.layer_len(0));
    assert_eq!(1, tree.layer_len(1));
    assert_eq!(1, tree.layer_len(2));

    let tree = SuccTree::new(4096);
    assert_eq!(3, tree.layer_count());
    assert_eq!(64, tree.layer_len(0));
    assert_eq!(1, tree.layer_len(1));
    assert_eq!(1, tree.layer_len(2));

    let tree = SuccTree::new(4097);
    assert_eq!(4, tree.layer_count());
    assert_eq!(65, tree.layer_len(0));
    assert_eq!(2, tree.layer_len(1));
    assert_eq!(1, tree.layer_len(2));
    assert_eq!(1, tree.layer_len(3));
}

#[test]
fn single_element_universe() {
    let mut tree = SuccTree::new(1);
    assert!(tree.is_empty());
    tree.insert(0);
    assert!(!tree.is_empty());
    assert_eq!(1, tree.word(0, 0));
    assert_eq!(Some(0), tree.min());
    assert_eq!(None, tree.successor(0));
    assert_eq!(vec![0], tree.rquery(0, 1));
    tree.delete(0);
    assert!(tree.is_empty());
}

#[test]
fn top_word_tracks_occupancy() {
    let mut tree = SuccTree::new(100);
    tree.insert(70);
    assert_eq!(2, tree.word(1, 0));
    assert_eq!(1, tree.word(2, 0));
    tree.delete(70);
    assert_eq!(0, tree.word(1, 0));
    assert_eq!(0, tree.word(2, 0));
}

#[test]
fn rquery_bounds() {
    let mut tree = SuccTree::new(1000);
    for v in [3, 5, 6, 7, 64, 500, 999] {
        tree.insert(v);
    }
    assert_eq!(vec![6, 7], tree.rquery(6, 8));
    assert_eq!(vec![5, 6, 7, 64], tree.rquery(4, 65));
    assert_eq!(Vec::<usize>::new(), tree.rquery(5, 5));
    assert_eq!(Vec::<usize>::new(), tree.rquery(8, 64));
    assert_eq!(vec![500, 999], tree.rquery(65, 1000));
    assert_eq!(Vec::<usize>::new(), tree.rquery(1000, 1000));
}

#[test]
fn greater_sibling_stays_in_block() {
    let mut tree = SuccTree::new(1000);
    tree.insert(63);
    tree.insert(64);
    assert_eq!(63, tree.greater_sibling_in_block(0, 0));
    assert_eq!(0, tree.greater_sibling_in_block(0, 63));
    assert_eq!(0, tree.greater_sibling_in_block(0, 64));
}

#[test]
fn checked_operations_refuse_bad_input() {
    assert_eq!(Some(SuccTreeError::InvalidCapacity), SuccTree::try_new(0).err());
    let mut tree = SuccTree::try_new(100).unwrap();
    assert_eq!(Err(SuccTreeError::OutOfRange), tree.try_insert(100));
    assert_eq!(Err(SuccTreeError::OutOfRange), tree.try_delete(100));
    assert_eq!(Err(SuccTreeError::OutOfRange), tree.try_successor(100));
    assert_eq!(Err(SuccTreeError::OutOfRange), tree.try_rquery(3, 2));
    assert_eq!(Err(SuccTreeError::OutOfRange), tree.try_rquery(0, 101));
    assert!(tree.is_empty());
    assert_eq!(Ok(()), tree.try_insert(99));
    assert_eq!(Ok(None), tree.try_successor(99));
    assert_eq!(Ok(Some(99)), tree.try_successor(0));
    assert_eq!(Ok(vec![99]), tree.try_rquery(0, 100));
    assert_eq!(Ok(()), tree.try_delete(99));
    assert!(tree.is_empty());
}

#[test]
fn rquery_inside_one_word() {
    let mut tree = SuccTree::new(64);
    for i in 0..64 {
        tree.insert(i);
    }
    assert_eq!(vec![5, 6, 7, 8, 9], tree.rquery(5, 10));
    assert_eq!(Some(63), tree.successor(62));
    assert_eq!(None, tree.successor(63));
}
