use succtree::SuccTree;

#[test]
fn test_move_up() {
    assert_eq!(0, SuccTree::move_up_layer(10));
    assert_eq!(1, SuccTree::move_up_layer(64));
    assert_eq!(1, SuccTree::move_up_layer(127));
    assert_eq!(2, SuccTree::move_up_layer(128));
    assert_eq!(3, SuccTree::move_up_layer(192));
}

#[test]
fn test_move_down() {
    assert_eq!(0, SuccTree::move_down(0));
    assert_eq!(64, SuccTree::move_down(1));
    assert_eq!(128, SuccTree::move_down(2));
    assert_eq!(192, SuccTree::move_down(3));
    assert_eq!(256, SuccTree::move_down(4));
}

#[test]
fn test_rquery() {
    let mut tree = SuccTree::new(1000000);
    let mut r = Vec::with_capacity(1000000);
    for i in 0..999999 {
        tree.insert(i);
        r.push(i);
    }
    assert_eq!(r, tree.rquery(0, 1000000));
}

#[test]
fn test_even_rquery() {
    let mut tree = SuccTree::new(1000000);
    let mut r = Vec::with_capacity(1000000);
    for i in (0..999999).step_by(2) {
        tree.insert(i);
        r.push(i);
    }
    assert_eq!(r, tree.rquery(0, 1000000));
}

#[test]
fn test_uneven_rquery() {
    let mut tree = SuccTree::new(1000000);
    let mut r = Vec::with_capacity(1000000);
    for i in (1..999999).step_by(2) {
        tree.insert(i);
        r.push(i);
    }
    assert_eq!(r, tree.rquery(0, 1000000));
}

#[test]
fn test_succ() {
    let mut tree = SuccTree::new(1000000);
    tree.insert(5);
    assert_eq!(None, tree.successor(5));
    tree.insert(9);
    tree.insert(30);
    tree.insert(64);
    tree.insert(65);
    tree.insert(99);
    tree.insert(99999);
    tree.insert(100000);
    assert_eq!(Some(9), tree.successor(5));
    assert_eq!(Some(30), tree.successor(9));
    assert_eq!(Some(64), tree.successor(30));
    assert_eq!(Some(65), tree.successor(64));
    assert_eq!(Some(99), tree.successor(65));
    assert_eq!(Some(100000), tree.successor(99999));
}

#[test]
fn test_new() {
    let tree = SuccTree::new(1000000);
    assert_eq!(tree.layer_count(), 5);
    assert_eq!(tree.layer_len(0), 15625);
    assert_eq!(tree.layer_len(1), 245);
    assert_eq!(tree.layer_len(2), 4);
    assert_eq!(tree.layer_len(3), 1);
    assert_eq!(tree.layer_len(4), 1);

    let tree = SuccTree::new(64);
    assert_eq!(tree.layer_count(), 2);
    assert_eq!(tree.layer_len(0), 1);
    assert_eq!(tree.layer_len(1), 1);
}

#[test]
fn test_insert() {
    let mut tree = SuccTree::new(100);
    tree.insert(0);
    assert_eq!(1, tree.word(0, 0));
    assert_eq!(1, tree.word(1, 0));
    tree.insert(1);
    assert_eq!(3, tree.word(0, 0));
    tree.insert(1);
    assert_eq!(3, tree.word(0, 0));
    tree.insert(64);
    assert_eq!(1, tree.word(0, 1));
}

#[test]
fn test_delete() {
    let mut tree = SuccTree::new(1000000);
    tree.insert(0);
    assert_eq!(1, tree.word(0, 0));
    assert_eq!(1, tree.word(1, 0));
    assert_eq!(1, tree.word(2, 0));
    assert_eq!(1, tree.word(3, 0));
    tree.delete(0);
    assert_eq!(0, tree.word(0, 0));
    assert_eq!(0, tree.word(1, 0));
    assert_eq!(0, tree.word(2, 0));
    assert_eq!(0, tree.word(3, 0));
    tree.insert(0);
    tree.insert(1);
    tree.delete(0);
    assert_eq!(2, tree.word(0, 0));
    assert_eq!(1, tree.word(1, 0));
    assert_eq!(1, tree.word(2, 0));
    assert_eq!(1, tree.word(3, 0));
    tree.delete(1);
    assert_eq!(0, tree.word(0, 0));
    assert_eq!(0, tree.word(1, 0));
    assert_eq!(0, tree.word(2, 0));
    assert_eq!(0, tree.word(3, 0));
}

#[test]
fn test_greater_sibling_in_block() {
    let mut tree = SuccTree::new(1000000);
    tree.insert(0);
    tree.insert(10);
    tree.insert(50);
    assert_eq!(10, tree.greater_sibling_in_block(0, 0), "Testing next number after 0");
    assert_eq!(50, tree.greater_sibling_in_block(0, 10), "Testing next number after 10");
    assert_eq!(0, tree.greater_sibling_in_block(0, 50), "Testing next number after 50");
    tree.insert(64);
    tree.insert(70);
    tree.insert(200);
    assert_eq!(70, tree.greater_sibling_in_block(0, 64), "Testing next number after 0");
    assert_eq!(0, tree.greater_sibling_in_block(0, 70), "Testing next number after 10");
    assert_eq!(0, tree.greater_sibling_in_block(0, 200), "Testing next number after 50");
    assert_eq!(1, tree.greater_sibling_in_block(1, 0));
    assert_eq!(3, tree.greater_sibling_in_block(1, 1));
}

#[test]
fn test_is_empty() {
    let mut tree = SuccTree::new(1000000);
    assert_eq!(true, tree.is_empty());
    tree.insert(0);
    assert_eq!(false, tree.is_empty());
}

#[test]
fn test_min() {
    let mut tree = SuccTree::new(1000000);
    assert_eq!(None, tree.min());
    tree.insert(5);
    assert_eq!(Some(5), tree.min());
    tree.insert(0);
    assert_eq!(Some(0), tree.min());
}
