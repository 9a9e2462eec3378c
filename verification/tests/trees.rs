use exercises::bstree::BSTree;
use exercises::btree::BTree;

#[test]
fn bstree_test_btree() {
    let mut t = BSTree::new(2);

    t.insert(1);
    t.insert(3);

    assert_eq!(t.balanced(), true);

    assert_eq!(
        t,
        BSTree {
            value: 2,
            left: Some(Box::new(BSTree::new(1))),
            right: Some(Box::new(BSTree::new(3))),
        }
    );

    t.insert(4);
    t.insert(5);

    assert_eq!(t.balanced(), false);
}

#[test]
fn btree_test_btree() {
    let mut t = BTree::new(2);

    t.insert(1);
    t.insert(3);

    assert_eq!(t.balanced(), true);

    assert_eq!(
        t,
        BTree {
            value: 2,
            left: Some(Box::new(BTree::new(1))),
            right: Some(Box::new(BTree::new(3))),
        }
    );

    t.insert(4);
    t.insert(5);

    assert_eq!(t.balanced(), false);
}

#[test]
fn bstree_depth_counts_longest_path() {
    let mut t = BSTree::new(5);
    assert_eq!(t.depth(), 1);

    t.insert(6);
    t.insert(7);
    t.insert(8);
    assert_eq!(t.depth(), 4);

    t.insert(4);
    t.insert(3);
    t.insert(2);
    assert_eq!(t.depth(), 4);
}

#[test]
fn btree_depth_counts_longest_path() {
    let mut t = BTree::new(5);
    assert_eq!(t.depth(), 1);

    t.insert(6);
    t.insert(7);
    t.insert(8);
    assert_eq!(t.depth(), 4);

    t.insert(4);
    t.insert(3);
    t.insert(2);
    assert_eq!(t.depth(), 4);
}

#[test]
fn bstree_balance_flips_with_a_chain() {
    let mut t = BSTree::new(10);
    assert_eq!(t.balanced(), true);

    // A rising chain of three on the right with nothing on the left.
    t.insert(11);
    t.insert(12);
    assert_eq!(t.balanced(), false);

    // Neighbours on the other side restore the local balance.
    t.insert(9);
    t.insert(8);
    assert_eq!(t.balanced(), true);
}

#[test]
fn btree_balance_flips_with_a_chain() {
    let mut t = BTree::new(10);
    assert_eq!(t.balanced(), true);

    t.insert(11);
    t.insert(12);
    assert_eq!(t.balanced(), false);

    t.insert(9);
    t.insert(8);
    assert_eq!(t.balanced(), true);
}

#[test]
fn btree_discards_duplicates() {
    let mut t = BTree::new(2);
    t.insert(2);
    assert_eq!(t, BTree::new(2));

    t.insert(3);
    t.insert(3);
    assert_eq!(
        t,
        BTree {
            value: 2,
            left: None,
            right: Some(Box::new(BTree::new(3))),
        }
    );
}

#[test]
fn bstree_routes_duplicates_right() {
    let mut t = BSTree::new(2);
    t.insert(2);
    assert_eq!(
        t,
        BSTree {
            value: 2,
            left: None,
            right: Some(Box::new(BSTree::new(2))),
        }
    );
}
