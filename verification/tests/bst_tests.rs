use algos::bst::BinarySearchTree;

#[test]
fn test_insert_and_search() {
    let mut bst = BinarySearchTree::new();

    assert_eq!(bst.search(1), false);

    bst.insert(5);
    bst.insert(3);
    bst.insert(7);
    bst.insert(2);
    bst.insert(4);

    assert_eq!(bst.search(5), true);
    assert_eq!(bst.search(3), true);
    assert_eq!(bst.search(7), true);
    assert_eq!(bst.search(2), true);
    assert_eq!(bst.search(4), true);

    assert_eq!(bst.search(1), false);
    assert_eq!(bst.search(6), false);
}

#[test]
fn test_insert_duplicate() {
    let mut bst = BinarySearchTree::new();

    bst.insert(1);
    bst.insert(1);

    assert_eq!(bst.search(1), true);

    match bst.root {
        Some(ref node) => {
            assert!(node.left.is_none());
            assert!(node.right.is_none());
            assert_eq!(node.value, 1);
        },
        None => panic!("Root should not be None after insertion"),
    }
}

#[test]
fn bst_orders_children_around_the_root() {
    let mut bst = BinarySearchTree::new();
    bst.insert(5);
    bst.insert(3);
    bst.insert(7);
    match bst.root {
        Some(ref node) => {
            assert_eq!(node.value, 5);
            assert_eq!(node.left.as_ref().unwrap().value, 3);
            assert_eq!(node.right.as_ref().unwrap().value, 7);
        },
        None => panic!("Root should not be None after insertion"),
    }
}
