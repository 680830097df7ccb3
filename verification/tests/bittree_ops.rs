use bit_tree::bitset::ByteSet;
use bit_tree::bittree::PointerByteNode;

#[test]
fn test_finalize() {
    let mut tree = PointerByteNode::new(0);
    let empty_tree = tree.finalize();
    assert_eq!(empty_tree.children_start, vec![1]);
    assert_eq!(empty_tree.nodes, vec![ByteSet::new()]);

    // R
    //  -> 10
    tree.insert(10, 1);
    let single_tree = tree.finalize();
    assert_eq!(single_tree.children_start, vec![1, 2]);
    assert_eq!(
        single_tree.nodes,
        vec![ByteSet::from_entries(&vec![10]), ByteSet::new()]
    );

    // R
    //  -> 3
    //  -> 10
    tree.insert(3, 2);
    let double_tree = tree.finalize();
    assert_eq!(double_tree.children_start, vec![1, 3, 3]);
    assert_eq!(
        double_tree.nodes,
        vec![
            ByteSet::from_entries(&vec![3, 10]),
            ByteSet::new(),
            ByteSet::new(),
        ]
    );

    // R
    //  -> 3
    //      -> 5
    //  -> 10
    tree.child_unwrap_mut(3).insert(5, 3);
    let triple_tree = tree.finalize();
    assert_eq!(triple_tree.children_start, vec![1, 3, 4, 4]);
    assert_eq!(
        triple_tree.nodes,
        vec![
            ByteSet::from_entries(&vec![3, 10]),
            ByteSet::from_entries(&vec![5]),
            ByteSet::new(),
            ByteSet::new(),
        ]
    );

    // R
    //  -> 3
    //      -> 5
    //          -> 8
    //  -> 10
    tree.child_unwrap_mut(3).child_unwrap_mut(5).insert(8, 4);
    let quad_tree = tree.finalize();
    assert_eq!(quad_tree.children_start, vec![1, 3, 5, 4, 5]);
    assert_eq!(
        quad_tree.nodes,
        vec![
            ByteSet::from_entries(&vec![3, 10]),
            ByteSet::from_entries(&vec![5]),
            ByteSet::new(),
            ByteSet::from_entries(&vec![8]),
            ByteSet::new(),
        ]
    );

    // R
    //  -> 3
    //      -> 5
    //          -> 8
    //  -> 10
    //      -> 4
    //      -> 6
    tree.child_unwrap_mut(10).insert(4, 5);
    tree.child_unwrap_mut(10).insert(6, 6);
    let tetra_tree = tree.finalize();
    assert_eq!(tetra_tree.children_start, vec![1, 3, 5, 4, 5, 7, 7]);
    assert_eq!(
        tetra_tree.nodes,
        vec![
            ByteSet::from_entries(&vec![3, 10]),
            ByteSet::from_entries(&vec![5]),
            ByteSet::from_entries(&vec![4, 6]),
            ByteSet::from_entries(&vec![8]),
            ByteSet::new(),
            ByteSet::new(),
            ByteSet::new(),
        ]
    )
}

#[test]
fn test_walker() {
    let mut tree = PointerByteNode::new(0);
    tree.insert(1, 10);
    tree.insert(5, 90);

    tree.child_unwrap_mut(1).insert(4, 1);
    tree.child_unwrap_mut(1).insert(100, 2);
    tree.child_unwrap_mut(1).child_unwrap_mut(100).insert(130, 3);

    tree.child_unwrap_mut(5).insert(30, 4);
    tree.child_unwrap_mut(5).child_unwrap_mut(30).insert(129, 5);

    let consolidated = tree.finalize();
    let walker = consolidated.walker();
    for i in 0..256 {
        if i != 1 && i != 5 {
            assert!(walker.step(i).is_none());
        }
    }

    let w1 = walker.step(1).unwrap();

    for i in 0..256 {
        if i != 4 && i != 100 {
            assert!(w1.step(i).is_none());
        }
    }
    let w1_4 = w1.step(4).unwrap();
    for i in 0..256 {
        assert!(w1_4.step(i).is_none());
    }
    let w1_100 = w1.step(100).unwrap();
    for i in 0..256 {
        if i != 130 {
            assert!(w1_100.step(i).is_none());
        }
    }
    let w1_100_130 = w1_100.step(130).unwrap();
    for i in 0..256 {
        assert!(w1_100_130.step(i).is_none());
    }

    let mut walk = walker;
    for step in [5, 30, 129] {
        walk = walk.step(step).unwrap();
    }
    for i in 0..256 {
        assert!(walk.step(i).is_none());
    }
}

#[test]
fn test_finalize_walk_inverse() {
    let mut tree = PointerByteNode::new(9);
    tree.insert(1, 8);
    tree.insert(5, 8);

    tree.child_unwrap_mut(1).insert(4, 6);
    tree.child_unwrap_mut(1).insert(100, 5);
    tree.child_unwrap_mut(1).child_unwrap_mut(100).insert(130, 4);

    tree.child_unwrap_mut(5).insert(30, 3);
    tree.child_unwrap_mut(5).child_unwrap_mut(30).insert(129, 2);

    assert_eq!(tree, tree.finalize().walker().to_inefficient());
}

#[test]
fn test_walker_values() {
    let mut tree = PointerByteNode::new(7);
    tree.insert(2, 11);
    tree.child_unwrap_mut(2).insert(9, 12);
    let flat = tree.finalize();
    let walker = flat.walker();
    assert_eq!(walker.value(), 7);
    let w2 = walker.step(2).unwrap();
    assert_eq!(w2.value(), 11);
    assert_eq!(w2.step(9).unwrap().value(), 12);
    assert_eq!(tree.tree_size(), 3);
    assert_eq!(tree.num_children(), 1);
    assert_eq!(tree.child_unwrap(2).value(), 11);
    let bitmap = tree.to_byteset();
    assert!(bitmap.includes(2));
    assert!(!bitmap.includes(3));
    assert_eq!(walker.curr_node(), &bitmap);
}

#[test]
fn test_insert_path_builds_chain() {
    let mut tree = PointerByteNode::new(u64::MAX);
    let created = tree.insert_path(&vec![7, 8], 0, 42);
    assert_eq!(created, 2);
    assert_eq!(tree.child_unwrap(7).value(), u64::MAX);
    assert_eq!(tree.child_unwrap(7).child_unwrap(8).value(), 42);
    let again = tree.insert_path(&vec![7], 0, 40);
    assert_eq!(again, 0);
    assert_eq!(tree.child_unwrap(7).value(), 40);
}
