use lehopt::util::{AvlTree, AvlTreeItem};

fn util_delete_sequence<T>(tree: &mut AvlTree<T>, keys: Vec<T::Key>)
    where T: AvlTreeItem + Default {

    for x in keys {
        tree.delete(x);
    }
}

fn util_insert_sequence<T>(tree: &mut AvlTree<T>, items: Vec<T>)
    where T: AvlTreeItem + Default {

    for x in items {
        tree.insert(x);
    }
}

fn util_node_info<T>(tree: &AvlTree<T>, key: T::Key) -> (Option<T>, Option<T>, i8)
    where T: AvlTreeItem + Default + Copy {

    // find the node; it must be there
    let (cl, cr, bf) = tree.node_info(key).unwrap();
    (cl.copied(), cr.copied(), bf)
}

fn util_pop_all<T>(tree: &mut AvlTree<T>) -> Vec<T>
    where T: AvlTreeItem + Default {

    let mut result = vec![];
    loop {
        let next = tree.pop_first();
        if let Some(x) = next {
            result.push(x);
        }
        else {
            break;
        }
    }
    result
}

fn util_verify_tree<T>(tree: &AvlTree<T>, root: T, nodes: Vec<(T::Key, Option<T>, Option<T>, i8)>)
    where T: AvlTreeItem + Default + Copy + PartialEq + std::fmt::Debug + std::fmt::Display, T::Key: Copy + std::fmt::Display {

    assert_eq!(tree.len(), nodes.len());
    let tree_root = *tree.root_item().unwrap();
    assert_eq!(tree_root, root, "Expected root to be {}, was {}", root, tree_root);

    for i in 0..nodes.len() {
        let info = util_node_info(&tree, nodes[i].0);

        // check left child
        let cl = nodes[i].1;
        if cl.is_none() {
            assert!(info.0.is_none(), "Expected {} cl to be None, was {}", nodes[i].0, info.0.unwrap());
        }
        else {
            assert_eq!(info.0.unwrap(), cl.unwrap(), "Expected {} cl to be {}, was {}", nodes[i].0, cl.unwrap(), info.0.unwrap());
        }

        // check right child
        let cr = nodes[i].2;
        if cr.is_none() {
            assert!(info.1.is_none(), "Expected {} cr to be None, was {}", nodes[i].0, info.1.unwrap());
        }
        else {
            assert_eq!(info.1.unwrap(), cr.unwrap(), "Expected {} cr to be {}, was {}", nodes[i].0, cr.unwrap(), info.1.unwrap());
        }

        // check balance factor
        assert_eq!(info.2, nodes[i].3, "Expected {} bf to be {}, was {}", nodes[i].0, nodes[i].3, info.2);
    }
}
#[test]
fn test_000() {
    let add_seq = vec![4, 7, 1, 3, 9, 8, 2, 0, 5, 6];
    let del_seq = vec![4, 7, 2];

    let mut tree: AvlTree<i32> = AvlTree::new();
    util_insert_sequence(&mut tree, add_seq);
    util_delete_sequence(&mut tree, del_seq);
    let result = util_pop_all(&mut tree);

    assert_eq!(result, vec![0, 1, 3, 5, 6, 8, 9]);
}

#[test]
fn test_001() {
    let add_seq1 = vec![12, 18, 2, 4, 8, 14, 10, 16, 0, 6];
    let del_seq1 = vec![10, 2, 8, 6, 12];
    let add_seq2 = vec![13, 9, 1, 7, 17, 19, 11, 5, 3, 15];
    let del_seq2 = vec![1, 11, 19, 15, 9, 18, 0, 16];

    let mut tree: AvlTree<i32> = AvlTree::new();
    util_insert_sequence(&mut tree, add_seq1);
    util_delete_sequence(&mut tree, del_seq1);
    util_insert_sequence(&mut tree, add_seq2);
    util_delete_sequence(&mut tree, del_seq2);
    let result = util_pop_all(&mut tree);

    assert_eq!(result, vec![3, 4, 5, 7, 13, 14, 17]);
}

#[test]
fn test_002() {
    // alternating insertion/deletion without compacting
    let add_seq1 = vec![100, 300, 600, 500, 200, 400, 700];
    let del_seq1 = vec![300, 200];
    let add_seq2 = vec![50, 30, 70, 10];
    let del_seq2 = vec![500, 70];
    let add_seq3 = vec![450, 750, 250, 150, 350, 650, 550];
    let del_seq3 = vec![400, 30, 10, 250];

    let mut tree: AvlTree<i32> = AvlTree::new();
    util_insert_sequence(&mut tree, add_seq1);
    util_delete_sequence(&mut tree, del_seq1);
    util_insert_sequence(&mut tree, add_seq2);
    util_delete_sequence(&mut tree, del_seq2);
    util_insert_sequence(&mut tree, add_seq3);
    util_delete_sequence(&mut tree, del_seq3);
    let result = util_pop_all(&mut tree);

    assert_eq!(result, vec![50, 100, 150, 350, 450, 550, 600, 650, 700, 750]);
}

#[test]
fn test_003() {
    // alternating insertion/deletion without compacting,
    // repeated deletion/insertion of same items

    let add_seq1 = vec![100, 300, 600, 500, 200, 400, 700];
    let del_seq1 = vec![300, 200];
    let add_seq2 = vec![50, 30, 70, 10];
    let del_seq2 = vec![500, 70];
    let add_seq3 = vec![450, 750, 250, 150, 350, 650, 550];
    let del_seq3 = vec![400, 30, 10, 250];

    let mut tree: AvlTree<i32> = AvlTree::new();
    util_insert_sequence(&mut tree, add_seq1.clone());
    util_insert_sequence(&mut tree, add_seq1.clone());
    util_delete_sequence(&mut tree, del_seq1.clone());
    util_delete_sequence(&mut tree, del_seq1.clone());
    util_insert_sequence(&mut tree, add_seq2.clone());
    util_insert_sequence(&mut tree, add_seq2.clone());
    util_delete_sequence(&mut tree, del_seq2.clone());
    util_delete_sequence(&mut tree, del_seq2.clone());
    util_insert_sequence(&mut tree, add_seq3.clone());
    util_insert_sequence(&mut tree, add_seq3.clone());
    util_delete_sequence(&mut tree, del_seq3.clone());
    util_insert_sequence(&mut tree, add_seq1.clone());
    util_delete_sequence(&mut tree, del_seq3.clone());
    let result = util_pop_all(&mut tree);

    assert_eq!(result, vec![50, 100, 150, 200, 300, 350, 450, 500, 550, 600, 650, 700, 750]);
}

#[test]
fn test_004() {
    // testing with deleting a few items out of a big tree
    let start = 0;
    let end = 10000;

    let del_seq = vec![13, 7828, 2322, 853, 4390, 2958, 6530, 3893, 1098, 5928, 9237, 9999, 0, 1, 2, 3, 4, 5];

    let mut tree: AvlTree<i32> = AvlTree::new();
    for x in start..=end {
        tree.insert(x);
    }
    for x in &del_seq {
        tree.delete(*x);
    }

    let mut next = start;
    while next <= end {
        if !del_seq.contains(&next) {
            assert_eq!(next, tree.pop_first().unwrap());
        }
        next += 1;
    }

    assert_eq!(tree.len(), 0);
}

#[test]
fn test_005() {
    // interleaved deletion sequences in a large tree
    
    let start = 1;
    let end = 100000;

    let mut tree: AvlTree<i32> = AvlTree::new();
    for x in start..(end/2) {
        let duplicate = tree.insert(x);
        assert!(duplicate.is_none());
    }
    for x in ((end/2)..=end).rev() {
        let duplicate = tree.insert(x);
        assert!(duplicate.is_none());
    }
    for x in start..=end {
        let duplicate = tree.insert(x);
        assert!(duplicate.is_some());
    }
    for x in start..=end {
        if x % 3 == 0 {
            tree.delete(x).unwrap();
        }
    }
    for x in start..=end {
        if x % 3 == 1 {
            tree.delete(x).unwrap();
        }
    }
    for x in start..=end {
        if x % 3 == 2 {
            tree.delete(x).unwrap();
        }
    }

    assert_eq!(tree.len(), 0);
}

#[test]
fn test_006() {
    // delete multiples of 7 and 13 out of large tree, ensure rest intact
    
    let size = 100000;
    
    let mut tree: AvlTree<i32> = AvlTree::new();
    for x in 1..=size {
        tree.insert(x);
    }
    for x in (7..=size).step_by(7) {
        tree.delete(x);
    }
    for x in (13..=size).step_by(13) {
        tree.delete(x);
    }

    for x in 1..=size {
        if x % 7 != 0 && x % 13 != 0 {
            assert_eq!(x, tree.pop_first().unwrap());
        }
    }
}

#[test]
fn test_007() {
    // interleaved insertion followed by interleaved deletion
    
    let size = 100000;

    let mut tree: AvlTree<i32> = AvlTree::new();
    for x in (1..=size).step_by(3) {
        tree.insert(x);
    }
    for x in (2..=size).step_by(3) {
        tree.insert(x);
    }
    for x in (3..=size).step_by(3) {
        tree.insert(x);
    }
    for x in (1..=size).step_by(4) {
        tree.delete(x);
    }
    for x in (2..=size).step_by(4) {
        tree.delete(x);
    }
    for x in (4..=size).step_by(4) {
        tree.delete(x);
    }

    let mut next = 3;
    while next <= size {
        assert_eq!(next, tree.pop_first().unwrap());
        next += 4;
    }
    assert_eq!(tree.len(), 0);
}

#[test]
fn test_delete_replace_compound_000() {
    // case 1/6: at root, successor is right child

    let mut tree: AvlTree<i32> = AvlTree::new();
    util_insert_sequence(&mut tree, vec![8, 4, 12, 14]);
    util_verify_tree(&tree, 8, vec![
        (8, Some(4), Some(12), 1),
        (4, None, None, 0),
        (12, None, Some(14), 1),
        (14, None, None, 0),
    ]);

    tree.delete(8);

    util_verify_tree(&tree, 12, vec![
        (12, Some(4), Some(14), 0),
        (4, None, None, 0),
        (14, None, None, 0),
    ]);
}

#[test]
fn test_delete_replace_compound_001() {
    // case 2/6: at root, successor is not right child

    let mut tree: AvlTree<i32> = AvlTree::new();
    util_insert_sequence(&mut tree, vec![8, 4, 12, 2, 10, 14, 11]);
    util_verify_tree(&tree, 8, vec![
        (8, Some(4), Some(12), 1),
        (4, Some(2), None, -1),
        (12, Some(10), Some(14), -1),
        (2, None, None, 0),
        (10, None, Some(11), 1),
        (14, None, None, 0),
        (11, None, None, 0),
    ]);

    tree.delete(8);

    util_verify_tree(&tree, 10, vec![
        (10, Some(4), Some(12), 0),
        (4, Some(2), None, -1),
        (12, Some(11), Some(14), 0),
        (2, None, None, 0),
        (11, None, None, 0),
        (14, None, None, 0),
    ]);
}

#[test]
fn test_delete_replace_compound_002() {
    // case 3/6: at root, successor is not child or grandchild
    // (some retracing information in the successor's search stack
    // is not used unless more than 2 levels down)

    let mut tree: AvlTree<i32> = AvlTree::new();
    util_insert_sequence(&mut tree, vec![16, 8, 24, 4, 12, 20, 28, 6, 18, 22, 30, 19]);
    util_verify_tree(&tree, 16, vec![
        (16, Some(8), Some(24), 1),
        (8, Some(4), Some(12), -1),
        (24, Some(20), Some(28), -1),
        (4, None, Some(6), 1),
        (12, None, None, 0),
        (20, Some(18), Some(22), -1),
        (28, None, Some(30), 1),
        (6, None, None, 0),
        (18, None, Some(19), 1),
        (22, None, None, 0),
        (30, None, None, 0),
        (19, None, None, 0),
    ]);

    tree.delete(16);

    util_verify_tree(&tree, 18, vec![
        (18, Some(8), Some(24), 0),
        (8, Some(4), Some(12), -1),
        (24, Some(20), Some(28), 0),
        (4, None, Some(6), 1),
        (12, None, None, 0),
        (20, Some(19), Some(22), 0),
        (28, None, Some(30), 1),
        (6, None, None, 0),
        (19, None, None, 0),
        (22, None, None, 0),
        (30, None, None, 0),
    ]);
}

#[test]
fn test_delete_replace_compound_003() {
    // case 4/6: not at root, successor is right child

    let mut tree: AvlTree<i32> = AvlTree::new();
    util_insert_sequence(&mut tree, vec![16, 8, 24, 4, 12, 28, 14]);
    util_verify_tree(&tree, 16, vec![
        (16, Some(8), Some(24), -1),
        (8, Some(4), Some(12), 1),
        (24, None, Some(28), 1),
        (4, None, None, 0),
        (12, None, Some(14), 1),
        (28, None, None, 0),
        (14, None, None, 0),
    ]);

    tree.delete(8);

    util_verify_tree(&tree, 16, vec![
        (16, Some(12), Some(24), 0),
        (12, Some(4), Some(14), 0),
        (24, None, Some(28), 1),
        (4, None, None, 0),
        (14, None, None, 0),
        (28, None, None, 0),
    ]);
}

#[test]
fn test_delete_replace_compound_004() {
    // case 5/6: not at root, successor is not right child

    let mut tree: AvlTree<i32> = AvlTree::new();
    util_insert_sequence(&mut tree, vec![16, 8, 24, 4, 12, 20, 28, 6, 18, 26, 30, 27]);
    util_verify_tree(&tree, 16, vec![
        (16, Some(8), Some(24), 1),
        (8, Some(4), Some(12), -1),
        (24, Some(20), Some(28), 1),
        (4, None, Some(6), 1),
        (12, None, None, 0),
        (20, Some(18), None, -1),
        (28, Some(26), Some(30), -1),
        (6, None, None, 0),
        (18, None, None, 0),
        (26, None, Some(27), 1),
        (30, None, None, 0),
        (27, None, None, 0),
    ]);

    tree.delete(24);

    util_verify_tree(&tree, 16, vec![
        (16, Some(8), Some(26), 0),
        (8, Some(4), Some(12), -1),
        (26, Some(20), Some(28), 0),
        (4, None, Some(6), 1),
        (12, None, None, 0),
        (20, Some(18), None, -1),
        (28, Some(27), Some(30), 0),
        (6, None, None, 0),
        (18, None, None, 0),
        (27, None, None, 0),
        (30, None, None, 0),
    ]);
}

#[test]
fn test_delete_replace_compound_005() {
    // case 6/6: not at root, successor is not child or grandchild
    // (some retracing information in the successor's search stack
    // is not used unless more than 2 levels down)

    let mut tree: AvlTree<i32> = AvlTree::new();
    util_insert_sequence(&mut tree, vec![16, 8, 24, 4, 12, 20, 28, 6, 18, 26, 30, 25]);
    util_verify_tree(&tree, 16, vec![
        (16, Some(8), Some(24), 1),
        (8, Some(4), Some(12), -1),
        (24, Some(20), Some(28), 1),
        (4, None, Some(6), 1),
        (12, None, None, 0),
        (20, Some(18), None, -1),
        (28, Some(26), Some(30), -1),
        (6, None, None, 0),
        (18, None, None, 0),
        (26, Some(25), None, -1),
        (30, None, None, 0),
        (25, None, None, 0),
    ]);

    tree.delete(24);

    util_verify_tree(&tree, 16, vec![
        (16, Some(8), Some(25), 0),
        (8, Some(4), Some(12), -1),
        (25, Some(20), Some(28), 0),
        (4, None, Some(6), 1),
        (12, None, None, 0),
        (20, Some(18), None, -1),
        (28, Some(26), Some(30), 0),
        (6, None, None, 0),
        (18, None, None, 0),
        (26, None, None, 0),
        (30, None, None, 0),
    ]);
}

#[test]
fn test_rotate_left_delete_000() {
    // case 1/2 for deletion: right balance factor = 1

    let mut tree: AvlTree<i32> = AvlTree::new();
    util_insert_sequence(&mut tree, vec![8, 4, 12, 2, 10, 14, 13]);
    util_verify_tree(&tree, 8, vec![
        (8, Some(4), Some(12), 1),
        (4, Some(2), None, -1),
        (12, Some(10), Some(14), 1),
        (2, None, None, 0),
        (10, None, None, 0),
        (14, Some(13), None, -1),
        (13, None, None, 0),
    ]);
    
    tree.delete(4);

    util_verify_tree(&tree, 12, vec![
        (12, Some(8), Some(14), 0),
        (8, Some(2), Some(10), 0),
        (14, Some(13), None, -1),
        (2, None, None, 0),
        (10, None, None, 0),
        (13, None, None, 0),
    ]);
}

#[test]
fn test_rotate_left_delete_001() {
    // case 2/2 for deletion: right balance factor = 0

    let mut tree: AvlTree<i32> = AvlTree::new();
    util_insert_sequence(&mut tree, vec![8, 4, 12, 2, 10, 14, 9, 13]);
    util_verify_tree(&tree, 8, vec![
        (8, Some(4), Some(12), 1),
        (4, Some(2), None, -1),
        (12, Some(10), Some(14), 0),
        (2, None, None, 0),
        (10, Some(9), None, -1),
        (14, Some(13), None, -1),
        (9, None, None, 0),
        (13, None, None, 0),
    ]);
    
    tree.delete(4);

    util_verify_tree(&tree, 12, vec![
        (12, Some(8), Some(14), -1),
        (8, Some(2), Some(10), 1),
        (14, Some(13), None, -1),
        (2, None, None, 0),
        (10, Some(9), None, -1),
        (13, None, None, 0),
        (9, None, None, 0),
    ]);
}

#[test]
fn test_rotate_left_insert_000() {
    // only case for insertion: right balance factor must be 1
    
    let mut tree: AvlTree<i32> = AvlTree::new();
    util_insert_sequence(&mut tree, vec![8, 4, 12, 10, 14]);
    util_verify_tree(&tree, 8, vec![
        (4, None, None, 0),
        (8, Some(4), Some(12), 1),
        (10, None, None, 0),
        (12, Some(10), Some(14), 0),
        (14, None, None, 0),
    ]);

    tree.insert(13);

    util_verify_tree(&tree, 12, vec![
        (4, None, None, 0),
        (8, Some(4), Some(10), 0),
        (10, None, None, 0),
        (12, Some(8), Some(14), 0),
        (13, None, None, 0),
        (14, Some(13), None, -1),
    ]);
}

#[test]
fn test_rotate_leftright_delete_000() {
    // case 1/3 for deletion: left-right balance factor = -1

    let mut tree: AvlTree<i32> = AvlTree::new();
    util_insert_sequence(&mut tree, vec![8, 4, 12, 2, 6, 14, 5]);
    util_verify_tree(&tree, 8, vec![
        (8, Some(4), Some(12), -1),
        (4, Some(2), Some(6), 1),
        (12, None, Some(14), 1),
        (2, None, None, 0),
        (6, Some(5), None, -1),
        (14, None, None, 0),
        (5, None, None, 0),
    ]);

    tree.delete(12);
    
    util_verify_tree(&tree, 6, vec![
        (6, Some(4), Some(8), 0),
        (4, Some(2), Some(5), 0),
        (8, None, Some(14), 1),
        (2, None, None, 0),
        (5, None, None, 0),
        (14, None, None, 0),
    ]);
}

#[test]
fn test_rotate_leftright_delete_001() {
    // case 2/3 for deletion: left-right balance factor = 0

    let mut tree: AvlTree<i32> = AvlTree::new();
    util_insert_sequence(&mut tree, vec![8, 4, 12, 2, 6, 14, 5, 7]);
    util_verify_tree(&tree, 8, vec![
        (8, Some(4), Some(12), -1),
        (4, Some(2), Some(6), 1),
        (12, None, Some(14), 1),
        (2, None, None, 0),
        (6, Some(5), Some(7), 0),
        (14, None, None, 0),
        (5, None, None, 0),
        (7, None, None, 0),
    ]);

    tree.delete(14);

    util_verify_tree(&tree, 6, vec![
        (6, Some(4), Some(8), 0),
        (4, Some(2), Some(5), 0),
        (8, Some(7), Some(12), 0),
        (2, None, None, 0),
        (5, None, None, 0),
        (7, None, None, 0),
        (12, None, None, 0),
    ]);
}

#[test]
fn test_rotate_leftright_delete_002() {
    // case 3/3 for deletion: left-right balance factor = 1

    let mut tree: AvlTree<i32> = AvlTree::new();
    util_insert_sequence(&mut tree, vec![8, 4, 12, 2, 6, 10, 7]);
    util_verify_tree(&tree, 8, vec![
        (8, Some(4), Some(12), -1),
        (4, Some(2), Some(6), 1),
        (12, Some(10), None, -1),
        (2, None, None, 0),
        (6, None, Some(7), 1),
        (10, None, None, 0),
        (7, None, None, 0),
    ]);

    tree.delete(12);

    util_verify_tree(&tree, 6, vec![
        (6, Some(4), Some(8), 0),
        (4, Some(2), None, -1),
        (8, Some(7), Some(10), 0),
        (2, None, None, 0),
        (7, None, None, 0),
        (10, None, None, 0),
    ]);
}

#[test]
fn test_rotate_leftright_insert_000() {
    // case 1/2 for insertion: left-right balance factor = -1

    let mut tree: AvlTree<i32> = AvlTree::new();
    util_insert_sequence(&mut tree, vec![8, 4, 12, 2, 6]);
    util_verify_tree(&tree, 8, vec![
        (2, None, None, 0),
        (4, Some(2), Some(6), 0),
        (6, None, None, 0),
        (8, Some(4), Some(12), -1),
        (12, None, None, 0),
    ]);

    tree.insert(5);

    util_verify_tree(&tree, 6, vec![
        (2, None, None, 0),
        (4, Some(2), Some(5), 0),
        (5, None, None, 0),
        (6, Some(4), Some(8), 0),
        (8, None, Some(12), 1),
        (12, None, None, 0),
    ]);
}

#[test]
fn test_rotate_leftright_insert_001() {
    // case 2/2 for insertion: left-right balance factor = 1

    let mut tree: AvlTree<i32> = AvlTree::new();
    util_insert_sequence(&mut tree, vec![8, 4, 12, 2, 6]);
    util_verify_tree(&tree, 8, vec![
        (2, None, None, 0),
        (4, Some(2), Some(6), 0),
        (6, None, None, 0),
        (8, Some(4), Some(12), -1),
        (12, None, None, 0),
    ]);

    tree.insert(7);

    util_verify_tree(&tree, 6, vec![
        (2, None, None, 0),
        (4, Some(2), None, -1),
        (6, Some(4), Some(8), 0),
        (7, None, None, 0),
        (8, Some(7), Some(12), 0),
        (12, None, None, 0),
    ]);
}

#[test]
fn test_rotate_right_delete_000() {
    // case 1/2 for deletion: left balance factor = -1

    let mut tree: AvlTree<i32> = AvlTree::new();
    util_insert_sequence(&mut tree, vec![8, 4, 12, 2, 6, 14, 3]);
    util_verify_tree(&tree, 8, vec![
        (8, Some(4), Some(12), -1),
        (4, Some(2), Some(6), -1),
        (12, None, Some(14), 1),
        (2, None, Some(3), 1),
        (6, None, None, 0),
        (14, None, None, 0),
        (3, None, None, 0),
    ]);

    tree.delete(12);

    util_verify_tree(&tree, 4, vec![
        (4, Some(2), Some(8), 0),
        (2, None, Some(3), 1),
        (8, Some(6), Some(14), 0),
        (3, None, None, 0),
        (6, None, None, 0),
        (14, None, None, 0),
    ]);
}

#[test]
fn test_rotate_right_delete_001() {
    // case 2/2 for deletion: right balance factor = 0

    let mut tree: AvlTree<i32> = AvlTree::new();
    util_insert_sequence(&mut tree, vec![8, 4, 12, 2, 6, 14, 3, 7]);
    util_verify_tree(&tree, 8, vec![
        (8, Some(4), Some(12), -1),
        (4, Some(2), Some(6), 0),
        (12, None, Some(14), 1),
        (2, None, Some(3), 1),
        (6, None, Some(7), 1),
        (14, None, None, 0),
        (3, None, None, 0),
        (7, None, None, 0),
    ]);
    
    tree.delete(12);

    util_verify_tree(&tree, 4, vec![
        (4, Some(2), Some(8), 1),
        (2, None, Some(3), 1),
        (8, Some(6), Some(14), -1),
        (3, None, None, 0),
        (6, None, Some(7), 1),
        (14, None, None, 0),
        (7, None, None, 0),
    ]);
}

#[test]
fn test_rotate_right_insert_000() {
    // only case for insertion: left balance factor must be -1

    let mut tree: AvlTree<i32> = AvlTree::new();
    util_insert_sequence(&mut tree, vec![8, 4, 12, 2, 6]);
    util_verify_tree(&tree, 8, vec![
        (2, None, None, 0),
        (4, Some(2), Some(6), 0),
        (6, None, None, 0),
        (8, Some(4), Some(12), -1),
        (12, None, None, 0),
    ]);

    tree.insert(3);

    util_verify_tree(&tree, 4, vec![
        (2, None, Some(3), 1),
        (3, None, None, 0),
        (4, Some(2), Some(8), 0),
        (6, None, None, 0),
        (8, Some(6), Some(12), 0),
        (12, None, None, 0),
    ]);
}

#[test]
fn test_rotate_rightleft_delete_000() {
    // case 1/3 for deletion: right-left balance factor = 1

    let mut tree: AvlTree<i32> = AvlTree::new();
    util_insert_sequence(&mut tree, vec![8, 4, 12, 2, 10, 14, 11]);
    util_verify_tree(&tree, 8, vec![
        (8, Some(4), Some(12), 1),
        (4, Some(2), None, -1),
        (12, Some(10), Some(14), -1),
        (2, None, None, 0),
        (10, None, Some(11), 1),
        (14, None, None, 0),
        (11, None, None, 0),
    ]);

    tree.delete(4);

    util_verify_tree(&tree, 10, vec![
        (10, Some(8), Some(12), 0),
        (8, Some(2), None, -1),
        (12, Some(11), Some(14), 0),
        (2, None, None, 0),
        (11, None, None, 0),
        (14, None, None, 0),
    ]);
}

#[test]
fn test_rotate_rightleft_delete_001() {
    // case 2/3 for deletion: right-left balance factor = 0

    let mut tree: AvlTree<i32> = AvlTree::new();
    util_insert_sequence(&mut tree, vec![8, 4, 12, 2, 10, 14, 9, 11]);
    util_verify_tree(&tree, 8, vec![
        (8, Some(4), Some(12), 1),
        (4, Some(2), None, -1),
        (12, Some(10), Some(14), -1),
        (2, None, None, 0),
        (10, Some(9), Some(11), 0),
        (14, None, None, 0),
        (9, None, None, 0),
        (11, None, None, 0),
    ]);

    tree.delete(2);

    util_verify_tree(&tree, 10, vec![
        (10, Some(8), Some(12), 0),
        (8, Some(4), Some(9), 0),
        (12, Some(11), Some(14), 0),
        (4, None, None, 0),
        (9, None, None, 0),
        (11, None, None, 0),
        (14, None, None, 0),
    ]);
}

#[test]
fn test_rotate_rightleft_delete_002() {
    // case 3/3 for deletion: right-left balance factor = -1

    let mut tree: AvlTree<i32> = AvlTree::new();
    util_insert_sequence(&mut tree, vec![8, 4, 12, 6, 10, 14, 9]);
    util_verify_tree(&tree, 8, vec![
        (8, Some(4), Some(12), 1),
        (4, None, Some(6), 1),
        (12, Some(10), Some(14), -1),
        (6, None, None, 0),
        (10, Some(9), None, -1),
        (14, None, None, 0),
        (9, None, None, 0),
    ]);

    tree.delete(4);

    util_verify_tree(&tree, 10, vec![
        (10, Some(8), Some(12), 0),
        (8, Some(6), Some(9), 0),
        (12, None, Some(14), 1),
        (6, None, None, 0),
        (9, None, None, 0),
        (14, None, None, 0),
    ]);
}

#[test]
fn test_rotate_rightleft_insert_000() {
    // case 1/2 for insertion: right-left balance factor = 1
    
    let mut tree: AvlTree<i32> = AvlTree::new();
    util_insert_sequence(&mut tree, vec![8, 4, 12, 10, 14]);
    util_verify_tree(&tree, 8, vec![
        (4, None, None, 0),
        (8, Some(4), Some(12), 1),
        (10, None, None, 0),
        (12, Some(10), Some(14), 0),
        (14, None, None, 0),
    ]);

    tree.insert(11);

    util_verify_tree(&tree, 10, vec![
        (4, None, None, 0),
        (8, Some(4), None, -1),
        (10, Some(8), Some(12), 0),
        (11, None, None, 0),
        (12, Some(11), Some(14), 0),
        (14, None, None, 0),
    ]);
}

#[test]
fn test_rotate_rightleft_insert_001() {
    // case 2/2 for insertion: right-left balance factor = -1
    
    let mut tree: AvlTree<i32> = AvlTree::new();
    util_insert_sequence(&mut tree, vec![8, 4, 12, 10, 14]);
    util_verify_tree(&tree, 8, vec![
        (4, None, None, 0),
        (8, Some(4), Some(12), 1),
        (10, None, None, 0),
        (12, Some(10), Some(14), 0),
        (14, None, None, 0),
    ]);

    tree.insert(9);

    util_verify_tree(&tree, 10, vec![
        (4, None, None, 0),
        (8, Some(4), Some(9), 0),
        (9, None, None, 0),
        (10, Some(8), Some(12), 0),
        (12, None, Some(14), 1),
        (14, None, None, 0),
    ]);
}

#[test]
fn test_insert_same_key_replaces_and_returns_old() {
    let mut tree: AvlTree<i32> = AvlTree::new();
    assert!(tree.insert(5).is_none());
    assert!(tree.insert(3).is_none());
    assert_eq!(tree.insert(5), Some(5));
    assert_eq!(tree.len(), 2);
    assert_eq!(util_pop_all(&mut tree), vec![3, 5]);
}

#[test]
fn test_empty_tree() {
    let mut tree: AvlTree<i32> = AvlTree::new();
    assert_eq!(tree.len(), 0);
    assert!(tree.peek_first().is_none());
    assert!(tree.root_item().is_none());
    assert!(tree.node_info(3).is_none());
    assert!(tree.pop_first().is_none());
    assert!(tree.delete(3).is_none());
    assert_eq!(tree.len(), 0);
}

#[test]
fn test_delete_absent_key_leaves_items() {
    let mut tree: AvlTree<i32> = AvlTree::new();
    util_insert_sequence(&mut tree, vec![10, 20, 30]);
    assert!(tree.delete(15).is_none());
    assert!(tree.delete(40).is_none());
    assert!(tree.delete(5).is_none());
    assert_eq!(tree.len(), 3);
    assert!(tree.node_info(15).is_none());
    assert_eq!(util_pop_all(&mut tree), vec![10, 20, 30]);
}

#[test]
fn test_insert_then_delete_restores_items() {
    let mut tree: AvlTree<i32> = AvlTree::new();
    util_insert_sequence(&mut tree, vec![1, 3, 5, 7, 9]);
    assert!(tree.insert(4).is_none());
    assert_eq!(tree.delete(4), Some(4));
    assert_eq!(util_pop_all(&mut tree), vec![1, 3, 5, 7, 9]);
}

#[test]
fn test_delete_then_insert_restores_items() {
    let mut tree: AvlTree<i32> = AvlTree::new();
    util_insert_sequence(&mut tree, vec![1, 3, 5, 7, 9]);
    let x = tree.delete(5).unwrap();
    assert!(tree.insert(x).is_none());
    assert_eq!(util_pop_all(&mut tree), vec![1, 3, 5, 7, 9]);
}

#[test]
fn test_peek_first_is_least() {
    let mut tree: AvlTree<i32> = AvlTree::new();
    util_insert_sequence(&mut tree, vec![42, -7, 13, 0, 99]);
    assert_eq!(tree.peek_first(), Some(&-7));
    assert_eq!(tree.pop_first(), Some(-7));
    assert_eq!(tree.peek_first(), Some(&0));
    assert_eq!(tree.len(), 4);
}

#[test]
fn test_compact_keeps_items() {
    let mut tree: AvlTree<i32> = AvlTree::new();
    util_insert_sequence(&mut tree, (0..20).collect());
    // one deletion below the compaction threshold
    assert_eq!(tree.delete(3), Some(3));
    tree.compact();
    assert_eq!(tree.len(), 19);
    assert!(tree.insert(3).is_none());
    let expected: Vec<i32> = (0..20).collect();
    assert_eq!(util_pop_all(&mut tree), expected);
}

#[test]
fn test_lazy_deletion_and_refill() {
    // deletions below the threshold leave deleted slots that insertions fill again
    let mut tree: AvlTree<i32> = AvlTree::new();
    util_insert_sequence(&mut tree, vec![1, 2, 3, 4, 5, 6, 7, 8]);
    util_delete_sequence(&mut tree, vec![2, 4, 6]);
    util_insert_sequence(&mut tree, vec![20, 40, 60]);
    assert_eq!(tree.len(), 8);
    assert_eq!(util_pop_all(&mut tree), vec![1, 3, 5, 7, 8, 20, 40, 60]);
}

#[test]
fn test_tree_stays_balanced_on_sorted_insertions() {
    let mut tree: AvlTree<i32> = AvlTree::new();
    util_insert_sequence(&mut tree, vec![1, 2, 3, 4, 5, 6, 7]);
    util_verify_tree(&tree, 4, vec![
        (4, Some(2), Some(6), 0),
        (2, Some(1), Some(3), 0),
        (6, Some(5), Some(7), 0),
        (1, None, None, 0),
        (3, None, None, 0),
        (5, None, None, 0),
        (7, None, None, 0),
    ]);
}

#[test]
fn test_small_index_type() {
    let mut tree: AvlTree<i32, i32> = AvlTree::new();
    for x in (0..50).rev() {
        assert!(tree.insert(x).is_none());
    }
    for x in 0..50 {
        if x % 2 == 0 {
            assert_eq!(tree.delete(x), Some(x));
        }
    }
    assert_eq!(tree.len(), 25);
    let mut next = 1;
    while let Some(x) = tree.pop_first() {
        assert_eq!(x, next);
        next += 2;
    }
    assert_eq!(next, 51);
}
