use bst_tree::tree::Message;
use bst_tree::tree::Node;
use bst_tree::tree::Tree;

fn prepare_tree() -> Tree {
    /*
            5
         /     \
       2        7
     /  \      /  \
    0    4    6    8
    \   /           \
     1 3             9
    */
    let mut root = Tree::new(5);
    // left
    root.add_node(2);
    root.add_node(0);
    root.add_node(4);
    root.add_node(1);
    root.add_node(3);
    // right
    root.add_node(7);
    root.add_node(6);
    root.add_node(8);
    root.add_node(9);
    root
}

#[test]
fn node_single_node_tree() {
    let root = Tree::new(1);

    assert_eq!(root.get_depth(), 1);
}

#[test]
fn node_left_depth_if_bigger() {
    let mut root = Tree::new(5);
    root.add_node(3);
    root.add_node(2);
    root.add_node(1);
    root.add_node(6);

    assert_eq!(root.get_depth(), 4);
}

#[test]
fn node_right_depth_if_bigger() {
    let mut root = Tree::new(3);
    root.add_node(5);
    root.add_node(4);
    root.add_node(6);
    root.add_node(1);

    assert_eq!(root.get_depth(), 3);
}

#[test]
fn node_depth_is_one_hundred() {
    let mut root = Tree::new(0);
    for i in 1..100 {
        root.add_node(i);
    }

    assert_eq!(root.get_depth(), 100);
}

#[test]
fn tree_should_connect_on_middle_node_deleted() {
    let mut root = Tree::new(0);
    root.add_node(1);
    root.add_node(2);
    assert_eq!(root.get_depth(), 3);

    root.del_node(1);
    assert_eq!(root.get_depth(), 2);
}

#[test]
fn should_delete_root() {
    let mut root = Tree::new(0);
    assert_eq!(root.get_depth(), 1);

    root.del_node(0);
    assert_eq!(root.get_depth(), 0);
}

#[test]
fn extract_node_from_complex_tree() {
    let mut root = prepare_tree();
    assert_eq!(root.0.as_mut().unwrap().right.extract_min(), 6);
}

#[test]
fn extract_left_node() {
    let mut root = Tree::new(5);
    root.add_node(3);

    assert_eq!(root.extract_min(), 3);
}

#[test]
fn lib_single_node_tree() {
    let root = Box::new(Node::new(1));

    assert_eq!(root.get_depth(), 1);
}

#[test]
fn lib_left_depth_if_bigger() {
    let mut root = Box::new(Node::new(5));
    root.add_node(3);
    root.add_node(2);
    root.add_node(1);
    root.add_node(6);

    assert_eq!(root.get_depth(), 4);
}

#[test]
fn lib_right_depth_if_bigger() {
    let mut root = Box::new(Node::new(3));
    root.add_node(5);
    root.add_node(4);
    root.add_node(6);
    root.add_node(1);

    assert_eq!(root.get_depth(), 3);
}

#[test]
fn lib_depth_is_one_hundred() {
    let mut root = Box::new(Node::new(0));
    for i in 1..100 {
        root.add_node(i);
    }

    assert_eq!(root.get_depth(), 100);
}

#[test]
fn single_node_lifecycle() {
    let mut tree = Tree::default();
    assert_eq!(tree.get_depth(), 0);

    tree.add_node(1);
    assert_eq!(tree.get_depth(), 1);

    assert_eq!(tree.del_node(1), true);
    assert_eq!(tree.get_depth(), 0);
}

#[test]
fn ascending_chain_is_fully_degenerate() {
    let mut tree = Tree::default();
    for i in 0..100 {
        tree.add_node(i);
    }

    assert_eq!(tree.get_depth(), 100);
}

#[test]
fn two_children_deletion_promotes_successor() {
    let mut root = prepare_tree();

    assert_eq!(root.del_node(5), true);

    // The root's value is overwritten with the in-order successor, 6, and the
    // donor node is removed from the right subtree.
    assert_eq!(root.0.as_ref().unwrap().value, 6);
    let rows = root.snapshot();
    let mut seen: Vec<i32> = vec![];
    for row in rows.iter() {
        for slot in row.iter() {
            if let Some(v) = slot {
                seen.push(*v);
            }
        }
    }
    seen.sort();
    assert_eq!(seen, vec![0, 1, 2, 3, 4, 6, 7, 8, 9]);

    // BST ordering is intact: an in-order walk of the remaining nodes, read
    // off the snapshot rows by repeated minimum extraction, stays sorted.
    let mut drained: Vec<i32> = vec![];
    while root.0.is_some() {
        drained.push(root.extract_min());
    }
    assert_eq!(drained, vec![0, 1, 2, 3, 4, 6, 7, 8, 9]);
}

#[test]
fn delete_on_absent_value_returns_false() {
    let mut root = prepare_tree();

    assert_eq!(root.del_node(42), false);
    assert_eq!(root.del_node(-1), false);
}

#[test]
fn delete_returns_true_for_every_present_value() {
    let mut root = prepare_tree();

    for v in [9, 0, 5, 7, 3, 1, 8, 2, 6, 4] {
        assert_eq!(root.del_node(v), true);
        assert_eq!(root.del_node(v), false);
    }
    assert_eq!(root.get_depth(), 0);
}

#[test]
fn update_applies_messages() {
    let mut tree = Tree::default();

    tree.update(Message::AddChild, 4);
    tree.update(Message::AddChild, 3);
    tree.update(Message::AddChild, 6);
    assert_eq!(tree.get_depth(), 2);

    tree.update(Message::DelChild, 3);
    let rows = tree.snapshot();
    assert_eq!(rows[0], vec![Some(4)]);
    assert_eq!(rows[1], vec![None, Some(6)]);

    tree.update(Message::DelChild, 4);
    tree.update(Message::DelChild, 6);
    assert_eq!(tree.get_depth(), 0);
}

#[test]
fn mixed_signs_survive_mutation_sequence() {
    let mut root = Tree::new(4);
    root.add_node(3);
    root.add_node(6);
    root.add_node(0);
    root.add_node(-2);
    assert_eq!(root.get_depth(), 4);

    assert_eq!(root.del_node(3), true);
    assert_eq!(root.del_node(6), true);
    assert_eq!(root.del_node(0), true);
    assert_eq!(root.del_node(-2), true);
    assert_eq!(root.del_node(4), true);
    assert_eq!(root.get_depth(), 0);
    assert_eq!(root.snapshot().len(), 0);
}

#[test]
fn depth_matches_height_for_permutations() {
    // Insertion orders of the same values, with the depth each shape has.
    let cases: Vec<(Vec<i32>, u32)> = vec![
        (vec![2, 1, 3], 2),
        (vec![1, 2, 3], 3),
        (vec![3, 2, 1], 3),
        (vec![2, 3, 1], 2),
        (vec![4, 2, 6, 1, 3, 5, 7], 3),
        (vec![4, 6, 2, 7, 5, 3, 1], 3),
    ];
    for (values, depth) in cases {
        let mut tree = Tree::default();
        for v in values {
            tree.add_node(v);
        }
        assert_eq!(tree.get_depth(), depth);
    }
}
