use bst_tree::levels::get_next_iter_nodes;
use bst_tree::levels::is_some_in_vec;
use bst_tree::tree::Node;
use bst_tree::tree::Tree;

#[test]
fn one_some() {
    let n = Node::new(3);
    let v = vec![None, None, Some(&n)];
    assert_eq!(is_some_in_vec(&v), true);
}

#[test]
fn no_some() {
    let v: Vec<Option<&Node>> = vec![None, None, None, None];

    assert_eq!(is_some_in_vec(&v), false);
}

#[test]
fn all_some() {
    let n1 = Node::new(2);
    let n2 = Node::new(3);
    let v = vec![Some(&n1), Some(&n2)];

    assert_eq!(is_some_in_vec(&v), true);
}

#[test]
fn should_add_some() {
    let mut node = Tree::new(2);
    node.add_node(1);

    let mut nodes = vec![Some(node.0.as_ref().unwrap().as_ref())];

    nodes = get_next_iter_nodes(nodes);

    let exp_node = Node::new(1);
    let expected_nodes = vec![Option::from(&exp_node), None];
    assert_eq!(nodes, expected_nodes);
}

#[test]
fn should_add_none() {
    let node = None;
    let mut nodes = vec![node];

    nodes = get_next_iter_nodes(nodes);

    let expected_nodes: Vec<Option<&Node>> = vec![None, None];
    assert_eq!(nodes, expected_nodes);
}

#[test]
fn snapshot_of_empty_tree_has_no_rows() {
    let tree = Tree::default();
    let rows: Vec<Vec<Option<i32>>> = tree.snapshot();
    assert_eq!(rows.len(), 0);
}

#[test]
fn snapshot_of_single_node() {
    let tree = Tree::new(7);
    let rows = tree.snapshot();
    assert_eq!(rows, vec![vec![Some(7)], vec![None, None]]);
}

#[test]
fn snapshot_rows_match_expected_layout() {
    let mut tree = Tree::new(4);
    tree.add_node(2);
    tree.add_node(6);
    tree.add_node(1);

    let rows = tree.snapshot();
    let expected = vec![
        vec![Some(4)],
        vec![Some(2), Some(6)],
        vec![Some(1), None, None, None],
        vec![None, None, None, None, None, None, None, None],
    ];
    assert_eq!(rows, expected);
    for (k, row) in rows.iter().enumerate() {
        assert_eq!(row.len(), 1usize << k);
    }
}

#[test]
fn duplicate_insert_changes_nothing() {
    let mut tree = Tree::new(5);
    tree.add_node(3);
    tree.add_node(8);

    let depth_before = tree.get_depth();
    let rows_before = tree.snapshot();

    tree.add_node(3);

    assert_eq!(tree.get_depth(), depth_before);
    assert_eq!(tree.snapshot(), rows_before);
}

#[test]
fn delete_absent_keeps_snapshot_identical() {
    let mut tree = Tree::new(5);
    tree.add_node(3);
    tree.add_node(8);

    let rows_before = tree.snapshot();

    assert_eq!(tree.del_node(4), false);
    assert_eq!(tree.snapshot(), rows_before);
}

#[test]
fn delete_present_removes_value_everywhere() {
    let mut tree = Tree::new(5);
    tree.add_node(3);
    tree.add_node(8);
    tree.add_node(7);

    assert_eq!(tree.del_node(8), true);

    let rows = tree.snapshot();
    for row in rows.iter() {
        for slot in row.iter() {
            assert_ne!(*slot, Some(8));
        }
    }
    assert_eq!(rows[0][0], Some(5));
    assert_eq!(rows[1], vec![Some(3), Some(7)]);
}
