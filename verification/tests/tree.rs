use mancala_solver::tree::{Node, Tree, MAX_TREE_SIZE};

#[test]
fn a_new_tree_has_no_children() {
    let tree: Tree<6> = Tree::new();
    assert_eq!(tree.head, 0);
    assert_eq!(tree.data.len(), MAX_TREE_SIZE);
    for node in &tree.data {
        assert_eq!(node.evaluation, 0);
        assert_eq!(node.children, [None; 6]);
    }
    assert_eq!(tree.get_child(Some(3), 2), None);
    assert_eq!(tree.get_child(None, 9), None);
}

#[test]
fn places_are_given_out_in_turn() {
    let mut tree: Tree<3> = Tree::new();
    assert_eq!(tree.create_root(), 0);
    assert_eq!(tree.create_root(), 1);
    let mut parent = Node { evaluation: 7, children: [None; 3] };
    tree.add(&mut parent, 2);
    assert_eq!(parent.children, [None, None, Some(2)]);
    assert_eq!(parent.evaluation, 7);
    assert_eq!(tree.head, 3);
    *tree.get(0) = parent;
    assert_eq!(tree.get_child(Some(0), 2), Some(2));
    assert_eq!(tree.get_child(Some(0), 1), None);
    tree.get(2).evaluation = -4;
    assert_eq!(tree.data[2].evaluation, -4);
    tree.head = usize::MAX;
    assert_eq!(tree.create_root(), usize::MAX);
    assert_eq!(tree.head, 0);
}
