use redistricter::tree::{Tree, TreeNode};

#[test]
fn new_tree_is_zeroed() {
    let t = Tree::new(3);
    assert_eq!(t.nodes.len(), 3);
    assert_eq!(t.costs.len(), 3);
    assert_eq!(t.nodes[1].dep, 0);
    assert!(t.nodes[1].parent.is_none());
    assert_eq!(t.costs[2], 0);
}

#[test]
fn clear_resets_the_root() {
    let mut t = Tree::new(2);
    t.costs[0] = 9;
    t.nodes[0] = TreeNode { dep: 4, parent: Some(1), arc_to_parent: Some(2) };
    t.clear();
    assert_eq!(t.costs[0], 0);
    assert_eq!(t.nodes[0].dep, 1);
    assert!(t.nodes[0].parent.is_none());
    assert!(t.nodes[0].arc_to_parent.is_none());
}

#[test]
fn traverse_lists_the_path_between_two_leaves() {
    // Root 0 with children 1 and 2: the path from 1 to 2 first walks 1's
    // parent arc upward, then 2's parent arc flipped to point downward.
    let mut t = Tree::new(3);
    t.nodes[1] = TreeNode { dep: 2, parent: Some(0), arc_to_parent: Some(3) };
    t.nodes[2] = TreeNode { dep: 2, parent: Some(0), arc_to_parent: Some(5) };
    let path = t.traverse(1, 2);
    assert_eq!(path, vec![3, 4]);
    let back = t.traverse(2, 1);
    assert_eq!(back, vec![5, 2]);
    let up = t.traverse(1, 0);
    assert_eq!(up, vec![3]);
    let down = t.traverse(0, 2);
    assert_eq!(down, vec![4]);
    let nowhere = t.traverse(2, 2);
    assert!(nowhere.is_empty());
}
