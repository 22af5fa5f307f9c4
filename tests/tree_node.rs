use widgets::tree::tree_node::{treenode, TreeNode};

fn sample() -> TreeNode {
    // 1[2[4,5],3]
    TreeNode::new(1).with_children(vec![
        TreeNode::new(2).with_children(vec![TreeNode::new(4), TreeNode::new(5)]),
        TreeNode::new(3),
    ])
}

#[test]
fn new_node_defaults() {
    let n = treenode(7);
    assert_eq!(n.id, 7);
    assert!(n.children.is_empty());
    assert!(!n.accepts_drops);
    assert!(!n.draggable);
    assert!(!n.expanded);
    let n = n.accepts_drops().expanded(true).block_dragging();
    assert!(n.accepts_drops);
    assert!(n.expanded);
    assert!(!n.draggable);
}

#[test]
fn collect_ids_is_preorder() {
    assert_eq!(sample().collect_ids(), vec![1, 2, 4, 5, 3]);
}

#[test]
fn find_locates_nested_node() {
    let t = sample();
    assert_eq!(t.find(5).map(|n| n.id), Some(5));
    assert_eq!(t.find(2).map(|n| n.children.len()), Some(2));
    assert!(t.find(9).is_none());
}

#[test]
fn find_mut_edits_in_place() {
    let mut t = sample();
    if let Some(n) = t.find_mut(4) {
        n.accepts_drops = true;
    }
    assert!(t.find(4).unwrap().accepts_drops);
    assert!(t.find_mut(42).is_none());
}

#[test]
fn add_child_to_nested_parent() {
    let mut t = sample();
    assert!(t.add_child_to(3, TreeNode::new(6)));
    assert_eq!(t.collect_ids(), vec![1, 2, 4, 5, 3, 6]);
    assert!(!t.add_child_to(99, TreeNode::new(7)));
    assert_eq!(t.collect_ids(), vec![1, 2, 4, 5, 3, 6]);
}

#[test]
fn add_child_appends() {
    let mut t = TreeNode::new(1);
    t.add_child(TreeNode::new(2));
    t.add_child(TreeNode::new(3));
    assert_eq!(t.collect_ids(), vec![1, 2, 3]);
}

#[test]
fn remove_node_takes_subtree_out() {
    let mut t = sample();
    let removed = t.remove_node(2).expect("node 2 is there");
    assert_eq!(removed.collect_ids(), vec![2, 4, 5]);
    assert_eq!(t.collect_ids(), vec![1, 3]);
    assert!(t.remove_node(2).is_none());
    assert!(t.remove_node(1).is_none());
}

#[test]
fn remove_node_nested() {
    let mut t = sample();
    let removed = t.remove_node(5).expect("node 5 is there");
    assert_eq!(removed.id, 5);
    assert_eq!(t.collect_ids(), vec![1, 2, 4, 3]);
}

#[test]
fn move_node_reparents() {
    let mut t = sample();
    assert!(t.move_node(4, 3));
    assert_eq!(t.collect_ids(), vec![1, 2, 5, 3, 4]);
    assert!(!t.move_node(42, 3));
    assert_eq!(t.collect_ids(), vec![1, 2, 5, 3, 4]);
}

#[test]
fn toggle_expanded_at_flips_flag() {
    let mut t = sample();
    assert!(t.toggle_expanded_at(2));
    assert!(t.find(2).unwrap().expanded);
    assert!(t.toggle_expanded_at(2));
    assert!(!t.find(2).unwrap().expanded);
    assert!(!t.toggle_expanded_at(77));
    t.toggle_expanded();
    assert!(t.expanded);
}

#[test]
fn yields_removal_matches_remove_node() {
    let t = sample();
    assert!(t.yields_removal(4));
    assert!(!t.yields_removal(1));
    assert!(!t.yields_removal(8));
}

#[test]
fn move_node_to_missing_parent_changes_nothing() {
    let mut t = TreeNode::new(1).with_children(vec![TreeNode::new(2)]);
    assert!(!t.move_node(2, 99));
    assert_eq!(t.collect_ids(), vec![1, 2]);
}

#[test]
fn move_node_into_own_subtree_changes_nothing() {
    let mut t = sample();
    assert!(!t.move_node(2, 4));
    assert_eq!(t.collect_ids(), vec![1, 2, 4, 5, 3]);
    assert!(!t.move_node(2, 2));
    assert_eq!(t.collect_ids(), vec![1, 2, 4, 5, 3]);
}

#[test]
fn removed_holds_looks_inside_removed_subtree() {
    let t = sample();
    assert!(t.removed_holds(2, 5));
    assert!(!t.removed_holds(2, 3));
    assert!(!t.removed_holds(9, 1));
}
