use widgets::tree::interaction::{click_select, insert_id, remove_id};
use widgets::tree::order::{contains_id, find_state, BranchState};
use widgets::tree::registry::{BranchDecl, Registry};
use widgets::tree::state::TreeState;

#[test]
fn id_set_helpers() {
    let mut v = vec![3, 1, 3];
    assert!(contains_id(&v, 1));
    remove_id(&mut v, 3);
    assert_eq!(v, vec![1]);
    insert_id(&mut v, 1);
    assert_eq!(v, vec![1]);
    insert_id(&mut v, 4);
    assert_eq!(v, vec![1, 4]);
    assert!(!contains_id(&v, 3));
}

#[test]
fn click_select_semantics() {
    let mut sel = vec![1, 2];
    click_select(&mut sel, 5, false);
    assert_eq!(sel, vec![5]);
    click_select(&mut sel, 6, true);
    assert_eq!(sel, vec![5, 6]);
    click_select(&mut sel, 5, true);
    assert_eq!(sel, vec![6]);
}

#[test]
fn find_state_first_match() {
    let order = vec![
        BranchState { id: 4, parent_id: None, depth: 0 },
        BranchState { id: 2, parent_id: Some(4), depth: 1 },
    ];
    assert_eq!(find_state(&order, 2), Some(BranchState { id: 2, parent_id: Some(4), depth: 1 }));
    assert_eq!(find_state(&order, 9), None);
}

#[test]
fn prepare_layout_resets_order_on_request() {
    let roots = vec![BranchDecl::new().with_id(1), BranchDecl::new().with_id(2)];
    let mut reg = Registry::new(&roots);
    let mut state = TreeState::new(&reg.branches);
    state.branch_order = Some(vec![
        BranchState { id: 1, parent_id: None, depth: 0 },
        BranchState { id: 0, parent_id: Some(1), depth: 1 },
    ]);
    state.prepare_layout(&mut reg, false);
    assert!(reg.branches[1].has_children);
    assert_eq!(state.expanded, vec![1]);
    assert_eq!(state.visible_branches, vec![true, true]);
    state.prepare_layout(&mut reg, true);
    let order = state.branch_order.clone().unwrap();
    assert_eq!(order[0], BranchState { id: 0, parent_id: None, depth: 0 });
    assert_eq!(order[1], BranchState { id: 1, parent_id: None, depth: 0 });
    assert!(!reg.branches[1].has_children);
}

#[test]
fn toggle_expanded_on_state() {
    let reg = Registry::new(&vec![BranchDecl::new()]);
    let mut state = TreeState::new(&reg.branches);
    state.toggle_expanded(0);
    assert_eq!(state.expanded, vec![0]);
    state.toggle_expanded(0);
    assert!(state.expanded.is_empty());
}

#[test]
fn branch_decl_builders() {
    let d = BranchDecl::new().with_id(9).accepts_drops().block_dragging();
    assert_eq!(d.external_id, 9);
    assert!(d.accepts_drops);
    assert!(!d.draggable);
    let d = BranchDecl::new().with_children(vec![BranchDecl::new()]);
    assert_eq!(d.children.len(), 1);
    assert!(d.draggable);
}
