use widgets::tree::controller::Placement;
use widgets::tree::interaction::{
    calculate_drop_position, drag_threshold_reached, filter_redundant_selections, Metrics, NavKey,
    PressOutcome,
};
use widgets::tree::order::{
    get_branch_info, get_ordered_indices, initial_order, update_has_children, BranchState,
};
use widgets::tree::registry::{flatten, BranchDecl, Registry};
use widgets::tree::reorder::{is_descendant_of, moves_with_drag, reorder_branches};
use widgets::tree::state::{DragActive, Offset, Point, Rect, TreeState};
use widgets::tree::DropPosition;

fn leaf(ext: usize) -> BranchDecl {
    BranchDecl::new().with_id(ext)
}

fn node(ext: usize, children: Vec<BranchDecl>) -> BranchDecl {
    BranchDecl::new().with_id(ext).with_children(children)
}

fn st(id: usize, parent: Option<usize>, depth: u16) -> BranchState {
    BranchState { id, parent_id: parent, depth }
}

fn metrics() -> Metrics {
    Metrics { padding_x: 10, padding_y: 5, spacing: 4, indent: 20 }
}

fn bounds() -> Rect {
    Rect { x: 0, y: 0, width: 300, height: 400 }
}

/// A registry and a laid-out state, every row 32 pixels high.
fn laid_out(roots: Vec<BranchDecl>) -> (Registry, TreeState) {
    let mut reg = Registry::new(&roots);
    let mut state = TreeState::new(&reg.branches);
    state.prepare_layout(&mut reg, false);
    state.branch_heights = vec![32; reg.branches.len()];
    (reg, state)
}

fn drag(state: &mut TreeState, dragged: Vec<usize>, target: usize, position: DropPosition) {
    state.drag_active = Some(DragActive {
        dragged_nodes: dragged,
        primary_node: 0,
        drag_start_bounds: Rect { x: 0, y: 0, width: 0, height: 0 },
        click_offset: Offset { dx: 0, dy: 0 },
        current_position: Point { x: 0, y: 0 },
        drop_target: Some(target),
        drop_position: position,
    });
}

#[test]
fn flatten_is_preorder() {
    // A[B[C,D],E]
    let roots = vec![node(10, vec![node(20, vec![leaf(30), leaf(40)]), leaf(50)])];
    let flat = flatten(&roots);
    let ids: Vec<usize> = flat.iter().map(|b| b.id).collect();
    let ext: Vec<usize> = flat.iter().map(|b| b.external_id).collect();
    let parents: Vec<Option<usize>> = flat.iter().map(|b| b.parent_id).collect();
    let depths: Vec<u16> = flat.iter().map(|b| b.depth).collect();
    assert_eq!(ids, vec![0, 1, 2, 3, 4]);
    assert_eq!(ext, vec![10, 20, 30, 40, 50]);
    assert_eq!(parents, vec![None, Some(0), Some(1), Some(1), Some(0)]);
    assert_eq!(depths, vec![0, 1, 2, 2, 1]);
    assert!(flat[0].has_children && flat[1].has_children && !flat[2].has_children);
}

#[test]
fn flatten_several_roots() {
    let roots = vec![node(1, vec![leaf(2)]), leaf(3), node(4, vec![leaf(5)])];
    let flat = flatten(&roots);
    let parents: Vec<Option<usize>> = flat.iter().map(|b| b.parent_id).collect();
    assert_eq!(parents, vec![None, Some(0), None, None, Some(3)]);
    assert!(flatten(&Vec::new()).is_empty());
}

#[test]
fn duplicate_external_ids_last_wins() {
    let roots = vec![leaf(7), leaf(8), leaf(7)];
    let reg = Registry::new(&roots);
    assert_eq!(reg.duplicate_external_ids, vec![7]);
    assert_eq!(reg.internal_id_of(7), Some(2));
    assert_eq!(reg.internal_id_of(8), Some(1));
    assert_eq!(reg.internal_id_of(9), None);
}

#[test]
fn preferred_id_uses_external_when_set() {
    let roots = vec![leaf(70), BranchDecl::new()];
    let reg = Registry::new(&roots);
    assert_eq!(reg.preferred_id(0), 70);
    assert_eq!(reg.preferred_id(1), 1);
    assert_eq!(reg.preferred_id(5), 5);
}

#[test]
fn visibility_follows_expansion() {
    // A[B[C]]
    let (reg, mut state) = laid_out(vec![node(1, vec![node(2, vec![leaf(3)])])]);
    state.expanded = vec![0];
    assert!(state.is_branch_visible(&reg.branches, 0));
    assert!(state.is_branch_visible(&reg.branches, 1));
    assert!(!state.is_branch_visible(&reg.branches, 2));
    assert!(!state.is_branch_visible(&reg.branches, 9));
}

#[test]
fn dragged_branch_and_descendants_are_hidden() {
    let (reg, mut state) = laid_out(vec![node(1, vec![node(2, vec![leaf(3)])]), leaf(4)]);
    drag(&mut state, vec![1], 3, DropPosition::After);
    assert!(state.is_branch_visible(&reg.branches, 0));
    assert!(!state.is_branch_visible(&reg.branches, 1));
    assert!(!state.is_branch_visible(&reg.branches, 2));
    assert!(state.is_branch_visible(&reg.branches, 3));
}

#[test]
fn new_state_expands_parents() {
    let reg = Registry::new(&vec![node(1, vec![leaf(2)]), leaf(3)]);
    let state = TreeState::new(&reg.branches);
    assert_eq!(state.expanded, vec![0]);
    assert!(state.selected.is_empty());
    assert!(state.branch_order.is_none());
}

#[test]
fn drag_threshold() {
    let start = Point { x: 100, y: 10 };
    assert!(!drag_threshold_reached(start, Point { x: 104, y: 10 }));
    assert!(drag_threshold_reached(start, Point { x: 106, y: 10 }));
    assert!(drag_threshold_reached(start, Point { x: 105, y: 10 }));
    assert!(drag_threshold_reached(start, Point { x: 103, y: 14 }));
    assert!(!drag_threshold_reached(start, Point { x: 103, y: 13 }));
}

#[test]
fn press_then_move_arms_drag_past_threshold() {
    let (reg, mut state) = laid_out(vec![leaf(1)]);
    let out = state.handle_press(&reg.branches, bounds(), metrics(), Point { x: 100, y: 10 }, false);
    assert_eq!(out, PressOutcome::Branch { row: 0, index: 0 });
    assert!(state.drag_pending.is_some());
    assert_eq!(state.selected, vec![0]);
    assert_eq!(state.focused, Some(0));
    assert!(!state.handle_cursor_moved(&reg.branches, bounds(), metrics(), Point { x: 104, y: 10 }));
    assert!(state.drag_active.is_none());
    assert!(state.handle_cursor_moved(&reg.branches, bounds(), metrics(), Point { x: 106, y: 10 }));
    let active = state.drag_active.as_ref().expect("drag started");
    assert_eq!(active.dragged_nodes, vec![0]);
    assert!(state.drag_pending.is_none());
}

#[test]
fn release_before_threshold_cancels_pending() {
    let (reg, mut state) = laid_out(vec![leaf(1)]);
    state.handle_press(&reg.branches, bounds(), metrics(), Point { x: 100, y: 10 }, false);
    state.handle_release();
    assert!(state.drag_pending.is_none());
    assert!(!state.handle_cursor_moved(&reg.branches, bounds(), metrics(), Point { x: 150, y: 10 }));
    assert!(state.drag_active.is_none());
}

#[test]
fn press_on_arrow_toggles_expansion() {
    let (reg, mut state) = laid_out(vec![node(1, vec![leaf(2)])]);
    assert_eq!(state.expanded, vec![0]);
    // Arrow column of the root: x in [10, 26), row y in [5, 37).
    let out = state.handle_press(&reg.branches, bounds(), metrics(), Point { x: 12, y: 10 }, false);
    assert_eq!(out, PressOutcome::Arrow { row: 0, id: 0 });
    assert!(state.expanded.is_empty());
    assert!(state.drag_pending.is_none());
}

#[test]
fn press_misses_below_rows() {
    let (reg, mut state) = laid_out(vec![leaf(1)]);
    let out = state.handle_press(&reg.branches, bounds(), metrics(), Point { x: 100, y: 200 }, false);
    assert_eq!(out, PressOutcome::Miss);
    assert!(state.selected.is_empty());
}

#[test]
fn non_draggable_branch_selects_without_arming() {
    let (reg, mut state) = laid_out(vec![leaf(1).block_dragging()]);
    let out = state.handle_press(&reg.branches, bounds(), metrics(), Point { x: 100, y: 10 }, false);
    assert_eq!(out, PressOutcome::Branch { row: 0, index: 0 });
    assert_eq!(state.selected, vec![0]);
    assert!(state.drag_pending.is_none());
}

#[test]
fn ctrl_click_toggles_selection() {
    let (reg, mut state) = laid_out(vec![leaf(1), leaf(2)]);
    state.handle_press(&reg.branches, bounds(), metrics(), Point { x: 100, y: 10 }, false);
    // Second row: y in [41, 73).
    state.handle_press(&reg.branches, bounds(), metrics(), Point { x: 100, y: 50 }, true);
    let mut sel = state.selected.clone();
    sel.sort();
    assert_eq!(sel, vec![0, 1]);
    state.handle_press(&reg.branches, bounds(), metrics(), Point { x: 100, y: 10 }, true);
    assert_eq!(state.selected, vec![1]);
}

#[test]
fn selection_minimality() {
    // A[B]
    let (reg, mut state) = laid_out(vec![node(1, vec![leaf(2)])]);
    state.selected = vec![0, 1];
    assert_eq!(filter_redundant_selections(&state.selected, &reg.branches, &state.branch_order), vec![0]);
    state.handle_press(&reg.branches, bounds(), metrics(), Point { x: 100, y: 10 }, true);
    let pending = state.drag_pending.as_ref().expect("armed");
    assert_eq!(pending.branch_ids, vec![0]);
    assert_eq!(pending.primary_branch_id, 0);
}

#[test]
fn minimal_selection_keeps_unrelated() {
    let (reg, _state) = laid_out(vec![node(1, vec![leaf(2)]), leaf(3)]);
    let sel = vec![1, 2];
    assert_eq!(filter_redundant_selections(&sel, &reg.branches, &None), vec![1, 2]);
}

#[test]
fn drop_position_thirds() {
    assert_eq!(calculate_drop_position(5, 0, 30, false, false, false), DropPosition::Before);
    assert_eq!(calculate_drop_position(25, 0, 30, false, false, false), DropPosition::After);
    assert_eq!(calculate_drop_position(15, 0, 30, true, true, false), DropPosition::Into);
    assert_eq!(calculate_drop_position(15, 0, 30, false, false, true), DropPosition::Into);
    assert_eq!(calculate_drop_position(15, 0, 30, true, false, false), DropPosition::After);
    assert_eq!(calculate_drop_position(14, 0, 30, false, false, false), DropPosition::Before);
    assert_eq!(calculate_drop_position(125, 100, 30, false, false, false), DropPosition::After);
}

#[test]
fn reorder_before() {
    let order = vec![st(0, None, 0), st(1, None, 0), st(2, None, 0)];
    let r = reorder_branches(&order, &vec![1], 0, DropPosition::Before);
    assert_eq!(r, vec![st(1, None, 0), st(0, None, 0), st(2, None, 0)]);
}

#[test]
fn reorder_into() {
    let order = vec![st(0, None, 0), st(1, None, 0)];
    let r = reorder_branches(&order, &vec![1], 0, DropPosition::Into);
    assert_eq!(r, vec![st(0, None, 0), st(1, Some(0), 1)]);
}

#[test]
fn reorder_into_through_state_expands_target() {
    // [A, B] at root; drag B into A.
    let (mut reg, mut state) = laid_out(vec![leaf(10), leaf(20)]);
    assert!(state.expanded.is_empty());
    drag(&mut state, vec![1], 0, DropPosition::Into);
    let info = state.finish_drag(&mut reg).expect("drop applied");
    assert_eq!(info.dragged_ids, vec![20]);
    assert_eq!(info.target_id, Some(10));
    assert_eq!(info.position, DropPosition::Into);
    assert!(state.drag_active.is_none());
    let (_, parent, depth) = get_branch_info(&reg.branches, 1, &state.branch_order);
    assert_eq!(parent, Some(0));
    assert_eq!(depth, 1);
    assert!(reg.branches[0].has_children);
    assert_eq!(state.expanded, vec![0]);
}

#[test]
fn reorder_after_pops_to_root() {
    // C at root, A[B], D at root; B is the sole child of A.
    let order = vec![st(0, None, 0), st(1, None, 0), st(2, Some(1), 1), st(3, None, 0)];
    let r = reorder_branches(&order, &vec![3], 2, DropPosition::After);
    assert_eq!(r, vec![st(0, None, 0), st(1, None, 0), st(2, Some(1), 1), st(3, None, 0)]);
    // With a root after B, D stays a sibling of B.
    let order = vec![st(1, None, 0), st(2, Some(1), 1), st(0, None, 0), st(3, None, 0)];
    let r = reorder_branches(&order, &vec![3], 2, DropPosition::After);
    assert_eq!(r, vec![st(1, None, 0), st(2, Some(1), 1), st(3, Some(1), 1), st(0, None, 0)]);
}

#[test]
fn reorder_after_skips_target_descendants() {
    // A[B[C]], D; drop D after A: lands after A's subtree, as a root.
    let order = vec![st(0, None, 0), st(1, Some(0), 1), st(2, Some(1), 2), st(3, None, 0)];
    let r = reorder_branches(&order, &vec![3], 0, DropPosition::After);
    assert_eq!(r, order);
    // E, A[B]; drop E after A.
    let order = vec![st(4, None, 0), st(0, None, 0), st(1, Some(0), 1)];
    let r = reorder_branches(&order, &vec![4], 0, DropPosition::After);
    assert_eq!(r, vec![st(0, None, 0), st(1, Some(0), 1), st(4, None, 0)]);
}

#[test]
fn reorder_moves_whole_subtree_with_depth_shift() {
    // A, B[C[D]]; drop B into A.
    let order = vec![st(0, None, 0), st(1, None, 0), st(2, Some(1), 1), st(3, Some(2), 2)];
    let r = reorder_branches(&order, &vec![1], 0, DropPosition::Into);
    assert_eq!(
        r,
        vec![st(0, None, 0), st(1, Some(0), 1), st(2, Some(1), 2), st(3, Some(2), 3)]
    );
}

#[test]
fn reorder_into_own_descendant_is_a_no_op() {
    // A[B]; dropping A into B would make a cycle.
    let order = vec![st(0, None, 0), st(1, Some(0), 1)];
    let r = reorder_branches(&order, &vec![0], 1, DropPosition::Into);
    assert_eq!(r, order);
    let r = reorder_branches(&order, &vec![0], 7, DropPosition::Before);
    assert_eq!(r, order);
}

/// Walks up from every id at most `len` steps and checks that a root is
/// reached and the walk never meets the starting id.
fn acyclic(order: &[BranchState]) -> bool {
    for e in order {
        let mut cur = e.parent_id;
        let mut steps = 0;
        while let Some(p) = cur {
            if p == e.id || steps > order.len() {
                return false;
            }
            cur = order.iter().find(|s| s.id == p).and_then(|s| s.parent_id);
            steps += 1;
        }
    }
    true
}

#[test]
fn no_cycles_after_many_drops() {
    let mut order = vec![
        st(0, None, 0),
        st(1, Some(0), 1),
        st(2, Some(1), 2),
        st(3, None, 0),
        st(4, Some(3), 1),
    ];
    let positions = [DropPosition::Before, DropPosition::After, DropPosition::Into];
    for step in 0..60usize {
        let dragged = vec![step % 5];
        let target = (step * 3 + 1) % 5;
        let position = positions[step % 3].clone();
        order = reorder_branches(&order, &dragged, target, position);
        assert!(acyclic(&order), "cycle after step {step}: {order:?}");
        assert_eq!(order.len(), 5);
    }
}

#[test]
fn descendants_and_moving_set() {
    let order = vec![st(0, None, 0), st(1, Some(0), 1), st(2, Some(1), 2), st(3, None, 0)];
    assert!(is_descendant_of(2, 0, &order));
    assert!(!is_descendant_of(0, 2, &order));
    assert!(!is_descendant_of(0, 0, &order));
    assert!(moves_with_drag(&order, &vec![1], 2));
    assert!(!moves_with_drag(&order, &vec![1], 0));
    assert!(!moves_with_drag(&order, &vec![1], 3));
}

#[test]
fn ordered_indices_keeps_persisted_order_and_appends_new() {
    let reg = Registry::new(&vec![leaf(1), leaf(2), leaf(3)]);
    let order = Some(vec![st(2, None, 0), st(0, None, 0), st(9, None, 0)]);
    assert_eq!(get_ordered_indices(&reg.branches, &order), vec![2, 0, 1]);
    assert_eq!(get_ordered_indices(&reg.branches, &None), vec![0, 1, 2]);
}

#[test]
fn branch_info_falls_back_to_declared() {
    let reg = Registry::new(&vec![node(1, vec![leaf(2)])]);
    let order = Some(vec![st(0, None, 0)]);
    assert_eq!(get_branch_info(&reg.branches, 1, &order), (1, Some(0), 1));
    let order = Some(vec![st(1, None, 0)]);
    assert_eq!(get_branch_info(&reg.branches, 1, &order), (1, None, 0));
}

#[test]
fn update_has_children_reports_new_parents() {
    let mut reg = Registry::new(&vec![leaf(1), leaf(2)]);
    let order = Some(vec![st(0, None, 0), st(1, Some(0), 1)]);
    let newly = update_has_children(&mut reg.branches, &order);
    assert_eq!(newly, vec![0]);
    assert!(reg.branches[0].has_children);
    assert!(!reg.branches[1].has_children);
    let again = update_has_children(&mut reg.branches, &order);
    assert!(again.is_empty());
}

#[test]
fn declared_order_resolves_like_no_order() {
    let reg = Registry::new(&vec![node(1, vec![node(2, vec![leaf(3)])]), leaf(4)]);
    let declared = Some(initial_order(&reg.branches));
    for i in 0..reg.branches.len() {
        assert_eq!(
            get_branch_info(&reg.branches, i, &declared),
            get_branch_info(&reg.branches, i, &None)
        );
    }
    assert_eq!(
        get_ordered_indices(&reg.branches, &declared),
        get_ordered_indices(&reg.branches, &None)
    );
    let (reg, mut state) = laid_out(vec![node(1, vec![node(2, vec![leaf(3)])]), leaf(4)]);
    let with_order = state.layout_positions(&reg.branches, metrics());
    state.branch_order = None;
    state.update_visibility(&reg.branches);
    let without = state.layout_positions(&reg.branches, metrics());
    assert_eq!(with_order, without);
}

#[test]
fn layout_positions_stack_rows() {
    let (reg, state) = laid_out(vec![node(1, vec![leaf(2)]), leaf(3)]);
    let (placed, end) = state.layout_positions(&reg.branches, metrics());
    assert_eq!(
        placed,
        vec![
            Placement { index: 0, x: 40, y: 5 },
            Placement { index: 1, x: 60, y: 41 },
            Placement { index: 2, x: 40, y: 77 },
        ]
    );
    assert_eq!(end, 113);
}

#[test]
fn layout_positions_leave_a_preview_gap() {
    let (reg, mut state) = laid_out(vec![leaf(1), leaf(2), leaf(3)]);
    drag(&mut state, vec![2], 0, DropPosition::Before);
    state.update_visibility(&reg.branches);
    let (placed, end) = state.layout_positions(&reg.branches, metrics());
    assert_eq!(
        placed,
        vec![Placement { index: 0, x: 40, y: 41 }, Placement { index: 1, x: 40, y: 77 }]
    );
    assert_eq!(end, 113);
}

#[test]
fn drop_target_follows_pointer() {
    let (reg, mut state) = laid_out(vec![leaf(1), leaf(2), leaf(3)]);
    drag(&mut state, vec![2], 0, DropPosition::Before);
    state.drag_active.as_mut().unwrap().drop_target = None;
    state.update_visibility(&reg.branches);
    // Rows: 0 at [5, 37), 1 at [41, 73). Bottom third of row 1.
    assert!(state.update_drop_target(&reg.branches, bounds(), metrics(), Point { x: 50, y: 70 }));
    let d = state.drag_active.as_ref().unwrap();
    assert_eq!(d.drop_target, Some(1));
    assert_eq!(d.drop_position, DropPosition::After);
    assert_eq!(d.current_position, Point { x: 50, y: 70 });
    // Top third of row 0.
    assert!(state.update_drop_target(&reg.branches, bounds(), metrics(), Point { x: 50, y: 6 }));
    let d = state.drag_active.as_ref().unwrap();
    assert_eq!(d.drop_target, Some(0));
    assert_eq!(d.drop_position, DropPosition::Before);
    // Far below the last row: after the last row.
    assert!(state.update_drop_target(&reg.branches, bounds(), metrics(), Point { x: 50, y: 300 }));
    let d = state.drag_active.as_ref().unwrap();
    assert_eq!(d.drop_target, Some(1));
    assert_eq!(d.drop_position, DropPosition::After);
    assert!(!state.update_drop_target(&reg.branches, bounds(), metrics(), Point { x: 50, y: 301 }));
}

#[test]
fn cancel_drag_keeps_order() {
    let (mut reg, mut state) = laid_out(vec![leaf(1), leaf(2)]);
    let before = state.branch_order.clone();
    drag(&mut state, vec![1], 0, DropPosition::Before);
    state.cancel_drag();
    assert!(state.drag_active.is_none());
    assert!(state.finish_drag(&mut reg).is_none());
    assert_eq!(state.branch_order, before);
}

#[test]
fn finish_drag_abandons_stale_ids() {
    let (mut reg, mut state) = laid_out(vec![leaf(1), leaf(2)]);
    let before = state.branch_order.clone();
    drag(&mut state, vec![5], 0, DropPosition::Before);
    assert!(state.finish_drag(&mut reg).is_none());
    assert!(state.drag_active.is_none());
    assert_eq!(state.branch_order, before);
}

#[test]
fn keyboard_navigation() {
    // A[B], C; all expanded.
    let (reg, mut state) = laid_out(vec![node(1, vec![leaf(2)]), leaf(3)]);
    assert!(!state.handle_key(&reg.branches, NavKey::Down, false));
    state.focused = Some(0);
    state.handle_key(&reg.branches, NavKey::Down, false);
    assert_eq!(state.focused, Some(1));
    state.handle_key(&reg.branches, NavKey::Down, false);
    assert_eq!(state.focused, Some(2));
    state.handle_key(&reg.branches, NavKey::Down, false);
    assert_eq!(state.focused, Some(2));
    state.handle_key(&reg.branches, NavKey::Up, false);
    state.handle_key(&reg.branches, NavKey::Up, false);
    assert_eq!(state.focused, Some(0));
    state.handle_key(&reg.branches, NavKey::Left, false);
    assert!(state.expanded.is_empty());
    state.handle_key(&reg.branches, NavKey::Right, false);
    assert_eq!(state.expanded, vec![0]);
    assert!(state.handle_key(&reg.branches, NavKey::Space, false));
    assert_eq!(state.selected, vec![0]);
    assert!(state.handle_key(&reg.branches, NavKey::Space, true));
    assert!(state.selected.is_empty());
}

#[test]
fn hover_tracks_row_and_handle() {
    let (reg, mut state) = laid_out(vec![leaf(1), leaf(2)]);
    state.handle_cursor_moved(&reg.branches, bounds(), metrics(), Point { x: 200, y: 50 });
    assert_eq!(state.hovered, Some(1));
    assert_eq!(state.hovered_handle, None);
    // Handle area of a root row: x in [26, 50).
    state.handle_cursor_moved(&reg.branches, bounds(), metrics(), Point { x: 30, y: 10 });
    assert_eq!(state.hovered, Some(0));
    assert_eq!(state.hovered_handle, Some(0));
    state.handle_cursor_moved(&reg.branches, bounds(), metrics(), Point { x: 30, y: 390 });
    assert_eq!(state.hovered, None);
}

#[test]
fn rect_contains_edges() {
    let r = Rect { x: 0, y: 0, width: 10, height: 5 };
    assert!(r.contains(Point { x: 0, y: 0 }));
    assert!(!r.contains(Point { x: 10, y: 0 }));
    assert!(!r.contains(Point { x: 0, y: 5 }));
    assert!(r.contains(Point { x: 9, y: 4 }));
}

#[test]
fn non_draggable_selected_branch_stays_out_of_drag() {
    // A draggable, B not; both selected; press on A.
    let (reg, mut state) = laid_out(vec![leaf(1), leaf(2).block_dragging()]);
    state.selected = vec![0, 1];
    state.handle_press(&reg.branches, bounds(), metrics(), Point { x: 100, y: 10 }, true);
    let pending = state.drag_pending.as_ref().expect("armed");
    assert_eq!(pending.branch_ids, vec![0]);
}

#[test]
fn non_draggable_selected_parent_does_not_hide_child() {
    // A (not draggable) with child B, both selected; press on B.
    let (reg, mut state) = laid_out(vec![node(1, vec![leaf(2)]).block_dragging()]);
    state.selected = vec![0, 1];
    state.handle_press(&reg.branches, bounds(), metrics(), Point { x: 100, y: 50 }, true);
    let pending = state.drag_pending.as_ref().expect("armed");
    assert_eq!(pending.branch_ids, vec![1]);
}

#[test]
fn reorder_keeps_nesting_of_dragged_at_several_depths() {
    // X(0), P(0), Y(1, under P), Z(2, under Y), T(0); drag X and Y before T.
    let order = vec![
        st(0, None, 0),
        st(1, None, 0),
        st(2, Some(1), 1),
        st(3, Some(2), 2),
        st(4, None, 0),
    ];
    let r = reorder_branches(&order, &vec![0, 2], 4, DropPosition::Before);
    assert_eq!(
        r,
        vec![st(1, None, 0), st(0, None, 0), st(2, None, 0), st(3, Some(2), 1), st(4, None, 0)]
    );
}

#[test]
fn fluid_unit_shares_leftover_height() {
    let (reg, state) = laid_out(vec![leaf(1), leaf(2), leaf(3)]);
    // Rows 0 and 2 fixed at 40, row 1 with fill factor 2.
    let heights = vec![40, 0, 40];
    let fills = vec![0, 2, 0];
    // 400 - 80 - 2*5 - 2*4 = 302; per unit 151.
    assert_eq!(state.fluid_unit(&reg.branches, &heights, &fills, 400, metrics()), 151);
    assert_eq!(state.fluid_unit(&reg.branches, &heights, &vec![0, 0, 0], 400, metrics()), 0);
    assert_eq!(state.fluid_unit(&reg.branches, &heights, &fills, 50, metrics()), 0);
}

#[test]
fn fluid_unit_ignores_dragged_rows() {
    let (reg, mut state) = laid_out(vec![leaf(1), leaf(2), leaf(3)]);
    drag(&mut state, vec![2], 0, DropPosition::Before);
    state.update_visibility(&reg.branches);
    let heights = vec![40, 0, 0];
    let fills = vec![0, 2, 4];
    // Rows 0 and 1 count: 400 - 40 - 10 - 4 = 346; per unit 173.
    assert_eq!(state.fluid_unit(&reg.branches, &heights, &fills, 400, metrics()), 173);
}

#[test]
fn drop_rows_include_preview_gap() {
    let (reg, mut state) = laid_out(vec![leaf(1), leaf(2), leaf(3)]);
    drag(&mut state, vec![2], 0, DropPosition::Before);
    state.update_visibility(&reg.branches);
    let rows = state.drop_rows_of(&reg.branches, bounds(), metrics());
    let tops: Vec<i128> = rows.iter().map(|r| r.top).collect();
    assert_eq!(tops, vec![41, 77]);
    // The pointer at y = 20 now lies in the gap above row 0, near no row;
    // it is not below the last row either, so the target stays.
    assert!(!state.update_drop_target(&reg.branches, bounds(), metrics(), Point { x: 50, y: 20 }));
    let d = state.drag_active.as_ref().unwrap();
    assert_eq!(d.drop_target, Some(0));
    assert_eq!(d.drop_position, DropPosition::Before);
}

#[test]
fn drop_onto_dragged_descendant_reports_nothing() {
    // A[B]; drag A onto B: B moves with A, so nothing happens.
    let (mut reg, mut state) = laid_out(vec![node(1, vec![leaf(2)])]);
    let before = state.branch_order.clone();
    drag(&mut state, vec![0], 1, DropPosition::Into);
    assert!(state.finish_drag(&mut reg).is_none());
    assert!(state.drag_active.is_none());
    assert_eq!(state.branch_order, before);
}

#[test]
fn drop_onto_branch_missing_from_saved_order_reports_nothing() {
    let (mut reg, mut state) = laid_out(vec![leaf(1), leaf(2)]);
    // The saved order predates branch 1.
    state.branch_order = Some(vec![st(0, None, 0)]);
    let before = state.branch_order.clone();
    drag(&mut state, vec![0], 1, DropPosition::Before);
    assert!(state.finish_drag(&mut reg).is_none());
    assert_eq!(state.branch_order, before);
}

#[test]
fn selection_minimality_either_order() {
    // A[B]; selection held as [B, A]; plain press on A's row.
    let (reg, mut state) = laid_out(vec![node(1, vec![leaf(2)])]);
    state.selected = vec![1, 0];
    let out = state.handle_press(&reg.branches, bounds(), metrics(), Point { x: 100, y: 10 }, false);
    assert_eq!(out, PressOutcome::Branch { row: 0, index: 0 });
    let pending = state.drag_pending.as_ref().expect("armed");
    assert_eq!(pending.branch_ids, vec![0]);
    assert_eq!(pending.primary_branch_id, 0);
    assert_eq!(state.selected, vec![0]);
    assert_eq!(state.focused, Some(0));
}
