//! The tree widget's retained state, and the visibility of its branches.

use vstd::prelude::*;
use crate::tree::DropPosition;
use crate::tree::registry::{BranchDescriptor, ids_are_indices};
use crate::tree::order::{BranchState, branch_info, opt_view, get_branch_info, contains_id};

verus! {

broadcast use vstd::std_specs::vec::group_vec_axioms;

/// A point, in whole pixels.
#[derive(Debug, Clone, Copy, PartialEq, Eq, Structural)]
pub struct Point {
    pub x: i32,
    pub y: i32,
}

/// A displacement, in whole pixels.
#[derive(Debug, Clone, Copy, PartialEq, Eq, Structural)]
pub struct Offset {
    pub dx: i64,
    pub dy: i64,
}

/// An axis-aligned rectangle, in whole pixels.
#[derive(Debug, Clone, Copy, PartialEq, Eq, Structural)]
pub struct Rect {
    pub x: i32,
    pub y: i32,
    pub width: u32,
    pub height: u32,
}

impl Rect {
    /// Whether `p` lies inside: left and top edges included, right and
    /// bottom edges excluded.
    pub open spec fn holds(self, p: Point) -> bool {
        &&& self.x <= p.x < self.x + self.width
        &&& self.y <= p.y < self.y + self.height
    }

    /// Whether `p` lies inside.
    pub fn contains(&self, p: Point) -> (r: bool)
        ensures
            r == self.holds(p),
    {
        let x = self.x as i128;
        let y = self.y as i128;
        x <= p.x as i128 && (p.x as i128) < x + self.width as i128 && y <= p.y as i128 && (p.y as i128)
            < y + self.height as i128
    }
}

/// A pointer-down that may become a drag once the pointer moves far enough.
#[derive(Debug, Clone)]
pub struct DragPending {
    pub start_position: Point,
    pub branch_ids: Vec<usize>,
    pub primary_branch_id: usize,
    pub branch_bounds: Rect,
    pub click_offset: Offset,
}

/// A drag in progress.
#[derive(Debug, Clone)]
pub struct DragActive {
    pub dragged_nodes: Vec<usize>,
    pub primary_node: usize,
    pub drag_start_bounds: Rect,
    pub click_offset: Offset,
    pub current_position: Point,
    pub drop_target: Option<usize>,
    pub drop_position: DropPosition,
}

/// Everything the tree keeps between frames. Per-branch vectors are
/// indexed by registry index.
#[derive(Debug)]
pub struct TreeState {
    pub expanded: Vec<usize>,
    pub branch_heights: Vec<u32>,
    pub branch_widths: Vec<u32>,
    pub visible_branches: Vec<bool>,
    pub selected: Vec<usize>,
    pub focused: Option<usize>,
    pub hovered: Option<usize>,
    pub hovered_handle: Option<usize>,
    pub drag_pending: Option<DragPending>,
    pub drag_active: Option<DragActive>,
    pub branch_order: Option<Vec<BranchState>>,
}

/// The ids being dragged, if a drag is active.
pub open spec fn dragged_of(state: &TreeState) -> Option<Seq<usize>> {
    match state.drag_active {
        Some(d) => Some(d.dragged_nodes@),
        None => None,
    }
}

/// `id` is being dragged.
pub open spec fn is_dragged(dragged: Option<Seq<usize>>, id: usize) -> bool {
    match dragged {
        Some(d) => d.contains(id),
        None => false,
    }
}

/// Visibility of the branch at index `i`, looking at most `fuel` levels up:
/// it is not dragged, and it is a root or its parent is expanded and itself
/// visible.
pub open spec fn visible_within(
    branches: Seq<BranchDescriptor>,
    order: Option<Seq<BranchState>>,
    dragged: Option<Seq<usize>>,
    expanded: Seq<usize>,
    i: int,
    fuel: nat,
) -> bool
    decreases fuel,
{
    if !(0 <= i < branches.len()) || fuel == 0 {
        false
    } else {
        let (id, parent, _) = branch_info(branches[i], order);
        if is_dragged(dragged, id) {
            false
        } else {
            match parent {
                None => true,
                Some(p) => p < branches.len() && expanded.contains(p) && visible_within(
                    branches,
                    order,
                    dragged,
                    expanded,
                    p as int,
                    (fuel - 1) as nat,
                ),
            }
        }
    }
}

/// Whether the branch at index `i` is rendered: neither it nor any ancestor
/// is dragged, and every ancestor is expanded. Ancestors are looked up
/// through the resolved parents, at most as many levels as there are
/// branches.
pub open spec fn is_visible(
    branches: Seq<BranchDescriptor>,
    order: Option<Seq<BranchState>>,
    dragged: Option<Seq<usize>>,
    expanded: Seq<usize>,
    i: int,
) -> bool {
    visible_within(branches, order, dragged, expanded, i, branches.len())
}

/// Whether the branch at `index` is rendered in `state`.
pub open spec fn visible_in(branches: Seq<BranchDescriptor>, state: &TreeState, index: int) -> bool {
    is_visible(branches, opt_view(&state.branch_order), dragged_of(state), state.expanded@, index)
}

/// The ids of the first `k` branches that have children, in registry order.
pub open spec fn parents_of(branches: Seq<BranchDescriptor>, k: int) -> Seq<usize>
    decreases k,
{
    if k <= 0 {
        Seq::empty()
    } else if branches[k - 1].has_children {
        parents_of(branches, k - 1).push(branches[k - 1].id)
    } else {
        parents_of(branches, k - 1)
    }
}

/// With ids equal to indices, the parents listed among the first `k`
/// branches are distinct ids below `k`.
proof fn lemma_parents_of_distinct(branches: Seq<BranchDescriptor>, k: int)
    requires
        ids_are_indices(branches),
        0 <= k <= branches.len(),
    ensures
        parents_of(branches, k).no_duplicates(),
        forall|j: int| 0 <= j < parents_of(branches, k).len() ==> #[trigger] parents_of(branches, k)[j] < k,
    decreases k,
{
    if k > 0 {
        lemma_parents_of_distinct(branches, k - 1);
        let rest = parents_of(branches, k - 1);
        let all = parents_of(branches, k);
        assert(branches[k - 1].id == k - 1);
        assert forall|j: int| 0 <= j < all.len() implies #[trigger] all[j] < k by {
            if j < rest.len() {
                assert(all[j] == rest[j]);
            }
        }
        assert forall|i: int, j: int| 0 <= i < all.len() && 0 <= j < all.len() && i != j implies all[i]
            != all[j] by {
            if i < rest.len() && j < rest.len() {
                assert(all[i] == rest[i] && all[j] == rest[j]);
            } else if i < rest.len() {
                assert(all[i] == rest[i]);
            } else if j < rest.len() {
                assert(all[j] == rest[j]);
            }
        }
    }
}

/// Whether `id` is dragged in `state`.
pub fn drag_contains(state: &TreeState, id: usize) -> (r: bool)
    ensures
        r == is_dragged(dragged_of(state), id),
{
    match &state.drag_active {
        Some(d) => contains_id(&d.dragged_nodes, id),
        None => false,
    }
}

impl TreeState {
    /// The state of a tree whose registry is `branches`: the branches with
    /// children start expanded, nothing else is set.
    pub fn new(branches: &Vec<BranchDescriptor>) -> (r: TreeState)
        ensures
            r.expanded@ == parents_of(branches@, branches@.len() as int),
            ids_are_indices(branches@) ==> r.expanded@.no_duplicates(),
            r.selected@.len() == 0,
            r.focused is None,
            r.hovered is None,
            r.hovered_handle is None,
            r.drag_pending is None,
            r.drag_active is None,
            r.branch_order is None,
            r.branch_heights@.len() == 0,
            r.branch_widths@.len() == 0,
            r.visible_branches@.len() == 0,
    {
        let mut expanded: Vec<usize> = Vec::new();
        let mut i: usize = 0;
        while i < branches.len()
            invariant
                0 <= i <= branches@.len(),
                expanded@ == parents_of(branches@, i as int),
            decreases branches@.len() - i,
        {
            if branches[i].has_children {
                expanded.push(branches[i].id);
            }
            i += 1;
        }
        proof {
            if ids_are_indices(branches@) {
                lemma_parents_of_distinct(branches@, branches@.len() as int);
            }
        }
        TreeState {
            expanded,
            branch_heights: Vec::new(),
            branch_widths: Vec::new(),
            visible_branches: Vec::new(),
            selected: Vec::new(),
            focused: None,
            hovered: None,
            hovered_handle: None,
            drag_pending: None,
            drag_active: None,
            branch_order: None,
        }
    }

    /// Whether the branch at `index` is rendered.
    pub fn is_branch_visible(&self, branches: &Vec<BranchDescriptor>, index: usize) -> (r: bool)
        requires
            ids_are_indices(branches@),
        ensures
            r == visible_in(branches@, self, index as int),
    {
        let n = branches.len();
        let ghost order = opt_view(&self.branch_order);
        let ghost dragged = dragged_of(self);
        let mut cur: usize = index;
        let mut fuel: usize = n;
        loop
            invariant
                n == branches@.len(),
                ids_are_indices(branches@),
                order == opt_view(&self.branch_order),
                dragged == dragged_of(self),
                visible_in(branches@, self, index as int) == visible_within(
                    branches@,
                    order,
                    dragged,
                    self.expanded@,
                    cur as int,
                    fuel as nat,
                ),
            decreases fuel,
        {
            if cur >= n || fuel == 0 {
                return false;
            }
            let (id, parent, _) = get_branch_info(branches, cur, &self.branch_order);
            if drag_contains(self, id) {
                return false;
            }
            match parent {
                None => {
                    return true;
                },
                Some(p) => {
                    if p >= n || !contains_id(&self.expanded, p) {
                        return false;
                    }
                    cur = p;
                    fuel = fuel - 1;
                },
            }
        }
    }

    /// Recomputes `visible_branches` for every branch.
    pub fn update_visibility(&mut self, branches: &Vec<BranchDescriptor>)
        requires
            ids_are_indices(branches@),
        ensures
            final(self).visible_branches@.len() == branches@.len(),
            forall|i: int|
                0 <= i < branches@.len() ==> #[trigger] final(self).visible_branches@[i] == visible_in(
                    branches@,
                    old(self),
                    i,
                ),
            final(self).expanded == old(self).expanded,
            final(self).selected == old(self).selected,
            final(self).focused == old(self).focused,
            final(self).drag_active == old(self).drag_active,
            final(self).drag_pending == old(self).drag_pending,
            final(self).branch_order == old(self).branch_order,
            final(self).branch_heights == old(self).branch_heights,
            final(self).branch_widths == old(self).branch_widths,
    {
        let mut vis: Vec<bool> = Vec::new();
        let mut i: usize = 0;
        while i < branches.len()
            invariant
                0 <= i <= branches@.len(),
                ids_are_indices(branches@),
                vis@.len() == i,
                forall|j: int| 0 <= j < i ==> #[trigger] vis@[j] == visible_in(branches@, self, j),
            decreases branches@.len() - i,
        {
            let v = self.is_branch_visible(branches, i);
            vis.push(v);
            i += 1;
        }
        self.visible_branches = vis;
    }
}

} // verus!
