//! Pointer and keyboard interaction: drop positions, the drag threshold,
//! selection, and the hit-testing of rows.

use vstd::prelude::*;
use crate::tree::DropPosition;
use crate::tree::registry::{BranchDescriptor, ids_are_indices};
use crate::tree::order::{BranchState, branch_info, opt_view, get_branch_info, contains_id};
use crate::tree::state::{
    Point, Rect, Offset, TreeState, DragPending, DragActive, dragged_of, is_dragged, drag_contains,
};
use crate::tree::order::get_ordered_indices;
use crate::tree::controller::drop_rows;

verus! {

broadcast use vstd::std_specs::vec::group_vec_axioms;

/// Distance, in pixels, that the pointer must travel before a press turns
/// into a drag.
pub const DRAG_THRESHOLD: i32 = 5;

/// Where a pointer at `rel` pixels below the top of a row `h` pixels high
/// drops: the top third before the row, the bottom third after it, the
/// middle into it when that is allowed, else before or after by the
/// nearer half.
pub open spec fn drop_position_at(rel: int, h: int, can_drop_into: bool) -> DropPosition {
    if 3 * rel < h {
        DropPosition::Before
    } else if 3 * rel > 2 * h {
        DropPosition::After
    } else if can_drop_into {
        DropPosition::Into
    } else if 2 * rel < h {
        DropPosition::Before
    } else {
        DropPosition::After
    }
}

/// The drop position for a pointer at height `mouse_y` over a row whose top
/// is `row_y` and whose height is `row_height`. Dropping into the row is
/// allowed when it has children and is expanded, or accepts drops.
pub fn calculate_drop_position(
    mouse_y: i32,
    row_y: i64,
    row_height: u32,
    has_children: bool,
    expanded: bool,
    accepts_drops: bool,
) -> (r: DropPosition)
    ensures
        r == drop_position_at(
            mouse_y - row_y,
            row_height as int,
            (has_children && expanded) || accepts_drops,
        ),
{
    let rel: i128 = mouse_y as i128 - row_y as i128;
    let h: i128 = row_height as i128;
    let can_drop_into = (has_children && expanded) || accepts_drops;
    if 3 * rel < h {
        DropPosition::Before
    } else if 3 * rel > 2 * h {
        DropPosition::After
    } else if can_drop_into {
        DropPosition::Into
    } else if 2 * rel < h {
        DropPosition::Before
    } else {
        DropPosition::After
    }
}

/// The pointer has moved at least the drag threshold away from `start`.
pub open spec fn past_threshold(start: Point, pos: Point) -> bool {
    let dx = pos.x - start.x;
    let dy = pos.y - start.y;
    dx * dx + dy * dy >= DRAG_THRESHOLD * DRAG_THRESHOLD
}

/// Whether the pointer at `pos` is at least the drag threshold away from
/// `start`.
pub fn drag_threshold_reached(start: Point, pos: Point) -> (r: bool)
    ensures
        r == past_threshold(start, pos),
{
    let t: i128 = DRAG_THRESHOLD as i128;
    let dx: i128 = pos.x as i128 - start.x as i128;
    let dy: i128 = pos.y as i128 - start.y as i128;
    if dx >= t || dx <= -t || dy >= t || dy <= -t {
        proof {
            assert(dx * dx >= t * t || dy * dy >= t * t) by (nonlinear_arith)
                requires
                    t == 5,
                    dx >= t || dx <= -t || dy >= t || dy <= -t,
            ;
            assert(dx * dx >= 0 && dy * dy >= 0) by (nonlinear_arith);
        }
        return true;
    }
    proof {
        assert(0 <= dx * dx < t * t && 0 <= dy * dy < t * t) by (nonlinear_arith)
            requires
                t == 5,
                -t < dx < t,
                -t < dy < t,
        ;
    }
    dx * dx + dy * dy >= t * t
}

/// Walking up from the branch with id `id` (at most `fuel` levels, and
/// only through ids that are branches) meets a selected parent.
pub open spec fn has_selected_ancestor(
    branches: Seq<BranchDescriptor>,
    order: Option<Seq<BranchState>>,
    selected: Seq<usize>,
    id: usize,
    fuel: nat,
) -> bool
    decreases fuel,
{
    if fuel == 0 || id >= branches.len() {
        false
    } else {
        match branch_info(branches[id as int], order).1 {
            None => false,
            Some(p) => selected.contains(p) || has_selected_ancestor(
                branches,
                order,
                selected,
                p,
                (fuel - 1) as nat,
            ),
        }
    }
}

/// The first `k` selected ids without a selected ancestor, in order.
pub open spec fn minimal_selection(
    branches: Seq<BranchDescriptor>,
    order: Option<Seq<BranchState>>,
    selected: Seq<usize>,
    k: int,
) -> Seq<usize>
    decreases k,
{
    if k <= 0 {
        Seq::empty()
    } else {
        let rest = minimal_selection(branches, order, selected, k - 1);
        if has_selected_ancestor(branches, order, selected, selected[k - 1], branches.len()) {
            rest
        } else {
            rest.push(selected[k - 1])
        }
    }
}

/// Whether a selected id lies above `id`.
fn selected_ancestor(
    branches: &Vec<BranchDescriptor>,
    order: &Option<Vec<BranchState>>,
    selected: &Vec<usize>,
    id: usize,
) -> (r: bool)
    requires
        ids_are_indices(branches@),
    ensures
        r == has_selected_ancestor(branches@, opt_view(order), selected@, id, branches@.len()),
{
    let n = branches.len();
    let mut cur = id;
    let mut fuel: usize = n;
    loop
        invariant
            n == branches@.len(),
            has_selected_ancestor(branches@, opt_view(order), selected@, id, branches@.len())
                == has_selected_ancestor(branches@, opt_view(order), selected@, cur, fuel as nat),
        decreases fuel,
    {
        if fuel == 0 || cur >= n {
            return false;
        }
        let (_, parent, _) = get_branch_info(branches, cur, order);
        match parent {
            None => {
                return false;
            },
            Some(p) => {
                if contains_id(selected, p) {
                    return true;
                }
                cur = p;
                fuel = fuel - 1;
            },
        }
    }
}

/// The selected ids that have no selected ancestor, in selection order:
/// moving those moves the rest along with them.
pub fn filter_redundant_selections(
    selected_ids: &Vec<usize>,
    branches: &Vec<BranchDescriptor>,
    branch_order: &Option<Vec<BranchState>>,
) -> (r: Vec<usize>)
    requires
        ids_are_indices(branches@),
    ensures
        r@ == minimal_selection(
            branches@,
            opt_view(branch_order),
            selected_ids@,
            selected_ids@.len() as int,
        ),
{
    let mut filtered: Vec<usize> = Vec::new();
    let mut i: usize = 0;
    while i < selected_ids.len()
        invariant
            0 <= i <= selected_ids@.len(),
            ids_are_indices(branches@),
            filtered@ == minimal_selection(branches@, opt_view(branch_order), selected_ids@, i as int),
        decreases selected_ids@.len() - i,
    {
        let id = selected_ids[i];
        if !selected_ancestor(branches, branch_order, selected_ids, id) {
            filtered.push(id);
        }
        i += 1;
    }
    filtered
}

/// What a click (or space) with or without the control key does to a
/// selection: with it, `id` is toggled; without it, `id` becomes the whole
/// selection.
pub open spec fn clicked_selection(old: Seq<usize>, id: usize, ctrl: bool, y: usize) -> bool {
    if ctrl {
        if y == id {
            !old.contains(id)
        } else {
            old.contains(y)
        }
    } else {
        y == id
    }
}

/// `y` is one of the first `i` elements of `s`.
pub open spec fn in_prefix(s: Seq<usize>, i: int, y: usize) -> bool {
    exists|k: int| 0 <= k < i && #[trigger] s[k] == y
}

/// Appending an element not yet there keeps the elements distinct.
pub proof fn lemma_push_no_dups(s: Seq<usize>, x: usize)
    requires
        s.no_duplicates(),
        !s.contains(x),
    ensures
        s.push(x).no_duplicates(),
{
    let t = s.push(x);
    assert forall|i: int, j: int| 0 <= i < t.len() && 0 <= j < t.len() && i != j implies t[i] != t[j] by {
        if i == s.len() {
            assert(s[j] == t[j]);
        } else if j == s.len() {
            assert(s[i] == t[i]);
        } else {
            assert(s[i] == t[i] && s[j] == t[j]);
        }
    }
}

/// Removes every occurrence of `x`; what is left has no repeats.
pub fn remove_id(v: &mut Vec<usize>, x: usize)
    ensures
        forall|y: usize| #[trigger] final(v)@.contains(y) == (old(v)@.contains(y) && y != x),
        final(v)@.no_duplicates(),
{
    let ghost start = v@;
    let mut kept: Vec<usize> = Vec::new();
    let mut i: usize = 0;
    while i < v.len()
        invariant
            0 <= i <= v@.len(),
            v@ == start,
            kept@.no_duplicates(),
            forall|y: usize| #[trigger] kept@.contains(y) == (in_prefix(start, i as int, y) && y != x),
        decreases v@.len() - i,
    {
        let e = v[i];
        let ghost before = kept@;
        if e != x && !contains_id(&kept, e) {
            proof {
                lemma_push_no_dups(kept@, e);
            }
            kept.push(e);
        }
        proof {
            assert forall|y: usize| #[trigger] kept@.contains(y) == (in_prefix(start, i + 1, y) && y != x) by {
                if in_prefix(start, i + 1, y) && y != x {
                    let k = choose|k: int| 0 <= k < i + 1 && #[trigger] start[k] == y;
                    if k < i {
                        assert(in_prefix(start, i as int, y));
                        assert(before.contains(y));
                        let m = choose|m: int| 0 <= m < before.len() && #[trigger] before[m] == y;
                        assert(kept@[m] == y);
                    } else if kept@.len() > before.len() {
                        assert(kept@[kept@.len() - 1] == y);
                    } else {
                        assert(before.contains(y));
                    }
                }
                if kept@.contains(y) {
                    let m = choose|m: int| 0 <= m < kept@.len() && #[trigger] kept@[m] == y;
                    if m < before.len() {
                        assert(before[m] == y);
                        assert(before.contains(y));
                        let k = choose|k: int| 0 <= k < i && #[trigger] start[k] == y;
                        assert(in_prefix(start, i + 1, y));
                    } else {
                        assert(start[i as int] == y);
                        assert(in_prefix(start, i + 1, y));
                    }
                }
            }
        }
        i += 1;
    }
    proof {
        assert forall|y: usize| #[trigger] kept@.contains(y) == (start.contains(y) && y != x) by {
            if start.contains(y) {
                let k = choose|k: int| 0 <= k < start.len() && #[trigger] start[k] == y;
                assert(in_prefix(start, i as int, y));
            }
        }
    }
    *v = kept;
}

/// Adds `x` unless it is there.
pub fn insert_id(v: &mut Vec<usize>, x: usize)
    ensures
        forall|y: usize| #[trigger] final(v)@.contains(y) == (old(v)@.contains(y) || y == x),
        old(v)@.no_duplicates() ==> final(v)@.no_duplicates(),
{
    if !contains_id(v, x) {
        proof {
            if v@.no_duplicates() {
                lemma_push_no_dups(v@, x);
            }
        }
        v.push(x);
        proof {
            assert forall|y: usize| #[trigger] v@.contains(y) == (old(v)@.contains(y) || y == x) by {
                if old(v)@.contains(y) {
                    let k = choose|k: int| 0 <= k < old(v)@.len() && #[trigger] old(v)@[k] == y;
                    assert(v@[k] == y);
                }
                if y == x {
                    assert(v@[v@.len() - 1] == y);
                }
                if v@.contains(y) && y != x {
                    let k = choose|k: int| 0 <= k < v@.len() && #[trigger] v@[k] == y;
                    assert(old(v)@[k] == y);
                }
            }
        }
    }
}

/// Applies a click on `id` to the selection: with `ctrl`, toggles `id`;
/// without, selects `id` alone.
pub fn click_select(selected: &mut Vec<usize>, id: usize, ctrl: bool)
    ensures
        forall|y: usize| #[trigger] final(selected)@.contains(y) == clicked_selection(old(selected)@, id, ctrl, y),
        old(selected)@.no_duplicates() ==> final(selected)@.no_duplicates(),
{
    if ctrl {
        if contains_id(selected, id) {
            remove_id(selected, id);
        } else {
            insert_id(selected, id);
        }
    } else {
        selected.clear();
        selected.push(id);
        proof {
            assert forall|y: usize| #[trigger] selected@.contains(y) == clicked_selection(old(selected)@, id, ctrl, y) by {
                if y == id {
                    assert(selected@[0] == y);
                }
            }
        }
    }
}

/// Width of the expand/collapse arrow column.
pub const ARROW_W: u32 = 16;

/// Width of the drag handle's hover area, right of the arrow.
pub const HANDLE_HOVER_W: u32 = 24;

/// Height of the gap kept open for a drop preview (before spacing), and the
/// least height of a row.
pub const LINE_HEIGHT: u32 = 32;

/// Gap between the arrow column and a branch's content.
pub const CONTENT_GAP: u32 = 14;

/// Spacing and indentation of the tree, in pixels.
#[derive(Debug, Clone, Copy, PartialEq, Eq, Structural)]
pub struct Metrics {
    pub padding_x: u32,
    pub padding_y: u32,
    pub spacing: u32,
    pub indent: u32,
}

/// One displayed row: the registry index of its branch, and its vertical
/// extent.
#[derive(Debug, Clone, Copy, PartialEq, Eq, Structural)]
pub struct Row {
    pub index: usize,
    pub top: i128,
    pub height: u32,
}

/// Whether the branch at registry index `i` gets a row: it is visible, has
/// a measured height, and (when `skip_dragged`) is not being dragged.
pub open spec fn row_shown(
    branches: Seq<BranchDescriptor>,
    state: &TreeState,
    i: usize,
    skip_dragged: bool,
) -> bool {
    &&& i < branches.len()
    &&& i < state.visible_branches@.len()
    &&& state.visible_branches@[i as int]
    &&& i < state.branch_heights@.len()
    &&& !(skip_dragged && is_dragged(dragged_of(state), branches[i as int].id))
}

/// Top of the row that would follow `rows`, the first one starting at `top`.
pub open spec fn next_top(rows: Seq<Row>, top: int, spacing: int) -> int {
    if rows.len() == 0 {
        top
    } else {
        rows.last().top + rows.last().height + spacing
    }
}

/// The rows of the first `k` display-order indices, stacked from `top`
/// down with `spacing` between them.
pub open spec fn rows_upto(
    branches: Seq<BranchDescriptor>,
    state: &TreeState,
    ordered: Seq<usize>,
    skip_dragged: bool,
    top: int,
    spacing: int,
    k: int,
) -> Seq<Row>
    decreases k,
{
    if k <= 0 {
        Seq::empty()
    } else {
        let rest = rows_upto(branches, state, ordered, skip_dragged, top, spacing, k - 1);
        let i = ordered[k - 1];
        if row_shown(branches, state, i, skip_dragged) {
            rest.push(
                Row {
                    index: i,
                    top: next_top(rest, top, spacing) as i128,
                    height: state.branch_heights@[i as int],
                },
            )
        } else {
            rest
        }
    }
}

/// The rows of the tree in display order, from `top` down.
pub open spec fn rows_of(
    branches: Seq<BranchDescriptor>,
    state: &TreeState,
    skip_dragged: bool,
    top: int,
    spacing: int,
) -> Seq<Row> {
    let ordered = crate::tree::order::ordered_indices(branches.len() as int, opt_view(&state.branch_order));
    rows_upto(branches, state, ordered, skip_dragged, top, spacing, ordered.len() as int)
}

proof fn lemma_rows_bound(
    branches: Seq<BranchDescriptor>,
    state: &TreeState,
    ordered: Seq<usize>,
    skip_dragged: bool,
    top: int,
    spacing: int,
    k: int,
)
    requires
        0 <= k <= ordered.len(),
        0 <= spacing <= u32::MAX,
        i64::MIN <= top <= i64::MAX,
        k <= 0x2_0000_0000_0000_0000,
    ensures
        top <= next_top(rows_upto(branches, state, ordered, skip_dragged, top, spacing, k), top, spacing)
            <= top + k * 0x2_0000_0000,
        rows_upto(branches, state, ordered, skip_dragged, top, spacing, k).len() <= k,
    decreases k,
{
    if k > 0 {
        lemma_rows_bound(branches, state, ordered, skip_dragged, top, spacing, k - 1);
        let rest = rows_upto(branches, state, ordered, skip_dragged, top, spacing, k - 1);
        let nt = next_top(rest, top, spacing);
        assert(i128::MIN <= nt <= i128::MAX);
    }
}

/// The arrow of a row at depth `depth`.
pub open spec fn arrow_rect_holds(bounds: Rect, m: Metrics, depth: u16, row: Row, p: Point) -> bool {
    let x = bounds.x + m.padding_x + depth * m.indent;
    &&& x <= p.x < x + ARROW_W
    &&& row.top <= p.y < row.top + row.height
}

/// The full-width rectangle of a row.
pub open spec fn row_rect_holds(bounds: Rect, row: Row, p: Point) -> bool {
    &&& bounds.x <= p.x < bounds.x + bounds.width
    &&& row.top <= p.y < row.top + row.height
}

impl TreeState {
    /// The rows of the tree in display order, the first one's top at `top`,
    /// leaving out dragged branches when `skip_dragged`.
    pub fn layout_rows(
        &self,
        branches: &Vec<BranchDescriptor>,
        top: i64,
        spacing: u32,
        skip_dragged: bool,
    ) -> (r: Vec<Row>)
        requires
            ids_are_indices(branches@),
        ensures
            r@ == rows_of(branches@, self, skip_dragged, top as int, spacing as int),
    {
        let ordered = get_ordered_indices(branches, &self.branch_order);
        let ghost ord = ordered@;
        let mut rows: Vec<Row> = Vec::new();
        let mut y: i128 = top as i128;
        let n = ordered.len();
        let mut k: usize = 0;
        while k < n
            invariant
                0 <= k <= n,
                n == ordered@.len(),
                ord == ordered@,
                rows@ == rows_upto(branches@, self, ord, skip_dragged, top as int, spacing as int, k as int),
                y == next_top(rows@, top as int, spacing as int),
            decreases ordered@.len() - k,
        {
            proof {
                lemma_rows_bound(branches@, self, ord, skip_dragged, top as int, spacing as int, k as int);
                assert(k * 0x2_0000_0000 <= 0x2_0000_0000_0000_0000 * 0x2_0000_0000) by (nonlinear_arith)
                    requires
                        k <= 0x2_0000_0000_0000_0000,
                ;
            }
            let i = ordered[k];
            let shown = i < branches.len() && i < self.visible_branches.len() && self.visible_branches[i]
                && i < self.branch_heights.len() && !(skip_dragged && drag_contains(self, branches[i].id));
            if shown {
                let h = self.branch_heights[i];
                rows.push(Row { index: i, top: y, height: h });
                y = y + h as i128 + spacing as i128;
            }
            k += 1;
        }
        rows
    }

    /// Flips whether the branch with id `id` is expanded.
    pub fn toggle_expanded(&mut self, id: usize)
        ensures
            forall|y: usize|
                #[trigger] final(self).expanded@.contains(y) == if y == id {
                    !old(self).expanded@.contains(id)
                } else {
                    old(self).expanded@.contains(y)
                },
            old(self).expanded@.no_duplicates() ==> final(self).expanded@.no_duplicates(),
            final(self).selected == old(self).selected,
            final(self).focused == old(self).focused,
            final(self).drag_pending == old(self).drag_pending,
            final(self).drag_active == old(self).drag_active,
            final(self).branch_order == old(self).branch_order,
    {
        if contains_id(&self.expanded, id) {
            remove_id(&mut self.expanded, id);
        } else {
            insert_id(&mut self.expanded, id);
        }
    }
}

/// What a press of the pointer hit.
#[derive(Debug, Clone, Copy, PartialEq, Eq, Structural)]
pub enum PressOutcome {
    /// No row.
    Miss,
    /// The expand arrow of row `row`, whose branch has id `id`.
    Arrow { row: usize, id: usize },
    /// Row `row` elsewhere; its branch is at registry index `index`.
    Branch { row: usize, index: usize },
}

/// The ids that a press on `b` arms for dragging: when `b` is selected, the
/// draggable selected branches without a draggable selected ancestor (a
/// branch that cannot be dragged never enters a drag, and does not carry its
/// descendants); else `b` alone.
pub open spec fn drag_candidates(
    branches: Seq<BranchDescriptor>,
    order: Option<Seq<BranchState>>,
    selected: Seq<usize>,
    id: usize,
) -> Seq<usize> {
    if selected.contains(id) {
        let movable = draggable_only(branches, selected, selected.len() as int);
        minimal_selection(branches, order, movable, movable.len() as int)
    } else {
        seq![id]
    }
}

/// The ids among the first `k` of `ids` that are draggable branches, in
/// order.
pub open spec fn draggable_only(branches: Seq<BranchDescriptor>, ids: Seq<usize>, k: int) -> Seq<usize>
    decreases k,
{
    if k <= 0 {
        Seq::empty()
    } else {
        let rest = draggable_only(branches, ids, k - 1);
        let x = ids[k - 1];
        if x < branches.len() && branches[x as int].draggable {
            rest.push(x)
        } else {
            rest
        }
    }
}

/// Every id that `draggable_only` keeps is a draggable branch.
pub proof fn lemma_draggable_only(branches: Seq<BranchDescriptor>, ids: Seq<usize>, k: int)
    ensures
        forall|j: int|
            0 <= j < draggable_only(branches, ids, k).len() ==> {
                let x = #[trigger] draggable_only(branches, ids, k)[j];
                x < branches.len() && branches[x as int].draggable
            },
    decreases k,
{
    if k > 0 {
        lemma_draggable_only(branches, ids, k - 1);
        let rest = draggable_only(branches, ids, k - 1);
        let all = draggable_only(branches, ids, k);
        assert forall|j: int| 0 <= j < all.len() implies {
            let x = #[trigger] all[j];
            x < branches.len() && branches[x as int].draggable
        } by {
            if j < rest.len() {
                assert(all[j] == rest[j]);
            }
        }
    }
}

/// Every id that `minimal_selection` keeps comes from the selection.
pub proof fn lemma_minimal_selection_sub(
    branches: Seq<BranchDescriptor>,
    order: Option<Seq<BranchState>>,
    selected: Seq<usize>,
    k: int,
)
    requires
        k <= selected.len(),
    ensures
        forall|j: int|
            0 <= j < minimal_selection(branches, order, selected, k).len() ==> exists|i: int|
                0 <= i < k && selected[i] == #[trigger] minimal_selection(branches, order, selected, k)[j],
    decreases k,
{
    if k > 0 {
        lemma_minimal_selection_sub(branches, order, selected, k - 1);
        let rest = minimal_selection(branches, order, selected, k - 1);
        let all = minimal_selection(branches, order, selected, k);
        assert forall|j: int| 0 <= j < all.len() implies exists|i: int|
            0 <= i < k && selected[i] == #[trigger] all[j] by {
            if j < rest.len() {
                assert(all[j] == rest[j]);
                let i = choose|i: int| 0 <= i < k - 1 && selected[i] == #[trigger] rest[j];
            } else {
                assert(all[j] == selected[k - 1]);
            }
        }
    }
}

/// The ids of `ids` that are draggable branches, in order.
fn keep_draggable(branches: &Vec<BranchDescriptor>, ids: &Vec<usize>) -> (r: Vec<usize>)
    ensures
        r@ == draggable_only(branches@, ids@, ids@.len() as int),
{
    let mut out: Vec<usize> = Vec::new();
    let mut k: usize = 0;
    while k < ids.len()
        invariant
            0 <= k <= ids@.len(),
            out@ == draggable_only(branches@, ids@, k as int),
        decreases ids@.len() - k,
    {
        let x = ids[k];
        if x < branches.len() && branches[x].draggable {
            out.push(x);
        }
        k += 1;
    }
    out
}

/// Selecting a root branch `a` and its child `b`, in either order, then
/// pressing on `a` arms a drag of `a` alone: `b` moves along with it and is
/// left out as redundant.
pub proof fn lemma_press_on_parent_drags_it_alone(
    branches: Seq<BranchDescriptor>,
    order: Option<Seq<BranchState>>,
    selected: Seq<usize>,
    a: usize,
    b: usize,
)
    requires
        a < branches.len(),
        b < branches.len(),
        a != b,
        branches[a as int].draggable,
        branches[b as int].draggable,
        branch_info(branches[a as int], order).1 is None,
        branch_info(branches[b as int], order).1 == Some(a),
        selected == seq![a, b] || selected == seq![b, a],
    ensures
        drag_candidates(branches, order, selected, a) == seq![a],
{
    assert(selected.contains(a)) by {
        if selected == seq![a, b] {
            assert(selected[0] == a);
        } else {
            assert(selected[1] == a);
        }
    }
    let d1 = draggable_only(branches, selected, 1);
    assert(d1 == seq![selected[0]]) by {
        assert(draggable_only(branches, selected, 0) =~= Seq::<usize>::empty());
        assert(Seq::<usize>::empty().push(selected[0]) =~= seq![selected[0]]);
    }
    let movable = draggable_only(branches, selected, 2);
    assert(movable =~= selected);
    assert(movable.contains(a)) by {
        if selected == seq![a, b] {
            assert(movable[0] == a);
        } else {
            assert(movable[1] == a);
        }
    }
    let n = branches.len();
    assert(!has_selected_ancestor(branches, order, movable, a, n));
    assert(has_selected_ancestor(branches, order, movable, b, n));
    let m1 = minimal_selection(branches, order, movable, 1);
    let m2 = minimal_selection(branches, order, movable, 2);
    assert(minimal_selection(branches, order, movable, 0) =~= Seq::<usize>::empty());
    if selected == seq![a, b] {
        assert(m1 =~= seq![a]);
        assert(m2 =~= seq![a]);
    } else {
        assert(m1 =~= Seq::<usize>::empty());
        assert(m2 =~= seq![a]);
    }
}

/// `new` is `old` after a press at `position` on the branch at `index`,
/// whose row is `row_bounds`: the selection follows the click, the branch
/// takes the focus, and a draggable branch arms a drag of its candidates.
pub open spec fn pressed(
    old: &TreeState,
    new: &TreeState,
    branches: Seq<BranchDescriptor>,
    index: int,
    row_bounds: Rect,
    position: Point,
    ctrl: bool,
) -> bool {
    let b = branches[index];
    &&& forall|y: usize| #[trigger] new.selected@.contains(y) == clicked_selection(old.selected@, b.id, ctrl, y)
    &&& old.selected@.no_duplicates() ==> new.selected@.no_duplicates()
    &&& new.focused == Some(b.id)
    &&& if b.draggable {
        &&& new.drag_pending is Some
        &&& new.drag_pending.unwrap().start_position == position
        &&& new.drag_pending.unwrap().primary_branch_id == b.id
        &&& new.drag_pending.unwrap().branch_bounds == row_bounds
        &&& new.drag_pending.unwrap().click_offset == (Offset {
            dx: (position.x - row_bounds.x) as i64,
            dy: (position.y - row_bounds.y) as i64,
        })
        &&& new.drag_pending.unwrap().branch_ids@ == drag_candidates(
            branches,
            opt_view(&old.branch_order),
            old.selected@,
            b.id,
        )
        &&& forall|j: int|
            0 <= j < new.drag_pending.unwrap().branch_ids@.len() ==> {
                let x = #[trigger] new.drag_pending.unwrap().branch_ids@[j];
                x < branches.len() && branches[x as int].draggable
            }
    } else {
        new.drag_pending == old.drag_pending
    }
    &&& new.expanded == old.expanded
    &&& new.drag_active == old.drag_active
    &&& new.branch_order == old.branch_order
    &&& new.visible_branches == old.visible_branches
    &&& new.branch_heights == old.branch_heights
}

/// The press at `p` hits row `k` of `rows`, on its arrow or elsewhere.
pub open spec fn press_hits(
    branches: Seq<BranchDescriptor>,
    state: &TreeState,
    rows: Seq<Row>,
    bounds: Rect,
    m: Metrics,
    p: Point,
    k: int,
) -> bool {
    arrow_hit(branches, state, rows, bounds, m, p, k) || row_rect_holds(bounds, rows[k], p)
}

/// The press at `p` hits the arrow of row `k`, whose branch has children.
pub open spec fn arrow_hit(
    branches: Seq<BranchDescriptor>,
    state: &TreeState,
    rows: Seq<Row>,
    bounds: Rect,
    m: Metrics,
    p: Point,
    k: int,
) -> bool {
    let b = branches[rows[k].index as int];
    b.has_children && arrow_rect_holds(bounds, m, branch_info(b, opt_view(&state.branch_order)).2, rows[k], p)
}

/// The rows that a press on the tree laid out in `bounds` is tested
/// against: visible branches that are not dragged.
pub open spec fn press_rows(branches: Seq<BranchDescriptor>, state: &TreeState, bounds: Rect, m: Metrics) -> Seq<Row> {
    rows_of(branches, state, true, bounds.y + m.padding_y, m.spacing as int)
}

impl TreeState {
    /// A press at `position` on the branch at `index`, whose row is
    /// `row_bounds`: updates the selection and focus, and arms a drag when
    /// the branch is draggable.
    pub fn press_branch(
        &mut self,
        branches: &Vec<BranchDescriptor>,
        index: usize,
        row_bounds: Rect,
        position: Point,
        ctrl: bool,
    )
        requires
            ids_are_indices(branches@),
            index < branches@.len(),
        ensures
            pressed(old(self), final(self), branches@, index as int, row_bounds, position, ctrl),
    {
        let b = branches[index];
        if b.draggable {
            let candidates = if contains_id(&self.selected, b.id) {
                let movable = keep_draggable(branches, &self.selected);
                proof {
                    lemma_draggable_only(branches@, self.selected@, self.selected@.len() as int);
                    lemma_minimal_selection_sub(branches@, opt_view(&self.branch_order), movable@, movable@.len() as int);
                }
                filter_redundant_selections(&movable, branches, &self.branch_order)
            } else {
                vec![b.id]
            };
            proof {
                assert forall|j: int| 0 <= j < candidates@.len() implies {
                    let x = #[trigger] candidates@[j];
                    x < branches@.len() && branches@[x as int].draggable
                } by {
                    if self.selected@.contains(b.id) {
                        let movable = draggable_only(branches@, self.selected@, self.selected@.len() as int);
                        let i = choose|i: int| 0 <= i < movable.len() && movable[i] == #[trigger] candidates@[j];
                        assert(movable[i] == movable[i]);
                    } else {
                        assert(candidates@[j] == b.id);
                        assert(branches@[index as int].id == index);
                    }
                }
                assert(candidates@ == drag_candidates(
                    branches@,
                    opt_view(&self.branch_order),
                    self.selected@,
                    b.id,
                )) by {
                    if !self.selected@.contains(b.id) {
                        assert(candidates@ =~= seq![b.id]);
                    }
                }
            }
            self.drag_pending = Some(
                DragPending {
                    start_position: position,
                    branch_ids: candidates,
                    primary_branch_id: b.id,
                    branch_bounds: row_bounds,
                    click_offset: Offset {
                        dx: position.x as i64 - row_bounds.x as i64,
                        dy: position.y as i64 - row_bounds.y as i64,
                    },
                },
            );
        }
        click_select(&mut self.selected, b.id, ctrl);
        self.focused = Some(b.id);
    }

    /// A press of the pointer at `position` on the tree laid out in
    /// `bounds`: the first row whose arrow (on a branch with children) or
    /// whose full width holds the point decides. On an arrow the branch is
    /// expanded or collapsed; elsewhere on a row the branch is pressed.
    pub fn handle_press(
        &mut self,
        branches: &Vec<BranchDescriptor>,
        bounds: Rect,
        m: Metrics,
        position: Point,
        ctrl: bool,
    ) -> (r: PressOutcome)
        requires
            ids_are_indices(branches@),
        ensures
            r is Miss ==> {
                &&& forall|k: int|
                    0 <= k < press_rows(branches@, old(self), bounds, m).len() ==> !press_hits(
                        branches@,
                        old(self),
                        press_rows(branches@, old(self), bounds, m),
                        bounds,
                        m,
                        position,
                        k,
                    )
                &&& *final(self) == *old(self)
            },
            r matches PressOutcome::Arrow { row, id } ==> {
                let rows = press_rows(branches@, old(self), bounds, m);
                &&& row < rows.len()
                &&& forall|k: int|
                    0 <= k < row ==> !press_hits(branches@, old(self), rows, bounds, m, position, k)
                &&& arrow_hit(branches@, old(self), rows, bounds, m, position, row as int)
                &&& old(self).expanded@.no_duplicates() ==> final(self).expanded@.no_duplicates()
                &&& id == branches@[rows[row as int].index as int].id
                &&& forall|y: usize|
                    #[trigger] final(self).expanded@.contains(y) == if y == id {
                        !old(self).expanded@.contains(id)
                    } else {
                        old(self).expanded@.contains(y)
                    }
                &&& final(self).selected == old(self).selected
                &&& final(self).focused == old(self).focused
                &&& final(self).drag_pending == old(self).drag_pending
                &&& final(self).drag_active == old(self).drag_active
                &&& final(self).branch_order == old(self).branch_order
            },
            r matches PressOutcome::Branch { row, index } ==> {
                let rows = press_rows(branches@, old(self), bounds, m);
                &&& row < rows.len()
                &&& forall|k: int|
                    0 <= k < row ==> !press_hits(branches@, old(self), rows, bounds, m, position, k)
                &&& !arrow_hit(branches@, old(self), rows, bounds, m, position, row as int)
                &&& row_rect_holds(bounds, rows[row as int], position)
                &&& index == rows[row as int].index
                &&& i32::MIN <= rows[row as int].top <= i32::MAX
                &&& pressed(
                    old(self),
                    final(self),
                    branches@,
                    index as int,
                    Rect {
                        x: bounds.x,
                        y: rows[row as int].top as i32,
                        width: bounds.width,
                        height: rows[row as int].height,
                    },
                    position,
                    ctrl,
                )
            },
    {
        let top: i64 = bounds.y as i64 + m.padding_y as i64;
        let rows = self.layout_rows(branches, top, m.spacing, true);
        let ghost rows_v = rows@;
        proof {
            lemma_lengths_fit(branches, &self.branch_order);
        }
        let mut k: usize = 0;
        while k < rows.len()
            invariant
                0 <= k <= rows@.len(),
                rows@ == rows_v,
                *self == *old(self),
                ids_are_indices(branches@),
                branches@.len() <= usize::MAX,
                self.branch_order is Some ==> self.branch_order.unwrap()@.len() <= usize::MAX,
                rows_v == rows_of(branches@, self, true, bounds.y + m.padding_y, m.spacing as int),
                forall|j: int| 0 <= j < k ==> !press_hits(branches@, self, rows_v, bounds, m, position, j),
            decreases rows@.len() - k,
        {
            let row = rows[k];
            proof {
                lemma_row_index(branches@, self, true, bounds.y + m.padding_y, m.spacing as int, k as int);
            }
            let b = branches[row.index];
            let (_, _, depth) = get_branch_info(branches, row.index, &self.branch_order);
            proof {
                assert(0 <= depth as i128 * m.indent as i128 <= 0x1_0000_0000_0000) by (nonlinear_arith)
                    requires
                        0 <= depth <= 0xffff,
                        0 <= m.indent <= 0xffff_ffff,
                ;
            }
            let arrow_x: i128 = bounds.x as i128 + m.padding_x as i128 + depth as i128 * m.indent as i128;
            let px = position.x as i128;
            let py = position.y as i128;
            let in_rows = row.top <= py && py < row.top + row.height as i128;
            if b.has_children && arrow_x <= px && px < arrow_x + ARROW_W as i128 && in_rows {
                self.toggle_expanded(b.id);
                return PressOutcome::Arrow { row: k, id: b.id };
            }
            if bounds.x as i128 <= px && px < bounds.x as i128 + bounds.width as i128 && in_rows {
                proof {
                    assert(i32::MIN <= row.top <= i32::MAX);
                }
                let row_bounds = Rect { x: bounds.x, y: row.top as i32, width: bounds.width, height: row.height };
                self.press_branch(branches, row.index, row_bounds, position, ctrl);
                return PressOutcome::Branch { row: k, index: row.index };
            }
            k += 1;
        }
        PressOutcome::Miss
    }
}

/// Each row stands for a branch of the registry.
pub proof fn lemma_row_index(
    branches: Seq<BranchDescriptor>,
    state: &TreeState,
    skip_dragged: bool,
    top: int,
    spacing: int,
    k: int,
)
    requires
        0 <= k < rows_of(branches, state, skip_dragged, top, spacing).len(),
        0 <= spacing <= u32::MAX,
        i64::MIN <= top <= i64::MAX,
        branches.len() <= usize::MAX,
        state.branch_order is Some ==> state.branch_order.unwrap()@.len() <= usize::MAX,
    ensures
        rows_of(branches, state, skip_dragged, top, spacing)[k].top >= top,
        rows_of(branches, state, skip_dragged, top, spacing)[k].index < branches.len(),
        rows_of(branches, state, skip_dragged, top, spacing)[k].height == state.branch_heights@[
            rows_of(branches, state, skip_dragged, top, spacing)[k].index as int
        ],
        row_shown(branches, state, rows_of(branches, state, skip_dragged, top, spacing)[k].index, skip_dragged),
{
    let ordered = crate::tree::order::ordered_indices(branches.len() as int, opt_view(&state.branch_order));
    lemma_ordered_len(branches, opt_view(&state.branch_order));
    lemma_rows_shown(branches, state, ordered, skip_dragged, top, spacing, ordered.len() as int);
}

/// The display order lists at most as many indices as the order has
/// entries plus the registry has branches.
pub proof fn lemma_ordered_len(branches: Seq<BranchDescriptor>, order: Option<Seq<BranchState>>)
    requires
        branches.len() <= usize::MAX,
        order is Some ==> order.unwrap().len() <= usize::MAX,
    ensures
        crate::tree::order::ordered_indices(branches.len() as int, order).len() <= 0x2_0000_0000_0000_0000,
{
    if let Some(o) = order {
        lemma_listed_len(o, branches.len() as int);
        lemma_unlisted_len(o, branches.len() as int);
    } else {
        lemma_all_len(branches.len() as int);
    }
}

proof fn lemma_listed_len(o: Seq<BranchState>, n: int)
    ensures
        crate::tree::order::listed_indices(o, n).len() <= o.len(),
    decreases o.len(),
{
    if o.len() > 0 {
        lemma_listed_len(o.drop_last(), n);
    }
}

proof fn lemma_unlisted_len(o: Seq<BranchState>, k: int)
    requires
        k >= 0,
    ensures
        crate::tree::order::unlisted_indices(o, k).len() <= k,
    decreases k,
{
    if k > 0 {
        lemma_unlisted_len(o, k - 1);
    }
}

proof fn lemma_all_len(k: int)
    requires
        k >= 0,
    ensures
        crate::tree::order::all_indices(k).len() == k,
    decreases k,
{
    if k > 0 {
        lemma_all_len(k - 1);
    }
}

proof fn lemma_rows_shown(
    branches: Seq<BranchDescriptor>,
    state: &TreeState,
    ordered: Seq<usize>,
    skip_dragged: bool,
    top: int,
    spacing: int,
    k: int,
)
    requires
        0 <= k <= ordered.len(),
        0 <= spacing <= u32::MAX,
        i64::MIN <= top <= i64::MAX,
        k <= 0x2_0000_0000_0000_0000,
    ensures
        forall|j: int|
            0 <= j < rows_upto(branches, state, ordered, skip_dragged, top, spacing, k).len() ==> {
                let row = #[trigger] rows_upto(branches, state, ordered, skip_dragged, top, spacing, k)[j];
                &&& row_shown(branches, state, row.index, skip_dragged)
                &&& row.height == state.branch_heights@[row.index as int]
                &&& row.top >= top
            },
    decreases k,
{
    if k > 0 {
        lemma_rows_shown(branches, state, ordered, skip_dragged, top, spacing, k - 1);
        lemma_rows_bound(branches, state, ordered, skip_dragged, top, spacing, k - 1);
        let rest = rows_upto(branches, state, ordered, skip_dragged, top, spacing, k - 1);
        let all = rows_upto(branches, state, ordered, skip_dragged, top, spacing, k);
        assert forall|j: int| 0 <= j < all.len() implies {
            let row = #[trigger] all[j];
            &&& row_shown(branches, state, row.index, skip_dragged)
            &&& row.height == state.branch_heights@[row.index as int]
            &&& row.top >= top
        } by {
            if j < rest.len() {
                assert(all[j] == rest[j]);
            }
        }
    }
}

/// The first index in `k..n` that satisfies `pred`.
pub open spec fn first_where(n: int, pred: spec_fn(int) -> bool, k: int) -> Option<int>
    decreases n - k,
{
    if k >= n {
        None
    } else if pred(k) {
        Some(k)
    } else {
        first_where(n, pred, k + 1)
    }
}

/// When no index below `k` satisfies `pred`, the first from 0 is the first
/// from `k`.
pub proof fn lemma_first_where_skip(n: int, pred: spec_fn(int) -> bool, k: int)
    requires
        0 <= k,
        forall|j: int| 0 <= j < k && j < n ==> !#[trigger] pred(j),
    ensures
        first_where(n, pred, 0) == first_where(n, pred, k),
    decreases k,
{
    if k > 0 {
        lemma_first_where_skip(n, pred, k - 1);
        if k - 1 < n {
            assert(!pred(k - 1));
        }
    }
}

/// The row `row` lies close enough to `p` to be a drop target: within its
/// width, and within two pixels above or below it.
pub open spec fn near_row(bounds: Rect, row: Row, p: Point) -> bool {
    &&& bounds.x <= p.x < bounds.x + bounds.width
    &&& row.top - 2 <= p.y < row.top + row.height + 2
}

/// The drop target and position for the pointer at `p`, the previous ones
/// being `prev`. Rows are tested where they are placed, preview gap
/// included: the first row near the pointer, with the position its
/// thirds give; else, below the last row, after the last row; else `prev`.
pub open spec fn drop_choice(
    branches: Seq<BranchDescriptor>,
    state: &TreeState,
    bounds: Rect,
    m: Metrics,
    p: Point,
    prev: (Option<usize>, DropPosition),
) -> (Option<usize>, DropPosition) {
    let rows = drop_rows(branches, state, bounds, m);
    match first_where(rows.len() as int, |k: int| near_row(bounds, rows[k], p), 0) {
        Some(k) => {
            let b = branches[rows[k].index as int];
            (
                Some(b.id),
                drop_position_at(
                    p.y - rows[k].top,
                    rows[k].height as int,
                    (b.has_children && state.expanded@.contains(b.id)) || b.accepts_drops,
                ),
            )
        },
        None => if p.y > bounds.y && rows.len() > 0 && p.y > rows.last().top + rows.last().height {
            (Some(branches[rows.last().index as int].id), DropPosition::After)
        } else {
            prev
        },
    }
}

/// What hovering at `p` shows: the first row whose full width holds the
/// point, and whether the point is on that row's drag handle.
pub open spec fn hover_choice(
    branches: Seq<BranchDescriptor>,
    state: &TreeState,
    bounds: Rect,
    m: Metrics,
    p: Point,
) -> (Option<usize>, Option<usize>) {
    let rows = press_rows(branches, state, bounds, m);
    match first_where(rows.len() as int, |k: int| row_rect_holds(bounds, rows[k], p), 0) {
        Some(k) => {
            let b = branches[rows[k].index as int];
            let depth = branch_info(b, opt_view(&state.branch_order)).2;
            let hx = bounds.x + m.padding_x + depth * m.indent + ARROW_W;
            (Some(b.id), if hx <= p.x < hx + HANDLE_HOVER_W { Some(b.id) } else { None })
        },
        None => (None, None),
    }
}

/// Keys that move the focus or act on the focused branch.
#[derive(Debug, Clone, Copy, PartialEq, Eq, Structural)]
pub enum NavKey {
    Up,
    Down,
    Left,
    Right,
    Space,
}

/// The ids of the visible branches among the first `k` display-order
/// indices.
pub open spec fn visible_ids_upto(
    branches: Seq<BranchDescriptor>,
    state: &TreeState,
    ordered: Seq<usize>,
    k: int,
) -> Seq<usize>
    decreases k,
{
    if k <= 0 {
        Seq::empty()
    } else {
        let rest = visible_ids_upto(branches, state, ordered, k - 1);
        let i = ordered[k - 1];
        if i < state.visible_branches@.len() && state.visible_branches@[i as int] && i < branches.len() {
            rest.push(branches[i as int].id)
        } else {
            rest
        }
    }
}

/// The ids of the visible branches in display order.
pub open spec fn visible_ids(branches: Seq<BranchDescriptor>, state: &TreeState) -> Seq<usize> {
    let ordered = crate::tree::order::ordered_indices(branches.len() as int, opt_view(&state.branch_order));
    visible_ids_upto(branches, state, ordered, ordered.len() as int)
}

/// Whether entry `k` of `s` is `x`.
pub open spec fn equals_at(s: Seq<usize>, x: usize) -> spec_fn(int) -> bool {
    |k: int| s[k] == x
}

/// Index of the first occurrence of `x` in `s`.
pub open spec fn index_in(s: Seq<usize>, x: usize) -> Option<int> {
    first_where(s.len() as int, equals_at(s, x), 0)
}

/// The focus after pressing `key`: up and down move it to the previous or
/// next visible branch, when there is one.
pub open spec fn moved_focus(ids: Seq<usize>, focused: usize, key: NavKey) -> usize {
    match index_in(ids, focused) {
        Some(k) => match key {
            NavKey::Up => if k > 0 {
                ids[k - 1]
            } else {
                focused
            },
            NavKey::Down => if k + 1 < ids.len() {
                ids[k + 1]
            } else {
                focused
            },
            _ => focused,
        },
        None => focused,
    }
}

impl TreeState {
    /// A pointer move to `position`. A pending press becomes a drag once the
    /// pointer is the drag threshold away from where it went down; with no
    /// press pending and no drag, the hovered row and handle follow the
    /// pointer. Returns whether a drag started.
    pub fn handle_cursor_moved(
        &mut self,
        branches: &Vec<BranchDescriptor>,
        bounds: Rect,
        m: Metrics,
        position: Point,
    ) -> (r: bool)
        requires
            ids_are_indices(branches@),
        ensures
            old(self).drag_pending is Some ==> {
                let p = old(self).drag_pending.unwrap();
                if past_threshold(p.start_position, position) {
                    &&& r
                    &&& final(self).drag_pending is None
                    &&& final(self).drag_active == Some(
                        DragActive {
                            dragged_nodes: p.branch_ids,
                            primary_node: p.primary_branch_id,
                            drag_start_bounds: p.branch_bounds,
                            click_offset: p.click_offset,
                            current_position: position,
                            drop_target: None,
                            drop_position: DropPosition::Before,
                        },
                    )
                    &&& final(self).expanded == old(self).expanded
                    &&& final(self).selected == old(self).selected
                    &&& final(self).focused == old(self).focused
                    &&& final(self).branch_order == old(self).branch_order
                } else {
                    !r && *final(self) == *old(self)
                }
            },
            old(self).drag_pending is None && old(self).drag_active is Some ==> !r && *final(self)
                == *old(self),
            old(self).drag_pending is None && old(self).drag_active is None ==> {
                &&& !r
                &&& (final(self).hovered, final(self).hovered_handle) == hover_choice(
                    branches@,
                    old(self),
                    bounds,
                    m,
                    position,
                )
                &&& final(self).expanded == old(self).expanded
                &&& final(self).selected == old(self).selected
                &&& final(self).focused == old(self).focused
                &&& final(self).drag_pending == old(self).drag_pending
                &&& final(self).drag_active == old(self).drag_active
                &&& final(self).branch_order == old(self).branch_order
            },
    {
        if self.drag_pending.is_some() {
            let pending = self.drag_pending.take().unwrap();
            if drag_threshold_reached(pending.start_position, position) {
                self.drag_active = Some(
                    DragActive {
                        dragged_nodes: pending.branch_ids,
                        primary_node: pending.primary_branch_id,
                        drag_start_bounds: pending.branch_bounds,
                        click_offset: pending.click_offset,
                        current_position: position,
                        drop_target: None,
                        drop_position: DropPosition::Before,
                    },
                );
                return true;
            }
            self.drag_pending = Some(pending);
            return false;
        }
        if self.drag_active.is_some() {
            return false;
        }
        let (h, hh) = self.hover_at(branches, bounds, m, position);
        self.hovered = h;
        self.hovered_handle = hh;
        false
    }

    /// The hovered row and handle for the pointer at `p`.
    fn hover_at(&self, branches: &Vec<BranchDescriptor>, bounds: Rect, m: Metrics, p: Point) -> (r: (
        Option<usize>,
        Option<usize>,
    ))
        requires
            ids_are_indices(branches@),
        ensures
            r == hover_choice(branches@, self, bounds, m, p),
    {
        let top: i64 = bounds.y as i64 + m.padding_y as i64;
        let rows = self.layout_rows(branches, top, m.spacing, true);
        let ghost rows_v = rows@;
        let ghost pred = |k: int| row_rect_holds(bounds, rows_v[k], p);
        proof {
            lemma_lengths_fit(branches, &self.branch_order);
        }
        let mut k: usize = 0;
        while k < rows.len()
            invariant
                0 <= k <= rows@.len(),
                rows@ == rows_v,
                rows_v == press_rows(branches@, self, bounds, m),
                pred == (|k: int| row_rect_holds(bounds, rows_v[k], p)),
                ids_are_indices(branches@),
                branches@.len() <= usize::MAX,
                self.branch_order is Some ==> self.branch_order.unwrap()@.len() <= usize::MAX,
                forall|j: int| 0 <= j < k ==> !#[trigger] pred(j),
            decreases rows@.len() - k,
        {
            let row = rows[k];
            proof {
                lemma_row_index(branches@, self, true, bounds.y + m.padding_y, m.spacing as int, k as int);
            }
            let px = p.x as i128;
            let py = p.y as i128;
            if bounds.x as i128 <= px && px < bounds.x as i128 + bounds.width as i128 && row.top <= py && py
                < row.top + row.height as i128 {
                proof {
                    lemma_first_where_skip(rows_v.len() as int, pred, k as int);
                }
                let b = branches[row.index];
                let (_, _, depth) = get_branch_info(branches, row.index, &self.branch_order);
                proof {
                    assert(0 <= depth as i128 * m.indent as i128 <= 0x1_0000_0000_0000) by (nonlinear_arith)
                        requires
                            0 <= depth <= 0xffff,
                            0 <= m.indent <= 0xffff_ffff,
                    ;
                }
                let hx: i128 = bounds.x as i128 + m.padding_x as i128 + depth as i128 * m.indent as i128
                    + ARROW_W as i128;
                let handle = if hx <= px && px < hx + HANDLE_HOVER_W as i128 {
                    Some(b.id)
                } else {
                    None
                };
                return (Some(b.id), handle);
            }
            k += 1;
        }
        proof {
            lemma_first_where_skip(rows_v.len() as int, pred, k as int);
        }
        (None, None)
    }

    /// A pointer release over the tree: a pending press that never became a
    /// drag is dropped.
    pub fn handle_release(&mut self)
        ensures
            final(self).drag_pending is None,
            final(self).drag_active == old(self).drag_active,
            final(self).expanded == old(self).expanded,
            final(self).selected == old(self).selected,
            final(self).focused == old(self).focused,
            final(self).branch_order == old(self).branch_order,
    {
        self.drag_pending = None;
    }

    /// The pointer left the tracked area during a drag: the drag ends
    /// without reordering.
    pub fn cancel_drag(&mut self)
        ensures
            final(self).drag_active is None,
            final(self).drag_pending == old(self).drag_pending,
            final(self).expanded == old(self).expanded,
            final(self).selected == old(self).selected,
            final(self).focused == old(self).focused,
            final(self).branch_order == old(self).branch_order,
    {
        self.drag_active = None;
    }

    /// A pointer move to `position` during a drag: records the position, and
    /// recomputes the drop target and position. Returns whether either
    /// changed.
    pub fn update_drop_target(
        &mut self,
        branches: &Vec<BranchDescriptor>,
        bounds: Rect,
        m: Metrics,
        position: Point,
    ) -> (r: bool)
        requires
            ids_are_indices(branches@),
        ensures
            old(self).drag_active is None ==> !r && *final(self) == *old(self),
            old(self).drag_active is Some ==> {
                let d = old(self).drag_active.unwrap();
                let c = drop_choice(branches@, old(self), bounds, m, position, (d.drop_target, d.drop_position));
                &&& final(self).drag_active == Some(
                    DragActive { current_position: position, drop_target: c.0, drop_position: c.1, ..d },
                )
                &&& r == (c != (d.drop_target, d.drop_position))
                &&& final(self).expanded == old(self).expanded
                &&& final(self).selected == old(self).selected
                &&& final(self).focused == old(self).focused
                &&& final(self).drag_pending == old(self).drag_pending
                &&& final(self).branch_order == old(self).branch_order
            },
    {
        if self.drag_active.is_none() {
            return false;
        }
        let (prev_target, prev_pos) = match &self.drag_active {
            Some(d) => (d.drop_target, d.drop_position),
            None => (None, DropPosition::Before),
        };
        let c = self.drop_choice_at(branches, bounds, m, position, prev_target, prev_pos);
        let changed = c.0 != prev_target || c.1 != prev_pos;
        let mut d = self.drag_active.take().unwrap();
        d.current_position = position;
        d.drop_target = c.0;
        d.drop_position = c.1;
        self.drag_active = Some(d);
        changed
    }

    /// The drop target and position for the pointer at `p`.
    fn drop_choice_at(
        &self,
        branches: &Vec<BranchDescriptor>,
        bounds: Rect,
        m: Metrics,
        p: Point,
        prev_target: Option<usize>,
        prev_pos: DropPosition,
    ) -> (r: (Option<usize>, DropPosition))
        requires
            ids_are_indices(branches@),
        ensures
            r == drop_choice(branches@, self, bounds, m, p, (prev_target, prev_pos)),
    {
        let rows = self.drop_rows_of(branches, bounds, m);
        let ghost rows_v = rows@;
        let ghost pred = |k: int| near_row(bounds, rows_v[k], p);
        let px = p.x as i128;
        let py = p.y as i128;
        let mut k: usize = 0;
        while k < rows.len()
            invariant
                0 <= k <= rows@.len(),
                rows@ == rows_v,
                rows_v == drop_rows(branches@, self, bounds, m),
                forall|j: int|
                    0 <= j < rows_v.len() ==> (#[trigger] rows_v[j]).index < branches@.len()
                        && -0x1_0000_0000_0000_0000_0000_0000_0000 <= rows_v[j].top
                        <= 0x1_0000_0000_0000_0000_0000_0000_0000,
                pred == (|k: int| near_row(bounds, rows_v[k], p)),
                px == p.x,
                py == p.y,
                forall|j: int| 0 <= j < k ==> !#[trigger] pred(j),
            decreases rows@.len() - k,
        {
            let row = rows[k];
            if bounds.x as i128 <= px && px < bounds.x as i128 + bounds.width as i128 && row.top - 2 <= py && py
                < row.top + row.height as i128 + 2 {
                proof {
                    lemma_first_where_skip(rows_v.len() as int, pred, k as int);
                    assert(pred(k as int));
                }
                let b = branches[row.index];
                let expanded = contains_id(&self.expanded, b.id);
                let pos = calculate_drop_position(
                    p.y,
                    row.top as i64,
                    row.height,
                    b.has_children,
                    expanded,
                    b.accepts_drops,
                );
                return (Some(b.id), pos);
            }
            k += 1;
        }
        proof {
            lemma_first_where_skip(rows_v.len() as int, pred, k as int);
        }
        let n = rows.len();
        if py > bounds.y as i128 && n > 0 {
            let last = rows[n - 1];
            if py - last.height as i128 > last.top {
                return (Some(branches[last.index].id), DropPosition::After);
            }
        }
        (prev_target, prev_pos)
    }

    /// The ids of the visible branches in display order.
    pub fn visible_ordered(&self, branches: &Vec<BranchDescriptor>) -> (r: Vec<usize>)
        requires
            ids_are_indices(branches@),
        ensures
            r@ == visible_ids(branches@, self),
    {
        let ordered = get_ordered_indices(branches, &self.branch_order);
        let mut ids: Vec<usize> = Vec::new();
        let mut k: usize = 0;
        while k < ordered.len()
            invariant
                0 <= k <= ordered@.len(),
                ordered@ == crate::tree::order::ordered_indices(
                    branches@.len() as int,
                    opt_view(&self.branch_order),
                ),
                ids@ == visible_ids_upto(branches@, self, ordered@, k as int),
            decreases ordered@.len() - k,
        {
            let i = ordered[k];
            if i < self.visible_branches.len() && self.visible_branches[i] && i < branches.len() {
                ids.push(branches[i].id);
            }
            k += 1;
        }
        ids
    }

    /// A key press while a branch has the focus: up and down move the focus
    /// among the visible branches; left collapses and right expands the
    /// focused branch when it has children; space applies a click to the
    /// selection. Returns whether the selection changed.
    pub fn handle_key(&mut self, branches: &Vec<BranchDescriptor>, key: NavKey, ctrl: bool) -> (r: bool)
        requires
            ids_are_indices(branches@),
        ensures
            old(self).focused is None ==> !r && *final(self) == *old(self),
            old(self).focused matches Some(f) ==> {
                &&& r == (key == NavKey::Space)
                &&& old(self).expanded@.no_duplicates() ==> final(self).expanded@.no_duplicates()
                &&& old(self).selected@.no_duplicates() ==> final(self).selected@.no_duplicates()
                &&& final(self).focused == Some(moved_focus(visible_ids(branches@, old(self)), f, key))
                &&& forall|y: usize|
                    #[trigger] final(self).expanded@.contains(y) == if y == f && f < branches@.len()
                        && branches@[f as int].has_children {
                        match key {
                            NavKey::Left => false,
                            NavKey::Right => true,
                            _ => old(self).expanded@.contains(y),
                        }
                    } else {
                        old(self).expanded@.contains(y)
                    }
                &&& key == NavKey::Space ==> forall|y: usize|
                    #[trigger] final(self).selected@.contains(y) == clicked_selection(
                        old(self).selected@,
                        f,
                        ctrl,
                        y,
                    )
                &&& key != NavKey::Space ==> final(self).selected == old(self).selected
                &&& final(self).drag_pending == old(self).drag_pending
                &&& final(self).drag_active == old(self).drag_active
                &&& final(self).branch_order == old(self).branch_order
            },
    {
        let focused = match self.focused {
            Some(f) => f,
            None => {
                return false;
            },
        };
        match key {
            NavKey::Up | NavKey::Down => {
                let ids = self.visible_ordered(branches);
                let ghost pred = equals_at(ids@, focused);
                let mut k: usize = 0;
                while k < ids.len() && ids[k] != focused
                    invariant
                        0 <= k <= ids@.len(),
                        *self == *old(self),
                        ids@ == visible_ids(branches@, old(self)),
                        pred == equals_at(ids@, focused),
                        forall|j: int| 0 <= j < k ==> !#[trigger] pred(j),
                    decreases ids@.len() - k,
                {
                    k += 1;
                }
                proof {
                    lemma_first_where_skip(ids@.len() as int, pred, k as int);

                }
                if k < ids.len() {
                    if key == NavKey::Up && k > 0 {
                        self.focused = Some(ids[k - 1]);
                    } else if key == NavKey::Down && k + 1 < ids.len() {
                        self.focused = Some(ids[k + 1]);
                    }
                }
                false
            },
            NavKey::Left => {
                if focused < branches.len() && branches[focused].has_children && contains_id(
                    &self.expanded,
                    focused,
                ) {
                    remove_id(&mut self.expanded, focused);
                }
                false
            },
            NavKey::Right => {
                if focused < branches.len() && branches[focused].has_children && !contains_id(
                    &self.expanded,
                    focused,
                ) {
                    insert_id(&mut self.expanded, focused);
                }
                false
            },
            NavKey::Space => {
                click_select(&mut self.selected, focused, ctrl);
                true
            },
        }
    }
}

/// The registry and the persisted order, being vectors, have lengths that
/// fit a `usize`.
pub proof fn lemma_lengths_fit(branches: &Vec<BranchDescriptor>, order: &Option<Vec<BranchState>>)
    ensures
        branches@.len() <= usize::MAX,
        order is Some ==> order.unwrap()@.len() <= usize::MAX,
{
    vstd::std_specs::vec::axiom_spec_len(branches);
    if let Some(o) = order {
        vstd::std_specs::vec::axiom_spec_len(o);
    }
}

} // verus!
