//! One frame of the tree: bringing the persisted order and the derived
//! flags up to date before layout, placing the rows, and committing a drop.

use vstd::prelude::*;
use crate::tree::{DropPosition, DropInfo};
use crate::tree::registry::{
    BranchDescriptor, Registry, external_map, ids_are_indices,
};
use crate::tree::order::{
    BranchState, declared_order, initial_order, update_has_children, is_parent_in, topology,
    newly_parents, opt_view, branch_info, get_branch_info, get_ordered_indices,
};
use crate::tree::reorder::{
    order_wf, reordered, reorder_branches, lemma_declared_order_wf, lemma_reorder_keeps_forest,
    target_stays, target_kept,
};
use crate::tree::state::{TreeState, visible_in, is_dragged, dragged_of, drag_contains};
use crate::tree::order::{contains_id, lemma_declared_order_resolves_as_declared};
use crate::tree::state::visible_within;
use crate::tree::interaction::{rows_of, rows_upto, Row, lemma_ordered_len, lemma_lengths_fit};
use crate::tree::state::Rect;
use crate::tree::interaction::{insert_id, Metrics, ARROW_W, CONTENT_GAP, LINE_HEIGHT};

verus! {

broadcast use vstd::std_specs::vec::group_vec_axioms;

/// The persisted order, when there is one, is a forest with one entry per
/// id.
pub open spec fn order_ok(state: &TreeState) -> bool {
    state.branch_order matches Some(o) ==> order_wf(o@)
}

/// The order a drop is applied to: the persisted one, else the declared
/// topology.
pub open spec fn current_order(state: &TreeState, branches: Seq<BranchDescriptor>) -> Seq<BranchState> {
    match state.branch_order {
        Some(o) => o@,
        None => declared_order(branches),
    }
}

/// The id reported to the caller for internal id `id`.
pub open spec fn preferred(branches: Seq<BranchDescriptor>, id: usize) -> usize {
    if id < branches.len() && branches[id as int].external_id != 0 {
        branches[id as int].external_id
    } else {
        id
    }
}

/// `new` is `old` with each descriptor's `has_children` recomputed from
/// `topo`.
pub open spec fn flags_from(
    old: Seq<BranchDescriptor>,
    new: Seq<BranchDescriptor>,
    topo: Seq<BranchState>,
) -> bool {
    &&& new.len() == old.len()
    &&& forall|i: int|
        0 <= i < old.len() ==> #[trigger] new[i] == (BranchDescriptor {
            has_children: is_parent_in(topo, old[i].id),
            ..old[i]
        })
}

proof fn lemma_external_map_flags(
    old: Seq<BranchDescriptor>,
    new: Seq<BranchDescriptor>,
    topo: Seq<BranchState>,
    k: int,
)
    requires
        flags_from(old, new, topo),
        0 <= k <= old.len(),
    ensures
        external_map(new, k) == external_map(old, k),
    decreases k,
{
    if k > 0 {
        lemma_external_map_flags(old, new, topo, k - 1);
        assert(new[k - 1].external_id == old[k - 1].external_id && new[k - 1].id == old[k - 1].id);
    }
}

/// Recomputing the flags keeps a registry well formed.
proof fn lemma_flags_keep_wf(old: &Registry, new: &Registry, topo: Seq<BranchState>)
    requires
        old.wf(),
        flags_from(old.branches@, new.branches@, topo),
        new.int_to_ext == old.int_to_ext,
        new.ext_to_int == old.ext_to_int,
    ensures
        new.wf(),
{
    lemma_external_map_flags(old.branches@, new.branches@, topo, old.branches@.len() as int);
    assert forall|i: int| 0 <= i < new.branches@.len() implies #[trigger] new.branches@[i].id == i by {
        assert(new.branches@[i].id == old.branches@[i].id);
    }
    assert forall|i: int|
        0 <= i < new.branches@.len() && (#[trigger] new.branches@[i]).parent_id is Some implies new.branches@[i].parent_id.unwrap()
            < i by {
        assert(new.branches@[i].parent_id == old.branches@[i].parent_id);
    }
    assert forall|i: int| 0 <= i < new.branches@.len() implies #[trigger] new.int_to_ext@[i]
        == new.branches@[i].external_id by {
        assert(new.branches@[i].external_id == old.branches@[i].external_id);
    }
}

/// Adds every id of `ids` to `v`.
fn insert_all(v: &mut Vec<usize>, ids: &Vec<usize>)
    ensures
        forall|y: usize| #[trigger] final(v)@.contains(y) == (old(v)@.contains(y) || ids@.contains(y)),
        old(v)@.no_duplicates() ==> final(v)@.no_duplicates(),
{
    let ghost start = v@;
    let mut k: usize = 0;
    while k < ids.len()
        invariant
            0 <= k <= ids@.len(),
            forall|y: usize|
                #[trigger] v@.contains(y) == (start.contains(y) || ids@.subrange(0, k as int).contains(y)),
            start.no_duplicates() ==> v@.no_duplicates(),
        decreases ids@.len() - k,
    {
        insert_id(v, ids[k]);
        proof {
            assert forall|y: usize|
                #[trigger] v@.contains(y) == (start.contains(y) || ids@.subrange(0, k + 1).contains(y)) by {
                let a = ids@.subrange(0, k as int);
                let b = ids@.subrange(0, k + 1);
                if a.contains(y) {
                    let j = choose|j: int| 0 <= j < a.len() && #[trigger] a[j] == y;
                    assert(b[j] == y);
                }
                if b.contains(y) && y != ids@[k as int] {
                    let j = choose|j: int| 0 <= j < b.len() && #[trigger] b[j] == y;
                    assert(a[j] == y);
                }
                if y == ids@[k as int] {
                    assert(b[k as int] == y);
                }
            }
        }
        k += 1;
    }
    proof {
        assert(ids@.subrange(0, k as int) =~= ids@);
    }
}

/// Whether every id of `ids` is below `n`.
fn all_below(ids: &Vec<usize>, n: usize) -> (r: bool)
    ensures
        r == forall|j: int| 0 <= j < ids@.len() ==> #[trigger] ids@[j] < n,
{
    let mut k: usize = 0;
    while k < ids.len()
        invariant
            0 <= k <= ids@.len(),
            forall|j: int| 0 <= j < k ==> #[trigger] ids@[j] < n,
        decreases ids@.len() - k,
    {
        if ids[k] >= n {
            return false;
        }
        k += 1;
    }
    true
}

/// The caller's ids of `ids`.
fn preferred_ids(reg: &Registry, ids: &Vec<usize>) -> (r: Vec<usize>)
    requires
        reg.wf(),
    ensures
        r@ == ids@.map_values(|id: usize| preferred(reg.branches@, id)),
{
    let mut out: Vec<usize> = Vec::new();
    let mut k: usize = 0;
    while k < ids.len()
        invariant
            0 <= k <= ids@.len(),
            reg.wf(),
            out@ == ids@.subrange(0, k as int).map_values(|id: usize| preferred(reg.branches@, id)),
        decreases ids@.len() - k,
    {
        let e = reg.preferred_id(ids[k]);
        out.push(e);
        proof {
            assert(out@ =~= ids@.subrange(0, k + 1).map_values(|id: usize| preferred(reg.branches@, id)));
        }
        k += 1;
    }
    proof {
        assert(ids@.subrange(0, k as int) =~= ids@);
    }
    out
}

impl TreeState {
    /// Brings the state up to date before layout: drops the persisted order
    /// when a reset is asked for, starts it from the declared topology when
    /// there is none, recomputes which branches have children from it,
    /// expands those that just gained children, and recomputes visibility.
    pub fn prepare_layout(&mut self, reg: &mut Registry, force_reset: bool)
        requires
            old(reg).wf(),
            order_ok(old(self)),
        ensures
            final(reg).wf(),
            order_ok(final(self)),
            old(self).expanded@.no_duplicates() ==> final(self).expanded@.no_duplicates(),
            final(reg).int_to_ext == old(reg).int_to_ext,
            final(self).branch_order is Some,
            final(self).branch_order.unwrap()@ == if force_reset || old(self).branch_order is None {
                declared_order(old(reg).branches@)
            } else {
                old(self).branch_order.unwrap()@
            },
            flags_from(old(reg).branches@, final(reg).branches@, final(self).branch_order.unwrap()@),
            forall|y: usize|
                #[trigger] final(self).expanded@.contains(y) == (old(self).expanded@.contains(y)
                    || newly_parents(
                    old(reg).branches@,
                    final(self).branch_order.unwrap()@,
                    old(reg).branches@.len() as int,
                ).contains(y)),
            final(self).visible_branches@.len() == final(reg).branches@.len(),
            forall|i: int|
                0 <= i < final(reg).branches@.len() ==> #[trigger] final(self).visible_branches@[i]
                    == visible_in(final(reg).branches@, final(self), i),
            final(self).selected == old(self).selected,
            final(self).focused == old(self).focused,
            final(self).drag_active == old(self).drag_active,
            final(self).drag_pending == old(self).drag_pending,
    {
        if force_reset {
            self.branch_order = None;
        }
        if self.branch_order.is_none() {
            proof {
                lemma_declared_order_wf(reg.branches@);
            }
            self.branch_order = Some(initial_order(&reg.branches));
        }
        let ghost old_reg = *reg;
        let ghost order = self.branch_order.unwrap()@;
        let newly = update_has_children(&mut reg.branches, &self.branch_order);
        proof {
            lemma_flags_keep_wf(&old_reg, reg, order);
        }
        insert_all(&mut self.expanded, &newly);
        self.update_visibility(&reg.branches);
    }

    /// Commits a drag on pointer release. With a drop target, when the
    /// dragged ids and the target are all still branches of the registry,
    /// and when the target does not move with the drag, the drop is applied to the current order, the flags are recomputed
    /// from the new order, branches that gained children are expanded, and
    /// the drop is reported in the caller's ids. Otherwise nothing changes
    /// and nothing is reported. The drag ends in any case.
    pub fn finish_drag(&mut self, reg: &mut Registry) -> (r: Option<DropInfo>)
        requires
            old(reg).wf(),
            order_ok(old(self)),
        ensures
            final(reg).wf(),
            order_ok(final(self)),
            old(self).expanded@.no_duplicates() ==> final(self).expanded@.no_duplicates(),
            final(self).drag_active is None,
            final(self).selected == old(self).selected,
            final(self).focused == old(self).focused,
            final(self).drag_pending == old(self).drag_pending,
            !drop_commits(old(self), old(reg).branches@) ==> {
                &&& r is None
                &&& final(self).branch_order == old(self).branch_order
                &&& final(reg).branches == old(reg).branches
                &&& final(self).expanded == old(self).expanded
            },
            drop_commits(old(self), old(reg).branches@) ==> {
                let d = old(self).drag_active.unwrap();
                let target = d.drop_target.unwrap();
                let new_order = reordered(
                    current_order(old(self), old(reg).branches@),
                    d.dragged_nodes@,
                    target,
                    d.drop_position,
                );
                &&& final(self).branch_order is Some
                &&& final(self).branch_order.unwrap()@ == new_order
                &&& flags_from(old(reg).branches@, final(reg).branches@, new_order)
                &&& forall|y: usize|
                    #[trigger] final(self).expanded@.contains(y) == (old(self).expanded@.contains(y)
                        || newly_parents(old(reg).branches@, new_order, old(reg).branches@.len() as int).contains(y))
                &&& r is Some
                &&& r.unwrap().dragged_ids@ == d.dragged_nodes@.map_values(
                    |id: usize| preferred(old(reg).branches@, id),
                )
                &&& r.unwrap().target_id == Some(preferred(old(reg).branches@, target))
                &&& r.unwrap().position == d.drop_position
            },
    {
        let d = match self.drag_active.take() {
            Some(d) => d,
            None => {
                return None;
            },
        };
        let target = match d.drop_target {
            Some(t) => t,
            None => {
                return None;
            },
        };
        let n = reg.branches.len();
        if target >= n || !all_below(&d.dragged_nodes, n) {
            return None;
        }
        let ghost old_reg = *reg;
        let current = match &self.branch_order {
            Some(o) => o.clone(),
            None => {
                proof {
                    lemma_declared_order_wf(reg.branches@);
                }
                initial_order(&reg.branches)
            },
        };
        proof {
            assert(current@ == current_order(old(self), old(reg).branches@));
            lemma_reorder_keeps_forest(current@, d.dragged_nodes@, target, d.drop_position);
        }
        if !target_kept(&current, &d.dragged_nodes, target) {
            return None;
        }
        let dragged_ext = preferred_ids(reg, &d.dragged_nodes);
        let target_ext = reg.preferred_id(target);
        let new_order = reorder_branches(&current, &d.dragged_nodes, target, d.drop_position);
        self.branch_order = Some(new_order);
        let ghost order = self.branch_order.unwrap()@;
        let newly = update_has_children(&mut reg.branches, &self.branch_order);
        proof {
            lemma_flags_keep_wf(&old_reg, reg, order);
        }
        insert_all(&mut self.expanded, &newly);
        Some(DropInfo { dragged_ids: dragged_ext, target_id: Some(target_ext), position: d.drop_position })
    }
}

/// A release commits the drop: it applies, and the target is not itself
/// among the entries that move, so the order changes as the drop says.
pub open spec fn drop_commits(state: &TreeState, branches: Seq<BranchDescriptor>) -> bool {
    &&& drop_applies(state, branches)
    &&& target_stays(
        current_order(state, branches),
        state.drag_active.unwrap().dragged_nodes@,
        state.drag_active.unwrap().drop_target.unwrap(),
    )
}

/// A release may commit the drag: one is active, it has a target, and the
/// target and all dragged ids are branches of the registry.
pub open spec fn drop_applies(state: &TreeState, branches: Seq<BranchDescriptor>) -> bool {
    &&& state.drag_active is Some
    &&& state.drag_active.unwrap().drop_target is Some
    &&& state.drag_active.unwrap().drop_target.unwrap() < branches.len()
    &&& forall|j: int|
        0 <= j < state.drag_active.unwrap().dragged_nodes@.len() ==> #[trigger] state.drag_active.unwrap().dragged_nodes@[j]
            < branches.len()
}

/// Where the content of one branch goes, relative to the tree's origin.
#[derive(Debug, Clone, Copy, PartialEq, Eq, Structural)]
pub struct Placement {
    pub index: usize,
    pub x: i128,
    pub y: i128,
}

/// Height kept open for a drop preview while a drag is active.
pub open spec fn preview_gap(state: &TreeState, m: Metrics) -> int {
    if state.drag_active is Some {
        LINE_HEIGHT + m.spacing
    } else {
        0
    }
}

/// The drop target and position of the active drag is `id` at `pos`.
pub open spec fn drop_at(state: &TreeState, id: usize, pos: DropPosition) -> bool {
    state.drag_active matches Some(d) && d.drop_target == Some(id) && d.drop_position == pos
}

/// One step of the placement pass over display-order index `i`, from the
/// placements so far and the running top `y`: a visible branch that is not
/// dragged is placed at its indentation, below a preview gap when the drop
/// goes before it, and the running top moves past it, and past a preview
/// gap when the drop goes after it or into it while it is expanded.
pub open spec fn place_step(
    branches: Seq<BranchDescriptor>,
    state: &TreeState,
    m: Metrics,
    acc: (Seq<Placement>, int),
    i: usize,
) -> (Seq<Placement>, int) {
    if !(i < branches.len() && i < state.visible_branches@.len() && state.visible_branches@[i as int]
        && i < state.branch_heights@.len()) {
        acc
    } else {
        let b = branches[i as int];
        if is_dragged(dragged_of(state), b.id) {
            acc
        } else {
            let gap = preview_gap(state, m);
            let y = if drop_at(state, b.id, DropPosition::Before) {
                acc.1 + gap
            } else {
                acc.1
            };
            let depth = branch_info(b, opt_view(&state.branch_order)).2;
            let x = m.padding_x + depth * m.indent + ARROW_W + CONTENT_GAP;
            let next = y + state.branch_heights@[i as int] + m.spacing;
            let after = if (drop_at(state, b.id, DropPosition::Into) && state.expanded@.contains(b.id))
                || drop_at(state, b.id, DropPosition::After) {
                next + gap
            } else {
                next
            };
            (acc.0.push(Placement { index: i, x: x as i128, y: y as i128 }), after)
        }
    }
}

/// The placement pass over the first `k` display-order indices.
pub open spec fn placements_upto(
    branches: Seq<BranchDescriptor>,
    state: &TreeState,
    m: Metrics,
    ordered: Seq<usize>,
    k: int,
) -> (Seq<Placement>, int)
    decreases k,
{
    if k <= 0 {
        (Seq::empty(), m.padding_y as int)
    } else {
        place_step(branches, state, m, placements_upto(branches, state, m, ordered, k - 1), ordered[k - 1])
    }
}

/// The placements of all visible branches that are not dragged, and the
/// running top after the last of them.
pub open spec fn placements(branches: Seq<BranchDescriptor>, state: &TreeState, m: Metrics) -> (
    Seq<Placement>,
    int,
) {
    let ordered = crate::tree::order::ordered_indices(branches.len() as int, opt_view(&state.branch_order));
    placements_upto(branches, state, m, ordered, ordered.len() as int)
}

proof fn lemma_placements_bound(
    branches: Seq<BranchDescriptor>,
    state: &TreeState,
    m: Metrics,
    ordered: Seq<usize>,
    k: int,
)
    requires
        0 <= k,
    ensures
        0 <= placements_upto(branches, state, m, ordered, k).1 <= m.padding_y + k * 0x8_0000_0000,
    decreases k,
{
    if k > 0 {
        lemma_placements_bound(branches, state, m, ordered, k - 1);
    }
}

impl TreeState {
    /// The placement pass of layout: where each visible, not dragged
    /// branch's content goes, in display order, with the running top after
    /// the last one.
    pub fn layout_positions(&self, branches: &Vec<BranchDescriptor>, m: Metrics) -> (r: (
        Vec<Placement>,
        i128,
    ))
        requires
            ids_are_indices(branches@),
        ensures
            (r.0@, r.1 as int) == placements(branches@, self, m),
    {
        let ordered = get_ordered_indices(branches, &self.branch_order);
        let gap: i128 = if self.drag_active.is_some() {
            LINE_HEIGHT as i128 + m.spacing as i128
        } else {
            0
        };
        let (target, pos) = match &self.drag_active {
            Some(d) => (d.drop_target, d.drop_position),
            None => (None, DropPosition::Before),
        };
        let mut out: Vec<Placement> = Vec::new();
        let mut y: i128 = m.padding_y as i128;
        let n = ordered.len();
        let mut k: usize = 0;
        while k < n
            invariant
                0 <= k <= n,
                n == ordered@.len(),
                ordered@ == crate::tree::order::ordered_indices(
                    branches@.len() as int,
                    opt_view(&self.branch_order),
                ),
                gap == preview_gap(self, m),
                self.drag_active is Some ==> target == self.drag_active.unwrap().drop_target && pos
                    == self.drag_active.unwrap().drop_position,
                self.drag_active is None ==> target is None,
                (out@, y as int) == placements_upto(branches@, self, m, ordered@, k as int),
            decreases n - k,
        {
            proof {
                lemma_placements_bound(branches@, self, m, ordered@, k as int);
                assert(k * 0x8_0000_0000 <= 0x1_0000_0000_0000_0000 * 0x8_0000_0000) by (nonlinear_arith)
                    requires
                        k <= 0x1_0000_0000_0000_0000,
                ;
            }
            let i = ordered[k];
            if i < branches.len() && i < self.visible_branches.len() && self.visible_branches[i] && i
                < self.branch_heights.len() {
                let b = branches[i];
                if !drag_contains(self, b.id) {
                    if target == Some(b.id) && pos == DropPosition::Before {
                        y = y + gap;
                    }
                    let (_, _, depth) = get_branch_info(branches, i, &self.branch_order);
                    proof {
                        assert(0 <= depth as i128 * m.indent as i128 <= 0x1_0000_0000_0000) by (nonlinear_arith)
                            requires
                                0 <= depth <= 0xffff,
                                0 <= m.indent <= 0xffff_ffff,
                        ;
                    }
                    let x: i128 = m.padding_x as i128 + depth as i128 * m.indent as i128 + ARROW_W as i128
                        + CONTENT_GAP as i128;
                    out.push(Placement { index: i, x, y });
                    y = y + self.branch_heights[i] as i128 + m.spacing as i128;
                    if target == Some(b.id) && ((pos == DropPosition::Into && contains_id(&self.expanded, b.id))
                        || pos == DropPosition::After) {
                        y = y + gap;
                    }
                }
            }
            k += 1;
        }
        (out, y)
    }
}

/// `b` is `a` with the persisted order `o` in place of none.
pub open spec fn with_order(a: &TreeState, b: &TreeState, o: Seq<BranchState>) -> bool {
    &&& a.branch_order is None
    &&& b.branch_order matches Some(v) && v@ == o
    &&& b.expanded == a.expanded
    &&& b.branch_heights == a.branch_heights
    &&& b.visible_branches == a.visible_branches
    &&& b.drag_active == a.drag_active
}

proof fn lemma_visible_same(
    branches: Seq<BranchDescriptor>,
    a: &TreeState,
    b: &TreeState,
    i: int,
    fuel: nat,
)
    requires
        ids_are_indices(branches),
        with_order(a, b, declared_order(branches)),
    ensures
        visible_within(branches, opt_view(&a.branch_order), dragged_of(a), a.expanded@, i, fuel)
            == visible_within(branches, opt_view(&b.branch_order), dragged_of(b), b.expanded@, i, fuel),
    decreases fuel,
{
    lemma_declared_order_resolves_as_declared(branches);
    if 0 <= i < branches.len() && fuel > 0 {
        assert(branch_info(branches[i], opt_view(&a.branch_order)) == branch_info(
            branches[i],
            opt_view(&b.branch_order),
        ));
        if let Some(p) = branch_info(branches[i], None).1 {
            lemma_visible_same(branches, a, b, p as int, (fuel - 1) as nat);
        }
    }
}

proof fn lemma_placements_same(
    branches: Seq<BranchDescriptor>,
    a: &TreeState,
    b: &TreeState,
    m: Metrics,
    ordered: Seq<usize>,
    top: int,
    k: int,
)
    requires
        ids_are_indices(branches),
        with_order(a, b, declared_order(branches)),
    ensures
        placements_upto(branches, a, m, ordered, k) == placements_upto(branches, b, m, ordered, k),
        rows_upto(branches, a, ordered, true, top, m.spacing as int, k) == rows_upto(
            branches,
            b,
            ordered,
            true,
            top,
            m.spacing as int,
            k,
        ),
    decreases k,
{
    lemma_declared_order_resolves_as_declared(branches);
    if k > 0 {
        lemma_placements_same(branches, a, b, m, ordered, top, k - 1);
        let i = ordered[k - 1];
        if i < branches.len() {
            assert(branch_info(branches[i as int], opt_view(&a.branch_order)) == branch_info(
                branches[i as int],
                opt_view(&b.branch_order),
            ));
        }
    }
}

/// Before any drag, resolving through the order that mirrors the declared
/// topology gives the same geometry as resolving from the declared
/// topology directly: the same visibility, the same rows for hit-testing,
/// and the same placements. `top` is where the first row starts.
pub proof fn lemma_declared_order_same_geometry(
    branches: Seq<BranchDescriptor>,
    a: &TreeState,
    b: &TreeState,
    m: Metrics,
    top: int,
)
    requires
        ids_are_indices(branches),
        with_order(a, b, declared_order(branches)),
    ensures
        forall|i: int| #[trigger] visible_in(branches, a, i) == visible_in(branches, b, i),
        placements(branches, a, m) == placements(branches, b, m),
        rows_of(branches, a, true, top, m.spacing as int) == rows_of(
            branches,
            b,
            true,
            top,
            m.spacing as int,
        ),
{
    lemma_declared_order_resolves_as_declared(branches);
    assert forall|i: int| #[trigger] visible_in(branches, a, i) == visible_in(branches, b, i) by {
        lemma_visible_same(branches, a, b, i, branches.len());
    }
    let ordered = crate::tree::order::ordered_indices(branches.len() as int, None);
    assert(crate::tree::order::ordered_indices(branches.len() as int, opt_view(&b.branch_order))
        == ordered);
    lemma_placements_same(branches, a, b, m, ordered, top, ordered.len() as int);
}

/// Row `i` takes part in sizing: it is visible and not dragged.
pub open spec fn sized_row(branches: Seq<BranchDescriptor>, state: &TreeState, i: int) -> bool {
    &&& 0 <= i < branches.len()
    &&& i < state.visible_branches@.len()
    &&& state.visible_branches@[i]
    &&& !is_dragged(dragged_of(state), branches[i].id)
}

/// Over the first `k` rows that take part in sizing: the summed height of
/// those without a height fill factor, the summed fill factors, and their
/// number.
pub open spec fn fluid_sums(
    branches: Seq<BranchDescriptor>,
    state: &TreeState,
    heights: Seq<u32>,
    fills: Seq<u16>,
    k: int,
) -> (int, int, int)
    decreases k,
{
    if k <= 0 {
        (0, 0, 0)
    } else {
        let (h, f, c) = fluid_sums(branches, state, heights, fills, k - 1);
        let i = k - 1;
        if sized_row(branches, state, i) && i < heights.len() && i < fills.len() {
            (if fills[i] == 0 {
                h + heights[i]
            } else {
                h
            }, f + fills[i], c + 1)
        } else {
            (h, f, c)
        }
    }
}

/// The height of one fill unit: what `available` leaves after the rows
/// without a fill factor, the padding above and below, and the spacing
/// between the counted rows, shared out over the fill factors and rounded
/// down; 0 when nothing is left or there is no fill factor.
pub open spec fn fluid_unit_of(available: int, nonfluid: int, padding_y: int, spacing: int, count: int, fill: int) -> int {
    let gaps = if count > 0 {
        count - 1
    } else {
        0
    };
    let left = available - nonfluid - 2 * padding_y - gaps * spacing;
    if fill <= 0 || left <= 0 {
        0
    } else {
        left / fill
    }
}

impl TreeState {
    /// The height of one fill unit for the rows that take part in sizing,
    /// given each row's measured height and height fill factor (indexed by
    /// registry index).
    pub fn fluid_unit(
        &self,
        branches: &Vec<BranchDescriptor>,
        heights: &Vec<u32>,
        fills: &Vec<u16>,
        available: u32,
        m: Metrics,
    ) -> (r: u64)
        ensures
            ({
                let (h, f, c) = fluid_sums(branches@, self, heights@, fills@, branches@.len() as int);
                r as int == fluid_unit_of(available as int, h, m.padding_y as int, m.spacing as int, c, f)
            }),
    {
        let mut nonfluid: u128 = 0;
        let mut fill: u128 = 0;
        let mut count: u128 = 0;
        let n = branches.len();
        let mut i: usize = 0;
        while i < n
            invariant
                0 <= i <= n,
                n == branches@.len(),
                (nonfluid as int, fill as int, count as int) == fluid_sums(
                    branches@,
                    self,
                    heights@,
                    fills@,
                    i as int,
                ),
                nonfluid <= i * 0x1_0000_0000,
                fill <= i * 0x1_0000,
                count <= i,
            decreases n - i,
        {
            if i < self.visible_branches.len() && self.visible_branches[i] && !drag_contains(
                self,
                branches[i].id,
            ) && i < heights.len() && i < fills.len() {
                if fills[i] == 0 {
                    nonfluid = nonfluid + heights[i] as u128;
                }
                fill = fill + fills[i] as u128;
                count = count + 1;
            }
            i += 1;
        }
        if fill == 0 {
            return 0;
        }
        let gaps: u128 = if count > 0 {
            count - 1
        } else {
            0
        };
        proof {
            assert(gaps * m.spacing <= 0x1_0000_0000_0000_0000 * 0x1_0000_0000) by (nonlinear_arith)
                requires
                    gaps <= 0x1_0000_0000_0000_0000,
                    m.spacing <= 0xffff_ffff,
            ;
            assert(0 <= gaps * m.spacing) by (nonlinear_arith)
                requires
                    gaps >= 0,
                    m.spacing >= 0,
            ;
        }
        let used: u128 = nonfluid + 2 * m.padding_y as u128 + gaps * m.spacing as u128;
        if available as u128 <= used {
            return 0;
        }
        let left: u128 = available as u128 - used;
        proof {
            assert(left / fill <= left) by (nonlinear_arith)
                requires
                    fill >= 1,
                    left >= 0,
            ;
        }
        (left / fill) as u64
    }
}

/// The rows that a drop is hit-tested against: each placed branch where it
/// is placed within `bounds`, preview gap included, with its measured
/// height.
pub open spec fn drop_rows(branches: Seq<BranchDescriptor>, state: &TreeState, bounds: Rect, m: Metrics) -> Seq<Row> {
    placements(branches, state, m).0.map_values(
        |p: Placement| Row {
            index: p.index,
            top: (bounds.y + p.y) as i128,
            height: state.branch_heights@[p.index as int],
        },
    )
}

/// Each placement is of a branch with a measured height, at a running top
/// that stays small.
proof fn lemma_placements_facts(
    branches: Seq<BranchDescriptor>,
    state: &TreeState,
    m: Metrics,
    ordered: Seq<usize>,
    k: int,
)
    requires
        0 <= k <= 0x2_0000_0000_0000_0000,
    ensures
        forall|j: int|
            0 <= j < placements_upto(branches, state, m, ordered, k).0.len() ==> {
                let p = #[trigger] placements_upto(branches, state, m, ordered, k).0[j];
                &&& p.index < branches.len()
                &&& p.index < state.branch_heights@.len()
                &&& 0 <= p.y <= m.padding_y + k * 0x8_0000_0000
            },
    decreases k,
{
    if k > 0 {
        lemma_placements_facts(branches, state, m, ordered, k - 1);
        lemma_placements_bound(branches, state, m, ordered, k - 1);
        let rest = placements_upto(branches, state, m, ordered, k - 1);
        let all = placements_upto(branches, state, m, ordered, k);
        assert forall|j: int| 0 <= j < all.0.len() implies {
            let p = #[trigger] all.0[j];
            &&& p.index < branches.len()
            &&& p.index < state.branch_heights@.len()
            &&& 0 <= p.y <= m.padding_y + k * 0x8_0000_0000
        } by {
            if j < rest.0.len() {
                assert(all.0[j] == rest.0[j]);
            }
        }
    }
}

/// Each placement is of a branch with a measured height, at a top between
/// 0 and 2^101.
proof fn lemma_placements_small(branches: &Vec<BranchDescriptor>, state: &TreeState, m: Metrics)
    ensures
        forall|j: int|
            0 <= j < placements(branches@, state, m).0.len() ==> {
                let p = #[trigger] placements(branches@, state, m).0[j];
                &&& p.index < branches@.len()
                &&& p.index < state.branch_heights@.len()
                &&& 0 <= p.y <= 0x20_0000_0000_0000_0000_0000_0000
            },
{
    lemma_lengths_fit(branches, &state.branch_order);
    lemma_ordered_len(branches@, opt_view(&state.branch_order));
    let ordered = crate::tree::order::ordered_indices(branches@.len() as int, opt_view(&state.branch_order));
    let k = ordered.len() as int;
    lemma_placements_facts(branches@, state, m, ordered, k);
    assert(k * 0x8_0000_0000 <= 0x2_0000_0000_0000_0000 * 0x8_0000_0000) by (nonlinear_arith)
        requires
            0 <= k <= 0x2_0000_0000_0000_0000,
    ;
}

impl TreeState {
    /// The rows a drop is hit-tested against, with the preview gap.
    pub fn drop_rows_of(&self, branches: &Vec<BranchDescriptor>, bounds: Rect, m: Metrics) -> (r: Vec<Row>)
        requires
            ids_are_indices(branches@),
        ensures
            r@ == drop_rows(branches@, self, bounds, m),
            forall|j: int|
                0 <= j < r@.len() ==> (#[trigger] r@[j]).index < branches@.len()
                    && -0x1_0000_0000_0000_0000_0000_0000_0000 <= r@[j].top
                    <= 0x1_0000_0000_0000_0000_0000_0000_0000,
    {
        let (pl, _) = self.layout_positions(branches, m);
        proof {
            lemma_placements_small(branches, self, m);
        }
        let ghost f = |p: Placement| Row {
            index: p.index,
            top: (bounds.y + p.y) as i128,
            height: self.branch_heights@[p.index as int],
        };
        let mut rows: Vec<Row> = Vec::new();
        let mut k: usize = 0;
        while k < pl.len()
            invariant
                0 <= k <= pl@.len(),
                pl@ == placements(branches@, self, m).0,
                forall|j: int|
                    0 <= j < pl@.len() ==> {
                        let p = #[trigger] pl@[j];
                        &&& p.index < branches@.len()
                        &&& p.index < self.branch_heights@.len()
                        &&& 0 <= p.y <= 0x20_0000_0000_0000_0000_0000_0000
                    },
                f == (|p: Placement| Row {
                    index: p.index,
                    top: (bounds.y + p.y) as i128,
                    height: self.branch_heights@[p.index as int],
                }),
                rows@ == pl@.subrange(0, k as int).map_values(f),
            decreases pl@.len() - k,
        {
            let p = pl[k];
            let row = Row { index: p.index, top: bounds.y as i128 + p.y, height: self.branch_heights[p.index] };
            rows.push(row);
            proof {
                assert(rows@ =~= pl@.subrange(0, k + 1).map_values(f));
            }
            k += 1;
        }
        proof {
            assert(pl@.subrange(0, k as int) =~= pl@);
        }
        rows
    }
}

} // verus!
