//! The reorder engine: a completed drag (dragged ids, target, drop position)
//! turned into the next persisted order. Whole subtrees move, the target
//! never moves, and the order stays a forest.

use vstd::prelude::*;
use crate::tree::DropPosition;
use crate::tree::registry::{BranchDescriptor, ids_are_indices, parents_precede};
use crate::tree::order::{
    declared_order, BranchState, state_of, has_entry, unique_ids, contains_id, find_state, lemma_state_of_some,
    lemma_state_of_unique,
};

verus! {

broadcast use vstd::std_specs::vec::group_vec_axioms;

/// The parent that the entry of `id` names, if it has an entry.
pub open spec fn parent_link(order: Seq<BranchState>, id: usize) -> Option<usize> {
    match state_of(order, id) {
        Some(bs) => bs.parent_id,
        None => None,
    }
}

/// Walking `k` parent links up from `x`; `None` once the walk leaves the
/// order.
pub open spec fn nth_ancestor(order: Seq<BranchState>, x: Option<usize>, k: nat) -> Option<usize>
    decreases k,
{
    if k == 0 {
        x
    } else {
        match x {
            None => None,
            Some(c) => nth_ancestor(order, parent_link(order, c), (k - 1) as nat),
        }
    }
}

/// `id` is `anc` or lies below it.
pub open spec fn reaches(order: Seq<BranchState>, id: usize, anc: usize, k: nat) -> bool {
    nth_ancestor(order, Some(id), k) == Some(anc)
}

/// `id` lies strictly below `anc`.
pub open spec fn is_descendant(order: Seq<BranchState>, id: usize, anc: usize) -> bool {
    exists|k: nat| k >= 1 && #[trigger] reaches(order, id, anc, k)
}

/// The walk up from `x` meets a dragged id within `k` steps, exactly at `k`.
pub open spec fn hits(order: Seq<BranchState>, dragged: Seq<usize>, x: Option<usize>, k: nat) -> bool {
    match nth_ancestor(order, x, k) {
        Some(a) => dragged.contains(a),
        None => false,
    }
}

/// `id` is dragged or lies below a dragged id: it moves with the drag.
pub open spec fn moves_with(order: Seq<BranchState>, dragged: Seq<usize>, id: usize) -> bool {
    exists|k: nat| #[trigger] hits(order, dragged, Some(id), k)
}

/// Parent links strictly lower `rank`.
pub open spec fn ranked_by(order: Seq<BranchState>, rank: spec_fn(usize) -> nat) -> bool {
    forall|i: int, j: int|
        0 <= i < order.len() && 0 <= j < order.len() && (#[trigger] order[i]).parent_id == Some(
            (#[trigger] order[j]).id,
        ) ==> rank(order[j].id) < rank(order[i].id)
}

/// The order is a forest: some rank strictly decreases along every parent
/// link, so no walk up the parent links comes back to where it started.
pub open spec fn acyclic(order: Seq<BranchState>) -> bool {
    exists|rank: spec_fn(usize) -> nat| ranked_by(order, rank)
}

/// A well-formed persisted order: a forest with one entry per id.
pub open spec fn order_wf(order: Seq<BranchState>) -> bool {
    unique_ids(order) && acyclic(order)
}

/// The entries among the first `k` that stay in place, in order.
pub open spec fn kept_part(order: Seq<BranchState>, dragged: Seq<usize>, k: int) -> Seq<BranchState>
    decreases k,
{
    if k <= 0 {
        Seq::empty()
    } else {
        let rest = kept_part(order, dragged, k - 1);
        if moves_with(order, dragged, order[k - 1].id) {
            rest
        } else {
            rest.push(order[k - 1])
        }
    }
}

/// The entries among the first `k` that move with the drag, in order.
pub open spec fn removed_part(order: Seq<BranchState>, dragged: Seq<usize>, k: int) -> Seq<
    BranchState,
>
    decreases k,
{
    if k <= 0 {
        Seq::empty()
    } else {
        let rest = removed_part(order, dragged, k - 1);
        if moves_with(order, dragged, order[k - 1].id) {
            rest.push(order[k - 1])
        } else {
            rest
        }
    }
}

/// Index of the first entry of `s` with id `id`.
pub open spec fn position_of(s: Seq<BranchState>, id: usize) -> Option<int>
    decreases s.len(),
{
    if s.len() == 0 {
        None
    } else if s[0].id == id {
        Some(0)
    } else {
        match position_of(s.subrange(1, s.len() as int), id) {
            Some(k) => Some(k + 1),
            None => None,
        }
    }
}

/// Dropping after the target at `t` of `kept` pops the moved items out to
/// the root: the target is nested, and no entry after it is a root or
/// shares its parent.
pub open spec fn pops_to_root(kept: Seq<BranchState>, t: int) -> bool {
    &&& kept[t].parent_id is Some
    &&& forall|j: int| t < j < kept.len() ==> (#[trigger] kept[j]).parent_id != kept[t].parent_id
    &&& forall|j: int| t < j < kept.len() ==> (#[trigger] kept[j]).parent_id is Some
}

/// The parent and depth that the dragged roots get.
pub open spec fn new_placement(kept: Seq<BranchState>, t: int, target: usize, pos: DropPosition) -> (
    Option<usize>,
    u16,
) {
    match pos {
        DropPosition::Before => (kept[t].parent_id, kept[t].depth),
        DropPosition::Into => (
            Some(target),
            if kept[t].depth < u16::MAX {
                (kept[t].depth + 1) as u16
            } else {
                u16::MAX
            },
        ),
        DropPosition::After => if pops_to_root(kept, t) {
            (None, 0)
        } else {
            (kept[t].parent_id, kept[t].depth)
        },
    }
}

/// The first index from `j` on that is not a descendant of `target`.
pub open spec fn skip_descendants(kept: Seq<BranchState>, target: usize, j: int) -> int
    decreases kept.len() - j,
{
    if 0 <= j < kept.len() && is_descendant(kept, kept[j].id, target) {
        skip_descendants(kept, target, j + 1)
    } else {
        j
    }
}

/// Where the moved entries go in the kept list.
pub open spec fn insertion_index(kept: Seq<BranchState>, t: int, target: usize, pos: DropPosition) -> int {
    match pos {
        DropPosition::Before => t,
        DropPosition::Into => t + 1,
        DropPosition::After => skip_descendants(kept, target, t + 1),
    }
}

/// Steps from `id` up to its nearest dragged ancestor-or-self.
pub open spec fn anchor_steps(order: Seq<BranchState>, dragged: Seq<usize>, id: usize) -> nat {
    choose|k: nat|
        #[trigger] hits(order, dragged, Some(id), k) && forall|j: nat|
            j < k ==> !#[trigger] hits(order, dragged, Some(id), j)
}

/// The depth that an entry moving below a dragged root is measured from:
/// the old depth of its nearest dragged ancestor, or one level above the
/// entry when that ancestor has no entry.
pub open spec fn anchor_depth(order: Seq<BranchState>, dragged: Seq<usize>, e: BranchState) -> int {
    match nth_ancestor(order, Some(e.id), anchor_steps(order, dragged, e.id)) {
        Some(a) => match state_of(order, a) {
            Some(bs) => bs.depth as int,
            None => e.depth - 1,
        },
        None => e.depth - 1,
    }
}

/// `d` clamped to the depths a `u16` holds.
pub open spec fn clamp_depth(d: int) -> u16 {
    if d < 0 {
        0
    } else if d > u16::MAX {
        u16::MAX
    } else {
        d as u16
    }
}

/// A moved entry after the drop: a dragged root takes the new parent and
/// depth; an entry below it keeps its parent and its depth relative to its
/// nearest dragged ancestor, which now sits at `base`.
pub open spec fn moved_entry(
    e: BranchState,
    order: Seq<BranchState>,
    dragged: Seq<usize>,
    parent: Option<usize>,
    base: u16,
) -> BranchState {
    if dragged.contains(e.id) {
        BranchState { id: e.id, parent_id: parent, depth: base }
    } else {
        BranchState { depth: clamp_depth(base + e.depth - anchor_depth(order, dragged, e)), ..e }
    }
}

/// The order after dropping `dragged` at `pos` of `target`. When the
/// target is not among the entries that stay, the order is unchanged.
pub open spec fn reordered(
    order: Seq<BranchState>,
    dragged: Seq<usize>,
    target: usize,
    pos: DropPosition,
) -> Seq<BranchState> {
    let kept = kept_part(order, dragged, order.len() as int);
    let removed = removed_part(order, dragged, order.len() as int);
    match position_of(kept, target) {
        None => order,
        Some(t) => {
            let (parent, base) = new_placement(kept, t, target, pos);
            let idx = insertion_index(kept, t, target, pos);
            let moved = removed.map_values(
                |e: BranchState| moved_entry(e, order, dragged, parent, base),
            );
            kept.subrange(0, idx) + moved + kept.subrange(idx, kept.len() as int)
        },
    }
}

// ---------------------------------------------------------------------------
// Walking parent links

/// A measure that every step up the parent links lowers.
pub open spec fn walk_measure(order: Seq<BranchState>, rank: spec_fn(usize) -> nat, x: Option<usize>) -> nat {
    match x {
        None => 0,
        Some(c) => if has_entry(order, c) {
            rank(c) + 2
        } else {
            1
        },
    }
}

proof fn lemma_walk_measure_drops(
    order: Seq<BranchState>,
    rank: spec_fn(usize) -> nat,
    c: usize,
)
    requires
        ranked_by(order, rank),
    ensures
        walk_measure(order, rank, parent_link(order, c)) < walk_measure(order, rank, Some(c)),
{
    lemma_state_of_some(order, c);
    if let Some(bs) = state_of(order, c) {
        let j = choose|j: int|
            0 <= j < order.len() && order[j] == state_of(order, c).unwrap() && (#[trigger] order[j]).id
                == c;
        if let Some(p) = bs.parent_id {
            if has_entry(order, p) {
                let i = choose|i: int| 0 <= i < order.len() && (#[trigger] order[i]).id == p;
                assert(order[j].parent_id == Some(order[i].id));
            }
        }
    }
}

/// The parent that the entry of `id` names, if it has an entry.
fn get_parent_link(order: &Vec<BranchState>, id: usize) -> (r: Option<usize>)
    ensures
        r == parent_link(order@, id),
{
    match find_state(order, id) {
        Some(bs) => bs.parent_id,
        None => None,
    }
}

/// Whether `id` is dragged or lies below a dragged id.
pub fn moves_with_drag(order: &Vec<BranchState>, dragged: &Vec<usize>, id: usize) -> (r: bool)
    requires
        acyclic(order@),
    ensures
        r == moves_with(order@, dragged@, id),
{
    let ghost rank = choose|rank: spec_fn(usize) -> nat| ranked_by(order@, rank);
    let mut cur: Option<usize> = Some(id);
    loop
        invariant
            ranked_by(order@, rank),
            moves_with(order@, dragged@, id) == exists|k: nat| #[trigger] hits(order@, dragged@, cur, k),
        decreases walk_measure(order@, rank, cur),
    {
        match cur {
            None => {
                assert(forall|k: nat| !#[trigger] hits(order@, dragged@, cur, k));
                return false;
            },
            Some(c) => {
                if contains_id(dragged, c) {
                    assert(hits(order@, dragged@, cur, 0));
                    return true;
                }
                let next = get_parent_link(order, c);
                proof {
                    lemma_walk_measure_drops(order@, rank, c);
                    assert forall|k: nat| #[trigger] hits(order@, dragged@, cur, k) implies hits(
                        order@,
                        dragged@,
                        next,
                        (k - 1) as nat,
                    ) && k >= 1 by {}
                    assert forall|k: nat| #[trigger] hits(order@, dragged@, next, k) implies hits(
                        order@,
                        dragged@,
                        cur,
                        k + 1,
                    ) by {}
                }
                cur = next;
            },
        }
    }
}

/// The walk up from `x` is at `a` after `k` steps.
pub open spec fn walk_at(order: Seq<BranchState>, x: Option<usize>, a: usize, k: nat) -> bool {
    nth_ancestor(order, x, k) == Some(a)
}

/// Whether `potential_child` lies strictly below `potential_ancestor`.
pub fn is_descendant_of(potential_child: usize, potential_ancestor: usize, states: &Vec<BranchState>) -> (r: bool)
    requires
        acyclic(states@),
    ensures
        r == is_descendant(states@, potential_child, potential_ancestor),
{
    let ghost rank = choose|rank: spec_fn(usize) -> nat| ranked_by(states@, rank);
    let ghost a = potential_ancestor;
    let ghost start = Some(potential_child);
    let mut cur: Option<usize> = get_parent_link(states, potential_child);
    proof {
        assert forall|k: nat| k >= 1 && #[trigger] reaches(states@, potential_child, a, k) implies walk_at(
            states@,
            cur,
            a,
            (k - 1) as nat,
        ) by {}
        assert forall|k: nat| #[trigger] walk_at(states@, cur, a, k) implies reaches(
            states@,
            potential_child,
            a,
            k + 1,
        ) by {
            assert(nth_ancestor(states@, start, k + 1) == nth_ancestor(states@, cur, k));
        }
    }
    loop
        invariant
            ranked_by(states@, rank),
            a == potential_ancestor,
            is_descendant(states@, potential_child, a) == exists|k: nat| #[trigger] walk_at(states@, cur, a, k),
        decreases walk_measure(states@, rank, cur),
    {
        match cur {
            None => {
                assert(forall|k: nat| !#[trigger] walk_at(states@, cur, a, k));
                return false;
            },
            Some(c) => {
                if c == potential_ancestor {
                    assert(walk_at(states@, cur, a, 0));
                    return true;
                }
                let next = get_parent_link(states, c);
                proof {
                    lemma_walk_measure_drops(states@, rank, c);
                    assert forall|k: nat| #[trigger] walk_at(states@, cur, a, k) implies k >= 1 && walk_at(
                        states@,
                        next,
                        a,
                        (k - 1) as nat,
                    ) by {}
                    assert forall|k: nat| #[trigger] walk_at(states@, next, a, k) implies walk_at(
                        states@,
                        cur,
                        a,
                        k + 1,
                    ) by {}
                }
                cur = next;
            },
        }
    }
}

// ---------------------------------------------------------------------------
// Reordering

/// What the first-match search for `id` finds in `s`.
proof fn lemma_position_of_at(s: Seq<BranchState>, k: int, id: usize)
    requires
        0 <= k <= s.len(),
        forall|j: int| 0 <= j < k ==> (#[trigger] s[j]).id != id,
        k < s.len() ==> s[k].id == id,
    ensures
        position_of(s, id) == (if k < s.len() { Some(k) } else { None::<int> }),
    decreases k,
{
    if s.len() > 0 && k > 0 {
        let t = s.subrange(1, s.len() as int);
        assert forall|j: int| 0 <= j < k - 1 implies (#[trigger] t[j]).id != id by {
            assert(t[j] == s[j + 1]);
        }
        lemma_position_of_at(t, k - 1, id);
    }
}

/// Each kept entry is an entry of the order that does not move, and each
/// removed entry one that moves.
pub proof fn lemma_parts(order: Seq<BranchState>, dragged: Seq<usize>, k: int)
    requires
        0 <= k <= order.len(),
    ensures
        forall|a: int|
            0 <= a < kept_part(order, dragged, k).len() ==> exists|i: int|
                0 <= i < k && order[i] == #[trigger] kept_part(order, dragged, k)[a],
        forall|a: int|
            0 <= a < kept_part(order, dragged, k).len() ==> !moves_with(
                order,
                dragged,
                (#[trigger] kept_part(order, dragged, k)[a]).id,
            ),
        forall|a: int|
            0 <= a < removed_part(order, dragged, k).len() ==> exists|i: int|
                0 <= i < k && order[i] == #[trigger] removed_part(order, dragged, k)[a],
        forall|a: int|
            0 <= a < removed_part(order, dragged, k).len() ==> moves_with(
                order,
                dragged,
                (#[trigger] removed_part(order, dragged, k)[a]).id,
            ),
        unique_ids(order) ==> unique_ids(kept_part(order, dragged, k)),
        unique_ids(order) ==> unique_ids(removed_part(order, dragged, k)),
    decreases k,
{
    if k > 0 {
        lemma_parts(order, dragged, k - 1);
        let kp = kept_part(order, dragged, k - 1);
        let rp = removed_part(order, dragged, k - 1);
        let kk = kept_part(order, dragged, k);
        let rk = removed_part(order, dragged, k);
        assert forall|a: int| 0 <= a < kk.len() implies exists|i: int|
            0 <= i < k && order[i] == #[trigger] kk[a] by {
            if a < kp.len() {
                assert(kk[a] == kp[a]);
                let i = choose|i: int| 0 <= i < k - 1 && order[i] == #[trigger] kp[a];
            } else {
                assert(kk[a] == order[k - 1]);
            }
        }
        assert forall|a: int| 0 <= a < rk.len() implies exists|i: int|
            0 <= i < k && order[i] == #[trigger] rk[a] by {
            if a < rp.len() {
                assert(rk[a] == rp[a]);
                let i = choose|i: int| 0 <= i < k - 1 && order[i] == #[trigger] rp[a];
            } else {
                assert(rk[a] == order[k - 1]);
            }
        }
        assert forall|a: int| 0 <= a < kk.len() implies !moves_with(order, dragged, (#[trigger] kk[a]).id) by {
            if a < kp.len() {
                assert(kk[a] == kp[a]);
            }
        }
        assert forall|a: int| 0 <= a < rk.len() implies moves_with(order, dragged, (#[trigger] rk[a]).id) by {
            if a < rp.len() {
                assert(rk[a] == rp[a]);
            }
        }
        if unique_ids(order) {
            assert forall|a: int, b: int|
                0 <= a < kk.len() && 0 <= b < kk.len() && a != b implies (#[trigger] kk[a]).id
                    != (#[trigger] kk[b]).id by {
                if a < kp.len() && b < kp.len() {
                    assert(kk[a] == kp[a] && kk[b] == kp[b]);
                } else if a < kp.len() {
                    assert(kk[a] == kp[a]);
                    let i = choose|i: int| 0 <= i < k - 1 && order[i] == #[trigger] kp[a];
                    assert(kk[b] == order[k - 1]);
                } else if b < kp.len() {
                    assert(kk[b] == kp[b]);
                    let i = choose|i: int| 0 <= i < k - 1 && order[i] == #[trigger] kp[b];
                    assert(kk[a] == order[k - 1]);
                }
            }
            assert forall|a: int, b: int|
                0 <= a < rk.len() && 0 <= b < rk.len() && a != b implies (#[trigger] rk[a]).id
                    != (#[trigger] rk[b]).id by {
                if a < rp.len() && b < rp.len() {
                    assert(rk[a] == rp[a] && rk[b] == rp[b]);
                } else if a < rp.len() {
                    assert(rk[a] == rp[a]);
                    let i = choose|i: int| 0 <= i < k - 1 && order[i] == #[trigger] rp[a];
                    assert(rk[b] == order[k - 1]);
                } else if b < rp.len() {
                    assert(rk[b] == rp[b]);
                    let i = choose|i: int| 0 <= i < k - 1 && order[i] == #[trigger] rp[b];
                    assert(rk[a] == order[k - 1]);
                }
            }
        }
    }
}

/// A sequence made of entries of an acyclic order is acyclic.
proof fn lemma_sub_acyclic(order: Seq<BranchState>, sub: Seq<BranchState>)
    requires
        acyclic(order),
        forall|a: int| 0 <= a < sub.len() ==> exists|i: int| 0 <= i < order.len() && order[i] == #[trigger] sub[a],
    ensures
        acyclic(sub),
{
    let rank = choose|rank: spec_fn(usize) -> nat| ranked_by(order, rank);
    assert forall|a: int, b: int|
        0 <= a < sub.len() && 0 <= b < sub.len() && (#[trigger] sub[a]).parent_id == Some(
            (#[trigger] sub[b]).id,
        ) implies rank(sub[b].id) < rank(sub[a].id) by {
        let i = choose|i: int| 0 <= i < order.len() && order[i] == #[trigger] sub[a];
        let j = choose|j: int| 0 <= j < order.len() && order[j] == #[trigger] sub[b];
        assert(order[i].parent_id == Some(order[j].id));
    }
    assert(ranked_by(sub, rank));
}

/// Splits `order` into the entries that stay and the entries that move with
/// the drag.
fn partition(order: &Vec<BranchState>, dragged: &Vec<usize>) -> (r: (Vec<BranchState>, Vec<BranchState>))
    requires
        acyclic(order@),
    ensures
        r.0@ == kept_part(order@, dragged@, order@.len() as int),
        r.1@ == removed_part(order@, dragged@, order@.len() as int),
{
    let mut kept: Vec<BranchState> = Vec::new();
    let mut removed: Vec<BranchState> = Vec::new();
    let mut i: usize = 0;
    while i < order.len()
        invariant
            0 <= i <= order@.len(),
            acyclic(order@),
            kept@ == kept_part(order@, dragged@, i as int),
            removed@ == removed_part(order@, dragged@, i as int),
        decreases order@.len() - i,
    {
        let e = order[i];
        if moves_with_drag(order, dragged, e.id) {
            removed.push(e);
        } else {
            kept.push(e);
        }
        i += 1;
    }
    (kept, removed)
}

/// The target stays in place when `dragged` moves: it is among the kept
/// entries. Otherwise a drop onto it changes nothing.
pub open spec fn target_stays(order: Seq<BranchState>, dragged: Seq<usize>, target: usize) -> bool {
    position_of(kept_part(order, dragged, order.len() as int), target) is Some
}

/// Whether the target stays in place when `dragged` moves.
pub fn target_kept(order: &Vec<BranchState>, dragged: &Vec<usize>, target: usize) -> (r: bool)
    requires
        acyclic(order@),
    ensures
        r == target_stays(order@, dragged@, target),
{
    let (kept, _) = partition(order, dragged);
    get_position(&kept, target).is_some()
}

/// Index of the first entry of `s` with id `id`.
fn get_position(s: &Vec<BranchState>, id: usize) -> (r: Option<usize>)
    ensures
        match r {
            Some(k) => position_of(s@, id) == Some(k as int),
            None => position_of(s@, id) is None,
        },
{
    let mut k: usize = 0;
    while k < s.len()
        invariant
            0 <= k <= s@.len(),
            forall|j: int| 0 <= j < k ==> (#[trigger] s@[j]).id != id,
        decreases s@.len() - k,
    {
        if s[k].id == id {
            proof {
                lemma_position_of_at(s@, k as int, id);
            }
            return Some(k);
        }
        k += 1;
    }
    proof {
        lemma_position_of_at(s@, k as int, id);
    }
    None
}

/// Whether dropping after the target at `t` pops the moved items to root.
fn get_pops_to_root(kept: &Vec<BranchState>, t: usize) -> (r: bool)
    requires
        t < kept@.len(),
    ensures
        r == pops_to_root(kept@, t as int),
{
    let parent = kept[t].parent_id;
    proof {
        vstd::std_specs::vec::axiom_spec_len(&kept);
    }
    if parent.is_none() {
        return false;
    }
    let mut j: usize = t + 1;
    while j < kept.len()
        invariant
            t < j <= kept@.len(),
            parent == kept@[t as int].parent_id,
            forall|m: int| t < m < j ==> (#[trigger] kept@[m]).parent_id != parent,
            forall|m: int| t < m < j ==> (#[trigger] kept@[m]).parent_id is Some,
        decreases kept@.len() - j,
    {
        if kept[j].parent_id == parent || kept[j].parent_id.is_none() {
            return false;
        }
        j += 1;
    }
    true
}

/// `k + 1` steps up are one step up from `k` steps up.
proof fn lemma_nth_succ(order: Seq<BranchState>, x: Option<usize>, k: nat)
    ensures
        nth_ancestor(order, x, k + 1) == match nth_ancestor(order, x, k) {
            Some(c) => parent_link(order, c),
            None => None,
        },
    decreases k,
{
    if k > 0 {
        if let Some(c) = x {
            lemma_nth_succ(order, parent_link(order, c), (k - 1) as nat);
        }
    } else {
        assert(nth_ancestor(order, x, 0) == x);
        if let Some(c) = x {
            assert(nth_ancestor(order, parent_link(order, c), 0) == parent_link(order, c));
        }
    }
}

/// Once a walk leaves the order it stays out.
proof fn lemma_nth_none_after(order: Seq<BranchState>, x: Option<usize>, j: nat, k: nat)
    requires
        j <= k,
        nth_ancestor(order, x, j) is None,
    ensures
        nth_ancestor(order, x, k) is None,
    decreases k - j,
{
    if j < k {
        lemma_nth_succ(order, x, j);
        lemma_nth_none_after(order, x, j + 1, k);
    }
}

/// The depth that a moving entry below a dragged root is measured from.
fn get_anchor_depth(order: &Vec<BranchState>, dragged: &Vec<usize>, e: BranchState) -> (r: i32)
    requires
        acyclic(order@),
        moves_with(order@, dragged@, e.id),
        e.depth <= u16::MAX,
    ensures
        r as int == anchor_depth(order@, dragged@, e),
        -1 <= r <= u16::MAX,
{
    let ghost rank = choose|rank: spec_fn(usize) -> nat| ranked_by(order@, rank);
    let ghost x = Some(e.id);
    let ghost mut j: nat = 0;
    let mut cur: Option<usize> = Some(e.id);
    loop
        invariant
            ranked_by(order@, rank),
            moves_with(order@, dragged@, e.id),
            x == Some(e.id),
            cur == nth_ancestor(order@, x, j),
            forall|i: nat| i < j ==> !#[trigger] hits(order@, dragged@, x, i),
        decreases walk_measure(order@, rank, cur),
    {
        match cur {
            None => {
                proof {
                    let k = choose|k: nat| #[trigger] hits(order@, dragged@, x, k);
                    if k >= j {
                        lemma_nth_none_after(order@, x, j, k);
                    }
                    assert(false);
                }
                return e.depth as i32 - 1;
            },
            Some(c) => {
                if contains_id(dragged, c) {
                    proof {
                        assert(hits(order@, dragged@, x, j));
                        let k = anchor_steps(order@, dragged@, e.id);
                        assert(hits(order@, dragged@, x, k));
                        if k < j {
                            assert(!hits(order@, dragged@, x, k));
                        }
                        assert(k == j);
                    }
                    return match find_state(order, c) {
                        Some(bs) => bs.depth as i32,
                        None => e.depth as i32 - 1,
                    };
                }
                let next = get_parent_link(order, c);
                proof {
                    lemma_walk_measure_drops(order@, rank, c);
                    lemma_nth_succ(order@, x, j);
                    assert(!hits(order@, dragged@, x, j));
                    assert forall|i: nat| i < j + 1 implies !#[trigger] hits(order@, dragged@, x, i) by {
                        if i < j {
                        }
                    }
                    j = j + 1;
                }
                cur = next;
            },
        }
    }
}

/// A moving entry after the drop.
fn get_moved_entry(
    order: &Vec<BranchState>,
    dragged: &Vec<usize>,
    e: BranchState,
    parent: Option<usize>,
    base: u16,
) -> (r: BranchState)
    requires
        acyclic(order@),
        moves_with(order@, dragged@, e.id),
    ensures
        r == moved_entry(e, order@, dragged@, parent, base),
{
    if contains_id(dragged, e.id) {
        BranchState { id: e.id, parent_id: parent, depth: base }
    } else {
        let anchor = get_anchor_depth(order, dragged, e);
        let d: i32 = base as i32 + e.depth as i32 - anchor;
        let nd: u16 = if d < 0 {
            0
        } else if d > 65535 {
            u16::MAX
        } else {
            d as u16
        };
        BranchState { depth: nd, ..e }
    }
}

/// The order after dropping the dragged ids at `drop_position` of
/// `target_id`: the dragged entries and everything below them leave their
/// place; the dragged roots take the parent and depth that the drop gives,
/// the entries below them shift their depth by as much; all of them go, in
/// their old relative order, before the target, right after it, or after it
/// and its descendants. Nothing changes when the target itself would move.
pub fn reorder_branches(
    order: &Vec<BranchState>,
    dragged_ids: &Vec<usize>,
    target_id: usize,
    drop_position: DropPosition,
) -> (r: Vec<BranchState>)
    requires
        acyclic(order@),
    ensures
        r@ == reordered(order@, dragged_ids@, target_id, drop_position),
{
    let (kept, removed) = partition(order, dragged_ids);
    proof {
        lemma_parts(order@, dragged_ids@, order@.len() as int);
        lemma_sub_acyclic(order@, kept@);
    }
    let t = match get_position(&kept, target_id) {
        Some(t) => t,
        None => {
            return order.clone();
        },
    };
    proof {
        assert(t < kept@.len()) by {
            lemma_position_bound(kept@, target_id);
        }
    }
    let ts = kept[t];
    proof {
        vstd::std_specs::vec::axiom_spec_len(&kept);
    }
    let (new_parent, new_base): (Option<usize>, u16) = match drop_position {
        DropPosition::Before => (ts.parent_id, ts.depth),
        DropPosition::Into => (Some(target_id), if ts.depth < u16::MAX { ts.depth + 1 } else { u16::MAX }),
        DropPosition::After => if get_pops_to_root(&kept, t) {
            (None, 0)
        } else {
            (ts.parent_id, ts.depth)
        },
    };
    let idx: usize = match drop_position {
        DropPosition::Before => t,
        DropPosition::Into => t + 1,
        DropPosition::After => {
            let mut j: usize = t + 1;
            while j < kept.len() && is_descendant_of(kept[j].id, target_id, &kept)
                invariant
                    t < j <= kept@.len(),
                    acyclic(kept@),
                    skip_descendants(kept@, target_id, j as int) == skip_descendants(
                        kept@,
                        target_id,
                        t + 1,
                    ),
                decreases kept@.len() - j,
            {
                j += 1;
            }
            j
        },
    };
    let ghost f = |e: BranchState| moved_entry(e, order@, dragged_ids@, new_parent, new_base);
    let mut r: Vec<BranchState> = Vec::new();
    let mut k: usize = 0;
    while k < idx
        invariant
            0 <= k <= idx <= kept@.len(),
            r@ == kept@.subrange(0, k as int),
        decreases idx - k,
    {
        r.push(kept[k]);
        proof {
            assert(r@ =~= kept@.subrange(0, k as int + 1));
        }
        k += 1;
    }
    let mut m: usize = 0;
    while m < removed.len()
        invariant
            0 <= m <= removed@.len(),
            idx <= kept@.len(),
            acyclic(order@),
            forall|a: int|
                0 <= a < removed@.len() ==> moves_with(order@, dragged_ids@, (#[trigger] removed@[a]).id),
            f == (|e: BranchState| moved_entry(e, order@, dragged_ids@, new_parent, new_base)),
            r@ == kept@.subrange(0, idx as int) + removed@.subrange(0, m as int).map_values(f),
        decreases removed@.len() - m,
    {
        let e = removed[m];
        let moved = get_moved_entry(order, dragged_ids, e, new_parent, new_base);
        r.push(moved);
        proof {
            assert(removed@.subrange(0, m as int + 1).map_values(f) =~= removed@.subrange(
                0,
                m as int,
            ).map_values(f).push(f(e)));
            assert(r@ =~= kept@.subrange(0, idx as int) + removed@.subrange(0, m as int + 1).map_values(
                f,
            ));
        }
        m += 1;
    }
    proof {
        assert(removed@.subrange(0, m as int) =~= removed@);
    }
    let mut k: usize = idx;
    while k < kept.len()
        invariant
            idx <= k <= kept@.len(),
            r@ == kept@.subrange(0, idx as int) + removed@.map_values(f) + kept@.subrange(
                idx as int,
                k as int,
            ),
        decreases kept@.len() - k,
    {
        r.push(kept[k]);
        proof {
            assert(r@ =~= kept@.subrange(0, idx as int) + removed@.map_values(f) + kept@.subrange(
                idx as int,
                k as int + 1,
            ));
        }
        k += 1;
    }
    r
}

proof fn lemma_position_bound(s: Seq<BranchState>, id: usize)
    ensures
        position_of(s, id) matches Some(t) ==> 0 <= t < s.len() && s[t].id == id,
    decreases s.len(),
{
    if s.len() > 0 {
        lemma_position_bound(s.subrange(1, s.len() as int), id);
    }
}

// ---------------------------------------------------------------------------
// The order stays a forest

/// Entry `a` of the result `r` comes from entry `i` of the order: moved
/// (between `lo` and `hi`) from the removed entry there, else unchanged.
spec fn sourced_at(
    order: Seq<BranchState>,
    removed: Seq<BranchState>,
    r: Seq<BranchState>,
    lo: int,
    hi: int,
    a: int,
    i: int,
) -> bool {
    &&& 0 <= i < order.len()
    &&& order[i].id == r[a].id
    &&& if lo <= a < hi {
        removed[a - lo] == order[i]
    } else {
        r[a] == order[i]
    }
}

/// Entry `a` of the result comes from some entry of the order.
spec fn has_source(
    order: Seq<BranchState>,
    removed: Seq<BranchState>,
    r: Seq<BranchState>,
    lo: int,
    hi: int,
    a: int,
) -> bool {
    exists|i: int| #[trigger] sourced_at(order, removed, r, lo, hi, a, i)
}

proof fn lemma_skip_bounds(kept: Seq<BranchState>, target: usize, j: int)
    requires
        0 <= j <= kept.len(),
    ensures
        j <= skip_descendants(kept, target, j) <= kept.len(),
    decreases kept.len() - j,
{
    if j < kept.len() && is_descendant(kept, kept[j].id, target) {
        lemma_skip_bounds(kept, target, j + 1);
    }
}

/// A rank above the ranks of all the ids of `order`.
proof fn rank_bound(order: Seq<BranchState>, rank: spec_fn(usize) -> nat) -> (b: nat)
    ensures
        forall|i: int| 0 <= i < order.len() ==> rank((#[trigger] order[i]).id) < b,
    decreases order.len(),
{
    if order.len() == 0 {
        0
    } else {
        let rest = rank_bound(order.drop_last(), rank);
        let b = rest + rank(order.last().id) + 1;
        assert forall|i: int| 0 <= i < order.len() implies rank((#[trigger] order[i]).id) < b by {
            if i < order.len() - 1 {
                assert(order[i] == order.drop_last()[i]);
            }
        }
        b
    }
}

/// Whatever lies below a moving id moves too.
proof fn lemma_parent_moves(order: Seq<BranchState>, dragged: Seq<usize>, i: int, p: usize)
    requires
        unique_ids(order),
        0 <= i < order.len(),
        order[i].parent_id == Some(p),
        moves_with(order, dragged, p),
    ensures
        moves_with(order, dragged, order[i].id),
{
    lemma_state_of_unique(order, i);
    let k = choose|k: nat| #[trigger] hits(order, dragged, Some(p), k);
    assert(nth_ancestor(order, Some(order[i].id), k + 1) == nth_ancestor(order, Some(p), k));
    assert(hits(order, dragged, Some(order[i].id), k + 1));
}

/// A moving id that is not dragged itself has a parent, and it moves.
proof fn lemma_moving_child(order: Seq<BranchState>, dragged: Seq<usize>, i: int)
    requires
        unique_ids(order),
        0 <= i < order.len(),
        moves_with(order, dragged, order[i].id),
        !dragged.contains(order[i].id),
    ensures
        order[i].parent_id is Some,
        moves_with(order, dragged, order[i].parent_id.unwrap()),
{
    lemma_state_of_unique(order, i);
    let x = order[i].id;
    let k = choose|k: nat| #[trigger] hits(order, dragged, Some(x), k);
    assert(k != 0);
    let k1 = (k - 1) as nat;
    assert(nth_ancestor(order, Some(x), k) == nth_ancestor(order, order[i].parent_id, k1));
    if order[i].parent_id is None {
        assert(nth_ancestor(order, None, k1) is None);
    } else {
        assert(hits(order, dragged, order[i].parent_id, k1));
    }
}

/// Dropping keeps the order a forest with one entry per id: the entries are
/// the same ids as before, and since the target and its parent never move,
/// no id comes to lie below itself.
pub proof fn lemma_reorder_keeps_forest(
    order: Seq<BranchState>,
    dragged: Seq<usize>,
    target: usize,
    pos: DropPosition,
)
    requires
        order_wf(order),
    ensures
        order_wf(reordered(order, dragged, target, pos)),
{
    let kept = kept_part(order, dragged, order.len() as int);
    let removed = removed_part(order, dragged, order.len() as int);
    if let Some(t) = position_of(kept, target) {
        lemma_parts(order, dragged, order.len() as int);
        lemma_position_bound(kept, target);
        let (np, base) = new_placement(kept, t, target, pos);
        let idx = insertion_index(kept, t, target, pos);
        if pos == DropPosition::After {
            lemma_skip_bounds(kept, target, t + 1);
        }
        let f = |e: BranchState| moved_entry(e, order, dragged, np, base);
        let mv = removed.map_values(f);
        let k1 = kept.subrange(0, idx);
        let k2 = kept.subrange(idx, kept.len() as int);
        let r = k1 + mv + k2;
        assert(r == reordered(order, dragged, target, pos));
        let lo = idx;
        let hi = idx + mv.len();
        // Where each entry of the result comes from.
        assert forall|a: int| 0 <= a < r.len() implies {
            &&& (a < lo ==> #[trigger] r[a] == kept[a])
            &&& (lo <= a < hi ==> r[a] == f(removed[a - lo]) && r[a].id == removed[a - lo].id)
            &&& (hi <= a ==> r[a] == kept[a - mv.len()])
        } by {
            if a < lo {
                assert(r[a] == k1[a]);
            } else if a < hi {
                assert(r[a] == mv[a - lo]);
            } else {
                assert(r[a] == k2[a - hi]);
            }
        }
        // One entry per id.
        assert forall|a: int, b: int|
            0 <= a < r.len() && 0 <= b < r.len() && a != b implies (#[trigger] r[a]).id
                != (#[trigger] r[b]).id by {
            let ka = if a < lo { a } else { a - mv.len() };
            let kb = if b < lo { b } else { b - mv.len() };
            let a_moved = lo <= a < hi;
            let b_moved = lo <= b < hi;
            if !a_moved && !b_moved {
                assert(kept[ka].id != kept[kb].id);
            } else if a_moved && b_moved {
                assert(removed[a - lo].id != removed[b - lo].id);
            } else if a_moved {
                assert(moves_with(order, dragged, removed[a - lo].id));
                assert(!moves_with(order, dragged, kept[kb].id));
            } else {
                assert(moves_with(order, dragged, removed[b - lo].id));
                assert(!moves_with(order, dragged, kept[ka].id));
            }
        }
        // A rank for the result: moving ids are lifted above all others.
        let rank = choose|rank: spec_fn(usize) -> nat| ranked_by(order, rank);
        let b = rank_bound(order, rank);
        let rank2 = |id: usize|
            if moves_with(order, dragged, id) {
                b + rank(id)
            } else {
                rank(id)
            };
        // Each entry of the result is sourced from an entry of the order.
        assert forall|a: int| 0 <= a < r.len() implies #[trigger] has_source(order, removed, r, lo, hi, a) by {
            if lo <= a < hi {
                let i = choose|i: int| 0 <= i < order.len() && order[i] == #[trigger] removed[a - lo];
                assert(sourced_at(order, removed, r, lo, hi, a, i));
            } else {
                let ka = if a < lo { a } else { a - mv.len() };
                let i = choose|i: int| 0 <= i < order.len() && order[i] == #[trigger] kept[ka];
                assert(sourced_at(order, removed, r, lo, hi, a, i));
            }
        }
        let it = choose|i: int| 0 <= i < order.len() && order[i] == #[trigger] kept[t];
        assert(!moves_with(order, dragged, target)) by {
            assert(!moves_with(order, dragged, kept[t].id));
        }
        assert(np is Some ==> !moves_with(order, dragged, np.unwrap())) by {
            if np is Some && np != Some(target) {
                assert(np == kept[t].parent_id);
                if moves_with(order, dragged, np.unwrap()) {
                    lemma_parent_moves(order, dragged, it, np.unwrap());
                }
            }
        }
        assert forall|a: int, c: int|
            0 <= a < r.len() && 0 <= c < r.len() && (#[trigger] r[a]).parent_id == Some(
                (#[trigger] r[c]).id,
            ) implies rank2(r[c].id) < rank2(r[a].id) by {
            let p = r[c].id;
            assert(has_source(order, removed, r, lo, hi, c));
            assert(has_source(order, removed, r, lo, hi, a));
            let j = choose|j: int| #[trigger] sourced_at(order, removed, r, lo, hi, c, j);
            let i = choose|i: int| #[trigger] sourced_at(order, removed, r, lo, hi, a, i);
            assert(rank(p) < b);
            if lo <= a < hi {
                let x = order[i].id;
                assert(moves_with(order, dragged, removed[a - lo].id));
                if dragged.contains(x) {
                    assert(r[a].parent_id == np);
                } else {
                    assert(r[a].parent_id == order[i].parent_id);
                    assert(order[i].parent_id == Some(order[j].id));
                    lemma_moving_child(order, dragged, i);
                }
            } else {
                let ka = if a < lo { a } else { a - mv.len() };
                assert(!moves_with(order, dragged, kept[ka].id));
                assert(order[i].parent_id == Some(order[j].id));
                if moves_with(order, dragged, p) {
                    lemma_parent_moves(order, dragged, i, p);
                }
            }
        }
        assert(ranked_by(r, rank2));
    }
}

/// In a forest, no id is its own ancestor: walking up from an id for one
/// or more steps never comes back to it.
pub proof fn lemma_no_self_ancestor(order: Seq<BranchState>, id: usize, k: nat)
    requires
        order_wf(order),
        k >= 1,
    ensures
        nth_ancestor(order, Some(id), k) != Some(id),
{
    let rank = choose|rank: spec_fn(usize) -> nat| ranked_by(order, rank);
    lemma_walk_below(order, rank, id, k);
}

/// Each step of a walk up from `id` lands on an id outside the order or on
/// one of lower rank.
proof fn lemma_walk_below(order: Seq<BranchState>, rank: spec_fn(usize) -> nat, id: usize, k: nat)
    requires
        unique_ids(order),
        ranked_by(order, rank),
        k >= 1,
    ensures
        nth_ancestor(order, Some(id), k) matches Some(a) ==> !has_entry(order, a) || rank(a) < rank(
            id,
        ),
        nth_ancestor(order, Some(id), k) matches Some(a) ==> has_entry(order, id),
    decreases k,
{
    lemma_state_of_some(order, id);
    match parent_link(order, id) {
        None => {
            assert(nth_ancestor(order, Some(id), k) == nth_ancestor(order, None, (k - 1) as nat));
        },
        Some(p) => {
            let j = choose|j: int|
                0 <= j < order.len() && order[j] == state_of(order, id).unwrap() && (#[trigger] order[j]).id
                    == id;
            assert(nth_ancestor(order, Some(id), k) == nth_ancestor(order, Some(p), (k - 1) as nat));
            if has_entry(order, p) {
                let i = choose|i: int| 0 <= i < order.len() && (#[trigger] order[i]).id == p;
                assert(order[j].parent_id == Some(order[i].id));
                if k > 1 {
                    lemma_walk_below(order, rank, p, (k - 1) as nat);
                }
            } else if k > 1 {
                lemma_state_of_some(order, p);
                assert(nth_ancestor(order, Some(p), (k - 1) as nat) == nth_ancestor(
                    order,
                    None,
                    (k - 2) as nat,
                ));
            }
        },
    }
}

/// The order that mirrors a flattened registry is a forest with one entry
/// per id.
pub proof fn lemma_declared_order_wf(branches: Seq<BranchDescriptor>)
    requires
        ids_are_indices(branches),
        parents_precede(branches),
    ensures
        order_wf(declared_order(branches)),
{
    let o = declared_order(branches);
    let rank = |id: usize| id as nat;
    assert forall|i: int, j: int|
        0 <= i < o.len() && 0 <= j < o.len() && (#[trigger] o[i]).parent_id == Some(
            (#[trigger] o[j]).id,
        ) implies rank(o[j].id) < rank(o[i].id) by {
        assert(branches[i].id == i && branches[j].id == j);
    }
    assert(ranked_by(o, rank));
    assert forall|i: int, j: int|
        0 <= i < o.len() && 0 <= j < o.len() && i != j implies (#[trigger] o[i]).id
            != (#[trigger] o[j]).id by {
        assert(branches[i].id == i && branches[j].id == j);
    }
}

/// The order after the drops, each given as (dragged ids, target,
/// position), applied first to last.
pub open spec fn after_drops(
    order: Seq<BranchState>,
    drops: Seq<(Seq<usize>, usize, DropPosition)>,
) -> Seq<BranchState>
    decreases drops.len(),
{
    if drops.len() == 0 {
        order
    } else {
        let last = drops.last();
        reordered(after_drops(order, drops.drop_last()), last.0, last.1, last.2)
    }
}

/// Starting from a forest (such as the order that mirrors the registry),
/// any run of drops leaves a forest in which no id is its own ancestor.
pub proof fn lemma_drops_never_make_cycles(
    order: Seq<BranchState>,
    drops: Seq<(Seq<usize>, usize, DropPosition)>,
    id: usize,
    k: nat,
)
    requires
        order_wf(order),
        k >= 1,
    ensures
        order_wf(after_drops(order, drops)),
        nth_ancestor(after_drops(order, drops), Some(id), k) != Some(id),
    decreases drops.len(),
{
    if drops.len() > 0 {
        let last = drops.last();
        lemma_drops_never_make_cycles(order, drops.drop_last(), id, k);
        lemma_reorder_keeps_forest(after_drops(order, drops.drop_last()), last.0, last.1, last.2);
    }
    lemma_no_self_ancestor(after_drops(order, drops), id, k);
}

} // verus!
