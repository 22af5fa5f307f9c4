//! The persisted order: per internal id, the parent and depth that drag and
//! drop gave it, and the display order. A registry descriptor that the order
//! does not mention falls back to its declared topology.

use vstd::prelude::*;
use crate::tree::registry::{BranchDescriptor, ids_are_indices};

verus! {

broadcast use vstd::std_specs::vec::group_vec_axioms;

/// One persisted entry of the order.
#[derive(Debug, Clone, Copy, PartialEq, Eq, Structural)]
pub struct BranchState {
    pub id: usize,
    pub parent_id: Option<usize>,
    pub depth: u16,
}

/// The first entry of `order` with id `id`.
pub open spec fn state_of(order: Seq<BranchState>, id: usize) -> Option<BranchState>
    decreases order.len(),
{
    if order.len() == 0 {
        None
    } else if order[0].id == id {
        Some(order[0])
    } else {
        state_of(order.subrange(1, order.len() as int), id)
    }
}

/// Whether some entry of `order` has id `id`.
pub open spec fn has_entry(order: Seq<BranchState>, id: usize) -> bool {
    exists|j: int| 0 <= j < order.len() && (#[trigger] order[j]).id == id
}

/// The order that mirrors the registry's declared topology.
pub open spec fn declared_order(branches: Seq<BranchDescriptor>) -> Seq<BranchState> {
    branches.map_values(
        |b: BranchDescriptor| BranchState { id: b.id, parent_id: b.parent_id, depth: b.depth },
    )
}

/// The effective (id, parent, depth) of descriptor `b`: its persisted entry
/// where there is one, else its declared topology.
pub open spec fn branch_info(b: BranchDescriptor, order: Option<Seq<BranchState>>) -> (
    usize,
    Option<usize>,
    u16,
) {
    match order {
        Some(o) => match state_of(o, b.id) {
            Some(bs) => (b.id, bs.parent_id, bs.depth),
            None => (b.id, b.parent_id, b.depth),
        },
        None => (b.id, b.parent_id, b.depth),
    }
}

/// The registry indices that the entries of `order` name, in order.
pub open spec fn listed_indices(order: Seq<BranchState>, n: int) -> Seq<usize>
    decreases order.len(),
{
    if order.len() == 0 {
        Seq::empty()
    } else {
        let rest = listed_indices(order.drop_last(), n);
        if order.last().id < n {
            rest.push(order.last().id)
        } else {
            rest
        }
    }
}

/// The registry indices below `k` that no entry of `order` names, ascending.
pub open spec fn unlisted_indices(order: Seq<BranchState>, k: int) -> Seq<usize>
    decreases k,
{
    if k <= 0 {
        Seq::empty()
    } else {
        let rest = unlisted_indices(order, k - 1);
        if has_entry(order, (k - 1) as usize) {
            rest
        } else {
            rest.push((k - 1) as usize)
        }
    }
}

/// Indices `0..k` ascending.
pub open spec fn all_indices(k: int) -> Seq<usize>
    decreases k,
{
    if k <= 0 {
        Seq::empty()
    } else {
        all_indices(k - 1).push((k - 1) as usize)
    }
}

/// Registry indices in display order: the persisted entries first, then the
/// branches the order does not mention, in registry order.
pub open spec fn ordered_indices(n: int, order: Option<Seq<BranchState>>) -> Seq<usize> {
    match order {
        Some(o) => listed_indices(o, n) + unlisted_indices(o, n),
        None => all_indices(n),
    }
}

/// Some entry names `id` as its parent.
pub open spec fn is_parent_in(order: Seq<BranchState>, id: usize) -> bool {
    exists|j: int| 0 <= j < order.len() && (#[trigger] order[j]).parent_id == Some(id)
}

/// The entries that decide which branches have children: the order, else
/// the declared topology.
pub open spec fn topology(
    branches: Seq<BranchDescriptor>,
    order: Option<Seq<BranchState>>,
) -> Seq<BranchState> {
    match order {
        Some(o) => o,
        None => declared_order(branches),
    }
}

/// The ids among the first `k` branches that have children under `topo` and
/// had none before, in registry order.
pub open spec fn newly_parents(
    branches: Seq<BranchDescriptor>,
    topo: Seq<BranchState>,
    k: int,
) -> Seq<usize>
    decreases k,
{
    if k <= 0 {
        Seq::empty()
    } else {
        let rest = newly_parents(branches, topo, k - 1);
        let b = branches[k - 1];
        if is_parent_in(topo, b.id) && !b.has_children {
            rest.push(b.id)
        } else {
            rest
        }
    }
}

/// The first-match lookup finds an entry with that id, and finds one
/// whenever there is one.
pub proof fn lemma_state_of_some(order: Seq<BranchState>, id: usize)
    ensures
        state_of(order, id) is Some <==> has_entry(order, id),
        state_of(order, id) is Some ==> exists|j: int|
            0 <= j < order.len() && order[j] == state_of(order, id).unwrap() && (#[trigger] order[j]).id
                == id,
    decreases order.len(),
{
    if order.len() > 0 {
        let t = order.subrange(1, order.len() as int);
        lemma_state_of_some(t, id);
        if order[0].id != id {
            if has_entry(order, id) {
                let j = choose|j: int| 0 <= j < order.len() && (#[trigger] order[j]).id == id;
                assert(t[j - 1] == order[j]);
            }
            if state_of(t, id) is Some {
                let j = choose|j: int|
                    0 <= j < t.len() && t[j] == state_of(t, id).unwrap() && (#[trigger] t[j]).id == id;
                assert(order[j + 1] == t[j]);
            }
        }
    }
}

/// In an order whose ids are unique, the lookup of an entry's id finds
/// that entry.
pub proof fn lemma_state_of_unique(order: Seq<BranchState>, j: int)
    requires
        unique_ids(order),
        0 <= j < order.len(),
    ensures
        state_of(order, order[j].id) == Some(order[j]),
{
    lemma_state_of_at(order, j, order[j].id);
}

/// No two entries share an id.
pub open spec fn unique_ids(order: Seq<BranchState>) -> bool {
    forall|i: int, j: int|
        0 <= i < order.len() && 0 <= j < order.len() && i != j ==> (#[trigger] order[i]).id
            != (#[trigger] order[j]).id
}

/// What the first-match search over `order` finds when the first `k`
/// entries do not match and entry `k` (if there is one) does.
pub proof fn lemma_state_of_at(order: Seq<BranchState>, k: int, id: usize)
    requires
        0 <= k <= order.len(),
        forall|j: int| 0 <= j < k ==> (#[trigger] order[j]).id != id,
        k < order.len() ==> order[k].id == id,
    ensures
        state_of(order, id) == (if k < order.len() { Some(order[k]) } else { None }),
    decreases k,
{
    if order.len() > 0 && k > 0 {
        let t = order.subrange(1, order.len() as int);
        assert forall|j: int| 0 <= j < k - 1 implies (#[trigger] t[j]).id != id by {
            assert(t[j] == order[j + 1]);
        }
        lemma_state_of_at(t, k - 1, id);
    }
}

/// The entry of `order` with id `id`, the first one if several have it.
pub fn find_state(order: &Vec<BranchState>, id: usize) -> (r: Option<BranchState>)
    ensures
        r == state_of(order@, id),
        r is Some <==> has_entry(order@, id),
{
    let mut k: usize = 0;
    while k < order.len()
        invariant
            0 <= k <= order@.len(),
            forall|j: int| 0 <= j < k ==> (#[trigger] order@[j]).id != id,
        decreases order@.len() - k,
    {
        if order[k].id == id {
            proof {
                lemma_state_of_at(order@, k as int, id);
            }
            return Some(order[k]);
        }
        k += 1;
    }
    proof {
        lemma_state_of_at(order@, k as int, id);
    }
    None
}

/// The order that mirrors the declared topology of `branches`.
pub fn initial_order(branches: &Vec<BranchDescriptor>) -> (r: Vec<BranchState>)
    ensures
        r@ == declared_order(branches@),
{
    let mut r: Vec<BranchState> = Vec::new();
    let mut i: usize = 0;
    while i < branches.len()
        invariant
            0 <= i <= branches@.len(),
            r@ == declared_order(branches@.subrange(0, i as int)),
        decreases branches@.len() - i,
    {
        let b = branches[i];
        r.push(BranchState { id: b.id, parent_id: b.parent_id, depth: b.depth });
        proof {
            assert(declared_order(branches@.subrange(0, i as int + 1)) =~= r@);
        }
        i += 1;
    }
    proof {
        assert(branches@.subrange(0, i as int) =~= branches@);
    }
    r
}

/// The effective (id, parent, depth) of the branch at `index`.
pub fn get_branch_info(
    branches: &Vec<BranchDescriptor>,
    index: usize,
    order: &Option<Vec<BranchState>>,
) -> (r: (usize, Option<usize>, u16))
    requires
        index < branches@.len(),
    ensures
        r == branch_info(branches@[index as int], opt_view(order)),
{
    let b = branches[index];
    match order {
        Some(o) => match find_state(o, b.id) {
            Some(bs) => (b.id, bs.parent_id, bs.depth),
            None => (b.id, b.parent_id, b.depth),
        },
        None => (b.id, b.parent_id, b.depth),
    }
}

/// The view of an optional order.
pub open spec fn opt_view(order: &Option<Vec<BranchState>>) -> Option<Seq<BranchState>> {
    match order {
        Some(o) => Some(o@),
        None => None,
    }
}

/// Whether `v` holds `x`.
pub fn contains_id(v: &Vec<usize>, x: usize) -> (r: bool)
    ensures
        r == v@.contains(x),
{
    let mut k: usize = 0;
    while k < v.len()
        invariant
            0 <= k <= v@.len(),
            forall|j: int| 0 <= j < k ==> v@[j] != x,
        decreases v@.len() - k,
    {
        if v[k] == x {
            return true;
        }
        k += 1;
    }
    false
}

/// Whether some entry of `order` has id `id`.
pub fn order_has(order: &Vec<BranchState>, id: usize) -> (r: bool)
    ensures
        r == has_entry(order@, id),
{
    find_state(order, id).is_some()
}

/// Registry indices in display order: the persisted entries first, then the
/// branches that the order does not mention.
pub fn get_ordered_indices(
    branches: &Vec<BranchDescriptor>,
    order: &Option<Vec<BranchState>>,
) -> (r: Vec<usize>)
    requires
        ids_are_indices(branches@),
    ensures
        r@ == ordered_indices(branches@.len() as int, opt_view(order)),
{
    let n = branches.len();
    let mut r: Vec<usize> = Vec::new();
    match order {
        Some(o) => {
            let mut k: usize = 0;
            while k < o.len()
                invariant
                    0 <= k <= o@.len(),
                    n == branches@.len(),
                    r@ == listed_indices(o@.subrange(0, k as int), n as int),
                decreases o@.len() - k,
            {
                proof {
                    assert(o@.subrange(0, k as int + 1).drop_last() =~= o@.subrange(0, k as int));
                }
                if o[k].id < n {
                    r.push(o[k].id);
                }
                k += 1;
            }
            proof {
                assert(o@.subrange(0, k as int) =~= o@);
            }
            let ghost listed = r@;
            let mut i: usize = 0;
            while i < n
                invariant
                    0 <= i <= n,
                    n == branches@.len(),
                    r@ == listed + unlisted_indices(o@, i as int),
                decreases n - i,
            {
                if !order_has(o, i) {
                    r.push(i);
                    proof {
                        assert(r@ =~= listed + unlisted_indices(o@, i as int + 1));
                    }
                }
                i += 1;
            }
        },
        None => {
            let mut i: usize = 0;
            while i < n
                invariant
                    0 <= i <= n,
                    n == branches@.len(),
                    r@ == all_indices(i as int),
                decreases n - i,
            {
                r.push(i);
                i += 1;
            }
        },
    }
    r
}

/// Whether some entry of `topo` names `id` as its parent.
fn is_parent(topo: &Vec<BranchState>, id: usize) -> (r: bool)
    ensures
        r == is_parent_in(topo@, id),
{
    let mut k: usize = 0;
    while k < topo.len()
        invariant
            0 <= k <= topo@.len(),
            forall|j: int| 0 <= j < k ==> (#[trigger] topo@[j]).parent_id != Some(id),
        decreases topo@.len() - k,
    {
        if topo[k].parent_id == Some(id) {
            return true;
        }
        k += 1;
    }
    false
}

/// Recomputes each descriptor's `has_children` from the current order (or
/// from the declared topology when there is none) and returns the ids that
/// gained children, in registry order.
pub fn update_has_children(
    branches: &mut Vec<BranchDescriptor>,
    order: &Option<Vec<BranchState>>,
) -> (r: Vec<usize>)
    ensures
        final(branches)@.len() == old(branches)@.len(),
        forall|i: int|
            0 <= i < old(branches)@.len() ==> #[trigger] final(branches)@[i] == (BranchDescriptor {
                has_children: is_parent_in(topology(old(branches)@, opt_view(order)), old(branches)@[i].id),
                ..old(branches)@[i]
            }),
        r@ == newly_parents(
            old(branches)@,
            topology(old(branches)@, opt_view(order)),
            old(branches)@.len() as int,
        ),
{
    let ghost old_branches = branches@;
    let topo = match order {
        Some(o) => o.clone(),
        None => initial_order(branches),
    };
    proof {
        assert(topo@ =~= topology(old_branches, opt_view(order)));
    }
    let mut newly: Vec<usize> = Vec::new();
    let mut i: usize = 0;
    while i < branches.len()
        invariant
            0 <= i <= branches@.len(),
            branches@.len() == old_branches.len(),
            topo@ == topology(old_branches, opt_view(order)),
            forall|j: int| i <= j < branches@.len() ==> #[trigger] branches@[j] == old_branches[j],
            forall|j: int|
                0 <= j < i ==> #[trigger] branches@[j] == (BranchDescriptor {
                    has_children: is_parent_in(topo@, old_branches[j].id),
                    ..old_branches[j]
                }),
            newly@ == newly_parents(old_branches, topo@, i as int),
        decreases branches@.len() - i,
    {
        let b = branches[i];
        let has = is_parent(&topo, b.id);
        if has && !b.has_children {
            newly.push(b.id);
        }
        branches.set(i, BranchDescriptor { has_children: has, ..b });
        i += 1;
    }
    newly
}

/// Before any drag, resolving through the order that mirrors the declared
/// topology gives every branch its declared parent and depth, the same
/// display order, and the same branches with children.
pub proof fn lemma_declared_order_resolves_as_declared(branches: Seq<BranchDescriptor>)
    requires
        ids_are_indices(branches),
    ensures
        forall|i: int|
            0 <= i < branches.len() ==> #[trigger] branch_info(
                branches[i],
                Some(declared_order(branches)),
            ) == branch_info(branches[i], None),
        ordered_indices(branches.len() as int, Some(declared_order(branches))) == ordered_indices(
            branches.len() as int,
            None,
        ),
        topology(branches, Some(declared_order(branches))) == topology(branches, None),
{
    let o = declared_order(branches);
    assert forall|i: int| 0 <= i < branches.len() implies #[trigger] branch_info(
        branches[i],
        Some(o),
    ) == branch_info(branches[i], None) by {
        assert forall|j: int| 0 <= j < i implies (#[trigger] o[j]).id != branches[i].id by {
            assert(branches[j].id == j);
        }
        lemma_state_of_at(o, i, branches[i].id);
    }
    lemma_listed_declared(branches, branches.len() as int);
    assert(o.subrange(0, branches.len() as int) =~= o);
    lemma_unlisted_declared(branches, branches.len() as int);
    assert(listed_indices(o, branches.len() as int) + unlisted_indices(o, branches.len() as int)
        =~= all_indices(branches.len() as int));
}

proof fn lemma_listed_declared(branches: Seq<BranchDescriptor>, k: int)
    requires
        ids_are_indices(branches),
        0 <= k <= branches.len(),
    ensures
        listed_indices(declared_order(branches).subrange(0, k), branches.len() as int) == all_indices(
            k,
        ),
    decreases k,
{
    let o = declared_order(branches);
    if k > 0 {
        assert(o.subrange(0, k).drop_last() =~= o.subrange(0, k - 1));
        lemma_listed_declared(branches, k - 1);
        assert(branches[k - 1].id == k - 1);
    }
}

proof fn lemma_unlisted_declared(branches: Seq<BranchDescriptor>, k: int)
    requires
        ids_are_indices(branches),
        0 <= k <= branches.len(),
    ensures
        unlisted_indices(declared_order(branches), k) == Seq::<usize>::empty(),
    decreases k,
{
    let o = declared_order(branches);
    if k > 0 {
        lemma_unlisted_declared(branches, k - 1);
        assert(o[k - 1].id == k - 1);
        assert(has_entry(o, (k - 1) as usize));
    }
}

} // verus!
