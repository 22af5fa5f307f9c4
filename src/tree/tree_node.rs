//! A tree of plain nodes that an application can own and edit itself, with
//! lookups and edits addressed by node id.

use vstd::prelude::*;

verus! {

broadcast use vstd::std_specs::vec::group_vec_axioms;

/// A node of an application-owned tree.
#[derive(Debug)]
pub struct TreeNode {
    pub id: usize,
    pub children: Vec<TreeNode>,
    pub accepts_drops: bool,
    pub draggable: bool,
    pub expanded: bool,
}

/// The ids of a node's subtree in pre-order.
pub open spec fn node_ids(n: TreeNode) -> Seq<usize>
    decreases n,
{
    seq![n.id] + forest_ids(n.children@)
}

/// The ids of a sequence of subtrees, each in pre-order, one after another.
pub open spec fn forest_ids(s: Seq<TreeNode>) -> Seq<usize>
    decreases s,
{
    if s.len() == 0 {
        Seq::empty()
    } else {
        node_ids(s[0]) + forest_ids(s.subrange(1, s.len() as int))
    }
}

/// The first node in pre-order whose id is `id`.
pub open spec fn find_in_node(n: TreeNode, id: usize) -> Option<TreeNode>
    decreases n,
{
    if n.id == id {
        Some(n)
    } else {
        find_in_forest(n.children@, id)
    }
}

/// The first node with id `id` in a sequence of subtrees, in pre-order.
pub open spec fn find_in_forest(s: Seq<TreeNode>, id: usize) -> Option<TreeNode>
    decreases s,
{
    if s.len() == 0 {
        None
    } else {
        match find_in_node(s[0], id) {
            Some(m) => Some(m),
            None => find_in_forest(s.subrange(1, s.len() as int), id),
        }
    }
}

/// The two nodes agree on everything but their children.
pub open spec fn same_fields(a: TreeNode, b: TreeNode) -> bool {
    &&& a.id == b.id
    &&& a.accepts_drops == b.accepts_drops
    &&& a.draggable == b.draggable
    &&& a.expanded == b.expanded
}

/// `n` is `o` with its first node of id `id` (in pre-order) replaced by a node
/// `m2` for which `edit(m, m2)` holds, `m` being the node that was there.
pub open spec fn edited_at(
    o: TreeNode,
    n: TreeNode,
    id: usize,
    edit: spec_fn(TreeNode, TreeNode) -> bool,
) -> bool
    decreases o,
{
    if o.id == id {
        edit(o, n)
    } else {
        same_fields(o, n) && edited_in_forest(o.children@, n.children@, id, edit)
    }
}

/// The forest form of `edited_at`: the first subtree holding `id` is edited,
/// the others are kept.
pub open spec fn edited_in_forest(
    os: Seq<TreeNode>,
    ns: Seq<TreeNode>,
    id: usize,
    edit: spec_fn(TreeNode, TreeNode) -> bool,
) -> bool
    decreases os,
{
    if os.len() == 0 {
        ns.len() == 0
    } else {
        &&& ns.len() == os.len()
        &&& if find_in_node(os[0], id) is Some {
            &&& edited_at(os[0], ns[0], id, edit)
            &&& ns.subrange(1, ns.len() as int) == os.subrange(1, os.len() as int)
        } else {
            &&& ns[0] == os[0]
            &&& edited_in_forest(
                os.subrange(1, os.len() as int),
                ns.subrange(1, ns.len() as int),
                id,
                edit,
            )
        }
    }
}

/// The edit that appends `child` to a node's children.
pub open spec fn push_child(child: TreeNode) -> spec_fn(TreeNode, TreeNode) -> bool {
    |a: TreeNode, b: TreeNode| same_fields(a, b) && b.children@ == a.children@.push(child)
}

/// The edit that flips a node's expanded flag.
pub open spec fn flip_expanded() -> spec_fn(TreeNode, TreeNode) -> bool {
    |a: TreeNode, b: TreeNode| b == TreeNode { expanded: !a.expanded, ..a }
}

/// The edit that puts `m2` in place of the node.
pub open spec fn becomes(m2: TreeNode) -> spec_fn(TreeNode, TreeNode) -> bool {
    |a: TreeNode, b: TreeNode| b == m2
}

/// Index of the first node of `s` whose own id is `id`, if any.
pub open spec fn direct_child_index(s: Seq<TreeNode>, id: usize) -> Option<int>
    decreases s.len(),
{
    if s.len() == 0 {
        None
    } else if s[0].id == id {
        Some(0)
    } else {
        match direct_child_index(s.subrange(1, s.len() as int), id) {
            Some(k) => Some(k + 1),
            None => None,
        }
    }
}

/// The node that `remove_node(id)` takes out of `n`: a direct child with that
/// id if there is one, else the first one found below the first child that
/// yields one.
pub open spec fn removed_node(n: TreeNode, id: usize) -> Option<TreeNode>
    decreases n,
{
    match direct_child_index(n.children@, id) {
        Some(k) => Some(n.children@[k]),
        None => removed_in_forest(n.children@, id),
    }
}

/// The forest form of `removed_node`.
pub open spec fn removed_in_forest(s: Seq<TreeNode>, id: usize) -> Option<TreeNode>
    decreases s,
{
    if s.len() == 0 {
        None
    } else {
        match removed_node(s[0], id) {
            Some(m) => Some(m),
            None => removed_in_forest(s.subrange(1, s.len() as int), id),
        }
    }
}

/// `n` is `o` after `remove_node(id)` took out the node `removed_node(o, id)`.
pub open spec fn removal(o: TreeNode, n: TreeNode, id: usize) -> bool
    decreases o,
{
    &&& same_fields(o, n)
    &&& match direct_child_index(o.children@, id) {
        Some(k) => n.children@ == o.children@.remove(k),
        None => removal_in_forest(o.children@, n.children@, id),
    }
}

/// The forest form of `removal`.
pub open spec fn removal_in_forest(os: Seq<TreeNode>, ns: Seq<TreeNode>, id: usize) -> bool
    decreases os,
{
    if os.len() == 0 {
        ns.len() == 0
    } else {
        &&& ns.len() == os.len()
        &&& if removed_node(os[0], id) is Some {
            &&& removal(os[0], ns[0], id)
            &&& ns.subrange(1, ns.len() as int) == os.subrange(1, os.len() as int)
        } else {
            &&& ns[0] == os[0]
            &&& removal_in_forest(
                os.subrange(1, os.len() as int),
                ns.subrange(1, ns.len() as int),
                id,
            )
        }
    }
}

/// The first subtree that holds `id` decides what the forest lookup finds.
proof fn lemma_find_forest_at(s: Seq<TreeNode>, k: int, id: usize)
    requires
        0 <= k <= s.len(),
        forall|j: int| 0 <= j < k ==> find_in_node(#[trigger] s[j], id) is None,
        k < s.len() ==> find_in_node(s[k], id) is Some,
    ensures
        find_in_forest(s, id) == (if k < s.len() { find_in_node(s[k], id) } else { None }),
    decreases k,
{
    if s.len() > 0 && k > 0 {
        let t = s.subrange(1, s.len() as int);
        assert forall|j: int| 0 <= j < k - 1 implies find_in_node(#[trigger] t[j], id) is None by {
            assert(t[j] == s[j + 1]);
        }
        lemma_find_forest_at(t, k - 1, id);
    }
}

/// Editing the first subtree that holds `id` edits the forest.
proof fn lemma_edit_forest_at(
    os: Seq<TreeNode>,
    k: int,
    c: TreeNode,
    id: usize,
    edit: spec_fn(TreeNode, TreeNode) -> bool,
)
    requires
        0 <= k < os.len(),
        forall|j: int| 0 <= j < k ==> find_in_node(#[trigger] os[j], id) is None,
        find_in_node(os[k], id) is Some,
        edited_at(os[k], c, id, edit),
    ensures
        edited_in_forest(os, os.update(k, c), id, edit),
    decreases k,
{
    let ns = os.update(k, c);
    if k == 0 {
        assert(ns.subrange(1, ns.len() as int) =~= os.subrange(1, os.len() as int));
    } else {
        let t = os.subrange(1, os.len() as int);
        assert forall|j: int| 0 <= j < k - 1 implies find_in_node(#[trigger] t[j], id) is None by {
            assert(t[j] == os[j + 1]);
        }
        lemma_edit_forest_at(t, k - 1, c, id, edit);
        assert(ns.subrange(1, ns.len() as int) =~= t.update(k - 1, c));
    }
}

/// `lemma_edit_forest_at` for every replacement of the subtree at `k` and
/// every edit.
proof fn lemma_edit_forest_at_any(os: Seq<TreeNode>, k: int, id: usize)
    requires
        0 <= k < os.len(),
        forall|j: int| 0 <= j < k ==> find_in_node(#[trigger] os[j], id) is None,
        find_in_node(os[k], id) is Some,
    ensures
        forall|c: TreeNode, edit: spec_fn(TreeNode, TreeNode) -> bool|
            #[trigger] edited_at(os[k], c, id, edit) ==> edited_in_forest(os, os.update(k, c), id, edit),
{
    assert forall|c: TreeNode, edit: spec_fn(TreeNode, TreeNode) -> bool|
        #[trigger] edited_at(os[k], c, id, edit) implies edited_in_forest(os, os.update(k, c), id, edit) by {
        lemma_edit_forest_at(os, k, c, id, edit);
    }
}

/// The `k`-th child of `node`, the first whose subtree holds `id`, for
/// editing in place: an edit there is an edit of `node` at `id`.
fn child_for_edit(node: &mut TreeNode, k: usize, id: usize) -> (c: &mut TreeNode)
    requires
        k < old(node).children@.len(),
        old(node).id != id,
        forall|j: int| 0 <= j < k ==> find_in_node(#[trigger] old(node).children@[j], id) is None,
        find_in_node(old(node).children@[k as int], id) is Some,
    ensures
        *c == old(node).children@[k as int],
        same_fields(*old(node), *final(node)),
        final(node).children@ == old(node).children@.update(k as int, *final(c)),
        forall|c2: TreeNode, edit: spec_fn(TreeNode, TreeNode) -> bool|
            #[trigger] edited_at(old(node).children@[k as int], c2, id, edit) ==> edited_in_forest(
                old(node).children@,
                old(node).children@.update(k as int, c2),
                id,
                edit,
            ),
{
    proof {
        lemma_edit_forest_at_any(node.children@, k as int, id);
    }
    &mut node.children[k]
}

/// The loop that looks for the first direct child with id `id` finds what
/// `direct_child_index` names.
proof fn lemma_direct_child_at(s: Seq<TreeNode>, k: int, id: usize)
    requires
        0 <= k <= s.len(),
        forall|j: int| 0 <= j < k ==> (#[trigger] s[j]).id != id,
        k < s.len() ==> s[k].id == id,
    ensures
        direct_child_index(s, id) == (if k < s.len() { Some(k) } else { None::<int> }),
    decreases k,
{
    if s.len() > 0 && k > 0 {
        let t = s.subrange(1, s.len() as int);
        assert forall|j: int| 0 <= j < k - 1 implies (#[trigger] t[j]).id != id by {
            assert(t[j] == s[j + 1]);
        }
        lemma_direct_child_at(t, k - 1, id);
    }
}

/// What the removal loop over the children finds: the first child that
/// yields a node.
proof fn lemma_removed_forest_at(s: Seq<TreeNode>, k: int, id: usize)
    requires
        0 <= k <= s.len(),
        forall|j: int| 0 <= j < k ==> removed_node(#[trigger] s[j], id) is None,
        k < s.len() ==> removed_node(s[k], id) is Some,
    ensures
        removed_in_forest(s, id) == (if k < s.len() { removed_node(s[k], id) } else { None }),
        k == s.len() ==> removal_in_forest(s, s, id),
    decreases k,
{
    if s.len() > 0 && k > 0 {
        let t = s.subrange(1, s.len() as int);
        assert forall|j: int| 0 <= j < k - 1 implies removed_node(#[trigger] t[j], id) is None by {
            assert(t[j] == s[j + 1]);
        }
        lemma_removed_forest_at(t, k - 1, id);
    }
}

/// Removing below the first child that yields a node is a removal in the
/// forest.
proof fn lemma_removal_forest_at(os: Seq<TreeNode>, k: int, c: TreeNode, id: usize)
    requires
        0 <= k < os.len(),
        forall|j: int| 0 <= j < k ==> removed_node(#[trigger] os[j], id) is None,
        removed_node(os[k], id) is Some,
        removal(os[k], c, id),
    ensures
        removal_in_forest(os, os.update(k, c), id),
    decreases k,
{
    let ns = os.update(k, c);
    if k == 0 {
        assert(ns.subrange(1, ns.len() as int) =~= os.subrange(1, os.len() as int));
    } else {
        let t = os.subrange(1, os.len() as int);
        assert forall|j: int| 0 <= j < k - 1 implies removed_node(#[trigger] t[j], id) is None by {
            assert(t[j] == os[j + 1]);
        }
        lemma_removal_forest_at(t, k - 1, c, id);
        assert(ns.subrange(1, ns.len() as int) =~= t.update(k - 1, c));
    }
}

/// Index of the first of `children` whose subtree holds `id`, or their count.
fn first_holding(children: &Vec<TreeNode>, id: usize) -> (r: usize)
    ensures
        r <= children@.len(),
        forall|j: int| 0 <= j < r ==> find_in_node(#[trigger] children@[j], id) is None,
        r < children@.len() ==> find_in_node(children@[r as int], id) is Some,
{
    let mut i: usize = 0;
    while i < children.len()
        invariant
            0 <= i <= children@.len(),
            forall|j: int| 0 <= j < i ==> find_in_node(#[trigger] children@[j], id) is None,
        decreases children@.len() - i,
    {
        if children[i].find(id).is_some() {
            return i;
        }
        i += 1;
    }
    i
}

/// Index of the first of `children` below which `remove_node(id)` would take
/// out a node, or their count.
fn first_yielding(children: &Vec<TreeNode>, id: usize) -> (r: usize)
    ensures
        r <= children@.len(),
        forall|j: int| 0 <= j < r ==> removed_node(#[trigger] children@[j], id) is None,
        r < children@.len() ==> removed_node(children@[r as int], id) is Some,
{
    let mut i: usize = 0;
    while i < children.len()
        invariant
            0 <= i <= children@.len(),
            forall|j: int| 0 <= j < i ==> removed_node(#[trigger] children@[j], id) is None,
        decreases children@.len() - i,
    {
        if children[i].yields_removal(id) {
            return i;
        }
        i += 1;
    }
    i
}

/// `move_node(node_id, p)` moves a node: there is one to take out, a node
/// with id `p` exists, and none lies inside the subtree taken out.
pub open spec fn movable_to(o: TreeNode, node_id: usize, p: usize) -> bool {
    &&& removed_node(o, node_id) is Some
    &&& find_in_node(o, p) is Some
    &&& find_in_node(removed_node(o, node_id).unwrap(), p) is None
}

/// The forest lookup finds a node exactly when one of the subtrees holds it.
proof fn lemma_find_forest_some(s: Seq<TreeNode>, p: usize)
    ensures
        find_in_forest(s, p) is Some <==> exists|j: int| 0 <= j < s.len() && (#[trigger] find_in_node(s[j], p)) is Some,
    decreases s.len(),
{
    if s.len() > 0 {
        let t = s.subrange(1, s.len() as int);
        lemma_find_forest_some(t, p);
        if find_in_node(s[0], p) is Some {
            assert(find_in_node(s[0], p) is Some);
        } else {
            if find_in_forest(t, p) is Some {
                let j = choose|j: int| 0 <= j < t.len() && (#[trigger] find_in_node(t[j], p)) is Some;
                assert(s[j + 1] == t[j]);
                assert(find_in_node(s[j + 1], p) is Some);
            }
            if exists|j: int| 0 <= j < s.len() && (#[trigger] find_in_node(s[j], p)) is Some {
                let j = choose|j: int| 0 <= j < s.len() && (#[trigger] find_in_node(s[j], p)) is Some;
                assert(j > 0);
                assert(t[j - 1] == s[j]);
                assert(find_in_node(t[j - 1], p) is Some);
            }
        }
    }
}

/// A removal below the forest changes one subtree, the one that yields
/// the removed node, and keeps the others.
proof fn lemma_removal_forest_shape(os: Seq<TreeNode>, ns: Seq<TreeNode>, id: usize)
    requires
        removal_in_forest(os, ns, id),
        removed_in_forest(os, id) is Some,
    ensures
        ns.len() == os.len(),
        exists|i: int|
            0 <= i < os.len() && removed_node(os[i], id) == removed_in_forest(os, id) && removal(
                os[i],
                ns[i],
                id,
            ) && forall|j: int| 0 <= j < os.len() && j != i ==> #[trigger] ns[j] == os[j],
    decreases os.len(),
{
    let ot = os.subrange(1, os.len() as int);
    let nt = ns.subrange(1, ns.len() as int);
    if removed_node(os[0], id) is Some {
        assert forall|j: int| 0 <= j < os.len() && j != 0 implies #[trigger] ns[j] == os[j] by {
            assert(nt[j - 1] == ns[j] && ot[j - 1] == os[j]);
        }
    } else {
        lemma_removal_forest_shape(ot, nt, id);
        let i = choose|i: int|
            0 <= i < ot.len() && removed_node(ot[i], id) == removed_in_forest(ot, id) && removal(
                ot[i],
                nt[i],
                id,
            ) && forall|j: int| 0 <= j < ot.len() && j != i ==> #[trigger] nt[j] == ot[j];
        assert(ot[i] == os[i + 1] && nt[i] == ns[i + 1]);
        assert forall|j: int| 0 <= j < os.len() && j != i + 1 implies #[trigger] ns[j] == os[j] by {
            if j > 0 {
                assert(nt[j - 1] == ns[j] && ot[j - 1] == os[j]);
            }
        }
    }
}

/// A node outside the subtree that a removal takes out is still found
/// after it.
proof fn lemma_find_survives(o: TreeNode, n: TreeNode, id: usize, p: usize)
    requires
        removal(o, n, id),
        removed_node(o, id) is Some,
        find_in_node(o, p) is Some,
        find_in_node(removed_node(o, id).unwrap(), p) is None,
    ensures
        find_in_node(n, p) is Some,
    decreases o,
{
    if o.id != p {
        let oc = o.children@;
        let nc = n.children@;
        lemma_find_forest_some(oc, p);
        lemma_find_forest_some(nc, p);
        let j = choose|j: int| 0 <= j < oc.len() && (#[trigger] find_in_node(oc[j], p)) is Some;
        match direct_child_index(oc, id) {
            Some(k) => {
                lemma_direct_child_bound(oc, id);
                assert(j != k);
                let j2 = if j < k { j } else { j - 1 };
                assert(nc[j2] == oc[j]);
                assert(find_in_node(nc[j2], p) is Some);
            },
            None => {
                lemma_removal_forest_shape(oc, nc, id);
                let i = choose|i: int|
                    0 <= i < oc.len() && removed_node(oc[i], id) == removed_in_forest(oc, id) && removal(
                        oc[i],
                        nc[i],
                        id,
                    ) && forall|jj: int| 0 <= jj < oc.len() && jj != i ==> #[trigger] nc[jj] == oc[jj];
                if j == i {
                    lemma_find_survives(oc[i], nc[i], id, p);
                } else {
                    assert(nc[j] == oc[j]);
                }
                assert(find_in_node(nc[j], p) is Some);
            },
        }
    }
}

/// The index that `direct_child_index` names is in range and has the id.
proof fn lemma_direct_child_bound(s: Seq<TreeNode>, id: usize)
    ensures
        direct_child_index(s, id) matches Some(k) ==> 0 <= k < s.len() && s[k].id == id,
    decreases s.len(),
{
    if s.len() > 0 {
        lemma_direct_child_bound(s.subrange(1, s.len() as int), id);
    }
}

/// Creates a leaf node with the given id.
pub fn treenode(id: usize) -> (r: TreeNode)
    ensures
        r.id == id,
        r.children@.len() == 0,
        !r.accepts_drops,
        !r.draggable,
        !r.expanded,
{
    TreeNode::new(id)
}

impl TreeNode {
    /// Creates a leaf node with the given id, not accepting drops, not
    /// draggable and collapsed.
    pub fn new(id: usize) -> (r: TreeNode)
        ensures
            r.id == id,
            r.children@.len() == 0,
            !r.accepts_drops,
            !r.draggable,
            !r.expanded,
    {
        TreeNode {
            id,
            children: Vec::new(),
            accepts_drops: false,
            draggable: false,
            expanded: false,
        }
    }

    /// Replaces the children.
    pub fn with_children(self, children: Vec<TreeNode>) -> (r: TreeNode)
        ensures
            same_fields(self, r),
            r.children@ == children@,
    {
        let mut s = self;
        s.children = children;
        s
    }

    /// Marks the node as accepting drops.
    pub fn accepts_drops(self) -> (r: TreeNode)
        ensures
            r == (TreeNode { accepts_drops: true, ..self }),
    {
        let mut s = self;
        s.accepts_drops = true;
        s
    }

    /// Marks the node as not draggable.
    pub fn block_dragging(self) -> (r: TreeNode)
        ensures
            r == (TreeNode { draggable: false, ..self }),
    {
        let mut s = self;
        s.draggable = false;
        s
    }

    /// Sets the expanded flag.
    pub fn expanded(self, expanded: bool) -> (r: TreeNode)
        ensures
            r == (TreeNode { expanded: expanded, ..self }),
    {
        let mut s = self;
        s.expanded = expanded;
        s
    }

    /// Appends a direct child.
    pub fn add_child(&mut self, child: TreeNode)
        ensures
            same_fields(*old(self), *final(self)),
            final(self).children@ == old(self).children@.push(child),
    {
        self.children.push(child);
    }

    /// Flips the expanded flag.
    pub fn toggle_expanded(&mut self)
        ensures
            *final(self) == (TreeNode { expanded: !old(self).expanded, ..*old(self) }),
    {
        self.expanded = !self.expanded;
    }

    /// All ids of the subtree, in pre-order.
    pub fn collect_ids(&self) -> (r: Vec<usize>)
        ensures
            r@ == node_ids(*self),
        decreases self,
    {
        let mut ids: Vec<usize> = Vec::new();
        ids.push(self.id);
        assert(self.children@.subrange(0, self.children@.len() as int) =~= self.children@);
        let mut i: usize = 0;
        while i < self.children.len()
            invariant
                0 <= i <= self.children@.len(),
                ids@ + forest_ids(self.children@.subrange(i as int, self.children@.len() as int))
                    == node_ids(*self),
            decreases self.children@.len() - i,
        {
            let ghost rest = self.children@.subrange(i as int, self.children@.len() as int);
            assert(rest.subrange(1, rest.len() as int) =~= self.children@.subrange(
                i + 1,
                self.children@.len() as int,
            ));
            let mut sub = self.children[i].collect_ids();
            ids.append(&mut sub);
            i += 1;
        }
        proof {
            assert(self.children@.subrange(i as int, self.children@.len() as int) =~= Seq::empty());
            assert(ids@ + Seq::<usize>::empty() =~= ids@);
        }
        ids
    }

    /// The first node of the subtree with id `id`, in pre-order.
    pub fn find(&self, id: usize) -> (r: Option<&TreeNode>)
        ensures
            match r {
                Some(m) => find_in_node(*self, id) == Some(*m),
                None => find_in_node(*self, id) is None,
            },
        decreases self,
    {
        if self.id == id {
            return Some(self);
        }
        assert(self.children@.subrange(0, self.children@.len() as int) =~= self.children@);
        let mut i: usize = 0;
        while i < self.children.len()
            invariant
                0 <= i <= self.children@.len(),
                self.id != id,
                find_in_forest(self.children@.subrange(i as int, self.children@.len() as int), id)
                    == find_in_node(*self, id),
            decreases self.children@.len() - i,
        {
            let ghost rest = self.children@.subrange(i as int, self.children@.len() as int);
            assert(rest.subrange(1, rest.len() as int) =~= self.children@.subrange(
                i + 1,
                self.children@.len() as int,
            ));
            match self.children[i].find(id) {
                Some(m) => {
                    return Some(m);
                },
                None => {},
            }
            i += 1;
        }
        None
    }

    /// Appends `child` to the first node of the subtree (in pre-order) whose
    /// id is `parent_id`; returns whether there was one.
    pub fn add_child_to(&mut self, parent_id: usize, child: TreeNode) -> (r: bool)
        ensures
            r == (find_in_node(*old(self), parent_id) is Some),
            r ==> edited_at(*old(self), *final(self), parent_id, push_child(child)),
            !r ==> *final(self) == *old(self),
        decreases *old(self),
    {
        if self.id == parent_id {
            self.children.push(child);
            return true;
        }
        let ghost o = *self;
        let k = first_holding(&self.children, parent_id);
        proof {
            lemma_find_forest_at(o.children@, k as int, parent_id);
        }
        if k == self.children.len() {
            return false;
        }
        let ghost ck = self.children@[k as int];
        let c = &mut self.children[k];
        let added = c.add_child_to(parent_id, child);
        proof {
            lemma_edit_forest_at(o.children@, k as int, self.children@[k as int], parent_id, push_child(child));
            assert(self.children@ == o.children@.update(k as int, self.children@[k as int]));
        }
        added
    }

    /// Flips the expanded flag of the first node of the subtree (in
    /// pre-order) whose id is `id`; returns whether there was one.
    pub fn toggle_expanded_at(&mut self, id: usize) -> (r: bool)
        ensures
            r == (find_in_node(*old(self), id) is Some),
            r ==> edited_at(*old(self), *final(self), id, flip_expanded()),
            !r ==> *final(self) == *old(self),
        decreases *old(self),
    {
        if self.id == id {
            self.expanded = !self.expanded;
            return true;
        }
        let ghost o = *self;
        let k = first_holding(&self.children, id);
        proof {
            lemma_find_forest_at(o.children@, k as int, id);
        }
        if k == self.children.len() {
            return false;
        }
        let c = &mut self.children[k];
        let toggled = c.toggle_expanded_at(id);
        proof {
            lemma_edit_forest_at(o.children@, k as int, self.children@[k as int], id, flip_expanded());
            assert(self.children@ == o.children@.update(k as int, self.children@[k as int]));
        }
        toggled
    }

    /// The first node of the subtree with id `id`, in pre-order, for editing.
    pub fn find_mut(&mut self, id: usize) -> (r: Option<&mut TreeNode>)
        ensures
            r is None <==> find_in_node(*old(self), id) is None,
            r is None ==> *final(self) == *old(self),
            r is Some ==> find_in_node(*old(self), id) == Some(*r.unwrap()),
            r is Some ==> edited_at(*old(self), *final(self), id, becomes(*final(r.unwrap()))),
        decreases *old(self),
    {
        if self.id == id {
            return Some(self);
        }
        let ghost o = *self;
        let k = first_holding(&self.children, id);
        proof {
            lemma_find_forest_at(o.children@, k as int, id);
        }
        if k == self.children.len() {
            return None;
        }
        let c = child_for_edit(self, k, id);
        c.find_mut(id)
    }

    /// Takes out a node with id `id`: the first direct child with that id if
    /// there is one, else what the first child that yields one takes out
    /// below itself. The node itself is never removed.
    pub fn remove_node(&mut self, id: usize) -> (r: Option<TreeNode>)
        ensures
            r == removed_node(*old(self), id),
            removal(*old(self), *final(self), id),
            r is None ==> *final(self) == *old(self),
        decreases *old(self),
    {
        let ghost o = *self;
        let mut k: usize = 0;
        while k < self.children.len() && self.children[k].id != id
            invariant
                *self == o,
                0 <= k <= self.children@.len(),
                forall|j: int| 0 <= j < k ==> (#[trigger] self.children@[j]).id != id,
            decreases self.children@.len() - k,
        {
            k += 1;
        }
        proof {
            lemma_direct_child_at(o.children@, k as int, id);
        }
        if k < self.children.len() {
            return Some(self.children.remove(k));
        }
        let i = first_yielding(&self.children, id);
        proof {
            lemma_removed_forest_at(o.children@, i as int, id);
        }
        if i == self.children.len() {
            return None;
        }
        let c = &mut self.children[i];
        let removed = c.remove_node(id);
        proof {
            lemma_removal_forest_at(o.children@, i as int, self.children@[i as int], id);
            assert(self.children@ == o.children@.update(i as int, self.children@[i as int]));
        }
        removed
    }

    /// Whether `remove_node(id)` would take out a node.
    pub fn yields_removal(&self, id: usize) -> (r: bool)
        ensures
            r == (removed_node(*self, id) is Some),
        decreases self,
    {
        let mut k: usize = 0;
        while k < self.children.len() && self.children[k].id != id
            invariant
                0 <= k <= self.children@.len(),
                forall|j: int| 0 <= j < k ==> (#[trigger] self.children@[j]).id != id,
            decreases self.children@.len() - k,
        {
            k += 1;
        }
        proof {
            lemma_direct_child_at(self.children@, k as int, id);
        }
        if k < self.children.len() {
            return true;
        }
        let mut i: usize = 0;
        while i < self.children.len()
            invariant
                0 <= i <= self.children@.len(),
                forall|j: int| 0 <= j < i ==> removed_node(#[trigger] self.children@[j], id) is None,
            decreases self.children@.len() - i,
        {
            if self.children[i].yields_removal(id) {
                proof {
                    lemma_removed_forest_at(self.children@, i as int, id);
                }
                return true;
            }
            i += 1;
        }
        proof {
            lemma_removed_forest_at(self.children@, i as int, id);
        }
        false
    }

    /// Whether the node that `remove_node(id)` would take out holds a node
    /// with id `p` in its subtree.
    pub fn removed_holds(&self, id: usize, p: usize) -> (r: bool)
        ensures
            r == (removed_node(*self, id) matches Some(m) && find_in_node(m, p) is Some),
        decreases self,
    {
        let mut k: usize = 0;
        while k < self.children.len() && self.children[k].id != id
            invariant
                0 <= k <= self.children@.len(),
                forall|j: int| 0 <= j < k ==> (#[trigger] self.children@[j]).id != id,
            decreases self.children@.len() - k,
        {
            k += 1;
        }
        proof {
            lemma_direct_child_at(self.children@, k as int, id);
        }
        if k < self.children.len() {
            return self.children[k].find(p).is_some();
        }
        let i = first_yielding(&self.children, id);
        proof {
            lemma_removed_forest_at(self.children@, i as int, id);
        }
        if i == self.children.len() {
            return false;
        }
        self.children[i].removed_holds(id, p)
    }

    /// Moves the node with id `node_id` (the one `remove_node` takes out)
    /// under the first node with id `new_parent_id`, appended to its
    /// children. This happens only when the node exists, a node with id
    /// `new_parent_id` exists, and none lies inside the moved subtree;
    /// otherwise nothing changes. Returns whether the node moved.
    pub fn move_node(&mut self, node_id: usize, new_parent_id: usize) -> (r: bool)
        ensures
            r == movable_to(*old(self), node_id, new_parent_id),
            !r ==> *final(self) == *old(self),
            r ==> exists|mid: TreeNode|
                {
                    &&& removal(*old(self), mid, node_id)
                    &&& edited_at(
                        mid,
                        *final(self),
                        new_parent_id,
                        push_child(removed_node(*old(self), node_id).unwrap()),
                    )
                },
    {
        if !self.yields_removal(node_id) || self.find(new_parent_id).is_none() || self.removed_holds(
            node_id,
            new_parent_id,
        ) {
            return false;
        }
        let ghost o = *self;
        match self.remove_node(node_id) {
            Some(removed) => {
                let ghost mid = *self;
                proof {
                    lemma_find_survives(o, mid, node_id, new_parent_id);
                }
                let added = self.add_child_to(new_parent_id, removed);
                assert(removal(o, mid, node_id));
                added
            },
            None => false,
        }
    }
}

} // verus!
