//! The branch registry: a caller's nested branch declarations flattened, in
//! pre-order, into descriptors whose internal id is their index.

use vstd::prelude::*;
use std::collections::HashMap;

verus! {

broadcast use vstd::std_specs::vec::group_vec_axioms, vstd::std_specs::hash::group_hash_axioms;

/// The shape of one declared branch: its caller-chosen id (0 for none), its
/// capability flags and its children. The branch's content is held apart.
#[derive(Debug)]
pub struct BranchDecl {
    pub external_id: usize,
    pub accepts_drops: bool,
    pub draggable: bool,
    pub children: Vec<BranchDecl>,
}

/// One flattened branch.
#[derive(Debug, Clone, Copy, PartialEq, Eq, Structural)]
pub struct BranchDescriptor {
    pub id: usize,
    pub external_id: usize,
    pub parent_id: Option<usize>,
    pub depth: u16,
    pub has_children: bool,
    pub accepts_drops: bool,
    pub draggable: bool,
}

/// The descriptor that flattening gives `n` when it is visited with internal
/// id `id`.
pub open spec fn descriptor_of(
    n: BranchDecl,
    id: int,
    parent: Option<usize>,
    depth: int,
) -> BranchDescriptor {
    BranchDescriptor {
        id: id as usize,
        external_id: n.external_id,
        parent_id: parent,
        depth: depth as u16,
        has_children: n.children@.len() > 0,
        accepts_drops: n.accepts_drops,
        draggable: n.draggable,
    }
}

/// Pre-order flattening of `n`, whose ids start at `next`.
pub open spec fn flatten_node(
    n: BranchDecl,
    parent: Option<usize>,
    depth: int,
    next: int,
) -> Seq<BranchDescriptor>
    decreases n,
{
    seq![descriptor_of(n, next, parent, depth)] + flatten_forest(
        n.children@,
        Some(next as usize),
        depth + 1,
        next + 1,
    )
}

/// Pre-order flattening of sibling branches, one after another.
pub open spec fn flatten_forest(
    s: Seq<BranchDecl>,
    parent: Option<usize>,
    depth: int,
    next: int,
) -> Seq<BranchDescriptor>
    decreases s,
{
    if s.len() == 0 {
        Seq::empty()
    } else {
        let head = flatten_node(s[0], parent, depth, next);
        head + flatten_forest(s.subrange(1, s.len() as int), parent, depth, next + head.len())
    }
}

/// The registry of root branches `roots`.
pub open spec fn flattened(roots: Seq<BranchDecl>) -> Seq<BranchDescriptor> {
    flatten_forest(roots, None, 0, 0)
}

/// Number of branches in `n`'s subtree.
pub open spec fn node_count(n: BranchDecl) -> nat
    decreases n,
{
    1 + forest_count(n.children@)
}

/// Number of branches in a sequence of subtrees.
pub open spec fn forest_count(s: Seq<BranchDecl>) -> nat
    decreases s,
{
    if s.len() == 0 {
        0
    } else {
        node_count(s[0]) + forest_count(s.subrange(1, s.len() as int))
    }
}

/// Every branch of `n`'s subtree, placed at `depth`, has a depth that fits
/// in a `u16`.
pub open spec fn node_fits(n: BranchDecl, depth: int) -> bool
    decreases n,
{
    &&& 0 <= depth <= u16::MAX
    &&& n.children@.len() > 0 ==> forest_fits(n.children@, depth + 1)
}

/// `node_fits` for each of a sequence of siblings.
pub open spec fn forest_fits(s: Seq<BranchDecl>, depth: int) -> bool
    decreases s,
{
    s.len() > 0 ==> node_fits(s[0], depth) && forest_fits(s.subrange(1, s.len() as int), depth)
}

/// A registry as flattening leaves it: each descriptor's id is its index.
pub open spec fn ids_are_indices(branches: Seq<BranchDescriptor>) -> bool {
    forall|i: int| 0 <= i < branches.len() ==> (#[trigger] branches[i]).id == i
}

/// Each descriptor's parent comes before it.
pub open spec fn parents_precede(branches: Seq<BranchDescriptor>) -> bool {
    forall|i: int|
        0 <= i < branches.len() && (#[trigger] branches[i]).parent_id is Some
            ==> branches[i].parent_id.unwrap() < i
}

proof fn lemma_rest(s: Seq<BranchDecl>, i: int)
    requires
        0 <= i < s.len(),
    ensures
        s.subrange(i, s.len() as int)[0] == s[i],
        s.subrange(i, s.len() as int).subrange(1, s.len() - i) =~= s.subrange(i + 1, s.len() as int),
{
}

/// The flattening of a subtree has as many descriptors as the subtree has
/// branches; its ids run from `next` on, and each parent is the given one
/// or an earlier descriptor of the same flattening.
pub proof fn lemma_flatten_node(n: BranchDecl, parent: Option<usize>, depth: int, next: int)
    requires
        0 <= next,
        parent is Some ==> parent.unwrap() < next,
        next + node_count(n) <= usize::MAX + 1,
    ensures
        flatten_node(n, parent, depth, next).len() == node_count(n),
        forall|i: int|
            0 <= i < node_count(n) ==> (#[trigger] flatten_node(n, parent, depth, next)[i]).id
                == next + i,
        forall|i: int|
            0 <= i < node_count(n) && (#[trigger] flatten_node(n, parent, depth, next)[i]).parent_id
                is Some ==> flatten_node(n, parent, depth, next)[i].parent_id.unwrap() < next + i,
    decreases n,
{
    lemma_flatten_forest(n.children@, Some(next as usize), depth + 1, next + 1);
    let r = flatten_node(n, parent, depth, next);
    let t = flatten_forest(n.children@, Some(next as usize), depth + 1, next + 1);
    assert forall|i: int| 0 <= i < node_count(n) implies (#[trigger] r[i]).id == next + i by {
        if i > 0 {
            assert(r[i] == t[i - 1]);
        }
    }
    assert forall|i: int|
        0 <= i < node_count(n) && (#[trigger] r[i]).parent_id is Some implies r[i].parent_id.unwrap()
            < next + i by {
        if i > 0 {
            assert(r[i] == t[i - 1]);
        }
    }
}

/// The forest form of `lemma_flatten_node`.
pub proof fn lemma_flatten_forest(s: Seq<BranchDecl>, parent: Option<usize>, depth: int, next: int)
    requires
        0 <= next,
        parent is Some ==> parent.unwrap() < next,
        next + forest_count(s) <= usize::MAX + 1,
    ensures
        flatten_forest(s, parent, depth, next).len() == forest_count(s),
        forall|i: int|
            0 <= i < forest_count(s) ==> (#[trigger] flatten_forest(s, parent, depth, next)[i]).id
                == next + i,
        forall|i: int|
            0 <= i < forest_count(s) && (#[trigger] flatten_forest(
                s,
                parent,
                depth,
                next,
            )[i]).parent_id is Some ==> flatten_forest(s, parent, depth, next)[i].parent_id.unwrap()
                < next + i,
    decreases s,
{
    if s.len() > 0 {
        let rest = s.subrange(1, s.len() as int);
        lemma_flatten_node(s[0], parent, depth, next);
        let k = node_count(s[0]);
        lemma_flatten_forest(rest, parent, depth, next + k);
        let h = flatten_node(s[0], parent, depth, next);
        let t = flatten_forest(rest, parent, depth, next + k);
        let r = flatten_forest(s, parent, depth, next);
        assert(r == h + t);
        assert forall|i: int| 0 <= i < forest_count(s) implies (#[trigger] r[i]).id == next + i by {
            if i >= k {
                assert(r[i] == t[i - k]);
            }
        }
        assert forall|i: int|
            0 <= i < forest_count(s) && (#[trigger] r[i]).parent_id is Some implies r[i].parent_id.unwrap()
                < next + i by {
            if i >= k {
                assert(r[i] == t[i - k]);
            }
        }
    }
}

/// Flattening numbers the branches by their index, and puts every parent
/// before its children.
pub proof fn lemma_flattened_wf(roots: Seq<BranchDecl>)
    requires
        forest_count(roots) <= usize::MAX,
    ensures
        flattened(roots).len() == forest_count(roots),
        ids_are_indices(flattened(roots)),
        parents_precede(flattened(roots)),
{
    lemma_flatten_forest(roots, None, 0, 0);
}

fn flatten_branch(n: &BranchDecl, parent: Option<usize>, depth: u16, out: &mut Vec<BranchDescriptor>)
    requires
        node_fits(*n, depth as int),
        parent is Some ==> parent.unwrap() < old(out)@.len(),
        old(out)@.len() + node_count(*n) <= usize::MAX,
    ensures
        final(out)@ == old(out)@ + flatten_node(*n, parent, depth as int, old(out)@.len() as int),
    decreases *n,
{
    let ghost start = out@;
    let id = out.len();
    out.push(
        BranchDescriptor {
            id,
            external_id: n.external_id,
            parent_id: parent,
            depth,
            has_children: n.children.len() > 0,
            accepts_drops: n.accepts_drops,
            draggable: n.draggable,
        },
    );
    if n.children.len() == 0 {
        proof {
            assert(flatten_forest(n.children@, Some(id), depth + 1, id + 1) =~= Seq::empty());
            assert(out@ =~= start + flatten_node(*n, parent, depth as int, id as int));
        }
        return;
    }
    proof {
        assert(forest_fits(n.children@, depth + 1));
        assert(node_fits(n.children@[0], depth + 1));
    }
    let child_depth = depth + 1;
    let ghost target = start + flatten_node(*n, parent, depth as int, id as int);
    proof {
        assert(n.children@.subrange(0, n.children@.len() as int) =~= n.children@);
        lemma_flatten_forest(n.children@, Some(id), depth + 1, id + 1);
        assert(out@ + flatten_forest(n.children@, Some(id), depth + 1, id + 1) =~= target);
    }
    let mut i: usize = 0;
    while i < n.children.len()
        invariant
            0 <= i <= n.children@.len(),
            id < out@.len(),
            child_depth == depth + 1,
            forest_fits(n.children@.subrange(i as int, n.children@.len() as int), child_depth as int),
            out@.len() + forest_count(n.children@.subrange(i as int, n.children@.len() as int))
                == start.len() + node_count(*n),
            start.len() + node_count(*n) <= usize::MAX,
            out@ + flatten_forest(
                n.children@.subrange(i as int, n.children@.len() as int),
                Some(id),
                child_depth as int,
                out@.len() as int,
            ) == target,
        decreases n.children@.len() - i,
    {
        proof {
            lemma_rest(n.children@, i as int);
        }
        let ghost before = out@;
        let ghost rest = n.children@.subrange(i as int + 1, n.children@.len() as int);
        proof {
            lemma_flatten_node(n.children@[i as int], Some(id), child_depth as int, before.len() as int);
        }
        flatten_branch(&n.children[i], Some(id), child_depth, out);
        proof {
            assert(out@ + flatten_forest(rest, Some(id), child_depth as int, out@.len() as int) =~= before
                + flatten_forest(
                n.children@.subrange(i as int, n.children@.len() as int),
                Some(id),
                child_depth as int,
                before.len() as int,
            ));
        }
        i += 1;
    }
    proof {
        assert(n.children@.subrange(i as int, n.children@.len() as int) =~= Seq::<BranchDecl>::empty());
        assert(out@ =~= target);
    }
}

/// Flattens the declared roots in pre-order into descriptors numbered by
/// their index.
pub fn flatten(roots: &Vec<BranchDecl>) -> (r: Vec<BranchDescriptor>)
    requires
        forest_fits(roots@, 0),
        forest_count(roots@) <= usize::MAX,
    ensures
        r@ == flattened(roots@),
{
    let mut out: Vec<BranchDescriptor> = Vec::new();
    proof {
        assert(roots@.subrange(0, roots@.len() as int) =~= roots@);
        assert(out@ + flattened(roots@) =~= flattened(roots@));
    }
    let mut i: usize = 0;
    while i < roots.len()
        invariant
            0 <= i <= roots@.len(),
            forest_fits(roots@.subrange(i as int, roots@.len() as int), 0),
            out@.len() + forest_count(roots@.subrange(i as int, roots@.len() as int)) == forest_count(
                roots@,
            ),
            forest_count(roots@) <= usize::MAX,
            out@ + flatten_forest(roots@.subrange(i as int, roots@.len() as int), None, 0, out@.len() as int)
                == flattened(roots@),
        decreases roots@.len() - i,
    {
        proof {
            lemma_rest(roots@, i as int);
        }
        let ghost before = out@;
        let ghost rest = roots@.subrange(i as int + 1, roots@.len() as int);
        proof {
            lemma_flatten_node(roots@[i as int], None, 0, before.len() as int);
        }
        flatten_branch(&roots[i], None, 0, &mut out);
        proof {
            assert(out@ + flatten_forest(rest, None, 0, out@.len() as int) =~= before + flatten_forest(
                roots@.subrange(i as int, roots@.len() as int),
                None,
                0,
                before.len() as int,
            ));
        }
        i += 1;
    }
    proof {
        assert(roots@.subrange(i as int, roots@.len() as int) =~= Seq::<BranchDecl>::empty());
        assert(out@ =~= flattened(roots@));
    }
    out
}

impl BranchDecl {
    /// A branch without children, without a caller id, draggable and not
    /// accepting drops.
    pub fn new() -> (r: BranchDecl)
        ensures
            r.external_id == 0,
            r.children@.len() == 0,
            !r.accepts_drops,
            r.draggable,
    {
        BranchDecl { external_id: 0, accepts_drops: false, draggable: true, children: Vec::new() }
    }

    /// Replaces the children.
    pub fn with_children(self, children: Vec<BranchDecl>) -> (r: BranchDecl)
        ensures
            r.external_id == self.external_id,
            r.accepts_drops == self.accepts_drops,
            r.draggable == self.draggable,
            r.children@ == children@,
    {
        let mut s = self;
        s.children = children;
        s
    }

    /// Marks the branch as accepting drops into it.
    pub fn accepts_drops(self) -> (r: BranchDecl)
        ensures
            r == (BranchDecl { accepts_drops: true, ..self }),
    {
        let mut s = self;
        s.accepts_drops = true;
        s
    }

    /// Marks the branch as not draggable.
    pub fn block_dragging(self) -> (r: BranchDecl)
        ensures
            r == (BranchDecl { draggable: false, ..self }),
    {
        let mut s = self;
        s.draggable = false;
        s
    }

    /// Sets the caller's id of the branch.
    pub fn with_id(self, id: usize) -> (r: BranchDecl)
        ensures
            r == (BranchDecl { external_id: id, ..self }),
    {
        let mut s = self;
        s.external_id = id;
        s
    }
}

/// The caller-id map of the first `k` descriptors: each caller id (other
/// than 0) maps to the last descriptor that declared it.
pub open spec fn external_map(branches: Seq<BranchDescriptor>, k: int) -> Map<usize, usize>
    decreases k,
{
    if k <= 0 {
        Map::empty()
    } else {
        let rest = external_map(branches, k - 1);
        let b = branches[k - 1];
        if b.external_id != 0 {
            rest.insert(b.external_id, b.id)
        } else {
            rest
        }
    }
}

/// The caller ids among the first `k` descriptors that an earlier
/// descriptor had already declared, once per repeat.
pub open spec fn repeated_externals(branches: Seq<BranchDescriptor>, k: int) -> Seq<usize>
    decreases k,
{
    if k <= 0 {
        Seq::empty()
    } else {
        let rest = repeated_externals(branches, k - 1);
        let b = branches[k - 1];
        if b.external_id != 0 && external_map(branches, k - 1).contains_key(b.external_id) {
            rest.push(b.external_id)
        } else {
            rest
        }
    }
}

/// The flattened branches of one declaration, with the maps between the
/// internal ids and the caller's ids.
#[derive(Debug)]
pub struct Registry {
    pub branches: Vec<BranchDescriptor>,
    pub ext_to_int: HashMap<usize, usize>,
    pub int_to_ext: Vec<usize>,
    pub duplicate_external_ids: Vec<usize>,
}

impl Registry {
    /// The registry is what flattening gives, with its maps.
    pub open spec fn wf(&self) -> bool {
        &&& ids_are_indices(self.branches@)
        &&& parents_precede(self.branches@)
        &&& self.int_to_ext@.len() == self.branches@.len()
        &&& forall|i: int|
            0 <= i < self.branches@.len() ==> #[trigger] self.int_to_ext@[i]
                == self.branches@[i].external_id
        &&& self.ext_to_int@ == external_map(self.branches@, self.branches@.len() as int)
    }

    /// Flattens the declared roots and builds the id maps. A caller id
    /// declared twice is not an error: the later branch wins, and the id is
    /// listed in `duplicate_external_ids`.
    pub fn new(roots: &Vec<BranchDecl>) -> (r: Registry)
        requires
            forest_fits(roots@, 0),
            forest_count(roots@) <= usize::MAX,
        ensures
            r.wf(),
            r.branches@ == flattened(roots@),
            r.duplicate_external_ids@ == repeated_externals(r.branches@, r.branches@.len() as int),
    {
        let branches = flatten(roots);
        proof {
            lemma_flattened_wf(roots@);
        }
        let mut ext_to_int: HashMap<usize, usize> = HashMap::new();
        let mut int_to_ext: Vec<usize> = Vec::new();
        let mut duplicates: Vec<usize> = Vec::new();
        let mut i: usize = 0;
        while i < branches.len()
            invariant
                0 <= i <= branches@.len(),
                ids_are_indices(branches@),
                int_to_ext@.len() == i,
                forall|j: int| 0 <= j < i ==> #[trigger] int_to_ext@[j] == branches@[j].external_id,
                ext_to_int@ == external_map(branches@, i as int),
                duplicates@ == repeated_externals(branches@, i as int),
            decreases branches@.len() - i,
        {
            let b = branches[i];
            if b.external_id != 0 {
                if ext_to_int.contains_key(&b.external_id) {
                    duplicates.push(b.external_id);
                }
                ext_to_int.insert(b.external_id, b.id);
            }
            int_to_ext.push(b.external_id);
            i += 1;
        }
        Registry { branches, ext_to_int, int_to_ext, duplicate_external_ids: duplicates }
    }

    /// The id reported to the caller for internal id `internal_id`: its
    /// caller id when it has one, else the internal id itself.
    pub fn preferred_id(&self, internal_id: usize) -> (r: usize)
        requires
            self.wf(),
        ensures
            r == if internal_id < self.branches@.len() && self.branches@[internal_id as int].external_id
                != 0 {
                self.branches@[internal_id as int].external_id
            } else {
                internal_id
            },
    {
        if internal_id < self.int_to_ext.len() && self.int_to_ext[internal_id] != 0 {
            self.int_to_ext[internal_id]
        } else {
            internal_id
        }
    }

    /// The internal id of the branch that last declared caller id
    /// `external_id`.
    pub fn internal_id_of(&self, external_id: usize) -> (r: Option<usize>)
        requires
            self.wf(),
        ensures
            r == (if external_map(self.branches@, self.branches@.len() as int).contains_key(external_id) {
                Some(external_map(self.branches@, self.branches@.len() as int)[external_id])
            } else {
                None::<usize>
            }),
    {
        match self.ext_to_int.get(&external_id) {
            Some(v) => Some(*v),
            None => None,
        }
    }
}

} // verus!
