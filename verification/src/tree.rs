//! The body tree: a rooted tree of segment definitions connected by
//! joints, stored as an arena of nodes with explicit parent indices. The
//! root is always node 0; every other node's parent precedes it, so the
//! structure is acyclic by construction.

use vstd::prelude::*;
use crate::body::{Joint, ShapeDefinition};
use crate::generic_mutation::{clamp_raw, MutationGen, ParamHolder, RAW_ONE};
use crate::rng::RngSource;

verus! {

/// A stable handle to a node of a body tree.
pub type NodeIndex = usize;

/// An ordered collection of body trees: the unit of (de)serialization.
pub type Population = Vec<BodyTree>;

/// One node of a body tree: its segment, the handle of its parent, and the
/// joint of the edge towards the parent. The root stores itself as parent
/// and a `Ground` joint.
#[derive(Clone, Copy)]
pub struct TreeNode {
    pub shape: ShapeDefinition,
    pub parent: NodeIndex,
    pub joint: Joint,
}

/// A rooted tree of segment definitions connected by joints.
pub struct BodyTree {
    nodes: Vec<TreeNode>,
}

impl View for BodyTree {
    type V = Seq<TreeNode>;

    closed spec fn view(&self) -> Seq<TreeNode> {
        self.nodes@
    }
}

/// Well-formedness of a tree's node sequence: at least the root; the root
/// is node 0, its own parent, attached by `Ground`; every other node's
/// parent precedes it; and every segment's genes are in range.
pub open spec fn tree_wf(t: Seq<TreeNode>) -> bool {
    &&& 1 <= t.len()
    &&& t[0].parent == 0
    &&& t[0].joint == Joint::Ground
    &&& forall|i: int| 1 <= i < t.len() ==> (#[trigger] t[i].parent) < i
    &&& forall|i: int| 0 <= i < t.len() ==> (#[trigger] t[i].shape).inv()
}

/// Whether node `i` is a root (its own parent).
pub open spec fn is_root(t: Seq<TreeNode>, i: int) -> bool {
    t[i].parent == i
}

/// The direct children of `parent` among the nodes below `upto`, in
/// insertion order.
pub open spec fn kids_upto(t: Seq<TreeNode>, parent: int, upto: int) -> Seq<int>
    decreases upto,
{
    if upto <= 0 {
        Seq::empty()
    } else if upto - 1 >= 1 && t[upto - 1].parent as int == parent {
        kids_upto(t, parent, upto - 1).push(upto - 1)
    } else {
        kids_upto(t, parent, upto - 1)
    }
}

/// The direct children of `parent`, in insertion order.
pub open spec fn kids(t: Seq<TreeNode>, parent: int) -> Seq<int> {
    kids_upto(t, parent, t.len() as int)
}

/// What `kids_upto` lists: exactly the non-root nodes below `upto` whose
/// parent is `parent`, in strictly increasing order.
pub proof fn lemma_kids_upto(t: Seq<TreeNode>, parent: int, upto: int)
    requires
        0 <= upto <= t.len(),
    ensures
        forall|k: int|
            0 <= k < kids_upto(t, parent, upto).len() ==> 1 <= #[trigger] kids_upto(
                t,
                parent,
                upto,
            )[k] < upto && t[kids_upto(t, parent, upto)[k]].parent as int == parent,
        forall|k1: int, k2: int|
            0 <= k1 < k2 < kids_upto(t, parent, upto).len() ==> #[trigger] kids_upto(
                t,
                parent,
                upto,
            )[k1] < #[trigger] kids_upto(t, parent, upto)[k2],
        forall|i: int|
            1 <= i < upto && t[i].parent as int == parent ==> kids_upto(t, parent, upto).contains(
                i,
            ),
    decreases upto,
{
    if upto > 0 {
        lemma_kids_upto(t, parent, upto - 1);
        let prev = kids_upto(t, parent, upto - 1);
        let cur = kids_upto(t, parent, upto);
        assert forall|i: int| 1 <= i < upto && t[i].parent as int == parent implies cur.contains(
            i,
        ) by {
            if i < upto - 1 {
                assert(prev.contains(i));
                let k = choose|k: int| 0 <= k < prev.len() && prev[k] == i;
                assert(cur[k] == i);
            } else {
                assert(cur[cur.len() - 1] == i);
            }
        }
    }
}

/// The children of `parent`: only nodes whose incoming edge leads to
/// `parent`, each once, in insertion order.
pub proof fn lemma_kids(t: Seq<TreeNode>, parent: int)
    ensures
        forall|k: int|
            0 <= k < kids(t, parent).len() ==> 1 <= #[trigger] kids(t, parent)[k] < t.len() && t[
                kids(t, parent)[k]
            ].parent as int == parent,
        forall|k1: int, k2: int|
            0 <= k1 < k2 < kids(t, parent).len() ==> #[trigger] kids(t, parent)[k1]
                < #[trigger] kids(t, parent)[k2],
        forall|i: int|
            1 <= i < t.len() && t[i].parent as int == parent ==> kids(t, parent).contains(i),
{
    lemma_kids_upto(t, parent, t.len() as int);
}

/// A well-formed tree has exactly one root: node 0.
pub proof fn lemma_unique_root(t: Seq<TreeNode>)
    requires
        tree_wf(t),
    ensures
        forall|i: int| 0 <= i < t.len() ==> (is_root(t, i) <==> i == 0),
{
}

impl BodyTree {
    /// Well-formedness of the tree.
    pub open spec fn wf(&self) -> bool {
        tree_wf(self@)
    }

    /// Creates a single-node tree; the new node is the root.
    pub fn with_root(root_node: ShapeDefinition) -> (t: Self)
        requires
            root_node.inv(),
        ensures
            t.wf(),
            t@ =~= seq![
                (TreeNode { shape: root_node, parent: 0, joint: Joint::Ground }),
            ],
    {
        let mut nodes: Vec<TreeNode> = Vec::new();
        nodes.push(TreeNode { shape: root_node, parent: 0, joint: Joint::Ground });
        BodyTree { nodes }
    }

    /// The handle of the root node.
    pub fn root(&self) -> (r: NodeIndex)
        requires
            self.wf(),
        ensures
            r == 0,
            is_root(self@, r as int),
    {
        0
    }

    /// The number of nodes in the tree.
    pub fn node_count(&self) -> (n: usize)
        ensures
            n as int == self@.len(),
    {
        self.nodes.len()
    }

    /// The segment definition of node `handle`.
    pub fn shape_of(&self, handle: NodeIndex) -> (s: &ShapeDefinition)
        requires
            handle < self@.len(),
        ensures
            *s == self@[handle as int].shape,
    {
        &self.nodes[handle].shape
    }

    /// The joint of the edge from node `handle` towards its parent.
    pub fn joint_of(&self, handle: NodeIndex) -> (j: Joint)
        requires
            handle < self@.len(),
        ensures
            j == self@[handle as int].joint,
    {
        self.nodes[handle].joint
    }

    /// The handle of the parent of node `handle`; the root is its own
    /// parent.
    pub fn parent_of(&self, handle: NodeIndex) -> (p: NodeIndex)
        requires
            handle < self@.len(),
        ensures
            p == self@[handle as int].parent,
    {
        self.nodes[handle].parent
    }

    /// One whole node, by handle.
    pub(crate) fn node_at(&self, i: usize) -> (nd: TreeNode)
        requires
            i < self@.len(),
        ensures
            nd == self@[i as int],
    {
        self.nodes[i]
    }

    /// Wraps a well-formed arena of nodes as a tree.
    pub(crate) fn from_nodes(nodes: Vec<TreeNode>) -> (t: BodyTree)
        requires
            tree_wf(nodes@),
        ensures
            t@ == nodes@,
            t.wf(),
    {
        BodyTree { nodes }
    }

    /// Appends a new node as a child of `parent` via `joint` and returns
    /// its handle. An invalid parent handle is a contract violation.
    pub fn add_child(&mut self, parent: NodeIndex, child: ShapeDefinition, joint: Joint) -> (c:
        NodeIndex)
        requires
            old(self).wf(),
            parent < old(self)@.len(),
            child.inv(),
        ensures
            final(self).wf(),
            final(self)@ == old(self)@.push(
                (TreeNode { shape: child, parent, joint }),
            ),
            c as int == old(self)@.len(),
    {
        let c = self.nodes.len();
        self.nodes.push(TreeNode { shape: child, parent, joint });
        c
    }

    /// All direct children of `parent` with the joints of their incoming
    /// edges, in insertion order. An invalid handle is a contract
    /// violation.
    pub fn get_children(&self, parent: NodeIndex) -> (r: Vec<(NodeIndex, Joint)>)
        requires
            parent < self@.len(),
        ensures
            r@.len() == kids(self@, parent as int).len(),
            forall|k: int|
                0 <= k < r@.len() ==> (#[trigger] r@[k]).0 as int == kids(self@, parent as int)[k]
                    && r@[k].1 == self@[kids(self@, parent as int)[k]].joint,
            forall|k: int|
                0 <= k < r@.len() ==> 1 <= (#[trigger] r@[k]).0 < self@.len() && self@[
                    r@[k].0 as int
                ].parent == parent,
            forall|i: int|
                1 <= i < self@.len() && (#[trigger] self@[i]).parent == parent ==> exists|k: int|
                    0 <= k < r@.len() && (#[trigger] r@[k]).0 as int == i,
    {
        let ghost t = self@;
        let n = self.nodes.len();
        let mut r: Vec<(NodeIndex, Joint)> = Vec::new();
        let mut i: usize = 1;
        proof {
            reveal_with_fuel(kids_upto, 3);
        }
        while i < n
            invariant
                1 <= i <= n,
                n as int == t.len(),
                t == self@,
                parent < n,
                r@.len() == kids_upto(t, parent as int, i as int).len(),
                forall|k: int|
                    0 <= k < r@.len() ==> (#[trigger] r@[k]).0 as int == kids_upto(
                        t,
                        parent as int,
                        i as int,
                    )[k] && r@[k].1 == t[kids_upto(t, parent as int, i as int)[k]].joint,
                forall|k: int|
                    0 <= k < r@.len() ==> (#[trigger] r@[k]).0 < i,
            decreases n - i,
        {
            proof {
                lemma_kids_upto(t, parent as int, i + 1);
            }
            if self.nodes[i].parent == parent {
                r.push((i, self.nodes[i].joint));
            }
            i += 1;
        }
        proof {
            lemma_kids(t, parent as int);
            assert forall|i2: int|
                1 <= i2 < t.len() && (#[trigger] t[i2]).parent == parent implies exists|k: int|
                0 <= k < r@.len() && (#[trigger] r@[k]).0 as int == i2 by {
                assert(kids(t, parent as int).contains(i2));
                let k = choose|k: int|
                    0 <= k < kids(t, parent as int).len() && kids(t, parent as int)[k] == i2;
                assert(r@[k].0 as int == i2);
            }
        }
        r
    }

    /// Visits every node and adds one generator draw to every gene,
    /// clamping each result into [0, RAW_ONE]. Topology, joints, gene
    /// counts and gene ranges never change; a null generator leaves the
    /// tree exactly as it was.
    fn actually_mutate<MG: MutationGen>(&mut self, mut_gen: &mut MG)
        requires
            old(self).wf(),
        ensures
            final(self).wf(),
            final(self)@.len() == old(self)@.len(),
            forall|i: int|
                0 <= i < old(self)@.len() ==> (#[trigger] final(self)@[i]).parent == old(self)@[i].parent && final(self)@[i].joint == old(self)@[i].joint && final(self)@[i].shape.count_spec() == old(self)@[i].shape.count_spec(),
            forall|i: int, j: int|
                0 <= i < old(self)@.len() && 0 <= j < old(self)@[i].shape.count_spec()
                    ==> (#[trigger] final(self)@[i].shape.range_at(j)) == old(self)@[i].shape.range_at(j) && 0 <= final(self)@[i].shape.raw_at(j) <= RAW_ONE as int,
            old(mut_gen).fixed_offset() == Some(0i64) ==> final(self)@ == old(self)@,
            old(mut_gen).fixed_offset() matches Some(v) ==> forall|i: int, j: int|
                0 <= i < old(self)@.len() && 0 <= j < 9
                    ==> #[trigger] final(self)@[i].shape.raw_at(j) == clamp_raw(
                    old(self)@[i].shape.raw_at(j) + v as int,
                ),
            final(mut_gen).fixed_offset() == old(mut_gen).fixed_offset(),
            final(mut_gen).max_off() == old(mut_gen).max_off(),
            final(mut_gen).drawn().len() == old(mut_gen).drawn().len() + 9 * old(self)@.len(),
            forall|k: int|
                0 <= k < old(mut_gen).drawn().len() ==> #[trigger] final(mut_gen).drawn()[k]
                    == old(mut_gen).drawn()[k],
            forall|i: int, j: int|
                0 <= i < old(self)@.len() && 0 <= j < 9
                    ==> #[trigger] final(self)@[i].shape.raw_at(j) == clamp_raw(
                    old(self)@[i].shape.raw_at(j) + final(mut_gen).drawn()[old(mut_gen).drawn().len()
                        + 9 * i + j] as int,
                ),
            forall|k: int|
                old(mut_gen).drawn().len() <= k < final(mut_gen).drawn().len()
                    ==> -old(mut_gen).max_off() <= #[trigger] final(mut_gen).drawn()[k] as int
                    <= old(mut_gen).max_off(),
    {
        let ghost orig = self@;
        let ghost g0 = *mut_gen;
        let n = self.nodes.len();
        let mut i: usize = 0;
        while i < n
            invariant
                i <= n,
                n as int == orig.len(),
                self@.len() == orig.len(),
                tree_wf(orig),
                self.wf(),
                forall|k: int| i as int <= k < orig.len() ==> #[trigger] self@[k] == orig[k],
                forall|k: int|
                    0 <= k < i as int ==> (#[trigger] self@[k]).parent == orig[k].parent
                        && self@[k].joint == orig[k].joint && self@[k].shape.count_spec()
                        == orig[k].shape.count_spec(),
                forall|k: int, j: int|
                    0 <= k < i as int && 0 <= j < orig[k].shape.count_spec()
                        ==> (#[trigger] self@[k].shape.range_at(j)) == orig[k].shape.range_at(j)
                        && 0 <= self@[k].shape.raw_at(j) <= RAW_ONE as int,
                g0.fixed_offset() == Some(0i64) ==> self@ == orig,
                g0.fixed_offset() matches Some(v) ==> forall|k: int, j: int|
                    0 <= k < i as int && 0 <= j < 9 ==> #[trigger] self@[k].shape.raw_at(j)
                        == clamp_raw(orig[k].shape.raw_at(j) + v as int),
                mut_gen.fixed_offset() == g0.fixed_offset(),
                mut_gen.max_off() == g0.max_off(),
                mut_gen.drawn().len() == g0.drawn().len() + 9 * i as int,
                forall|k: int|
                    0 <= k < g0.drawn().len() ==> #[trigger] mut_gen.drawn()[k] == g0.drawn()[k],
                forall|k: int, j: int|
                    0 <= k < i as int && 0 <= j < 9 ==> #[trigger] self@[k].shape.raw_at(j)
                        == clamp_raw(
                        orig[k].shape.raw_at(j) + mut_gen.drawn()[g0.drawn().len() + 9 * k
                            + j] as int,
                    ),
                forall|k: int|
                    g0.drawn().len() <= k < mut_gen.drawn().len() ==> -g0.max_off()
                        <= #[trigger] mut_gen.drawn()[k] as int <= g0.max_off(),
            decreases n - i,
        {
            let mut nd = self.nodes[i];
            crate::generic_mutation::mutate(&mut nd.shape, mut_gen);
            proof {
                if g0.fixed_offset() == Some(0i64) {
                    crate::body::lemma_shape_eq_from_raws(nd.shape, orig[i as int].shape);
                }
            }
            self.nodes.set(i, nd);
            proof {
                if g0.fixed_offset() == Some(0i64) {
                    assert(self@ =~= orig);
                }
            }
            i += 1;
        }
    }

    /// Applies one random mutation pass: every gene of every segment gets,
    /// with probability `mut_rate` (a fraction of RAW_ONE), a uniform
    /// offset of magnitude at most `mut_max` micro-units, added and
    /// clamped into [0, RAW_ONE] — so each gene moves by a clamped offset
    /// of magnitude at most `mut_max`. Topology, joints, gene counts and
    /// gene ranges never change; a zero rate leaves the tree exactly
    /// unchanged.
    pub fn mutate(&mut self, mut_rate: u32, mut_max: u32, rng: &mut RngSource)
        requires
            old(self).wf(),
            mut_rate <= RAW_ONE,
            mut_max <= RAW_ONE,
        ensures
            final(self).wf(),
            final(self)@.len() == old(self)@.len(),
            forall|i: int|
                0 <= i < old(self)@.len() ==> (#[trigger] final(self)@[i]).parent == old(self)@[i].parent && final(self)@[i].joint == old(self)@[i].joint && final(self)@[i].shape.count_spec() == old(self)@[i].shape.count_spec(),
            forall|i: int, j: int|
                0 <= i < old(self)@.len() && 0 <= j < old(self)@[i].shape.count_spec()
                    ==> (#[trigger] final(self)@[i].shape.range_at(j)) == old(self)@[i].shape.range_at(j) && 0 <= final(self)@[i].shape.raw_at(j) <= RAW_ONE as int,
            forall|i: int, j: int|
                0 <= i < old(self)@.len() && 0 <= j < old(self)@[i].shape.count_spec()
                    ==> #[trigger] moved_within(
                    old(self)@[i].shape.raw_at(j),
                    final(self)@[i].shape.raw_at(j),
                    mut_max as int,
                ),
            mut_rate == 0 ==> final(self)@ == old(self)@,
    {
        let ghost t0 = self@;
        let sub = rng.fork();
        let mut mutator = RandomMutationGen {
            rng: sub,
            rate: mut_rate,
            max: mut_max,
            history: Ghost(Seq::empty()),
        };
        self.actually_mutate(&mut mutator);
        proof {
            assert forall|i: int, j: int|
                0 <= i < t0.len() && 0 <= j < t0[i].shape.count_spec() implies #[trigger] moved_within(
                t0[i].shape.raw_at(j),
                self@[i].shape.raw_at(j),
                mut_max as int,
            ) by {
                let off = mutator.drawn()[9 * i + j] as int;
                assert(self@[i].shape.raw_at(j) == clamp_raw(t0[i].shape.raw_at(j) + off));
                assert(-(mut_max as int) <= off <= mut_max as int);
            }
        }
    }
}

/// Whether `new_raw` is `old_raw` moved by some offset of magnitude at
/// most `bound` and clamped into [0, RAW_ONE].
pub open spec fn moved_within(old_raw: int, new_raw: int, bound: int) -> bool {
    exists|off: int| -bound <= off <= bound && new_raw == #[trigger] clamp_raw(old_raw + off)
}

/// Number of edges on the path from node `i` up to the root.
pub open spec fn node_depth(t: Seq<TreeNode>, i: int) -> int
    decreases i,
{
    if i <= 0 || i >= t.len() {
        0
    } else if (t[i].parent as int) < i {
        1 + node_depth(t, t[i].parent as int)
    } else {
        0
    }
}

/// A node's depth only depends on the prefix of the arena up to the node:
/// growing the arena never changes the depth of an existing node.
pub proof fn lemma_depth_prefix(t1: Seq<TreeNode>, t2: Seq<TreeNode>, i: int)
    requires
        0 <= i < t1.len(),
        t1.len() <= t2.len(),
        forall|k: int| 0 <= k < t1.len() ==> #[trigger] t2[k] == t1[k],
    ensures
        node_depth(t2, i) == node_depth(t1, i),
    decreases i,
{
    if 0 < i && (t1[i].parent as int) < i {
        lemma_depth_prefix(t1, t2, t1[i].parent as int);
    }
}

/// Subtree membership of an existing node is unchanged when the arena
/// grows: the parent chain only runs through earlier nodes.
proof fn lemma_subtree_prefix(t1: Seq<TreeNode>, t2: Seq<TreeNode>, i: int, n: int)
    requires
        0 <= i < t1.len(),
        t1.len() <= t2.len(),
        forall|k: int| 0 <= k < t1.len() ==> #[trigger] t2[k] == t1[k],
    ensures
        in_subtree(t2, i, n) == in_subtree(t1, i, n),
    decreases i,
{
    if i != n && 1 <= i && (t1[i].parent as int) < i {
        lemma_subtree_prefix(t1, t2, t1[i].parent as int, n);
    }
}

/// A node's child list among the first `upto` nodes is unchanged when the
/// arena grows.
proof fn lemma_kids_upto_prefix(t1: Seq<TreeNode>, t2: Seq<TreeNode>, parent: int, upto: int)
    requires
        0 <= upto <= t1.len() <= t2.len(),
        forall|k: int| 0 <= k < t1.len() ==> #[trigger] t2[k] == t1[k],
    ensures
        kids_upto(t2, parent, upto) == kids_upto(t1, parent, upto),
    decreases upto,
{
    if upto > 0 {
        lemma_kids_upto_prefix(t1, t2, parent, upto - 1);
    }
}

/// Nodes in [lo, hi) that are not children of `parent` add nothing to its
/// child list.
proof fn lemma_kids_upto_stable(t: Seq<TreeNode>, parent: int, lo: int, hi: int)
    requires
        0 <= lo <= hi <= t.len(),
        forall|k: int| lo <= k < hi ==> (#[trigger] t[k]).parent as int != parent || k == 0,
    ensures
        kids_upto(t, parent, hi) == kids_upto(t, parent, lo),
    decreases hi,
{
    if hi > lo {
        lemma_kids_upto_stable(t, parent, lo, hi - 1);
    }
}

/// Most children a growth step may give one node (drawn uniformly below
/// this bound).
pub const MAX_CHILDREN: u32 = 3;

/// Thin dimension of a freshly grown stick segment, in micro-units.
pub const STICK_THIN: i64 = 40_000;

/// Long dimension of a freshly grown stick segment, in micro-units.
pub const STICK_LONG: i64 = 700_000;

/// Draws a fresh stick-shaped cuboid: narrow, elongated dimensions and
/// uniformly random raw position and rotation genes.
pub fn random_node(rng: &mut RngSource) -> (s: ShapeDefinition)
    ensures
        s.inv(),
        s.count_spec() == 9,
        s.raw_at(0) == STICK_THIN as int,
        s.raw_at(1) == STICK_LONG as int,
        s.raw_at(2) == STICK_THIN as int,
{
    let px = rng.below(RAW_ONE + 1);
    let py = rng.below(RAW_ONE + 1);
    let pz = rng.below(RAW_ONE + 1);
    let rx = rng.below(RAW_ONE + 1);
    let ry = rng.below(RAW_ONE + 1);
    let rz = rng.below(RAW_ONE + 1);
    crate::body::new_cuboid(
        (STICK_THIN, STICK_LONG, STICK_THIN),
        (px as i64, py as i64, pz as i64),
        (rx as i64, ry as i64, rz as i64),
    )
}

/// Draws the joint kind for a new edge. `Fixed` is the only kind a child
/// edge can carry (`Ground` marks the synthetic root attachment), so every
/// draw yields it.
pub fn random_edge(rng: &mut RngSource) -> (j: Joint)
    ensures
        j == Joint::Fixed,
{
    let _draw: u32 = rng.below(2);
    Joint::Fixed
}

/// Grows random children under `current`: a child count drawn below
/// `MAX_CHILDREN` (so at most `MAX_CHILDREN - 1` direct children are
/// added), each child a fresh fixed-jointed stick recursed into with one
/// less level of remaining depth. Existing nodes are untouched; every new
/// node lies in `current`'s subtree, within `depth` edges below it.
fn recurse(tree: &mut BodyTree, current: NodeIndex, depth: usize, rng: &mut RngSource)
    requires
        old(tree).wf(),
        current < old(tree)@.len(),
    ensures
        final(tree).wf(),
        old(tree)@.len() <= final(tree)@.len(),
        forall|k: int| 0 <= k < old(tree)@.len() ==> #[trigger] final(tree)@[k] == old(tree)@[k],
        forall|k: int|
            old(tree)@.len() <= k < final(tree)@.len() ==> node_depth(final(tree)@, k)
                <= node_depth(final(tree)@, current as int) + depth
                && (#[trigger] final(tree)@[k]).shape.count_spec() == 9
                && in_subtree(final(tree)@, k, current as int)
                && final(tree)@[k].joint == Joint::Fixed
                && final(tree)@[k].shape.raw_at(0) == STICK_THIN as int
                && final(tree)@[k].shape.raw_at(1) == STICK_LONG as int
                && final(tree)@[k].shape.raw_at(2) == STICK_THIN as int,
        kids(final(tree)@, current as int).len() <= kids(old(tree)@, current as int).len() + (
        MAX_CHILDREN - 1) as int,
        depth == 0 ==> final(tree)@ == old(tree)@,
    decreases depth,
{
    let ghost orig = tree@;
    if depth > 0 {
        let child_count = rng.below(MAX_CHILDREN);
        let mut c: u32 = 0;
        while c < child_count
            invariant
                tree.wf(),
                c <= child_count,
                child_count < MAX_CHILDREN,
                depth >= 1,
                orig.len() <= tree@.len(),
                current < orig.len(),
                forall|k: int| 0 <= k < orig.len() ==> #[trigger] tree@[k] == orig[k],
                forall|k: int|
                    orig.len() <= k < tree@.len() ==> node_depth(tree@, k) <= node_depth(
                        tree@,
                        current as int,
                    ) + depth && (#[trigger] tree@[k]).shape.count_spec() == 9
                        && in_subtree(tree@, k, current as int)
                        && tree@[k].joint == Joint::Fixed
                        && tree@[k].shape.raw_at(0) == STICK_THIN as int
                        && tree@[k].shape.raw_at(1) == STICK_LONG as int
                        && tree@[k].shape.raw_at(2) == STICK_THIN as int,
                kids(tree@, current as int).len() == kids(orig, current as int).len() + c as int,
            decreases child_count - c,
        {
            let ghost t1 = tree@;
            let shape = random_node(rng);
            let edge = random_edge(rng);
            let child = tree.add_child(current, shape, edge);
            proof {
                let t2 = tree@;
                lemma_depth_prefix(t1, t2, current as int);
                assert forall|k: int| #![trigger node_depth(t2, k)]
                    orig.len() <= k < t1.len() implies node_depth(t2, k)
                    <= node_depth(t2, current as int) + depth && in_subtree(
                    t2,
                    k,
                    current as int,
                ) by {
                    lemma_depth_prefix(t1, t2, k);
                    lemma_subtree_prefix(t1, t2, k, current as int);
                }
                assert(node_depth(t2, child as int) == 1 + node_depth(t2, current as int));
                assert(in_subtree(t2, current as int, current as int));
                assert(in_subtree(t2, child as int, current as int));
                lemma_kids_upto_prefix(t1, t2, current as int, t1.len() as int);
                assert(kids(t2, current as int) == kids_upto(t2, current as int, t1.len() as int
                ).push(child as int));
            }
            let ghost t2 = tree@;
            recurse(tree, child, depth - 1, rng);
            proof {
                let t3 = tree@;
                lemma_depth_prefix(t2, t3, current as int);
                lemma_depth_prefix(t2, t3, child as int);
                lemma_subtree_prefix(t2, t3, child as int, current as int);
                assert forall|k: int| #![trigger node_depth(t3, k)]
                    orig.len() <= k < t2.len() implies node_depth(t3, k)
                    <= node_depth(t3, current as int) + depth && in_subtree(
                    t3,
                    k,
                    current as int,
                ) by {
                    lemma_depth_prefix(t2, t3, k);
                    lemma_subtree_prefix(t2, t3, k, current as int);
                }
                assert forall|k: int| t2.len() <= k < t3.len() implies in_subtree(
                    t3,
                    k,
                    current as int,
                ) by {
                    lemma_subtree_trans(t3, k, child as int, current as int);
                }
                assert forall|k: int| t2.len() <= k < t3.len() implies (#[trigger] t3[k]).parent
                    as int != current as int by {
                    if t3[k].parent as int == current as int {
                        assert(in_subtree(t3, k, child as int));
                        assert(in_subtree(t3, current as int, child as int));
                        lemma_subtree_bound(t3, current as int, child as int);
                    }
                }
                lemma_kids_upto_stable(t3, current as int, t2.len() as int, t3.len() as int);
                lemma_kids_upto_prefix(t2, t3, current as int, t2.len() as int);
                assert(kids(t3, current as int) == kids(t2, current as int));
                assert forall|k: int| orig.len() <= k < t3.len() implies node_depth(t3, k)
                    <= node_depth(t3, current as int) + depth && (#[trigger] t3[k]).shape.count_spec()
                    == 9 && in_subtree(t3, k, current as int) && t3[k].joint == Joint::Fixed
                    && t3[k].shape.raw_at(0) == STICK_THIN as int && t3[k].shape.raw_at(1)
                    == STICK_LONG as int && t3[k].shape.raw_at(2) == STICK_THIN as int by {
                    if k < t1.len() {
                        assert(t3[k] == t1[k]);
                        assert(node_depth(t3, k) <= node_depth(t3, current as int) + depth);
                        assert(in_subtree(t3, k, current as int));
                        assert(t3[k].joint == Joint::Fixed);
                        assert(t3[k].shape.raw_at(0) == STICK_THIN as int);
                    } else if k == t1.len() {
                        assert(t3[k] == t2[k]);
                        assert(node_depth(t3, k) <= node_depth(t3, current as int) + depth);
                        assert(in_subtree(t3, k, current as int));
                        assert(t3[k].joint == Joint::Fixed);
                        assert(t3[k].shape.raw_at(0) == STICK_THIN as int);
                    } else {
                        assert(node_depth(t3, k) <= node_depth(t3, child as int) + (depth - 1));
                        assert(node_depth(t3, k) <= node_depth(t3, current as int) + depth);
                        assert(in_subtree(t3, k, current as int));
                        assert(t3[k].joint == Joint::Fixed);
                        assert(t3[k].shape.raw_at(0) == STICK_THIN as int);
                    }
                }
            }
            c += 1;
        }
    }
}

/// Grows a randomized body tree: a stick root, then up to `max_depth`
/// levels of randomly many stick children. Every node is a nine-gene
/// stick-dimensioned cuboid and sits at most `max_depth` edges below the
/// root; every stored child edge is a `Fixed` joint (`Ground` only marks
/// the root's synthetic attachment); depth 0 yields exactly the single
/// root node.
pub fn grow_random_tree(max_depth: usize, rng: &mut RngSource) -> (t: BodyTree)
    ensures
        t.wf(),
        forall|k: int|
            0 <= k < t@.len() ==> node_depth(t@, k) <= max_depth && (#[trigger] t@[k]).shape.count_spec() == 9,
        forall|k: int| 1 <= k < t@.len() ==> (#[trigger] t@[k]).joint == Joint::Fixed,
        forall|k: int|
            0 <= k < t@.len() ==> (#[trigger] t@[k]).shape.raw_at(0) == STICK_THIN as int
                && t@[k].shape.raw_at(1) == STICK_LONG as int && t@[k].shape.raw_at(2)
                == STICK_THIN as int,
        max_depth == 0 ==> t@.len() == 1,
{
    let root = random_node(rng);
    let mut tree = BodyTree::with_root(root);
    let r = tree.root();
    recurse(&mut tree, r, max_depth, rng);
    tree
}

/// The realisation plan of the subtree rooted at `n`, laid out from
/// absolute position `pos`: the node itself (linked to the entry at
/// `ppos`) followed by the plans of its children in insertion order. The
/// fuel only serves termination; any fuel of at least the subtree height
/// plus one yields the same plan.
pub open spec fn plan_node(t: Seq<TreeNode>, n: int, pos: int, ppos: int, fuel: nat) -> Seq<
    (int, int),
>
    decreases fuel, 0nat, 0nat,
{
    if fuel == 0 {
        Seq::empty()
    } else {
        seq![(n, ppos)] + plan_forest(t, kids(t, n), pos + 1, pos, (fuel - 1) as nat)
    }
}

/// The realisation plans of the subtrees rooted at the nodes of `cs`, laid
/// out one after another from absolute position `pos`, each subtree root
/// linked to the entry at `ppos`.
pub open spec fn plan_forest(
    t: Seq<TreeNode>,
    cs: Seq<int>,
    pos: int,
    ppos: int,
    fuel: nat,
) -> Seq<(int, int)>
    decreases fuel, 1nat, cs.len(),
{
    if cs.len() == 0 {
        Seq::empty()
    } else {
        let first = plan_node(t, cs[0], pos, ppos, fuel);
        first + plan_forest(t, cs.drop_first(), pos + first.len(), ppos, fuel)
    }
}

/// The realisation plan of a whole tree: a pre-order traversal, children
/// in insertion order, each entry giving the node and the plan position of
/// its parent's entry (the root points at position 0, itself).
pub open spec fn plan_of(t: Seq<TreeNode>) -> Seq<(int, int)> {
    plan_node(t, 0, 0, 0, t.len() as nat)
}

/// The plan of a subtree does not depend on the fuel, once the fuel is at
/// least the number of nodes from the subtree root to the arena's end.
proof fn lemma_plan_node_fuel(t: Seq<TreeNode>, n: int, pos: int, ppos: int, f1: nat, f2: nat)
    requires
        tree_wf(t),
        0 <= n < t.len(),
        f1 >= t.len() - n,
        f2 >= t.len() - n,
    ensures
        plan_node(t, n, pos, ppos, f1) == plan_node(t, n, pos, ppos, f2),
    decreases f1, 0nat, 0nat,
{
    lemma_kids(t, n);
    lemma_plan_forest_fuel(
        t,
        kids(t, n),
        pos + 1,
        pos,
        (f1 - 1) as nat,
        (f2 - 1) as nat,
        n,
    );
}

/// Fuel irrelevance for forests whose roots all lie strictly above `lo`.
proof fn lemma_plan_forest_fuel(
    t: Seq<TreeNode>,
    cs: Seq<int>,
    pos: int,
    ppos: int,
    f1: nat,
    f2: nat,
    lo: int,
)
    requires
        tree_wf(t),
        0 <= lo,
        forall|k: int| 0 <= k < cs.len() ==> lo < #[trigger] cs[k] < t.len(),
        f1 >= t.len() - lo - 1,
        f2 >= t.len() - lo - 1,
    ensures
        plan_forest(t, cs, pos, ppos, f1) == plan_forest(t, cs, pos, ppos, f2),
    decreases f1, 1nat, cs.len(),
{
    if cs.len() > 0 {
        assert(lo < cs[0] < t.len());
        lemma_plan_node_fuel(t, cs[0], pos, ppos, f1, f2);
        let first = plan_node(t, cs[0], pos, ppos, f1);
        lemma_plan_forest_fuel(t, cs.drop_first(), pos + first.len(), ppos, f1, f2, lo);
    }
}

/// Appending one subtree root to a forest appends its plan after the
/// forest's plan.
proof fn lemma_plan_forest_snoc(
    t: Seq<TreeNode>,
    cs: Seq<int>,
    c: int,
    pos: int,
    ppos: int,
    fuel: nat,
)
    ensures
        plan_forest(t, cs.push(c), pos, ppos, fuel) == plan_forest(t, cs, pos, ppos, fuel)
            + plan_node(
            t,
            c,
            pos + plan_forest(t, cs, pos, ppos, fuel).len(),
            ppos,
            fuel,
        ),
    decreases cs.len(),
{
    let snoc = cs.push(c);
    if cs.len() == 0 {
        assert(snoc.len() == 1);
        assert(snoc[0] == c);
        assert(snoc.drop_first() =~= Seq::<int>::empty());
        let first = plan_node(t, c, pos, ppos, fuel);
        assert(plan_forest(t, snoc, pos, ppos, fuel) == first + plan_forest(
            t,
            snoc.drop_first(),
            pos + first.len(),
            ppos,
            fuel,
        ));
        assert(plan_forest(t, snoc.drop_first(), pos + first.len(), ppos, fuel)
            =~= Seq::<(int, int)>::empty());
        assert(plan_forest(t, snoc, pos, ppos, fuel) =~= plan_node(t, c, pos, ppos, fuel));
        assert(plan_forest(t, cs, pos, ppos, fuel) =~= Seq::<(int, int)>::empty());
        assert(plan_forest(t, cs.push(c), pos, ppos, fuel) =~= plan_forest(t, cs, pos, ppos, fuel)
            + plan_node(t, c, pos + plan_forest(t, cs, pos, ppos, fuel).len(), ppos, fuel));
    } else {
        assert(snoc[0] == cs[0]);
        assert(snoc.drop_first() =~= cs.drop_first().push(c));
        let first = plan_node(t, cs[0], pos, ppos, fuel);
        lemma_plan_forest_snoc(t, cs.drop_first(), c, pos + first.len(), ppos, fuel);
        assert(plan_forest(t, cs.push(c), pos, ppos, fuel) =~= plan_forest(t, cs, pos, ppos, fuel)
            + plan_node(t, c, pos + plan_forest(t, cs, pos, ppos, fuel).len(), ppos, fuel));
    }
}

/// Structural well-formedness of a plan segment laid out from absolute
/// position `pos`: every entry names a node of the arena, and every entry
/// after the first links backwards, within the segment, to the entry of
/// its node's parent.
pub open spec fn plan_seg_wf(t: Seq<TreeNode>, r: Seq<(int, int)>, pos: int) -> bool {
    &&& forall|k: int| 0 <= k < r.len() ==> 0 <= (#[trigger] r[k]).0 < t.len()
    &&& forall|k: int|
        1 <= k < r.len() ==> pos <= (#[trigger] r[k]).1 < pos + k && r[r[k].1 - pos].0 == t[
            r[k].0
        ].parent as int
}

/// Structural well-formedness of a forest's plan segment: every entry
/// names a node; each entry links either to the common parent entry at
/// `ppos` (and then its node's parent is `pn`), or backwards within the
/// segment to the entry of its node's parent.
spec fn forest_seg_wf(t: Seq<TreeNode>, r: Seq<(int, int)>, pos: int, ppos: int, pn: int) -> bool {
    &&& forall|k: int| 0 <= k < r.len() ==> 0 <= (#[trigger] r[k]).0 < t.len()
    &&& forall|k: int|
        0 <= k < r.len() ==> ((#[trigger] r[k]).1 == ppos && t[r[k].0].parent as int == pn) || (pos
            <= r[k].1 < pos + k && r[r[k].1 - pos].0 == t[r[k].0].parent as int)
}

proof fn lemma_plan_node_wf(t: Seq<TreeNode>, n: int, pos: int, ppos: int, fuel: nat)
    requires
        tree_wf(t),
        0 <= n < t.len(),
        fuel >= t.len() - n,
    ensures
        plan_node(t, n, pos, ppos, fuel).len() >= 1,
        plan_node(t, n, pos, ppos, fuel)[0] == (n, ppos),
        plan_seg_wf(t, plan_node(t, n, pos, ppos, fuel), pos),
    decreases fuel, 0nat, 0nat,
{
    lemma_kids(t, n);
    let cs = kids(t, n);
    lemma_plan_forest_wf(t, cs, pos + 1, pos, n, n, (fuel - 1) as nat);
    let f = plan_forest(t, cs, pos + 1, pos, (fuel - 1) as nat);
    let r = plan_node(t, n, pos, ppos, fuel);
    assert(r == seq![(n, ppos)] + f);
    assert forall|k: int| 1 <= k < r.len() implies pos <= (#[trigger] r[k]).1 < pos + k && r[
        r[k].1 - pos
    ].0 == t[r[k].0].parent as int by {
        let k2 = k - 1;
        assert(r[k] == f[k2]);
        if f[k2].1 == pos {
            assert(r[r[k].1 - pos] == r[0]);
        } else {
            assert(pos + 1 <= f[k2].1 < pos + 1 + k2);
            assert(r[f[k2].1 - pos] == f[f[k2].1 - pos - 1]);
        }
    }
}

proof fn lemma_plan_forest_wf(
    t: Seq<TreeNode>,
    cs: Seq<int>,
    pos: int,
    ppos: int,
    pn: int,
    lo: int,
    fuel: nat,
)
    requires
        tree_wf(t),
        0 <= lo,
        ppos < pos,
        forall|k: int|
            0 <= k < cs.len() ==> lo < #[trigger] cs[k] < t.len() && t[cs[k]].parent as int == pn,
        fuel >= t.len() - lo - 1,
    ensures
        forest_seg_wf(t, plan_forest(t, cs, pos, ppos, fuel), pos, ppos, pn),
    decreases fuel, 1nat, cs.len(),
{
    if cs.len() > 0 {
        assert(lo < cs[0] < t.len() && t[cs[0]].parent as int == pn);
        lemma_plan_node_wf(t, cs[0], pos, ppos, fuel);
        let first = plan_node(t, cs[0], pos, ppos, fuel);
        let pos2 = pos + first.len();
        lemma_plan_forest_wf(t, cs.drop_first(), pos2, ppos, pn, lo, fuel);
        let rest = plan_forest(t, cs.drop_first(), pos2, ppos, fuel);
        let r = plan_forest(t, cs, pos, ppos, fuel);
        assert(r == first + rest);
        assert forall|k: int| 0 <= k < r.len() implies ((#[trigger] r[k]).1 == ppos && t[
            r[k].0
        ].parent as int == pn) || (pos <= r[k].1 < pos + k && r[r[k].1 - pos].0 == t[
            r[k].0
        ].parent as int) by {
            if k < first.len() {
                assert(r[k] == first[k]);
                if k == 0 {
                    assert(first[0] == (cs[0], ppos));
                } else {
                    assert(pos <= first[k].1 < pos + k);
                    assert(r[first[k].1 - pos] == first[first[k].1 - pos]);
                }
            } else {
                let k2 = k - first.len();
                assert(r[k] == rest[k2]);
                if rest[k2].1 != ppos {
                    assert(pos2 <= rest[k2].1 < pos2 + k2);
                    assert(r[rest[k2].1 - pos] == rest[rest[k2].1 - pos2]);
                }
            }
        }
        assert forall|k: int| 0 <= k < r.len() implies 0 <= (#[trigger] r[k]).0 < t.len() by {
            if k < first.len() {
                assert(r[k] == first[k]);
            } else {
                assert(r[k] == rest[k - first.len()]);
            }
        }
    }
}

/// The plan of a well-formed tree starts with the root's entry, pointing
/// at itself, and every later entry links backwards to the entry of its
/// node's parent.
pub proof fn lemma_plan_wf(t: Seq<TreeNode>)
    requires
        tree_wf(t),
    ensures
        plan_of(t).len() >= 1,
        plan_of(t)[0] == (0int, 0int),
        plan_seg_wf(t, plan_of(t), 0),
{
    lemma_plan_node_wf(t, 0, 0, 0, t.len() as nat);
}

/// Whether node `i` lies in the subtree rooted at `n`: the parent chain
/// from `i` passes through `n`.
pub open spec fn in_subtree(t: Seq<TreeNode>, i: int, n: int) -> bool
    decreases i,
{
    if i < 0 || i >= t.len() {
        false
    } else if i == n {
        true
    } else if 1 <= i && (t[i].parent as int) < i {
        in_subtree(t, t[i].parent as int, n)
    } else {
        false
    }
}

/// A subtree root never exceeds its members.
proof fn lemma_subtree_bound(t: Seq<TreeNode>, i: int, n: int)
    requires
        in_subtree(t, i, n),
    ensures
        0 <= n <= i < t.len(),
    decreases i,
{
    if i != n {
        lemma_subtree_bound(t, t[i].parent as int, n);
    }
}

/// Subtree membership runs along the parent chain.
proof fn lemma_subtree_trans(t: Seq<TreeNode>, i: int, m: int, n: int)
    requires
        in_subtree(t, i, m),
        in_subtree(t, m, n),
    ensures
        in_subtree(t, i, n),
    decreases i,
{
    if i != m {
        lemma_subtree_trans(t, t[i].parent as int, m, n);
    }
}

/// A strict member of a subtree lies in the subtree of one of the root's
/// children.
proof fn lemma_subtree_step(t: Seq<TreeNode>, i: int, n: int)
    requires
        in_subtree(t, i, n),
        i != n,
    ensures
        exists|c: int|
            1 <= c < t.len() && (#[trigger] t[c].parent) as int == n && in_subtree(t, i, c),
    decreases i,
{
    let p = t[i].parent as int;
    if p == n {
        assert(t[i].parent as int == n && in_subtree(t, i, i));
    } else {
        lemma_subtree_step(t, p, n);
        let c = choose|c: int|
            1 <= c < t.len() && (#[trigger] t[c].parent) as int == n && in_subtree(t, p, c);
        assert(in_subtree(t, i, c));
    }
}

/// Subtrees of two distinct siblings are disjoint.
proof fn lemma_sibling_disjoint(t: Seq<TreeNode>, i: int, c1: int, c2: int)
    requires
        1 <= c1 < t.len(),
        1 <= c2 < t.len(),
        c1 != c2,
        t[c1].parent == t[c2].parent,
        (t[c1].parent as int) < c1,
        (t[c2].parent as int) < c2,
        in_subtree(t, i, c1),
    ensures
        !in_subtree(t, i, c2),
    decreases i,
{
    if i == c1 {
        if in_subtree(t, c1, c2) {
            assert(in_subtree(t, t[c1].parent as int, c2));
            lemma_subtree_bound(t, t[c1].parent as int, c2);
        }
    } else if i == c2 {
        if in_subtree(t, c2, c1) {
            assert(in_subtree(t, t[c2].parent as int, c1));
            lemma_subtree_bound(t, t[c2].parent as int, c1);
        }
        assert(in_subtree(t, t[i].parent as int, c1));
        assert(false);
    } else {
        lemma_sibling_disjoint(t, t[i].parent as int, c1, c2);
    }
}

/// Every node of a well-formed tree lies in the root's subtree.
proof fn lemma_all_in_root(t: Seq<TreeNode>, i: int)
    requires
        tree_wf(t),
        0 <= i < t.len(),
    ensures
        in_subtree(t, i, 0),
    decreases i,
{
    if i != 0 {
        lemma_all_in_root(t, t[i].parent as int);
    }
}

proof fn lemma_plan_node_nodes(t: Seq<TreeNode>, n: int, pos: int, ppos: int, fuel: nat)
    requires
        tree_wf(t),
        0 <= n < t.len(),
        fuel >= t.len() - n,
    ensures
        forall|k: int|
            0 <= k < plan_node(t, n, pos, ppos, fuel).len() ==> in_subtree(
                t,
                (#[trigger] plan_node(t, n, pos, ppos, fuel)[k]).0,
                n,
            ),
        forall|i: int|
            #[trigger] in_subtree(t, i, n) ==> exists|k: int|
                0 <= k < plan_node(t, n, pos, ppos, fuel).len() && (#[trigger] plan_node(
                    t,
                    n,
                    pos,
                    ppos,
                    fuel,
                )[k]).0 == i,
        forall|k1: int, k2: int|
            0 <= k1 < k2 < plan_node(t, n, pos, ppos, fuel).len() ==> (#[trigger] plan_node(
                t,
                n,
                pos,
                ppos,
                fuel,
            )[k1]).0 != (#[trigger] plan_node(t, n, pos, ppos, fuel)[k2]).0,
    decreases fuel, 0nat, 0nat,
{
    let r = plan_node(t, n, pos, ppos, fuel);
    lemma_kids(t, n);
    let cs = kids(t, n);
    lemma_plan_forest_nodes(t, cs, pos + 1, pos, n, n, (fuel - 1) as nat);
    let f = plan_forest(t, cs, pos + 1, pos, (fuel - 1) as nat);
    assert(r == seq![(n, ppos)] + f);
    assert forall|k: int| 0 <= k < r.len() implies in_subtree(t, (#[trigger] r[k]).0, n) by {
        if k == 0 {
            assert(in_subtree(t, n, n));
        } else {
            assert(r[k] == f[k - 1]);
            assert(covered_by(t, f[k - 1].0, cs));
            let j = choose|j: int|
                0 <= j < cs.len() && #[trigger] in_subtree(t, f[k - 1].0, cs[j]);
            let c = cs[j];
            assert(1 <= c < t.len() && t[c].parent as int == n);
            assert((t[c].parent as int) < c);
            assert(in_subtree(t, n, n));
            assert(in_subtree(t, c, n));
            lemma_subtree_trans(t, f[k - 1].0, c, n);
        }
    }
    assert forall|i: int| #[trigger] in_subtree(t, i, n) implies exists|k: int|
        0 <= k < r.len() && (#[trigger] r[k]).0 == i by {
        if i == n {
            assert(r[0].0 == i);
        } else {
            lemma_subtree_step(t, i, n);
            let c = choose|c: int|
                1 <= c < t.len() && (#[trigger] t[c].parent) as int == n && in_subtree(t, i, c);
            assert(cs.contains(c));
            let j = choose|j: int| 0 <= j < cs.len() && cs[j] == c;
            assert(in_subtree(t, i, cs[j]));
            let k = choose|k: int| 0 <= k < f.len() && (#[trigger] f[k]).0 == i;
            assert(r[k + 1].0 == i);
        }
    }
    assert forall|k1: int, k2: int| 0 <= k1 < k2 < r.len() implies (#[trigger] r[k1]).0 != (
    #[trigger] r[k2]).0 by {
        if k1 == 0 {
            assert(r[k2] == f[k2 - 1]);
            assert(covered_by(t, f[k2 - 1].0, cs));
            let j = choose|j: int|
                0 <= j < cs.len() && #[trigger] in_subtree(t, f[k2 - 1].0, cs[j]);
            if f[k2 - 1].0 == n {
                lemma_subtree_bound(t, n, cs[j]);
            }
        } else {
            assert(r[k1] == f[k1 - 1]);
            assert(r[k2] == f[k2 - 1]);
        }
    }
}

/// Node `x` lies in the subtree of one of the roots in `cs`.
spec fn covered_by(t: Seq<TreeNode>, x: int, cs: Seq<int>) -> bool {
    exists|j: int| 0 <= j < cs.len() && #[trigger] in_subtree(t, x, cs[j])
}

proof fn lemma_plan_forest_nodes(
    t: Seq<TreeNode>,
    cs: Seq<int>,
    pos: int,
    ppos: int,
    pn: int,
    lo: int,
    fuel: nat,
)
    requires
        tree_wf(t),
        0 <= lo,
        forall|j: int|
            0 <= j < cs.len() ==> lo < #[trigger] cs[j] < t.len() && t[cs[j]].parent as int == pn
                && 1 <= cs[j],
        forall|j1: int, j2: int| 0 <= j1 < j2 < cs.len() ==> cs[j1] != cs[j2],
        fuel >= t.len() - lo - 1,
    ensures
        forall|k: int|
            0 <= k < plan_forest(t, cs, pos, ppos, fuel).len() ==> covered_by(
                t,
                (#[trigger] plan_forest(t, cs, pos, ppos, fuel)[k]).0,
                cs,
            ),
        forall|j: int, i: int|
            0 <= j < cs.len() && #[trigger] in_subtree(t, i, cs[j]) ==> exists|k: int|
                0 <= k < plan_forest(t, cs, pos, ppos, fuel).len() && (#[trigger] plan_forest(
                    t,
                    cs,
                    pos,
                    ppos,
                    fuel,
                )[k]).0 == i,
        forall|k1: int, k2: int|
            0 <= k1 < k2 < plan_forest(t, cs, pos, ppos, fuel).len() ==> (#[trigger] plan_forest(
                t,
                cs,
                pos,
                ppos,
                fuel,
            )[k1]).0 != (#[trigger] plan_forest(t, cs, pos, ppos, fuel)[k2]).0,
    decreases fuel, 1nat, cs.len(),
{
    if cs.len() > 0 {
        let r = plan_forest(t, cs, pos, ppos, fuel);
        let c0 = cs[0];
        assert(lo < c0 < t.len());
        lemma_plan_node_nodes(t, c0, pos, ppos, fuel);
        let first = plan_node(t, c0, pos, ppos, fuel);
        let pos2 = pos + first.len();
        let rest_cs = cs.drop_first();
        lemma_plan_forest_nodes(t, rest_cs, pos2, ppos, pn, lo, fuel);
        let rest = plan_forest(t, rest_cs, pos2, ppos, fuel);
        assert(r == first + rest);
        assert forall|k: int| 0 <= k < r.len() implies covered_by(
            t,
            (#[trigger] r[k]).0,
            cs,
        ) by {
            if k < first.len() {
                assert(r[k] == first[k]);
                assert(in_subtree(t, first[k].0, c0));
                assert(in_subtree(t, (r[k]).0, cs[0]));
            } else {
                assert(r[k] == rest[k - first.len()]);
                assert(covered_by(t, rest[k - first.len()].0, rest_cs));
                let j = choose|j: int|
                    0 <= j < rest_cs.len() && #[trigger] in_subtree(
                        t,
                        rest[k - first.len()].0,
                        rest_cs[j],
                    );
                assert(cs[j + 1] == rest_cs[j]);
                assert(in_subtree(t, (r[k]).0, cs[j + 1]));
            }
        }
        assert forall|j: int, i: int|
            0 <= j < cs.len() && #[trigger] in_subtree(t, i, cs[j]) implies exists|k: int|
            0 <= k < r.len() && (#[trigger] r[k]).0 == i by {
            if j == 0 {
                let k = choose|k: int| 0 <= k < first.len() && (#[trigger] first[k]).0 == i;
                assert(r[k].0 == i);
            } else {
                assert(rest_cs[j - 1] == cs[j]);
                assert(in_subtree(t, i, rest_cs[j - 1]));
                let k = choose|k: int| 0 <= k < rest.len() && (#[trigger] rest[k]).0 == i;
                assert(r[first.len() + k].0 == i);
            }
        }
        assert forall|k1: int, k2: int| 0 <= k1 < k2 < r.len() implies (#[trigger] r[k1]).0 != (
        #[trigger] r[k2]).0 by {
            if k2 < first.len() {
                assert(r[k1] == first[k1] && r[k2] == first[k2]);
            } else if k1 >= first.len() {
                assert(r[k1] == rest[k1 - first.len()] && r[k2] == rest[k2 - first.len()]);
            } else {
                assert(r[k1] == first[k1] && r[k2] == rest[k2 - first.len()]);
                assert(in_subtree(t, first[k1].0, c0));
                assert(covered_by(t, rest[k2 - first.len()].0, rest_cs));
                let j = choose|j: int|
                    0 <= j < rest_cs.len() && #[trigger] in_subtree(
                        t,
                        rest[k2 - first.len()].0,
                        rest_cs[j],
                    );
                let c2 = rest_cs[j];
                assert(cs[j + 1] == c2);
                assert(c0 != c2);
                lemma_sibling_disjoint(t, first[k1].0, c0, c2);
            }
        }
    }
}

/// Node `i` has an entry somewhere in the plan segment `p`.
pub open spec fn appears(p: Seq<(int, int)>, i: int) -> bool {
    exists|k: int| 0 <= k < p.len() && (#[trigger] p[k]).0 == i
}

/// A well-formed tree's realisation plan names every node exactly once:
/// each node appears, and no two entries name the same node. Through
/// `realise`, a consumer therefore answers exactly one `new_shape` call
/// per node.
pub proof fn lemma_plan_exactly_once(t: Seq<TreeNode>)
    requires
        tree_wf(t),
    ensures
        forall|i: int| 0 <= i < t.len() ==> #[trigger] appears(plan_of(t), i),
        forall|k1: int, k2: int|
            0 <= k1 < k2 < plan_of(t).len() ==> (#[trigger] plan_of(t)[k1]).0 != (
            #[trigger] plan_of(t)[k2]).0,
{
    lemma_plan_node_nodes(t, 0, 0, 0, t.len() as nat);
    assert forall|i: int| 0 <= i < t.len() implies #[trigger] appears(plan_of(t), i) by {
        lemma_all_in_root(t, i);
        assert(in_subtree(t, i, 0));
        let k = choose|k: int|
            0 <= k < plan_of(t).len() && (#[trigger] plan_node(t, 0, 0, 0, t.len() as nat)[k]).0
                == i;
        assert((plan_of(t)[k]).0 == i);
    }
}

/// One step of a realisation traversal: the node to hand over, and the
/// position, among the earlier steps, of its parent's step. The first
/// step is the root and carries position 0.
#[derive(Clone, Copy)]
pub struct PlanStep {
    pub node: NodeIndex,
    pub parent_pos: usize,
}

/// The mathematical reading of a sequence of plan steps.
pub open spec fn steps_view(s: Seq<PlanStep>) -> Seq<(int, int)> {
    s.map_values(|st: PlanStep| (st.node as int, st.parent_pos as int))
}

impl BodyTree {
    /// Appends the realisation plan of the subtree rooted at `n` to
    /// `plan`, with every subtree entry linking back to position `ppos`.
    fn plan_rec(&self, n: NodeIndex, ppos: usize, plan: &mut Vec<PlanStep>)
        requires
            self.wf(),
            n < self@.len(),
        ensures
            steps_view(final(plan)@) == steps_view(old(plan)@) + plan_node(
                self@,
                n as int,
                old(plan)@.len() as int,
                ppos as int,
                (self@.len() - n) as nat,
            ),
        decreases self@.len() - n,
    {
        let ghost t = self@;
        let ghost base = steps_view(plan@);
        let ghost fuel = (t.len() - n) as nat;
        let ghost fm1 = (t.len() - n - 1) as nat;
        let my_pos = plan.len();
        plan.push(PlanStep { node: n, parent_pos: ppos });
        proof {
            assert(steps_view(plan@) =~= base.push((n as int, ppos as int)));
            lemma_kids(t, n as int);
            assert(kids(t, n as int).take(0) =~= Seq::<int>::empty());
        }
        let children = self.get_children(n);
        let ghost cs = kids(t, n as int);
        let mut j: usize = 0;
        while j < children.len()
            invariant
                self.wf(),
                t == self@,
                n < t.len(),
                cs == kids(t, n as int),
                children@.len() == cs.len(),
                forall|k: int|
                    0 <= k < cs.len() ==> (#[trigger] children@[k]).0 as int == cs[k],
                forall|k: int| 0 <= k < cs.len() ==> n < #[trigger] cs[k] < t.len(),
                j <= children.len(),
                my_pos as int == base.len(),
                fm1 == (t.len() - n - 1) as nat,
                steps_view(plan@) == base + seq![(n as int, ppos as int)] + plan_forest(
                    t,
                    cs.take(j as int),
                    my_pos + 1,
                    my_pos as int,
                    fm1,
                ),
            decreases children.len() - j,
        {
            let (c, _joint) = children[j];
            proof {
                assert(cs[j as int] == c as int);
                assert((n as int) < c as int && (c as int) < t.len());
                let done = plan_forest(t, cs.take(j as int), my_pos + 1, my_pos as int, fm1);
                lemma_plan_forest_snoc(
                    t,
                    cs.take(j as int),
                    c as int,
                    my_pos + 1,
                    my_pos as int,
                    fm1,
                );
                assert(cs.take(j + 1) =~= cs.take(j as int).push(c as int));
                lemma_plan_node_fuel(
                    t,
                    c as int,
                    my_pos + 1 + done.len(),
                    my_pos as int,
                    fm1,
                    (t.len() - c) as nat,
                );
                assert(steps_view(plan@).len() == my_pos + 1 + done.len());
            }
            self.plan_rec(c, my_pos, plan);
            j += 1;
        }
        proof {
            assert(cs.take(cs.len() as int) =~= cs);
        }
    }

    /// Computes the realisation plan of the whole tree: the pre-order
    /// traversal, children in insertion order, each step naming the
    /// position of its parent's step among the earlier ones.
    fn build_plan(&self) -> (plan: Vec<PlanStep>)
        requires
            self.wf(),
        ensures
            steps_view(plan@) == plan_of(self@),
    {
        let mut plan: Vec<PlanStep> = Vec::new();
        proof {
            assert(steps_view(plan@) =~= Seq::<(int, int)>::empty());
        }
        self.plan_rec(0, 0, &mut plan);
        proof {
            assert(steps_view(plan@) =~= plan_of(self@));
        }
        plan
    }
}

/// One recorded interaction with a realiser: the segment and joint handed
/// to `new_shape`, the abstract identity of the handle it returned, and of
/// the parent handle it was given.
pub struct RealiseCall {
    pub shape: ShapeDefinition,
    pub joint: Joint,
    pub id: int,
    pub parent: int,
}

/// The realisation protocol: a consumer turns a body tree into its own
/// domain objects. The tree walks itself top-down and hands every segment,
/// with the handle of its already-realised parent and the joint of its
/// incoming edge, to `new_shape`; the returned handle is threaded to the
/// node's children. The consumer's interaction log and the abstract
/// identity of its handles exist only in specifications.
pub trait TreeRealiser: Sized {
    type RealisedHandle;

    /// The abstract identity of a handle.
    spec fn handle_id(h: &Self::RealisedHandle) -> int;

    /// Every call this realiser has answered, oldest first.
    spec fn log(&self) -> Seq<RealiseCall>;

    /// Realises one segment, attached to `parent` by `parent_joint`, and
    /// returns its handle; the call is appended to the log.
    fn new_shape(
        &mut self,
        shape_def: &ShapeDefinition,
        parent: &Self::RealisedHandle,
        parent_joint: &Joint,
    ) -> (h: Self::RealisedHandle)
        ensures
            final(self).log() == old(self).log().push(
                (RealiseCall {
                    shape: *shape_def,
                    joint: *parent_joint,
                    id: Self::handle_id(&h),
                    parent: Self::handle_id(parent),
                }),
            ),
    ;

    /// The synthetic root attachment: a handle standing for "no parent",
    /// and the joint of the root.
    fn root(&self) -> (r: (Self::RealisedHandle, Joint));
}

/// What one full realisation of a well-formed tree looks like in a
/// consumer's log: one call per plan entry, in plan order; each call hands
/// over the planned node's segment; the first call is the root, attached
/// to the synthetic handle by the synthetic joint; every later call hands
/// over the node's incoming joint and the very handle returned by its
/// parent's call.
pub open spec fn matches_plan(
    t: Seq<TreeNode>,
    ext: Seq<RealiseCall>,
    root_id: int,
    root_joint: Joint,
) -> bool {
    let p = plan_of(t);
    &&& ext.len() == p.len()
    &&& forall|k: int| 0 <= k < p.len() ==> (#[trigger] ext[k]).shape == t[p[k].0].shape
    &&& (1 <= ext.len() ==> ext[0].parent == root_id && ext[0].joint == root_joint)
    &&& forall|k: int|
        1 <= k < p.len() ==> (#[trigger] ext[k]).joint == t[p[k].0].joint && ext[k].parent == ext[
            p[k].1
        ].id
}

/// The per-entry content of a full realisation log `ext` against plan `p`
/// of tree `t`: entry `i` hands over the planned segment; the first entry
/// is attached to the synthetic root handle `rid` by joint `rj`; every
/// later entry carries its node's incoming joint and the handle id
/// returned by its parent's entry.
pub open spec fn realise_entry_ok(
    t: Seq<TreeNode>,
    p: Seq<(int, int)>,
    ext: Seq<RealiseCall>,
    i: int,
    rid: int,
    rj: Joint,
) -> bool {
    &&& ext[i].shape == t[p[i].0].shape
    &&& (i == 0 ==> ext[0].parent == rid && ext[0].joint == rj)
    &&& (i >= 1 ==> ext[i].joint == t[p[i].0].joint && ext[i].parent == ext[p[i].1].id)
}

impl BodyTree {
    /// Performs the realisation traversal: obtains the synthetic root
    /// attachment from the realiser, then hands every node to
    /// `new_shape`, pre-order, children in insertion order, each node
    /// strictly after its parent and with its parent's fresh handle. The
    /// realiser's log grows by exactly one matching record per node.
    pub fn realise<R: TreeRealiser>(&self, realiser: &mut R)
        requires
            self.wf(),
        ensures
            old(realiser).log().is_prefix_of(final(realiser).log()),
            exists|rid: int, rj: Joint|
                #[trigger] matches_plan(
                    self@,
                    final(realiser).log().skip(old(realiser).log().len() as int),
                    rid,
                    rj,
                ),
    {
        let ghost t = self@;
        let ghost p = plan_of(t);
        proof {
            lemma_plan_wf(t);
        }
        let plan = self.build_plan();
        let (root_h, root_j) = realiser.root();
        let ghost base = realiser.log();
        let ghost rid = R::handle_id(&root_h);
        let ghost mut ext = Seq::<RealiseCall>::empty();
        proof {
            assert(realiser.log() =~= base + ext);
        }
        let mut handles: Vec<R::RealisedHandle> = Vec::new();
        let n = plan.len();
        let mut k: usize = 0;
        while k < n
            invariant
                self.wf(),
                t == self@,
                p == plan_of(t),
                steps_view(plan@) == p,
                n == plan@.len(),
                n == p.len(),
                plan_seg_wf(t, p, 0),
                k <= n,
                handles@.len() == k as int,
                ext.len() == k as int,
                realiser.log() == base + ext,
                rid == R::handle_id(&root_h),
                forall|i: int|
                    0 <= i < k as int ==> (#[trigger] ext[i]).id == R::handle_id(&handles@[i]),
                forall|i: int|
                    0 <= i < k as int ==> realise_entry_ok(t, p, ext, i, rid, root_j),
            decreases n - k,
        {
            let step = plan[k];
            proof {
                assert(steps_view(plan@)[k as int] == (step.node as int, step.parent_pos as int));
                assert(p[k as int].0 == step.node as int);
                assert(p[k as int].1 == step.parent_pos as int);
                assert(0 <= p[k as int].0 < t.len());
                if k >= 1 {
                    assert(0 <= p[k as int].1 < k as int);
                }
            }
            let h = if k == 0 {
                realiser.new_shape(self.shape_of(step.node), &root_h, &root_j)
            } else {
                let pj = self.joint_of(step.node);
                realiser.new_shape(self.shape_of(step.node), &handles[step.parent_pos], &pj)
            };
            proof {
                let call = realiser.log().last();
                assert(realiser.log() == (base + ext).push(call));
                assert(realiser.log() =~= base + ext.push(call));
                let ext2 = ext.push(call);
                assert(call.shape == t[p[k as int].0].shape);
                assert(call.id == R::handle_id(&h));
                if k >= 1 {
                    assert(call.parent == R::handle_id(&handles@[p[k as int].1]));
                    assert(ext2[p[k as int].1] == ext[p[k as int].1]);
                    assert(call.parent == ext2[p[k as int].1].id);
                }
                assert(realise_entry_ok(t, p, ext2, k as int, rid, root_j));
                assert forall|i: int| 0 <= i < k as int implies realise_entry_ok(
                    t,
                    p,
                    ext2,
                    i,
                    rid,
                    root_j,
                ) by {
                    assert(realise_entry_ok(t, p, ext, i, rid, root_j));
                    assert(ext2[i] == ext[i]);
                    if i >= 1 {
                        assert(ext2[p[i].1] == ext[p[i].1]);
                    }
                }
                ext = ext2;
            }
            handles.push(h);
            k += 1;
        }
        proof {
            assert(base.is_prefix_of(base + ext));
            assert((base + ext).skip(base.len() as int) =~= ext);
            lemma_entries_to_matches(t, p, ext, rid, root_j);
        }
    }
}

/// A log whose entries each satisfy `realise_entry_ok` against a tree's
/// whole plan matches that plan.
proof fn lemma_entries_to_matches(
    t: Seq<TreeNode>,
    p: Seq<(int, int)>,
    ext: Seq<RealiseCall>,
    rid: int,
    rj: Joint,
)
    requires
        p == plan_of(t),
        ext.len() == p.len(),
        forall|i: int| 0 <= i < ext.len() ==> realise_entry_ok(t, p, ext, i, rid, rj),
    ensures
        matches_plan(t, ext, rid, rj),
{
    assert forall|i: int| 0 <= i < p.len() implies (#[trigger] ext[i]).shape == t[
        p[i].0
    ].shape by {
        assert(realise_entry_ok(t, p, ext, i, rid, rj));
    }
    if ext.len() >= 1 {
        assert(realise_entry_ok(t, p, ext, 0, rid, rj));
    }
    assert forall|i: int| 1 <= i < p.len() implies (#[trigger] ext[i]).joint == t[
        p[i].0
    ].joint && ext[i].parent == ext[p[i].1].id by {
        assert(realise_entry_ok(t, p, ext, i, rid, rj));
    }
}

/// Entries `k` of two logs name the same earlier position `q` as parent:
/// entry `k`'s parent handle id equals, in each log, the id returned at
/// position `q` of that same log.
pub open spec fn linked_same(e1: Seq<RealiseCall>, e2: Seq<RealiseCall>, k: int, q: int) -> bool {
    &&& 0 <= q < k
    &&& e1[k].parent == e1[q].id
    &&& e2[k].parent == e2[q].id
}

/// Entry `k` names, in both logs alike, some earlier position as its
/// parent's entry.
pub open spec fn has_parent_entry(e1: Seq<RealiseCall>, e2: Seq<RealiseCall>, k: int) -> bool {
    exists|q: int| linked_same(e1, e2, k, q)
}

/// Two logs share their whole parent-linkage pattern: every entry after
/// the first names, in both logs alike, some earlier position as its
/// parent's entry.
pub open spec fn same_linkage(e1: Seq<RealiseCall>, e2: Seq<RealiseCall>) -> bool {
    forall|k: int| 1 <= k < e1.len() ==> #[trigger] has_parent_entry(e1, e2, k)
}

/// Realisation is deterministic up to the consumer's choice of handles:
/// two full realisation logs of the same well-formed tree are isomorphic
/// call sequences — same length, same segments in the same order, same
/// joints, and the same parent-linkage pattern — though the opaque handle
/// identities need not match.
pub proof fn lemma_realise_isomorphic(
    t: Seq<TreeNode>,
    e1: Seq<RealiseCall>,
    rid1: int,
    rj1: Joint,
    e2: Seq<RealiseCall>,
    rid2: int,
    rj2: Joint,
)
    requires
        tree_wf(t),
        matches_plan(t, e1, rid1, rj1),
        matches_plan(t, e2, rid2, rj2),
    ensures
        e1.len() == e2.len(),
        forall|k: int| 0 <= k < e1.len() ==> (#[trigger] e1[k]).shape == e2[k].shape,
        forall|k: int| 1 <= k < e1.len() ==> (#[trigger] e1[k]).joint == e2[k].joint,
        same_linkage(e1, e2),
{
    lemma_plan_wf(t);
    let p = plan_of(t);
    assert(e1.len() == p.len());
    assert(e2.len() == p.len());
    assert forall|k: int| 1 <= k < e1.len() implies #[trigger] has_parent_entry(
        e1,
        e2,
        k,
    ) by {
        let q = p[k].1;
        assert(0 <= q < k);
        assert(e1[k].parent == e1[q].id);
        assert(e2[k].parent == e2[q].id);
        assert(linked_same(e1, e2, k, q));
    }
}

/// One full record of a debug realisation: the segment and joint received,
/// the sequential id assigned, and the id of the parent handle received.
#[derive(Clone, Copy)]
pub struct DebugCall {
    pub shape: ShapeDefinition,
    pub joint: Joint,
    pub id: u64,
    pub parent: u64,
}

/// A realisation consumer for tests and debugging: it assigns sequential
/// ids (the root's synthetic handle is 0, the first segment gets 1) and
/// records every call.
pub struct DebugRealiser {
    pub last_node: u64,
    pub calls: Vec<DebugCall>,
}

impl DebugRealiser {
    /// A fresh recorder: no calls yet, ids starting at 1.
    pub fn new() -> (r: Self)
        ensures
            r.log() == Seq::<RealiseCall>::empty(),
            r.last_node == 0,
    {
        let r = DebugRealiser { last_node: 0, calls: Vec::new() };
        proof {
            assert(r.log() =~= Seq::<RealiseCall>::empty());
        }
        r
    }
}

impl TreeRealiser for DebugRealiser {
    type RealisedHandle = u64;

    open spec fn handle_id(h: &u64) -> int {
        *h as int
    }

    open spec fn log(&self) -> Seq<RealiseCall> {
        self.calls@.map_values(
            |c: DebugCall|
                RealiseCall { shape: c.shape, joint: c.joint, id: c.id as int, parent: c.parent as int },
        )
    }

    fn new_shape(&mut self, shape_def: &ShapeDefinition, parent: &u64, parent_joint: &Joint) -> (h:
        u64)
        ensures
            final(self).last_node == h,
            old(self).last_node < u64::MAX ==> h == old(self).last_node + 1,
    {
        // ids saturate at the top of the range, which no realistic
        // traversal reaches; the protocol does not require them unique
        let id = if self.last_node == u64::MAX {
            u64::MAX
        } else {
            self.last_node + 1
        };
        self.last_node = id;
        self.calls.push(
            DebugCall { shape: *shape_def, joint: *parent_joint, id, parent: *parent },
        );
        proof {
            assert(self.log() =~= old(self).log().push(
                (RealiseCall {
                    shape: *shape_def,
                    joint: *parent_joint,
                    id: id as int,
                    parent: *parent as int,
                }),
            ));
        }
        id
    }

    fn root(&self) -> (r: (u64, Joint))
        ensures
            r.0 == 0,
            r.1 == Joint::Ground,
    {
        (0, Joint::Ground)
    }
}

impl BodyTree {
    /// Realises the tree into a fresh debug recorder. Because the
    /// recorder's synthetic root handle is 0 and it assigns sequential
    /// ids from 1, the whole trace is pinned: call `k` hands over the
    /// `k`-th planned node's segment and carries id `k + 1`; the first
    /// call is attached to handle 0 by `Ground`; every later call's
    /// parent id is one more than the plan position of its parent's
    /// entry.
    pub fn realise_debug(&self) -> (r: DebugRealiser)
        requires
            self.wf(),
        ensures
            matches_plan(self@, r.log(), 0, Joint::Ground),
            r.log().len() == plan_of(self@).len(),
            forall|k: int| 0 <= k < r.log().len() ==> (#[trigger] r.log()[k]).id == k + 1,
            forall|k: int|
                1 <= k < r.log().len() ==> (#[trigger] r.log()[k]).parent == plan_of(self@)[k].1
                    + 1,
    {
        let ghost t = self@;
        let ghost p = plan_of(t);
        proof {
            lemma_plan_wf(t);
        }
        let plan = self.build_plan();
        let mut r = DebugRealiser::new();
        let (root_h, root_j) = r.root();
        let n = plan.len();
        let mut k: usize = 0;
        while k < n
            invariant
                self.wf(),
                t == self@,
                p == plan_of(t),
                steps_view(plan@) == p,
                n == plan@.len(),
                n == p.len(),
                plan_seg_wf(t, p, 0),
                k <= n,
                root_h == 0u64,
                root_j == Joint::Ground,
                r.log().len() == k as int,
                r.last_node == k as u64,
                forall|i: int| 0 <= i < k as int ==> (#[trigger] r.log()[i]).id == i + 1,
                forall|i: int|
                    0 <= i < k as int ==> (#[trigger] r.log()[i]).shape == t[p[i].0].shape,
                1 <= k ==> r.log()[0].parent == 0 && r.log()[0].joint == Joint::Ground,
                forall|i: int|
                    1 <= i < k as int ==> (#[trigger] r.log()[i]).joint == t[p[i].0].joint
                        && r.log()[i].parent == p[i].1 + 1,
            decreases n - k,
        {
            let step = plan[k];
            proof {
                assert(steps_view(plan@)[k as int] == (step.node as int, step.parent_pos as int));
                assert(p[k as int].0 == step.node as int);
                assert(p[k as int].1 == step.parent_pos as int);
                assert(0 <= p[k as int].0 < t.len());
                if k >= 1 {
                    assert(0 <= p[k as int].1 < k as int);
                }
            }
            let ghost pre_log = r.log();
            if k == 0 {
                let _id: u64 = r.new_shape(self.shape_of(step.node), &root_h, &root_j);
            } else {
                let ph: u64 = step.parent_pos as u64 + 1;
                let pj = self.joint_of(step.node);
                let _id: u64 = r.new_shape(self.shape_of(step.node), &ph, &pj);
            }
            proof {
                assert(r.log() == pre_log.push(r.log().last()));
            }
            k += 1;
        }
        proof {
            assert forall|i: int| 1 <= i < p.len() implies (#[trigger] r.log()[i]).parent
                == r.log()[p[i].1].id by {
                assert(0 <= p[i].1 < i);
                assert(r.log()[p[i].1].id == p[i].1 + 1);
            }
            assert(matches_plan(t, r.log(), 0, Joint::Ground));
        }
        r
    }
}

/// A mutation generator drawing from a random source: with probability
/// `rate` (a fraction of RAW_ONE) it yields a uniform offset in
/// [-max, max]; otherwise it yields 0. A zero rate makes it null; `max`
/// bounds the magnitude of every draw.
struct RandomMutationGen {
    rng: RngSource,
    rate: u32,
    max: u32,
    history: Ghost<Seq<i64>>,
}

impl MutationGen for RandomMutationGen {
    closed spec fn fixed_offset(&self) -> Option<i64> {
        if self.rate == 0 {
            Some(0i64)
        } else {
            None
        }
    }

    closed spec fn max_off(&self) -> int {
        self.max as int
    }

    closed spec fn drawn(&self) -> Seq<i64> {
        self.history@
    }

    fn gen(&mut self) -> (r: i64) {
        let prob = self.rng.below(RAW_ONE);
        let r = if prob < self.rate {
            self.rng.signed_within(self.max)
        } else {
            0
        };
        proof {
            self.history@ = self.history@.push(r);
        }
        r
    }
}

} // verus!
