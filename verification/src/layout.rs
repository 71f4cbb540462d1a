//! The tiling layout engine.
//!
//! `WindowTree` keeps the tiling binary tree in an arena of optional slots
//! addressed by small indices, with parent links beside child links.  A ghost
//! `NodeTree` mirrors the live part of the arena; the `rep` predicate ties the
//! two together, and every public contract speaks of the index-free
//! `model::LayoutTree` obtained by erasing the indices.

use vstd::prelude::*;
use crate::model::LayoutTree;
use crate::util::{
    valid_bounds, Bounds, Direction, PROP_HALF, PROP_MAX, PROP_MIN, PROP_UNIT,
};

verus! {

/// A client window: an opaque identifier handed in by the display server.
#[derive(Clone, Copy, PartialEq, Eq, Structural, Debug)]
pub struct Window {
    pub id: u64,
}

impl Window {
    pub fn new(id: u64) -> (r: Self)
        ensures
            r == (Window { id }),
    {
        Self { id }
    }
}

/// The payload of an arena slot: a leaf carrying a window, or an inner node
/// carrying child indices, the focused side and the split proportion in
/// thousandths.
#[derive(Clone, Copy, Debug)]
enum TreeNodeTy {
    Leaf { window: Window },
    Node { left: usize, right: usize, focus: Direction, proportions: u32 },
}

/// One occupied arena slot.
#[derive(Clone, Copy, Debug)]
struct TreeNode {
    index: usize,
    parent: Option<usize>,
    bounds: Bounds,
    direction: Direction,
    ty: TreeNodeTy,
}

/// The ghost mirror of the live part of the arena: the layout tree together
/// with the index every node lives at.
ghost enum NodeTree {
    Leaf { idx: int, window: u64, bounds: Bounds, direction: Direction },
    Split {
        idx: int,
        bounds: Bounds,
        direction: Direction,
        focus: Direction,
        prop: int,
        left: Box<NodeTree>,
        right: Box<NodeTree>,
    },
}

impl NodeTree {
    /// The arena index of the subtree's root node.
    spec fn top_idx(self) -> int {
        match self {
            NodeTree::Leaf { idx, .. } => idx,
            NodeTree::Split { idx, .. } => idx,
        }
    }

    /// All arena indices the subtree occupies.
    spec fn idxs(self) -> Set<int>
        decreases self,
    {
        match self {
            NodeTree::Leaf { idx, .. } => Set::empty().insert(idx),
            NodeTree::Split { idx, left, right, .. } => left.idxs() + right.idxs() + Set::empty().insert(idx),
        }
    }

    /// The index-free layout tree.
    spec fn abs(self) -> LayoutTree
        decreases self,
    {
        match self {
            NodeTree::Leaf { window, bounds, direction, .. } => LayoutTree::Leaf {
                window,
                bounds,
                direction,
            },
            NodeTree::Split { bounds, direction, focus, prop, left, right, .. } => LayoutTree::Split {
                bounds,
                direction,
                focus,
                prop,
                left: Box::new(left.abs()),
                right: Box::new(right.abs()),
            },
        }
    }

    /// The focused child of a split (the tree itself at a leaf).
    spec fn focused_child(self) -> NodeTree {
        match self {
            NodeTree::Split { focus, direction, left, right, .. } => if focus == direction {
                *right
            } else {
                *left
            },
            NodeTree::Leaf { .. } => self,
        }
    }

    /// The sibling of the focused child of a split.
    spec fn unfocused_child(self) -> NodeTree {
        match self {
            NodeTree::Split { focus, direction, left, right, .. } => if focus == direction {
                *left
            } else {
                *right
            },
            NodeTree::Leaf { .. } => self,
        }
    }
}

/// A parent link as a ghost index.
spec fn opt_idx(p: Option<usize>) -> Option<int> {
    match p {
        None => None,
        Some(v) => Some(v as int),
    }
}

/// The arena `nodes` holds the ghost tree `t`: every node of `t` sits in an
/// occupied slot that carries the same data, the self-index, the given parent
/// link and the child indices of `t`; sibling subtrees occupy disjoint slots.
spec fn rep(nodes: Seq<Option<TreeNode>>, t: NodeTree, parent: Option<int>) -> bool
    decreases t,
{
    &&& 0 <= t.top_idx() < nodes.len()
    &&& nodes[t.top_idx()] is Some
    &&& {
        let n = nodes[t.top_idx()].unwrap();
        &&& n.index as int == t.top_idx()
        &&& opt_idx(n.parent) == parent
        &&& match t {
            NodeTree::Leaf { idx, window, bounds, direction } => {
                &&& n.bounds == bounds
                &&& n.direction == direction
                &&& n.ty matches TreeNodeTy::Leaf { window: w } && w.id == window
            }
            NodeTree::Split { idx, bounds, direction, focus, prop, left, right } => {
                &&& n.bounds == bounds
                &&& n.direction == direction
                &&& (n.ty matches TreeNodeTy::Node { left: l, right: r, focus: f, proportions: p }
                    && l as int == left.top_idx() && r as int == right.top_idx() && f == focus
                    && p as int == prop)
                &&& rep(nodes, *left, Some(idx))
                &&& rep(nodes, *right, Some(idx))
                &&& left.idxs().disjoint(right.idxs())
                &&& !left.idxs().contains(idx)
                &&& !right.idxs().contains(idx)
            }
        }
    }
}

/// Every index of a represented tree names an occupied slot.
proof fn lemma_rep_idxs(nodes: Seq<Option<TreeNode>>, t: NodeTree, parent: Option<int>)
    requires
        rep(nodes, t, parent),
    ensures
        t.idxs().contains(t.top_idx()),
        forall|j: int| t.idxs().contains(j) ==> 0 <= j < nodes.len() && nodes[j] is Some,
    decreases t,
{
    match t {
        NodeTree::Leaf { .. } => {}
        NodeTree::Split { idx, left, right, .. } => {
            lemma_rep_idxs(nodes, *left, Some(idx));
            lemma_rep_idxs(nodes, *right, Some(idx));
        }
    }
}

/// Representation only reads the slots the tree occupies: any arena that
/// agrees on them (and is at least as long) represents the same tree.
proof fn lemma_rep_frame(
    nodes1: Seq<Option<TreeNode>>,
    nodes2: Seq<Option<TreeNode>>,
    t: NodeTree,
    parent: Option<int>,
)
    requires
        rep(nodes1, t, parent),
        nodes1.len() <= nodes2.len(),
        forall|j: int| t.idxs().contains(j) ==> nodes2[j] == nodes1[j],
    ensures
        rep(nodes2, t, parent),
    decreases t,
{
    match t {
        NodeTree::Leaf { .. } => {}
        NodeTree::Split { idx, left, right, .. } => {
            assert forall|j: int| left.idxs().contains(j) implies nodes2[j] == nodes1[j] by {
                assert(t.idxs().contains(j));
            }
            assert forall|j: int| right.idxs().contains(j) implies nodes2[j] == nodes1[j] by {
                assert(t.idxs().contains(j));
            }
            lemma_rep_frame(nodes1, nodes2, *left, Some(idx));
            lemma_rep_frame(nodes1, nodes2, *right, Some(idx));
            assert(t.idxs().contains(idx));
        }
    }
}

/// A node may change its parent link (and nothing else at its own slot)
/// without disturbing representation.
proof fn lemma_rep_reparent(
    nodes1: Seq<Option<TreeNode>>,
    nodes2: Seq<Option<TreeNode>>,
    t: NodeTree,
    p1: Option<int>,
    p2: Option<int>,
)
    requires
        rep(nodes1, t, p1),
        nodes1.len() == nodes2.len(),
        forall|j: int| t.idxs().contains(j) && j != t.top_idx() ==> nodes2[j] == nodes1[j],
        nodes2[t.top_idx()] is Some,
        ({
            let n1 = nodes1[t.top_idx()].unwrap();
            let n2 = nodes2[t.top_idx()].unwrap();
            &&& n2.index == n1.index
            &&& n2.bounds == n1.bounds
            &&& n2.direction == n1.direction
            &&& n2.ty == n1.ty
            &&& opt_idx(n2.parent) == p2
        }),
    ensures
        rep(nodes2, t, p2),
{
    match t {
        NodeTree::Leaf { .. } => {}
        NodeTree::Split { idx, left, right, .. } => {
            assert forall|j: int| left.idxs().contains(j) implies nodes2[j] == nodes1[j] by {
                assert(t.idxs().contains(j));
                assert(j != idx);
            }
            assert forall|j: int| right.idxs().contains(j) implies nodes2[j] == nodes1[j] by {
                assert(t.idxs().contains(j));
                assert(j != idx);
            }
            lemma_rep_frame(nodes1, nodes2, *left, Some(idx));
            lemma_rep_frame(nodes1, nodes2, *right, Some(idx));
        }
    }
}

/// Whether a payload is a split.
spec fn ty_is_node(ty: TreeNodeTy) -> bool {
    ty matches TreeNodeTy::Node { .. }
}

/// The left child stored in a split payload.
spec fn ty_left(ty: TreeNodeTy) -> usize {
    match ty {
        TreeNodeTy::Node { left, .. } => left,
        TreeNodeTy::Leaf { .. } => 0,
    }
}

/// The right child stored in a split payload.
spec fn ty_right(ty: TreeNodeTy) -> usize {
    match ty {
        TreeNodeTy::Node { right, .. } => right,
        TreeNodeTy::Leaf { .. } => 0,
    }
}

/// In a represented subtree, child links stay inside the subtree and agree
/// with the parent links, every split's two children differ, and every
/// non-root node's parent is the unique split listing it.
proof fn lemma_rep_parent_child(nodes: Seq<Option<TreeNode>>, t: NodeTree, par: Option<int>)
    requires
        rep(nodes, t, par),
    ensures
        forall|j: int| t.idxs().contains(j) ==> 0 <= j < nodes.len() && nodes[j] is Some,
        forall|j: int|
            t.idxs().contains(j) && ty_is_node(#[trigger] nodes[j].unwrap().ty) ==> {
                let nd = nodes[j].unwrap();
                &&& t.idxs().contains(ty_left(nd.ty) as int)
                &&& t.idxs().contains(ty_right(nd.ty) as int)
                &&& ty_left(nd.ty) != ty_right(nd.ty)
                &&& ty_left(nd.ty) as int != j
                &&& ty_right(nd.ty) as int != j
                &&& opt_idx(nodes[ty_left(nd.ty) as int].unwrap().parent) == Some(j)
                &&& opt_idx(nodes[ty_right(nd.ty) as int].unwrap().parent) == Some(j)
            },
        forall|j: int|
            t.idxs().contains(j) && j != t.top_idx() ==> {
                &&& opt_idx(#[trigger] nodes[j].unwrap().parent) matches Some(p)
                &&& t.idxs().contains(p)
                &&& ty_is_node(nodes[p].unwrap().ty)
                &&& (ty_left(nodes[p].unwrap().ty) as int == j || ty_right(
                    nodes[p].unwrap().ty,
                ) as int == j)
            },
        opt_idx(nodes[t.top_idx()].unwrap().parent) == par,
    decreases t,
{
    lemma_rep_idxs(nodes, t, par);
    match t {
        NodeTree::Leaf { .. } => {}
        NodeTree::Split { idx, left, right, .. } => {
            lemma_rep_parent_child(nodes, *left, Some(idx));
            lemma_rep_parent_child(nodes, *right, Some(idx));
            lemma_rep_idxs(nodes, *left, Some(idx));
            lemma_rep_idxs(nodes, *right, Some(idx));
            let lt = left.top_idx();
            let rt = right.top_idx();
            assert(left.idxs().contains(lt));
            assert(right.idxs().contains(rt));
            assert(lt != rt);
            assert forall|j: int|
                t.idxs().contains(j) && ty_is_node(#[trigger] nodes[j].unwrap().ty) implies {
                let nd = nodes[j].unwrap();
                &&& t.idxs().contains(ty_left(nd.ty) as int)
                &&& t.idxs().contains(ty_right(nd.ty) as int)
                &&& ty_left(nd.ty) != ty_right(nd.ty)
                &&& ty_left(nd.ty) as int != j
                &&& ty_right(nd.ty) as int != j
                &&& opt_idx(nodes[ty_left(nd.ty) as int].unwrap().parent) == Some(j)
                &&& opt_idx(nodes[ty_right(nd.ty) as int].unwrap().parent) == Some(j)
            } by {
                if j == idx {
                    assert(ty_left(nodes[j].unwrap().ty) as int == lt);
                    assert(ty_right(nodes[j].unwrap().ty) as int == rt);
                } else if left.idxs().contains(j) {
                } else {
                    assert(right.idxs().contains(j));
                }
            }
            assert forall|j: int|
                t.idxs().contains(j) && j != t.top_idx() implies {
                &&& opt_idx(#[trigger] nodes[j].unwrap().parent) matches Some(p)
                &&& t.idxs().contains(p)
                &&& ty_is_node(nodes[p].unwrap().ty)
                &&& (ty_left(nodes[p].unwrap().ty) as int == j || ty_right(
                    nodes[p].unwrap().ty,
                ) as int == j)
            } by {
                if left.idxs().contains(j) {
                    if j == lt {
                        assert(opt_idx(nodes[j].unwrap().parent) == Some(idx));
                        assert(ty_left(nodes[idx].unwrap().ty) as int == j);
                    }
                } else {
                    assert(right.idxs().contains(j));
                    if j == rt {
                        assert(opt_idx(nodes[j].unwrap().parent) == Some(idx));
                        assert(ty_right(nodes[idx].unwrap().ty) as int == j);
                    }
                }
            }
        }
    }
}

/// The tiling engine: an arena of optional nodes, an optional root index and
/// the fixed monitor rectangle.
pub struct WindowTree {
    nodes: Vec<Option<TreeNode>>,
    root: Option<usize>,
    bounds: Bounds,
    shape: Ghost<Option<NodeTree>>,
}

impl WindowTree {
    /// The monitor rectangle the tree tiles.
    pub closed spec fn monitor(self) -> Bounds {
        self.bounds
    }

    /// The abstract layout: `None` for an empty tree.
    pub closed spec fn layout(self) -> Option<LayoutTree> {
        match self.shape@ {
            None => None,
            Some(t) => Some(t.abs()),
        }
    }

    /// The set of windows currently tiled.
    pub open spec fn window_set(self) -> Set<u64> {
        match self.layout() {
            None => Set::empty(),
            Some(t) => t.windows(),
        }
    }

    /// The engine's invariant: the arena holds exactly the ghost tree, the
    /// tree tiles the monitor coherently, proportions are clamped, each
    /// window appears at most once, and empty slots are unreferenced.
    pub closed spec fn wf(self) -> bool {
        &&& valid_bounds(self.bounds)
        &&& match self.shape@ {
            None => {
                &&& self.root is None
                &&& forall|j: int| 0 <= j < self.nodes@.len() ==> self.nodes@[j] is None
            }
            Some(t) => {
                &&& self.root matches Some(r) && r as int == t.top_idx()
                &&& rep(self.nodes@, t, None::<int>)
                &&& t.abs().tiled(self.bounds)
                &&& t.abs().props_ok()
                &&& t.abs().uniq()
                &&& forall|j: int|
                    0 <= j < self.nodes@.len() && !t.idxs().contains(j)
                        ==> self.nodes@[j] is None
            }
        }
    }

    /// A fresh, empty tree tiling `bounds`.
    pub fn new(bounds: Bounds) -> (r: Self)
        requires
            valid_bounds(bounds),
        ensures
            r.wf(),
            r.layout() is None,
            r.monitor() == bounds,
    {
        let mut nodes: Vec<Option<TreeNode>> = Vec::new();
        let mut i: usize = 0;
        while i < 20
            invariant
                nodes@.len() == i,
                i <= 20,
                forall|j: int| 0 <= j < i ==> nodes@[j] is None,
            decreases 20 - i,
        {
            nodes.push(None);
            i = i + 1;
        }
        WindowTree { nodes, root: None, bounds, shape: Ghost(None) }
    }

    /// Copy the node out of an occupied slot.
    fn get_node(&self, index: usize) -> (n: TreeNode)
        requires
            index < self.nodes@.len(),
            self.nodes@[index as int] is Some,
        ensures
            n == self.nodes@[index as int].unwrap(),
    {
        let slot: Option<TreeNode> = self.nodes[index];
        slot.unwrap()
    }

    /// The first empty slot, appending one if the arena is full.
    fn get_empty_index(&mut self) -> (r: usize)
        ensures
            final(self).root == old(self).root,
            final(self).bounds == old(self).bounds,
            final(self).shape@ == old(self).shape@,
            r < final(self).nodes@.len(),
            final(self).nodes@[r as int] is None,
            (final(self).nodes@ == old(self).nodes@ && r < old(self).nodes@.len()) || (
            r == old(self).nodes@.len() && final(self).nodes@ == old(self).nodes@.push(
                None,
            )),
    {
        let mut i: usize = 0;
        while i < self.nodes.len()
            invariant
                *self == *old(self),
                i <= self.nodes@.len(),
            decreases self.nodes@.len() - i,
        {
            if self.nodes[i].is_none() {
                return i;
            }
            i = i + 1;
        }
        self.nodes.push(None);
        self.nodes.len() - 1
    }

    /// Put `node` into an empty slot, recording the slot in its self-index.
    fn add_node(&mut self, node: TreeNode) -> (r: usize)
        ensures
            final(self).root == old(self).root,
            final(self).bounds == old(self).bounds,
            final(self).shape@ == old(self).shape@,
            r < final(self).nodes@.len(),
            old(self).nodes@.len() <= final(self).nodes@.len()
                <= old(self).nodes@.len() + 1,
            final(self).nodes@[r as int] matches Some(n2) && n2 == (TreeNode {
                index: r,
                parent: node.parent,
                bounds: node.bounds,
                direction: node.direction,
                ty: node.ty,
            }),
            forall|j: int|
                0 <= j < old(self).nodes@.len() && j != r ==> final(self).nodes@[j] == old(self).nodes@[j],
            r < old(self).nodes@.len() ==> old(self).nodes@[r as int] is None
                && final(self).nodes@.len() == old(self).nodes@.len(),
            r == old(self).nodes@.len() ==> final(self).nodes@.len() == old(self).nodes@.len() + 1,
            r < old(self).nodes@.len() || r == old(self).nodes@.len(),
    {
        let index = self.get_empty_index();
        let mut node2 = node;
        node2.index = index;
        self.nodes[index] = Some(node2);
        index
    }

    /// The window reached by descending the focus chain from node `i`.
    fn focused_window_at(
        &self,
        i: usize,
        Ghost(t): Ghost<NodeTree>,
        Ghost(par): Ghost<Option<int>>,
    ) -> (w: u64)
        requires
            rep(self.nodes@, t, par),
            i as int == t.top_idx(),
        ensures
            w == t.abs().focused_leaf().0,
        decreases t,
    {
        let n = self.get_node(i);
        match n.ty {
            TreeNodeTy::Leaf { window } => {
                proof {
                    assert(t is Leaf);
                }
                window.id
            }
            TreeNodeTy::Node { left, right, focus, .. } => {
                proof {
                    assert(t is Split);
                }
                let ghost tc = t.focused_child();
                let next = if focus == n.direction {
                    right
                } else {
                    left
                };
                proof {
                    assert(rep(self.nodes@, tc, Some(t.top_idx())));
                    assert(next as int == tc.top_idx());
                    assert(t.abs().focused_child() == tc.abs());
                    assert(t.abs().focused_leaf() == tc.abs().focused_leaf());
                }
                self.focused_window_at(next, Ghost(tc), Ghost(Some(t.top_idx())))
            }
        }
    }

    /// Split the focused leaf below node `i` in two, the new window far and
    /// focused; returns the changed-set and the new ghost subtree.
    fn insert_at(
        &mut self,
        i: usize,
        new_window: Window,
        Ghost(t): Ghost<NodeTree>,
        Ghost(par): Ghost<Option<int>>,
    ) -> (res: (Vec<(u64, Bounds)>, Ghost<NodeTree>))
        requires
            rep(old(self).nodes@, t, par),
            i as int == t.top_idx(),
            t.abs().tiled_here(),
            t.abs().props_ok(),
        ensures
            final(self).root == old(self).root,
            final(self).bounds == old(self).bounds,
            final(self).shape@ == old(self).shape@,
            old(self).nodes@.len() <= final(self).nodes@.len(),
            rep(final(self).nodes@, res.1@, par),
            res.1@.top_idx() == t.top_idx(),
            res.1@.abs() == t.abs().spec_insert(new_window.id),
            res.0@ == t.abs().spec_insert_changed(new_window.id),
            t.idxs().subset_of(res.1@.idxs()),
            forall|j: int|
                0 <= j < old(self).nodes@.len() && !res.1@.idxs().contains(j)
                    ==> final(self).nodes@[j] == old(self).nodes@[j],
            forall|j: int|
                res.1@.idxs().contains(j) && !t.idxs().contains(j) ==> j >= old(self).nodes@.len() || old(self).nodes@[j] is None,
            forall|j: int|
                old(self).nodes@.len() <= j < final(self).nodes@.len() ==> res.1@.idxs().contains(
                    j,
                ),
        decreases t,
    {
        let n = self.get_node(i);
        match n.ty {
            TreeNodeTy::Leaf { window } => {
                proof {
                    assert(t is Leaf);
                    assert(t.abs().rect() == n.bounds);
                }
                let b = n.bounds;
                let d = n.direction;
                let (nb, fb) = b.split(d, PROP_HALF);
                let nd = d.next_axis();
                let li = self.add_node(
                    TreeNode {
                        index: 0,
                        parent: Some(i),
                        bounds: nb,
                        direction: d,
                        ty: TreeNodeTy::Leaf { window },
                    },
                );
                let ri = self.add_node(
                    TreeNode {
                        index: 0,
                        parent: Some(i),
                        bounds: fb,
                        direction: nd,
                        ty: TreeNodeTy::Leaf { window: new_window },
                    },
                );
                proof {
                    assert(li != i && ri != i && li != ri);
                }
                self.nodes[i] = Some(
                    TreeNode {
                        index: i,
                        parent: n.parent,
                        bounds: b,
                        direction: d,
                        ty: TreeNodeTy::Node {
                            left: li,
                            right: ri,
                            focus: d,
                            proportions: PROP_HALF,
                        },
                    },
                );
                let mut changed: Vec<(u64, Bounds)> = Vec::new();
                changed.push((window.id, nb));
                changed.push((new_window.id, fb));
                let ghost t2 = NodeTree::Split {
                    idx: i as int,
                    bounds: b,
                    direction: d,
                    focus: d,
                    prop: PROP_HALF as int,
                    left: Box::new(
                        NodeTree::Leaf {
                            idx: li as int,
                            window: window.id,
                            bounds: nb,
                            direction: d,
                        },
                    ),
                    right: Box::new(
                        NodeTree::Leaf {
                            idx: ri as int,
                            window: new_window.id,
                            bounds: fb,
                            direction: nd,
                        },
                    ),
                };
                proof {
                    reveal_with_fuel(NodeTree::idxs, 3);
                    reveal_with_fuel(NodeTree::abs, 3);
                    reveal_with_fuel(rep, 3);
                    assert(t2.idxs() =~= Set::empty().insert(i as int).insert(li as int).insert(
                        ri as int,
                    ));
                    assert(self.nodes@[li as int].unwrap().parent == Some(i));
                    assert(self.nodes@[ri as int].unwrap().parent == Some(i));
                    assert(rep(self.nodes@, t2, par));
                    assert(t2.abs() == t.abs().spec_insert(new_window.id));
                    assert(changed@ =~= t.abs().spec_insert_changed(new_window.id));
                }
                (changed, Ghost(t2))
            }
            TreeNodeTy::Node { left: lc, right: rc, focus, .. } => {
                proof {
                    assert(t is Split);
                }
                let ghost tc = t.focused_child();
                let ghost sib = t.unfocused_child();
                let next = if focus == n.direction {
                    rc
                } else {
                    lc
                };
                proof {
                    assert(rep(self.nodes@, tc, Some(t.top_idx())));
                    assert(rep(self.nodes@, sib, Some(t.top_idx())));
                    assert(next as int == tc.top_idx());
                    assert(t.abs().focused_child() == tc.abs());
                    reveal_with_fuel(LayoutTree::tiled, 3);
                    assert(tc.abs().tiled_here());
                    assert(tc.abs().props_ok());
                    lemma_rep_idxs(self.nodes@, sib, Some(t.top_idx()));
                    lemma_rep_idxs(self.nodes@, tc, Some(t.top_idx()));
                }
                let (changed, Ghost(c2)) = self.insert_at(
                    next,
                    new_window,
                    Ghost(tc),
                    Ghost(Some(i as int)),
                );
                let ghost t2 = match t {
                    NodeTree::Split { idx, bounds, direction, focus: f, prop, left, right } => {
                        if f == direction {
                            NodeTree::Split {
                                idx,
                                bounds,
                                direction,
                                focus: f,
                                prop,
                                left,
                                right: Box::new(c2),
                            }
                        } else {
                            NodeTree::Split {
                                idx,
                                bounds,
                                direction,
                                focus: f,
                                prop,
                                left: Box::new(c2),
                                right,
                            }
                        }
                    }
                    _ => t,
                };
                proof {
                    // the spliced-in child: new slots were empty or appended
                    assert forall|j: int| c2.idxs().contains(j) && !tc.idxs().contains(j) implies j
                        >= old(self).nodes@.len() || old(self).nodes@[j] is None by {}
                    // this node's own slot is outside the child's slots
                    assert(!c2.idxs().contains(i as int));
                    assert(self.nodes@[i as int] == old(self).nodes@[i as int]);
                    // the sibling's slots are untouched
                    assert forall|j: int| sib.idxs().contains(j) implies self.nodes@[j] == old(self).nodes@[j] by {
                        assert(old(self).nodes@[j] is Some);
                        assert(!tc.idxs().contains(j));
                        assert(!c2.idxs().contains(j));
                    }
                    lemma_rep_frame(old(self).nodes@, self.nodes@, sib, Some(t.top_idx()));
                    assert(c2.idxs().disjoint(sib.idxs()));
                    assert(rep(self.nodes@, t2, par));
                    assert(t2.abs() == t.abs().spec_insert(new_window.id));
                    assert(t2.idxs() =~= tc.idxs() + sib.idxs() + Set::empty().insert(i as int)
                        + c2.idxs());
                    assert(t.idxs() =~= tc.idxs() + sib.idxs() + Set::empty().insert(i as int));
                    assert(t.idxs().subset_of(t2.idxs()));
                    assert(changed@ == t.abs().spec_insert_changed(new_window.id));
                }
                (changed, Ghost(t2))
            }
        }
    }

    /// Insert `new_window` into the layout.  In an empty tree it becomes the
    /// root leaf at full monitor bounds; otherwise the focused leaf is split
    /// along its direction, the old window keeping the near slice and the new
    /// window taking the far slice and the focus.  Returns the geometry
    /// changes to apply, in the order produced.
    pub fn insert(&mut self, new_window: Window) -> (changed: Vec<(u64, Bounds)>)
        requires
            old(self).wf(),
            !old(self).window_set().contains(new_window.id),
        ensures
            final(self).wf(),
            final(self).monitor() == old(self).monitor(),
            final(self).window_set() == old(self).window_set().insert(new_window.id),
            match old(self).layout() {
                None => {
                    &&& final(self).layout() == Some(
                        LayoutTree::Leaf {
                            window: new_window.id,
                            bounds: old(self).monitor(),
                            direction: Direction::Right,
                        },
                    )
                    &&& changed@ == seq![(new_window.id, old(self).monitor())]
                }
                Some(t) => {
                    &&& final(self).layout() == Some(t.spec_insert(new_window.id))
                    &&& changed@ == t.spec_insert_changed(new_window.id)
                }
            },
    {
        match self.root {
            Some(r) => {
                let ghost t = self.shape@.unwrap();
                proof {
                    assert(t.abs().rect() == self.bounds);
                    assert(t.abs().tiled_here());
                }
                let (changed, Ghost(t2)) = self.insert_at(
                    r,
                    new_window,
                    Ghost(t),
                    Ghost(None::<int>),
                );
                self.shape = Ghost(Some(t2));
                proof {
                    t.abs().lemma_insert_wf(self.bounds, new_window.id);
                    assert forall|j: int|
                        0 <= j < self.nodes@.len() && !t2.idxs().contains(j) implies self.nodes@[j]
                        is None by {
                        if j < old(self).nodes@.len() {
                            assert(!t.idxs().contains(j));
                            assert(self.nodes@[j] == old(self).nodes@[j]);
                        }
                    }
                    assert(final(self).window_set() =~= old(self).window_set().insert(
                        new_window.id,
                    ));
                }
                changed
            }
            None => {
                let b = self.bounds;
                let ri = self.add_node(
                    TreeNode {
                        index: 0,
                        parent: None,
                        bounds: b,
                        direction: Direction::Right,
                        ty: TreeNodeTy::Leaf { window: new_window },
                    },
                );
                self.root = Some(ri);
                let ghost t2 = NodeTree::Leaf {
                    idx: ri as int,
                    window: new_window.id,
                    bounds: b,
                    direction: Direction::Right,
                };
                self.shape = Ghost(Some(t2));
                let mut changed: Vec<(u64, Bounds)> = Vec::new();
                changed.push((new_window.id, b));
                proof {
                    assert(rep(self.nodes@, t2, None::<int>));
                    assert forall|j: int|
                        0 <= j < self.nodes@.len() && !t2.idxs().contains(j) implies self.nodes@[j]
                        is None by {
                        if j < old(self).nodes@.len() {
                            assert(self.nodes@[j] == old(self).nodes@[j]);
                        }
                    }
                    assert(changed@ =~= seq![(new_window.id, b)]);
                    assert(final(self).window_set() =~= old(self).window_set().insert(
                        new_window.id,
                    ));
                }
                changed
            }
        }
    }

    /// Set the next-split direction of the focused leaf below node `i`.
    fn change_dir_at(
        &mut self,
        i: usize,
        direction: Direction,
        Ghost(t): Ghost<NodeTree>,
        Ghost(par): Ghost<Option<int>>,
    ) -> (res: Ghost<NodeTree>)
        requires
            rep(old(self).nodes@, t, par),
            i as int == t.top_idx(),
        ensures
            final(self).root == old(self).root,
            final(self).bounds == old(self).bounds,
            final(self).shape@ == old(self).shape@,
            final(self).nodes@.len() == old(self).nodes@.len(),
            rep(final(self).nodes@, res@, par),
            res@.top_idx() == t.top_idx(),
            res@.idxs() == t.idxs(),
            res@.abs() == t.abs().spec_change_dir(direction),
            forall|j: int|
                0 <= j < old(self).nodes@.len() && !t.idxs().contains(j) ==> final(self).nodes@[j] == old(self).nodes@[j],
        decreases t,
    {
        let n = self.get_node(i);
        match n.ty {
            TreeNodeTy::Leaf { .. } => {
                proof {
                    assert(t is Leaf);
                }
                self.nodes[i] = Some(
                    TreeNode {
                        index: n.index,
                        parent: n.parent,
                        bounds: n.bounds,
                        direction,
                        ty: n.ty,
                    },
                );
                let ghost t2 = match t {
                    NodeTree::Leaf { idx, window, bounds, .. } => NodeTree::Leaf {
                        idx,
                        window,
                        bounds,
                        direction,
                    },
                    _ => t,
                };
                Ghost(t2)
            }
            TreeNodeTy::Node { left: lc, right: rc, focus, .. } => {
                proof {
                    assert(t is Split);
                }
                let ghost tc = t.focused_child();
                let ghost sib = t.unfocused_child();
                let next = if focus == n.direction {
                    rc
                } else {
                    lc
                };
                proof {
                    assert(rep(self.nodes@, tc, Some(t.top_idx())));
                    assert(rep(self.nodes@, sib, Some(t.top_idx())));
                    lemma_rep_idxs(self.nodes@, sib, Some(t.top_idx()));
                    lemma_rep_idxs(self.nodes@, tc, Some(t.top_idx()));
                }
                let Ghost(c2) = self.change_dir_at(next, direction, Ghost(tc), Ghost(Some(i as int)));
                let ghost t2 = match t {
                    NodeTree::Split { idx, bounds, direction: dn, focus: f, prop, left, right } => {
                        if f == dn {
                            NodeTree::Split {
                                idx,
                                bounds,
                                direction: dn,
                                focus: f,
                                prop,
                                left,
                                right: Box::new(c2),
                            }
                        } else {
                            NodeTree::Split {
                                idx,
                                bounds,
                                direction: dn,
                                focus: f,
                                prop,
                                left: Box::new(c2),
                                right,
                            }
                        }
                    }
                    _ => t,
                };
                proof {
                    assert(!tc.idxs().contains(i as int));
                    assert(self.nodes@[i as int] == old(self).nodes@[i as int]);
                    assert forall|j: int| sib.idxs().contains(j) implies self.nodes@[j] == old(self).nodes@[j] by {
                        assert(!tc.idxs().contains(j));
                    }
                    lemma_rep_frame(old(self).nodes@, self.nodes@, sib, Some(t.top_idx()));
                    assert(rep(self.nodes@, t2, par));
                    assert(t2.abs() == t.abs().spec_change_dir(direction));
                    assert(t2.idxs() =~= t.idxs());
                }
                Ghost(t2)
            }
        }
    }

    /// Set the focused leaf's next-split direction; a later insert will split
    /// it along that axis.  No geometry changes.
    pub fn change_tiling_direction(&mut self, direction: Direction)
        requires
            old(self).wf(),
        ensures
            final(self).wf(),
            final(self).monitor() == old(self).monitor(),
            match old(self).layout() {
                None => final(self).layout() == old(self).layout(),
                Some(t) => final(self).layout() == Some(t.spec_change_dir(direction)),
            },
    {
        match self.root {
            None => {}
            Some(r) => {
                let ghost t = self.shape@.unwrap();
                let Ghost(t2) = self.change_dir_at(r, direction, Ghost(t), Ghost(None::<int>));
                self.shape = Ghost(Some(t2));
                proof {
                    t.abs().lemma_change_dir_wf(self.bounds, direction);
                    assert forall|j: int|
                        0 <= j < self.nodes@.len() && !t2.idxs().contains(j) implies self.nodes@[j]
                        is None by {
                        assert(!t.idxs().contains(j));
                        assert(self.nodes@[j] == old(self).nodes@[j]);
                    }
                }
            }
        }
    }

    /// Flip the deepest ancestor of the focused leaf that partitions along
    /// `direction`'s axis away from `direction`, if any.
    fn move_focus_at(
        &mut self,
        i: usize,
        direction: Direction,
        Ghost(t): Ghost<NodeTree>,
        Ghost(par): Ghost<Option<int>>,
    ) -> (res: (bool, Ghost<NodeTree>))
        requires
            rep(old(self).nodes@, t, par),
            i as int == t.top_idx(),
        ensures
            final(self).root == old(self).root,
            final(self).bounds == old(self).bounds,
            final(self).shape@ == old(self).shape@,
            final(self).nodes@.len() == old(self).nodes@.len(),
            res.0 == (t.abs().spec_move_focus(direction) is Some),
            res.0 ==> {
                &&& rep(final(self).nodes@, res.1@, par)
                &&& res.1@.top_idx() == t.top_idx()
                &&& res.1@.idxs() == t.idxs()
                &&& res.1@.abs() == t.abs().spec_move_focus(direction).unwrap()
            },
            !res.0 ==> final(self).nodes@ == old(self).nodes@ && res.1@ == t,
            forall|j: int|
                0 <= j < old(self).nodes@.len() && !t.idxs().contains(j) ==> final(self).nodes@[j] == old(self).nodes@[j],
        decreases t,
    {
        let n = self.get_node(i);
        match n.ty {
            TreeNodeTy::Leaf { .. } => {
                proof {
                    assert(t is Leaf);
                }
                (false, Ghost(t))
            }
            TreeNodeTy::Node { left: lc, right: rc, focus, proportions } => {
                proof {
                    assert(t is Split);
                }
                let ghost tc = t.focused_child();
                let ghost sib = t.unfocused_child();
                let next = if focus == n.direction {
                    rc
                } else {
                    lc
                };
                proof {
                    assert(rep(self.nodes@, tc, Some(t.top_idx())));
                    assert(rep(self.nodes@, sib, Some(t.top_idx())));
                    lemma_rep_idxs(self.nodes@, sib, Some(t.top_idx()));
                    lemma_rep_idxs(self.nodes@, tc, Some(t.top_idx()));
                }
                let (found, Ghost(c2)) = self.move_focus_at(
                    next,
                    direction,
                    Ghost(tc),
                    Ghost(Some(i as int)),
                );
                if found {
                    let ghost t2 = match t {
                        NodeTree::Split { idx, bounds, direction: dn, focus: f, prop, left, right } => {
                            if f == dn {
                                NodeTree::Split {
                                    idx,
                                    bounds,
                                    direction: dn,
                                    focus: f,
                                    prop,
                                    left,
                                    right: Box::new(c2),
                                }
                            } else {
                                NodeTree::Split {
                                    idx,
                                    bounds,
                                    direction: dn,
                                    focus: f,
                                    prop,
                                    left: Box::new(c2),
                                    right,
                                }
                            }
                        }
                        _ => t,
                    };
                    proof {
                        assert(!tc.idxs().contains(i as int));
                        assert(self.nodes@[i as int] == old(self).nodes@[i as int]);
                        assert forall|j: int| sib.idxs().contains(j) implies self.nodes@[j] == old(self).nodes@[j] by {
                            assert(!tc.idxs().contains(j));
                        }
                        lemma_rep_frame(old(self).nodes@, self.nodes@, sib, Some(t.top_idx()));
                        assert(rep(self.nodes@, t2, par));
                        assert(t2.abs() == t.abs().spec_move_focus(direction).unwrap());
                        assert(t2.idxs() =~= t.idxs());
                    }
                    (true, Ghost(t2))
                } else {
                    if n.direction.is_on_same_line(direction) && focus != direction {
                        self.nodes[i] = Some(
                            TreeNode {
                                index: n.index,
                                parent: n.parent,
                                bounds: n.bounds,
                                direction: n.direction,
                                ty: TreeNodeTy::Node {
                                    left: lc,
                                    right: rc,
                                    focus: direction,
                                    proportions,
                                },
                            },
                        );
                        let ghost t2 = match t {
                            NodeTree::Split { idx, bounds, direction: dn, focus: _f, prop, left, right } => {
                                NodeTree::Split {
                                    idx,
                                    bounds,
                                    direction: dn,
                                    focus: direction,
                                    prop,
                                    left,
                                    right,
                                }
                            }
                            _ => t,
                        };
                        proof {
                            assert forall|j: int| tc.idxs().contains(j) implies self.nodes@[j]
                                == old(self).nodes@[j] by {
                                assert(!tc.idxs().contains(i as int));
                            }
                            assert forall|j: int| sib.idxs().contains(j) implies self.nodes@[j]
                                == old(self).nodes@[j] by {
                                assert(!sib.idxs().contains(i as int));
                            }
                            lemma_rep_frame(old(self).nodes@, self.nodes@, tc, Some(t.top_idx()));
                            lemma_rep_frame(old(self).nodes@, self.nodes@, sib, Some(t.top_idx()));
                            assert(rep(self.nodes@, t2, par));
                            assert(t2.abs() == t.abs().spec_move_focus(direction).unwrap());
                            assert(t2.idxs() =~= t.idxs());
                        }
                        (true, Ghost(t2))
                    } else {
                        (false, Ghost(t))
                    }
                }
            }
        }
    }

    /// Move the focus one step toward `direction`: the deepest ancestor of
    /// the focused leaf that partitions along that axis and does not already
    /// focus that way is flipped.  Returns the newly focused window, or
    /// `None` (leaving the tree untouched) when the focus is at the edge.
    pub fn move_focus(&mut self, direction: Direction) -> (r: Option<u64>)
        requires
            old(self).wf(),
        ensures
            final(self).wf(),
            final(self).monitor() == old(self).monitor(),
            match old(self).layout() {
                None => r is None && final(self).layout() == old(self).layout(),
                Some(t) => match t.spec_move_focus(direction) {
                    None => r is None && final(self).layout() == old(self).layout(),
                    Some(t2) => final(self).layout() == Some(t2) && r == Some(
                        t2.focused_leaf().0,
                    ),
                },
            },
    {
        match self.root {
            None => None,
            Some(r) => {
                let ghost t = self.shape@.unwrap();
                let (found, Ghost(t2)) = self.move_focus_at(
                    r,
                    direction,
                    Ghost(t),
                    Ghost(None::<int>),
                );
                if found {
                    self.shape = Ghost(Some(t2));
                    proof {
                        t.abs().lemma_move_wf(self.bounds, direction);
                        assert forall|j: int|
                            0 <= j < self.nodes@.len() && !t2.idxs().contains(j) implies self.nodes@[j]
                            is None by {
                            assert(!t.idxs().contains(j));
                            assert(self.nodes@[j] == old(self).nodes@[j]);
                        }
                    }
                    let w = self.focused_window_at(r, Ghost(t2), Ghost(None::<int>));
                    Some(w)
                } else {
                    None
                }
            }
        }
    }

    /// Recompute every rectangle in the subtree at node `i` from `b` downward
    /// and collect the leaves, in left-to-right order.
    fn apply_bounds(
        &mut self,
        i: usize,
        b: Bounds,
        Ghost(t): Ghost<NodeTree>,
        Ghost(par): Ghost<Option<int>>,
    ) -> (res: (Vec<(u64, Bounds)>, Ghost<NodeTree>))
        requires
            rep(old(self).nodes@, t, par),
            i as int == t.top_idx(),
            t.abs().props_ok(),
            valid_bounds(b),
        ensures
            final(self).root == old(self).root,
            final(self).bounds == old(self).bounds,
            final(self).shape@ == old(self).shape@,
            final(self).nodes@.len() == old(self).nodes@.len(),
            rep(final(self).nodes@, res.1@, par),
            res.1@.top_idx() == t.top_idx(),
            res.1@.idxs() == t.idxs(),
            res.1@.abs() == t.abs().spec_rebound(b),
            res.0@ == t.abs().spec_rebound(b).leaves(),
            forall|j: int|
                0 <= j < old(self).nodes@.len() && !t.idxs().contains(j) ==> final(
                    self).nodes@[j] == old(self).nodes@[j],
        decreases t,
    {
        let n = self.get_node(i);
        match n.ty {
            TreeNodeTy::Leaf { window } => {
                proof {
                    assert(t is Leaf);
                }
                self.nodes[i] = Some(
                    TreeNode {
                        index: n.index,
                        parent: n.parent,
                        bounds: b,
                        direction: n.direction,
                        ty: n.ty,
                    },
                );
                let mut changed: Vec<(u64, Bounds)> = Vec::new();
                changed.push((window.id, b));
                let ghost t2 = match t {
                    NodeTree::Leaf { idx, window: w, direction, .. } => NodeTree::Leaf {
                        idx,
                        window: w,
                        bounds: b,
                        direction,
                    },
                    _ => t,
                };
                proof {
                    assert(rep(self.nodes@, t2, par));
                    assert(changed@ =~= t.abs().spec_rebound(b).leaves());
                }
                (changed, Ghost(t2))
            }
            TreeNodeTy::Node { left: lc, right: rc, focus, proportions } => {
                proof {
                    assert(t is Split);
                }
                let ghost tl = match t {
                    NodeTree::Split { left, .. } => *left,
                    _ => t,
                };
                let ghost tr = match t {
                    NodeTree::Split { right, .. } => *right,
                    _ => t,
                };
                proof {
                    assert(rep(self.nodes@, tl, Some(t.top_idx())));
                    assert(rep(self.nodes@, tr, Some(t.top_idx())));
                    lemma_rep_idxs(self.nodes@, tl, Some(t.top_idx()));
                    lemma_rep_idxs(self.nodes@, tr, Some(t.top_idx()));
                    assert(proportions <= PROP_UNIT);
                    assert(tl.abs().props_ok() && tr.abs().props_ok());
                }
                let (nb, fb) = b.split(n.direction, proportions);
                self.nodes[i] = Some(
                    TreeNode {
                        index: n.index,
                        parent: n.parent,
                        bounds: b,
                        direction: n.direction,
                        ty: n.ty,
                    },
                );
                proof {
                    assert forall|j: int| tl.idxs().contains(j) implies self.nodes@[j] == old(
                        self).nodes@[j] by {
                        assert(!tl.idxs().contains(i as int));
                    }
                    assert forall|j: int| tr.idxs().contains(j) implies self.nodes@[j] == old(
                        self).nodes@[j] by {
                        assert(!tr.idxs().contains(i as int));
                    }
                    lemma_rep_frame(old(self).nodes@, self.nodes@, tl, Some(t.top_idx()));
                    lemma_rep_frame(old(self).nodes@, self.nodes@, tr, Some(t.top_idx()));
                }
                let ghost afterw: Seq<Option<TreeNode>> = self.nodes@;
                let (mut changed, Ghost(l2)) = self.apply_bounds(
                    lc,
                    nb,
                    Ghost(tl),
                    Ghost(Some(i as int)),
                );
                proof {
                    assert forall|j: int| tr.idxs().contains(j) implies self.nodes@[j]
                        == afterw[j] by {
                        assert(!tl.idxs().contains(j));
                    }
                    lemma_rep_frame(afterw, self.nodes@, tr, Some(t.top_idx()));
                }
                let ghost afterl: Seq<Option<TreeNode>> = self.nodes@;
                let (mut changed_r, Ghost(r2)) = self.apply_bounds(
                    rc,
                    fb,
                    Ghost(tr),
                    Ghost(Some(i as int)),
                );
                changed.append(&mut changed_r);
                let ghost t2 = match t {
                    NodeTree::Split { idx, direction, focus: f, prop, .. } => NodeTree::Split {
                        idx,
                        bounds: b,
                        direction,
                        focus: f,
                        prop,
                        left: Box::new(l2),
                        right: Box::new(r2),
                    },
                    _ => t,
                };
                proof {
                    lemma_rep_idxs(afterl, l2, Some(t.top_idx()));
                    assert forall|j: int| l2.idxs().contains(j) implies self.nodes@[j]
                        == afterl[j] by {
                        assert(!tr.idxs().contains(j));
                    }
                    lemma_rep_frame(afterl, self.nodes@, l2, Some(t.top_idx()));
                    assert(self.nodes@[i as int] == afterw[i as int]);
                    assert(rep(self.nodes@, t2, par));
                    assert(t2.idxs() =~= t.idxs());
                    assert(t2.abs() == t.abs().spec_rebound(b));
                    assert(changed@ == t.abs().spec_rebound(b).leaves());
                    assert forall|j: int|
                        0 <= j < old(self).nodes@.len() && !t.idxs().contains(j) implies self.nodes@[j]
                        == old(self).nodes@[j] by {
                        assert(!tl.idxs().contains(j));
                        assert(!tr.idxs().contains(j));
                        assert(j != i as int);
                    }
                }
                (changed, Ghost(t2))
            }
        }
    }

    /// Shift the proportion of the deepest ancestor of the focused leaf that
    /// partitions along `direction`'s axis, clamp it, and recompute that
    /// subtree's rectangles.
    fn resize_at(
        &mut self,
        i: usize,
        direction: Direction,
        amount: i32,
        Ghost(t): Ghost<NodeTree>,
        Ghost(par): Ghost<Option<int>>,
    ) -> (res: (Option<Vec<(u64, Bounds)>>, Ghost<NodeTree>))
        requires
            rep(old(self).nodes@, t, par),
            i as int == t.top_idx(),
            t.abs().tiled_here(),
            t.abs().props_ok(),
        ensures
            final(self).root == old(self).root,
            final(self).bounds == old(self).bounds,
            final(self).shape@ == old(self).shape@,
            final(self).nodes@.len() == old(self).nodes@.len(),
            (res.0 is Some) == (t.abs().spec_resize(direction, amount as int) is Some),
            res.0 matches Some(ch) ==> {
                &&& rep(final(self).nodes@, res.1@, par)
                &&& res.1@.top_idx() == t.top_idx()
                &&& res.1@.idxs() == t.idxs()
                &&& res.1@.abs() == t.abs().spec_resize(direction, amount as int).unwrap()
                &&& ch@ == t.abs().spec_resize_changed(direction, amount as int)
            },
            res.0 is None ==> final(self).nodes@ == old(self).nodes@ && res.1@ == t,
            forall|j: int|
                0 <= j < old(self).nodes@.len() && !t.idxs().contains(j) ==> final(
                    self).nodes@[j] == old(self).nodes@[j],
        decreases t,
    {
        let n = self.get_node(i);
        match n.ty {
            TreeNodeTy::Leaf { .. } => {
                proof {
                    assert(t is Leaf);
                }
                (None, Ghost(t))
            }
            TreeNodeTy::Node { left: lc, right: rc, focus, proportions } => {
                proof {
                    assert(t is Split);
                }
                let ghost tc = t.focused_child();
                let ghost sib = t.unfocused_child();
                let next = if focus == n.direction {
                    rc
                } else {
                    lc
                };
                proof {
                    assert(rep(self.nodes@, tc, Some(t.top_idx())));
                    assert(rep(self.nodes@, sib, Some(t.top_idx())));
                    assert(t.abs().focused_child() == tc.abs());
                    reveal_with_fuel(LayoutTree::tiled, 3);
                    assert(tc.abs().tiled_here());
                    assert(tc.abs().props_ok());
                    lemma_rep_idxs(self.nodes@, sib, Some(t.top_idx()));
                    lemma_rep_idxs(self.nodes@, tc, Some(t.top_idx()));
                    tc.abs().lemma_resize_some(direction, amount as int);
                }
                let (sub, Ghost(c2)) = self.resize_at(
                    next,
                    direction,
                    amount,
                    Ghost(tc),
                    Ghost(Some(i as int)),
                );
                match sub {
                    Some(changed) => {
                        let ghost t2 = match t {
                            NodeTree::Split { idx, bounds, direction: dn, focus: f, prop, left, right } => {
                                if f == dn {
                                    NodeTree::Split {
                                        idx,
                                        bounds,
                                        direction: dn,
                                        focus: f,
                                        prop,
                                        left,
                                        right: Box::new(c2),
                                    }
                                } else {
                                    NodeTree::Split {
                                        idx,
                                        bounds,
                                        direction: dn,
                                        focus: f,
                                        prop,
                                        left: Box::new(c2),
                                        right,
                                    }
                                }
                            }
                            _ => t,
                        };
                        proof {
                            assert(!tc.idxs().contains(i as int));
                            assert(self.nodes@[i as int] == old(self).nodes@[i as int]);
                            assert forall|j: int| sib.idxs().contains(j) implies self.nodes@[j]
                                == old(self).nodes@[j] by {
                                assert(!tc.idxs().contains(j));
                            }
                            lemma_rep_frame(old(self).nodes@, self.nodes@, sib, Some(t.top_idx()));
                            assert(rep(self.nodes@, t2, par));
                            assert(t2.abs() == t.abs().spec_resize(direction, amount as int).unwrap());
                            assert(changed@ == t.abs().spec_resize_changed(direction, amount as int));
                            assert(t2.idxs() =~= t.idxs());
                        }
                        (Some(changed), Ghost(t2))
                    }
                    None => {
                        if n.direction.is_on_same_line(direction) {
                            let base: i64 = proportions as i64;
                            let delta: i64 = if n.direction == direction {
                                amount as i64
                            } else {
                                -(amount as i64)
                            };
                            let cand: i64 = base + delta;
                            let p2: u32 = if cand < PROP_MIN as i64 {
                                PROP_MIN
                            } else if cand > PROP_MAX as i64 {
                                PROP_MAX
                            } else {
                                cand as u32
                            };
                            self.nodes[i] = Some(
                                TreeNode {
                                    index: n.index,
                                    parent: n.parent,
                                    bounds: n.bounds,
                                    direction: n.direction,
                                    ty: TreeNodeTy::Node {
                                        left: lc,
                                        right: rc,
                                        focus,
                                        proportions: p2,
                                    },
                                },
                            );
                            let ghost adjusted = match t {
                                NodeTree::Split { idx, bounds, direction: dn, focus: f, prop: _p, left, right } => {
                                    NodeTree::Split {
                                        idx,
                                        bounds,
                                        direction: dn,
                                        focus: f,
                                        prop: p2 as int,
                                        left,
                                        right,
                                    }
                                }
                                _ => t,
                            };
                            proof {
                                assert forall|j: int| tc.idxs().contains(j) implies self.nodes@[j]
                                    == old(self).nodes@[j] by {
                                    assert(!tc.idxs().contains(i as int));
                                }
                                assert forall|j: int| sib.idxs().contains(j) implies self.nodes@[j]
                                    == old(self).nodes@[j] by {
                                    assert(!sib.idxs().contains(i as int));
                                }
                                lemma_rep_frame(old(self).nodes@, self.nodes@, tc, Some(t.top_idx()));
                                lemma_rep_frame(old(self).nodes@, self.nodes@, sib, Some(t.top_idx()));
                                assert(rep(self.nodes@, adjusted, par));
                                assert(adjusted.abs().props_ok());
                                assert(valid_bounds(n.bounds));
                            }
                            let (changed, Ghost(t2)) = self.apply_bounds(
                                i,
                                n.bounds,
                                Ghost(adjusted),
                                Ghost(par),
                            );
                            proof {
                                assert(t2.abs() == t.abs().spec_resize(direction, amount as int).unwrap());
                                assert(changed@ == t.abs().spec_resize_changed(direction, amount as int));
                                assert(t2.idxs() =~= t.idxs());
                                assert forall|j: int|
                                    0 <= j < old(self).nodes@.len() && !t.idxs().contains(j) implies self.nodes@[j]
                                    == old(self).nodes@[j] by {
                                    assert(j != i as int);
                                }
                            }
                            (Some(changed), Ghost(t2))
                        } else {
                            (None, Ghost(t))
                        }
                    }
                }
            }
        }
    }

    /// Resize the focused window toward `direction` by `amount` thousandths
    /// of the relevant ancestor's side, clamped to keep every tile usable.
    /// Returns the geometry changes, or `None` when no ancestor of the
    /// focused leaf partitions along that axis.
    pub fn resize_focused_window(&mut self, direction: Direction, amount: i32) -> (r: Option<
        Vec<(u64, Bounds)>,
    >)
        requires
            old(self).wf(),
        ensures
            final(self).wf(),
            final(self).monitor() == old(self).monitor(),
            match old(self).layout() {
                None => r is None && final(self).layout() == old(self).layout(),
                Some(t) => match t.spec_resize(direction, amount as int) {
                    None => r is None && final(self).layout() == old(self).layout(),
                    Some(t2) => {
                        &&& final(self).layout() == Some(t2)
                        &&& r matches Some(ch) && ch@ == t.spec_resize_changed(
                            direction,
                            amount as int,
                        )
                    }
                },
            },
    {
        match self.root {
            None => None,
            Some(r) => {
                let ghost t = self.shape@.unwrap();
                proof {
                    assert(t.abs().rect() == self.bounds);
                    assert(t.abs().tiled_here());
                }
                let (sub, Ghost(t2)) = self.resize_at(
                    r,
                    direction,
                    amount,
                    Ghost(t),
                    Ghost(None::<int>),
                );
                match sub {
                    Some(changed) => {
                        self.shape = Ghost(Some(t2));
                        proof {
                            t.abs().lemma_resize_wf(self.bounds, direction, amount as int);
                            assert forall|j: int|
                                0 <= j < self.nodes@.len() && !t2.idxs().contains(j) implies self.nodes@[j]
                                is None by {
                                assert(!t.idxs().contains(j));
                                assert(self.nodes@[j] == old(self).nodes@[j]);
                            }
                        }
                        Some(changed)
                    }
                    None => None,
                }
            }
        }
    }

    /// Remove the focused leaf below the split at node `i`: the deepest split
    /// on the focus chain is spliced out, its sibling subtree taking its
    /// place and rectangle.  Returns the removed window, the arena index of
    /// the subtree that replaced node `i`, the changed-set and the new ghost
    /// subtree.
    fn remove_at(
        &mut self,
        i: usize,
        Ghost(t): Ghost<NodeTree>,
        Ghost(par): Ghost<Option<int>>,
    ) -> (res: (u64, usize, Vec<(u64, Bounds)>, Ghost<NodeTree>))
        requires
            rep(old(self).nodes@, t, par),
            i as int == t.top_idx(),
            t is Split,
            t.abs().tiled_here(),
            t.abs().props_ok(),
        ensures
            final(self).root == old(self).root,
            final(self).bounds == old(self).bounds,
            final(self).shape@ == old(self).shape@,
            final(self).nodes@.len() == old(self).nodes@.len(),
            rep(final(self).nodes@, res.3@, par),
            res.3@.top_idx() == res.1 as int,
            res.3@.idxs().subset_of(t.idxs()),
            res.3@.abs() == t.abs().spec_remove(),
            res.0 == t.abs().focused_leaf().0,
            res.2@ == t.abs().spec_remove_changed(),
            forall|j: int|
                0 <= j < old(self).nodes@.len() && !t.idxs().contains(j) ==> final(
                    self).nodes@[j] == old(self).nodes@[j],
            forall|j: int|
                t.idxs().contains(j) && !res.3@.idxs().contains(j) ==> final(
                    self).nodes@[j] is None,
        decreases t,
    {
        let n = self.get_node(i);
        let (lc, rc, focus) = match n.ty {
            TreeNodeTy::Node { left, right, focus, .. } => (left, right, focus),
            TreeNodeTy::Leaf { .. } => {
                proof {
                    assert(false);
                }
                (0usize, 0usize, Direction::Right)
            }
        };
        let (fi, si) = if focus == n.direction {
            (rc, lc)
        } else {
            (lc, rc)
        };
        let ghost tc = t.focused_child();
        let ghost sib = t.unfocused_child();
        proof {
            assert(rep(self.nodes@, tc, Some(t.top_idx())));
            assert(rep(self.nodes@, sib, Some(t.top_idx())));
            assert(fi as int == tc.top_idx());
            assert(si as int == sib.top_idx());
            assert(t.abs().focused_child() == tc.abs());
            assert(t.abs().unfocused_child() == sib.abs());
            reveal_with_fuel(LayoutTree::tiled, 3);
            assert(tc.abs().tiled_here());
            assert(tc.abs().props_ok());
            assert(sib.abs().props_ok());
            lemma_rep_idxs(self.nodes@, sib, Some(t.top_idx()));
            lemma_rep_idxs(self.nodes@, tc, Some(t.top_idx()));
        }
        let fnode = self.get_node(fi);
        match fnode.ty {
            TreeNodeTy::Leaf { window } => {
                proof {
                    assert(tc is Leaf);
                    assert(fi != si && fi as int != i as int && si as int != i as int);
                }
                self.nodes[fi] = None;
                let snode = self.get_node(si);
                self.nodes[si] = Some(
                    TreeNode {
                        index: snode.index,
                        parent: n.parent,
                        bounds: snode.bounds,
                        direction: snode.direction,
                        ty: snode.ty,
                    },
                );
                self.nodes[i] = None;
                proof {
                    assert forall|j: int|
                        sib.idxs().contains(j) && j != sib.top_idx() implies self.nodes@[j] == old(
                        self).nodes@[j] by {
                        assert(!tc.idxs().contains(j));
                        assert(j != i as int);
                    }
                    lemma_rep_reparent(
                        old(self).nodes@,
                        self.nodes@,
                        sib,
                        Some(t.top_idx()),
                        par,
                    );
                    assert(valid_bounds(n.bounds));
                }
                let ghost aftersplice: Seq<Option<TreeNode>> = self.nodes@;
                let (changed, Ghost(s2)) = self.apply_bounds(si, n.bounds, Ghost(sib), Ghost(par));
                proof {
                    assert(s2.abs() == t.abs().spec_remove());
                    assert(changed@ == t.abs().spec_remove_changed());
                    assert(s2.idxs() == sib.idxs());
                    assert(s2.idxs().subset_of(t.idxs()));
                    reveal_with_fuel(LayoutTree::focused_leaf, 3);
                    assert(t.abs().focused_leaf().0 == window.id);
                    assert forall|j: int|
                        0 <= j < old(self).nodes@.len() && !t.idxs().contains(j) implies self.nodes@[j]
                        == old(self).nodes@[j] by {
                        assert(!sib.idxs().contains(j));
                        assert(j != i as int && j != fi as int && j != si as int);
                        assert(self.nodes@[j] == aftersplice[j]);
                    }
                    assert forall|j: int|
                        t.idxs().contains(j) && !s2.idxs().contains(j) implies self.nodes@[j]
                        is None by {
                        assert(!sib.idxs().contains(j));
                        assert(self.nodes@[j] == aftersplice[j]);
                        assert(tc.idxs() =~= Set::empty().insert(fi as int));
                        assert(j == i as int || j == fi as int);
                    }
                }
                (window.id, si, changed, Ghost(s2))
            }
            TreeNodeTy::Node { .. } => {
                proof {
                    assert(tc is Split);
                }
                let (rid, newci, changed, Ghost(c2)) = self.remove_at(
                    fi,
                    Ghost(tc),
                    Ghost(Some(i as int)),
                );
                let ghost afterchild: Seq<Option<TreeNode>> = self.nodes@;
                proof {
                    assert(!tc.idxs().contains(i as int));
                    assert(self.nodes@[i as int] == old(self).nodes@[i as int]);
                    lemma_rep_idxs(afterchild, c2, Some(i as int));
                }
                let (nl, nr) = if focus == n.direction {
                    (lc, newci)
                } else {
                    (newci, rc)
                };
                let n2 = self.get_node(i);
                self.nodes[i] = Some(
                    TreeNode {
                        index: n2.index,
                        parent: n2.parent,
                        bounds: n2.bounds,
                        direction: n2.direction,
                        ty: TreeNodeTy::Node {
                            left: nl,
                            right: nr,
                            focus,
                            proportions: match n2.ty {
                                TreeNodeTy::Node { proportions, .. } => proportions,
                                TreeNodeTy::Leaf { .. } => PROP_HALF,
                            },
                        },
                    },
                );
                let ghost t2 = match t {
                    NodeTree::Split { idx, bounds, direction: dn, focus: f, prop, left, right } => {
                        if f == dn {
                            NodeTree::Split {
                                idx,
                                bounds,
                                direction: dn,
                                focus: f,
                                prop,
                                left,
                                right: Box::new(c2),
                            }
                        } else {
                            NodeTree::Split {
                                idx,
                                bounds,
                                direction: dn,
                                focus: f,
                                prop,
                                left: Box::new(c2),
                                right,
                            }
                        }
                    }
                    _ => t,
                };
                proof {
                    assert forall|j: int| c2.idxs().contains(j) implies self.nodes@[j]
                        == afterchild[j] by {
                        assert(!c2.idxs().contains(i as int));
                    }
                    lemma_rep_frame(afterchild, self.nodes@, c2, Some(i as int));
                    assert forall|j: int| sib.idxs().contains(j) implies self.nodes@[j] == old(
                        self).nodes@[j] by {
                        assert(!tc.idxs().contains(j));
                        assert(j != i as int);
                    }
                    lemma_rep_frame(old(self).nodes@, self.nodes@, sib, Some(t.top_idx()));
                    assert(rep(self.nodes@, t2, par));
                    assert(t2.abs() == t.abs().spec_remove());
                    assert(changed@ == t.abs().spec_remove_changed());
                    assert(rid == t.abs().focused_leaf().0);
                    assert(t2.idxs().subset_of(t.idxs()));
                    assert forall|j: int|
                        t.idxs().contains(j) && !t2.idxs().contains(j) implies self.nodes@[j]
                        is None by {
                        assert(!sib.idxs().contains(j));
                        assert(j != i as int);
                        assert(tc.idxs().contains(j) && !c2.idxs().contains(j));
                        assert(self.nodes@[j] == afterchild[j]);
                    }
                }
                (rid, i, changed, Ghost(t2))
            }
        }
    }

    /// Remove the focused leaf.  On an empty tree returns `None`; on a lone
    /// root leaf the arena is emptied and no window remains focused.
    /// Otherwise returns the removed window, the window focused afterwards
    /// and the geometry changes for the spliced-in sibling subtree.
    pub fn remove_focused_window(&mut self) -> (r: Option<(u64, Option<u64>, Vec<(u64, Bounds)>)>)
        requires
            old(self).wf(),
        ensures
            final(self).wf(),
            final(self).monitor() == old(self).monitor(),
            match old(self).layout() {
                None => r is None && final(self).layout() == old(self).layout(),
                Some(t) => r matches Some(rr) && {
                    &&& rr.0 == t.focused_leaf().0
                    &&& if t is Leaf {
                        &&& rr.1 is None
                        &&& rr.2@ == Seq::<(u64, Bounds)>::empty()
                        &&& final(self).layout() is None
                    } else {
                        &&& final(self).layout() == Some(t.spec_remove())
                        &&& rr.1 == Some(t.spec_remove().focused_leaf().0)
                        &&& rr.2@ == t.spec_remove_changed()
                    }
                },
            },
    {
        match self.root {
            None => None,
            Some(rt) => {
                let ghost t = self.shape@.unwrap();
                let n = self.get_node(rt);
                match n.ty {
                    TreeNodeTy::Leaf { window } => {
                        proof {
                            assert(t is Leaf);
                        }
                        self.nodes[rt] = None;
                        self.root = None;
                        self.shape = Ghost(None);
                        proof {
                            assert forall|j: int|
                                0 <= j < self.nodes@.len() implies self.nodes@[j] is None by {
                                if j != rt as int {
                                    assert(!t.idxs().contains(j));
                                    assert(self.nodes@[j] == old(self).nodes@[j]);
                                }
                            }
                        }
                        let empty_changed: Vec<(u64, Bounds)> = Vec::new();
                        proof {
                            assert(empty_changed@ =~= Seq::<(u64, Bounds)>::empty());
                        }
                        Some((window.id, None, empty_changed))
                    }
                    TreeNodeTy::Node { .. } => {
                        proof {
                            assert(t is Split);
                            assert(t.abs().rect() == self.bounds);
                            assert(t.abs().tiled_here());
                        }
                        let (rid, nri, changed, Ghost(t2)) = self.remove_at(
                            rt,
                            Ghost(t),
                            Ghost(None::<int>),
                        );
                        self.root = Some(nri);
                        self.shape = Ghost(Some(t2));
                        proof {
                            t.abs().lemma_remove_wf(self.bounds);
                            assert(t2.abs().windows().subset_of(t.abs().windows()));
                            assert forall|j: int|
                                0 <= j < self.nodes@.len() && !t2.idxs().contains(j) implies self.nodes@[j]
                                is None by {
                                if !t.idxs().contains(j) {
                                    assert(self.nodes@[j] == old(self).nodes@[j]);
                                } else {
                                }
                            }
                        }
                        let nf = self.focused_window_at(nri, Ghost(t2), Ghost(None::<int>));
                        Some((rid, Some(nf), changed))
                    }
                }
            }
        }
    }

    /// Collect the leaves of the subtree at node `i`, left to right.
    fn leaves_at(
        &self,
        i: usize,
        Ghost(t): Ghost<NodeTree>,
        Ghost(par): Ghost<Option<int>>,
    ) -> (r: Vec<(u64, Bounds)>)
        requires
            rep(self.nodes@, t, par),
            i as int == t.top_idx(),
        ensures
            r@ == t.abs().leaves(),
        decreases t,
    {
        let n = self.get_node(i);
        match n.ty {
            TreeNodeTy::Leaf { window } => {
                proof {
                    assert(t is Leaf);
                }
                let mut v: Vec<(u64, Bounds)> = Vec::new();
                v.push((window.id, n.bounds));
                proof {
                    assert(v@ =~= t.abs().leaves());
                }
                v
            }
            TreeNodeTy::Node { left: lc, right: rc, .. } => {
                proof {
                    assert(t is Split);
                }
                let ghost tl = match t {
                    NodeTree::Split { left, .. } => *left,
                    _ => t,
                };
                let ghost tr = match t {
                    NodeTree::Split { right, .. } => *right,
                    _ => t,
                };
                proof {
                    assert(rep(self.nodes@, tl, Some(t.top_idx())));
                    assert(rep(self.nodes@, tr, Some(t.top_idx())));
                }
                let mut l = self.leaves_at(lc, Ghost(tl), Ghost(Some(i as int)));
                let mut r2 = self.leaves_at(rc, Ghost(tr), Ghost(Some(i as int)));
                l.append(&mut r2);
                l
            }
        }
    }

    /// The current leaves, in left-to-right order, as `(window, rectangle)`
    /// pairs; empty for an empty tree.
    pub fn leaves(&self) -> (r: Vec<(u64, Bounds)>)
        requires
            self.wf(),
        ensures
            r@ == match self.layout() {
                None => Seq::<(u64, Bounds)>::empty(),
                Some(t) => t.leaves(),
            },
    {
        match self.root {
            None => {
                let v: Vec<(u64, Bounds)> = Vec::new();
                proof {
                    assert(v@ =~= Seq::<(u64, Bounds)>::empty());
                }
                v
            }
            Some(rt) => self.leaves_at(rt, Ghost(self.shape@.unwrap()), Ghost(None::<int>)),
        }
    }

    /// The engine's invariant, made usable from outside: the layout of a
    /// well-formed tree is coherent with the monitor, carries clamped
    /// proportions, and holds each window in at most one leaf.
    pub proof fn lemma_layout_coherent(self)
        requires
            self.wf(),
        ensures
            self.layout() matches Some(t) ==> t.tiled(self.monitor()) && t.props_ok()
                && t.uniq(),
    {
    }

    /// Coverage at the engine level: the leaves of a well-formed tree tile
    /// the monitor exactly, with no gap and no overlap.
    pub proof fn lemma_monitor_coverage(self)
        requires
            self.wf(),
        ensures
            self.layout() matches Some(t) ==> {
                &&& crate::laws::union_rects(t.leaves()) == crate::laws::rect_points(
                    self.monitor(),
                )
                &&& forall|k1: int, k2: int|
                    0 <= k1 < k2 < t.leaves().len() ==> crate::laws::rect_points(
                        t.leaves()[k1].1,
                    ).disjoint(crate::laws::rect_points(t.leaves()[k2].1))
            },
    {
        match self.shape@ {
            None => {}
            Some(t) => {
                crate::laws::lemma_coverage(t.abs(), self.bounds);
            }
        }
    }

    /// Whether slot `j` holds a node.
    pub closed spec fn occupied(self, j: int) -> bool {
        0 <= j < self.nodes@.len() && self.nodes@[j] is Some
    }

    /// The root slot, if the tree is non-empty.
    pub closed spec fn root_index(self) -> Option<int> {
        opt_idx(self.root)
    }

    /// The parent link stored at an occupied slot.
    pub closed spec fn parent_index(self, j: int) -> Option<int> {
        opt_idx(self.nodes@[j].unwrap().parent)
    }

    /// Whether the node at slot `j` is a split.
    pub closed spec fn is_split_at(self, j: int) -> bool {
        self.occupied(j) && ty_is_node(self.nodes@[j].unwrap().ty)
    }

    /// The left child index stored at a split slot.
    pub closed spec fn left_child(self, j: int) -> int {
        ty_left(self.nodes@[j].unwrap().ty) as int
    }

    /// The right child index stored at a split slot.
    pub closed spec fn right_child(self, j: int) -> int {
        ty_right(self.nodes@[j].unwrap().ty) as int
    }

    /// Whether the split at slot `p` lists slot `j` as one of its children.
    pub open spec fn lists_child(self, p: int, j: int) -> bool {
        self.is_split_at(p) && (self.left_child(p) == j || self.right_child(p) == j)
    }

    /// Tree validity over the arena itself: every occupied non-root slot is
    /// listed by its parent as exactly one of `left`/`right`, children are
    /// back-linked to the split that lists them (so no index is a child of
    /// two parents, nor of one parent twice), and the root has no parent.
    pub proof fn lemma_tree_validity(self)
        requires
            self.wf(),
        ensures
            forall|j: int|
                self.occupied(j) && self.root_index() != Some(j) ==> {
                    &&& #[trigger] self.parent_index(j) matches Some(p)
                    &&& self.occupied(p)
                    &&& self.lists_child(p, j)
                    &&& self.left_child(p) != self.right_child(p)
                },
            forall|p: int, j: int|
                self.occupied(p) && #[trigger] self.lists_child(p, j) ==> self.occupied(j)
                    && self.parent_index(j) == Some(p) && self.left_child(p)
                    != self.right_child(p),
            self.root_index() matches Some(rt) ==> self.occupied(rt) && self.parent_index(
                rt,
            ) is None,
    {
        match self.shape@ {
            None => {}
            Some(t) => {
                lemma_rep_parent_child(self.nodes@, t, None::<int>);
                lemma_rep_idxs(self.nodes@, t, None::<int>);
                assert forall|j: int|
                    self.occupied(j) && self.root_index() != Some(j) implies {
                    &&& #[trigger] self.parent_index(j) matches Some(p)
                    &&& self.occupied(p)
                    &&& self.lists_child(p, j)
                    &&& self.left_child(p) != self.right_child(p)
                } by {
                    assert(t.idxs().contains(j));
                    assert(j != t.top_idx());
                }
                assert forall|p: int, j: int|
                    self.occupied(p) && #[trigger] self.lists_child(p, j) implies self.occupied(j)
                    && self.parent_index(j) == Some(p) && self.left_child(p)
                    != self.right_child(p) by {
                    assert(t.idxs().contains(p));
                }
            }
        }
    }

    /// The window currently holding focus, if any.
    pub fn focused_window(&self) -> (r: Option<u64>)
        requires
            self.wf(),
        ensures
            r == match self.layout() {
                None => None::<u64>,
                Some(t) => Some(t.focused_leaf().0),
            },
    {
        match self.root {
            None => None,
            Some(rt) => Some(
                self.focused_window_at(rt, Ghost(self.shape@.unwrap()), Ghost(None::<int>)),
            ),
        }
    }
}

} // verus!
