//! The mathematical model of the tiling tree.
//!
//! `LayoutTree` is the ghost shape of a `layout::WindowTree`: the same binary
//! tree, but freed from the arena representation.  All public contracts of the
//! engine speak in terms of this type and of the spec operations below, which
//! mirror each engine operation one to one.

use vstd::prelude::*;
use crate::util::{
    Bounds, Direction, same_axis, spec_next_axis, spec_split, valid_bounds, PROP_HALF, PROP_MAX,
    PROP_MIN, PROP_UNIT,
};

verus! {

/// The shape of a non-empty tiling tree: a leaf ties a window to a rectangle,
/// a split divides its rectangle between two subtrees along one axis.
pub ghost enum LayoutTree {
    Leaf { window: u64, bounds: Bounds, direction: Direction },
    Split {
        bounds: Bounds,
        direction: Direction,
        focus: Direction,
        prop: int,
        left: Box<LayoutTree>,
        right: Box<LayoutTree>,
    },
}

/// Clamp a proportion into the safe interval, keeping tiles from
/// degenerating to zero width.
pub open spec fn clamp_prop(v: int) -> int {
    if v < PROP_MIN as int {
        PROP_MIN as int
    } else if v > PROP_MAX as int {
        PROP_MAX as int
    } else {
        v
    }
}

impl LayoutTree {
    /// The rectangle this subtree occupies.
    pub open spec fn rect(self) -> Bounds {
        match self {
            LayoutTree::Leaf { bounds, .. } => bounds,
            LayoutTree::Split { bounds, .. } => bounds,
        }
    }

    /// At a split, whether the focused child is the right child.
    pub open spec fn focus_right(self) -> bool {
        match self {
            LayoutTree::Split { focus, direction, .. } => focus == direction,
            LayoutTree::Leaf { .. } => false,
        }
    }

    /// The focused child of a split (the tree itself at a leaf).
    pub open spec fn focused_child(self) -> LayoutTree {
        match self {
            LayoutTree::Split { focus, direction, left, right, .. } => if focus == direction {
                *right
            } else {
                *left
            },
            LayoutTree::Leaf { .. } => self,
        }
    }

    /// The sibling of the focused child of a split.
    pub open spec fn unfocused_child(self) -> LayoutTree {
        match self {
            LayoutTree::Split { focus, direction, left, right, .. } => if focus == direction {
                *left
            } else {
                *right
            },
            LayoutTree::Leaf { .. } => self,
        }
    }

    /// The window and rectangle reached by descending the focus chain.
    pub open spec fn focused_leaf(self) -> (u64, Bounds)
        decreases self,
    {
        match self {
            LayoutTree::Leaf { window, bounds, .. } => (window, bounds),
            LayoutTree::Split { .. } => self.focused_child().focused_leaf(),
        }
    }

    /// All leaves, in left-to-right order, as `(window, rectangle)` pairs.
    pub open spec fn leaves(self) -> Seq<(u64, Bounds)>
        decreases self,
    {
        match self {
            LayoutTree::Leaf { window, bounds, .. } => seq![(window, bounds)],
            LayoutTree::Split { left, right, .. } => left.leaves() + right.leaves(),
        }
    }

    /// The set of window ids held by the leaves.
    pub open spec fn windows(self) -> Set<u64>
        decreases self,
    {
        match self {
            LayoutTree::Leaf { window, .. } => Set::empty().insert(window),
            LayoutTree::Split { left, right, .. } => left.windows() + right.windows(),
        }
    }

    /// Each window id appears in at most one leaf.
    pub open spec fn uniq(self) -> bool
        decreases self,
    {
        match self {
            LayoutTree::Leaf { .. } => true,
            LayoutTree::Split { left, right, .. } => {
                &&& left.uniq()
                &&& right.uniq()
                &&& left.windows().disjoint(right.windows())
            }
        }
    }

    /// Bounds coherence: the subtree occupies exactly `outer`, and every
    /// split hands its children exactly the two slices of its own rectangle.
    pub open spec fn tiled(self, outer: Bounds) -> bool
        decreases self,
    {
        &&& self.rect() == outer
        &&& valid_bounds(outer)
        &&& match self {
            LayoutTree::Leaf { .. } => true,
            LayoutTree::Split { direction, prop, left, right, .. } => {
                let pieces = spec_split(outer, direction, prop);
                left.tiled(pieces.0) && right.tiled(pieces.1)
            }
        }
    }

    /// The subtree is coherent with its own stored rectangle.
    pub open spec fn tiled_here(self) -> bool {
        self.tiled(self.rect())
    }

    /// Every split carries a clamped proportion and a focus on its own axis.
    pub open spec fn props_ok(self) -> bool
        decreases self,
    {
        match self {
            LayoutTree::Leaf { .. } => true,
            LayoutTree::Split { direction, focus, prop, left, right, .. } => {
                &&& PROP_MIN as int <= prop <= PROP_MAX as int
                &&& same_axis(focus, direction)
                &&& left.props_ok()
                &&& right.props_ok()
            }
        }
    }

    /// The rectangle of the leaf holding `id`, searching left before right.
    pub open spec fn lookup(self, id: u64) -> Option<Bounds>
        decreases self,
    {
        match self {
            LayoutTree::Leaf { window, bounds, .. } => if window == id {
                Some(bounds)
            } else {
                None
            },
            LayoutTree::Split { left, right, .. } => match left.lookup(id) {
                Some(b) => Some(b),
                None => right.lookup(id),
            },
        }
    }

    /// The tree after inserting `id`: the focused leaf is split in two along
    /// its own direction, the old window near, the new one far and focused.
    pub open spec fn spec_insert(self, id: u64) -> LayoutTree
        decreases self,
    {
        match self {
            LayoutTree::Leaf { window, bounds, direction } => {
                let pieces = spec_split(bounds, direction, PROP_HALF as int);
                LayoutTree::Split {
                    bounds,
                    direction,
                    focus: direction,
                    prop: PROP_HALF as int,
                    left: Box::new(
                        LayoutTree::Leaf { window, bounds: pieces.0, direction },
                    ),
                    right: Box::new(
                        LayoutTree::Leaf {
                            window: id,
                            bounds: pieces.1,
                            direction: spec_next_axis(direction),
                        },
                    ),
                }
            }
            LayoutTree::Split { bounds, direction, focus, prop, left, right } => {
                if focus == direction {
                    LayoutTree::Split {
                        bounds,
                        direction,
                        focus,
                        prop,
                        left,
                        right: Box::new(right.spec_insert(id)),
                    }
                } else {
                    LayoutTree::Split {
                        bounds,
                        direction,
                        focus,
                        prop,
                        left: Box::new(left.spec_insert(id)),
                        right,
                    }
                }
            }
        }
    }

    /// The changed-set of inserting `id`: the two leaves of the new split.
    pub open spec fn spec_insert_changed(self, id: u64) -> Seq<(u64, Bounds)>
        decreases self,
    {
        match self {
            LayoutTree::Leaf { window, bounds, direction } => {
                let pieces = spec_split(bounds, direction, PROP_HALF as int);
                seq![(window, pieces.0), (id, pieces.1)]
            }
            LayoutTree::Split { .. } => self.focused_child().spec_insert_changed(id),
        }
    }

    /// The tree with every rectangle recomputed from `b` downward, keeping
    /// structure, directions, focus and proportions.
    pub open spec fn spec_rebound(self, b: Bounds) -> LayoutTree
        decreases self,
    {
        match self {
            LayoutTree::Leaf { window, direction, .. } => LayoutTree::Leaf {
                window,
                bounds: b,
                direction,
            },
            LayoutTree::Split { direction, focus, prop, left, right, .. } => {
                let pieces = spec_split(b, direction, prop);
                LayoutTree::Split {
                    bounds: b,
                    direction,
                    focus,
                    prop,
                    left: Box::new(left.spec_rebound(pieces.0)),
                    right: Box::new(right.spec_rebound(pieces.1)),
                }
            }
        }
    }

    /// The tree after removing the focused leaf.  At the deepest split on the
    /// focus chain the sibling subtree takes the split's place and is given
    /// the split's rectangle.  At a lone leaf the tree is returned unchanged;
    /// the engine handles that case by emptying the arena instead.
    pub open spec fn spec_remove(self) -> LayoutTree
        decreases self,
    {
        match self {
            LayoutTree::Leaf { .. } => self,
            LayoutTree::Split { bounds, direction, focus, prop, left, right } => {
                let fc = self.focused_child();
                if fc is Leaf {
                    self.unfocused_child().spec_rebound(bounds)
                } else {
                    if focus == direction {
                        LayoutTree::Split {
                            bounds,
                            direction,
                            focus,
                            prop,
                            left,
                            right: Box::new(fc.spec_remove()),
                        }
                    } else {
                        LayoutTree::Split {
                            bounds,
                            direction,
                            focus,
                            prop,
                            left: Box::new(fc.spec_remove()),
                            right,
                        }
                    }
                }
            }
        }
    }

    /// The changed-set of removing the focused leaf: all leaves of the
    /// spliced-in subtree, whose rectangles were recomputed.
    pub open spec fn spec_remove_changed(self) -> Seq<(u64, Bounds)>
        decreases self,
    {
        match self {
            LayoutTree::Leaf { .. } => Seq::empty(),
            LayoutTree::Split { bounds, .. } => {
                let fc = self.focused_child();
                if fc is Leaf {
                    self.unfocused_child().spec_rebound(bounds).leaves()
                } else {
                    fc.spec_remove_changed()
                }
            }
        }
    }

    /// The tree after moving focus toward `d`, or `None` when no ancestor of
    /// the focused leaf partitions along `d`'s axis away from `d`.  The
    /// deepest such ancestor has its focus flipped to `d`.
    pub open spec fn spec_move_focus(self, d: Direction) -> Option<LayoutTree>
        decreases self,
    {
        match self {
            LayoutTree::Leaf { .. } => None,
            LayoutTree::Split { bounds, direction, focus, prop, left, right } => {
                let fc = self.focused_child();
                match fc.spec_move_focus(d) {
                    Some(fc2) => Some(
                        if focus == direction {
                            LayoutTree::Split {
                                bounds,
                                direction,
                                focus,
                                prop,
                                left,
                                right: Box::new(fc2),
                            }
                        } else {
                            LayoutTree::Split {
                                bounds,
                                direction,
                                focus,
                                prop,
                                left: Box::new(fc2),
                                right,
                            }
                        },
                    ),
                    None => if same_axis(direction, d) && focus != d {
                        Some(
                            LayoutTree::Split { bounds, direction, focus: d, prop, left, right },
                        )
                    } else {
                        None
                    },
                }
            }
        }
    }

    /// Whether some ancestor of the focused leaf partitions along `d`'s axis.
    pub open spec fn resizable(self, d: Direction) -> bool
        decreases self,
    {
        match self {
            LayoutTree::Leaf { .. } => false,
            LayoutTree::Split { direction, .. } => {
                self.focused_child().resizable(d) || same_axis(direction, d)
            }
        }
    }

    /// The tree after resizing the focused window toward `d` by `amount`
    /// thousandths, or `None` when `!self.resizable(d)`.  The deepest
    /// ancestor on `d`'s axis has its proportion shifted (sign depending on
    /// which end of the axis it measures from), clamped, and its subtree's
    /// rectangles recomputed.
    pub open spec fn spec_resize(self, d: Direction, amount: int) -> Option<LayoutTree>
        decreases self,
    {
        match self {
            LayoutTree::Leaf { .. } => None,
            LayoutTree::Split { bounds, direction, focus, prop, left, right } => {
                let fc = self.focused_child();
                match fc.spec_resize(d, amount) {
                    Some(fc2) => Some(
                        if focus == direction {
                            LayoutTree::Split {
                                bounds,
                                direction,
                                focus,
                                prop,
                                left,
                                right: Box::new(fc2),
                            }
                        } else {
                            LayoutTree::Split {
                                bounds,
                                direction,
                                focus,
                                prop,
                                left: Box::new(fc2),
                                right,
                            }
                        },
                    ),
                    None => if same_axis(direction, d) {
                        let signed = if direction == d {
                            amount
                        } else {
                            -amount
                        };
                        let p2 = clamp_prop(prop + signed);
                        Some(
                            LayoutTree::Split {
                                bounds,
                                direction,
                                focus,
                                prop: p2,
                                left,
                                right,
                            }.spec_rebound(bounds),
                        )
                    } else {
                        None
                    },
                }
            }
        }
    }

    /// The changed-set of a resize: all leaves under the adjusted ancestor.
    pub open spec fn spec_resize_changed(self, d: Direction, amount: int) -> Seq<(u64, Bounds)>
        decreases self,
    {
        match self {
            LayoutTree::Leaf { .. } => Seq::empty(),
            LayoutTree::Split { bounds, direction, focus, prop, left, right } => {
                let fc = self.focused_child();
                if fc.resizable(d) {
                    fc.spec_resize_changed(d, amount)
                } else if same_axis(direction, d) {
                    let signed = if direction == d {
                        amount
                    } else {
                        -amount
                    };
                    let p2 = clamp_prop(prop + signed);
                    LayoutTree::Split {
                        bounds,
                        direction,
                        focus,
                        prop: p2,
                        left,
                        right,
                    }.spec_rebound(bounds).leaves()
                } else {
                    Seq::empty()
                }
            }
        }
    }

    /// Whether a resize stays inside the clamp interval, so that no clamping
    /// disturbs it.
    pub open spec fn resize_in_range(self, d: Direction, amount: int) -> bool
        decreases self,
    {
        match self {
            LayoutTree::Leaf { .. } => true,
            LayoutTree::Split { direction, prop, .. } => {
                let fc = self.focused_child();
                if fc.resizable(d) {
                    fc.resize_in_range(d, amount)
                } else if same_axis(direction, d) {
                    let signed = if direction == d {
                        amount
                    } else {
                        -amount
                    };
                    PROP_MIN as int <= prop + signed <= PROP_MAX as int
                } else {
                    true
                }
            }
        }
    }

    /// The tree after changing the focused leaf's next-split direction.
    pub open spec fn spec_change_dir(self, d: Direction) -> LayoutTree
        decreases self,
    {
        match self {
            LayoutTree::Leaf { window, bounds, .. } => LayoutTree::Leaf {
                window,
                bounds,
                direction: d,
            },
            LayoutTree::Split { bounds, direction, focus, prop, left, right } => {
                if focus == direction {
                    LayoutTree::Split {
                        bounds,
                        direction,
                        focus,
                        prop,
                        left,
                        right: Box::new(right.spec_change_dir(d)),
                    }
                } else {
                    LayoutTree::Split {
                        bounds,
                        direction,
                        focus,
                        prop,
                        left: Box::new(left.spec_change_dir(d)),
                        right,
                    }
                }
            }
        }
    }
}

/// Both slices of a valid rectangle are valid for any clamped proportion.
pub proof fn lemma_frac_bounds(len: int, prop: int)
    requires
        0 <= len,
        0 <= prop <= PROP_UNIT as int,
    ensures
        0 <= len * prop / (PROP_UNIT as int) <= len,
{
    assert(len * prop <= len * (PROP_UNIT as int)) by (nonlinear_arith)
        requires
            0 <= len,
            prop <= PROP_UNIT as int,
    ;
    assert(0 <= len * prop) by (nonlinear_arith)
        requires
            0 <= len,
            0 <= prop,
    ;
    assert(len * (PROP_UNIT as int) / (PROP_UNIT as int) == len) by (nonlinear_arith);
    vstd::arithmetic::div_mod::lemma_div_is_ordered(
        len * prop,
        len * (PROP_UNIT as int),
        PROP_UNIT as int,
    );
    vstd::arithmetic::div_mod::lemma_div_pos_is_pos(len * prop, PROP_UNIT as int);
}

/// Splitting a valid rectangle with a proportion in range yields two valid
/// rectangles.
pub proof fn lemma_split_valid(b: Bounds, d: Direction, prop: int)
    requires
        valid_bounds(b),
        0 <= prop <= PROP_UNIT as int,
    ensures
        valid_bounds(spec_split(b, d, prop).0),
        valid_bounds(spec_split(b, d, prop).1),
{
    lemma_frac_bounds(b.width as int, prop);
    lemma_frac_bounds(b.height as int, prop);
    lemma_frac_bounds(b.width as int, PROP_UNIT as int - prop);
    lemma_frac_bounds(b.height as int, PROP_UNIT as int - prop);
}

impl LayoutTree {
    /// Inserting preserves coherence and adds exactly the new window; the new
    /// window becomes the focused leaf.
    pub proof fn lemma_insert_wf(self, outer: Bounds, id: u64)
        requires
            self.tiled(outer),
            self.props_ok(),
        ensures
            self.spec_insert(id).tiled(outer),
            self.spec_insert(id).props_ok(),
            self.spec_insert(id).windows() == self.windows().insert(id),
            self.uniq() && !self.windows().contains(id) ==> self.spec_insert(id).uniq(),
            self.spec_insert(id).focused_leaf() == (id, self.spec_insert(id).focused_leaf().1),
        decreases self,
    {
        match self {
            LayoutTree::Leaf { window, bounds, direction } => {
                reveal_with_fuel(LayoutTree::windows, 3);
                reveal_with_fuel(LayoutTree::tiled, 3);
                reveal_with_fuel(LayoutTree::props_ok, 3);
                reveal_with_fuel(LayoutTree::uniq, 3);
                reveal_with_fuel(LayoutTree::focused_leaf, 3);
                lemma_split_valid(bounds, direction, PROP_HALF as int);
                assert(self.spec_insert(id).windows() =~= self.windows().insert(id));
            }
            LayoutTree::Split { bounds, direction, focus, prop, left, right } => {
                let pieces = spec_split(bounds, direction, prop);
                if focus == direction {
                    right.lemma_insert_wf(pieces.1, id);
                } else {
                    left.lemma_insert_wf(pieces.0, id);
                }
                assert(self.spec_insert(id).windows() =~= self.windows().insert(id));
                if self.uniq() && !self.windows().contains(id) {
                    assert(self.spec_insert(id).uniq());
                }
            }
        }
    }

    /// Recomputing rectangles restores coherence for any valid target and
    /// keeps the leaves' windows, order and focus.
    pub proof fn lemma_rebound_wf(self, b: Bounds)
        requires
            self.props_ok(),
            valid_bounds(b),
        ensures
            self.spec_rebound(b).tiled(b),
            self.spec_rebound(b).props_ok(),
            self.spec_rebound(b).windows() == self.windows(),
            self.uniq() ==> self.spec_rebound(b).uniq(),
            self.spec_rebound(b).focused_leaf().0 == self.focused_leaf().0,
        decreases self,
    {
        match self {
            LayoutTree::Leaf { .. } => {
                assert(self.spec_rebound(b).windows() =~= self.windows());
            }
            LayoutTree::Split { direction, focus, prop, left, right, .. } => {
                let pieces = spec_split(b, direction, prop);
                lemma_split_valid(b, direction, prop);
                left.lemma_rebound_wf(pieces.0);
                right.lemma_rebound_wf(pieces.1);
                assert(self.spec_rebound(b).windows() =~= self.windows());
            }
        }
    }

    /// Removing the focused leaf of a split preserves coherence and loses
    /// only windows that were present.
    pub proof fn lemma_remove_wf(self, outer: Bounds)
        requires
            self is Split,
            self.tiled(outer),
            self.props_ok(),
        ensures
            self.spec_remove().tiled(outer),
            self.spec_remove().props_ok(),
            self.spec_remove().windows().subset_of(self.windows()),
            self.uniq() ==> self.spec_remove().uniq(),
        decreases self,
    {
        match self {
            LayoutTree::Leaf { .. } => {}
            LayoutTree::Split { bounds, direction, focus, prop, left, right } => {
                let pieces = spec_split(bounds, direction, prop);
                let fc = self.focused_child();
                let sib = self.unfocused_child();
                if fc is Leaf {
                    sib.lemma_rebound_wf(bounds);
                } else {
                    if focus == direction {
                        right.lemma_remove_wf(pieces.1);
                    } else {
                        left.lemma_remove_wf(pieces.0);
                    }
                }
            }
        }
    }

    /// Moving focus never changes the leaves, only which one is focused.
    pub proof fn lemma_move_wf(self, outer: Bounds, d: Direction)
        requires
            self.tiled(outer),
            self.props_ok(),
        ensures
            self.spec_move_focus(d) matches Some(t2) ==> {
                &&& t2.tiled(outer)
                &&& t2.props_ok()
                &&& t2.windows() == self.windows()
                &&& t2.leaves() == self.leaves()
                &&& (self.uniq() ==> t2.uniq())
            },
        decreases self,
    {
        match self {
            LayoutTree::Leaf { .. } => {}
            LayoutTree::Split { bounds, direction, focus, prop, left, right } => {
                let pieces = spec_split(bounds, direction, prop);
                if focus == direction {
                    right.lemma_move_wf(pieces.1, d);
                } else {
                    left.lemma_move_wf(pieces.0, d);
                }
            }
        }
    }

    /// Changing the focused leaf's direction changes no rectangle and no
    /// window.
    pub proof fn lemma_change_dir_wf(self, outer: Bounds, d: Direction)
        requires
            self.tiled(outer),
            self.props_ok(),
        ensures
            self.spec_change_dir(d).tiled(outer),
            self.spec_change_dir(d).props_ok(),
            self.spec_change_dir(d).windows() == self.windows(),
            self.spec_change_dir(d).leaves() == self.leaves(),
            self.uniq() ==> self.spec_change_dir(d).uniq(),
        decreases self,
    {
        match self {
            LayoutTree::Leaf { .. } => {
                assert(self.spec_change_dir(d).windows() =~= self.windows());
            }
            LayoutTree::Split { bounds, direction, focus, prop, left, right } => {
                let pieces = spec_split(bounds, direction, prop);
                if focus == direction {
                    right.lemma_change_dir_wf(pieces.1, d);
                } else {
                    left.lemma_change_dir_wf(pieces.0, d);
                }
                assert(self.spec_change_dir(d).windows() =~= self.windows());
            }
        }
    }

    /// A window can be looked up exactly when some leaf holds it.
    pub proof fn lemma_lookup_windows(self, id: u64)
        ensures
            (self.lookup(id) is Some) == self.windows().contains(id),
        decreases self,
    {
        match self {
            LayoutTree::Leaf { .. } => {}
            LayoutTree::Split { left, right, .. } => {
                left.lemma_lookup_windows(id);
                right.lemma_lookup_windows(id);
            }
        }
    }

    /// In a duplicate-free tree, looking the focused window up finds exactly
    /// the focused leaf's rectangle.
    pub proof fn lemma_lookup_focused(self)
        requires
            self.uniq(),
        ensures
            self.lookup(self.focused_leaf().0) == Some(self.focused_leaf().1),
        decreases self,
    {
        match self {
            LayoutTree::Leaf { .. } => {}
            LayoutTree::Split { left, right, focus, direction, .. } => {
                let fc = self.focused_child();
                let sib = self.unfocused_child();
                let w0 = self.focused_leaf().0;
                fc.lemma_lookup_focused();
                fc.lemma_lookup_windows(w0);
                sib.lemma_lookup_windows(w0);
                assert(fc.windows().contains(w0));
                assert(!sib.windows().contains(w0));
                assert(sib.lookup(w0) is None);
            }
        }
    }

    /// Recomputing rectangles moves no window.
    pub proof fn lemma_rebound_windows(self, b: Bounds)
        ensures
            self.spec_rebound(b).windows() == self.windows(),
        decreases self,
    {
        match self {
            LayoutTree::Leaf { .. } => {
                assert(self.spec_rebound(b).windows() =~= self.windows());
            }
            LayoutTree::Split { direction, prop, left, right, .. } => {
                let pieces = spec_split(b, direction, prop);
                left.lemma_rebound_windows(pieces.0);
                right.lemma_rebound_windows(pieces.1);
                assert(self.spec_rebound(b).windows() =~= self.windows());
            }
        }
    }

    /// Inserting adds exactly the new window.
    pub proof fn lemma_insert_windows(self, id: u64)
        ensures
            self.spec_insert(id).windows() == self.windows().insert(id),
        decreases self,
    {
        match self {
            LayoutTree::Leaf { .. } => {
                reveal_with_fuel(LayoutTree::windows, 3);
                assert(self.spec_insert(id).windows() =~= self.windows().insert(id));
            }
            LayoutTree::Split { .. } => {
                self.focused_child().lemma_insert_windows(id);
                assert(self.spec_insert(id).windows() =~= self.windows().insert(id));
            }
        }
    }

    /// Removing loses only windows that were present.
    pub proof fn lemma_remove_windows(self)
        requires
            self is Split,
        ensures
            self.spec_remove().windows().subset_of(self.windows()),
        decreases self,
    {
        match self {
            LayoutTree::Leaf { .. } => {}
            LayoutTree::Split { bounds, .. } => {
                let fc = self.focused_child();
                if fc is Leaf {
                    self.unfocused_child().lemma_rebound_windows(bounds);
                } else {
                    fc.lemma_remove_windows();
                }
            }
        }
    }

    /// Resizing moves no window.
    pub proof fn lemma_resize_windows(self, d: Direction, amount: int)
        ensures
            self.spec_resize(d, amount) matches Some(t2) ==> t2.windows() == self.windows(),
        decreases self,
    {
        match self {
            LayoutTree::Leaf { .. } => {}
            LayoutTree::Split { bounds, direction, focus, prop, left, right } => {
                let fc = self.focused_child();
                fc.lemma_resize_windows(d, amount);
                if self.spec_resize(d, amount) is Some {
                    let t2 = self.spec_resize(d, amount).unwrap();
                    if fc.spec_resize(d, amount) is Some {
                        assert(t2.windows() =~= self.windows());
                    } else if same_axis(direction, d) {
                        let signed = if direction == d {
                            amount
                        } else {
                            -amount
                        };
                        let adjusted = LayoutTree::Split {
                            bounds,
                            direction,
                            focus,
                            prop: clamp_prop(prop + signed),
                            left,
                            right,
                        };
                        adjusted.lemma_rebound_windows(bounds);
                        assert(adjusted.windows() =~= self.windows());
                    }
                }
            }
        }
    }

    /// A resize is possible exactly when some ancestor of the focused leaf
    /// partitions along the requested axis.
    pub proof fn lemma_resize_some(self, d: Direction, amount: int)
        ensures
            (self.spec_resize(d, amount) is Some) == self.resizable(d),
        decreases self,
    {
        match self {
            LayoutTree::Leaf { .. } => {}
            LayoutTree::Split { .. } => {
                self.focused_child().lemma_resize_some(d, amount);
            }
        }
    }

    /// Resizing preserves coherence and the set of windows.
    pub proof fn lemma_resize_wf(self, outer: Bounds, d: Direction, amount: int)
        requires
            self.tiled(outer),
            self.props_ok(),
        ensures
            self.spec_resize(d, amount) matches Some(t2) ==> {
                &&& t2.tiled(outer)
                &&& t2.props_ok()
                &&& t2.windows() == self.windows()
                &&& (self.uniq() ==> t2.uniq())
            },
        decreases self,
    {
        match self {
            LayoutTree::Leaf { .. } => {}
            LayoutTree::Split { bounds, direction, focus, prop, left, right } => {
                let pieces = spec_split(bounds, direction, prop);
                let fc = self.focused_child();
                if focus == direction {
                    right.lemma_resize_wf(pieces.1, d, amount);
                } else {
                    left.lemma_resize_wf(pieces.0, d, amount);
                }
                if fc.spec_resize(d, amount) is None && same_axis(direction, d) {
                    let signed = if direction == d {
                        amount
                    } else {
                        -amount
                    };
                    let p2 = clamp_prop(prop + signed);
                    let adjusted = LayoutTree::Split {
                        bounds,
                        direction,
                        focus,
                        prop: p2,
                        left,
                        right,
                    };
                    adjusted.lemma_rebound_wf(bounds);
                }
            }
        }
    }
}

} // verus!
