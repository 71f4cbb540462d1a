//! Global laws of the layout engine, stated over the `model::LayoutTree`
//! operations that the engine's contracts use, and proved once and for all:
//! exact coverage of the monitor, the focus chain ending in a leaf,
//! insert/remove round-trips, completeness of the changed-sets, and the
//! symmetry of resizing.

use vstd::prelude::*;
use crate::model::{clamp_prop, lemma_split_valid, LayoutTree};
use crate::util::{same_axis, spec_split, valid_bounds, Bounds, Direction, PROP_HALF, PROP_UNIT};

verus! {

/// The set of integer pixel coordinates covered by a rectangle.
pub open spec fn rect_points(b: Bounds) -> Set<(int, int)> {
    Set::new(
        |p: (int, int)|
            b.x <= p.0 < b.x + b.width && b.y <= p.1 < b.y + b.height,
    )
}

/// The union of the rectangles of a leaf list.
pub open spec fn union_rects(s: Seq<(u64, Bounds)>) -> Set<(int, int)>
    decreases s.len(),
{
    if s.len() == 0 {
        Set::empty()
    } else {
        rect_points(s[0].1) + union_rects(s.drop_first())
    }
}

proof fn lemma_union_concat(a: Seq<(u64, Bounds)>, b: Seq<(u64, Bounds)>)
    ensures
        union_rects(a + b) == union_rects(a) + union_rects(b),
    decreases a.len(),
{
    if a.len() == 0 {
        assert(a + b =~= b);
        assert(union_rects(a) + union_rects(b) =~= union_rects(b));
    } else {
        assert((a + b).drop_first() =~= a.drop_first() + b);
        lemma_union_concat(a.drop_first(), b);
        assert((a + b)[0] == a[0]);
        assert(union_rects(a + b) =~= union_rects(a) + union_rects(b));
    }
}

proof fn lemma_member_in_union(s: Seq<(u64, Bounds)>, k: int)
    requires
        0 <= k < s.len(),
    ensures
        rect_points(s[k].1).subset_of(union_rects(s)),
    decreases s.len(),
{
    if k == 0 {
    } else {
        lemma_member_in_union(s.drop_first(), k - 1);
        assert(s.drop_first()[k - 1] == s[k]);
    }
}

/// Splitting partitions a rectangle's points exactly: the two slices are
/// disjoint and together give back the whole.
proof fn lemma_split_cover(b: Bounds, d: Direction, prop: int)
    requires
        valid_bounds(b),
        0 <= prop <= PROP_UNIT as int,
    ensures
        rect_points(spec_split(b, d, prop).0) + rect_points(spec_split(b, d, prop).1)
            == rect_points(b),
        rect_points(spec_split(b, d, prop).0).disjoint(rect_points(spec_split(b, d, prop).1)),
{
    lemma_split_valid(b, d, prop);
    crate::model::lemma_frac_bounds(b.width as int, prop);
    crate::model::lemma_frac_bounds(b.height as int, prop);
    crate::model::lemma_frac_bounds(b.width as int, PROP_UNIT as int - prop);
    crate::model::lemma_frac_bounds(b.height as int, PROP_UNIT as int - prop);
    let n = spec_split(b, d, prop).0;
    let f = spec_split(b, d, prop).1;
    match d {
        Direction::Right => {
            let w0 = crate::util::spec_frac(b.width as int, prop);
            assert(n.x == b.x && n.y == b.y && n.width as int == w0 && n.height == b.height);
            assert(f.x as int == b.x + w0 && f.y == b.y && f.width as int == b.width - w0
                && f.height == b.height);
        }
        Direction::Left => {
            let w1 = crate::util::spec_frac(b.width as int, PROP_UNIT as int - prop);
            assert(n.x as int == b.x + w1 && n.y == b.y && n.width as int == b.width - w1
                && n.height == b.height);
            assert(f.x == b.x && f.y == b.y && f.width as int == w1 && f.height == b.height);
        }
        Direction::Down => {
            let h0 = crate::util::spec_frac(b.height as int, prop);
            assert(n.x == b.x && n.y == b.y && n.width == b.width && n.height as int == h0);
            assert(f.x == b.x && f.y as int == b.y + h0 && f.width == b.width
                && f.height as int == b.height - h0);
        }
        Direction::Up => {
            let h1 = crate::util::spec_frac(b.height as int, PROP_UNIT as int - prop);
            assert(n.x == b.x && n.y as int == b.y + h1 && n.width == b.width
                && n.height as int == b.height - h1);
            assert(f.x == b.x && f.y == b.y && f.width == b.width && f.height as int == h1);
        }
    }
    assert(rect_points(n) + rect_points(f) =~= rect_points(b));
    assert(rect_points(n).disjoint(rect_points(f)));
}

/// Coverage: the leaves of a coherent tree tile its rectangle exactly —
/// their union is the whole rectangle and they are pairwise disjoint.
pub proof fn lemma_coverage(t: LayoutTree, outer: Bounds)
    requires
        t.tiled(outer),
        t.props_ok(),
    ensures
        union_rects(t.leaves()) == rect_points(outer),
        forall|k1: int, k2: int|
            0 <= k1 < k2 < t.leaves().len() ==> rect_points(t.leaves()[k1].1).disjoint(
                rect_points(t.leaves()[k2].1),
            ),
    decreases t,
{
    match t {
        LayoutTree::Leaf { .. } => {
            reveal_with_fuel(union_rects, 3);
            assert(t.leaves().drop_first() =~= Seq::<(u64, Bounds)>::empty());
            assert(union_rects(t.leaves()) =~= rect_points(outer));
        }
        LayoutTree::Split { bounds, direction, prop, left, right, .. } => {
            let pieces = spec_split(bounds, direction, prop);
            lemma_split_cover(bounds, direction, prop);
            lemma_coverage(*left, pieces.0);
            lemma_coverage(*right, pieces.1);
            lemma_union_concat(left.leaves(), right.leaves());
            assert(union_rects(t.leaves()) =~= rect_points(outer));
            let ll = left.leaves();
            let rl = right.leaves();
            assert forall|k1: int, k2: int|
                0 <= k1 < k2 < t.leaves().len() implies rect_points(t.leaves()[k1].1).disjoint(
                rect_points(t.leaves()[k2].1),
            ) by {
                if k2 < ll.len() {
                    assert(t.leaves()[k1] == ll[k1] && t.leaves()[k2] == ll[k2]);
                } else if k1 >= ll.len() {
                    assert(t.leaves()[k1] == rl[k1 - ll.len()]);
                    assert(t.leaves()[k2] == rl[k2 - ll.len()]);
                } else {
                    assert(t.leaves()[k1] == ll[k1]);
                    assert(t.leaves()[k2] == rl[k2 - ll.len()]);
                    lemma_member_in_union(ll, k1);
                    lemma_member_in_union(rl, k2 - ll.len());
                    assert forall|p: (int, int)|
                        !(rect_points(t.leaves()[k1].1).contains(p) && rect_points(
                            t.leaves()[k2].1,
                        ).contains(p)) by {
                        if rect_points(t.leaves()[k1].1).contains(p) {
                            assert(rect_points(pieces.0).contains(p));
                        }
                        if rect_points(t.leaves()[k2].1).contains(p) {
                            assert(rect_points(pieces.1).contains(p));
                        }
                    }
                }
            }
        }
    }
}

proof fn lemma_concat_contains(a: Seq<(u64, Bounds)>, b: Seq<(u64, Bounds)>, x: (u64, Bounds))
    requires
        a.contains(x) || b.contains(x),
    ensures
        (a + b).contains(x),
{
    if a.contains(x) {
        let k = choose|k: int| 0 <= k < a.len() && a[k] == x;
        assert((a + b)[k] == x);
    } else {
        let k = choose|k: int| 0 <= k < b.len() && b[k] == x;
        assert((a + b)[a.len() + k] == x);
    }
}

/// Half of a side at least two pixels long is strictly between nothing and
/// the whole.
proof fn lemma_half_strict(len: int)
    requires
        2 <= len,
    ensures
        1 <= crate::util::spec_frac(len, PROP_HALF as int) <= len - 1,
{
    assert(1000 <= 500 * len) by (nonlinear_arith)
        requires
            2 <= len,
    ;
    assert(500 * len <= 1000 * (len - 1)) by (nonlinear_arith)
        requires
            2 <= len,
    ;
    vstd::arithmetic::div_mod::lemma_div_is_ordered(1000, 500 * len, 1000);
    vstd::arithmetic::div_mod::lemma_div_is_ordered(500 * len, 1000 * (len - 1), 1000);
    assert(1000 * (len - 1) / 1000 == len - 1) by (nonlinear_arith);
}

impl LayoutTree {
    /// Focus chain: descending by `focus` from the root is a function of the
    /// tree — it reaches exactly one leaf — and that leaf is one of the
    /// tree's leaves.  In a duplicate-free tree it is moreover the unique
    /// leaf of its window: looking that window up finds exactly it.
    pub proof fn lemma_focus_chain(self)
        ensures
            self.leaves().contains(self.focused_leaf()),
            self.uniq() ==> self.lookup(self.focused_leaf().0) == Some(self.focused_leaf().1),
        decreases self,
    {
        if self.uniq() {
            self.lemma_lookup_focused();
        }
        match self {
            LayoutTree::Leaf { .. } => {
                assert(self.leaves()[0] == self.focused_leaf());
            }
            LayoutTree::Split { left, right, .. } => {
                let fc = self.focused_child();
                fc.lemma_focus_chain();
                lemma_concat_contains(left.leaves(), right.leaves(), fc.focused_leaf());
            }
        }
    }

    /// A present window's rectangle is one of the leaves.
    pub proof fn lemma_lookup_in_leaves(self, id: u64)
        ensures
            self.lookup(id) matches Some(b) ==> self.leaves().contains((id, b)),
        decreases self,
    {
        match self {
            LayoutTree::Leaf { .. } => {
                if self.lookup(id) is Some {
                    assert(self.leaves()[0] == (id, self.lookup(id).unwrap()));
                }
            }
            LayoutTree::Split { left, right, .. } => {
                left.lemma_lookup_in_leaves(id);
                right.lemma_lookup_in_leaves(id);
                if self.lookup(id) is Some {
                    lemma_concat_contains(
                        left.leaves(),
                        right.leaves(),
                        (id, self.lookup(id).unwrap()),
                    );
                }
            }
        }
    }

    /// Insert/remove round-trip: inserting a window and removing the focused
    /// window again restores the starting tree exactly — same leaves, same
    /// rectangles, same focus — and the removed window is the inserted one.
    pub proof fn lemma_insert_remove_round_trip(self, id: u64)
        ensures
            self.spec_insert(id).spec_remove() == self,
            self.spec_insert(id).focused_leaf().0 == id,
        decreases self,
    {
        match self {
            LayoutTree::Leaf { window, bounds, direction } => {
                reveal_with_fuel(LayoutTree::focused_leaf, 3);
                reveal_with_fuel(LayoutTree::spec_rebound, 2);
                let t2 = self.spec_insert(id);
                assert(t2.focused_child() is Leaf);
                assert(t2.unfocused_child() == (LayoutTree::Leaf {
                    window,
                    bounds: spec_split(bounds, direction, 500int).0,
                    direction,
                }));
                assert(t2.spec_remove() == self);
            }
            LayoutTree::Split { bounds, direction, focus, prop, left, right } => {
                let fc = self.focused_child();
                fc.lemma_insert_remove_round_trip(id);
                let fc2 = fc.spec_insert(id);
                assert(fc2 is Split);
                let t2 = self.spec_insert(id);
                assert(t2.focused_child() == fc2);
                assert(t2.spec_remove() == self);
            }
        }
    }

    /// Changed-set completeness for `insert`: any window present before and
    /// after whose rectangle changed appears in the changed-set with its new
    /// rectangle, and so does the inserted window itself.
    pub proof fn lemma_insert_changed_complete(self, id: u64, w: u64)
        requires
            !self.windows().contains(id),
        ensures
            ({
                let t2 = self.spec_insert(id);
                let ch = self.spec_insert_changed(id);
                &&& (self.lookup(w) is Some && t2.lookup(w) is Some && self.lookup(w)
                    != t2.lookup(w) ==> ch.contains((w, t2.lookup(w).unwrap())))
                &&& (t2.lookup(id) is Some ==> ch.contains((id, t2.lookup(id).unwrap())))
            }),
        decreases self,
    {
        let t2 = self.spec_insert(id);
        let ch = self.spec_insert_changed(id);
        match self {
            LayoutTree::Leaf { window, bounds, direction } => {
                reveal_with_fuel(LayoutTree::lookup, 3);
                let pieces = spec_split(bounds, direction, PROP_HALF as int);
                assert(id != window);
                if t2.lookup(w) is Some && self.lookup(w) is Some {
                    assert(w == window);
                    assert(t2.lookup(w) == Some(pieces.0));
                    assert(ch[0] == (w, pieces.0));
                }
                if t2.lookup(id) is Some {
                    assert(t2.lookup(id) == Some(pieces.1));
                    assert(ch[1] == (id, pieces.1));
                }
            }
            LayoutTree::Split { left, right, focus, direction, bounds, prop } => {
                let fc = self.focused_child();
                let sib = self.unfocused_child();
                fc.lemma_insert_changed_complete(id, w);
                let fc2 = fc.spec_insert(id);
                assert(t2.focused_child() == fc2);
                fc.lemma_insert_windows(id);
                fc.lemma_lookup_windows(w);
                fc2.lemma_lookup_windows(w);
                fc.lemma_lookup_windows(id);
                fc2.lemma_lookup_windows(id);
                sib.lemma_lookup_windows(id);
                if focus == direction {
                    assert(t2 == (LayoutTree::Split {
                        bounds,
                        direction,
                        focus,
                        prop,
                        left,
                        right: Box::new(fc2),
                    }));
                    if left.lookup(id) is Some {
                        assert(self.windows().contains(id));
                        assert(false);
                    }
                } else {
                    assert(t2 == (LayoutTree::Split {
                        bounds,
                        direction,
                        focus,
                        prop,
                        left: Box::new(fc2),
                        right,
                    }));
                    if self.lookup(w) is Some && t2.lookup(w) is Some && self.lookup(w)
                        != t2.lookup(w) {
                        if fc.lookup(w) is None {
                            self.lemma_lookup_windows(w);
                            assert(w != id);
                            assert(!fc2.windows().contains(w));
                            assert(t2.lookup(w) == right.lookup(w));
                            assert(self.lookup(w) == right.lookup(w));
                            assert(false);
                        }
                    }
                    if t2.lookup(id) is Some {
                        assert(fc2.windows().contains(id));
                        assert(t2.lookup(id) == fc2.lookup(id));
                    }
                }
            }
        }
    }

    /// The other half of changed-set exactness for `insert`, away from
    /// degenerate tiles: the changed-set holds exactly the split leaf — with
    /// a rectangle it did not have before — and the new window, which had
    /// none.  (A focused leaf thinner than two pixels can keep its rectangle
    /// through the split, so such tiles are excluded.)
    pub proof fn lemma_insert_changed_no_spurious(self, id: u64)
        requires
            self.uniq(),
            !self.windows().contains(id),
            valid_bounds(self.focused_leaf().1),
            self.focused_leaf().1.width >= 2,
            self.focused_leaf().1.height >= 2,
        ensures
            self.spec_insert_changed(id).len() == 2,
            self.spec_insert_changed(id)[0].0 == self.focused_leaf().0,
            self.spec_insert_changed(id)[1].0 == id,
            self.spec_insert_changed(id)[0].1 != self.focused_leaf().1,
            self.lookup(id) is None,
        decreases self,
    {
        self.lemma_lookup_windows(id);
        match self {
            LayoutTree::Leaf { window, bounds, direction } => {
                let pieces = spec_split(bounds, direction, PROP_HALF as int);
                lemma_half_strict(bounds.width as int);
                lemma_half_strict(bounds.height as int);
                match direction {
                    Direction::Right => {
                        assert(pieces.0.width as int <= bounds.width - 1);
                    }
                    Direction::Left => {
                        assert(pieces.0.x as int >= bounds.x + 1);
                    }
                    Direction::Down => {
                        assert(pieces.0.height as int <= bounds.height - 1);
                    }
                    Direction::Up => {
                        assert(pieces.0.y as int >= bounds.y + 1);
                    }
                }
            }
            LayoutTree::Split { .. } => {
                let fc = self.focused_child();
                fc.lemma_insert_changed_no_spurious(id);
            }
        }
    }

    /// Changed-set completeness for `remove_focused`: any window present
    /// before and after whose rectangle changed appears in the changed-set
    /// with its new rectangle.
    pub proof fn lemma_remove_changed_complete(self, w: u64)
        requires
            self is Split,
            self.uniq(),
        ensures
            ({
                let t2 = self.spec_remove();
                self.lookup(w) is Some && t2.lookup(w) is Some && self.lookup(w) != t2.lookup(w)
                    ==> self.spec_remove_changed().contains((w, t2.lookup(w).unwrap()))
            }),
        decreases self,
    {
        match self {
            LayoutTree::Leaf { .. } => {}
            LayoutTree::Split { left, right, focus, direction, bounds, prop } => {
                let fc = self.focused_child();
                let sib = self.unfocused_child();
                let t2 = self.spec_remove();
                if fc is Leaf {
                    sib.spec_rebound(bounds).lemma_lookup_in_leaves(w);
                } else {
                    fc.lemma_remove_changed_complete(w);
                    let fc2 = fc.spec_remove();
                    fc.lemma_remove_windows();
                    fc.lemma_lookup_windows(w);
                    fc2.lemma_lookup_windows(w);
                    sib.lemma_lookup_windows(w);
                    if focus == direction {
                        assert(t2 == (LayoutTree::Split {
                            bounds,
                            direction,
                            focus,
                            prop,
                            left,
                            right: Box::new(fc2),
                        }));
                    } else {
                        assert(t2 == (LayoutTree::Split {
                            bounds,
                            direction,
                            focus,
                            prop,
                            left: Box::new(fc2),
                            right,
                        }));
                        if self.lookup(w) is Some && t2.lookup(w) is Some && self.lookup(w)
                            != t2.lookup(w) {
                            if fc.lookup(w) is Some {
                                if fc2.lookup(w) is None {
                                    assert(t2.lookup(w) == right.lookup(w));
                                    assert(fc.windows().contains(w) && right.windows().contains(
                                        w,
                                    ));
                                    assert(false);
                                }
                            } else {
                                assert(!fc2.windows().contains(w));
                                assert(fc2.lookup(w) is None);
                                assert(t2.lookup(w) == right.lookup(w));
                                assert(self.lookup(w) == right.lookup(w));
                                assert(false);
                            }
                        }
                    }
                }
            }
        }
    }

    /// Changed-set completeness for `resize_focused_window`: any window
    /// whose rectangle changed appears in the changed-set with its new
    /// rectangle.
    pub proof fn lemma_resize_changed_complete(self, d: Direction, a: int, w: u64)
        ensures
            ({
                let ch = self.spec_resize_changed(d, a);
                self.spec_resize(d, a) is Some && self.lookup(w) is Some && self.spec_resize(
                    d,
                    a,
                ).unwrap().lookup(w) is Some && self.lookup(w) != self.spec_resize(d, a).unwrap().lookup(w)
                    ==> ch.contains((w, self.spec_resize(d, a).unwrap().lookup(w).unwrap()))
            }),
        decreases self,
    {
        match self {
            LayoutTree::Leaf { .. } => {}
            LayoutTree::Split { bounds, direction, focus, prop, left, right } => {
                let fc = self.focused_child();
                fc.lemma_resize_some(d, a);
                if fc.resizable(d) {
                    fc.lemma_resize_changed_complete(d, a, w);
                    let fc2 = fc.spec_resize(d, a).unwrap();
                    let t2 = self.spec_resize(d, a).unwrap();
                    fc.lemma_resize_windows(d, a);
                    fc.lemma_lookup_windows(w);
                    fc2.lemma_lookup_windows(w);
                    if focus == direction {
                        assert(t2 == (LayoutTree::Split {
                            bounds,
                            direction,
                            focus,
                            prop,
                            left,
                            right: Box::new(fc2),
                        }));
                    } else {
                        assert(t2 == (LayoutTree::Split {
                            bounds,
                            direction,
                            focus,
                            prop,
                            left: Box::new(fc2),
                            right,
                        }));
                        if fc.lookup(w) is None {
                            assert(fc2.lookup(w) is None);
                            assert(t2.lookup(w) == right.lookup(w));
                            assert(self.lookup(w) == right.lookup(w));
                        }
                    }
                } else if same_axis(direction, d) {
                    let signed = if direction == d {
                        a
                    } else {
                        -a
                    };
                    let adjusted = LayoutTree::Split {
                        bounds,
                        direction,
                        focus,
                        prop: clamp_prop(prop + signed),
                        left,
                        right,
                    };
                    adjusted.spec_rebound(bounds).lemma_lookup_in_leaves(w);
                }
            }
        }
    }

    /// Recomputing rectangles keeps the shape, so it keeps resizability.
    proof fn lemma_rebound_resizable(self, b: Bounds, d: Direction)
        ensures
            self.spec_rebound(b).resizable(d) == self.resizable(d),
        decreases self,
    {
        match self {
            LayoutTree::Leaf { .. } => {}
            LayoutTree::Split { bounds, direction, focus, prop, left, right } => {
                let pieces = spec_split(b, direction, prop);
                let fc = self.focused_child();
                if focus == direction {
                    right.lemma_rebound_resizable(pieces.1, d);
                } else {
                    left.lemma_rebound_resizable(pieces.0, d);
                }
                assert(self.spec_rebound(b).focused_child() == (if focus == direction {
                    right.spec_rebound(pieces.1)
                } else {
                    left.spec_rebound(pieces.0)
                }));
            }
        }
    }

    /// A second recomputation supersedes the first.
    proof fn lemma_rebound_absorb(self, b1: Bounds, b2: Bounds)
        ensures
            self.spec_rebound(b1).spec_rebound(b2) == self.spec_rebound(b2),
        decreases self,
    {
        match self {
            LayoutTree::Leaf { .. } => {}
            LayoutTree::Split { direction, prop, left, right, .. } => {
                let p1 = spec_split(b1, direction, prop);
                let p2 = spec_split(b2, direction, prop);
                left.lemma_rebound_absorb(p1.0, p2.0);
                right.lemma_rebound_absorb(p1.1, p2.1);
            }
        }
    }

    /// Recomputing the rectangles of an already-coherent tree changes
    /// nothing.
    proof fn lemma_rebound_identity(self, b: Bounds)
        requires
            self.tiled(b),
        ensures
            self.spec_rebound(b) == self,
        decreases self,
    {
        match self {
            LayoutTree::Leaf { .. } => {}
            LayoutTree::Split { bounds, direction, prop, left, right, .. } => {
                let pieces = spec_split(b, direction, prop);
                left.lemma_rebound_identity(pieces.0);
                right.lemma_rebound_identity(pieces.1);
            }
        }
    }

    /// Resize symmetry: as long as the clamp is not hit, resizing by an
    /// amount and then by its negation restores the tree exactly —
    /// proportions and rectangles alike.
    pub proof fn lemma_resize_symmetry(self, outer: Bounds, d: Direction, a: int)
        requires
            self.tiled(outer),
            self.props_ok(),
            self.resize_in_range(d, a),
        ensures
            self.spec_resize(d, a) matches Some(t2) ==> t2.spec_resize(d, -a) == Some(self),
        decreases self,
    {
        match self {
            LayoutTree::Leaf { .. } => {}
            LayoutTree::Split { bounds, direction, focus, prop, left, right } => {
                let fc = self.focused_child();
                let pieces = spec_split(bounds, direction, prop);
                fc.lemma_resize_some(d, a);
                if fc.resizable(d) {
                    if focus == direction {
                        right.lemma_resize_symmetry(pieces.1, d, a);
                    } else {
                        left.lemma_resize_symmetry(pieces.0, d, a);
                    }
                    let fc2 = fc.spec_resize(d, a).unwrap();
                    let t2 = self.spec_resize(d, a).unwrap();
                    assert(t2.focused_child() == fc2);
                    fc2.lemma_resize_some(d, -a);
                    assert(t2.spec_resize(d, -a) == Some(self));
                } else if same_axis(direction, d) {
                    let signed = if direction == d {
                        a
                    } else {
                        -a
                    };
                    let p2 = prop + signed;
                    assert(clamp_prop(p2) == p2);
                    let pieces2 = spec_split(bounds, direction, p2);
                    let adjusted = LayoutTree::Split {
                        bounds,
                        direction,
                        focus,
                        prop: p2,
                        left,
                        right,
                    };
                    let t2 = adjusted.spec_rebound(bounds);
                    assert(t2 == (LayoutTree::Split {
                        bounds,
                        direction,
                        focus,
                        prop: p2,
                        left: Box::new(left.spec_rebound(pieces2.0)),
                        right: Box::new(right.spec_rebound(pieces2.1)),
                    }));
                    let fc2 = t2.focused_child();
                    if focus == direction {
                        right.lemma_rebound_resizable(pieces2.1, d);
                    } else {
                        left.lemma_rebound_resizable(pieces2.0, d);
                    }
                    fc2.lemma_resize_some(d, -a);
                    assert(fc2.spec_resize(d, -a) is None);
                    assert(clamp_prop(p2 + (if direction == d {
                        -a
                    } else {
                        a
                    })) == prop);
                    let adjusted2 = LayoutTree::Split {
                        bounds,
                        direction,
                        focus,
                        prop,
                        left: Box::new(left.spec_rebound(pieces2.0)),
                        right: Box::new(right.spec_rebound(pieces2.1)),
                    };
                    assert(t2.spec_resize(d, -a) == Some(adjusted2.spec_rebound(bounds)));
                    left.lemma_rebound_absorb(pieces2.0, pieces.0);
                    right.lemma_rebound_absorb(pieces2.1, pieces.1);
                    left.lemma_rebound_identity(pieces.0);
                    right.lemma_rebound_identity(pieces.1);
                    assert(adjusted2.spec_rebound(bounds) == self);
                }
            }
        }
    }
}

} // verus!
