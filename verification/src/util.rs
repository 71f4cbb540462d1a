//! Geometry primitives: the four-way `Direction` and the `Bounds` rectangle,
//! together with the proportional split that the layout engine tiles with.

use vstd::prelude::*;

verus! {

/// One thousandth steps: a split proportion of `500` means one half.
pub const PROP_UNIT: u32 = 1000;

/// The proportion used for a fresh split: one half.
pub const PROP_HALF: u32 = 500;

/// Lower clamp for proportions, keeping tiles from degenerating.
pub const PROP_MIN: u32 = 50;

/// Upper clamp for proportions, keeping tiles from degenerating.
pub const PROP_MAX: u32 = 950;

#[derive(Clone, Copy, PartialEq, Eq, Structural, Debug)]
pub enum Direction {
    Left,
    Right,
    Up,
    Down,
}

/// Whether `a` and `b` lie on the same axis: both horizontal or both vertical.
pub open spec fn same_axis(a: Direction, b: Direction) -> bool {
    match a {
        Direction::Left | Direction::Right => b == Direction::Left || b == Direction::Right,
        Direction::Up | Direction::Down => b == Direction::Up || b == Direction::Down,
    }
}

/// The direction opposite to `d` on the same axis.
pub open spec fn spec_invert(d: Direction) -> Direction {
    match d {
        Direction::Right => Direction::Left,
        Direction::Left => Direction::Right,
        Direction::Down => Direction::Up,
        Direction::Up => Direction::Down,
    }
}

/// The canonical direction on the axis perpendicular to `d`; successive
/// inserts alternate axes through this function.
pub open spec fn spec_next_axis(d: Direction) -> Direction {
    match d {
        Direction::Right | Direction::Left => Direction::Down,
        Direction::Down | Direction::Up => Direction::Right,
    }
}

impl Direction {
    pub fn invert(&self) -> (r: Self)
        ensures
            r == spec_invert(*self),
    {
        match self {
            Direction::Right => Direction::Left,
            Direction::Left => Direction::Right,
            Direction::Down => Direction::Up,
            Direction::Up => Direction::Down,
        }
    }

    pub fn is_on_same_line(&self, other: Direction) -> (r: bool)
        ensures
            r == same_axis(*self, other),
    {
        match self {
            Direction::Right => other == Direction::Right || other == Direction::Left,
            Direction::Left => other == Direction::Left || other == Direction::Right,
            Direction::Down => other == Direction::Down || other == Direction::Up,
            Direction::Up => other == Direction::Up || other == Direction::Down,
        }
    }

    /// The canonical direction on the perpendicular axis.
    pub fn next_axis(&self) -> (r: Self)
        ensures
            r == spec_next_axis(*self),
    {
        match self {
            Direction::Right | Direction::Left => Direction::Down,
            Direction::Down | Direction::Up => Direction::Right,
        }
    }
}

/// A rectangle in integer screen pixels.
#[derive(Clone, Copy, PartialEq, Eq, Structural, Debug)]
pub struct Bounds {
    pub x: i32,
    pub y: i32,
    pub width: i32,
    pub height: i32,
}

/// A rectangle the engine can split: non-negative sides whose far edges still
/// fit in `i32`.
pub open spec fn valid_bounds(b: Bounds) -> bool {
    &&& 0 <= b.width
    &&& 0 <= b.height
    &&& b.x + b.width <= i32::MAX
    &&& b.y + b.height <= i32::MAX
}

/// `len` scaled by `prop` thousandths, truncated.
pub open spec fn spec_frac(len: int, prop: int) -> int {
    len * prop / (PROP_UNIT as int)
}

/// The `(near, far)` pair that splitting `b` along `d` with proportion `prop`
/// (in thousandths) produces.  The near rectangle is the slice at the near
/// edge in the sense of `d`; for `Left`/`Up` the proportion is mirrored so
/// that the near slice always holds `prop` thousandths of the side.
pub open spec fn spec_split(b: Bounds, d: Direction, prop: int) -> (Bounds, Bounds) {
    match d {
        Direction::Right => {
            let w0 = spec_frac(b.width as int, prop);
            (
                Bounds { x: b.x, y: b.y, width: w0 as i32, height: b.height },
                Bounds {
                    x: (b.x + w0) as i32,
                    y: b.y,
                    width: (b.width - w0) as i32,
                    height: b.height,
                },
            )
        }
        Direction::Left => {
            let w1 = spec_frac(b.width as int, (PROP_UNIT as int) - prop);
            (
                Bounds {
                    x: (b.x + w1) as i32,
                    y: b.y,
                    width: (b.width - w1) as i32,
                    height: b.height,
                },
                Bounds { x: b.x, y: b.y, width: w1 as i32, height: b.height },
            )
        }
        Direction::Down => {
            let h0 = spec_frac(b.height as int, prop);
            (
                Bounds { x: b.x, y: b.y, width: b.width, height: h0 as i32 },
                Bounds {
                    x: b.x,
                    y: (b.y + h0) as i32,
                    width: b.width,
                    height: (b.height - h0) as i32,
                },
            )
        }
        Direction::Up => {
            let h1 = spec_frac(b.height as int, (PROP_UNIT as int) - prop);
            (
                Bounds {
                    x: b.x,
                    y: (b.y + h1) as i32,
                    width: b.width,
                    height: (b.height - h1) as i32,
                },
                Bounds { x: b.x, y: b.y, width: b.width, height: h1 as i32 },
            )
        }
    }
}

/// The half of `b` lying toward `d` (the far half of a half split).
pub open spec fn spec_split_single(b: Bounds, d: Direction) -> Bounds {
    match d {
        Direction::Right => {
            let w0 = spec_frac(b.width as int, PROP_HALF as int);
            Bounds { x: (b.x + w0) as i32, y: b.y, width: w0 as i32, height: b.height }
        }
        Direction::Left => {
            let w0 = spec_frac(b.width as int, PROP_HALF as int);
            Bounds { x: b.x, y: b.y, width: w0 as i32, height: b.height }
        }
        Direction::Down => {
            let h0 = spec_frac(b.height as int, PROP_HALF as int);
            Bounds { x: b.x, y: (b.y + h0) as i32, width: b.width, height: h0 as i32 }
        }
        Direction::Up => {
            let h0 = spec_frac(b.height as int, PROP_HALF as int);
            Bounds { x: b.x, y: b.y, width: b.width, height: h0 as i32 }
        }
    }
}

/// `len * prop / 1000`, with the bounds a caller needs.
fn frac(len: i32, prop: u32) -> (r: i32)
    requires
        0 <= len,
        prop <= PROP_UNIT,
    ensures
        r as int == spec_frac(len as int, prop as int),
        0 <= r <= len,
{
    proof {
        assert((len as int) * (prop as int) <= (len as int) * (PROP_UNIT as int))
            by (nonlinear_arith)
            requires
                0 <= len,
                prop <= PROP_UNIT,
        ;
        assert(0 <= (len as int) * (prop as int)) by (nonlinear_arith)
            requires
                0 <= len,
                0 <= prop,
        ;
        assert((len as int) * (PROP_UNIT as int) / (PROP_UNIT as int) == len as int)
            by (nonlinear_arith)
        ;
        vstd::arithmetic::div_mod::lemma_div_is_ordered(
            (len as int) * (prop as int),
            (len as int) * (PROP_UNIT as int),
            PROP_UNIT as int,
        );
        vstd::arithmetic::div_mod::lemma_div_pos_is_pos((len as int) * (prop as int), PROP_UNIT as int);
    }
    let wide: u64 = (len as u64) * (prop as u64) / (PROP_UNIT as u64);
    wide as i32
}

impl Bounds {
    pub fn new(x: i32, y: i32, width: i32, height: i32) -> (r: Self)
        ensures
            r == (Bounds { x, y, width, height }),
    {
        Self { x, y, width, height }
    }

    /// Split this rectangle along the axis of `direction` into a `(near, far)`
    /// pair; `proportions` thousandths of the side go to the near slice.  The
    /// two results cover the rectangle exactly, with no gap and no overlap.
    pub fn split(&self, direction: Direction, proportions: u32) -> (r: (Self, Self))
        requires
            valid_bounds(*self),
            proportions <= PROP_UNIT,
        ensures
            r == spec_split(*self, direction, proportions as int),
            valid_bounds(r.0),
            valid_bounds(r.1),
    {
        match direction {
            Direction::Right => {
                let w0 = frac(self.width, proportions);
                (
                    Bounds::new(self.x, self.y, w0, self.height),
                    Bounds::new(self.x + w0, self.y, self.width - w0, self.height),
                )
            }
            Direction::Left => {
                let w1 = frac(self.width, PROP_UNIT - proportions);
                (
                    Bounds::new(self.x + w1, self.y, self.width - w1, self.height),
                    Bounds::new(self.x, self.y, w1, self.height),
                )
            }
            Direction::Down => {
                let h0 = frac(self.height, proportions);
                (
                    Bounds::new(self.x, self.y, self.width, h0),
                    Bounds::new(self.x, self.y + h0, self.width, self.height - h0),
                )
            }
            Direction::Up => {
                let h1 = frac(self.height, PROP_UNIT - proportions);
                (
                    Bounds::new(self.x, self.y + h1, self.width, self.height - h1),
                    Bounds::new(self.x, self.y, self.width, h1),
                )
            }
        }
    }

    /// The half of this rectangle lying toward `direction`.
    pub fn split_single(&self, direction: Direction) -> (r: Self)
        requires
            valid_bounds(*self),
        ensures
            r == spec_split_single(*self, direction),
            valid_bounds(r),
    {
        match direction {
            Direction::Right => {
                let w0 = frac(self.width, PROP_HALF);
                proof {
                    assert((self.width as int) * 500 / 1000 * 2 <= self.width as int)
                        by (nonlinear_arith)
                        requires
                            0 <= self.width,
                    ;
                }
                Bounds::new(self.x + w0, self.y, w0, self.height)
            }
            Direction::Left => {
                let w0 = frac(self.width, PROP_HALF);
                Bounds::new(self.x, self.y, w0, self.height)
            }
            Direction::Down => {
                let h0 = frac(self.height, PROP_HALF);
                proof {
                    assert((self.height as int) * 500 / 1000 * 2 <= self.height as int)
                        by (nonlinear_arith)
                        requires
                            0 <= self.height,
                    ;
                }
                Bounds::new(self.x, self.y + h0, self.width, h0)
            }
            Direction::Up => {
                let h0 = frac(self.height, PROP_HALF);
                Bounds::new(self.x, self.y, self.width, h0)
            }
        }
    }

    /// Shrink by twice `border_width` on both sides, making room for a
    /// server-drawn border around the content rectangle.
    pub fn shrink_for_border(&self, border_width: i32) -> (r: Self)
        requires
            valid_bounds(*self),
            0 <= border_width <= 0x2000_0000,
        ensures
            r.x == self.x,
            r.y == self.y,
            r.width as int == self.width - 2 * border_width,
            r.height as int == self.height - 2 * border_width,
    {
        Bounds::new(
            self.x,
            self.y,
            self.width - 2 * border_width,
            self.height - 2 * border_width,
        )
    }
}

} // verus!
