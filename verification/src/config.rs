//! In-process configuration: monitor rectangles and border styling.

use vstd::prelude::*;
use crate::util::Bounds;

verus! {

/// One monitor, described by its rectangle in screen pixels.
#[derive(Debug)]
pub struct Monitor {
    pub bounds: Bounds,
}

impl Monitor {
    pub fn new(width: i32, height: i32, x: i32, y: i32) -> (r: Self)
        ensures
            r.bounds == (Bounds { x, y, width, height }),
    {
        Self { bounds: Bounds::new(x, y, width, height) }
    }
}

/// Server-drawn window border: its width in pixels and its colour.
#[derive(Debug)]
pub struct Border {
    pub width: i32,
    pub color: u64,
}

impl Default for Border {
    /// A three-pixel white border.
    fn default() -> (r: Self)
        ensures
            r.width == 3,
            r.color == 0x00ffffff,
    {
        Self { width: 3, color: 0x00ffffff }
    }
}

/// The manager's configuration: a sequence of monitors (only the first is
/// used), optional border styling, and event logging.
#[derive(Debug)]
pub struct Config {
    pub monitors: Vec<Monitor>,
    pub border: Option<Border>,
    pub debug_events: bool,
}

impl Default for Config {
    /// No monitors yet, the default border, quiet logging.
    fn default() -> (r: Self)
        ensures
            r.monitors@.len() == 0,
            r.border matches Some(b) && b.width == 3 && b.color == 0x00ffffff,
            !r.debug_events,
    {
        Self { monitors: Vec::new(), border: Some(Border::default()), debug_events: false }
    }
}

} // verus!
