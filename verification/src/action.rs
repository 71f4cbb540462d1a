//! The closed set of actions a key binding can fire.

use vstd::prelude::*;
use crate::util::Direction;

verus! {

/// What a key press asks the manager to do.  Resize amounts are in
/// thousandths of the relevant side, matching the engine's proportions.
#[derive(Clone, Debug)]
pub enum Action {
    Exit,
    ExecuteCommand { command: String },
    MoveFocus { direction: Direction },
    CloseFocusedWindow,
    ChangeTilingDirection { direction: Direction },
    ResizeFocusedWindow { direction: Direction, amount: i32 },
}

} // verus!
