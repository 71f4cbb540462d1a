//! Key bindings: `(keycode, modifier mask, action)` triples and the
//! first-match lookup that a key press triggers.

use vstd::prelude::*;
use crate::action::Action;

verus! {

/// The Shift modifier bit of the key event state mask.
pub const SHIFT_MASK: u32 = 1;

/// The Control modifier bit of the key event state mask.
pub const CONTROL_MASK: u32 = 4;

/// The Alt (Mod1) modifier bit of the key event state mask.
pub const MOD1_MASK: u32 = 8;

/// The Super (Mod4) modifier bit of the key event state mask.
pub const MOD4_MASK: u32 = 64;

/// The modifiers a binding is compared against; lock bits are masked out so
/// that CapsLock and NumLock do not defeat a binding.
pub const RELEVANT_MODIFIERS: u32 = SHIFT_MASK | CONTROL_MASK | MOD1_MASK | MOD4_MASK;

/// One key binding.
pub struct Keybind {
    pub keycode: u32,
    pub modifiers: u32,
    pub action: Action,
}

impl Keybind {
    pub fn new(keycode: u32, modifiers: u32, action: Action) -> (r: Self)
        ensures
            r.keycode == keycode,
            r.modifiers == modifiers,
            r.action == action,
    {
        Self { keycode, modifiers, action }
    }
}

/// Whether a binding fires for a key event: same keycode, and the event's
/// relevant modifier bits equal the binding's mask exactly.
pub open spec fn spec_matches(kb: Keybind, keycode: u32, state: u32) -> bool {
    kb.keycode == keycode && (state & RELEVANT_MODIFIERS) == kb.modifiers
}

/// The first binding in the table that fires for the event, if any.
pub fn find_keybind(keybinds: &Vec<Keybind>, keycode: u32, state: u32) -> (r: Option<usize>)
    ensures
        match r {
            Some(k) => {
                &&& k < keybinds@.len()
                &&& spec_matches(keybinds@[k as int], keycode, state)
                &&& forall|j: int| 0 <= j < k ==> !spec_matches(keybinds@[j], keycode, state)
            },
            None => forall|j: int|
                0 <= j < keybinds@.len() ==> !spec_matches(keybinds@[j], keycode, state),
        },
{
    let mut i: usize = 0;
    while i < keybinds.len()
        invariant
            i <= keybinds@.len(),
            forall|j: int| 0 <= j < i ==> !spec_matches(keybinds@[j], keycode, state),
        decreases keybinds@.len() - i,
    {
        let kb = &keybinds[i];
        if kb.keycode == keycode && (state & RELEVANT_MODIFIERS) == kb.modifiers {
            return Some(i);
        }
        i = i + 1;
    }
    None
}

} // verus!
