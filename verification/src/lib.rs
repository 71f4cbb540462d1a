//! A tiling window-manager layout engine.
//!
//! The heart of the crate is `layout::WindowTree`: a binary tree of screen
//! tiles kept in an index arena.  Every public operation carries a contract
//! that pins down the resulting tree and the list of geometry changes it
//! produces.

pub mod action;
pub mod config;
pub mod keybind;
pub mod laws;
pub mod layout;
pub mod model;
pub mod util;
