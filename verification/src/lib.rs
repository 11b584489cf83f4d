use vstd::prelude::*;

pub mod art_cache;
pub mod artwork;
pub mod components;
pub mod config;
pub mod download;
pub mod formatters;
pub mod input;
pub mod keybinds;
pub mod layout;
pub mod pane;
pub mod preferences;
pub mod settings;
pub mod table;
pub mod text;

verus! {

} // verus!
