//! Theme profiles for Omarchy: the parsing, planning and document logic
//! behind applying a theme's `profile.toml`.
use vstd::prelude::*;

pub mod text;
pub mod assoc;
pub mod paths;
pub mod doctor;
pub mod json;
pub mod settings;
pub mod profile;
pub mod launcher;
pub mod lock;
pub mod payload;
pub mod scaffold;
pub mod apply;
pub mod hook;

verus! {
} // verus!
