//! The data that the rest of the crate works on.

pub mod mappings;
pub mod song;
