//! Read-only analyses over a bit buffer: approximate pattern search and
//! frame-width statistics.

pub mod frame_width;
pub mod pattern_locator;

pub use pattern_locator::{Pattern, PatternFormat, PatternMatch};
