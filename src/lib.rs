//! Highlighting of pattern matches in text that carries ANSI escape sequences.
//!
//! Matching runs on the visible text (escape sequences removed); the matches
//! are wrapped in invert/normal markers and the input's escape sequences are
//! spliced back in around them.
pub mod model;
pub mod lemmas;
pub mod splice;
pub mod laws;
pub mod validity;
pub mod offsets;
pub mod pattern;
pub mod highlight;

pub use highlight::{highlight_ansi_insensitive, PatternError};
