//! Styled prompt segments: plain text, fill patterns and directional
//! separators, measured in terminal columns per grapheme cluster.

pub mod fill;
pub mod segment;
pub mod style;
pub mod width;
