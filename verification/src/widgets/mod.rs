//! Widgets that the library brings along.

pub mod each;
pub mod switch;
