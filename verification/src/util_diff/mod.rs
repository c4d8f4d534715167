//! Text, binary and line diffing.

pub mod bin_diff;
pub mod line_diff;
pub mod str_diff;
