//! Line-level comparison of two texts by their longest common subsequence.
//!
//! [`subsequence`] says what a longest common subsequence is; [`grid`] holds
//! the dense table of integers that the comparison fills; [`script`] has the
//! lines of a comparison, the walk that yields them and their text; [`lcs`]
//! fills the table, walks it back and puts the pieces together.

pub mod grid;
pub mod lcs;
pub mod script;
pub mod subsequence;
