//! A fixed-width terminal tab bar: decides which tabs are visible within a
//! column budget, keeps the active tab visible and centered, collapses the
//! rest into "+N" indicators, and resolves mouse clicks on the rendered line
//! back to tab indices.

pub mod config;
pub mod line;
pub mod segment;
pub mod tab;
pub mod text;
pub mod width;
