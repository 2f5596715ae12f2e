//! Per-level high score tables: a bounded, ranked table of the best score of
//! each user, and a registry that keeps one such table per level.

pub mod score;
pub mod table;
pub mod level;
