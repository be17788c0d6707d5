//! The per-actor-kind behaviours, run once per tick in fixed order.

pub mod client_trees;
pub mod count_trees;
pub mod hq;
pub mod lumberjacks;
pub mod trees;
pub mod wizards;
