//! A presentation engine for a hierarchical task list.
//!
//! A flat store of tasks, each carrying an optional parent reference and a
//! sibling order, is filtered, sorted, and flattened into a linear display
//! list that preserves parent-before-child ordering. Selection into that
//! list survives rebuilds by re-anchoring on a stable task identity, and
//! cascading removal takes a task together with the full transitive closure
//! of its descendants out of the store in one step.

pub mod cache;
pub mod cascade;
pub mod clock;
pub mod display;
pub mod laws;
pub mod selection;
pub mod tasks;
