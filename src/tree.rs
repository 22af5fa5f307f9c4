//! The tree widget's logic. `registry` flattens declared branches, `order`
//! keeps the persisted display order, `reorder` applies drops, `state`
//! holds what persists between frames and decides visibility,
//! `interaction` hit-tests pointer and keyboard events, `controller` runs
//! the per-frame steps and commits drops, and `tree_node` is a plain tree
//! that applications can own.

use vstd::prelude::*;

pub mod controller;
pub mod interaction;
pub mod order;
pub mod registry;
pub mod reorder;
pub mod state;
pub mod tree_node;

verus! {

/// Where a dragged set lands relative to the target branch.
#[derive(Debug, Clone, Copy, PartialEq, Eq, Structural)]
pub enum DropPosition {
    Before,
    After,
    Into,
}

/// What a completed drop reports to the application, in the caller's ids.
#[derive(Debug, Clone)]
pub struct DropInfo {
    pub dragged_ids: Vec<usize>,
    pub target_id: Option<usize>,
    pub position: DropPosition,
}

} // verus!
