//! Drag-and-drop tree widget logic: flattening of declared branches, the
//! persisted display order, visibility, pointer interaction and reordering.

pub mod tree;
