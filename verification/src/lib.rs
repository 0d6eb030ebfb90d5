//! Workspace model of the Maelstrom photo library: folder trees with image
//! counts, the per-folder index of preview keys, and the small decision
//! functions of the desktop front end.
pub mod path;
pub mod keyed;
pub mod totals;
pub mod folder_index;
pub mod scan;
pub mod workspace;
pub mod ui_state;
pub mod folder_tree;
pub mod gallery;
pub mod cache;
pub mod display;
pub mod laws;
