//! Core of an interactive, collapsible tree view over a parent/child entity
//! graph: a flattened, depth-annotated snapshot of the graph, a parent-gated
//! visibility pass over it, and a file-explorer style multi-selection state
//! machine (click to replace, ctrl-click to toggle, shift-click to extend).

pub mod entity;
pub mod hierarchy;
pub mod selection;
