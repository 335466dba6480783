//! Flows, the interior nodes of a layout tree, and what layout does on them.
//!
//! Layout builds a tree of flows and solves layout constraints in several traversals of it. Flows
//! correspond to the flow contexts of CSS: they position their child flows and their render boxes.
//! The important classes are block flows, whose children are laid out by block formatting rules,
//! and inline flows, whose children are subject to line breaking.
//!
//! - `flow`: the classes of flows, their common data, and access to both.
//! - `immutable`: questions that can be asked of a flow, and the dump of a tree.
//! - `mutable`: traversals, changes to the children, overflow and display lists.
//! - `traversal`, `overflow`, `display_list`: what these operations mean.
//! - `traversal_laws`, `laws`: what holds of all of them.
//! - `geometry`, `node`, `box_iterator`: lengths and rectangles, what a flow keeps of its node, and
//!   the walk over its render boxes.
pub mod box_iterator;
pub mod display_list;
pub mod flow;
pub mod geometry;
pub mod immutable;
pub mod laws;
pub mod mutable;
pub mod node;
pub mod overflow;
pub mod traversal;
pub mod traversal_laws;
