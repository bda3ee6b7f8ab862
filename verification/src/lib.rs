//! Construction of highway hierarchies over weighted directed road networks.

pub mod builder;
pub mod contraction;
pub mod dag;
pub mod dijkstra;
pub mod dijkstra_laws;
pub mod direction;
pub mod graph;
pub mod hierarchy;
pub mod ids;
pub mod intermediate;
pub mod layer;
pub mod level_laws;
pub mod lists;
pub mod neighbourhood;
pub mod node_data;
pub mod paths;
pub mod phase_one;
pub mod phase_one_laws;
pub mod provenance;
pub mod reduction;
pub mod retention;
pub mod search_steps;
pub mod shortcut;
