//! Scene-graph runtime of a retained-mode UI: the node tree, its mirror in a
//! box-layout solver, hit-testing and event routing, the per-frame paint walk
//! and the glyph atlas cache.

pub mod events;
pub mod geometry;
pub mod glyph;
pub mod handler;
pub mod hit;
pub mod invalidator;
pub mod mirror;
pub mod reach;
pub mod render;
pub mod store;
pub mod style;
pub mod tree;
