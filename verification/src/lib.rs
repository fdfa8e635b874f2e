//! A node-and-edge graph layout engine with pointer-driven interaction.
//!
//! The engine keeps an in-memory graph model, relaxes node positions one
//! discrete step per tick toward per-edge rest distances, tracks hover and
//! drag state from pointer events, and projects the model into an ordered
//! sequence of draw operations. All coordinates are fixed-point surface
//! units: one surface unit is `SCALE` (1000) coordinate steps, so `0.1`
//! surface units is the integer `100`. The host that owns the drawing
//! surface converts between device pixels and these fixed-point values.

pub mod geometry;
pub mod graph;
pub mod render;
