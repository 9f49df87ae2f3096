//! Renders a node graph as a nested, parenthesised description.
pub mod model;
pub mod render;

pub use render::render;
