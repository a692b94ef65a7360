//! The smartlog: the graph of the commits that are being worked on, and its
//! rendering.

pub mod drawn;
pub mod graph;
pub mod laws;
pub mod render;
pub mod roots;
pub mod text;
