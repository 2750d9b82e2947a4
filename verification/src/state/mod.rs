//! The changing search state of faces and edges, and search statistics.

pub mod edge;
pub mod faces;
pub mod statistics;

pub use edge::DynamicEdge;
pub use faces::{DynamicFace, DynamicFaces};
pub use statistics::Statistics;
