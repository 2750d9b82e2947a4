//! Precomputed, fixed tables: the cycles, the faces and the vertices of the diagram.

pub mod cycle_laws;
pub mod cycles;
pub mod faces;
pub mod vertices;

pub use cycles::{CyclesArray, CyclesMemo};
pub use faces::FacesMemo;
pub use vertices::VerticesMemo;
