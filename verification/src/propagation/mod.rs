//! Constraint propagation: assigning a cycle to a face restricts the cycles of related
//! faces; a face left with one cycle is assigned it in turn.

pub mod adjacency;
pub mod cascade;
pub mod color_removal;
pub mod corners;
pub mod curve_disconnection;
pub mod errors;
pub mod non_adjacency;
pub mod setup;
pub mod validation;
pub mod vertices;

pub use cascade::{propagate_cycle_choice, restrict_face_cycles};
pub use errors::PropagationFailure;
pub use setup::setup_central_face;
pub use validation::validate_face_cycles;
