pub mod bits;
pub mod color;
pub mod color_set;
pub mod constants;
pub mod corner;
pub mod cycle;
pub mod cycle_set;
pub mod edge;
pub mod face;
pub mod vertex;

pub use color::Color;
pub use color_set::ColorSet;
pub use constants::{
    CYCLESET_LENGTH, MAX_CYCLE_LENGTH, NCOLORS, NCYCLES, NFACES, NPOINTS,
    TOTAL_CENTRAL_NEIGHBOR_DEGREE,
};
pub use corner::{CornerWalkState, CrossingCounts, MAX_CROSSINGS_PER_PAIR};
pub use cycle::{Cycle, CycleId};
pub use cycle_set::CycleSet;
pub use edge::{CurveLink, EdgeDynamic, EdgeId, EdgeMemo, EdgeRef};
pub use face::{Face, FaceId};
pub use vertex::{Vertex, VertexId};
