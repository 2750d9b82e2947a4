//! Symmetry under the dihedral group acting on the colors: canonical degree sequences
//! and canonical solutions.

pub mod canonical;
pub mod dihedral;
pub mod s6;

pub use canonical::check_solution_canonicality;
pub use dihedral::{DIHEDRAL_GROUP_3, DIHEDRAL_GROUP_4, DIHEDRAL_GROUP_5, DIHEDRAL_GROUP_6};
pub use s6::{check_symmetry, SymmetryType};
