//! Enumeration of free polyominoes: connected sets of unit cells on the
//! integer grid, identified up to translation, rotation and reflection.
//!
//! The crate provides the coordinate and shape model, the fixed and free
//! canonical forms, the classification of a shape's symmetry group, and the
//! growth step that derives all shapes of one size from those of the size
//! below, deduplicated by free canonical form.

#![verifier::loop_isolation(false)]

pub mod coords;
pub mod shapes;
pub mod symmetry;
pub mod growth;
