//! Splits a triangle soup — a flat buffer of vertex coordinates with no
//! explicit connectivity — into its maximal edge-connected components
//! ("bodies"). Two triangles are adjacent when one holds a directed edge
//! (a, b) and the other holds the reverse edge (b, a); vertices match only
//! when their coordinate encodings are bit-identical.
//!
//! Coordinates are IEEE 754 binary32 values carried as their `u32` bit
//! patterns. All arithmetic on them goes through software floating-point
//! routines of an outside crate; the adjacency index, the neighbor
//! selection and the traversal that produce the partition are verified.

pub mod adjacency;
pub mod float_ops;
pub mod not_atan;
pub mod split_geometry;
pub mod vector3;
