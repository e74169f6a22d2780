//! 3-component binary32 vectors and directed edges between them.
//!
//! Components are carried as `u32` bit patterns; equality of vectors and
//! edges is equality of those bit patterns, so two vertices are the same
//! point only when their encodings are identical (positive and negative
//! zero differ, as the partitioning algorithm requires).

use crate::float_ops::{
    f32_add, f32_mul, f32_sqrt, f32_sub, spec_f32_add, spec_f32_mul, spec_f32_sqrt, spec_f32_sub,
};
use vstd::prelude::*;

verus! {

/// A 3-component vector of binary32 values, each held as its bit pattern.
#[derive(Clone, Copy, Debug, PartialEq, Eq, Hash, Structural)]
pub struct Vector3 {
    pub x: u32,
    pub y: u32,
    pub z: u32,
}

/// Componentwise binary32 addition.
pub open spec fn spec_vec_add(a: Vector3, b: Vector3) -> Vector3 {
    Vector3 { x: spec_f32_add(a.x, b.x), y: spec_f32_add(a.y, b.y), z: spec_f32_add(a.z, b.z) }
}

/// Componentwise binary32 subtraction.
pub open spec fn spec_vec_sub(a: Vector3, b: Vector3) -> Vector3 {
    Vector3 { x: spec_f32_sub(a.x, b.x), y: spec_f32_sub(a.y, b.y), z: spec_f32_sub(a.z, b.z) }
}

/// The binary32 cross product `a × b`.
pub open spec fn spec_vec_cross(a: Vector3, b: Vector3) -> Vector3 {
    Vector3 {
        x: spec_f32_sub(spec_f32_mul(a.y, b.z), spec_f32_mul(a.z, b.y)),
        y: spec_f32_sub(spec_f32_mul(a.z, b.x), spec_f32_mul(a.x, b.z)),
        z: spec_f32_sub(spec_f32_mul(a.x, b.y), spec_f32_mul(a.y, b.x)),
    }
}

/// The binary32 dot product `a · b`, summed left to right.
pub open spec fn spec_vec_dot(a: Vector3, b: Vector3) -> u32 {
    spec_f32_add(
        spec_f32_add(spec_f32_mul(a.x, b.x), spec_f32_mul(a.y, b.y)),
        spec_f32_mul(a.z, b.z),
    )
}

/// The binary32 Euclidean length: the square root of `a · a`.
pub open spec fn spec_vec_length(a: Vector3) -> u32 {
    spec_f32_sqrt(spec_vec_dot(a, a))
}

impl Vector3 {
    pub fn new(x: u32, y: u32, z: u32) -> (r: Vector3)
        ensures
            r == (Vector3 { x, y, z }),
    {
        Vector3 { x, y, z }
    }

    pub fn add(self, other: Vector3) -> (r: Vector3)
        ensures
            r == spec_vec_add(self, other),
    {
        Vector3 {
            x: f32_add(self.x, other.x),
            y: f32_add(self.y, other.y),
            z: f32_add(self.z, other.z),
        }
    }

    pub fn sub(self, other: Vector3) -> (r: Vector3)
        ensures
            r == spec_vec_sub(self, other),
    {
        Vector3 {
            x: f32_sub(self.x, other.x),
            y: f32_sub(self.y, other.y),
            z: f32_sub(self.z, other.z),
        }
    }

    pub fn cross(self, other: Vector3) -> (r: Vector3)
        ensures
            r == spec_vec_cross(self, other),
    {
        Vector3 {
            x: f32_sub(f32_mul(self.y, other.z), f32_mul(self.z, other.y)),
            y: f32_sub(f32_mul(self.z, other.x), f32_mul(self.x, other.z)),
            z: f32_sub(f32_mul(self.x, other.y), f32_mul(self.y, other.x)),
        }
    }

    pub fn dot(self, other: Vector3) -> (r: u32)
        ensures
            r == spec_vec_dot(self, other),
    {
        f32_add(f32_add(f32_mul(self.x, other.x), f32_mul(self.y, other.y)), f32_mul(self.z, other.z))
    }

    pub fn length(self) -> (r: u32)
        ensures
            r == spec_vec_length(self),
    {
        f32_sqrt(self.dot(self))
    }
}

/// A directed edge between two vertices, keyed by the exact bit patterns of
/// both endpoints.
#[derive(Clone, Copy, Debug, PartialEq, Eq, Hash, Structural)]
pub struct Edge {
    pub from: Vector3,
    pub to: Vector3,
}

impl Edge {
    pub fn new(from: Vector3, to: Vector3) -> (r: Edge)
        ensures
            r == (Edge { from, to }),
    {
        Edge { from, to }
    }
}

} // verus!
