//! A small software rasterizer: vector types, fixed-point triangle coverage,
//! clipped Bresenham lines and the assembly of triangles from vertex lists.
use vstd::prelude::*;
use vstd::std_specs::convert::FromSpec;

pub mod assembly;
pub mod input;
pub mod line;
pub mod math;
pub mod pixel;
pub mod rasterize;

use crate::math::{Vec3, Vec4};

verus! {

/// A vertex: a position and an RGBA color.
#[derive(Copy, Clone)]
pub struct Vertex<T> {
    pub pos: Vec3<T>,
    pub color: Vec4<T>,
}

impl<T> Vertex<T> {
    pub fn new(pos: Vec3<T>, color: Vec4<T>) -> (r: Self)
        ensures
            r.pos == pos,
            r.color == color,
    {
        Self { pos, color }
    }

    /// A vertex colored opaque black: color components (0, 0, 0, 1).
    pub fn new_black(pos: Vec3<T>) -> (r: Self) where T: From<u8>
        ensures
            r.pos == pos,
            T::obeys_from_spec() ==> r.color == (Vec4 {
                x: T::from_spec(0u8),
                y: T::from_spec(0u8),
                z: T::from_spec(0u8),
                w: T::from_spec(1u8),
            }),
    {
        Self { pos, color: crate::math::vec4(T::from(0u8), T::from(0u8), T::from(0u8), T::from(1u8)) }
    }
}

} // verus!
