//! The shader stages that surround the rasterizer in a pipeline.
use vstd::prelude::*;

pub mod attr;

verus! {

/// How a vertex attribute is carried across a triangle.
#[derive(Debug)]
pub enum Interpolation<T> {
    Flat(T),
    Linear(T),
}

/// The stage that transforms each vertex before rasterization.
pub trait VertexShader<T> {
    type VertexInput;

    type VertexOutput;

    fn vertex(input: Self::VertexInput) -> Self::VertexOutput;
}

/// The stage that colors each covered pixel.
pub trait PixelShader<T> {
    type PixelInput;

    type PixelOutput;

    fn pixel(input: Self::PixelInput) -> Self::PixelOutput;
}

} // verus!
