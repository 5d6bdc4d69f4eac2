//! The state that each pipeline stage hands to the next.
use vstd::prelude::*;

use crate::math::Coord;
use crate::raster::Rasterizer;
use crate::shader::{PixelShader, VertexShader};

verus! {

/// What the vertex stage knows of the vertex at hand.
pub trait VertexState {
    type Vertex;

    fn get_vertex_index(&self) -> usize;

    fn get_vertex(&self) -> Self::Vertex;
}

/// What the pixel stage knows of the pixels at hand.
pub trait PixelState {
    type Pixel;

    /// The pixels at hand.
    spec fn pixel_view(&self) -> Self::Pixel;

    fn get_pixel(&self) -> (r: Self::Pixel)
        ensures
            r == self.pixel_view(),
    ;
}

/// A rasterizer together with the shader stages around it.
pub trait Pipeline<T: Coord, const N: usize>: Rasterizer<T, N> + VertexShader<T> + PixelShader<T> {

}

} // verus!
