//! Attributes that shader parameters can carry.
use vstd::prelude::*;

verus! {

/// Shader parameters that record the index of the vertex they were made for.
pub trait VertexIndex {
    fn vert_index(&mut self) -> Option<&mut usize>;
}

/// Shader parameters that carry no attribute.
pub struct Test {}

} // verus!
