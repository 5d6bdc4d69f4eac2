//! Buffers that a presentation layer hands out to be read and written.
use vstd::prelude::*;

verus! {

/// A readable buffer of `T` elements.
pub trait Buffer<T> {
    fn size(&self) -> T;

    fn read(&self, dst: &mut [T]);
}

/// A buffer that can also be written.
pub trait RwBuffer<T>: Buffer<T> {
    fn write(&mut self, src: &[u8]);
}

} // verus!
