//! A software triangle rasterizer: edge functions, an incremental edge stepper and a
//! lane-parallel scan with masked stores, generic over the coordinate type.
use vstd::prelude::*;

pub mod buffer;
pub mod math;
pub mod pipeline;
pub mod rast;
pub mod raster;
pub mod shader;

verus! {

/// An integer type seen through its mathematical value.
pub trait IntView: Copy + Sized {
    /// The number this value stands for.
    spec fn int_val(self) -> int;

    /// Whether the number `v` can be held by this type.
    spec fn holds(v: int) -> bool;
}

/// Lossless conversion between integer types, for values that the target type holds.
pub trait NumberCast<T: IntView>: IntView {
    fn to_num(self) -> (r: T)
        requires
            T::holds(self.int_val()),
        ensures
            r.int_val() == self.int_val(),
    ;
}

impl IntView for usize {
    open spec fn int_val(self) -> int {
        self as int
    }

    open spec fn holds(v: int) -> bool {
        0 <= v <= usize::MAX
    }
}

impl IntView for i16 {
    open spec fn int_val(self) -> int {
        self as int
    }

    open spec fn holds(v: int) -> bool {
        i16::MIN <= v <= i16::MAX
    }
}

impl IntView for i32 {
    open spec fn int_val(self) -> int {
        self as int
    }

    open spec fn holds(v: int) -> bool {
        i32::MIN <= v <= i32::MAX
    }
}

impl IntView for i64 {
    open spec fn int_val(self) -> int {
        self as int
    }

    open spec fn holds(v: int) -> bool {
        i64::MIN <= v <= i64::MAX
    }
}

impl NumberCast<i16> for usize {
    fn to_num(self) -> (r: i16) {
        self as i16
    }
}

impl NumberCast<i32> for usize {
    fn to_num(self) -> (r: i32) {
        self as i32
    }
}

impl NumberCast<i64> for usize {
    fn to_num(self) -> (r: i64) {
        self as i64
    }
}

} // verus!
