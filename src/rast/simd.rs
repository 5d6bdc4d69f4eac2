//! The coverage test of a triangle over a batch of lanes, each edge value computed directly.
use vstd::prelude::*;

use crate::math::Coord;
use crate::rast::{direction, edge, inside, pt_within, Point};

verus! {

/// For each lane `k`, whether the point `(x[k], y[k])` is inside `tri` or on its boundary.
pub fn triangle_mask<T: Coord, const N: usize>(x: [T; N], y: [T; N], tri: [Point<T>; 3]) -> (r: [bool; N])
    requires
        forall|k: int| 0 <= k < N ==> pt_within::<T>((#[trigger] x[k].int_val(), y[k].int_val())),
        pt_within::<T>(tri[0].pt()),
        pt_within::<T>(tri[1].pt()),
        pt_within::<T>(tri[2].pt()),
    ensures
        forall|k: int|
            0 <= k < N ==> #[trigger] r[k] == inside(
                (x[k].int_val(), y[k].int_val()),
                tri[0].pt(),
                tri[1].pt(),
                tri[2].pt(),
            ),
{
    let d01 = direction(tri[0], tri[1]);
    let d12 = direction(tri[1], tri[2]);
    let d20 = direction(tri[2], tri[0]);
    let mut r: [bool; N] = [false; N];
    let mut k: usize = 0;
    while k < N
        invariant
            k <= N,
            forall|j: int| 0 <= j < N ==> pt_within::<T>((#[trigger] x[j].int_val(), y[j].int_val())),
            pt_within::<T>(tri[0].pt()),
            pt_within::<T>(tri[1].pt()),
            pt_within::<T>(tri[2].pt()),
            d01.pt() == (tri[1].x.int_val() - tri[0].x.int_val(), tri[1].y.int_val() - tri[0].y.int_val()),
            d12.pt() == (tri[2].x.int_val() - tri[1].x.int_val(), tri[2].y.int_val() - tri[1].y.int_val()),
            d20.pt() == (tri[0].x.int_val() - tri[2].x.int_val(), tri[0].y.int_val() - tri[2].y.int_val()),
            forall|j: int|
                0 <= j < k ==> #[trigger] r[j] == inside(
                    (x[j].int_val(), y[j].int_val()),
                    tri[0].pt(),
                    tri[1].pt(),
                    tri[2].pt(),
                ),
        decreases N - k,
    {
        let p = Point { x: x[k], y: y[k] };
        assert(pt_within::<T>((x[k as int].int_val(), y[k as int].int_val())));
        let e0 = edge(p, tri[0], d01);
        let e1 = edge(p, tri[1], d12);
        let e2 = edge(p, tri[2], d20);
        r[k] = e0.is_nonneg() && e1.is_nonneg() && e2.is_nonneg();
        k = k + 1;
    }
    r
}

} // verus!
