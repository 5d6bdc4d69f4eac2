//! Edge functions, the coverage rule, and the scalar rasterizer that marks the covered
//! pixels of a frame block.
use vstd::prelude::*;

use crate::math::{within, Coord};
use crate::math::Vec2;
use crate::raster::simd::{lemma_lane_inside, lemma_next_fits};
use crate::raster::{lemma_seeded_tracks, lemma_tracks_next, RasterError, TriangleEdgeState};
use vstd::arithmetic::div_mod::{lemma_fundamental_div_mod, lemma_fundamental_div_mod_converse};
use crate::{IntView, NumberCast};

pub mod simd;

verus! {

/// A pixel position.
pub type Pixel = Point<usize>;

#[derive(Debug, Clone, Copy)]
pub struct Point<T> {
    pub x: T,
    pub y: T,
}

impl<T: IntView> Point<T> {
    /// The point as a pair of numbers.
    pub open spec fn pt(self) -> (int, int) {
        (self.x.int_val(), self.y.int_val())
    }
}

impl From<Pixel> for Point<i32> {
    /// The pixel's coordinates as `i32`, wrapping as `as` does.
    fn from(value: Pixel) -> (r: Self) {
        Point { x: #[verifier::truncate] (value.x as i32), y: #[verifier::truncate] (value.y as i32) }
    }
}

impl vstd::std_specs::convert::FromSpecImpl<Pixel> for Point<i32> {
    open spec fn obeys_from_spec() -> bool {
        true
    }

    open spec fn from_spec(value: Pixel) -> Self {
        Point { x: value.x as i32, y: value.y as i32 }
    }
}

/// A destination buffer, row-major with `width` pixels per row and `height` rows.
pub struct Frame {
    pub dst: Vec<u32>,
    pub width: usize,
    pub height: usize,
}

/// The pixels `min.x <= x < max.x`, `min.y <= y < max.y`.
#[derive(Debug, Clone, Copy)]
pub struct Block {
    pub min: Pixel,
    pub max: Pixel,
}

/// Twice the signed area of the triangle `(a, b, p)`: its sign says on which side of the
/// directed line `a -> b` the point `p` lies.
pub open spec fn edge_val(p: (int, int), a: (int, int), b: (int, int)) -> int {
    (b.0 - a.0) * (p.1 - a.1) - (b.1 - a.1) * (p.0 - a.0)
}

/// `p` is inside the triangle `(a, b, c)` or on its boundary: no edge value is negative.
pub open spec fn inside(p: (int, int), a: (int, int), b: (int, int), c: (int, int)) -> bool {
    edge_val(p, a, b) >= 0 && edge_val(p, b, c) >= 0 && edge_val(p, c, a) >= 0
}

/// The three vertices lie on one line: the triangle has no area.
pub open spec fn degenerate(a: (int, int), b: (int, int), c: (int, int)) -> bool {
    edge_val(c, a, b) == 0
}

/// The rasterizers mark `p` for the triangle `(a, b, c)`: the triangle has an area and `p`
/// passes the coverage test.
pub open spec fn covered(p: (int, int), a: (int, int), b: (int, int), c: (int, int)) -> bool {
    !degenerate(a, b, c) && inside(p, a, b, c)
}

/// Both coordinates of `p` lie in the coordinate range of `T`.
pub open spec fn pt_within<T: Coord>(p: (int, int)) -> bool {
    within::<T>(p.0) && within::<T>(p.1)
}

proof fn lemma_mul_bound(x: int, y: int, m: int)
    requires
        -m <= x <= m,
        -m <= y <= m,
    ensures
        -(m * m) <= x * y <= m * m,
{
    assert(-(m * m) <= x * y <= m * m) by (nonlinear_arith)
        requires
            -m <= x <= m,
            -m <= y <= m,
    ;
}

/// The difference of two products of numbers of magnitude up to `2 r` is at most `8 r^2` in
/// magnitude, and so is each product and each factor.
proof fn lemma_products_bound(x1: int, y1: int, x2: int, y2: int, r: int)
    requires
        1 <= r,
        -2 * r <= x1 <= 2 * r,
        -2 * r <= y1 <= 2 * r,
        -2 * r <= x2 <= 2 * r,
        -2 * r <= y2 <= 2 * r,
    ensures
        -(8 * r * r) <= x1 * y1 - x2 * y2 <= 8 * r * r,
        -(8 * r * r) <= x1 * y1 <= 8 * r * r,
        -(8 * r * r) <= x2 * y2 <= 8 * r * r,
        -(8 * r * r) <= x1 <= 8 * r * r,
        -(8 * r * r) <= y1 <= 8 * r * r,
        -(8 * r * r) <= x2 <= 8 * r * r,
        -(8 * r * r) <= y2 <= 8 * r * r,
{
    lemma_mul_bound(x1, y1, 2 * r);
    lemma_mul_bound(x2, y2, 2 * r);
    assert((2 * r) * (2 * r) == 4 * (r * r)) by (nonlinear_arith);
    assert(8 * r * r == 8 * (r * r)) by (nonlinear_arith);
    assert(r <= r * r) by (nonlinear_arith)
        requires
            1 <= r,
    ;
}

/// An edge value of points of magnitude up to `r` is at most `8 r^2` in magnitude.
pub proof fn lemma_edge_bound(p: (int, int), a: (int, int), b: (int, int), r: int)
    requires
        1 <= r,
        -r <= p.0 <= r,
        -r <= p.1 <= r,
        -r <= a.0 <= r,
        -r <= a.1 <= r,
        -r <= b.0 <= r,
        -r <= b.1 <= r,
    ensures
        -(8 * r * r) <= edge_val(p, a, b) <= 8 * r * r,
{
    lemma_products_bound(b.0 - a.0, p.1 - a.1, b.1 - a.1, p.0 - a.0, r);
}

/// A number of magnitude up to `8 reach^2` is held by `T`.
pub proof fn lemma_holds<T: Coord>(v: int)
    requires
        -(8 * T::reach() * T::reach()) <= v <= 8 * T::reach() * T::reach(),
    ensures
        T::holds(v),
{
    T::lemma_reach();
    assert(T::holds(v));
}

/// An edge value of points in the coordinate range of `T` is held by `T`.
pub proof fn lemma_edge_fits<T: Coord>(p: (int, int), a: (int, int), b: (int, int))
    requires
        pt_within::<T>(p),
        pt_within::<T>(a),
        pt_within::<T>(b),
    ensures
        T::holds(edge_val(p, a, b)),
{
    T::lemma_reach();
    lemma_edge_bound(p, a, b, T::reach());
    lemma_holds::<T>(edge_val(p, a, b));
}

/// The terms of an edge value, differences of coordinates in the range of `T`, are held by
/// `T`.
pub proof fn lemma_products_fit<T: Coord>(x1: int, y1: int, x2: int, y2: int)
    requires
        -2 * T::reach() <= x1 <= 2 * T::reach(),
        -2 * T::reach() <= y1 <= 2 * T::reach(),
        -2 * T::reach() <= x2 <= 2 * T::reach(),
        -2 * T::reach() <= y2 <= 2 * T::reach(),
    ensures
        T::holds(x1 * y1 - x2 * y2),
        T::holds(x1 * y1),
        T::holds(x2 * y2),
        T::holds(x1),
        T::holds(y1),
        T::holds(x2),
        T::holds(y2),
{
    T::lemma_reach();
    lemma_products_bound(x1, y1, x2, y2, T::reach());
    lemma_holds::<T>(x1 * y1 - x2 * y2);
    lemma_holds::<T>(x1 * y1);
    lemma_holds::<T>(x2 * y2);
    lemma_holds::<T>(x1);
    lemma_holds::<T>(y1);
    lemma_holds::<T>(x2);
    lemma_holds::<T>(y2);
}

/// The edge value of `p` against the line through `v1` with direction `dv`.
pub(crate) fn edge<T: Coord>(p: Point<T>, v1: Point<T>, dv: Point<T>) -> (r: T)
    requires
        -2 * T::reach() <= p.x.int_val() - v1.x.int_val() <= 2 * T::reach(),
        -2 * T::reach() <= p.y.int_val() - v1.y.int_val() <= 2 * T::reach(),
        -2 * T::reach() <= dv.x.int_val() <= 2 * T::reach(),
        -2 * T::reach() <= dv.y.int_val() <= 2 * T::reach(),
    ensures
        r.int_val() == dv.x.int_val() * (p.y.int_val() - v1.y.int_val()) - dv.y.int_val() * (
        p.x.int_val() - v1.x.int_val()),
{
    proof {
        lemma_products_fit::<T>(
            dv.x.int_val(),
            p.y.int_val() - v1.y.int_val(),
            dv.y.int_val(),
            p.x.int_val() - v1.x.int_val(),
        );
    }
    let a = dv.x.times(p.y.minus(v1.y));
    let b = dv.y.times(p.x.minus(v1.x));
    a.minus(b)
}

/// The direction `b - a` of an edge.
pub(crate) fn direction<T: Coord>(a: Point<T>, b: Point<T>) -> (r: Point<T>)
    requires
        pt_within::<T>(a.pt()),
        pt_within::<T>(b.pt()),
    ensures
        r.pt() == (b.x.int_val() - a.x.int_val(), b.y.int_val() - a.y.int_val()),
{
    proof {
        lemma_products_fit::<T>(
            b.x.int_val() - a.x.int_val(),
            0,
            b.y.int_val() - a.y.int_val(),
            0,
        );
    }
    Point { x: b.x.minus(a.x), y: b.y.minus(a.y) }
}

/// The edge value of `p` against the directed edge `a -> b`.
pub(crate) fn edge_between<T: Coord>(p: Point<T>, a: Point<T>, b: Point<T>) -> (r: T)
    requires
        pt_within::<T>(p.pt()),
        pt_within::<T>(a.pt()),
        pt_within::<T>(b.pt()),
    ensures
        r.int_val() == edge_val(p.pt(), a.pt(), b.pt()),
{
    edge(p, a, direction(a, b))
}

/// Triangle `t` of `list` covers `p`.
pub open spec fn frame_tri_covers<T: IntView>(list: Seq<[Point<T>; 3]>, t: int, p: (int, int)) -> bool {
    covered(p, list[t][0].pt(), list[t][1].pt(), list[t][2].pt())
}

/// One of the first `t` triangles of `list` covers `p`.
pub open spec fn frame_covered_upto<T: IntView>(list: Seq<[Point<T>; 3]>, t: int, p: (int, int)) -> bool
    decreases t,
{
    if t <= 0 {
        false
    } else {
        frame_covered_upto(list, t - 1, p) || frame_tri_covers(list, t - 1, p)
    }
}

impl Block {
    /// The block holds the pixel `(x, y)`.
    pub open spec fn holds_pixel(self, x: int, y: int) -> bool {
        self.min.x <= x < self.max.x && self.min.y <= y < self.max.y
    }
}

/// Every element `j` of `dst`, the pixel `(j % width, j / width)`: where that pixel lies in
/// the frame's rows and in `block` and `marked` says so, the full-coverage marker
/// `u32::MAX`; else as in `orig`.
pub open spec fn frame_shows(
    width: int,
    height: int,
    block: Block,
    orig: Seq<u32>,
    dst: Seq<u32>,
    marked: spec_fn(int, int) -> bool,
) -> bool {
    &&& dst.len() == orig.len()
    &&& forall|j: int|
        0 <= j < dst.len() ==> #[trigger] dst[j] == if width > 0 && j / width < height && block.holds_pixel(
            j % width,
            j / width,
        ) && marked(j % width, j / width) {
            u32::MAX
        } else {
            orig[j]
        }
}

/// The outcome of rasterizing `list` into `block`: refused when a vertex or the block's far
/// corner lies outside the coordinate range of `T`.
pub open spec fn frame_outcome<T: Coord>(block: Block, list: Seq<[Point<T>; 3]>) -> Result<(), RasterError> {
    if block.max.x <= T::reach() && block.max.y <= T::reach() && forall|t: int, v: int|
        0 <= t < list.len() && 0 <= v < 3 ==> pt_within::<T>(#[trigger] list[t][v].pt()) {
        Ok(())
    } else {
        Err(RasterError::OutOfRange)
    }
}

/// Writes `v` at the pixel `(x, y)` where it lies in the frame's rows and in the buffer.
fn put_pixel(dst: &mut Vec<u32>, width: usize, height: usize, x: usize, y: usize, v: u32)
    ensures
        final(dst)@.len() == old(dst)@.len(),
        forall|j: int|
            0 <= j < old(dst)@.len() ==> #[trigger] final(dst)@[j] == if width > 0 && j / (width as int)
                == y && j % (width as int) == x && y < height {
                v
            } else {
                old(dst)@[j]
            },
{
    let len = dst.len();
    let ghost w = width as int;
    if x < width && y < height {
        if let Some(rs) = y.checked_mul(width) {
            if let Some(i) = rs.checked_add(x) {
                if i < len {
                    proof {
                        lemma_fundamental_div_mod_converse(i as int, w, y as int, x as int);
                    }
                    dst[i] = v;
                }
            }
        }
    }
    proof {
        assert forall|j: int| 0 <= j < old(dst)@.len() implies #[trigger] dst@[j] == if width > 0 && j
            / w == y && j % w == x && y < height {
            v
        } else {
            old(dst)@[j]
        } by {
            if width > 0 {
                lemma_fundamental_div_mod(j, w);
                if j / w == y && j % w == x {
                    assert(w * y == y * w) by (nonlinear_arith);
                    assert(j == y * w + x);
                }
                if x < width && y < height && y * w + x < len {
                    lemma_fundamental_div_mod_converse(y * w + x, w, y as int, x as int);
                }
            }
        }
    }
}

/// The pixels marked part way through the scan of the triangle `(a, b, c)`: those that
/// `before` marks, and the covered ones of the rows above `y` and left of `x` in row `y`.
pub open spec fn frame_scan_marks(
    before: spec_fn(int, int) -> bool,
    a: (int, int),
    b: (int, int),
    c: (int, int),
    y: int,
    x: int,
) -> spec_fn(int, int) -> bool {
    |px: int, py: int| before(px, py) || (covered((px, py), a, b, c) && (py < y || (py == y && px < x)))
}

proof fn lemma_frame_marks_agree(
    w: int,
    h: int,
    block: Block,
    orig: Seq<u32>,
    dst: Seq<u32>,
    m0: spec_fn(int, int) -> bool,
    m1: spec_fn(int, int) -> bool,
)
    requires
        frame_shows(w, h, block, orig, dst, m0),
        forall|x: int, y: int| block.holds_pixel(x, y) ==> m0(x, y) == m1(x, y),
    ensures
        frame_shows(w, h, block, orig, dst, m1),
{
    assert forall|j: int| 0 <= j < dst.len() implies #[trigger] dst[j] == if w > 0 && j / w < h
        && block.holds_pixel(j % w, j / w) && m1(j % w, j / w) {
        u32::MAX
    } else {
        orig[j]
    } by {
        if block.holds_pixel(j % w, j / w) {
            assert(m0(j % w, j / w) == m1(j % w, j / w));
        }
    }
}

proof fn lemma_frame_put(
    w: int,
    h: int,
    block: Block,
    orig: Seq<u32>,
    d0: Seq<u32>,
    d1: Seq<u32>,
    m0: spec_fn(int, int) -> bool,
    m1: spec_fn(int, int) -> bool,
    x: int,
    y: int,
    hit: bool,
)
    requires
        frame_shows(w, h, block, orig, d0, m0),
        block.holds_pixel(x, y),
        d1.len() == d0.len(),
        forall|j: int|
            0 <= j < d0.len() ==> #[trigger] d1[j] == if hit && w > 0 && j / w == y && j % w == x && y < h {
                u32::MAX
            } else {
                d0[j]
            },
        forall|px: int, py: int|
            block.holds_pixel(px, py) ==> m1(px, py) == (m0(px, py) || (hit && px == x && py == y)),
    ensures
        frame_shows(w, h, block, orig, d1, m1),
{
    assert forall|j: int| 0 <= j < d1.len() implies #[trigger] d1[j] == if w > 0 && j / w < h
        && block.holds_pixel(j % w, j / w) && m1(j % w, j / w) {
        u32::MAX
    } else {
        orig[j]
    } by {
        assert(d0[j] == d0[j]);
        if block.holds_pixel(j % w, j / w) {
            assert(m1(j % w, j / w) == (m0(j % w, j / w) || (hit && j % w == x && j / w == y)));
        }
    }
}

/// Rasterizes the triangles of `list` into `block` of `frame`, one pixel at a time with the
/// incremental edge stepper: each pixel of the block that lies in the frame and that some
/// triangle covers gets the full-coverage marker `u32::MAX`; every other element stays as it
/// was.
pub fn rasterize_frame<T: Coord>(frame: &mut Frame, block: &Block, list: &[[Point<T>; 3]]) -> (r: Result<(), RasterError>) where
    usize: NumberCast<T>,

    ensures
        final(frame).width == old(frame).width,
        final(frame).height == old(frame).height,
        r == frame_outcome::<T>(*block, list@),
        r is Err ==> final(frame).dst@ == old(frame).dst@,
        r is Ok ==> frame_shows(
            old(frame).width as int,
            old(frame).height as int,
            *block,
            old(frame).dst@,
            final(frame).dst@,
            |x: int, y: int| frame_covered_upto(list@, list@.len() as int, (x, y)),
        ),
{
    let ghost l = list@;
    let ghost orig = frame.dst@;
    let ghost (w, h) = (frame.width as int, frame.height as int);
    if !(T::usize_in_reach(block.max.x) && T::usize_in_reach(block.max.y)) {
        return Err(RasterError::OutOfRange);
    }
    let mut t: usize = 0;
    while t < list.len()
        invariant
            t <= l.len(),
            l == list@,
            forall|u: int, v: int| 0 <= u < t && 0 <= v < 3 ==> pt_within::<T>(#[trigger] l[u][v].pt()),
        decreases l.len() - t,
    {
        let tri = &list[t];
        if !(tri[0].x.in_reach() && tri[0].y.in_reach() && tri[1].x.in_reach() && tri[1].y.in_reach()
            && tri[2].x.in_reach() && tri[2].y.in_reach()) {
            proof {
                let k: int = if !pt_within::<T>(l[t as int][0].pt()) { 0 } else if !pt_within::<T>(l[t as int][1].pt()) { 1 } else { 2 };
                assert(!pt_within::<T>(l[t as int][k].pt()));
            }
            return Err(RasterError::OutOfRange);
        }
        t = t + 1;
    }
    proof {
        T::lemma_reach();
    }
    let mut t: usize = 0;
    while t < list.len()
        invariant
            t <= l.len(),
            l == list@,
            T::reach() < 0x4000_0000,
            block.max.x <= T::reach(),
            block.max.y <= T::reach(),
            forall|u: int, v: int| 0 <= u < l.len() && 0 <= v < 3 ==> pt_within::<T>(#[trigger] l[u][v].pt()),
            frame.width == w,
            frame.height == h,
            frame_shows(w, h, *block, orig, frame.dst@, |x: int, y: int| frame_covered_upto(l, t as int, (x, y))),
        decreases l.len() - t,
    {
        let tri = list[t];
        let ghost (a, b, c) = (tri[0].pt(), tri[1].pt(), tri[2].pt());
        let ghost before = |x: int, y: int| frame_covered_upto(l, t as int, (x, y));
        let ghost after = |x: int, y: int| frame_covered_upto(l, t + 1, (x, y));
        proof {
            assert(pt_within::<T>(l[t as int][0].pt()));
            assert(pt_within::<T>(l[t as int][1].pt()));
            assert(pt_within::<T>(l[t as int][2].pt()));
        }
        let area = edge_between(tri[2], tri[0], tri[1]);
        if area.is_zero() {
            proof {
                lemma_frame_marks_agree(w, h, *block, orig, frame.dst@, before, after);
            }
        } else {
            mark_triangle(frame, block, tri, Ghost(orig), Ghost(before));
            proof {
                lemma_frame_marks_agree(
                    w,
                    h,
                    *block,
                    orig,
                    frame.dst@,
                    |x: int, y: int| before(x, y) || covered((x, y), a, b, c),
                    after,
                );
            }
        }
        t = t + 1;
    }
    Ok(())
}

/// Marks the pixels of `block` that lie in the frame and that the triangle `tri` covers,
/// walking the block row by row with a one-lane edge stepper.
fn mark_triangle<T: Coord>(
    frame: &mut Frame,
    block: &Block,
    tri: [Point<T>; 3],
    Ghost(orig): Ghost<Seq<u32>>,
    Ghost(before): Ghost<spec_fn(int, int) -> bool>,
) where usize: NumberCast<T>
    requires
        T::reach() < 0x4000_0000,
        block.max.x <= T::reach(),
        block.max.y <= T::reach(),
        pt_within::<T>(tri[0].pt()),
        pt_within::<T>(tri[1].pt()),
        pt_within::<T>(tri[2].pt()),
        !degenerate(tri[0].pt(), tri[1].pt(), tri[2].pt()),
        frame_shows(old(frame).width as int, old(frame).height as int, *block, orig, old(frame).dst@, before),
    ensures
        final(frame).width == old(frame).width,
        final(frame).height == old(frame).height,
        frame_shows(
            old(frame).width as int,
            old(frame).height as int,
            *block,
            orig,
            final(frame).dst@,
            |x: int, y: int| before(x, y) || covered((x, y), tri[0].pt(), tri[1].pt(), tri[2].pt()),
        ),
{
    let ghost (a, b, c) = (tri[0].pt(), tri[1].pt(), tri[2].pt());
    let ghost (w, h) = (frame.width as int, frame.height as int);
    let ghost done = |x: int, y: int| before(x, y) || covered((x, y), a, b, c);
    if block.min.x >= block.max.x || block.min.y >= block.max.y {
        proof {
            lemma_frame_marks_agree(w, h, *block, orig, frame.dst@, before, done);
        }
        return ;
    }
    let (x0, y0) = (block.min.x, block.min.y);
    let width = block.max.x - x0;
    proof {
        lemma_products_fit::<T>(x0 as int, y0 as int, 0, 0);
    }
    let origin = Vec2 { x: x0.to_num(), y: y0.to_num() };
    let v1 = Vec2 { x: tri[0].x, y: tri[0].y };
    let v2 = Vec2 { x: tri[1].x, y: tri[1].y };
    let v3 = Vec2 { x: tri[2].x, y: tri[2].y };
    let ghost p = (x0 as int, y0 as int);
    let mut edge = TriangleEdgeState::<T, 1>::new(width, origin, v1, v2, v3);
    let mut y: usize = y0;
    proof {
        lemma_seeded_tracks(width as int, 1, p, a, b, c);
        lemma_frame_marks_agree(w, h, *block, orig, frame.dst@, before, frame_scan_marks(before, a, b, c, y as int, 0));
    }
    while y < block.max.y
        invariant
            T::reach() < 0x4000_0000,
            block.max.x <= T::reach(),
            block.max.y <= T::reach(),
            x0 == block.min.x,
            y0 == block.min.y,
            x0 < block.max.x,
            width == block.max.x - x0,
            p == (x0 as int, y0 as int),
            pt_within::<T>(a),
            pt_within::<T>(b),
            pt_within::<T>(c),
            !degenerate(a, b, c),
            frame.width == w,
            frame.height == h,
            y0 <= y,
            edge@.tracks(1, p, a, b, c, y - y0),
            edge@.i == 0,
            edge@.width == width,
            frame_shows(w, h, *block, orig, frame.dst@, frame_scan_marks(before, a, b, c, y as int, 0)),
        decreases block.max.y - y,
    {
        let mut x: usize = x0;
        proof {
            lemma_frame_marks_agree(
                w,
                h,
                *block,
                orig,
                frame.dst@,
                frame_scan_marks(before, a, b, c, y as int, 0),
                frame_scan_marks(before, a, b, c, y as int, x as int),
            );
        }
        while x < block.max.x
            invariant
                T::reach() < 0x4000_0000,
                block.max.x <= T::reach(),
                block.max.y <= T::reach(),
                x0 == block.min.x,
                y0 == block.min.y,
                width == block.max.x - x0,
                p == (x0 as int, y0 as int),
                pt_within::<T>(a),
                pt_within::<T>(b),
                pt_within::<T>(c),
                !degenerate(a, b, c),
                frame.width == w,
                frame.height == h,
                y0 <= y < block.max.y,
                x0 <= x <= block.max.x,
                edge@.width == width,
                x < block.max.x ==> edge@.tracks(1, p, a, b, c, y - y0) && edge@.i == x - x0,
                x == block.max.x ==> edge@.tracks(1, p, a, b, c, y + 1 - y0) && edge@.i == 0,
                frame_shows(w, h, *block, orig, frame.dst@, frame_scan_marks(before, a, b, c, y as int, x as int)),
            decreases block.max.x - x,
        {
            let ghost s0 = edge@;
            let hit = edge.test();
            proof {
                lemma_lane_inside(1, (x as int, y as int), a, b, c, 0);
                assert((x0 + (x - x0) * 1, y0 + (y - y0)) == (x as int, y as int));
                lemma_next_fits::<T>(s0, 1, p, a, b, c, y - y0);
                lemma_tracks_next(s0, 1, p, a, b, c, y - y0);
            }
            edge.step();
            let ghost d0 = frame.dst@;
            if hit {
                put_pixel(&mut frame.dst, frame.width, frame.height, x, y, u32::MAX);
            }
            proof {
                let m0 = frame_scan_marks(before, a, b, c, y as int, x as int);
                let m1 = frame_scan_marks(before, a, b, c, y as int, x + 1);
                assert(hit == covered((x as int, y as int), a, b, c));
                lemma_frame_put(w, h, *block, orig, d0, frame.dst@, m0, m1, x as int, y as int, hit);
            }
            x = x + 1;
        }
        proof {
            lemma_frame_marks_agree(
                w,
                h,
                *block,
                orig,
                frame.dst@,
                frame_scan_marks(before, a, b, c, y as int, x as int),
                frame_scan_marks(before, a, b, c, y + 1, 0),
            );
        }
        y = y + 1;
    }
    proof {
        lemma_frame_marks_agree(w, h, *block, orig, frame.dst@, frame_scan_marks(before, a, b, c, y as int, 0), done);
    }
}

} // verus!
