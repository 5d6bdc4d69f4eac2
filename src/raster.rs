//! The incremental edge stepper and the tile that the lane-parallel rasterizer fills.
use vstd::prelude::*;

use crate::math::{within, Coord, Vec2};
use crate::rast::{edge, edge_val, lemma_products_fit, pt_within, Point};
use crate::{IntView, NumberCast};
use vstd::arithmetic::div_mod::{lemma_fundamental_div_mod, lemma_fundamental_div_mod_converse};

pub mod simd;

use simd::{outcome, rasterized, SimdTrianglePixelState};

verus! {

/// A destination buffer, row-major with `dst_width` pixels per row, and the block of
/// `dimensions.x` by `dimensions.y` pixels at `position` that a rasterize call scans.
pub struct Tile {
    pub dst: Vec<u32>,
    pub dst_width: usize,
    pub position: Vec2<usize>,
    pub dimensions: Vec2<usize>,
}

/// A rasterizer that fills a tile with the triangles of a flat vertex list, `N` pixels of a
/// row at a time, asking `pixel` for the colors of the covered pixels.
pub trait Rasterizer<T: Coord, const N: usize> {
    /// The rasterizer has been set up and can scan.
    spec fn ready(&self) -> bool;

    fn rasterize<F: Fn(&SimdTrianglePixelState<T, N>) -> [u32; N]>(
        &mut self,
        tile: &mut Tile,
        list: &[Vec2<T>],
        pixel: F,
    ) -> (r: Result<(), RasterError>)
        requires
            old(self).ready(),
            forall|s: &SimdTrianglePixelState<T, N>| call_requires(pixel, (s,)),
        ensures
            final(tile).geometry() == old(tile).geometry(),
            r == outcome::<T, N>(old(tile).geometry(), list@),
            r is Err ==> final(tile).dst@ == old(tile).dst@,
            r is Ok ==> rasterized::<T, N, F>(
                old(tile).geometry(),
                old(tile).dst@,
                final(tile).dst@,
                list@,
                pixel,
            ),
    ;
}

/// Why a rasterize call refused its input.
#[derive(Debug, Clone, Copy, PartialEq, Eq, Structural)]
pub enum RasterError {
    /// The vertex list does not hold whole triangles: its length is no multiple of 3.
    MalformedList,
    /// The block's width is no whole number of lane batches (or there are no lanes).
    LaneMismatch,
    /// A vertex or a corner of the block lies outside the coordinate range of the
    /// coordinate type, where edge values could overflow.
    OutOfRange,
}

/// The start point of edge `e` of the triangle `(a, b, c)`; edge 0 runs `b -> c`, edge 1
/// `c -> a`, edge 2 `a -> b`.
pub open spec fn edge_from(e: int, a: (int, int), b: (int, int), c: (int, int)) -> (int, int) {
    if e == 0 {
        b
    } else if e == 1 {
        c
    } else {
        a
    }
}

/// The end point of edge `e` of the triangle `(a, b, c)`.
pub open spec fn edge_to(e: int, a: (int, int), b: (int, int), c: (int, int)) -> (int, int) {
    if e == 0 {
        c
    } else if e == 1 {
        a
    } else {
        b
    }
}

/// The value at `p` of edge `e` of the triangle `(a, b, c)`.
pub open spec fn edge_of(e: int, p: (int, int), a: (int, int), b: (int, int), c: (int, int)) -> int {
    edge_val(p, edge_from(e, a, b, c), edge_to(e, a, b, c))
}

/// The three edge values, for each of `n` lanes at `(p.0 + k, p.1)`, evaluated directly.
pub open spec fn lanes_at(n: int, p: (int, int), a: (int, int), b: (int, int), c: (int, int)) -> Seq<
    Seq<int>,
> {
    Seq::new(3, |e: int| Seq::new(n as nat, |k: int| edge_of(e, (p.0 + k, p.1), a, b, c)))
}

/// What each edge value gains when the position moves `n` columns right.
pub open spec fn col_steps(n: int, a: (int, int), b: (int, int), c: (int, int)) -> Seq<int> {
    Seq::new(3, |e: int| n * -(edge_to(e, a, b, c).1 - edge_from(e, a, b, c).1))
}

/// What each edge value gains when the position moves one row down.
pub open spec fn row_steps(a: (int, int), b: (int, int), c: (int, int)) -> Seq<int> {
    Seq::new(3, |e: int| edge_to(e, a, b, c).0 - edge_from(e, a, b, c).0)
}

/// `a` with `d[e]` added to every lane of edge `e`.
pub open spec fn shifted(a: Seq<Seq<int>>, d: Seq<int>) -> Seq<Seq<int>> {
    Seq::new(a.len(), |e: int| Seq::new(a[e].len(), |k: int| a[e][k] + d[e]))
}

/// Every lane of `shifted(a, d)` is held by `T`.
pub open spec fn shift_fits<T: Coord>(a: Seq<Seq<int>>, d: Seq<int>) -> bool {
    forall|e: int, k: int|
        0 <= e < a.len() && 0 <= k < a[e].len() ==> T::holds(#[trigger] a[e][k] + d[e])
}

/// Lane `k` passes the coverage test: none of its three edge values is negative.
pub open spec fn lane_inside(edges: Seq<Seq<int>>, k: int) -> bool {
    edges[0][k] >= 0 && edges[1][k] >= 0 && edges[2][k] >= 0
}

/// A lane count `n` that spans at most the coordinate range, and `n` times a coordinate
/// difference, are held by `T`.
proof fn lemma_lane_step_fits<T: Coord>(n: int, d: int)
    requires
        0 <= n <= 2 * T::reach() + 1,
        -2 * T::reach() <= d <= 2 * T::reach(),
    ensures
        T::holds(n),
        T::holds(n * d),
        T::holds(-d),
{
    T::lemma_reach();
    let r = T::reach();
    assert(-(8 * r * r + 8 * r) <= n * d <= 8 * r * r + 8 * r) by (nonlinear_arith)
        requires
            0 <= n <= 2 * r + 1,
            -2 * r <= d <= 2 * r,
            r >= 1,
    ;
    assert(n <= 8 * r * r + 8 * r) by (nonlinear_arith)
        requires
            n <= 2 * r + 1,
            r >= 1,
    ;
    assert(T::holds(n));
    assert(T::holds(n * d));
    assert(T::holds(-d));
}

/// The incremental edge state as numbers.
pub struct EdgeView {
    /// Steps taken in the current row.
    pub i: int,
    /// Steps in a row.
    pub width: int,
    /// Per edge, the gain of one step within a row.
    pub step: Seq<int>,
    /// Per edge, the gain of one row.
    pub row: Seq<int>,
    /// Per edge and lane, the current edge values.
    pub edges: Seq<Seq<int>>,
    /// Per edge and lane, the edge values at the start of the current row.
    pub last: Seq<Seq<int>>,
}

impl EdgeView {
    /// The state after one step: within a row every edge value gains its step; after
    /// `width` steps the row's start values gain the row delta and become current.
    pub open spec fn next(self) -> EdgeView {
        if self.i + 1 >= self.width {
            EdgeView {
                i: 0,
                width: self.width,
                step: self.step,
                row: self.row,
                edges: shifted(self.last, self.row),
                last: shifted(self.last, self.row),
            }
        } else {
            EdgeView {
                i: self.i + 1,
                width: self.width,
                step: self.step,
                row: self.row,
                edges: shifted(self.edges, self.step),
                last: self.last,
            }
        }
    }

    /// Every value of the next state is held by `T`.
    pub open spec fn next_fits<T: Coord>(self) -> bool {
        if self.i + 1 >= self.width {
            shift_fits::<T>(self.last, self.row)
        } else {
            shift_fits::<T>(self.edges, self.step)
        }
    }

    /// The state tracks the triangle `(a, b, c)` for `n` lanes from origin `p`: it stands at
    /// row `r`, column batch `i`, and holds the edge values of a direct evaluation there.
    pub open spec fn tracks(
        self,
        n: int,
        p: (int, int),
        a: (int, int),
        b: (int, int),
        c: (int, int),
        r: int,
    ) -> bool {
        &&& 0 <= self.i
        &&& (self.i == 0 || self.i < self.width)
        &&& self.step == col_steps(n, a, b, c)
        &&& self.row == row_steps(a, b, c)
        &&& self.edges == lanes_at(n, (p.0 + self.i * n, p.1 + r), a, b, c)
        &&& self.last == lanes_at(n, (p.0, p.1 + r), a, b, c)
    }
}

/// The state that starts a scan of `n` lanes from `p`, `width` steps per row.
pub open spec fn seeded(
    width: int,
    n: int,
    p: (int, int),
    a: (int, int),
    b: (int, int),
    c: (int, int),
) -> EdgeView {
    EdgeView {
        i: 0,
        width,
        step: col_steps(n, a, b, c),
        row: row_steps(a, b, c),
        edges: lanes_at(n, p, a, b, c),
        last: lanes_at(n, p, a, b, c),
    }
}

/// The state after `k` steps.
pub open spec fn steps(s: EdgeView, k: nat) -> EdgeView
    decreases k,
{
    if k == 0 {
        s
    } else {
        steps(s, (k - 1) as nat).next()
    }
}

proof fn lemma_edge_linear(p: (int, int), f: (int, int), t: (int, int), n: int)
    ensures
        edge_val((p.0 + n, p.1), f, t) == edge_val(p, f, t) + n * -(t.1 - f.1),
        edge_val((p.0, p.1 + 1), f, t) == edge_val(p, f, t) + (t.0 - f.0),
{
    assert(edge_val((p.0 + n, p.1), f, t) == edge_val(p, f, t) + n * -(t.1 - f.1))
        by (nonlinear_arith);
    assert(edge_val((p.0, p.1 + 1), f, t) == edge_val(p, f, t) + (t.0 - f.0))
        by (nonlinear_arith);
}

/// Moving the lanes `n` columns right adds the column steps; moving them a row down adds
/// the row steps.
pub proof fn lemma_lanes_move(n: int, p: (int, int), a: (int, int), b: (int, int), c: (int, int))
    requires
        n >= 0,
    ensures
        shifted(lanes_at(n, p, a, b, c), col_steps(n, a, b, c)) == lanes_at(
            n,
            (p.0 + n, p.1),
            a,
            b,
            c,
        ),
        shifted(lanes_at(n, p, a, b, c), row_steps(a, b, c)) == lanes_at(n, (p.0, p.1 + 1), a, b, c),
{
    let s = lanes_at(n, p, a, b, c);
    let right = lanes_at(n, (p.0 + n, p.1), a, b, c);
    let down = lanes_at(n, (p.0, p.1 + 1), a, b, c);
    assert forall|e: int, k: int| 0 <= e < 3 && 0 <= k < n implies shifted(
        s,
        col_steps(n, a, b, c),
    )[e][k] == right[e][k] && shifted(s, row_steps(a, b, c))[e][k] == down[e][k] by {
        lemma_edge_linear((p.0 + k, p.1), edge_from(e, a, b, c), edge_to(e, a, b, c), n);
        assert((p.0 + k + n, p.1) == (p.0 + n + k, p.1));
    }
    assert(shifted(s, col_steps(n, a, b, c)) =~~= right);
    assert(shifted(s, row_steps(a, b, c)) =~~= down);
}

/// One step keeps a tracking state tracking: within a row it moves one batch of `n` columns
/// right, at the row's end it moves to the first batch of the next row.
pub proof fn lemma_tracks_next(
    s: EdgeView,
    n: int,
    p: (int, int),
    a: (int, int),
    b: (int, int),
    c: (int, int),
    r: int,
)
    requires
        n >= 0,
        s.tracks(n, p, a, b, c, r),
    ensures
        s.i + 1 >= s.width ==> s.next().tracks(n, p, a, b, c, r + 1) && s.next().i == 0,
        s.i + 1 < s.width ==> s.next().tracks(n, p, a, b, c, r) && s.next().i == s.i + 1,
{
    lemma_lanes_move(n, (p.0 + s.i * n, p.1 + r), a, b, c);
    lemma_lanes_move(n, (p.0, p.1 + r), a, b, c);
    assert(p.0 + s.i * n + n == p.0 + (s.i + 1) * n) by (nonlinear_arith);
}

/// The seed of a scan tracks its triangle at row 0.
pub proof fn lemma_seeded_tracks(
    width: int,
    n: int,
    p: (int, int),
    a: (int, int),
    b: (int, int),
    c: (int, int),
)
    ensures
        seeded(width, n, p, a, b, c).tracks(n, p, a, b, c, 0),
{
    assert((p.0 + 0 * n, p.1 + 0) == p);
}

/// Stepping the incremental edge state `k` times from its seed gives exactly the edge
/// values that evaluating the edge functions directly gives at the `k`-th batch position
/// (batch `k % width` of row `k / width`): no drift accumulates.
pub proof fn lemma_incremental_matches_direct(
    width: int,
    n: int,
    p: (int, int),
    a: (int, int),
    b: (int, int),
    c: (int, int),
    k: nat,
)
    requires
        width >= 1,
        n >= 0,
    ensures
        steps(seeded(width, n, p, a, b, c), k).edges == lanes_at(
            n,
            (p.0 + (k as int % width) * n, p.1 + k as int / width),
            a,
            b,
            c,
        ),
    decreases k,
{
    lemma_steps_track(width, n, p, a, b, c, k);
}

proof fn lemma_steps_track(
    width: int,
    n: int,
    p: (int, int),
    a: (int, int),
    b: (int, int),
    c: (int, int),
    k: nat,
)
    requires
        width >= 1,
        n >= 0,
    ensures
        steps(seeded(width, n, p, a, b, c), k).tracks(n, p, a, b, c, k as int / width),
        steps(seeded(width, n, p, a, b, c), k).i == k as int % width,
        steps(seeded(width, n, p, a, b, c), k).width == width,
    decreases k,
{
    let s0 = seeded(width, n, p, a, b, c);
    if k == 0 {
        lemma_seeded_tracks(width, n, p, a, b, c);
        lemma_fundamental_div_mod_converse(0, width, 0, 0);
    } else {
        let j = (k - 1) as nat;
        lemma_steps_track(width, n, p, a, b, c, j);
        let s = steps(s0, j);
        lemma_tracks_next(s, n, p, a, b, c, j as int / width);
        lemma_fundamental_div_mod(j as int, width);
        let q = j as int / width;
        assert(width * q == q * width) by (nonlinear_arith);
        if s.i + 1 >= width {
            assert((q + 1) * width == q * width + width) by (nonlinear_arith);
            lemma_fundamental_div_mod_converse(k as int, width, q + 1, 0);
        } else {
            lemma_fundamental_div_mod_converse(k as int, width, q, j as int % width + 1);
        }
    }
}

/// The numbers that the lanes of `a` hold.
pub open spec fn nums<T: IntView, const N: usize>(a: [T; N]) -> Seq<int> {
    a@.map_values(|t: T| t.int_val())
}

/// The numbers that the lanes of each edge of `a` hold.
pub open spec fn lane_nums<T: IntView, const N: usize>(a: [[T; N]; 3]) -> Seq<Seq<int>> {
    a@.map_values(|l: [T; N]| nums(l))
}

/// The three edge values of one triangle over `N` lanes, advanced incrementally as a scan
/// moves across a block: one addition per edge and lane for each step, where evaluating the
/// edge functions afresh would take multiplications.
#[derive(Debug)]
pub struct TriangleEdgeState<T, const N: usize> {
    i: usize,
    width: usize,
    step: [T; 3],
    row: [T; 3],
    edges: [[T; N]; 3],
    last_edges: [[T; N]; 3],
}

impl<T: Coord, const N: usize> View for TriangleEdgeState<T, N> {
    type V = EdgeView;

    closed spec fn view(&self) -> EdgeView {
        EdgeView {
            i: self.i as int,
            width: self.width as int,
            step: nums(self.step),
            row: nums(self.row),
            edges: lane_nums(self.edges),
            last: lane_nums(self.last_edges),
        }
    }
}

/// Adds `d[e]` to every lane of edge `e`.
fn shift_lanes<T: Coord, const N: usize>(a: &mut [[T; N]; 3], d: &[T; 3])
    requires
        shift_fits::<T>(lane_nums(*old(a)), nums(*d)),
    ensures
        lane_nums(*final(a)) == shifted(lane_nums(*old(a)), nums(*d)),
{
    let mut k: usize = 0;
    while k < N
        invariant
            k <= N,
            shift_fits::<T>(lane_nums(*old(a)), nums(*d)),
            forall|e: int, j: int| 0 <= e < 3 && k <= j < N ==> a[e][j] == old(a)[e][j],
            forall|e: int, j: int|
                0 <= e < 3 && 0 <= j < k ==> (#[trigger] a[e][j]).int_val() == old(a)[e][j].int_val()
                    + d[e].int_val(),
        decreases N - k,
    {
        proof {
            assert(T::holds(lane_nums(*old(a))[0][k as int] + nums(*d)[0]));
            assert(T::holds(lane_nums(*old(a))[1][k as int] + nums(*d)[1]));
            assert(T::holds(lane_nums(*old(a))[2][k as int] + nums(*d)[2]));
        }
        a[0][k] = a[0][k].plus(d[0]);
        a[1][k] = a[1][k].plus(d[1]);
        a[2][k] = a[2][k].plus(d[2]);
        k = k + 1;
    }
    assert(lane_nums(*a) =~~= shifted(lane_nums(*old(a)), nums(*d)));
}

impl<T: Coord, const N: usize> TriangleEdgeState<T, N> where usize: NumberCast<T> {
    /// Seeds the state of the triangle `(v1, v2, v3)` for a scan whose first batch has its
    /// lanes at `(p.x + k, p.y)`, `width` batches to a row.
    pub fn new(width: usize, p: Vec2<T>, v1: Vec2<T>, v2: Vec2<T>, v3: Vec2<T>) -> (r: Self)
        requires
            pt_within::<T>(p.pt()),
            N == 0 || within::<T>(p.x.int_val() + N - 1),
            pt_within::<T>(v1.pt()),
            pt_within::<T>(v2.pt()),
            pt_within::<T>(v3.pt()),
        ensures
            r@ == seeded(width as int, N as int, p.pt(), v1.pt(), v2.pt(), v3.pt()),
    {
        let ghost (a, b, c) = (v1.pt(), v2.pt(), v3.pt());
        proof {
            T::lemma_reach();
            lemma_lane_step_fits::<T>(N as int, -(c.1 - b.1));
            lemma_lane_step_fits::<T>(N as int, -(a.1 - c.1));
            lemma_lane_step_fits::<T>(N as int, -(b.1 - a.1));
            lemma_products_fit::<T>(c.0 - b.0, a.0 - c.0, c.1 - b.1, a.1 - c.1);
            lemma_products_fit::<T>(b.0 - a.0, b.1 - a.1, 0, 0);
        }
        let x1_x3 = v1.x.minus(v3.x);
        let x2_x1 = v2.x.minus(v1.x);
        let x3_x2 = v3.x.minus(v2.x);
        let y1_y3 = v1.y.minus(v3.y);
        let y2_y1 = v2.y.minus(v1.y);
        let y3_y2 = v3.y.minus(v2.y);
        let n: T = N.to_num();
        let step = [n.times(y3_y2.negate()), n.times(y1_y3.negate()), n.times(y2_y1.negate())];
        let row = [x3_x2, x1_x3, x2_x1];
        let (q1, q2, q3) = (Point { x: v1.x, y: v1.y }, Point { x: v2.x, y: v2.y }, Point { x: v3.x, y: v3.y });
        let mut edges: [[T; N]; 3] = [[p.x; N]; 3];
        let mut k: usize = 0;
        while k < N
            invariant
                k <= N,
                pt_within::<T>(p.pt()),
                N == 0 || within::<T>(p.x.int_val() + N - 1),
                pt_within::<T>(a),
                pt_within::<T>(b),
                pt_within::<T>(c),
                q1.pt() == a,
                q2.pt() == b,
                q3.pt() == c,
                x1_x3.int_val() == a.0 - c.0,
                x2_x1.int_val() == b.0 - a.0,
                x3_x2.int_val() == c.0 - b.0,
                y1_y3.int_val() == a.1 - c.1,
                y2_y1.int_val() == b.1 - a.1,
                y3_y2.int_val() == c.1 - b.1,
                forall|e: int, j: int|
                    0 <= e < 3 && 0 <= j < k ==> (#[trigger] edges[e][j]).int_val() == edge_of(
                        e,
                        (p.x.int_val() + j, p.y.int_val()),
                        a,
                        b,
                        c,
                    ),
            decreases N - k,
        {
            proof {
                T::lemma_reach();
                lemma_products_fit::<T>(k as int, 0, p.x.int_val() + k, 0);
            }
            let kt: T = k.to_num();
            let q = Point { x: p.x.plus(kt), y: p.y };
            edges[0][k] = edge(q, q2, Point { x: x3_x2, y: y3_y2 });
            edges[1][k] = edge(q, q3, Point { x: x1_x3, y: y1_y3 });
            edges[2][k] = edge(q, q1, Point { x: x2_x1, y: y2_y1 });
            k = k + 1;
        }
        let r = TriangleEdgeState { i: 0, width, step, row, edges, last_edges: edges };
        assert(r@.step =~= col_steps(N as int, a, b, c));
        assert(r@.row =~= row_steps(a, b, c));
        assert(r@.edges =~~= lanes_at(N as int, p.pt(), a, b, c));
        r
    }
}

impl<T: Coord, const N: usize> TriangleEdgeState<T, N> {
    /// Adds the column step to every edge value.
    fn edge_add_step(&mut self)
        requires
            shift_fits::<T>(old(self)@.edges, old(self)@.step),
        ensures
            final(self)@ == (EdgeView { edges: shifted(old(self)@.edges, old(self)@.step), ..old(self)@ }),
    {
        shift_lanes(&mut self.edges, &self.step);
    }

    /// At the end of a row, moves the row's start values one row down, makes them current
    /// and restarts the column count; says whether it did.
    fn next_row_test(&mut self) -> (wrapped: bool)
        requires
            old(self)@.i >= old(self)@.width ==> shift_fits::<T>(old(self)@.last, old(self)@.row),
        ensures
            wrapped == (old(self)@.i >= old(self)@.width),
            wrapped ==> final(self)@ == (EdgeView {
                i: 0,
                edges: shifted(old(self)@.last, old(self)@.row),
                last: shifted(old(self)@.last, old(self)@.row),
                ..old(self)@
            }),
            !wrapped ==> final(self)@ == old(self)@,
    {
        if self.i >= self.width {
            shift_lanes(&mut self.last_edges, &self.row);
            self.edges = self.last_edges;
            self.i = 0;
            true
        } else {
            false
        }
    }

    /// Advances the scan by one batch of `N` columns, wrapping to the next row after
    /// `width` batches.
    pub fn step(&mut self)
        requires
            old(self)@.i == 0 || old(self)@.i < old(self)@.width,
            old(self)@.next_fits::<T>(),
        ensures
            final(self)@ == old(self)@.next(),
    {
        self.i = self.i + 1;
        if !self.next_row_test() {
            self.edge_add_step();
        }
    }

    /// For each lane, whether its point passes the coverage test.
    pub fn mask(&self) -> (r: [bool; N])
        ensures
            forall|k: int| 0 <= k < N ==> #[trigger] r[k] == lane_inside(self@.edges, k),
    {
        let mut r: [bool; N] = [false; N];
        let mut k: usize = 0;
        while k < N
            invariant
                k <= N,
                forall|j: int| 0 <= j < k ==> #[trigger] r[j] == lane_inside(self@.edges, j),
            decreases N - k,
        {
            r[k] = self.edges[0][k].is_nonneg() && self.edges[1][k].is_nonneg()
                && self.edges[2][k].is_nonneg();
            k = k + 1;
        }
        r
    }

    /// Whether some lane passes the coverage test; with a single lane, the scalar test of
    /// the current pixel.
    pub fn test(&self) -> (r: bool)
        ensures
            r == exists|k: int| 0 <= k < N && lane_inside(self@.edges, k),
    {
        let m = self.mask();
        let r = any_lane(&m);
        proof {
            if r {
                let k = choose|k: int| 0 <= k < N && m[k];
                assert(lane_inside(self@.edges, k));
            } else {
                assert forall|k: int| 0 <= k < N implies !lane_inside(self@.edges, k) by {
                    assert(m[k] == lane_inside(self@.edges, k));
                }
            }
        }
        r
    }
}

/// Whether some lane of `m` is set.
pub fn any_lane<const N: usize>(m: &[bool; N]) -> (r: bool)
    ensures
        r == exists|k: int| 0 <= k < N && m[k],
{
    let mut k: usize = 0;
    while k < N
        invariant
            k <= N,
            forall|j: int| 0 <= j < k ==> !m[j],
        decreases N - k,
    {
        if m[k] {
            return true;
        }
        k = k + 1;
    }
    false
}

} // verus!
