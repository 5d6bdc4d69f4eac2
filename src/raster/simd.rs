//! The lane-parallel rasterizer: `N` pixels of a row per batch, one coverage mask per batch,
//! and a masked store that writes only the covered lanes.
use vstd::prelude::*;

use crate::math::{within, Coord, Vec2};
use crate::rast::{
    covered, degenerate, edge_between, edge_val, inside, lemma_edge_fits, lemma_products_fit, pt_within,
    Point,
};
use crate::raster::{
    any_lane, edge_from, edge_to, lane_inside, lanes_at, lemma_seeded_tracks,
    lemma_tracks_next, shifted, EdgeView, RasterError, Rasterizer, Tile, TriangleEdgeState,
};
use crate::pipeline::PixelState;
use crate::{IntView, NumberCast};
use vstd::arithmetic::div_mod::{lemma_fundamental_div_mod, lemma_fundamental_div_mod_converse};

verus! {

/// The positions of the lanes of one batch, as the pixel function receives them.
#[derive(Debug, Clone, Copy)]
pub struct SimdTrianglePixelState<T, const N: usize> {
    pub pixel: Vec2<[T; N]>,
}

impl<T: IntView, const N: usize> SimdTrianglePixelState<T, N> {
    /// Lane `k` stands at `(x0 + k, y)`.
    pub open spec fn at(self, x0: int, y: int) -> bool {
        forall|k: int|
            0 <= k < N ==> #[trigger] self.pixel.x[k].int_val() == x0 + k && self.pixel.y[k].int_val()
                == y
    }
}

impl<T: Copy, const N: usize> PixelState for SimdTrianglePixelState<T, N> {
    type Pixel = Vec2<[T; N]>;

    /// The lane positions of the batch.
    open spec fn pixel_view(&self) -> Vec2<[T; N]> {
        self.pixel
    }

    fn get_pixel(&self) -> (r: Vec2<[T; N]>) {
        self.pixel
    }
}

/// A rasterizer that scans a tile `N` pixels at a time.
#[derive(Debug)]
pub struct SimdTriangleRasterizer<T, const N: usize> {
    n_vec: [T; N],
}

/// Vertex `v` of triangle `t` of a flat vertex list.
pub open spec fn vertex<T: IntView>(list: Seq<Vec2<T>>, t: int, v: int) -> (int, int) {
    list[3 * t + v].pt()
}

/// Triangle `t` of `list` covers `p`.
pub open spec fn covered_by<T: IntView>(list: Seq<Vec2<T>>, t: int, p: (int, int)) -> bool {
    covered(p, vertex(list, t, 0), vertex(list, t, 1), vertex(list, t, 2))
}

/// One of the first `t` triangles of `list` covers `p`.
pub open spec fn covered_upto<T: IntView>(list: Seq<Vec2<T>>, t: int, p: (int, int)) -> bool
    decreases t,
{
    if t <= 0 {
        false
    } else {
        covered_upto(list, t - 1, p) || covered_by(list, t - 1, p)
    }
}

/// Some triangle of `list` covers `p`.
pub open spec fn covered_any<T: IntView>(list: Seq<Vec2<T>>, p: (int, int)) -> bool {
    covered_upto(list, list.len() as int / 3, p)
}

/// The shape of a tile: its buffer's row stride, and the block's corner and size.
pub struct TileGeometry {
    pub stride: int,
    pub x: int,
    pub y: int,
    pub w: int,
    pub h: int,
}

impl TileGeometry {
    /// The scanned block holds the pixel `(x, y)`.
    pub open spec fn in_block(self, x: int, y: int) -> bool {
        &&& self.x <= x < self.x + self.w
        &&& self.y <= y < self.y + self.h
    }
}

impl Tile {
    /// The tile's shape as numbers.
    pub open spec fn geometry(self) -> TileGeometry {
        TileGeometry {
            stride: self.dst_width as int,
            x: self.position.x as int,
            y: self.position.y as int,
            w: self.dimensions.x as int,
            h: self.dimensions.y as int,
        }
    }
}

/// `v` is lane `lane` of a color that `pixel` returns for a batch whose lanes stand at
/// `(x0 + k, y)`.
pub open spec fn painted<T, const N: usize, F: Fn(&SimdTrianglePixelState<T, N>) -> [u32; N]>(
    pixel: F,
    x0: int,
    y: int,
    lane: int,
    v: u32,
) -> bool where T: IntView {
    exists|s: SimdTrianglePixelState<T, N>, c: [u32; N]|
        s.at(x0, y) && #[trigger] call_ensures(pixel, (&s,), c) && c[lane] == v
}

/// Element `j` of `dst`, the pixel `(j % dst_width, j / dst_width)`: where the block holds it
/// and `marked` says so, a lane of what `pixel` returned for its batch; else as in `orig`.
pub open spec fn pixel_shows<T, const N: usize, F: Fn(&SimdTrianglePixelState<T, N>) -> [u32; N]>(
    g: TileGeometry,
    orig: Seq<u32>,
    dst: Seq<u32>,
    pixel: F,
    marked: spec_fn(int, int) -> bool,
    j: int,
) -> bool where T: IntView {
    let x = j % g.stride;
    let y = j / g.stride;
    let d = x - g.x;
    if g.stride > 0 && g.in_block(x, y) && marked(x, y) {
        painted::<T, N, F>(pixel, g.x + (d / N as int) * N, y, d % N as int, dst[j])
    } else {
        dst[j] == orig[j]
    }
}

/// Every element of `dst` shows what `pixel_shows` says.
pub open spec fn painted_where<T, const N: usize, F: Fn(&SimdTrianglePixelState<T, N>) -> [u32; N]>(
    g: TileGeometry,
    orig: Seq<u32>,
    dst: Seq<u32>,
    pixel: F,
    marked: spec_fn(int, int) -> bool,
) -> bool where T: IntView {
    &&& dst.len() == orig.len()
    &&& forall|j: int| 0 <= j < dst.len() ==> #[trigger] pixel_shows::<T, N, F>(g, orig, dst, pixel, marked, j)
}

/// The outcome of rasterizing `list` into the tile `g` with `N` lanes: which input is
/// refused, and why.
pub open spec fn outcome<T: Coord, const N: usize>(g: TileGeometry, list: Seq<Vec2<T>>) -> Result<(), RasterError> {
    if list.len() % 3 != 0 {
        Err(RasterError::MalformedList)
    } else if N == 0 || g.w % N as int != 0 {
        Err(RasterError::LaneMismatch)
    } else if !(g.x + g.w <= T::reach() && g.y + g.h <= T::reach() && vertices_within::<T>(list)) {
        Err(RasterError::OutOfRange)
    } else {
        Ok(())
    }
}

/// Every vertex of `list` lies in the coordinate range of `T`.
pub open spec fn vertices_within<T: Coord>(list: Seq<Vec2<T>>) -> bool {
    forall|i: int| 0 <= i < list.len() ==> pt_within::<T>(#[trigger] list[i].pt())
}

/// What a successful rasterize call leaves in the tile's buffer: every pixel of the block
/// that a triangle of `list` covers shows its lane of a color that `pixel` returned for its
/// batch; every other element is as before.
pub open spec fn rasterized<T, const N: usize, F: Fn(&SimdTrianglePixelState<T, N>) -> [u32; N]>(
    g: TileGeometry,
    orig: Seq<u32>,
    dst: Seq<u32>,
    list: Seq<Vec2<T>>,
    pixel: F,
) -> bool where T: IntView {
    painted_where::<T, N, F>(g, orig, dst, pixel, |x: int, y: int| covered_any(list, (x, y)))
}

/// Writes `color[k]` at the pixel `(x0 + k, y)` for each lane `k` that `mask` sets, where that
/// pixel lies in the buffer; leaves every other element alone.
fn store_select<const N: usize>(
    dst: &mut Vec<u32>,
    stride: usize,
    x0: usize,
    y: usize,
    mask: &[bool; N],
    color: &[u32; N],
)
    requires
        x0 + N <= usize::MAX,
    ensures
        final(dst)@.len() == old(dst)@.len(),
        forall|j: int|
            0 <= j < old(dst)@.len() ==> #[trigger] final(dst)@[j] == if stride > 0 && j / (stride as int)
                == y && x0 <= j % (stride as int) < x0 + N && mask[j % (stride as int) - x0] {
                color[j % (stride as int) - x0]
            } else {
                old(dst)@[j]
            },
{
    let ghost s = stride as int;
    let len = dst.len();
    let mut k: usize = 0;
    while k < N
        invariant
            k <= N,
            x0 + N <= usize::MAX,
            s == stride as int,
            len == old(dst)@.len(),
            dst@.len() == old(dst)@.len(),
            forall|j: int|
                0 <= j < old(dst)@.len() ==> #[trigger] dst@[j] == if stride > 0 && j / s == y && x0
                    <= j % s < x0 + k && mask[j % s - x0] {
                    color[j % s - x0]
                } else {
                    old(dst)@[j]
                },
        decreases N - k,
    {
        let x = x0 + k;
        let mut idx: Option<usize> = None;
        if mask[k] && x < stride {
            if let Some(rs) = y.checked_mul(stride) {
                if let Some(i) = rs.checked_add(x) {
                    if i < dst.len() {
                        idx = Some(i);
                    }
                }
            }
        }
        let ghost before = dst@;
        match idx {
            Some(i) => {
                proof {
                    lemma_fundamental_div_mod_converse(i as int, s, y as int, x as int);
                }
                dst[i] = color[k];
            },
            None => {},
        }
        proof {
            assert forall|j: int| 0 <= j < old(dst)@.len() implies #[trigger] dst@[j] == if stride > 0
                && j / s == y && x0 <= j % s < x0 + k + 1 && mask[j % s - x0] {
                color[j % s - x0]
            } else {
                old(dst)@[j]
            } by {
                assert(before[j] == if stride > 0 && j / s == y && x0 <= j % s < x0 + k && mask[j % s
                    - x0] {
                    color[j % s - x0]
                } else {
                    old(dst)@[j]
                });
                if stride > 0 {
                    lemma_fundamental_div_mod(j, s);
                    if j / s == y && j % s == x {
                        assert(s * y == y * s) by (nonlinear_arith);
                        assert(j == y * s + x);
                        if mask[k as int] {
                            assert(x < stride);
                            assert(y * stride <= j);
                            assert(j < before.len());
                            assert(idx == Some(j as usize));
                        }
                    }
                    if idx is Some {
                        lemma_fundamental_div_mod_converse(idx->0 as int, s, y as int, x as int);
                    }
                }
            }
        }
        k = k + 1;
    }
}

/// The edge values of the lanes of a batch at a position in the coordinate range are held by
/// `T`.
proof fn lemma_lanes_fit<T: Coord>(n: int, p: (int, int), a: (int, int), b: (int, int), c: (int, int))
    requires
        n >= 0,
        pt_within::<T>(p),
        within::<T>(p.0 + n - 1),
        pt_within::<T>(a),
        pt_within::<T>(b),
        pt_within::<T>(c),
    ensures
        forall|e: int, k: int| 0 <= e < 3 && 0 <= k < n ==> T::holds(#[trigger] lanes_at(n, p, a, b, c)[e][k]),
{
    assert forall|e: int, k: int| 0 <= e < 3 && 0 <= k < n implies T::holds(
        #[trigger] lanes_at(n, p, a, b, c)[e][k],
    ) by {
        lemma_edge_fits::<T>((p.0 + k, p.1), edge_from(e, a, b, c), edge_to(e, a, b, c));
    }
}

/// Where two markings agree on the block, a buffer painted after one is painted after the
/// other.
proof fn lemma_marks_agree<T: IntView, const N: usize, F: Fn(&SimdTrianglePixelState<T, N>) -> [u32; N]>(
    g: TileGeometry,
    orig: Seq<u32>,
    dst: Seq<u32>,
    pixel: F,
    m0: spec_fn(int, int) -> bool,
    m1: spec_fn(int, int) -> bool,
)
    requires
        painted_where::<T, N, F>(g, orig, dst, pixel, m0),
        forall|x: int, y: int| g.in_block(x, y) ==> m0(x, y) == m1(x, y),
    ensures
        painted_where::<T, N, F>(g, orig, dst, pixel, m1),
{
    assert forall|j: int| 0 <= j < dst.len() implies #[trigger] pixel_shows::<T, N, F>(
        g,
        orig,
        dst,
        pixel,
        m1,
        j,
    ) by {
        assert(pixel_shows::<T, N, F>(g, orig, dst, pixel, m0, j));
    }
}

/// Pixel `x0 + k` of a batch that starts `c` batches into its row has batch start `x0` and
/// lane `k`.
proof fn lemma_batch_lane(px: int, n: int, c: int, k: int)
    requires
        n > 0,
        c >= 0,
        0 <= k < n,
    ensures
        (c * n + k) / n == c,
        (c * n + k) % n == k,
        px + ((px + c * n + k - px) / n) * n == px + c * n,
{
    lemma_fundamental_div_mod_converse(c * n + k, n, c, k);
    assert(px + c * n + k - px == c * n + k);
}

/// Writing a batch's covered lanes extends the painted pixels by that batch's covered pixels.
proof fn lemma_batch_paints<T: IntView, const N: usize, F: Fn(&SimdTrianglePixelState<T, N>) -> [u32; N]>(
    g: TileGeometry,
    orig: Seq<u32>,
    d0: Seq<u32>,
    d1: Seq<u32>,
    pixel: F,
    m0: spec_fn(int, int) -> bool,
    m1: spec_fn(int, int) -> bool,
    c: int,
    y: int,
    mask: [bool; N],
    color: [u32; N],
    st: SimdTrianglePixelState<T, N>,
)
    requires
        N > 0,
        0 <= c,
        g.x + (c + 1) * N <= g.x + g.w,
        g.y <= y < g.y + g.h,
        painted_where::<T, N, F>(g, orig, d0, pixel, m0),
        d1.len() == d0.len(),
        forall|j: int|
            0 <= j < d0.len() ==> #[trigger] d1[j] == if g.stride > 0 && j / g.stride == y && g.x + c
                * N <= j % g.stride < g.x + c * N + N && mask[j % g.stride - (g.x + c * N)] {
                color[j % g.stride - (g.x + c * N)]
            } else {
                d0[j]
            },
        st.at(g.x + c * N, y),
        call_ensures(pixel, (&st,), color),
        forall|x: int, yy: int|
            g.in_block(x, yy) ==> m1(x, yy) == (m0(x, yy) || (yy == y && g.x + c * N <= x < g.x + c * N
                + N && mask[x - (g.x + c * N)])),
    ensures
        painted_where::<T, N, F>(g, orig, d1, pixel, m1),
{
    let x0 = g.x + c * N;
    assert(c * N >= 0 && c * N + N == (c + 1) * N) by (nonlinear_arith)
        requires
            c >= 0,
            N > 0,
    ;
    assert forall|j: int| 0 <= j < d1.len() implies #[trigger] pixel_shows::<T, N, F>(
        g,
        orig,
        d1,
        pixel,
        m1,
        j,
    ) by {
        assert(pixel_shows::<T, N, F>(g, orig, d0, pixel, m0, j));
        let x = j % g.stride;
        let yj = j / g.stride;
        if g.stride > 0 && g.in_block(x, yj) {
            assert(m1(x, yj) == (m0(x, yj) || (yj == y && x0 <= x < x0 + N && mask[x - x0])));
        }
        if g.stride > 0 && yj == y && x0 <= x < x0 + N && mask[x - x0] {
            let k = x - x0;
            lemma_batch_lane(g.x, N as int, c, k);
            let d = x - g.x;
            assert(d == c * N + k);
            assert(g.x + (d / N as int) * N == x0);
            assert(d % N as int == k);
            assert(g.in_block(x, yj));
            assert(st.at(x0, y) && call_ensures(pixel, (&st,), color) && color[k] == d1[j]);
            assert(painted::<T, N, F>(pixel, x0, y, k, d1[j]));
        }
    }
}

/// The edge values of the next state of a tracking scan are held by `T` when the next
/// batch's lanes lie in the coordinate range.
pub(crate) proof fn lemma_next_fits<T: Coord>(
    s: EdgeView,
    n: int,
    p: (int, int),
    a: (int, int),
    b: (int, int),
    c: (int, int),
    r: int,
)
    requires
        n >= 1,
        s.tracks(n, p, a, b, c, r),
        pt_within::<T>(a),
        pt_within::<T>(b),
        pt_within::<T>(c),
        s.i + 1 >= s.width ==> pt_within::<T>((p.0, p.1 + r + 1)) && within::<T>(p.0 + n - 1),
        s.i + 1 < s.width ==> pt_within::<T>((p.0 + (s.i + 1) * n, p.1 + r)) && within::<T>(
            p.0 + (s.i + 1) * n + n - 1,
        ),
    ensures
        s.next_fits::<T>(),
{
    lemma_tracks_next(s, n, p, a, b, c, r);
    if s.i + 1 >= s.width {
        let q = (p.0, p.1 + r + 1);
        lemma_lanes_fit::<T>(n, q, a, b, c);
        assert forall|e: int, k: int|
            0 <= e < s.last.len() && 0 <= k < s.last[e].len() implies T::holds(
            #[trigger] s.last[e][k] + s.row[e],
        ) by {
            assert(shifted(s.last, s.row)[e][k] == s.last[e][k] + s.row[e]);
            assert(lanes_at(n, q, a, b, c)[e][k] == shifted(s.last, s.row)[e][k]);
        }
    } else {
        let q = (p.0 + (s.i + 1) * n, p.1 + r);
        lemma_lanes_fit::<T>(n, q, a, b, c);
        assert forall|e: int, k: int|
            0 <= e < s.edges.len() && 0 <= k < s.edges[e].len() implies T::holds(
            #[trigger] s.edges[e][k] + s.step[e],
        ) by {
            assert(shifted(s.edges, s.step)[e][k] == s.edges[e][k] + s.step[e]);
            assert(lanes_at(n, q, a, b, c)[e][k] == shifted(s.edges, s.step)[e][k]);
        }
    }
}

/// A lane passes the coverage test of a tracking state exactly when its point is inside the
/// triangle.
pub(crate) proof fn lemma_lane_inside(n: int, p: (int, int), a: (int, int), b: (int, int), c: (int, int), k: int)
    requires
        0 <= k < n,
    ensures
        lane_inside(lanes_at(n, p, a, b, c), k) == inside((p.0 + k, p.1), a, b, c),
{
}

impl<T: Coord, const N: usize> SimdTriangleRasterizer<T, N> {
    /// Lane `k` of the lane index vector holds `k`, for each lane index that `T` can hold.
    pub closed spec fn wf(&self) -> bool {
        forall|k: int| 0 <= k < N && T::holds(k) ==> (#[trigger] self.n_vec[k]).int_val() == k
    }
}

impl<T: Coord, const N: usize> Default for SimdTriangleRasterizer<T, N> where usize: NumberCast<T> {
    fn default() -> (r: Self)
        ensures
            r.wf(),
    {
        proof {
            T::lemma_reach();
            lemma_products_fit::<T>(0, 0, 0, 0);
        }
        let zero: T = 0usize.to_num();
        let mut n_vec: [T; N] = [zero; N];
        let mut k: usize = 0;
        while k < N
            invariant
                k <= N,
                forall|j: int| 0 <= j < k && T::holds(j) ==> (#[trigger] n_vec[j]).int_val() == j,
            decreases N - k,
        {
            if T::usize_holds(k) {
                n_vec[k] = k.to_num();
            }
            k = k + 1;
        }
        SimdTriangleRasterizer { n_vec }
    }
}

/// The pixels painted part way through the scan of the triangle `(a, b, c)`: those that
/// `before` marks, and the covered ones of the rows above row `r` and of the first `q`
/// columns of row `r`.
pub open spec fn scan_marks(
    before: spec_fn(int, int) -> bool,
    a: (int, int),
    b: (int, int),
    c: (int, int),
    g: TileGeometry,
    r: int,
    q: int,
) -> spec_fn(int, int) -> bool {
    |x: int, y: int|
        before(x, y) || (covered((x, y), a, b, c) && (y - g.y < r || (y - g.y == r && x - g.x < q)))
}

/// Every vertex of `list` lies in the coordinate range of `T`.
fn vertices_in_reach<T: Coord>(list: &[Vec2<T>]) -> (r: bool)
    ensures
        r == vertices_within::<T>(list@),
{
    let mut i: usize = 0;
    while i < list.len()
        invariant
            i <= list@.len(),
            forall|j: int| 0 <= j < i ==> pt_within::<T>(#[trigger] list@[j].pt()),
        decreases list@.len() - i,
    {
        if !(list[i].x.in_reach() && list[i].y.in_reach()) {
            assert(!pt_within::<T>(list@[i as int].pt()));
            return false;
        }
        i = i + 1;
    }
    true
}

impl<T: Coord, const N: usize> SimdTriangleRasterizer<T, N> where usize: NumberCast<T> {
    /// Rasterizes the triangles of `list`, three vertices each, into the tile's block, `N`
    /// pixels of a row per batch. For each batch that some lane of a triangle covers, it
    /// calls `pixel` once with the batch's lane positions and writes the returned colors
    /// into the covered lanes that lie in the buffer; other lanes and pixels stay as they
    /// were. A pixel counts as covered when no edge value is negative and the triangle has
    /// an area.
    pub fn rasterize<F: Fn(&SimdTrianglePixelState<T, N>) -> [u32; N]>(
        &self,
        tile: &mut Tile,
        list: &[Vec2<T>],
        pixel: F,
    ) -> (r: Result<(), RasterError>)
        requires
            self.wf(),
            forall|s: &SimdTrianglePixelState<T, N>| call_requires(pixel, (s,)),
        ensures
            final(tile).geometry() == old(tile).geometry(),
            r == outcome::<T, N>(old(tile).geometry(), list@),
            r is Err ==> final(tile).dst@ == old(tile).dst@,
            r is Ok ==> rasterized::<T, N, F>(
                old(tile).geometry(),
                old(tile).dst@,
                final(tile).dst@,
                list@,
                pixel,
            ),
    {
        if list.len() % 3 != 0 {
            return Err(RasterError::MalformedList);
        }
        if N == 0 || tile.dimensions.x % N != 0 {
            return Err(RasterError::LaneMismatch);
        }
        let px = tile.position.x;
        let py = tile.position.y;
        let w = tile.dimensions.x;
        let h = tile.dimensions.y;
        proof {
            T::lemma_reach();
        }
        if !(T::usize_in_reach(px) && T::usize_in_reach(w) && T::usize_in_reach(px + w)
            && T::usize_in_reach(py) && T::usize_in_reach(h) && T::usize_in_reach(py + h)
            && vertices_in_reach(list)) {
            return Err(RasterError::OutOfRange);
        }
        let ghost g = tile.geometry();
        let ghost orig = tile.dst@;
        let ghost l = list@;
        let len = list.len();
        let ntri = len / 3;
        proof {
            assert(painted_where::<T, N, F>(g, orig, tile.dst@, pixel, |x: int, y: int| covered_upto(l, 0, (x, y))));
        }
        let mut t: usize = 0;
        while t < ntri
            invariant
                self.wf(),
                forall|s: &SimdTrianglePixelState<T, N>| call_requires(pixel, (s,)),
                N > 0,
                w % N == 0,
                g == tile.geometry(),
                px == g.x,
                py == g.y,
                w == g.w,
                h == g.h,
                px + w <= T::reach(),
                py + h <= T::reach(),
                l == list@,
                len == l.len(),
                vertices_within::<T>(l),
                ntri == l.len() / 3,
                t <= ntri,
                painted_where::<T, N, F>(g, orig, tile.dst@, pixel, |x: int, y: int| covered_upto(l, t as int, (x, y))),
            decreases ntri - t,
        {
            proof {
                lemma_fundamental_div_mod(l.len() as int, 3);
            }
            let v1 = list[3 * t];
            let v2 = list[3 * t + 1];
            let v3 = list[3 * t + 2];
            proof {
                assert(pt_within::<T>(l[3 * t as int].pt()));
                assert(pt_within::<T>(l[3 * t + 1].pt()));
                assert(pt_within::<T>(l[3 * t + 2].pt()));
            }
            let area = edge_between(
                Point { x: v3.x, y: v3.y },
                Point { x: v1.x, y: v1.y },
                Point { x: v2.x, y: v2.y },
            );
            let ghost before = |x: int, y: int| covered_upto(l, t as int, (x, y));
            if !area.is_zero() {
                self.fill_triangle(tile, v1, v2, v3, &pixel, Ghost(orig), Ghost(before));
                proof {
                    lemma_marks_agree::<T, N, F>(
                        g,
                        orig,
                        tile.dst@,
                        pixel,
                        |x: int, y: int| before(x, y) || covered((x, y), v1.pt(), v2.pt(), v3.pt()),
                        |x: int, y: int| covered_upto(l, t + 1, (x, y)),
                    );
                }
            } else {
                proof {
                    lemma_marks_agree::<T, N, F>(
                        g,
                        orig,
                        tile.dst@,
                        pixel,
                        before,
                        |x: int, y: int| covered_upto(l, t + 1, (x, y)),
                    );
                }
            }
            t = t + 1;
        }
        proof {
            lemma_marks_agree::<T, N, F>(
                g,
                orig,
                tile.dst@,
                pixel,
                |x: int, y: int| covered_upto(l, t as int, (x, y)),
                |x: int, y: int| covered_any(l, (x, y)),
            );
        }
        Ok(())
    }

    /// The lane positions `(x0 + k, y)` of a batch, from the lane index vector.
    fn lane_positions(&self, x0: usize, y: usize) -> (st: SimdTrianglePixelState<T, N>)
        requires
            self.wf(),
            x0 + N <= T::reach(),
            y <= T::reach(),
        ensures
            st.at(x0 as int, y as int),
    {
        proof {
            T::lemma_reach();
            lemma_products_fit::<T>(x0 as int, y as int, 0, 0);
        }
        let xs: T = x0.to_num();
        let yt: T = y.to_num();
        let mut lx: [T; N] = [xs; N];
        let mut ly: [T; N] = [yt; N];
        let mut k: usize = 0;
        while k < N
            invariant
                k <= N,
                self.wf(),
                x0 + N <= T::reach(),
                xs.int_val() == x0,
                yt.int_val() == y,
                forall|j: int|
                    0 <= j < k ==> (#[trigger] lx[j]).int_val() == x0 + j && ly[j].int_val() == y,
            decreases N - k,
        {
            proof {
                T::lemma_reach();
                assert(self.n_vec[k as int].int_val() == k);
                lemma_products_fit::<T>(x0 + k, 0, 0, 0);
            }
            lx[k] = self.n_vec[k].plus(xs);
            ly[k] = yt;
            k = k + 1;
        }
        SimdTrianglePixelState { pixel: Vec2 { x: lx, y: ly } }
    }

    /// Scans the tile's block for the triangle `(v1, v2, v3)`, writing the pixel function's
    /// colors into the covered lanes of each batch.
    #[verifier::rlimit(40)]
    fn fill_triangle<F: Fn(&SimdTrianglePixelState<T, N>) -> [u32; N]>(
        &self,
        tile: &mut Tile,
        v1: Vec2<T>,
        v2: Vec2<T>,
        v3: Vec2<T>,
        pixel: &F,
        Ghost(orig): Ghost<Seq<u32>>,
        Ghost(before): Ghost<spec_fn(int, int) -> bool>,
    )
        requires
            self.wf(),
            forall|s: &SimdTrianglePixelState<T, N>| call_requires(*pixel, (s,)),
            N > 0,
            old(tile).dimensions.x % N == 0,
            old(tile).position.x + old(tile).dimensions.x <= T::reach(),
            old(tile).position.y + old(tile).dimensions.y <= T::reach(),
            pt_within::<T>(v1.pt()),
            pt_within::<T>(v2.pt()),
            pt_within::<T>(v3.pt()),
            !degenerate(v1.pt(), v2.pt(), v3.pt()),
            painted_where::<T, N, F>(old(tile).geometry(), orig, old(tile).dst@, *pixel, before),
        ensures
            final(tile).geometry() == old(tile).geometry(),
            painted_where::<T, N, F>(
                old(tile).geometry(),
                orig,
                final(tile).dst@,
                *pixel,
                |x: int, y: int| before(x, y) || covered((x, y), v1.pt(), v2.pt(), v3.pt()),
            ),
    {
        let ghost g = tile.geometry();
        let ghost (a, b, c) = (v1.pt(), v2.pt(), v3.pt());
        let ghost done = |x: int, y: int| before(x, y) || covered((x, y), a, b, c);
        let px = tile.position.x;
        let py = tile.position.y;
        let w = tile.dimensions.x;
        let h = tile.dimensions.y;
        let stride = tile.dst_width;
        let wb = w / N;
        proof {
            lemma_fundamental_div_mod(w as int, N as int);
            assert(w == wb * N) by (nonlinear_arith)
                requires
                    w as int == N as int * (w as int / N as int) + w as int % N as int,
                    w as int % N as int == 0,
                    wb as int == w as int / N as int,
            ;
        }
        if wb == 0 || h == 0 {
            proof {
                assert(w == 0 || h == 0) by (nonlinear_arith)
                    requires
                        w == wb * N,
                        wb == 0 || h == 0,
                ;
                lemma_marks_agree::<T, N, F>(g, orig, tile.dst@, *pixel, before, done);
            }
            return ;
        }
        proof {
            T::lemma_reach();
            lemma_products_fit::<T>(px as int, py as int, 0, 0);
            assert(N <= w) by (nonlinear_arith)
                requires
                    w == wb * N,
                    wb >= 1,
            ;
        }
        let p0 = Vec2 { x: px.to_num(), y: py.to_num() };
        let ghost p = (px as int, py as int);
        let mut edge = TriangleEdgeState::<T, N>::new(wb, p0, v1, v2, v3);
        proof {
            lemma_seeded_tracks(wb as int, N as int, p, a, b, c);
            lemma_marks_agree::<T, N, F>(g, orig, tile.dst@, *pixel, before, scan_marks(before, a, b, c, g, 0, 0));
        }
        let mut r: usize = 0;
        while r < h
            invariant
                self.wf(),
                forall|s: &SimdTrianglePixelState<T, N>| call_requires(*pixel, (s,)),
                N > 0,
                N <= w,
                w == wb * N,
                wb >= 1,
                T::reach() < 0x4000_0000,
                g == tile.geometry(),
                g == old(tile).geometry(),
                px == g.x,
                py == g.y,
                w == g.w,
                h == g.h,
                stride == g.stride,
                px + w <= T::reach(),
                py + h <= T::reach(),
                a == v1.pt(),
                b == v2.pt(),
                c == v3.pt(),
                p == (px as int, py as int),
                pt_within::<T>(a),
                pt_within::<T>(b),
                pt_within::<T>(c),
                !degenerate(a, b, c),
                r <= h,
                edge@.tracks(N as int, p, a, b, c, r as int),
                edge@.i == 0,
                edge@.width == wb,
                painted_where::<T, N, F>(g, orig, tile.dst@, *pixel, scan_marks(before, a, b, c, g, r as int, 0)),
            decreases h - r,
        {
            let mut cb: usize = 0;
            while cb < wb
                invariant
                    self.wf(),
                    forall|s: &SimdTrianglePixelState<T, N>| call_requires(*pixel, (s,)),
                    N > 0,
                    N <= w,
                    w == wb * N,
                    wb >= 1,
                    T::reach() < 0x4000_0000,
                    g == tile.geometry(),
                    px == g.x,
                    py == g.y,
                    w == g.w,
                    h == g.h,
                    stride == g.stride,
                    px + w <= T::reach(),
                    py + h <= T::reach(),
                    p == (px as int, py as int),
                    pt_within::<T>(a),
                    pt_within::<T>(b),
                    pt_within::<T>(c),
                    !degenerate(a, b, c),
                    r < h,
                    cb <= wb,
                    edge@.width == wb,
                    cb < wb ==> edge@.tracks(N as int, p, a, b, c, r as int) && edge@.i == cb,
                    cb == wb ==> edge@.tracks(N as int, p, a, b, c, r + 1) && edge@.i == 0,
                    painted_where::<T, N, F>(
                        g,
                        orig,
                        tile.dst@,
                        *pixel,
                        scan_marks(before, a, b, c, g, r as int, cb * N),
                    ),
                decreases wb - cb,
            {
                let ghost s0 = edge@;
                let m = edge.mask();
                proof {
                    assert((cb + 1) * N <= wb * N && cb * N + N == (cb + 1) * N && 0 <= cb * N)
                        by (nonlinear_arith)
                        requires
                            cb < wb,
                            N > 0,
                    ;
                    if cb + 1 < wb {
                        assert((cb + 2) * N <= wb * N && (cb + 1) * N + N == (cb + 2) * N)
                            by (nonlinear_arith)
                            requires
                                cb + 2 <= wb,
                                N > 0,
                        ;
                    }
                    lemma_next_fits::<T>(s0, N as int, p, a, b, c, r as int);
                    lemma_tracks_next(s0, N as int, p, a, b, c, r as int);
                }
                edge.step();
                let x0 = px + cb * N;
                let y = py + r;
                let ghost m0 = scan_marks(before, a, b, c, g, r as int, cb * N);
                let ghost m1 = scan_marks(before, a, b, c, g, r as int, (cb + 1) * N);
                proof {
                    assert forall|k: int| 0 <= k < N implies #[trigger] m[k] == covered(
                        (x0 + k, y as int),
                        a,
                        b,
                        c,
                    ) by {
                        lemma_lane_inside(N as int, (px + cb * N, py + r), a, b, c, k);
                    }
                    assert forall|x: int, yy: int| g.in_block(x, yy) implies m1(x, yy) == (m0(x, yy) || (yy
                        == y && x0 <= x < x0 + N && m[x - x0])) by {
                        if yy == y && x0 <= x < x0 + N {
                            assert(m[x - x0] == covered((x0 + (x - x0), y as int), a, b, c));
                        }
                    }
                }
                if any_lane(&m) {
                    let st = self.lane_positions(x0, y);
                    let color = pixel(&st);
                    let ghost d0 = tile.dst@;
                    store_select(&mut tile.dst, stride, x0, y, &m, &color);
                    proof {
                        lemma_batch_paints::<T, N, F>(
                            g,
                            orig,
                            d0,
                            tile.dst@,
                            *pixel,
                            m0,
                            m1,
                            cb as int,
                            y as int,
                            m,
                            color,
                            st,
                        );
                    }
                } else {
                    proof {
                        lemma_marks_agree::<T, N, F>(g, orig, tile.dst@, *pixel, m0, m1);
                    }
                }
                cb = cb + 1;
            }
            proof {
                lemma_marks_agree::<T, N, F>(
                    g,
                    orig,
                    tile.dst@,
                    *pixel,
                    scan_marks(before, a, b, c, g, r as int, wb * N),
                    scan_marks(before, a, b, c, g, r + 1, 0),
                );
            }
            r = r + 1;
        }
        proof {
            lemma_marks_agree::<T, N, F>(g, orig, tile.dst@, *pixel, scan_marks(before, a, b, c, g, h as int, 0), done);
        }
    }
}

/// `p` lies strictly inside the triangle `(a, b, c)`: every edge value is positive.
pub open spec fn strictly_inside(p: (int, int), a: (int, int), b: (int, int), c: (int, int)) -> bool {
    edge_val(p, a, b) > 0 && edge_val(p, b, c) > 0 && edge_val(p, c, a) > 0
}

/// `p` lies strictly outside the triangle `(a, b, c)`: some edge value is negative.
pub open spec fn strictly_outside(p: (int, int), a: (int, int), b: (int, int), c: (int, int)) -> bool {
    edge_val(p, a, b) < 0 || edge_val(p, b, c) < 0 || edge_val(p, c, a) < 0
}

/// Rasterizing a single triangle with an area paints every pixel of the block strictly
/// inside it with a color that the pixel function returned, and leaves every pixel strictly
/// outside it as it was.
pub proof fn lemma_coverage_correct<T: IntView, const N: usize, F: Fn(&SimdTrianglePixelState<T, N>) -> [u32; N]>(
    g: TileGeometry,
    orig: Seq<u32>,
    dst: Seq<u32>,
    list: Seq<Vec2<T>>,
    pixel: F,
    j: int,
)
    requires
        list.len() == 3,
        !degenerate(list[0].pt(), list[1].pt(), list[2].pt()),
        rasterized::<T, N, F>(g, orig, dst, list, pixel),
        0 <= j < dst.len(),
        g.stride > 0,
        g.in_block(j % g.stride, j / g.stride),
    ensures
        strictly_inside((j % g.stride, j / g.stride), list[0].pt(), list[1].pt(), list[2].pt())
            ==> painted::<T, N, F>(
            pixel,
            g.x + ((j % g.stride - g.x) / N as int) * N,
            j / g.stride,
            (j % g.stride - g.x) % N as int,
            dst[j],
        ),
        strictly_outside((j % g.stride, j / g.stride), list[0].pt(), list[1].pt(), list[2].pt())
            ==> dst[j] == orig[j],
{
    let p = (j % g.stride, j / g.stride);
    let (a, b, c) = (list[0].pt(), list[1].pt(), list[2].pt());
    assert(pixel_shows::<T, N, F>(g, orig, dst, pixel, |x: int, y: int| covered_any(list, (x, y)), j));
    assert(covered_any(list, p) == covered(p, a, b, c)) by {
        assert(covered_upto(list, 0, p) == false);
        assert(vertex(list, 0, 0) == a && vertex(list, 0, 1) == b && vertex(list, 0, 2) == c);
    }
}

/// Two triangles `(a, b, c)` and `(b, a, d)` that share the edge `a - b` with consistent
/// winding (both areas positive) both cover every point of the shared edge: the edge value
/// 0 passes the coverage test, so the shared edge is covered twice, not once.
///
/// The point is given as `p = ((m - s) a + s b) / m` with `0 <= s <= m`.
pub proof fn lemma_shared_edge_covered_by_both(
    a: (int, int),
    b: (int, int),
    c: (int, int),
    d: (int, int),
    p: (int, int),
    s: int,
    m: int,
)
    requires
        edge_val(c, a, b) > 0,
        edge_val(d, b, a) > 0,
        0 < m,
        0 <= s <= m,
        p.0 * m == a.0 * (m - s) + b.0 * s,
        p.1 * m == a.1 * (m - s) + b.1 * s,
    ensures
        covered(p, a, b, c),
        covered(p, b, a, d),
{
    lemma_edge_between_points(p, a, b, a, b, s, m);
    lemma_edge_between_points(p, a, b, b, a, s, m);
    lemma_edge_between_points(p, a, b, b, c, s, m);
    lemma_edge_between_points(p, a, b, c, a, s, m);
    lemma_edge_between_points(p, a, b, a, d, s, m);
    lemma_edge_between_points(p, a, b, d, b, s, m);
    lemma_edge_vanishes(a, b);
    lemma_edge_vanishes(b, a);
    lemma_edge_vanishes(a, d);
    lemma_edge_vanishes(b, c);
    lemma_edge_vanishes(c, a);
    lemma_edge_vanishes(d, b);
    lemma_edge_rotate(a, b, c);
    lemma_edge_rotate(b, c, a);
    lemma_edge_rotate(b, a, d);
    lemma_edge_rotate(a, d, b);
    lemma_scaled_sign(m, m - s, edge_val(p, b, c), edge_val(a, b, c));
    lemma_scaled_sign(m, s, edge_val(p, c, a), edge_val(b, c, a));
    lemma_scaled_sign(m, s, edge_val(p, a, d), edge_val(b, a, d));
    lemma_scaled_sign(m, m - s, edge_val(p, d, b), edge_val(a, d, b));
    lemma_scaled_sign(m, 1, edge_val(p, a, b), 0);
    lemma_scaled_sign(m, 1, edge_val(p, b, a), 0);
}

proof fn lemma_scaled_sign(m: int, k: int, e: int, x: int)
    requires
        m > 0,
        k >= 0,
        x >= 0,
        m * e == k * x,
    ensures
        e >= 0,
        x == 0 ==> e == 0,
{
    assert(k * x >= 0) by (nonlinear_arith)
        requires
            k >= 0,
            x >= 0,
    ;
    assert(e >= 0 && (x == 0 ==> e == 0)) by (nonlinear_arith)
        requires
            m > 0,
            m * e == k * x,
            k * x >= 0,
    ;
}

/// An edge value is affine in the point: at `p = ((m - s) a + s b) / m` it is the same mix
/// of its values at `a` and at `b`.
proof fn lemma_edge_between_points(
    p: (int, int),
    a: (int, int),
    b: (int, int),
    f: (int, int),
    t: (int, int),
    s: int,
    m: int,
)
    requires
        p.0 * m == a.0 * (m - s) + b.0 * s,
        p.1 * m == a.1 * (m - s) + b.1 * s,
    ensures
        m * edge_val(p, f, t) == (m - s) * edge_val(a, f, t) + s * edge_val(b, f, t),
{
    let dx = t.0 - f.0;
    let dy = t.1 - f.1;
    assert((p.1 - f.1) * m == (a.1 - f.1) * (m - s) + (b.1 - f.1) * s) by (nonlinear_arith)
        requires
            p.1 * m == a.1 * (m - s) + b.1 * s,
    ;
    assert((p.0 - f.0) * m == (a.0 - f.0) * (m - s) + (b.0 - f.0) * s) by (nonlinear_arith)
        requires
            p.0 * m == a.0 * (m - s) + b.0 * s,
    ;
    lemma_edge_mix(dx, p.1 - f.1, a.1 - f.1, b.1 - f.1, s, m);
    lemma_edge_mix(dy, p.0 - f.0, a.0 - f.0, b.0 - f.0, s, m);
    let (ep, ea, eb) = (edge_val(p, f, t), edge_val(a, f, t), edge_val(b, f, t));
    let (xp, xa, xb) = (dx * (p.1 - f.1), dx * (a.1 - f.1), dx * (b.1 - f.1));
    let (yp, ya, yb) = (dy * (p.0 - f.0), dy * (a.0 - f.0), dy * (b.0 - f.0));
    assert(ep == xp - yp && ea == xa - ya && eb == xb - yb);
    assert(m * ep == (m - s) * ea + s * eb) by (nonlinear_arith)
        requires
            ep == xp - yp,
            ea == xa - ya,
            eb == xb - yb,
            m * xp == (m - s) * xa + s * xb,
            m * yp == (m - s) * ya + s * yb,
    ;
}

proof fn lemma_edge_mix(k: int, u: int, ua: int, ub: int, s: int, m: int)
    requires
        u * m == ua * (m - s) + ub * s,
    ensures
        m * (k * u) == (m - s) * (k * ua) + s * (k * ub),
{
    assert(m * (k * u) == k * (u * m)) by (nonlinear_arith);
    assert(k * (ua * (m - s) + ub * s) == (m - s) * (k * ua) + s * (k * ub)) by (nonlinear_arith);
}

proof fn lemma_edge_vanishes(a: (int, int), b: (int, int))
    ensures
        edge_val(a, a, b) == 0,
        edge_val(b, a, b) == 0,
{
    assert((b.0 - a.0) * (b.1 - a.1) == (b.1 - a.1) * (b.0 - a.0)) by (nonlinear_arith);
}

proof fn lemma_edge_rotate(a: (int, int), b: (int, int), c: (int, int))
    ensures
        edge_val(a, b, c) == edge_val(c, a, b),
{
    let (x1, y1, x2, y2) = (b.0 - a.0, b.1 - a.1, c.0 - a.0, c.1 - a.1);
    assert(edge_val(c, a, b) == x1 * y2 - y1 * x2);
    assert((c.0 - b.0) * (a.1 - b.1) == (x2 - x1) * (0 - y1));
    assert((c.1 - b.1) * (a.0 - b.0) == (y2 - y1) * (0 - x1));
    assert((x2 - x1) * (0 - y1) - (y2 - y1) * (0 - x1) == x1 * y2 - y1 * x2) by (nonlinear_arith);
}

/// A triangle whose vertices lie on one line covers no pixel: rasterizing it alone leaves
/// the buffer as it was.
pub proof fn lemma_degenerate_paints_nothing<T: IntView, const N: usize, F: Fn(&SimdTrianglePixelState<T, N>) -> [u32; N]>(
    g: TileGeometry,
    orig: Seq<u32>,
    dst: Seq<u32>,
    list: Seq<Vec2<T>>,
    pixel: F,
)
    requires
        list.len() == 3,
        degenerate(list[0].pt(), list[1].pt(), list[2].pt()),
        rasterized::<T, N, F>(g, orig, dst, list, pixel),
    ensures
        dst == orig,
{
    assert forall|j: int| 0 <= j < dst.len() implies dst[j] == orig[j] by {
        let p = (j % g.stride, j / g.stride);
        assert(pixel_shows::<T, N, F>(g, orig, dst, pixel, |x: int, y: int| covered_any(list, (x, y)), j));
        assert(covered_upto(list, 0, p) == false);
        assert(vertex(list, 0, 0) == list[0].pt() && vertex(list, 0, 1) == list[1].pt() && vertex(list, 0, 2) == list[2].pt());
    }
    assert(dst =~= orig);
}

/// A color painted by a pixel function that fills every lane with `color` is `color`.
proof fn lemma_painted_uniform<T: IntView, const N: usize, F: Fn(&SimdTrianglePixelState<T, N>) -> [u32; N]>(
    pixel: F,
    x0: int,
    y: int,
    lane: int,
    v: u32,
    color: u32,
)
    requires
        0 <= lane < N,
        painted::<T, N, F>(pixel, x0, y, lane, v),
        forall|s: &SimdTrianglePixelState<T, N>, c: [u32; N]|
            #[trigger] call_ensures(pixel, (s,), c) ==> forall|k: int| 0 <= k < N ==> c[k] == color,
    ensures
        v == color,
{
    let (s, c) = choose|s: SimdTrianglePixelState<T, N>, c: [u32; N]|
        s.at(x0, y) && #[trigger] call_ensures(pixel, (&s,), c) && c[lane] == v;
    assert(c[lane] == color);
}

/// The lane count does not change what a rasterize call paints: with pixel functions that
/// fill every lane with the same color, a scan with `N` lanes (one lane: the scalar scan) and
/// a scan with `M` lanes of the same triangles from the same buffer leave the same buffer.
pub proof fn lemma_lane_count_invariant<
    T: IntView,
    const N: usize,
    const M: usize,
    F: Fn(&SimdTrianglePixelState<T, N>) -> [u32; N],
    G: Fn(&SimdTrianglePixelState<T, M>) -> [u32; M],
>(
    g: TileGeometry,
    orig: Seq<u32>,
    d1: Seq<u32>,
    d2: Seq<u32>,
    list: Seq<Vec2<T>>,
    f: F,
    h: G,
    color: u32,
)
    requires
        N > 0,
        M > 0,
        rasterized::<T, N, F>(g, orig, d1, list, f),
        rasterized::<T, M, G>(g, orig, d2, list, h),
        forall|s: &SimdTrianglePixelState<T, N>, c: [u32; N]|
            #[trigger] call_ensures(f, (s,), c) ==> forall|k: int| 0 <= k < N ==> c[k] == color,
        forall|s: &SimdTrianglePixelState<T, M>, c: [u32; M]|
            #[trigger] call_ensures(h, (s,), c) ==> forall|k: int| 0 <= k < M ==> c[k] == color,
    ensures
        d1 == d2,
{
    assert forall|j: int| 0 <= j < d1.len() implies d1[j] == d2[j] by {
        let marked = |x: int, y: int| covered_any(list, (x, y));
        assert(pixel_shows::<T, N, F>(g, orig, d1, f, marked, j));
        assert(pixel_shows::<T, M, G>(g, orig, d2, h, marked, j));
        let x = j % g.stride;
        let y = j / g.stride;
        let dx = x - g.x;
        if g.stride > 0 && g.in_block(x, y) && covered_any(list, (x, y)) {
            lemma_painted_uniform::<T, N, F>(f, g.x + (dx / N as int) * N, y, dx % N as int, d1[j], color);
            lemma_painted_uniform::<T, M, G>(h, g.x + (dx / M as int) * M, y, dx % M as int, d2[j], color);
        }
    }
    assert(d1 =~= d2);
}

impl<T: Coord, const N: usize> Rasterizer<T, N> for SimdTriangleRasterizer<T, N> where
    usize: NumberCast<T>,
 {
    open spec fn ready(&self) -> bool {
        self.wf()
    }

    fn rasterize<F: Fn(&SimdTrianglePixelState<T, N>) -> [u32; N]>(
        &mut self,
        tile: &mut Tile,
        list: &[Vec2<T>],
        pixel: F,
    ) -> (r: Result<(), RasterError>) {
        SimdTriangleRasterizer::rasterize(self, tile, list, pixel)
    }
}

} // verus!
