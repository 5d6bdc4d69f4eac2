use hedra::math::{Cartesian, Coord, One, Vec2, Vec3, Zero};
use hedra::rast::simd::triangle_mask;
use hedra::rast::{rasterize_frame, Block, Frame, Point};
use hedra::raster::simd::{SimdTrianglePixelState, SimdTriangleRasterizer};
use hedra::raster::{any_lane, RasterError, Rasterizer, Tile, TriangleEdgeState};
use hedra::pipeline::PixelState;
use hedra::NumberCast;

const FULL: u32 = u32::MAX;

fn v(x: i32, y: i32) -> Vec2<i32> {
    Vec2 { x, y }
}

fn tile(width: usize, height: usize, pos: (usize, usize), dim: (usize, usize)) -> Tile {
    Tile {
        dst: vec![0; width * height],
        dst_width: width,
        position: Vec2 { x: pos.0, y: pos.1 },
        dimensions: Vec2 { x: dim.0, y: dim.1 },
    }
}

fn fill<const N: usize>(t: &mut Tile, list: &[Vec2<i32>]) -> Result<(), RasterError> {
    let r = SimdTriangleRasterizer::<i32, N>::default();
    r.rasterize(t, list, |_s: &SimdTrianglePixelState<i32, N>| [FULL; N])
}

fn edge(p: (i64, i64), a: (i64, i64), b: (i64, i64)) -> i64 {
    (b.0 - a.0) * (p.1 - a.1) - (b.1 - a.1) * (p.0 - a.0)
}

fn covers(p: (i64, i64), t: [(i64, i64); 3]) -> bool {
    let area = edge(t[2], t[0], t[1]);
    area != 0 && edge(p, t[0], t[1]) >= 0 && edge(p, t[1], t[2]) >= 0 && edge(p, t[2], t[0]) >= 0
}

fn at(t: &Tile, x: usize, y: usize) -> u32 {
    t.dst[y * t.dst_width + x]
}

const SCENE: [Vec2<i32>; 3] = [Vec2 { x: 25, y: 25 }, Vec2 { x: 75, y: 25 }, Vec2 { x: 75, y: 75 }];

#[test]
fn scenario_triangle_in_block() {
    let mut t = tile(100, 100, (16, 16), (64, 64));
    assert_eq!(fill::<64>(&mut t, &SCENE), Ok(()));
    assert_eq!(at(&t, 74, 74), FULL);
    assert_eq!(at(&t, 10, 10), 0);
    assert_eq!(at(&t, 75, 50), FULL);
    assert_eq!(at(&t, 74, 75), 0);
    assert_eq!(at(&t, 76, 50), 0);
}

#[test]
fn scenario_triangle_in_frame_block() {
    let mut f = Frame { dst: vec![0; 100 * 100], width: 100, height: 100 };
    let block = Block { min: Point { x: 16, y: 16 }, max: Point { x: 80, y: 80 } };
    let list = [[Point { x: 25, y: 25 }, Point { x: 75, y: 25 }, Point { x: 75, y: 75 }]];
    assert_eq!(rasterize_frame::<i32>(&mut f, &block, &list), Ok(()));
    assert_eq!(f.dst[74 * 100 + 74], FULL);
    assert_eq!(f.dst[10 * 100 + 10], 0);
    assert_eq!(f.dst[50 * 100 + 75], FULL);
}

#[test]
fn covered_pixels_match_the_edge_rule() {
    let mut t = tile(100, 100, (16, 16), (64, 64));
    fill::<8>(&mut t, &SCENE).unwrap();
    let tri = [(25, 25), (75, 25), (75, 75)];
    for y in 0..100usize {
        for x in 0..100usize {
            let in_block = (16..80).contains(&x) && (16..80).contains(&y);
            let want = in_block && covers((x as i64, y as i64), tri);
            assert_eq!(at(&t, x, y) == FULL, want, "pixel ({}, {})", x, y);
        }
    }
}

#[test]
fn strictly_inside_and_outside() {
    let mut t = tile(40, 40, (0, 0), (40, 40));
    fill::<4>(&mut t, &[v(5, 5), v(30, 5), v(5, 30)]).unwrap();
    // Every edge value of (10, 10) is positive: it lies strictly inside.
    assert!(edge((10, 10), (5, 5), (30, 5)) > 0);
    assert!(edge((10, 10), (30, 5), (5, 30)) > 0);
    assert!(edge((10, 10), (5, 30), (5, 5)) > 0);
    assert_eq!(at(&t, 10, 10), FULL);
    assert_eq!(at(&t, 35, 35), 0);
    assert_eq!(at(&t, 2, 2), 0);
}

#[test]
fn shared_edge_is_covered_by_both_triangles() {
    // (a, b, c) and (b, a, d) share the edge a - b with the same winding.
    let (a, b, c, d) = (v(10, 10), v(30, 10), v(30, 30), v(10, -10));
    let mut first = tile(40, 40, (0, 0), (40, 40));
    let mut second = tile(40, 40, (0, 0), (40, 40));
    fill::<1>(&mut first, &[a, b, c]).unwrap();
    fill::<1>(&mut second, &[b, a, d]).unwrap();
    for x in 10..=30usize {
        assert_eq!(at(&first, x, 10), FULL, "first triangle at ({}, 10)", x);
    }
    let mut both = tile(40, 40, (0, 0), (40, 40));
    fill::<1>(&mut both, &[a, b, c, b, a, d]).unwrap();
    for x in 10..=30usize {
        assert_eq!(at(&both, x, 10), FULL);
    }
    for x in 10..=30usize {
        assert_eq!(at(&second, x, 10), FULL, "second triangle at ({}, 10)", x);
    }
}

#[test]
fn incremental_scan_matches_direct_evaluation() {
    let tris: [[i32; 6]; 5] = [
        [3, 4, 60, 9, 20, 55],
        [0, 0, 63, 0, 63, 63],
        [-10, -5, 70, 30, 5, 70],
        [40, 2, 50, 60, 1, 30],
        [7, 7, 50, 12, 8, 40],
    ];
    for t in tris.iter() {
        let list = [v(t[0], t[1]), v(t[2], t[3]), v(t[4], t[5])];
        let pts = [Point { x: t[0], y: t[1] }, Point { x: t[2], y: t[3] }, Point { x: t[4], y: t[5] }];
        let area = edge((t[4] as i64, t[5] as i64), (t[0] as i64, t[1] as i64), (t[2] as i64, t[3] as i64));
        assert!(area > 0);
        let mut direct = vec![0u32; 64 * 64];
        for y in 0..64i32 {
            for x in 0..64i32 {
                if triangle_mask([x], [y], pts)[0] {
                    direct[(y * 64 + x) as usize] = FULL;
                }
            }
        }
        assert!(direct.iter().any(|p| *p == FULL));
        let mut lanes = tile(64, 64, (0, 0), (64, 64));
        fill::<4>(&mut lanes, &list).unwrap();
        assert_eq!(lanes.dst, direct);
        let mut f = Frame { dst: vec![0; 64 * 64], width: 64, height: 64 };
        let block = Block { min: Point { x: 0, y: 0 }, max: Point { x: 64, y: 64 } };
        rasterize_frame::<i32>(&mut f, &block, &[pts]).unwrap();
        assert_eq!(f.dst, direct);
    }
}

#[test]
fn stepper_matches_triangle_mask_at_every_batch() {
    let (v1, v2, v3) = (v(2, 3), v(30, 8), v(12, 28));
    let tri = [Point { x: 2, y: 3 }, Point { x: 30, y: 8 }, Point { x: 12, y: 28 }];
    let width = 8usize;
    let mut s = TriangleEdgeState::<i32, 4>::new(width, v(0, 0), v1, v2, v3);
    for row in 0..32i32 {
        for batch in 0..width as i32 {
            let x0 = batch * 4;
            let xs = [x0, x0 + 1, x0 + 2, x0 + 3];
            let ys = [row; 4];
            let m = s.mask();
            assert_eq!(m, triangle_mask(xs, ys, tri), "row {} batch {}", row, batch);
            assert_eq!(s.test(), m.iter().any(|b| *b));
            s.step();
        }
    }
}

#[test]
fn scalar_stepper_test() {
    let mut s = TriangleEdgeState::<i64, 1>::new(3, Vec2 { x: 0, y: 0 }, Vec2 { x: 0, y: 0 }, Vec2 { x: 2, y: 0 }, Vec2 { x: 0, y: 2 });
    // Row 0: x = 0, 1, 2 are on the edge y = 0 and inside or on the boundary.
    let mut seen = Vec::new();
    for _ in 0..9 {
        seen.push(s.test());
        s.step();
    }
    assert_eq!(seen, vec![true, true, true, true, true, false, true, false, false]);
}

#[test]
fn lane_counts_agree() {
    let list = [v(3, 2), v(61, 17), v(22, 58), v(40, 40), v(60, 62), v(35, 63)];
    let mut one = tile(64, 64, (0, 0), (64, 64));
    fill::<1>(&mut one, &list).unwrap();
    let mut two = tile(64, 64, (0, 0), (64, 64));
    fill::<2>(&mut two, &list).unwrap();
    let mut eight = tile(64, 64, (0, 0), (64, 64));
    fill::<8>(&mut eight, &list).unwrap();
    let mut sixteen = tile(64, 64, (0, 0), (64, 64));
    fill::<16>(&mut sixteen, &list).unwrap();
    let mut wide = tile(64, 64, (0, 0), (64, 64));
    fill::<64>(&mut wide, &list).unwrap();
    assert!(one.dst.iter().any(|p| *p == FULL));
    assert_eq!(one.dst, two.dst);
    assert_eq!(one.dst, eight.dst);
    assert_eq!(one.dst, sixteen.dst);
    assert_eq!(one.dst, wide.dst);
}

#[test]
fn block_past_the_buffer_writes_nothing_outside() {
    // The block reaches past the right edge and past the last row of a 20 x 10 buffer.
    let mut t = tile(20, 10, (8, 4), (16, 12));
    let before_len = t.dst.len();
    assert_eq!(fill::<4>(&mut t, &[v(0, 0), v(40, 0), v(0, 40)]), Ok(()));
    assert_eq!(t.dst.len(), before_len);
    for y in 0..10usize {
        for x in 0..20usize {
            let want = x >= 8 && y >= 4 && covers((x as i64, y as i64), [(0, 0), (40, 0), (0, 40)]);
            assert_eq!(at(&t, x, y) == FULL, want, "pixel ({}, {})", x, y);
        }
    }
}

#[test]
fn frame_block_past_the_frame_writes_nothing_outside() {
    let mut f = Frame { dst: vec![0; 10 * 10], width: 10, height: 6 };
    let block = Block { min: Point { x: 0, y: 0 }, max: Point { x: 30, y: 30 } };
    let list = [[Point { x: 0, y: 0 }, Point { x: 40, y: 0 }, Point { x: 0, y: 40 }]];
    assert_eq!(rasterize_frame::<i16>(&mut f, &block, &list), Ok(()));
    assert_eq!(f.dst.len(), 100);
    for j in 0..100usize {
        assert_eq!(f.dst[j] == FULL, j / 10 < 6, "element {}", j);
    }
}

#[test]
fn degenerate_triangle_covers_nothing() {
    let mut t = tile(32, 32, (0, 0), (32, 32));
    assert_eq!(fill::<4>(&mut t, &[v(2, 2), v(10, 10), v(20, 20)]), Ok(()));
    assert!(t.dst.iter().all(|p| *p == 0));
    let mut f = Frame { dst: vec![0; 32 * 32], width: 32, height: 32 };
    let block = Block { min: Point { x: 0, y: 0 }, max: Point { x: 32, y: 32 } };
    let list = [[Point { x: 5, y: 5 }, Point { x: 5, y: 5 }, Point { x: 5, y: 5 }]];
    assert_eq!(rasterize_frame::<i32>(&mut f, &block, &list), Ok(()));
    assert!(f.dst.iter().all(|p| *p == 0));
}

#[test]
fn malformed_list_is_refused() {
    let mut t = tile(8, 8, (0, 0), (8, 8));
    t.dst[3] = 7;
    assert_eq!(fill::<4>(&mut t, &[v(0, 0), v(7, 0)]), Err(RasterError::MalformedList));
    assert_eq!(t.dst[3], 7);
}

#[test]
fn lane_mismatch_is_refused() {
    let mut t = tile(16, 16, (0, 0), (10, 8));
    assert_eq!(fill::<4>(&mut t, &[v(0, 0), v(7, 0), v(0, 7)]), Err(RasterError::LaneMismatch));
    assert!(t.dst.iter().all(|p| *p == 0));
    let mut z = tile(16, 16, (0, 0), (8, 8));
    assert_eq!(fill::<0>(&mut z, &[v(0, 0), v(7, 0), v(0, 7)]), Err(RasterError::LaneMismatch));
}

#[test]
fn out_of_range_is_refused() {
    let r = SimdTriangleRasterizer::<i16, 4>::default();
    let mut t = tile(16, 16, (0, 0), (16, 16));
    let list = [Vec2 { x: 0i16, y: 0 }, Vec2 { x: 100, y: 0 }, Vec2 { x: 0, y: 10 }];
    assert_eq!(r.rasterize(&mut t, &list, |_s| [FULL; 4]), Err(RasterError::OutOfRange));
    let mut far = tile(16, 16, (60, 0), (8, 8));
    let ok = [Vec2 { x: 0i16, y: 0 }, Vec2 { x: 10, y: 0 }, Vec2 { x: 0, y: 10 }];
    assert_eq!(r.rasterize(&mut far, &ok, |_s| [FULL; 4]), Err(RasterError::OutOfRange));
    let mut f = Frame { dst: vec![0; 4], width: 2, height: 2 };
    let block = Block { min: Point { x: 0, y: 0 }, max: Point { x: 2, y: 2 } };
    let list = [[Point { x: 0i16, y: 0 }, Point { x: 64, y: 0 }, Point { x: 0, y: 1 }]];
    assert_eq!(rasterize_frame::<i16>(&mut f, &block, &list), Err(RasterError::OutOfRange));
}

#[test]
fn pixel_function_sees_lane_positions() {
    let r = SimdTriangleRasterizer::<i32, 4>::default();
    let mut t = tile(16, 16, (4, 2), (8, 6));
    let list = [v(-20, -20), v(60, -20), v(-20, 60)];
    r.rasterize(&mut t, &list, |s: &SimdTrianglePixelState<i32, 4>| {
        let mut c = [0u32; 4];
        for k in 0..4 {
            c[k] = (s.pixel.y[k] * 100 + s.pixel.x[k]) as u32;
        }
        c
    })
    .unwrap();
    for y in 0..16usize {
        for x in 0..16usize {
            let in_block = (4..12).contains(&x) && (2..8).contains(&y);
            let want = if in_block { (y * 100 + x) as u32 } else { 0 };
            assert_eq!(at(&t, x, y), want);
        }
    }
}

#[test]
fn masked_store_leaves_uncovered_lanes() {
    let mut t = tile(16, 4, (0, 0), (16, 4));
    for p in t.dst.iter_mut() {
        *p = 5;
    }
    // Only x <= 2 is covered in row 0: the rest of the first batch keeps its value.
    fill::<8>(&mut t, &[v(0, 0), v(2, 0), v(0, 2)]).unwrap();
    assert_eq!(&t.dst[0..8], &[FULL, FULL, FULL, 5, 5, 5, 5, 5]);
}

#[test]
fn rasterizer_trait_fills_the_tile() {
    let mut r = SimdTriangleRasterizer::<i64, 2>::default();
    let mut t = tile(8, 8, (0, 0), (8, 8));
    let list = [Vec2 { x: 0i64, y: 0 }, Vec2 { x: 7, y: 0 }, Vec2 { x: 0, y: 7 }];
    assert_eq!(Rasterizer::rasterize(&mut r, &mut t, &list, |_s| [9u32; 2]), Ok(()));
    assert_eq!(at(&t, 0, 0), 9);
    assert_eq!(at(&t, 7, 7), 0);
}

#[test]
fn triangle_mask_lanes() {
    let tri = [Point { x: 0, y: 0 }, Point { x: 4, y: 0 }, Point { x: 0, y: 4 }];
    let m = triangle_mask([0, 2, 4, 5], [0, 2, 0, 0], tri);
    assert_eq!(m, [true, true, true, false]);
}

#[test]
fn any_lane_reports_a_set_lane() {
    assert!(any_lane(&[false, false, true]));
    assert!(!any_lane(&[false, false]));
    assert!(!any_lane::<0>(&[]));
}

#[test]
fn barycentric_coordinates() {
    let p = Vec2 { x: 1i32, y: 1 };
    let r = p.to_barycentric(v(0, 0), v(4, 0), v(0, 4)).unwrap();
    // Weights 8/16, 4/16, 4/16 rounded toward zero.
    assert_eq!((r.x, r.y, r.z), (0, 0, 1));
    let q = Vec2 { x: 0i32, y: 0 };
    let s = q.to_barycentric(v(0, 0), v(4, 0), v(0, 4)).unwrap();
    assert_eq!((s.x, s.y, s.z), (1, 0, 0));
    let corner: Vec3<i32> = Vec2 { x: 4, y: 0 }.to_barycentric(v(0, 0), v(4, 0), v(0, 4)).unwrap();
    assert_eq!((corner.x, corner.y, corner.z), (0, 1, 0));
    let neg = Vec2 { x: 8i32, y: 0 }.to_barycentric(v(0, 0), v(4, 0), v(0, 4)).unwrap();
    assert_eq!((neg.x, neg.y, neg.z), (-1, 2, 0));
    assert!(p.to_barycentric(v(0, 0), v(2, 2), v(4, 4)).is_none());
}

#[test]
fn coordinate_arithmetic() {
    assert_eq!(3i32.plus(4), 7);
    assert_eq!(3i16.minus(5), -2);
    assert_eq!((-6i64).times(7), -42);
    assert_eq!(5i32.negate(), -5);
    assert_eq!((-7i32).quot(2), -3);
    assert_eq!(7i64.quot(-2), -3);
    assert!(0i32.is_nonneg() && !(-1i32).is_nonneg());
    assert!(0i16.is_zero() && !3i16.is_zero());
    assert!(63i16.in_reach() && !64i16.in_reach() && !(-64i16).in_reach());
    assert!(16383i32.in_reach() && !16384i32.in_reach());
    assert!(1073741823i64.in_reach() && !1073741824i64.in_reach());
    assert!(<i32 as Coord>::usize_in_reach(16383) && !<i32 as Coord>::usize_in_reach(16384));
    assert_eq!(<i32 as Zero>::zero(), 0);
    assert_eq!(<i64 as One>::one(), 1);
    let n: i16 = 42usize.to_num();
    assert_eq!(n, 42);
    let m: i64 = 1usize.to_num();
    assert_eq!(m, 1);
}

#[test]
fn pixel_converts_to_point() {
    let p: Point<i32> = Point::from(Point { x: 3usize, y: 4usize });
    assert_eq!((p.x, p.y), (3, 4));
}

#[test]
fn pixel_state_hands_out_lane_positions() {
    let s = SimdTrianglePixelState::<i32, 2> { pixel: Vec2 { x: [5, 6], y: [9, 9] } };
    let p = s.get_pixel();
    assert_eq!((p.x, p.y), ([5, 6], [9, 9]));
}

#[test]
fn stepper_seeded_at_the_coordinate_limit() {
    let mut s = TriangleEdgeState::<i32, 1>::new(1, v(16383, 0), v(16383, 0), v(16383, 5), v(16378, 0));
    assert!(s.test());
    s.step();
    assert!(s.test());
}

#[test]
fn narrow_lanes_rasterize_like_one_lane() {
    let list = [Vec2 { x: 0i16, y: 0 }, Vec2 { x: 60, y: 2 }, Vec2 { x: 10, y: 60 }];
    let mut wide = tile(64, 8, (0, 0), (32, 8));
    let r = SimdTriangleRasterizer::<i16, 32>::default();
    r.rasterize(&mut wide, &list, |_s| [FULL; 32]).unwrap();
    let mut one = tile(64, 8, (0, 0), (32, 8));
    let q = SimdTriangleRasterizer::<i16, 1>::default();
    q.rasterize(&mut one, &list, |_s| [FULL; 1]).unwrap();
    assert!(one.dst.iter().any(|p| *p == FULL));
    assert_eq!(wide.dst, one.dst);
}
