//! Coordinate numbers and small vectors.
use vstd::prelude::*;

use crate::rast::{lemma_holds, pt_within};
use crate::IntView;
use vstd::arithmetic::div_mod::{lemma_div_basics, lemma_div_is_strictly_smaller, lemma_div_pos_is_pos};

verus! {

/// A signed integer type usable as a pixel coordinate and an edge value.
///
/// `reach()` bounds the coordinates: when every coordinate of a triangle and of the scanned
/// block lies in `[-reach(), reach()]`, every edge value and every step between them is held
/// by the type.
pub trait Coord: IntView {
    spec fn reach() -> int;

    proof fn lemma_reach()
        ensures
            1 <= Self::reach() < 0x4000_0000,
            forall|v: int|
                -(8 * Self::reach() * Self::reach() + 8 * Self::reach()) <= v <= 8 * Self::reach()
                    * Self::reach() + 8 * Self::reach() ==> #[trigger] Self::holds(v),
    ;

    fn plus(self, o: Self) -> (r: Self)
        requires
            Self::holds(self.int_val() + o.int_val()),
        ensures
            r.int_val() == self.int_val() + o.int_val(),
    ;

    fn minus(self, o: Self) -> (r: Self)
        requires
            Self::holds(self.int_val() - o.int_val()),
        ensures
            r.int_val() == self.int_val() - o.int_val(),
    ;

    fn times(self, o: Self) -> (r: Self)
        requires
            Self::holds(self.int_val() * o.int_val()),
        ensures
            r.int_val() == self.int_val() * o.int_val(),
    ;

    fn negate(self) -> (r: Self)
        requires
            Self::holds(-self.int_val()),
        ensures
            r.int_val() == -self.int_val(),
    ;

    fn is_nonneg(self) -> (r: bool)
        ensures
            r == (self.int_val() >= 0),
    ;

    fn is_zero(self) -> (r: bool)
        ensures
            r == (self.int_val() == 0),
    ;

    fn quot(self, d: Self) -> (r: Self)
        requires
            d.int_val() != 0,
            Self::holds(trunc_div(self.int_val(), d.int_val())),
        ensures
            r.int_val() == trunc_div(self.int_val(), d.int_val()),
    ;

    fn in_reach(self) -> (r: bool)
        ensures
            -Self::reach() <= self.int_val() <= Self::reach() <==> r,
    ;

    fn usize_in_reach(n: usize) -> (r: bool)
        ensures
            r == (n <= Self::reach()),
    ;

    fn usize_holds(n: usize) -> (r: bool)
        ensures
            r == Self::holds(n as int),
    ;
}

/// The quotient of `a` by `d` rounded toward zero, as integer division rounds.
pub open spec fn trunc_div(a: int, d: int) -> int {
    if a >= 0 {
        a / d
    } else {
        -((-a) / d)
    }
}

/// `v` lies in the coordinate range of `T`.
pub open spec fn within<T: Coord>(v: int) -> bool {
    -T::reach() <= v <= T::reach()
}

/// The additive identity of a coordinate type.
pub trait Zero: Coord {
    fn zero() -> (r: Self)
        ensures
            r.int_val() == 0,
    ;
}

/// The multiplicative identity of a coordinate type.
pub trait One: Coord {
    fn one() -> (r: Self)
        ensures
            r.int_val() == 1,
    ;
}

impl Coord for i16 {
    open spec fn reach() -> int {
        63
    }

    proof fn lemma_reach() {
        assert(8 * 63 * 63 + 8 * 63 == 32256int);
    }

    fn plus(self, o: Self) -> (r: Self) {
        self + o
    }

    fn minus(self, o: Self) -> (r: Self) {
        self - o
    }

    fn times(self, o: Self) -> (r: Self) {
        self * o
    }

    fn negate(self) -> (r: Self) {
        -self
    }

    fn is_nonneg(self) -> (r: bool) {
        self >= 0
    }

    fn is_zero(self) -> (r: bool) {
        self == 0
    }

    fn quot(self, d: Self) -> (r: Self) {
        proof {
            if d == -1 {
                assert(trunc_div(self as int, -1) == -self);
            }
        }
        self / d
    }

    fn in_reach(self) -> (r: bool) {
        -63 <= self && self <= 63
    }

    fn usize_in_reach(n: usize) -> (r: bool) {
        n <= 63
    }

    fn usize_holds(n: usize) -> (r: bool) {
        n <= 32767
    }
}

impl Coord for i32 {
    open spec fn reach() -> int {
        16383
    }

    proof fn lemma_reach() {
        assert(8 * 16383 * 16383 + 8 * 16383 == 2147352576int);
    }

    fn plus(self, o: Self) -> (r: Self) {
        self + o
    }

    fn minus(self, o: Self) -> (r: Self) {
        self - o
    }

    fn times(self, o: Self) -> (r: Self) {
        self * o
    }

    fn negate(self) -> (r: Self) {
        -self
    }

    fn is_nonneg(self) -> (r: bool) {
        self >= 0
    }

    fn is_zero(self) -> (r: bool) {
        self == 0
    }

    fn quot(self, d: Self) -> (r: Self) {
        proof {
            if d == -1 {
                assert(trunc_div(self as int, -1) == -self);
            }
        }
        self / d
    }

    fn in_reach(self) -> (r: bool) {
        -16383 <= self && self <= 16383
    }

    fn usize_in_reach(n: usize) -> (r: bool) {
        n <= 16383
    }

    fn usize_holds(n: usize) -> (r: bool) {
        n as u64 <= 2147483647
    }
}

impl Coord for i64 {
    open spec fn reach() -> int {
        1073741823
    }

    proof fn lemma_reach() {
        assert(8 * 1073741823 * 1073741823 + 8 * 1073741823 == 9223372028264841216int);
    }

    fn plus(self, o: Self) -> (r: Self) {
        self + o
    }

    fn minus(self, o: Self) -> (r: Self) {
        self - o
    }

    fn times(self, o: Self) -> (r: Self) {
        self * o
    }

    fn negate(self) -> (r: Self) {
        -self
    }

    fn is_nonneg(self) -> (r: bool) {
        self >= 0
    }

    fn is_zero(self) -> (r: bool) {
        self == 0
    }

    fn quot(self, d: Self) -> (r: Self) {
        proof {
            if d == -1 {
                assert(trunc_div(self as int, -1) == -self);
            }
        }
        self / d
    }

    fn in_reach(self) -> (r: bool) {
        -1073741823 <= self && self <= 1073741823
    }

    fn usize_in_reach(n: usize) -> (r: bool) {
        n <= 1073741823
    }

    fn usize_holds(n: usize) -> (r: bool) {
        n as u64 <= 9223372036854775807
    }
}

impl Zero for i16 {
    fn zero() -> (r: Self) {
        0
    }
}

impl Zero for i32 {
    fn zero() -> (r: Self) {
        0
    }
}

impl Zero for i64 {
    fn zero() -> (r: Self) {
        0
    }
}

impl One for i16 {
    fn one() -> (r: Self) {
        1
    }
}

impl One for i32 {
    fn one() -> (r: Self) {
        1
    }
}

impl One for i64 {
    fn one() -> (r: Self) {
        1
    }
}

#[derive(Debug, Clone, Copy)]
pub struct Vec2<T> {
    pub x: T,
    pub y: T,
}

#[derive(Debug, Clone, Copy)]
pub struct Vec3<T> {
    pub x: T,
    pub y: T,
    pub z: T,
}

#[derive(Debug, Clone, Copy)]
pub struct Vec4<T> {
    pub x: T,
    pub y: T,
    pub z: T,
    pub w: T,
}

impl<T: IntView> Vec2<T> {
    /// The point as a pair of numbers.
    pub open spec fn pt(self) -> (int, int) {
        (self.x.int_val(), self.y.int_val())
    }
}

/// The first barycentric weight of `p` against `(a, b, c)`, times the divisor.
pub open spec fn bary_l1(p: (int, int), b: (int, int), c: (int, int)) -> int {
    (b.1 - c.1) * (p.0 - c.0) - (b.0 - c.0) * (p.1 - c.1)
}

/// The second barycentric weight of `p` against `(a, b, c)`, times the divisor.
pub open spec fn bary_l2(p: (int, int), a: (int, int), c: (int, int)) -> int {
    (c.1 - a.1) * (p.0 - c.0) + (a.0 - c.0) * (p.1 - c.1)
}

/// The divisor of the barycentric weights of `(a, b, c)`: twice its signed area, zero when
/// the vertices lie on one line.
pub open spec fn bary_divisor(a: (int, int), b: (int, int), c: (int, int)) -> int {
    (b.1 - c.1) * (a.0 - c.0) - (b.0 - c.0) * (a.1 - c.1)
}

/// `l / d` rounded toward zero, for `d != 0`.
pub open spec fn ratio(l: int, d: int) -> int {
    if d > 0 {
        trunc_div(l, d)
    } else {
        trunc_div(-l, -d)
    }
}

/// Both coordinates of `p`, doubled, lie in the coordinate range of `T`.
pub open spec fn half_within<T: Coord>(p: (int, int)) -> bool {
    pt_within::<T>((2 * p.0, 2 * p.1))
}

proof fn lemma_ratio_bound(l: int, d: int)
    requires
        d != 0,
    ensures
        -l <= ratio(l, d) <= l || l <= ratio(l, d) <= -l,
{
    let (a, e) = if d > 0 { (l, d) } else { (-l, -d) };
    let x = if a >= 0 { a } else { -a };
    lemma_div_pos_is_pos(x, e);
    if e == 1 {
        lemma_div_basics(x);
    } else if x > 0 {
        lemma_div_is_strictly_smaller(x, e);
    } else {
        lemma_div_basics(e);
    }
}

proof fn lemma_small_product(x: int, y: int, r: int)
    requires
        -r <= x <= r,
        -r <= y <= r,
    ensures
        -(r * r) <= x * y <= r * r,
{
    assert(-(r * r) <= x * y <= r * r) by (nonlinear_arith)
        requires
            -r <= x <= r,
            -r <= y <= r,
    ;
}

/// Conversion of a point to barycentric coordinates against a triangle.
pub trait Cartesian<T: Coord>: Sized {
    /// The point as a pair of numbers.
    spec fn point(self) -> (int, int);

    /// The barycentric coordinates of the point against `(v1, v2, v3)`, each weight rounded
    /// toward zero, the third one minus the first two; `None` where the vertices lie on one
    /// line and the weights have no divisor.
    fn to_barycentric(self, v1: Vec2<T>, v2: Vec2<T>, v3: Vec2<T>) -> (r: Option<Vec3<T>>)
        requires
            half_within::<T>(self.point()),
            half_within::<T>(v1.pt()),
            half_within::<T>(v2.pt()),
            half_within::<T>(v3.pt()),
        ensures
            bary_divisor(v1.pt(), v2.pt(), v3.pt()) == 0 <==> r is None,
            r matches Some(l) ==> {
                let d = bary_divisor(v1.pt(), v2.pt(), v3.pt());
                &&& l.x.int_val() == ratio(bary_l1(self.point(), v2.pt(), v3.pt()), d)
                &&& l.y.int_val() == ratio(bary_l2(self.point(), v1.pt(), v3.pt()), d)
                &&& l.z.int_val() == 1 - l.x.int_val() - l.y.int_val()
            },
    ;
}

impl<T: Coord + One> Cartesian<T> for Vec2<T> {
    open spec fn point(self) -> (int, int) {
        self.pt()
    }

    fn to_barycentric(self, v1: Vec2<T>, v2: Vec2<T>, v3: Vec2<T>) -> (r: Option<Vec3<T>>) {
        let ghost rr = T::reach();
        proof {
            T::lemma_reach();
            let (p, a, b, c) = (self.pt(), v1.pt(), v2.pt(), v3.pt());
            lemma_small_product(b.1 - c.1, p.0 - c.0, rr);
            lemma_small_product(b.0 - c.0, p.1 - c.1, rr);
            lemma_small_product(c.1 - a.1, p.0 - c.0, rr);
            lemma_small_product(a.0 - c.0, p.1 - c.1, rr);
            lemma_small_product(b.1 - c.1, a.0 - c.0, rr);
            lemma_small_product(b.0 - c.0, a.1 - c.1, rr);
            assert(1 <= rr * rr && rr * rr <= 8 * rr * rr) by (nonlinear_arith)
                requires
                    rr >= 1,
            ;
            assert(rr <= 8 * rr * rr) by (nonlinear_arith)
                requires
                    rr >= 1,
            ;
            assert(8 * rr * rr == 8 * (rr * rr)) by (nonlinear_arith);
            lemma_holds::<T>(bary_l1(p, b, c));
            lemma_holds::<T>(bary_l2(p, a, c));
            lemma_holds::<T>(bary_divisor(a, b, c));
            lemma_holds::<T>((b.1 - c.1) * (p.0 - c.0));
            lemma_holds::<T>((b.0 - c.0) * (p.1 - c.1));
            lemma_holds::<T>((c.1 - a.1) * (p.0 - c.0));
            lemma_holds::<T>((a.0 - c.0) * (p.1 - c.1));
            lemma_holds::<T>((b.1 - c.1) * (a.0 - c.0));
            lemma_holds::<T>((b.0 - c.0) * (a.1 - c.1));
        }
        let x_x3 = self.x.minus(v3.x);
        let x1_x3 = v1.x.minus(v3.x);
        let x2_x3 = v2.x.minus(v3.x);
        let y_y3 = self.y.minus(v3.y);
        let y1_y3 = v1.y.minus(v3.y);
        let y2_y3 = v2.y.minus(v3.y);
        let y3_y1 = v3.y.minus(v1.y);
        let l1_dividend = y2_y3.times(x_x3).minus(x2_x3.times(y_y3));
        let l2_dividend = y3_y1.times(x_x3).plus(x1_x3.times(y_y3));
        let divisor = y2_y3.times(x1_x3).minus(x2_x3.times(y1_y3));
        if divisor.is_zero() {
            return None;
        }
        let (n1, n2, d) = if divisor.is_nonneg() {
            (l1_dividend, l2_dividend, divisor)
        } else {
            (l1_dividend.negate(), l2_dividend.negate(), divisor.negate())
        };
        proof {
            let (p, a, b, c) = (self.pt(), v1.pt(), v2.pt(), v3.pt());
            lemma_ratio_bound(bary_l1(p, b, c), bary_divisor(a, b, c));
            lemma_ratio_bound(bary_l2(p, a, c), bary_divisor(a, b, c));
            lemma_holds::<T>(trunc_div(n1.int_val(), d.int_val()));
            lemma_holds::<T>(trunc_div(n2.int_val(), d.int_val()));
        }
        let l1 = n1.quot(d);
        let l2 = n2.quot(d);
        proof {
            lemma_holds::<T>(1 - l1.int_val());
            lemma_holds::<T>(1 - l1.int_val() - l2.int_val());
        }
        Some(Vec3 { x: l1, y: l2, z: T::one().minus(l1).minus(l2) })
    }
}

} // verus!
