//! Points and vectors of the plane.
//!
//! `Vec2` is the mathematical model: a pair of unbounded integers, in grid
//! steps. `Point` is the machine value, and its view is a `Vec2`. Every
//! operation is first a spec function on `Vec2`; the executable method
//! computes exactly that.
use vstd::prelude::*;
use crate::fixed::{
    abs_int, div_trunc, floor_sqrt, is_floor_sqrt, isqrt, lemma_floor_sqrt_exists,
    lemma_product_bound, lemma_tdiv_bound, lemma_tdiv_le, lemma_tdiv_neg, lemma_tdiv_remainder, tdiv,
};
use crate::{near, GeometryError, EPS, LIMIT, SCALE};

verus! {

/// A point or vector with integer coordinates of any size.
pub struct Vec2 {
    pub x: int,
    pub y: int,
}

impl Vec2 {
    /// Neither coordinate exceeds `b` in magnitude.
    pub open spec fn bounded(self, b: int) -> bool {
        abs_int(self.x) <= b && abs_int(self.y) <= b
    }

    /// The tolerant equality of points: both coordinates differ by less than
    /// `EPS`.
    pub open spec fn approx_eq(self, p: Vec2) -> bool {
        near(self.x, p.x) && near(self.y, p.y)
    }

    pub open spec fn add(self, p: Vec2) -> Vec2 {
        Vec2 { x: self.x + p.x, y: self.y + p.y }
    }

    pub open spec fn sub(self, p: Vec2) -> Vec2 {
        Vec2 { x: self.x - p.x, y: self.y - p.y }
    }

    pub open spec fn neg(self) -> Vec2 {
        Vec2 { x: -self.x, y: -self.y }
    }

    /// The dot product before rescaling, in squared grid steps.
    pub open spec fn dot_raw(self, p: Vec2) -> int {
        self.x * p.x + self.y * p.y
    }

    /// The cross product before rescaling: twice the signed area of the
    /// triangle spanned by the two vectors, in squared grid steps.
    pub open spec fn cross_raw(self, p: Vec2) -> int {
        self.x * p.y - self.y * p.x
    }

    /// The dot product as a fixed-point scalar.
    pub open spec fn dot(self, p: Vec2) -> int {
        tdiv(self.dot_raw(p), SCALE as int)
    }

    /// The cross product as a fixed-point scalar.
    pub open spec fn cross(self, p: Vec2) -> int {
        tdiv(self.cross_raw(p), SCALE as int)
    }

    /// The squared length as a fixed-point scalar.
    pub open spec fn sqrdis(self) -> int {
        self.dot(self)
    }

    /// The length, rounded down to the grid.
    pub open spec fn dis(self) -> int {
        floor_sqrt(self.dot_raw(self))
    }

    /// The vector times the fixed-point scalar `k`.
    pub open spec fn scale(self, k: int) -> Vec2 {
        Vec2 { x: tdiv(self.x * k, SCALE as int), y: tdiv(self.y * k, SCALE as int) }
    }

    /// The vector divided by the fixed-point scalar `k`.
    pub open spec fn div(self, k: int) -> Vec2 {
        Vec2 { x: tdiv(self.x * SCALE, k), y: tdiv(self.y * SCALE, k) }
    }

    /// The vector turned counter-clockwise and stretched by the complex
    /// number `(c + i s) / den`.
    pub open spec fn turn(self, c: int, s: int, den: int) -> Vec2 {
        Vec2 { x: tdiv(self.x * c - self.y * s, den), y: tdiv(self.x * s + self.y * c, den) }
    }

    /// The vector turned counter-clockwise by the angle whose cosine and sine
    /// are the fixed-point scalars `cos` and `sin`.
    pub open spec fn rot(self, cos: int, sin: int) -> Vec2 {
        self.turn(cos, sin, SCALE as int)
    }

    /// The vector of the same direction and of length `len`.
    pub open spec fn resize(self, len: int) -> Vec2 {
        self.turn(len, 0, self.dis())
    }

    /// The vector of the same direction and of length one.
    pub open spec fn unit(self) -> Vec2 {
        self.resize(SCALE as int)
    }

    /// The vector of length `r` at the angle from `self` whose cosine is
    /// `along / r`: counter-clockwise of `self` where `left`, clockwise
    /// otherwise. `along` is the length of its part along `self`, and the
    /// integer square root of `r^2 - along^2` that of its part across.
    pub open spec fn aim(self, r: int, along: int, left: bool) -> Vec2 {
        let across = floor_sqrt(r * r - along * along);
        self.turn(along, if left { across } else { -across }, self.dis())
    }
}

/// A point or vector of the plane, in grid steps.
#[derive(Debug, Clone, Copy)]
pub struct Point {
    pub x: i64,
    pub y: i64,
}

impl View for Point {
    type V = Vec2;

    open spec fn view(&self) -> Vec2 {
        Vec2 { x: self.x as int, y: self.y as int }
    }
}

/// A coordinate is no longer than the vector.
pub proof fn lemma_dis_bounds(v: Vec2)
    ensures
        is_floor_sqrt(v.dot_raw(v), v.dis()),
        abs_int(v.x) <= v.dis(),
        abs_int(v.y) <= v.dis(),
        v.dis() <= abs_int(v.x) + abs_int(v.y),
{
    let n = v.dot_raw(v);
    let ax = abs_int(v.x);
    let ay = abs_int(v.y);
    assert(n == ax * ax + ay * ay && ax * ax >= 0 && ay * ay >= 0) by (nonlinear_arith)
        requires
            n == v.x * v.x + v.y * v.y,
            ax == abs_int(v.x),
            ay == abs_int(v.y),
    ;
    lemma_floor_sqrt_exists(n);
    let d = v.dis();
    assert(is_floor_sqrt(n, d));
    assert(ax <= d) by (nonlinear_arith)
        requires
            0 <= ax,
            0 <= d,
            ax * ax <= n,
            n < (d + 1) * (d + 1),
    ;
    assert(ay <= d) by (nonlinear_arith)
        requires
            0 <= ay,
            0 <= d,
            ay * ay <= n,
            n < (d + 1) * (d + 1),
    ;
    assert(d <= ax + ay) by (nonlinear_arith)
        requires
            0 <= ax,
            0 <= ay,
            0 <= d,
            d * d <= n,
            n == ax * ax + ay * ay,
    ;
}

impl Point {
    /// The coordinates are within `LIMIT`: the point is one that the
    /// kernel's queries accept.
    pub open spec fn in_range(self) -> bool {
        self@.bounded(LIMIT as int)
    }

    /// The coordinates are within twice `LIMIT`, as those of the difference
    /// of two points in range are.
    pub open spec fn in_span(self) -> bool {
        self@.bounded(2 * LIMIT)
    }

    pub fn new(x: i64, y: i64) -> (p: Point)
        ensures
            p.x == x,
            p.y == y,
    {
        Point { x, y }
    }

    /// Decides `in_range`.
    pub fn check_range(&self) -> (b: bool)
        ensures
            b == self.in_range(),
    {
        -LIMIT <= self.x && self.x <= LIMIT && -LIMIT <= self.y && self.y <= LIMIT
    }

    /// Decides `in_span`.
    pub fn check_span(&self) -> (b: bool)
        ensures
            b == self.in_span(),
    {
        -2 * LIMIT <= self.x && self.x <= 2 * LIMIT && -2 * LIMIT <= self.y && self.y <= 2 * LIMIT
    }

    /// Tolerant equality: both coordinates differ by less than `EPS`. It is
    /// reflexive and symmetric but not transitive.
    pub fn eq(&self, p: &Point) -> (r: bool)
        ensures
            r == self@.approx_eq(p@),
    {
        crate::eq_f64(self.x, p.x) && crate::eq_f64(self.y, p.y)
    }

    pub fn add(self, p: Point) -> (r: Point)
        requires
            i64::MIN <= self.x + p.x <= i64::MAX,
            i64::MIN <= self.y + p.y <= i64::MAX,
        ensures
            r@ == self@.add(p@),
    {
        Point { x: self.x + p.x, y: self.y + p.y }
    }

    pub fn sub(self, p: Point) -> (r: Point)
        requires
            i64::MIN <= self.x - p.x <= i64::MAX,
            i64::MIN <= self.y - p.y <= i64::MAX,
        ensures
            r@ == self@.sub(p@),
    {
        Point { x: self.x - p.x, y: self.y - p.y }
    }

    pub fn neg(self) -> (r: Point)
        requires
            self.x > i64::MIN,
            self.y > i64::MIN,
        ensures
            r@ == self@.neg(),
    {
        Point { x: -self.x, y: -self.y }
    }

    /// The dot product, exact, in squared grid steps.
    pub fn dot_raw(self, p: Point) -> (r: i128)
        requires
            self.in_span(),
            p.in_span(),
        ensures
            r == self@.dot_raw(p@),
            abs_int(r as int) <= 2_000_000_000_000_000_000_000_000,
    {
        proof {
            lemma_product_bound(self.x as int, p.x as int, 1_000_000_000_000, 1_000_000_000_000);
            lemma_product_bound(self.y as int, p.y as int, 1_000_000_000_000, 1_000_000_000_000);
        }
        (self.x as i128) * (p.x as i128) + (self.y as i128) * (p.y as i128)
    }

    /// The cross product, exact, in squared grid steps.
    pub fn cross_raw(self, p: Point) -> (r: i128)
        requires
            self.in_span(),
            p.in_span(),
        ensures
            r == self@.cross_raw(p@),
            abs_int(r as int) <= 2_000_000_000_000_000_000_000_000,
    {
        proof {
            lemma_product_bound(self.x as int, p.y as int, 1_000_000_000_000, 1_000_000_000_000);
            lemma_product_bound(self.y as int, p.x as int, 1_000_000_000_000, 1_000_000_000_000);
        }
        (self.x as i128) * (p.y as i128) - (self.y as i128) * (p.x as i128)
    }

    /// The dot product.
    pub fn dot(self, p: Point) -> (r: i64)
        requires
            self.in_span(),
            p.in_span(),
        ensures
            r == self@.dot(p@),
    {
        let raw: i128 = self.dot_raw(p);
        proof {
            lemma_tdiv_le(raw as int, SCALE as int, 2_000_000_000_000_000_000);
        }
        div_trunc(raw, SCALE as i128) as i64
    }

    /// The cross product: positive where `p` lies counter-clockwise of
    /// `self`.
    pub fn cross(self, p: Point) -> (r: i64)
        requires
            self.in_span(),
            p.in_span(),
        ensures
            r == self@.cross(p@),
    {
        let raw: i128 = self.cross_raw(p);
        proof {
            lemma_tdiv_le(raw as int, SCALE as int, 2_000_000_000_000_000_000);
        }
        div_trunc(raw, SCALE as i128) as i64
    }

    /// The squared length.
    pub fn sqrdis(&self) -> (r: i64)
        requires
            self.in_span(),
        ensures
            r == self@.sqrdis(),
    {
        self.dot(*self)
    }

    /// The length, rounded down to the grid. It is taken of sums of vectors
    /// too, and so accepts coordinates up to eight times `LIMIT`.
    pub fn dis(&self) -> (r: i64)
        requires
            self@.bounded(8 * LIMIT),
        ensures
            r == self@.dis(),
            0 <= r <= abs_int(self.x as int) + abs_int(self.y as int),
            abs_int(self.x as int) <= r,
            abs_int(self.y as int) <= r,
    {
        proof {
            lemma_product_bound(self.x as int, self.x as int, 4_000_000_000_000, 4_000_000_000_000);
            lemma_product_bound(self.y as int, self.y as int, 4_000_000_000_000, 4_000_000_000_000);
            lemma_dis_bounds(self@);
            assert(self.x * self.x >= 0 && self.y * self.y >= 0) by (nonlinear_arith);
        }
        let raw: i128 = (self.x as i128) * (self.x as i128) + (self.y as i128) * (self.y as i128);
        isqrt(raw as u128) as i64
    }

    /// The vector times the scalar `k`.
    pub fn scale(self, k: i64) -> (r: Point)
        requires
            self.in_span(),
            -2 * LIMIT <= k <= 2 * LIMIT,
        ensures
            r@ == self@.scale(k as int),
    {
        proof {
            lemma_product_bound(self.x as int, k as int, 1_000_000_000_000, 1_000_000_000_000);
            lemma_product_bound(self.y as int, k as int, 1_000_000_000_000, 1_000_000_000_000);
            lemma_tdiv_le(self.x * k, SCALE as int, 1_000_000_000_000_000_000);
            lemma_tdiv_le(self.y * k, SCALE as int, 1_000_000_000_000_000_000);
        }
        let x: i128 = div_trunc((self.x as i128) * (k as i128), SCALE as i128);
        let y: i128 = div_trunc((self.y as i128) * (k as i128), SCALE as i128);
        Point { x: x as i64, y: y as i64 }
    }

    /// The vector divided by the scalar `k`; no result where `k` is within
    /// `EPS` of zero.
    pub fn div(self, k: i64) -> (r: Result<Point, GeometryError>)
        requires
            self.in_span(),
        ensures
            abs_int(k as int) <= EPS ==> r == Err::<Point, GeometryError>(GeometryError::ZeroDivisor),
            abs_int(k as int) > EPS ==> r is Ok && r->Ok_0@ == self@.div(k as int),
    {
        if -EPS <= k && k <= EPS {
            return Err(GeometryError::ZeroDivisor);
        }
        proof {
            lemma_tdiv_bound(self.x * SCALE, k as int);
            lemma_tdiv_bound(self.y * SCALE, k as int);
        }
        let x: i128 = div_trunc((self.x as i128) * (SCALE as i128), k as i128);
        let y: i128 = div_trunc((self.y as i128) * (SCALE as i128), k as i128);
        Ok(Point { x: x as i64, y: y as i64 })
    }

    /// The vector turned counter-clockwise and stretched by the complex
    /// number `(c + i s) / den`. Either the vector or the pair `(c, s)` must
    /// be no larger than `den`, so that the result is no larger than the
    /// other of the two.
    pub fn turn(self, c: i64, s: i64, den: i64) -> (r: Point)
        requires
            self.in_span(),
            -2 * LIMIT <= c <= 2 * LIMIT,
            -2 * LIMIT <= s <= 2 * LIMIT,
            den > 0,
            self@.bounded(den as int) || (abs_int(c as int) <= den && abs_int(s as int) <= den),
        ensures
            r@ == self@.turn(c as int, s as int, den as int),
            r@.bounded(4 * LIMIT),
    {
        proof {
            lemma_product_bound(self.x as int, c as int, 1_000_000_000_000, 1_000_000_000_000);
            lemma_product_bound(self.y as int, s as int, 1_000_000_000_000, 1_000_000_000_000);
            lemma_product_bound(self.x as int, s as int, 1_000_000_000_000, 1_000_000_000_000);
            lemma_product_bound(self.y as int, c as int, 1_000_000_000_000, 1_000_000_000_000);
            if self@.bounded(den as int) {
                lemma_product_bound(self.x as int, c as int, den as int, 1_000_000_000_000);
                lemma_product_bound(self.y as int, s as int, den as int, 1_000_000_000_000);
                lemma_product_bound(self.x as int, s as int, den as int, 1_000_000_000_000);
                lemma_product_bound(self.y as int, c as int, den as int, 1_000_000_000_000);
            } else {
                lemma_product_bound(self.x as int, c as int, 1_000_000_000_000, den as int);
                lemma_product_bound(self.y as int, s as int, 1_000_000_000_000, den as int);
                lemma_product_bound(self.x as int, s as int, 1_000_000_000_000, den as int);
                lemma_product_bound(self.y as int, c as int, 1_000_000_000_000, den as int);
            }
            lemma_tdiv_le(self.x * c - self.y * s, den as int, 2_000_000_000_000);
            lemma_tdiv_le(self.x * s + self.y * c, den as int, 2_000_000_000_000);
        }
        let xc: i128 = (self.x as i128) * (c as i128);
        let ys: i128 = (self.y as i128) * (s as i128);
        let xs: i128 = (self.x as i128) * (s as i128);
        let yc: i128 = (self.y as i128) * (c as i128);
        let x: i128 = div_trunc(xc - ys, den as i128);
        let y: i128 = div_trunc(xs + yc, den as i128);
        Point { x: x as i64, y: y as i64 }
    }

    /// The vector turned counter-clockwise by the angle whose cosine and sine
    /// are the scalars `cos` and `sin`.
    pub fn rot(&self, cos: i64, sin: i64) -> (r: Point)
        requires
            self.in_span(),
            -SCALE <= cos <= SCALE,
            -SCALE <= sin <= SCALE,
        ensures
            r@ == self@.rot(cos as int, sin as int),
    {
        self.turn(cos, sin, SCALE)
    }

    /// The vector of the same direction and of length `len`; no result where
    /// the vector is no longer than `EPS`.
    pub fn resize(self, len: i64) -> (r: Result<Point, GeometryError>)
        requires
            self.in_span(),
            -2 * LIMIT <= len <= 2 * LIMIT,
        ensures
            self@.dis() <= EPS ==> r == Err::<Point, GeometryError>(GeometryError::ZeroVector),
            self@.dis() > EPS ==> r is Ok && r->Ok_0@ == self@.resize(len as int),
    {
        let d: i64 = self.dis();
        if d <= EPS {
            return Err(GeometryError::ZeroVector);
        }
        proof {
            lemma_dis_bounds(self@);
        }
        Ok(self.turn(len, 0, d))
    }

    /// The vector of length `r` at the angle from `self` whose cosine is
    /// `along / r`, counter-clockwise where `left` and clockwise otherwise.
    pub fn aim(self, r: i64, along: i64, left: bool) -> (q: Point)
        requires
            self.in_span(),
            0 <= r <= 2 * LIMIT,
            -r <= along <= r,
            self@.dis() > 0,
        ensures
            q@ == self@.aim(r as int, along as int, left),
            q@.bounded(4 * LIMIT),
    {
        proof {
            lemma_product_bound(along as int, along as int, r as int, r as int);
            lemma_product_bound(r as int, r as int, 1_000_000_000_000, 1_000_000_000_000);
            assert(along * along >= 0) by (nonlinear_arith);
        }
        let rest: i128 = (r as i128) * (r as i128) - (along as i128) * (along as i128);
        let across: u64 = isqrt(rest as u128);
        proof {
            assert(across <= r) by (nonlinear_arith)
                requires
                    across * across <= rest,
                    rest <= r * r,
                    0 <= r,
                    0 <= across,
            ;
            lemma_dis_bounds(self@);
        }
        let d: i64 = self.dis();
        let s: i64 = if left { across as i64 } else { -(across as i64) };
        self.turn(along, s, d)
    }

    /// The vector of the same direction and of length one; no result where
    /// the vector is no longer than `EPS`.
    pub fn normalize(self) -> (r: Result<Point, GeometryError>)
        requires
            self.in_span(),
        ensures
            self@.dis() <= EPS ==> r == Err::<Point, GeometryError>(GeometryError::ZeroVector),
            self@.dis() > EPS ==> r is Ok && r->Ok_0@ == self@.unit(),
    {
        self.resize(SCALE)
    }
}

/// Tolerant equality holds of every point and itself, and in both
/// directions or in none.
pub proof fn lemma_approx_eq_reflexive_symmetric(p: Vec2, q: Vec2)
    ensures
        p.approx_eq(p),
        p.approx_eq(q) == q.approx_eq(p),
{
}

/// Tolerant equality is not transitive: there are three points of which
/// each is equal to the next and the first is not equal to the last.
pub proof fn lemma_approx_eq_not_transitive()
    ensures
        exists|p: Vec2, q: Vec2, r: Vec2| p.approx_eq(q) && q.approx_eq(r) && !p.approx_eq(r),
{
    let p = Vec2 { x: 0, y: 0 };
    let q = Vec2 { x: 600, y: 0 };
    let r = Vec2 { x: 1200, y: 0 };
    assert(p.approx_eq(q) && q.approx_eq(r) && !p.approx_eq(r));
}

/// The cross product changes its sign when its arguments change places.
pub proof fn lemma_cross_antisymmetric(a: Vec2, b: Vec2)
    ensures
        a.cross_raw(b) == -b.cross_raw(a),
        a.cross(b) == -b.cross(a),
{
    assert(a.x * b.y - a.y * b.x == -(b.x * a.y - b.y * a.x)) by (nonlinear_arith);
    lemma_tdiv_neg(b.cross_raw(a), SCALE as int);
}

/// The dot product does not depend on the order of its arguments.
pub proof fn lemma_dot_symmetric(a: Vec2, b: Vec2)
    ensures
        a.dot_raw(b) == b.dot_raw(a),
        a.dot(b) == b.dot(a),
{
    assert(a.x * b.x + a.y * b.y == b.x * a.x + b.y * a.y) by (nonlinear_arith);
}

/// One coordinate of a vector that was turned by `(c, s)` and then by
/// `(c, -s)`, against the coordinate it had.
proof fn lemma_turn_back(x: int, y: int, c: int, s: int)
    requires
        abs_int(c) <= SCALE,
        abs_int(s) <= SCALE,
        abs_int(x * (c * c + s * s - SCALE * SCALE)) <= (EPS - 3) * SCALE * SCALE,
    ensures
        near(tdiv(tdiv(x * c - y * s, SCALE as int) * c + tdiv(x * s + y * c, SCALE as int) * s, SCALE as int), x),
{
    let m: int = 1_000_000;
    let x1 = tdiv(x * c - y * s, m);
    let y1 = tdiv(x * s + y * c, m);
    let r1 = (x * c - y * s) - m * x1;
    let r2 = (x * s + y * c) - m * y1;
    lemma_tdiv_remainder(x * c - y * s, m);
    lemma_tdiv_remainder(x * s + y * c, m);
    let w = x1 * c + y1 * s;
    let e = x * (c * c + s * s - m * m);
    let a = m * x1;
    let b = m * y1;
    let (xc, ys, xs, yc) = (x * c, y * s, x * s, y * c);
    assert(m * w == a * c + b * s) by (nonlinear_arith)
        requires
            w == x1 * c + y1 * s,
            a == m * x1,
            b == m * y1,
    ;
    assert(a * c == xc * c - ys * c - r1 * c) by (nonlinear_arith)
        requires
            a == xc - ys - r1,
    ;
    assert(b * s == xs * s + yc * s - r2 * s) by (nonlinear_arith)
        requires
            b == xs + yc - r2,
    ;
    assert(ys * c == yc * s) by (nonlinear_arith)
        requires
            ys == y * s,
            yc == y * c,
    ;
    assert(xc * c == x * (c * c)) by (nonlinear_arith)
        requires
            xc == x * c,
    ;
    assert(xs * s == x * (s * s)) by (nonlinear_arith)
        requires
            xs == x * s,
    ;
    assert(e == x * (c * c) + x * (s * s) - x * (m * m)) by (nonlinear_arith)
        requires
            e == x * (c * c + s * s - m * m),
    ;
    assert(m * w - x * (m * m) == e - r1 * c - r2 * s);
    lemma_product_bound(r1, c, m - 1, m);
    lemma_product_bound(r2, s, m - 1, m);
    assert(x * (m * m) == (x * m) * m) by (nonlinear_arith);
    let x2 = tdiv(w, m);
    lemma_tdiv_remainder(w, m);
}

/// Turning a vector by an angle and then by the opposite angle gives the
/// vector back, up to the tolerance, where `(cos, sin)` is on the unit
/// circle or close enough to it for the size of the vector.
pub proof fn lemma_rot_inverse(v: Vec2, cos: int, sin: int)
    requires
        abs_int(cos) <= SCALE,
        abs_int(sin) <= SCALE,
        abs_int(v.x * (cos * cos + sin * sin - SCALE * SCALE)) <= (EPS - 3) * SCALE * SCALE,
        abs_int(v.y * (cos * cos + sin * sin - SCALE * SCALE)) <= (EPS - 3) * SCALE * SCALE,
    ensures
        v.rot(cos, sin).rot(cos, -sin).approx_eq(v),
{
    let m: int = SCALE as int;
    let u = v.rot(cos, sin);
    let w = u.rot(cos, -sin);
    lemma_turn_back(v.x, v.y, cos, sin);
    assert(u.x * cos - u.y * (-sin) == u.x * cos + u.y * sin) by (nonlinear_arith);
    // The second coordinate is the first one of the vector a quarter turn on.
    let e = cos * cos + sin * sin - SCALE * SCALE;
    assert(v.y * cos - (-v.x) * sin == v.x * sin + v.y * cos) by (nonlinear_arith);
    assert(v.y * sin + (-v.x) * cos == -(v.x * cos - v.y * sin)) by (nonlinear_arith);
    lemma_tdiv_neg(v.x * cos - v.y * sin, m);
    lemma_turn_back(v.y, -v.x, cos, sin);
    assert(u.x * (-sin) + u.y * cos == u.y * cos + (-u.x) * sin) by (nonlinear_arith);
}

} // verus!
