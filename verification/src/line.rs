//! Lines through two points.
//!
//! A `Line` is a segment where its validity is asked and an infinite line
//! where a point is projected on it or two lines are intersected.
use vstd::prelude::*;
use crate::fixed::{abs_int, div_trunc, lemma_product_bound, lemma_tdiv_bound, lemma_tdiv_le, tdiv};
use crate::point::{lemma_dis_bounds, Point, Vec2};
use crate::{near, GeometryError, EPS, SCALE};

verus! {

/// The mathematical model of a line: its two endpoints.
pub struct Line2 {
    pub a: Vec2,
    pub b: Vec2,
}

/// Both coordinates are numbers that an `i64` holds.
pub open spec fn representable(p: Vec2) -> bool {
    i64::MIN <= p.x <= i64::MAX && i64::MIN <= p.y <= i64::MAX
}

impl Line2 {
    /// The vector from the first endpoint to the second.
    pub open spec fn vec(self) -> Vec2 {
        self.b.sub(self.a)
    }

    pub open spec fn len(self) -> int {
        self.vec().dis()
    }

    pub open spec fn sqrlen(self) -> int {
        self.vec().sqrdis()
    }

    /// The segment is longer than `EPS`.
    pub open spec fn valid(self) -> bool {
        self.len() > EPS
    }

    /// The orthogonal projection of `p` on the infinite line:
    /// `a + vec * ((p - a) . vec / |vec|^2)`, rounded once.
    pub open spec fn proj(self, p: Vec2) -> Vec2 {
        let v = self.vec();
        self.a.add(v.turn(p.sub(self.a).dot_raw(v), 0, v.dot_raw(v)))
    }

    /// The directions of the two lines have a cross product within `EPS` of
    /// zero: the lines are parallel or coincide, and the kernel does not
    /// tell which.
    pub open spec fn parallel(self, l: Line2) -> bool {
        near(self.vec().cross(l.vec()), 0)
    }

    /// Twice the signed area of the triangle from the first endpoint of
    /// `self` to the endpoints of `l`.
    pub open spec fn area_from_a(self, l: Line2) -> int {
        l.a.sub(self.a).cross_raw(l.b.sub(self.a))
    }

    /// Twice the signed area of the triangle from the second endpoint of
    /// `self` to the endpoints of `l`, taken the other way round.
    pub open spec fn area_from_b(self, l: Line2) -> int {
        l.b.sub(self.b).cross_raw(l.a.sub(self.b))
    }

    /// The point where the two infinite lines meet, by the ratio of signed
    /// areas: `a + vec * (s1 / (s1 + s2))`, rounded once.
    pub open spec fn meet(self, l: Line2) -> Vec2 {
        let s1 = self.area_from_a(l);
        let s2 = self.area_from_b(l);
        self.a.add(self.vec().turn(s1, 0, s1 + s2))
    }
}

/// The two signed areas of the ratio add up to the cross product of the two
/// directions, which is not zero unless the lines are parallel.
pub proof fn lemma_area_sum(s: Line2, l: Line2)
    ensures
        s.area_from_a(l) + s.area_from_b(l) == s.vec().cross_raw(l.vec()),
        !s.parallel(l) ==> s.area_from_a(l) + s.area_from_b(l) != 0,
{
    let (ax, ay, bx, by) = (s.a.x, s.a.y, s.b.x, s.b.y);
    let (cx, cy, dx, dy) = (l.a.x, l.a.y, l.b.x, l.b.y);
    assert((cx - ax) * (dy - ay) - (cy - ay) * (dx - ax) + ((dx - bx) * (cy - by) - (dy - by) * (cx
        - bx)) == (bx - ax) * (dy - cy) - (by - ay) * (dx - cx)) by (nonlinear_arith);
    let c = s.vec().cross_raw(l.vec());
    if c == 0 {
        assert(tdiv(0, SCALE as int) == 0);
    }
}

/// A valid line has a direction whose squared length is positive.
pub proof fn lemma_valid_length(l: Line2)
    requires
        l.valid(),
    ensures
        l.vec().dot_raw(l.vec()) > 0,
{
    lemma_dis_bounds(l.vec());
    let d = l.len();
    assert(d * d > 0) by (nonlinear_arith)
        requires
            d > 0,
    ;
}

/// A line between two points.
#[derive(Debug, Clone, Copy)]
pub struct Line {
    pub a: Point,
    pub b: Point,
}

impl View for Line {
    type V = Line2;

    open spec fn view(&self) -> Line2 {
        Line2 { a: self.a@, b: self.b@ }
    }
}

impl Line {
    /// Both endpoints are in range.
    pub open spec fn in_range(self) -> bool {
        self.a.in_range() && self.b.in_range()
    }

    pub fn new(a: Point, b: Point) -> (l: Line)
        ensures
            l.a == a,
            l.b == b,
    {
        Line { a, b }
    }

    /// Decides `in_range`.
    pub fn check_range(&self) -> (r: bool)
        ensures
            r == self.in_range(),
    {
        self.a.check_range() && self.b.check_range()
    }

    /// The vector from the first endpoint to the second.
    pub fn vec(&self) -> (v: Point)
        requires
            self.in_range(),
        ensures
            v@ == self@.vec(),
            v.in_span(),
    {
        self.b.sub(self.a)
    }

    /// The length of the segment, rounded down to the grid.
    pub fn len(&self) -> (r: i64)
        requires
            self.in_range(),
        ensures
            r == self@.len(),
    {
        self.vec().dis()
    }

    /// The squared length of the segment.
    pub fn sqrlen(&self) -> (r: i64)
        requires
            self.in_range(),
        ensures
            r == self@.sqrlen(),
    {
        self.vec().sqrdis()
    }

    /// Whether the segment is longer than `EPS`.
    pub fn valid(&self) -> (r: bool)
        requires
            self.in_range(),
        ensures
            r == self@.valid(),
    {
        self.len() > EPS
    }

    /// The orthogonal projection of `p` on the infinite line; no result
    /// where the line is not valid.
    pub fn proj(&self, p: Point) -> (r: Result<Point, GeometryError>)
        requires
            self.in_range(),
            p.in_range(),
        ensures
            !self@.valid() ==> r == Err::<Point, GeometryError>(GeometryError::DegenerateLine),
            self@.valid() ==> r is Ok && r->Ok_0@ == self@.proj(p@),
            r is Ok ==> r->Ok_0@.sub(self.a@).bounded(2_000_000_000_000),
    {
        if !self.valid() {
            return Err(GeometryError::DegenerateLine);
        }
        let v: Point = self.vec();
        let w: Point = p.sub(self.a);
        let d: i128 = w.dot_raw(v);
        let q: i128 = v.dot_raw(v);
        proof {
            lemma_valid_length(self@);
            lemma_along_bound(v@, w@);
        }
        let x: i128 = div_trunc((v.x as i128) * d, q);
        let y: i128 = div_trunc((v.y as i128) * d, q);
        Ok(Point { x: (self.a.x as i128 + x) as i64, y: (self.a.y as i128 + y) as i64 })
    }

    /// The point where the two infinite lines meet. `Ok(None)` where they
    /// are parallel or coincide; an error where one of them is not valid or
    /// the point has a coordinate that no `i64` holds.
    pub fn inter(&self, l: Line) -> (r: Result<Option<Point>, GeometryError>)
        requires
            self.in_range(),
            l.in_range(),
        ensures
            match r {
                Err(e) => if !self@.valid() || !l@.valid() {
                    e == GeometryError::DegenerateLine
                } else {
                    e == GeometryError::OutOfRange && !self@.parallel(l@) && !representable(
                        self@.meet(l@),
                    )
                },
                Ok(None) => self@.valid() && l@.valid() && self@.parallel(l@),
                Ok(Some(p)) => self@.valid() && l@.valid() && !self@.parallel(l@) && p@
                    == self@.meet(l@),
            },
    {
        if !self.valid() || !l.valid() {
            return Err(GeometryError::DegenerateLine);
        }
        let v: Point = self.vec();
        if crate::eq_f64(v.cross(l.vec()), 0) {
            return Ok(None);
        }
        let s1: i128 = l.a.sub(self.a).cross_raw(l.b.sub(self.a));
        let s2: i128 = l.b.sub(self.b).cross_raw(l.a.sub(self.b));
        proof {
            lemma_area_sum(self@, l@);
            lemma_product_bound(
                v.x as int,
                s1 as int,
                1_000_000_000_000,
                2_000_000_000_000_000_000_000_000,
            );
            lemma_product_bound(
                v.y as int,
                s1 as int,
                1_000_000_000_000,
                2_000_000_000_000_000_000_000_000,
            );
            lemma_tdiv_bound(v.x * s1, s1 + s2);
            lemma_tdiv_bound(v.y * s1, s1 + s2);
        }
        let x: i128 = self.a.x as i128 + div_trunc((v.x as i128) * s1, s1 + s2);
        let y: i128 = self.a.y as i128 + div_trunc((v.y as i128) * s1, s1 + s2);
        if x < i64::MIN as i128 || x > i64::MAX as i128 || y < i64::MIN as i128 || y
            > i64::MAX as i128 {
            return Err(GeometryError::OutOfRange);
        }
        Ok(Some(Point { x: x as i64, y: y as i64 }))
    }
}

/// The component of `w` along `v`, as a multiple of `v`, is no larger than
/// the coordinates of `w` taken together.
pub proof fn lemma_along_bound(v: Vec2, w: Vec2)
    requires
        v.bounded(1_000_000_000_000),
        w.bounded(1_000_000_000_000),
        v.dot_raw(v) > 0,
    ensures
        abs_int(v.x * w.dot_raw(v)) <= 4_000_000_000_000_000_000_000_000_000_000_000_000,
        abs_int(v.y * w.dot_raw(v)) <= 4_000_000_000_000_000_000_000_000_000_000_000_000,
        v.turn(w.dot_raw(v), 0, v.dot_raw(v)).bounded(2_000_000_000_000),
{
    let q = v.dot_raw(v);
    let d = w.dot_raw(v);
    let xx = v.x * v.x;
    let yy = v.y * v.y;
    let xy = v.x * v.y;
    assert(0 <= xx <= q && 0 <= yy <= q && -q <= xy <= q) by (nonlinear_arith)
        requires
            q == v.x * v.x + v.y * v.y,
            xx == v.x * v.x,
            yy == v.y * v.y,
            xy == v.x * v.y,
    ;
    assert(v.x * d == xx * w.x + xy * w.y) by (nonlinear_arith)
        requires
            d == w.x * v.x + w.y * v.y,
            xx == v.x * v.x,
            xy == v.x * v.y,
    ;
    assert(v.y * d == xy * w.x + yy * w.y) by (nonlinear_arith)
        requires
            d == w.x * v.x + w.y * v.y,
            yy == v.y * v.y,
            xy == v.x * v.y,
    ;
    lemma_product_bound(xx, w.x, q, 1_000_000_000_000);
    lemma_product_bound(xy, w.y, q, 1_000_000_000_000);
    lemma_product_bound(xy, w.x, q, 1_000_000_000_000);
    lemma_product_bound(yy, w.y, q, 1_000_000_000_000);
    lemma_tdiv_le(v.x * d, q, 2_000_000_000_000);
    lemma_tdiv_le(v.y * d, q, 2_000_000_000_000);
    lemma_product_bound(v.x, v.x, 1_000_000_000_000, 1_000_000_000_000);
    lemma_product_bound(v.y, v.y, 1_000_000_000_000, 1_000_000_000_000);
}

} // verus!
