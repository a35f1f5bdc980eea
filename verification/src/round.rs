//! Circles: where they meet lines and each other, their tangents, and the
//! two centres of a triangle.
//!
//! A direction at an angle from a given vector is never found through the
//! angle itself. The queries know the cosine of the angle as a ratio of
//! lengths, and `Vec2::aim` takes the vector there by that ratio and the
//! integer square root that completes it.
use vstd::prelude::*;
use crate::fixed::{
    abs_int, div_trunc, floor_sqrt, isqrt, lemma_product_bound, lemma_tdiv_le, tdiv,
};
use crate::line::{representable, Line, Line2};
use crate::point::{lemma_dis_bounds, Point, Vec2};
use crate::{eq_f64, near, GeometryError, EPS, LIMIT, SCALE};

verus! {

/// The mathematical model of a circle: its centre and its radius.
pub struct Round2 {
    pub o: Vec2,
    pub r: int,
}

/// What a query for points returned, with each point as its model.
pub open spec fn points_view(r: Result<Option<(Point, Point)>, GeometryError>) -> Result<
    Option<(Vec2, Vec2)>,
    GeometryError,
> {
    match r {
        Ok(Some((p, q))) => Ok(Some((p@, q@))),
        Ok(None) => Ok(None),
        Err(e) => Err(e),
    }
}

/// What a query for lines returned, with each line as its model.
pub open spec fn lines_view(r: Result<Option<(Line, Line)>, GeometryError>) -> Result<
    Option<(Line2, Line2)>,
    GeometryError,
> {
    match r {
        Ok(Some((k, l))) => Ok(Some((k@, l@))),
        Ok(None) => Ok(None),
        Err(e) => Err(e),
    }
}

impl Round2 {
    /// The projection of the centre on the line.
    pub open spec fn foot(self, l: Line2) -> Vec2 {
        l.proj(self.o)
    }

    /// The distance from the centre to the line.
    pub open spec fn gap(self, l: Line2) -> int {
        self.o.sub(self.foot(l)).dis()
    }

    /// Where the circle meets the infinite line. No line that is not valid
    /// is accepted. At a distance within `EPS` of the radius the line is a
    /// tangent, and the foot is given twice. At a larger distance there is
    /// nothing. Otherwise the two points lie on the line, to both sides of
    /// the foot, at the distance `sqrt(r^2 - gap^2)` from it.
    pub open spec fn cut_line(self, l: Line2) -> Result<Option<(Vec2, Vec2)>, GeometryError> {
        let foot = self.foot(l);
        let gap = self.gap(l);
        if !l.valid() {
            Err(GeometryError::DegenerateLine)
        } else if near(gap, self.r) {
            Ok(Some((foot, foot)))
        } else if gap > self.r {
            Ok(None)
        } else {
            let off = l.vec().resize(floor_sqrt(self.r * self.r - gap * gap));
            Ok(Some((foot.add(off), foot.sub(off))))
        }
    }

    /// Where the circle meets the circle `rd`. Circles with equal centres
    /// have nothing in common that the kernel could name. At a distance of
    /// the centres within `EPS` of the difference of the radii, or of their
    /// sum, the circles touch, and the one point is given twice: it lies
    /// from the centre of the larger circle towards the other centre (from
    /// that of `self` where they touch from outside) at the distance of its
    /// radius. At a distance below the difference or above the sum there is
    /// nothing. Otherwise the two points lie at the radius of `self` from
    /// its centre, at the angle to both sides of the line of centres whose
    /// cosine is `(r1^2 + d^2 - r2^2) / (2 r1 d)`. Centres no further apart
    /// than `EPS` give no direction.
    pub open spec fn cut_round(self, rd: Round2) -> Result<Option<(Vec2, Vec2)>, GeometryError> {
        let v = rd.o.sub(self.o);
        let d = v.dis();
        if self.o.approx_eq(rd.o) {
            Ok(None)
        } else if near(d, abs_int(self.r - rd.r)) {
            if d <= EPS {
                Err(GeometryError::ZeroVector)
            } else if self.r > rd.r {
                let t = self.o.add(v.resize(self.r));
                Ok(Some((t, t)))
            } else {
                let t = rd.o.add(v.neg().resize(rd.r));
                Ok(Some((t, t)))
            }
        } else if near(d, self.r + rd.r) {
            if d <= EPS {
                Err(GeometryError::ZeroVector)
            } else {
                let t = self.o.add(v.resize(self.r));
                Ok(Some((t, t)))
            }
        } else if d < abs_int(self.r - rd.r) || d > self.r + rd.r {
            Ok(None)
        } else if d <= EPS {
            Err(GeometryError::ZeroVector)
        } else {
            let along = tdiv(self.r * self.r + d * d - rd.r * rd.r, 2 * d);
            Ok(
                Some(
                    (
                        self.o.add(v.aim(self.r, along, true)),
                        self.o.add(v.aim(self.r, along, false)),
                    ),
                ),
            )
        }
    }

    /// Where the tangents from `p` touch the circle. A point at a distance
    /// from the centre within `EPS` of the radius is its own point of
    /// contact, given twice. From a point nearer to the centre there is no
    /// tangent. Otherwise the two points lie at the radius from the centre,
    /// at the angle to both sides of the direction of `p` whose cosine is
    /// `r / d`.
    pub open spec fn touch_from(self, p: Vec2) -> Result<Option<(Vec2, Vec2)>, GeometryError> {
        let v = p.sub(self.o);
        let d = v.dis();
        if near(d, self.r) {
            Ok(Some((p, p)))
        } else if d < self.r {
            Ok(None)
        } else if d <= EPS {
            Err(GeometryError::ZeroVector)
        } else {
            let along = tdiv(self.r * self.r, d);
            Ok(
                Some(
                    (
                        self.o.add(v.aim(self.r, along, true)),
                        self.o.add(v.aim(self.r, along, false)),
                    ),
                ),
            )
        }
    }

    /// The two common tangents that do not pass between the circles, each
    /// from its point on `self` to its point on `rd`. There are none where
    /// the centres are nearer than the difference of the radii and `EPS`.
    /// The points of contact lie at the angle from the direction of the
    /// other centre whose cosine is `(r1 - r2) / d`, the same on both
    /// circles.
    pub open spec fn outer_tangents(self, rd: Round2) -> Result<
        Option<(Line2, Line2)>,
        GeometryError,
    > {
        let v = rd.o.sub(self.o);
        let d = v.dis();
        if d < abs_int(self.r - rd.r) + EPS {
            Ok(None)
        } else if d <= EPS {
            Err(GeometryError::ZeroVector)
        } else {
            let a1 = tdiv(self.r * (self.r - rd.r), d);
            let a2 = tdiv(rd.r * (self.r - rd.r), d);
            Ok(
                Some(
                    (
                        Line2 {
                            a: self.o.add(v.aim(self.r, a1, true)),
                            b: rd.o.add(v.aim(rd.r, a2, true)),
                        },
                        Line2 {
                            a: self.o.add(v.aim(self.r, a1, false)),
                            b: rd.o.add(v.aim(rd.r, a2, false)),
                        },
                    ),
                ),
            )
        }
    }

    /// The two common tangents that pass between the circles, each from its
    /// point on `self` to its point on `rd`. There are none where the
    /// centres are nearer than the sum of the radii and `EPS`. The points of
    /// contact lie at the angle whose cosine is `(r1 + r2) / d`: on `self`
    /// from the direction of the other centre, on `rd` from the opposite
    /// direction.
    pub open spec fn inner_tangents(self, rd: Round2) -> Result<
        Option<(Line2, Line2)>,
        GeometryError,
    > {
        let v = rd.o.sub(self.o);
        let d = v.dis();
        if d < self.r + rd.r + EPS {
            Ok(None)
        } else if d <= EPS {
            Err(GeometryError::ZeroVector)
        } else {
            let a1 = tdiv(self.r * (self.r + rd.r), d);
            let a2 = tdiv(rd.r * (self.r + rd.r), d);
            Ok(
                Some(
                    (
                        Line2 {
                            a: self.o.add(v.aim(self.r, a1, true)),
                            b: rd.o.add(v.neg().aim(rd.r, a2, true)),
                        },
                        Line2 {
                            a: self.o.add(v.aim(self.r, a1, false)),
                            b: rd.o.add(v.neg().aim(rd.r, a2, false)),
                        },
                    ),
                ),
            )
        }
    }
}

/// A circle: centre and radius.
#[derive(Debug, Clone, Copy)]
pub struct Round {
    pub o: Point,
    pub r: i64,
}

impl View for Round {
    type V = Round2;

    open spec fn view(&self) -> Round2 {
        Round2 { o: self.o@, r: self.r as int }
    }
}

/// A vector and its opposite have the same length.
pub proof fn lemma_neg_dis(v: Vec2)
    ensures
        v.neg().dis() == v.dis(),
{
    assert((-v.x) * (-v.x) + (-v.y) * (-v.y) == v.x * v.x + v.y * v.y) by (nonlinear_arith);
}

/// A product with a factor that is no larger than `d`, divided by `d`, is no
/// larger than the other factor.
proof fn lemma_share_bound(r: int, k: int, d: int)
    requires
        0 <= r,
        abs_int(k) <= d,
        d > 0,
    ensures
        abs_int(tdiv(r * k, d)) <= r,
{
    lemma_product_bound(r, k, r, d);
    lemma_tdiv_le(r * k, d, r);
}

impl Round {
    /// The centre is in range and the radius is between zero and `LIMIT`.
    pub open spec fn in_range(self) -> bool {
        self.o.in_range() && 0 <= self.r <= LIMIT
    }

    pub fn new(o: Point, r: i64) -> (c: Round)
        ensures
            c.o == o,
            c.r == r,
    {
        Round { o, r }
    }

    /// Decides `in_range`.
    pub fn check_range(&self) -> (b: bool)
        ensures
            b == self.in_range(),
    {
        self.o.check_range() && 0 <= self.r && self.r <= LIMIT
    }

    /// The points where the circle meets the infinite line.
    pub fn inter_line(&self, l: Line) -> (r: Result<Option<(Point, Point)>, GeometryError>)
        requires
            self.in_range(),
            l.in_range(),
        ensures
            points_view(r) == self@.cut_line(l@),
    {
        let foot: Point = match l.proj(self.o) {
            Ok(f) => f,
            Err(e) => {
                return Err(e);
            },
        };
        let w: Point = self.o.sub(foot);
        let gap: i64 = w.dis();
        if eq_f64(gap, self.r) {
            return Ok(Some((foot, foot)));
        }
        if gap > self.r {
            return Ok(None);
        }
        proof {
            lemma_product_bound(gap as int, gap as int, self.r as int, self.r as int);
            lemma_product_bound(self.r as int, self.r as int, 500_000_000_000, 500_000_000_000);
            assert(gap * gap >= 0) by (nonlinear_arith);
        }
        let rest: i128 = (self.r as i128) * (self.r as i128) - (gap as i128) * (gap as i128);
        let half: u64 = isqrt(rest as u128);
        proof {
            assert(half <= self.r) by (nonlinear_arith)
                requires
                    half * half <= rest,
                    rest <= self.r * self.r,
                    0 <= self.r,
                    0 <= half,
            ;
        }
        let v: Point = l.vec();
        match v.resize(half as i64) {
            Ok(off) => {
                proof {
                    lemma_dis_bounds(v@);
                    lemma_share_bound(half as int, v.x as int, v@.dis());
                    lemma_share_bound(half as int, v.y as int, v@.dis());
                    assert(v.x * (half as int) == (half as int) * v.x) by (nonlinear_arith);
                    assert(v.y * (half as int) == (half as int) * v.y) by (nonlinear_arith);
                }
                Ok(Some((foot.add(off), foot.sub(off))))
            },
            Err(e) => Err(e),
        }
    }
}

/// The point at the distance `len` from `from` in the direction of `v`.
fn point_towards(from: Point, v: Point, len: i64) -> (r: Result<Point, GeometryError>)
    requires
        from.in_range(),
        v.in_span(),
        0 <= len <= LIMIT,
    ensures
        v@.dis() <= EPS ==> r == Err::<Point, GeometryError>(GeometryError::ZeroVector),
        v@.dis() > EPS ==> r is Ok && r->Ok_0@ == from@.add(v@.resize(len as int)),
{
    match v.resize(len) {
        Ok(off) => {
            proof {
                lemma_dis_bounds(v@);
                lemma_share_bound(len as int, v.x as int, v@.dis());
                lemma_share_bound(len as int, v.y as int, v@.dis());
                assert(v.x * (len as int) == (len as int) * v.x) by (nonlinear_arith);
                assert(v.y * (len as int) == (len as int) * v.y) by (nonlinear_arith);
            }
            Ok(from.add(off))
        },
        Err(e) => Err(e),
    }
}

/// The two points at the distance `r` from `from`, at the angle to both
/// sides of `v` whose cosine is `along / r`.
fn points_aside(from: Point, v: Point, r: i64, along: i64) -> (pair: (Point, Point))
    requires
        from.in_range(),
        v.in_span(),
        0 <= r <= LIMIT,
        -r <= along <= r,
        v@.dis() > 0,
    ensures
        pair.0@ == from@.add(v@.aim(r as int, along as int, true)),
        pair.1@ == from@.add(v@.aim(r as int, along as int, false)),
{
    let left: Point = v.aim(r, along, true);
    let right: Point = v.aim(r, along, false);
    (from.add(left), from.add(right))
}

impl Round {
    /// The points where the circle meets the circle `rd`.
    pub fn inter_round(&self, rd: Round) -> (r: Result<Option<(Point, Point)>, GeometryError>)
        requires
            self.in_range(),
            rd.in_range(),
        ensures
            points_view(r) == self@.cut_round(rd@),
    {
        if self.o.eq(&rd.o) {
            return Ok(None);
        }
        let v: Point = rd.o.sub(self.o);
        let d: i64 = v.dis();
        let diff: i64 = if self.r > rd.r { self.r - rd.r } else { rd.r - self.r };
        let sum: i64 = self.r + rd.r;
        if eq_f64(d, diff) {
            if self.r > rd.r {
                return match point_towards(self.o, v, self.r) {
                    Ok(t) => Ok(Some((t, t))),
                    Err(e) => Err(e),
                };
            } else {
                proof {
                    lemma_neg_dis(v@);
                }
                return match point_towards(rd.o, v.neg(), rd.r) {
                    Ok(t) => Ok(Some((t, t))),
                    Err(e) => Err(e),
                };
            }
        }
        if eq_f64(d, sum) {
            return match point_towards(self.o, v, self.r) {
                Ok(t) => Ok(Some((t, t))),
                Err(e) => Err(e),
            };
        }
        if d < diff || d > sum {
            return Ok(None);
        }
        if d <= EPS {
            return Err(GeometryError::ZeroVector);
        }
        proof {
            lemma_product_bound(self.r as int, self.r as int, 500_000_000_000, 500_000_000_000);
            lemma_product_bound(rd.r as int, rd.r as int, 500_000_000_000, 500_000_000_000);
            lemma_product_bound(d as int, d as int, 1_000_000_000_000, 1_000_000_000_000);
            lemma_chord_foot(self.r as int, rd.r as int, d as int);
        }
        let top: i128 = (self.r as i128) * (self.r as i128) + (d as i128) * (d as i128) - (
        rd.r as i128) * (rd.r as i128);
        let along: i128 = div_trunc(top, 2 * (d as i128));
        Ok(Some(points_aside(self.o, v, self.r, along as i64)))
    }

    /// The points where the tangents from `p` touch the circle.
    pub fn tangent_point(&self, p: Point) -> (r: Result<Option<(Point, Point)>, GeometryError>)
        requires
            self.in_range(),
            p.in_range(),
        ensures
            points_view(r) == self@.touch_from(p@),
    {
        let v: Point = p.sub(self.o);
        let d: i64 = v.dis();
        if eq_f64(d, self.r) {
            return Ok(Some((p, p)));
        }
        if d < self.r {
            return Ok(None);
        }
        if d <= EPS {
            return Err(GeometryError::ZeroVector);
        }
        proof {
            lemma_product_bound(self.r as int, self.r as int, 500_000_000_000, 500_000_000_000);
            lemma_share_bound(self.r as int, self.r as int, d as int);
        }
        let along: i128 = div_trunc((self.r as i128) * (self.r as i128), d as i128);
        Ok(Some(points_aside(self.o, v, self.r, along as i64)))
    }

    /// The two common tangents that do not pass between the circles.
    pub fn tangent_round_exterior(&self, rd: Round) -> (r: Result<
        Option<(Line, Line)>,
        GeometryError,
    >)
        requires
            self.in_range(),
            rd.in_range(),
        ensures
            lines_view(r) == self@.outer_tangents(rd@),
    {
        let v: Point = rd.o.sub(self.o);
        let d: i64 = v.dis();
        let diff: i64 = self.r - rd.r;
        let gap: i64 = if diff < 0 { -diff } else { diff };
        if d < gap + EPS {
            return Ok(None);
        }
        if d <= EPS {
            return Err(GeometryError::ZeroVector);
        }
        proof {
            lemma_product_bound(self.r as int, diff as int, 500_000_000_000, 500_000_000_000);
            lemma_product_bound(rd.r as int, diff as int, 500_000_000_000, 500_000_000_000);
            lemma_share_bound(self.r as int, diff as int, d as int);
            lemma_share_bound(rd.r as int, diff as int, d as int);
        }
        let a1: i128 = div_trunc((self.r as i128) * (diff as i128), d as i128);
        let a2: i128 = div_trunc((rd.r as i128) * (diff as i128), d as i128);
        let here: (Point, Point) = points_aside(self.o, v, self.r, a1 as i64);
        let there: (Point, Point) = points_aside(rd.o, v, rd.r, a2 as i64);
        Ok(Some((Line::new(here.0, there.0), Line::new(here.1, there.1))))
    }

    /// The two common tangents that pass between the circles.
    pub fn tangent_round_interior(&self, rd: Round) -> (r: Result<
        Option<(Line, Line)>,
        GeometryError,
    >)
        requires
            self.in_range(),
            rd.in_range(),
        ensures
            lines_view(r) == self@.inner_tangents(rd@),
    {
        let v: Point = rd.o.sub(self.o);
        let d: i64 = v.dis();
        let sum: i64 = self.r + rd.r;
        if d < sum + EPS {
            return Ok(None);
        }
        if d <= EPS {
            return Err(GeometryError::ZeroVector);
        }
        proof {
            lemma_product_bound(self.r as int, sum as int, 500_000_000_000, 1_000_000_000_000);
            lemma_product_bound(rd.r as int, sum as int, 500_000_000_000, 1_000_000_000_000);
            lemma_share_bound(self.r as int, sum as int, d as int);
            lemma_share_bound(rd.r as int, sum as int, d as int);
            lemma_neg_dis(v@);
        }
        let a1: i128 = div_trunc((self.r as i128) * (sum as i128), d as i128);
        let a2: i128 = div_trunc((rd.r as i128) * (sum as i128), d as i128);
        let here: (Point, Point) = points_aside(self.o, v, self.r, a1 as i64);
        let there: (Point, Point) = points_aside(rd.o, v.neg(), rd.r, a2 as i64);
        Ok(Some((Line::new(here.0, there.0), Line::new(here.1, there.1))))
    }
}

/// Where two circles cross, the foot of their common chord lies no further
/// from the first centre than its radius.
proof fn lemma_chord_foot(r1: int, r2: int, d: int)
    requires
        0 <= r1,
        0 <= r2,
        d > 0,
        abs_int(r1 - r2) <= d <= r1 + r2,
    ensures
        abs_int(tdiv(r1 * r1 + d * d - r2 * r2, 2 * d)) <= r1,
{
    let top = r1 * r1 + d * d - r2 * r2;
    assert(top <= r1 * (2 * d)) by (nonlinear_arith)
        requires
            top == r1 * r1 + d * d - r2 * r2,
            d - r1 <= r2,
            r1 - d <= r2,
            0 <= r2,
    ;
    assert(-top <= r1 * (2 * d)) by (nonlinear_arith)
        requires
            top == r1 * r1 + d * d - r2 * r2,
            r2 <= d + r1,
            0 <= r2,
            0 <= d + r1,
    ;
    lemma_tdiv_le(top, 2 * d, r1);
}

/// The sum of the three sides of a triangle.
pub open spec fn perimeter(a: Vec2, b: Vec2, c: Vec2) -> int {
    b.sub(c).dis() + a.sub(c).dis() + a.sub(b).dis()
}

/// The centre of the inscribed circle: the corners weighted each by the
/// length of the side opposite to it. Of three equal points it is the first.
pub open spec fn incentre_of(a: Vec2, b: Vec2, c: Vec2) -> Vec2 {
    if a.approx_eq(b) && b.approx_eq(c) {
        a
    } else {
        let la = b.sub(c).dis();
        let lb = a.sub(c).dis();
        let lc = a.sub(b).dis();
        Vec2 {
            x: tdiv(a.x * la + b.x * lb + c.x * lc, la + lb + lc),
            y: tdiv(a.y * la + b.y * lb + c.y * lc, la + lb + lc),
        }
    }
}

/// The three points lie on one line, as far as the tolerance tells: the
/// cross product of two sides is within `EPS` of zero.
pub open spec fn flat(a: Vec2, b: Vec2, c: Vec2) -> bool {
    near(b.sub(a).cross(c.sub(a)), 0)
}

/// The centre of the circle through the three points, from the two
/// perpendicular bisectors `v1 . p = c1` and `v2 . p = c2`, with the doubled
/// sides `v1 = 2 (b - a)` and `v2 = 2 (c - b)`.
pub open spec fn circum_of(a: Vec2, b: Vec2, c: Vec2) -> Vec2 {
    let v1 = Vec2 { x: 2 * (b.x - a.x), y: 2 * (b.y - a.y) };
    let v2 = Vec2 { x: 2 * (c.x - b.x), y: 2 * (c.y - b.y) };
    let c1 = b.dot_raw(b) - a.dot_raw(a);
    let c2 = c.dot_raw(c) - b.dot_raw(b);
    let den = v1.cross_raw(v2);
    Vec2 { x: tdiv(c1 * v2.y - c2 * v1.y, den), y: tdiv(c2 * v1.x - c1 * v2.x, den) }
}

/// Unless all three points are equal, the sides of the triangle add up to
/// more than `EPS`: the weights of the incentre never have a sum that could
/// not divide.
pub proof fn lemma_perimeter_positive(a: Vec2, b: Vec2, c: Vec2)
    requires
        !(a.approx_eq(b) && b.approx_eq(c)),
    ensures
        perimeter(a, b, c) > EPS,
{
    lemma_dis_bounds(b.sub(c));
    lemma_dis_bounds(a.sub(c));
    lemma_dis_bounds(a.sub(b));
}

/// The doubled sides of a triangle that is not flat have a cross product
/// that is not zero.
pub proof fn lemma_bisectors_cross(a: Vec2, b: Vec2, c: Vec2)
    requires
        !flat(a, b, c),
    ensures
        (2 * (b.x - a.x)) * (2 * (c.y - b.y)) - (2 * (b.y - a.y)) * (2 * (c.x - b.x)) != 0,
{
    let raw = b.sub(a).cross_raw(c.sub(a));
    assert((2 * (b.x - a.x)) * (2 * (c.y - b.y)) - (2 * (b.y - a.y)) * (2 * (c.x - b.x)) == 4 * ((b.x
        - a.x) * (c.y - a.y) - (b.y - a.y) * (c.x - a.x))) by (nonlinear_arith);
    if raw == 0 {
        assert(tdiv(0, SCALE as int) == 0);
    }
}

/// The centre of the circle inscribed in the triangle.
pub fn incentre(a: Point, b: Point, c: Point) -> (r: Point)
    requires
        a.in_range(),
        b.in_range(),
        c.in_range(),
    ensures
        r@ == incentre_of(a@, b@, c@),
        r.in_range(),
{
    if a.eq(&b) && b.eq(&c) {
        return a;
    }
    let la: i64 = b.sub(c).dis();
    let lb: i64 = a.sub(c).dis();
    let lc: i64 = a.sub(b).dis();
    proof {
        lemma_perimeter_positive(a@, b@, c@);
    }
    Point { x: weigh(a.x, b.x, c.x, la, lb, lc), y: weigh(a.y, b.y, c.y, la, lb, lc) }
}

/// The mean of three coordinates with the weights `la`, `lb` and `lc`.
fn weigh(xa: i64, xb: i64, xc: i64, la: i64, lb: i64, lc: i64) -> (r: i64)
    requires
        -LIMIT <= xa <= LIMIT,
        -LIMIT <= xb <= LIMIT,
        -LIMIT <= xc <= LIMIT,
        0 <= la <= 8 * LIMIT,
        0 <= lb <= 8 * LIMIT,
        0 <= lc <= 8 * LIMIT,
        la + lb + lc > 0,
    ensures
        r == tdiv(xa * la + xb * lb + xc * lc, la + lb + lc),
        -LIMIT <= r <= LIMIT,
{
    let sum: i128 = la as i128 + lb as i128 + lc as i128;
    proof {
        lemma_product_bound(xa as int, la as int, 500_000_000_000, 4_000_000_000_000);
        lemma_product_bound(xb as int, lb as int, 500_000_000_000, 4_000_000_000_000);
        lemma_product_bound(xc as int, lc as int, 500_000_000_000, 4_000_000_000_000);
    }
    let ta: i128 = (xa as i128) * (la as i128);
    let tb: i128 = (xb as i128) * (lb as i128);
    let tc: i128 = (xc as i128) * (lc as i128);
    proof {
        lemma_product_bound(xa as int, la as int, 500_000_000_000, la as int);
        lemma_product_bound(xb as int, lb as int, 500_000_000_000, lb as int);
        lemma_product_bound(xc as int, lc as int, 500_000_000_000, lc as int);
        lemma_tdiv_le(ta + tb + tc, sum as int, 500_000_000_000);
    }
    div_trunc(ta + tb + tc, sum) as i64
}

/// The centre of the circle through the three points. `Ok(None)` where the
/// points lie on one line; an error where the centre has a coordinate that
/// no `i64` holds.
pub fn circum(a: Point, b: Point, c: Point) -> (r: Result<Option<Point>, GeometryError>)
    requires
        a.in_range(),
        b.in_range(),
        c.in_range(),
    ensures
        match r {
            Ok(None) => flat(a@, b@, c@),
            Ok(Some(p)) => !flat(a@, b@, c@) && p@ == circum_of(a@, b@, c@),
            Err(e) => !flat(a@, b@, c@) && e == GeometryError::OutOfRange && !representable(
                circum_of(a@, b@, c@),
            ),
        },
{
    if eq_f64(b.sub(a).cross(c.sub(a)), 0) {
        return Ok(None);
    }
    let v1x: i128 = 2 * (b.x as i128 - a.x as i128);
    let v1y: i128 = 2 * (b.y as i128 - a.y as i128);
    let v2x: i128 = 2 * (c.x as i128 - b.x as i128);
    let v2y: i128 = 2 * (c.y as i128 - b.y as i128);
    let na: i128 = a.dot_raw(a);
    let nb: i128 = b.dot_raw(b);
    let nc: i128 = c.dot_raw(c);
    proof {
        lemma_bisectors_cross(a@, b@, c@);
        lemma_square_sum(a@);
        lemma_square_sum(b@);
        lemma_square_sum(c@);
        lemma_product_bound(v1x as int, v2y as int, 2_000_000_000_000, 2_000_000_000_000);
        lemma_product_bound(v1y as int, v2x as int, 2_000_000_000_000, 2_000_000_000_000);
        lemma_product_bound(nb - na, v2y as int, 500_000_000_000_000_000_000_000, 2_000_000_000_000);
        lemma_product_bound(nc - nb, v1y as int, 500_000_000_000_000_000_000_000, 2_000_000_000_000);
        lemma_product_bound(nc - nb, v1x as int, 500_000_000_000_000_000_000_000, 2_000_000_000_000);
        lemma_product_bound(nb - na, v2x as int, 500_000_000_000_000_000_000_000, 2_000_000_000_000);
    }
    let c1: i128 = nb - na;
    let c2: i128 = nc - nb;
    let den: i128 = v1x * v2y - v1y * v2x;
    let x: i128 = div_trunc(c1 * v2y - c2 * v1y, den);
    let y: i128 = div_trunc(c2 * v1x - c1 * v2x, den);
    if x < i64::MIN as i128 || x > i64::MAX as i128 || y < i64::MIN as i128 || y > i64::MAX as i128 {
        return Err(GeometryError::OutOfRange);
    }
    Ok(Some(Point { x: x as i64, y: y as i64 }))
}

/// The squared length of a point in range is between zero and twice the
/// square of `LIMIT`.
proof fn lemma_square_sum(p: Vec2)
    requires
        p.bounded(500_000_000_000),
    ensures
        0 <= p.dot_raw(p) <= 500_000_000_000_000_000_000_000,
{
    lemma_product_bound(p.x, p.x, 500_000_000_000, 500_000_000_000);
    lemma_product_bound(p.y, p.y, 500_000_000_000, 500_000_000_000);
    assert(p.x * p.x >= 0 && p.y * p.y >= 0) by (nonlinear_arith);
}

} // verus!
