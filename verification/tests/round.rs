use rust_geometry::line::Line;
use rust_geometry::point::Point;
use rust_geometry::round::{circum, incentre, Round};
use rust_geometry::{eq_f64, GeometryError, EPS, LIMIT, SCALE};

fn rfx(v: f64) -> i64 {
    (v * SCALE as f64).round() as i64
}

fn rpt(x: f64, y: f64) -> Point {
    Point::new(rfx(x), rfx(y))
}

fn pair_is(got: &Result<Option<(Point, Point)>, GeometryError>, p: Point, q: Point) -> bool {
    match got {
        Ok(Some((a, b))) => a.eq(&p) && b.eq(&q),
        _ => false,
    }
}

fn dist_to_line(l: Line, o: Point) -> i64 {
    l.proj(o).unwrap().sub(o).dis()
}

fn side(l: Line, o: Point) -> bool {
    l.vec().cross(o.sub(l.a)) > 0
}

#[test]
fn inter_test() {
    let rd = Round::new(rpt(0.0, 1.0), rfx(2.0_f64.sqrt()));
    let rd2 = Round::new(rpt(0.0, -1.0), rfx(2.0_f64.sqrt()));

    let l = Line::new(rpt(0.0, 0.0), rpt(1.0, 0.0));

    let inter_pt = rd.inter_line(l);
    let inter_rd = rd.inter_round(rd2);

    let (e, w) = (rpt(1.0, 0.0), rpt(-1.0, 0.0));

    assert!(pair_is(&inter_pt, e, w) || pair_is(&inter_pt, w, e));
    assert!(pair_is(&inter_rd, e, w) || pair_is(&inter_rd, w, e));
}

#[test]
fn tangent_points_and_lines_test() {
    let rd1 = Round::new(rpt(15.0, 73.0), rfx(7.0));
    let rd2 = Round::new(rpt(40.0, 19.0), rfx(4.0));
    let pt = rpt(-54.0, 96.0);

    let tang_pt = rd1.tangent_point(pt).unwrap();

    match tang_pt {
        Some(p) => {
            assert!(eq_f64(pt.sub(p.0).dot(rd1.o.sub(p.0)), 0));
            assert!(eq_f64(pt.sub(p.1).dot(rd1.o.sub(p.1)), 0));
        }
        None => panic!("unexpected result"),
    }

    let tang_exterior = rd1.tangent_round_exterior(rd2).unwrap();

    match tang_exterior {
        Some(l) => {
            let d1 = dist_to_line(l.0, rd1.o);
            let d2 = dist_to_line(l.0, rd2.o);
            assert!(eq_f64(d1, rd1.r));
            assert!(eq_f64(d2, rd2.r));
            assert!(side(l.0, rd1.o) == side(l.0, rd2.o));
            let d1 = dist_to_line(l.1, rd1.o);
            let d2 = dist_to_line(l.1, rd2.o);
            assert!(eq_f64(d1, rd1.r));
            assert!(eq_f64(d2, rd2.r));
            assert!(side(l.1, rd1.o) == side(l.1, rd2.o));
        }
        None => panic!("unexpected result"),
    }

    let tang_interior = rd1.tangent_round_interior(rd2).unwrap();
    match tang_interior {
        Some(l) => {
            let d1 = dist_to_line(l.0, rd1.o);
            let d2 = dist_to_line(l.0, rd2.o);
            assert!(eq_f64(d1, rd1.r));
            assert!(eq_f64(d2, rd2.r));
            assert!(side(l.0, rd1.o) != side(l.0, rd2.o));
            let d1 = dist_to_line(l.1, rd1.o);
            let d2 = dist_to_line(l.1, rd2.o);
            assert!(eq_f64(d1, rd1.r));
            assert!(eq_f64(d2, rd2.r));
            assert!(side(l.1, rd1.o) != side(l.1, rd2.o));
        }
        None => panic!("unexpected result"),
    }
}

#[test]
fn circle_and_axis_meet_in_two_exact_points() {
    let rd = Round::new(Point::new(0, 3_000_000), 5_000_000);
    let l = Line::new(Point::new(-1_000_000, 0), Point::new(1_000_000, 0));
    let (p, q) = rd.inter_line(l).unwrap().unwrap();
    assert_eq!((p.x, p.y), (4_000_000, 0));
    assert_eq!((q.x, q.y), (-4_000_000, 0));
}

#[test]
fn tangent_line_gives_the_foot_twice() {
    let rd = Round::new(Point::new(0, 5_000_000), 5_000_000);
    let l = Line::new(Point::new(-1_000_000, 0), Point::new(1_000_000, 0));
    let (p, q) = rd.inter_line(l).unwrap().unwrap();
    assert_eq!((p.x, p.y, q.x, q.y), (0, 0, 0, 0));
    let nearly = Round::new(Point::new(0, 5_000_000 + EPS - 1), 5_000_000);
    let (p, q) = nearly.inter_line(l).unwrap().unwrap();
    assert_eq!((p.x, p.y, q.x, q.y), (0, 0, 0, 0));
}

#[test]
fn distant_line_misses_the_circle() {
    let rd = Round::new(Point::new(0, 5_000_000 + EPS), 5_000_000);
    let l = Line::new(Point::new(-1_000_000, 0), Point::new(1_000_000, 0));
    assert!(matches!(rd.inter_line(l), Ok(None)));
}

#[test]
fn degenerate_line_is_refused_by_the_circle() {
    let rd = Round::new(Point::new(0, 0), 5_000_000);
    let l = Line::new(Point::new(0, 0), Point::new(EPS, 0));
    assert_eq!(rd.inter_line(l).err(), Some(GeometryError::DegenerateLine));
}

#[test]
fn crossing_circles_meet_in_two_exact_points() {
    let a = Round::new(Point::new(0, 0), 5_000_000);
    let b = Round::new(Point::new(6_000_000, 0), 5_000_000);
    let (p, q) = a.inter_round(b).unwrap().unwrap();
    assert_eq!((p.x, p.y), (3_000_000, 4_000_000));
    assert_eq!((q.x, q.y), (3_000_000, -4_000_000));
    let up = Round::new(Point::new(0, 8_000_000), 5_000_000);
    let (p, q) = a.inter_round(up).unwrap().unwrap();
    assert_eq!((p.x, p.y), (-3_000_000, 4_000_000));
    assert_eq!((q.x, q.y), (3_000_000, 4_000_000));
}

#[test]
fn circles_that_touch_give_one_point_twice() {
    let a = Round::new(Point::new(0, 0), 5_000_000);
    let outside = Round::new(Point::new(7_000_000, 0), 2_000_000);
    let (p, q) = a.inter_round(outside).unwrap().unwrap();
    assert_eq!((p.x, p.y, q.x, q.y), (5_000_000, 0, 5_000_000, 0));
    let inside = Round::new(Point::new(0, -3_000_000), 2_000_000);
    let (p, q) = a.inter_round(inside).unwrap().unwrap();
    assert_eq!((p.x, p.y, q.x, q.y), (0, -5_000_000, 0, -5_000_000));
    let (p, q) = inside.inter_round(a).unwrap().unwrap();
    assert_eq!((p.x, p.y, q.x, q.y), (0, -5_000_000, 0, -5_000_000));
}

#[test]
fn circles_apart_nested_or_concentric_do_not_meet() {
    let a = Round::new(Point::new(0, 0), 5_000_000);
    assert!(matches!(a.inter_round(Round::new(Point::new(9_000_000, 0), 2_000_000)), Ok(None)));
    assert!(matches!(a.inter_round(Round::new(Point::new(1_000_000, 0), 2_000_000)), Ok(None)));
    assert!(matches!(a.inter_round(Round::new(Point::new(0, 0), 2_000_000)), Ok(None)));
    assert!(matches!(a.inter_round(a), Ok(None)));
    assert!(matches!(a.inter_round(Round::new(Point::new(EPS - 1, 1 - EPS), 5_000_000)), Ok(None)));
}

#[test]
fn centres_a_tolerance_apart_give_no_direction() {
    let a = Round::new(Point::new(0, 0), 5_000_000);
    let b = Round::new(Point::new(EPS, 0), 5_000_000);
    assert_eq!(a.inter_round(b).err(), Some(GeometryError::ZeroVector));
    assert_eq!(a.tangent_round_exterior(b).err(), Some(GeometryError::ZeroVector));
    let dot = Round::new(Point::new(0, 0), 0);
    assert_eq!(dot.tangent_point(Point::new(0, EPS)).err(), Some(GeometryError::ZeroVector));
    let other = Round::new(Point::new(EPS, 0), 0);
    assert_eq!(dot.tangent_round_interior(other).err(), Some(GeometryError::ZeroVector));
}

#[test]
fn tangent_points_from_an_exact_position() {
    let rd = Round::new(Point::new(0, 0), 3_000_000);
    let (p, q) = rd.tangent_point(Point::new(5_000_000, 0)).unwrap().unwrap();
    assert_eq!((p.x, p.y), (1_800_000, 2_400_000));
    assert_eq!((q.x, q.y), (1_800_000, -2_400_000));
}

#[test]
fn tangent_point_on_and_inside_the_circle() {
    let rd = Round::new(Point::new(0, 0), 3_000_000);
    let on = Point::new(0, 3_000_000 + EPS - 1);
    let (p, q) = rd.tangent_point(on).unwrap().unwrap();
    assert_eq!((p.x, p.y, q.x, q.y), (on.x, on.y, on.x, on.y));
    assert!(matches!(rd.tangent_point(Point::new(0, 3_000_000 - EPS)), Ok(None)));
    assert!(matches!(rd.tangent_point(Point::new(0, 0)), Ok(None)));
}

#[test]
fn outer_tangents_of_equal_circles_are_parallel_to_the_centres() {
    let a = Round::new(Point::new(0, 0), 2_000_000);
    let b = Round::new(Point::new(10_000_000, 0), 2_000_000);
    let (k, l) = a.tangent_round_exterior(b).unwrap().unwrap();
    assert_eq!((k.a.x, k.a.y, k.b.x, k.b.y), (0, 2_000_000, 10_000_000, 2_000_000));
    assert_eq!((l.a.x, l.a.y, l.b.x, l.b.y), (0, -2_000_000, 10_000_000, -2_000_000));
}

#[test]
fn inner_tangents_of_exact_circles() {
    let a = Round::new(Point::new(0, 0), 3_000_000);
    let b = Round::new(Point::new(10_000_000, 0), 3_000_000);
    let (k, l) = a.tangent_round_interior(b).unwrap().unwrap();
    assert_eq!((k.a.x, k.a.y, k.b.x, k.b.y), (1_800_000, 2_400_000, 8_200_000, -2_400_000));
    assert_eq!((l.a.x, l.a.y, l.b.x, l.b.y), (1_800_000, -2_400_000, 8_200_000, 2_400_000));
}

#[test]
fn tangents_that_do_not_exist() {
    let a = Round::new(Point::new(0, 0), 5_000_000);
    let nested = Round::new(Point::new(1_000_000, 0), 2_000_000);
    let touching_inside = Round::new(Point::new(3_000_000, 0), 2_000_000);
    assert!(matches!(a.tangent_round_exterior(nested), Ok(None)));
    assert!(matches!(a.tangent_round_exterior(touching_inside), Ok(None)));
    assert!(a.tangent_round_exterior(Round::new(Point::new(3_000_000 + EPS, 0), 2_000_000)).unwrap().is_some());
    let crossing = Round::new(Point::new(6_000_000, 0), 2_000_000);
    let touching_outside = Round::new(Point::new(7_000_000, 0), 2_000_000);
    assert!(matches!(a.tangent_round_interior(crossing), Ok(None)));
    assert!(matches!(a.tangent_round_interior(touching_outside), Ok(None)));
    assert!(matches!(a.tangent_round_interior(nested), Ok(None)));
    assert!(a.tangent_round_interior(Round::new(Point::new(7_000_000 + EPS, 0), 2_000_000)).unwrap().is_some());
}

#[test]
fn centres_of_the_documented_triangle() {
    let a = rpt(0.0, 0.0);
    let b = rpt(1.0, 0.0);
    let c = rpt(1.0, 1.0);
    let o = circum(a, b, c).unwrap().unwrap();
    assert!(o.eq(&rpt(0.5, 0.5)));
    assert_eq!((o.x, o.y), (500_000, 500_000));

    let i = incentre(a, b, c);
    let lena = dist_to_line(Line::new(b, c), i);
    let lenb = dist_to_line(Line::new(a, c), i);
    let lenc = dist_to_line(Line::new(a, b), i);
    assert!(eq_f64(lena, lenb));
    assert!(eq_f64(lenb, lenc));
}

#[test]
fn incentre_of_an_exact_triangle() {
    let i = incentre(Point::new(0, 0), Point::new(4_000_000, 0), Point::new(0, 3_000_000));
    assert_eq!((i.x, i.y), (1_000_000, 1_000_000));
}

#[test]
fn incentre_of_equal_points_is_the_first() {
    let a = Point::new(10, 20);
    let i = incentre(a, Point::new(10 + EPS - 1, 20), Point::new(10, 20 - EPS + 1));
    assert_eq!((i.x, i.y), (10, 20));
    let j = incentre(a, a, Point::new(10 + EPS, 20));
    assert_eq!((j.x, j.y), (10, 20));
    let k = incentre(Point::new(0, 0), Point::new(3 * EPS, 0), Point::new(0, 4 * EPS));
    assert_eq!((k.x, k.y), (EPS, EPS));
}

#[test]
fn circumcentre_of_points_on_a_line_is_none() {
    let a = rpt(0.0, 0.0);
    assert!(matches!(circum(a, rpt(1.0, 1.0), rpt(2.0, 2.0)), Ok(None)));
    assert!(matches!(circum(a, a, a), Ok(None)));
    assert!(matches!(circum(a, rpt(1.0, 0.0), Point::new(500_000, EPS - 1)), Ok(None)));
    assert!(circum(a, rpt(1.0, 0.0), Point::new(500_000, EPS)).unwrap().is_some());
}

#[test]
fn circumcentre_far_away_is_out_of_range() {
    let a = Point::new(-LIMIT, 0);
    let b = Point::new(0, 1);
    let c = Point::new(LIMIT, 0);
    assert_eq!(circum(a, b, c).err(), Some(GeometryError::OutOfRange));
    let d = Point::new(0, LIMIT);
    let o = circum(a, d, c).unwrap().unwrap();
    assert_eq!((o.x, o.y), (0, 0));
}

#[test]
fn round_range_check() {
    assert!(Round::new(Point::new(LIMIT, -LIMIT), LIMIT).check_range());
    assert!(Round::new(Point::new(0, 0), 0).check_range());
    assert!(!Round::new(Point::new(0, 0), -1).check_range());
    assert!(!Round::new(Point::new(0, 0), LIMIT + 1).check_range());
    assert!(!Round::new(Point::new(LIMIT + 1, 0), 1).check_range());
}

fn to_f(v: i64) -> f64 {
    v as f64 / SCALE as f64
}

fn turned(v: (f64, f64), theta: f64) -> (f64, f64) {
    (v.0 * theta.cos() - v.1 * theta.sin(), v.0 * theta.sin() + v.1 * theta.cos())
}

fn close(p: Point, x: f64, y: f64) -> bool {
    p.eq(&rpt(x, y))
}

fn circle_pairs() -> Vec<(Round, Round)> {
    let mut out = Vec::new();
    let mut seed: i64 = 2024;
    while out.len() < 200 {
        let mut next = || {
            seed = (seed * 1_103_515_245 + 12_345) % 2_147_483_648;
            (seed % 200_001 - 100_000) as f64 / 1_000.0
        };
        let a = Round::new(rpt(next(), next()), rfx(next().abs() + 0.5));
        let b = Round::new(rpt(next(), next()), rfx(next().abs() + 0.5));
        out.push((a, b));
    }
    out
}

#[test]
fn crossing_circles_agree_with_trigonometry() {
    let mut crossings = 0;
    for (a, b) in circle_pairs() {
        let (r1, r2) = (to_f(a.r), to_f(b.r));
        let v = (to_f(b.o.x - a.o.x), to_f(b.o.y - a.o.y));
        let d = (v.0 * v.0 + v.1 * v.1).sqrt();
        if d < (r1 - r2).abs() + 0.01 || d > r1 + r2 - 0.01 {
            continue;
        }
        crossings += 1;
        let theta = ((r1 * r1 + d * d - r2 * r2) / (2.0 * r1 * d)).acos();
        let u = (v.0 / d * r1, v.1 / d * r1);
        let (left, right) = (turned(u, theta), turned(u, -theta));
        let (p, q) = a.inter_round(b).unwrap().unwrap();
        assert!(close(p, to_f(a.o.x) + left.0, to_f(a.o.y) + left.1));
        assert!(close(q, to_f(a.o.x) + right.0, to_f(a.o.y) + right.1));
    }
    assert!(crossings > 5);
}

#[test]
fn tangent_points_agree_with_trigonometry() {
    let mut seen = 0;
    for (a, b) in circle_pairs() {
        let r = to_f(a.r);
        let v = (to_f(b.o.x - a.o.x), to_f(b.o.y - a.o.y));
        let d = (v.0 * v.0 + v.1 * v.1).sqrt();
        if d < r + 0.01 {
            continue;
        }
        seen += 1;
        let theta = (r / d).acos();
        let u = (v.0 / d * r, v.1 / d * r);
        let (left, right) = (turned(u, theta), turned(u, -theta));
        let (p, q) = a.tangent_point(b.o).unwrap().unwrap();
        assert!(close(p, to_f(a.o.x) + left.0, to_f(a.o.y) + left.1));
        assert!(close(q, to_f(a.o.x) + right.0, to_f(a.o.y) + right.1));
    }
    assert!(seen > 100);
}

#[test]
fn common_tangents_agree_with_trigonometry() {
    let (mut outer, mut inner) = (0, 0);
    for (a, b) in circle_pairs() {
        let (r1, r2) = (to_f(a.r), to_f(b.r));
        let (o1, o2) = ((to_f(a.o.x), to_f(a.o.y)), (to_f(b.o.x), to_f(b.o.y)));
        let v = (o2.0 - o1.0, o2.1 - o1.1);
        let d = (v.0 * v.0 + v.1 * v.1).sqrt();
        let alpha = (v.0 / d, v.1 / d);
        let beta = (-alpha.0, -alpha.1);
        if d > (r1 - r2).abs() + 0.01 {
            outer += 1;
            let theta = ((r1 - r2) / d).acos();
            let (k, l) = a.tangent_round_exterior(b).unwrap().unwrap();
            let (up, down) = (turned(alpha, theta), turned(alpha, -theta));
            assert!(close(k.a, o1.0 + up.0 * r1, o1.1 + up.1 * r1));
            assert!(close(k.b, o2.0 + up.0 * r2, o2.1 + up.1 * r2));
            assert!(close(l.a, o1.0 + down.0 * r1, o1.1 + down.1 * r1));
            assert!(close(l.b, o2.0 + down.0 * r2, o2.1 + down.1 * r2));
        }
        if d > r1 + r2 + 0.01 {
            inner += 1;
            let theta = ((r1 + r2) / d).acos();
            let (k, l) = a.tangent_round_interior(b).unwrap().unwrap();
            let (up, down) = (turned(alpha, theta), turned(alpha, -theta));
            let (back_up, back_down) = (turned(beta, theta), turned(beta, -theta));
            assert!(close(k.a, o1.0 + up.0 * r1, o1.1 + up.1 * r1));
            assert!(close(k.b, o2.0 + back_up.0 * r2, o2.1 + back_up.1 * r2));
            assert!(close(l.a, o1.0 + down.0 * r1, o1.1 + down.1 * r1));
            assert!(close(l.b, o2.0 + back_down.0 * r2, o2.1 + back_down.1 * r2));
        }
    }
    assert!(outer > 100 && inner > 20);
}

#[test]
fn circle_and_line_agree_with_the_square_root() {
    let mut cuts = 0;
    for (a, b) in circle_pairs() {
        let l = Line::new(b.o, Point::new(b.o.x + a.r, b.o.y - b.r));
        let r = to_f(a.r);
        let (ox, oy) = (to_f(a.o.x), to_f(a.o.y));
        let (ax, ay) = (to_f(l.a.x), to_f(l.a.y));
        let (vx, vy) = (to_f(l.b.x) - ax, to_f(l.b.y) - ay);
        let t = ((ox - ax) * vx + (oy - ay) * vy) / (vx * vx + vy * vy);
        let (fx, fy) = (ax + vx * t, ay + vy * t);
        let gap = ((ox - fx).powi(2) + (oy - fy).powi(2)).sqrt();
        if gap > r - 0.01 {
            continue;
        }
        cuts += 1;
        let half = (r * r - gap * gap).sqrt();
        let len = (vx * vx + vy * vy).sqrt();
        let (p, q) = a.inter_line(l).unwrap().unwrap();
        assert!(close(p, fx + vx / len * half, fy + vy / len * half));
        assert!(close(q, fx - vx / len * half, fy - vy / len * half));
    }
    assert!(cuts > 5);
}

#[test]
fn triangle_centres_agree_with_the_formulas() {
    for (a, b) in circle_pairs() {
        let c = Point::new(a.o.x + b.r, b.o.y - a.r);
        let (p, q, r) = (a.o, b.o, c);
        let (px, py, qx, qy, rx, ry) =
            (to_f(p.x), to_f(p.y), to_f(q.x), to_f(q.y), to_f(r.x), to_f(r.y));
        let la = ((qx - rx).powi(2) + (qy - ry).powi(2)).sqrt();
        let lb = ((px - rx).powi(2) + (py - ry).powi(2)).sqrt();
        let lc = ((px - qx).powi(2) + (py - qy).powi(2)).sqrt();
        let i = incentre(p, q, r);
        let sum = la + lb + lc;
        assert!(close(i, (px * la + qx * lb + rx * lc) / sum, (py * la + qy * lb + ry * lc) / sum));
        let area2 = (qx - px) * (ry - py) - (qy - py) * (rx - px);
        if area2.abs() < 1.0 {
            continue;
        }
        let o = circum(p, q, r).unwrap().unwrap();
        let (ox, oy) = (to_f(o.x), to_f(o.y));
        let (d1, d2, d3) = (
            ((ox - px).powi(2) + (oy - py).powi(2)).sqrt(),
            ((ox - qx).powi(2) + (oy - qy).powi(2)).sqrt(),
            ((ox - rx).powi(2) + (oy - ry).powi(2)).sqrt(),
        );
        assert!((d1 - d2).abs() < 1e-3 && (d2 - d3).abs() < 1e-3);
    }
}
