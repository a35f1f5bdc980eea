use rust_geometry::line::Line;
use rust_geometry::point::Point;
use rust_geometry::{eq_f64, GeometryError, EPS, LIMIT, SCALE};

fn lfx(v: f64) -> i64 {
    (v * SCALE as f64).round() as i64
}

fn lpt(x: f64, y: f64) -> Point {
    Point::new(lfx(x), lfx(y))
}

#[test]
fn line_copy_type_test() {
    let la = Line::new(lpt(0.0, 0.0), lpt(1.0, 1.0));
    let lb = la;

    assert!(la.a.eq(&lb.a));
    assert!(la.b.eq(&lb.b));
}

#[test]
fn line_dis_test() {
    let l = Line::new(lpt(0.0, 0.0), lpt(1.0, 1.0));
    let d = l.len();

    assert!(eq_f64(d, lfx(2.0_f64.sqrt())));
    assert_eq!(d, 1_414_213);
    assert_eq!(l.sqrlen(), 2_000_000);
}

#[test]
fn projection_of_the_documented_point() {
    let l = Line::new(lpt(0.0, 0.0), lpt(1.0, 1.0));
    let p = lpt(1.0, 0.0);
    let proj = l.proj(p).unwrap();
    assert!(proj.eq(&lpt(0.5, 0.5)));
    assert_eq!((proj.x, proj.y), (500_000, 500_000));
}

#[test]
fn crossing_lines_meet_in_the_middle() {
    let la = Line::new(lpt(0.0, 0.0), lpt(1.0, 1.0));
    let lb = Line::new(lpt(1.0, 0.0), lpt(0.0, 1.0));
    let p = la.inter(lb).unwrap().unwrap();
    assert!(p.eq(&lpt(0.5, 0.5)));
    assert_eq!((p.x, p.y), (500_000, 500_000));
}

#[test]
fn parallel_lines_do_not_meet() {
    let la = Line::new(lpt(0.0, 0.0), lpt(0.0, 1.0));
    let lb = Line::new(lpt(1.0, 0.0), lpt(1.0, 1.0));
    assert!(matches!(la.inter(lb), Ok(None)));
    assert!(matches!(la.inter(la), Ok(None)));
}

#[test]
fn vec_points_from_the_first_endpoint_to_the_second() {
    let l = Line::new(lpt(1.0, 2.0), lpt(-3.0, 5.0));
    let v = l.vec();
    assert_eq!((v.x, v.y), (-4_000_000, 3_000_000));
    assert_eq!(l.len(), 5_000_000);
    assert_eq!(l.sqrlen(), 25_000_000);
}

#[test]
fn validity_begins_above_the_tolerance() {
    let o = Point::new(0, 0);
    assert!(!Line::new(o, o).valid());
    assert!(!Line::new(o, Point::new(EPS, 0)).valid());
    assert!(Line::new(o, Point::new(EPS + 1, 0)).valid());
    assert!(!Line::new(o, Point::new(700, 700)).valid());
    assert!(Line::new(o, Point::new(800, 800)).valid());
}

#[test]
fn degenerate_lines_are_refused() {
    let o = Point::new(0, 0);
    let bad = Line::new(o, Point::new(EPS, 0));
    let good = Line::new(o, lpt(1.0, 1.0));
    assert_eq!(bad.proj(lpt(3.0, 4.0)).err(), Some(GeometryError::DegenerateLine));
    assert_eq!(bad.inter(good).err(), Some(GeometryError::DegenerateLine));
    assert_eq!(good.inter(bad).err(), Some(GeometryError::DegenerateLine));
}

#[test]
fn projection_rounds_once() {
    let l = Line::new(Point::new(0, 0), Point::new(3, 4_000_000));
    let p = Point::new(1_000_000, 1_000_000);
    let f = l.proj(p).unwrap();
    assert_eq!((f.x, f.y), (0, 1_000_000));
    let m = Line::new(Point::new(-LIMIT, -LIMIT), Point::new(LIMIT, LIMIT));
    let g = m.proj(Point::new(LIMIT, -LIMIT)).unwrap();
    assert_eq!((g.x, g.y), (0, 0));
    let h = m.proj(Point::new(-LIMIT, LIMIT - 2)).unwrap();
    assert_eq!((h.x, h.y), (-1, -1));
}

#[test]
fn a_far_meeting_point_is_out_of_range() {
    let la = Line::new(Point::new(-LIMIT, 0), Point::new(LIMIT, 0));
    let lb = Line::new(Point::new(-LIMIT, -LIMIT), Point::new(LIMIT, -LIMIT + 2_000));
    assert_eq!(la.inter(lb).err(), Some(GeometryError::OutOfRange));
    let lc = Line::new(Point::new(-LIMIT, -1_000_000), Point::new(LIMIT, 1_000_000));
    let p = la.inter(lc).unwrap().unwrap();
    assert_eq!((p.x, p.y), (0, 0));
}

#[test]
fn line_range_check() {
    assert!(Line::new(Point::new(LIMIT, 0), Point::new(0, -LIMIT)).check_range());
    assert!(!Line::new(Point::new(LIMIT + 1, 0), Point::new(0, 0)).check_range());
}
