use rust_geometry::point::Point;
use rust_geometry::{eq_f64, GeometryError, EPS, LIMIT, SCALE};
use std::f64::consts::PI;

fn fx(v: f64) -> i64 {
    (v * SCALE as f64).round() as i64
}

fn pt(x: f64, y: f64) -> Point {
    Point::new(fx(x), fx(y))
}

fn same(a: Point, b: Point) -> bool {
    a.eq(&b)
}

#[test]
fn point_copy_type_test() {
    let p1 = pt(1.0, 2.0);
    let p2 = p1;
    assert!(eq_f64(p1.x, p2.x));
    assert!(eq_f64(p1.y, p2.y));
}

#[test]
fn ops_test() {
    let p1 = pt(1.0, 2.0);
    let p2 = pt(4.0, 6.0);
    let addp = p1.add(p2);
    let subp = p1.sub(p2);
    let negp = p1.neg();
    let p_mul_2 = p1.scale(fx(2.0));
    let mulp = p1.dot(p2);
    let p_div_2 = p1.div(fx(2.0));
    let cross = p1.cross(p2);
    assert!(same(addp, pt(5.0, 8.0)));
    assert!(same(subp, pt(-3.0, -4.0)));
    assert!(same(negp, pt(-1.0, -2.0)));
    assert!(same(p_mul_2, pt(2.0, 4.0)));
    assert!(eq_f64(mulp, fx(16.0)));
    assert!(same(p_div_2.unwrap(), pt(0.5, 1.0)));
    assert!(eq_f64(cross, fx(-2.0)));
}

#[test]
fn point_dis_test() {
    let p = pt(3.0, 4.0);
    let d = p.dis();
    let sqrd = p.sqrdis();
    assert!(eq_f64(d, fx(5.0)));
    assert!(eq_f64(sqrd, fx(25.0)));
}

#[test]
fn rot_test() {
    let p = pt(3.0, 4.0);
    let theta = PI / 2.0;
    let rotp = p.rot(fx(theta.cos()), fx(theta.sin()));
    assert!(same(rotp, pt(-4.0, 3.0)));
}

#[test]
fn rad_test() {
    let pa = pt(1.0, 0.0);
    let pb = pt(1.0, 3.0_f64.sqrt());
    let theta = PI / 3.0;
    let angle = (pa.cross(pb) as f64).atan2(pa.dot(pb) as f64);
    assert!(eq_f64(fx(angle), fx(theta)));
}

#[test]
fn dot_and_cross_of_the_documented_pair() {
    let a = pt(1.0, 2.0);
    let b = pt(3.0, 4.0);
    assert_eq!(a.dot(b), 11_000_000);
    assert_eq!(a.cross(b), -2_000_000);
    assert_eq!(a.dot_raw(b), 11_000_000_000_000);
    assert_eq!(a.cross_raw(b), -2_000_000_000_000);
}

#[test]
fn exact_results_on_the_grid() {
    let p = Point::new(3_000_000, -4_000_000);
    assert_eq!(p.dis(), 5_000_000);
    assert_eq!(p.sqrdis(), 25_000_000);
    let q = p.scale(1_500_000);
    assert_eq!((q.x, q.y), (4_500_000, -6_000_000));
    let h = p.div(-2_000_000).unwrap();
    assert_eq!((h.x, h.y), (-1_500_000, 2_000_000));
    let u = p.normalize().unwrap();
    assert_eq!((u.x, u.y), (600_000, -800_000));
    let w = p.resize(10_000_000).unwrap();
    assert_eq!((w.x, w.y), (6_000_000, -8_000_000));
}

#[test]
fn products_round_toward_zero() {
    let a = Point::new(1, 0);
    let b = Point::new(999_999, 0);
    assert_eq!(a.dot(b), 0);
    assert_eq!(a.neg().dot(b), 0);
    let c = Point::new(1_500_001, 0);
    let d = Point::new(1_000_000, 0);
    assert_eq!(c.dot(d), 1_500_001);
    assert_eq!(Point::new(7, 0).scale(-500_000).x, -3);
    let e = Point::new(7, -7).scale(500_000);
    assert_eq!((e.x, e.y), (3, -3));
    assert_eq!(Point::new(10, 0).dis(), 10);
    assert_eq!(Point::new(1, 1).dis(), 1);
    assert_eq!(Point::new(2, 2).dis(), 2);
}

#[test]
fn equality_is_reflexive_and_symmetric() {
    let p = pt(1.25, -7.5);
    let q = Point::new(p.x + EPS - 1, p.y - EPS + 1);
    let r = Point::new(p.x + EPS, p.y);
    assert!(p.eq(&p));
    assert!(p.eq(&q) && q.eq(&p));
    assert!(!p.eq(&r) && !r.eq(&p));
}

#[test]
fn equality_is_not_transitive() {
    let a = Point::new(0, 0);
    let b = Point::new(600, 0);
    let c = Point::new(1200, 0);
    assert!(a.eq(&b));
    assert!(b.eq(&c));
    assert!(!a.eq(&c));
    assert!(eq_f64(0, 600) && eq_f64(600, 1200) && !eq_f64(0, 1200));
}

#[test]
fn cross_is_antisymmetric_and_dot_symmetric() {
    let a = Point::new(1_234_567, -7_654_321);
    let b = Point::new(-42_000_001, 13);
    assert_eq!(a.cross(b), -b.cross(a));
    assert_eq!(a.cross_raw(b), -b.cross_raw(a));
    assert_eq!(a.dot(b), b.dot(a));
    assert_eq!(a.dot_raw(b), b.dot_raw(a));
}

#[test]
fn rotation_and_back_returns_within_tolerance() {
    let v = pt(3.0, 4.0);
    for k in 0..64 {
        let theta = (k as f64) * 0.1 - 3.0;
        let (c, s) = (fx(theta.cos()), fx(theta.sin()));
        let back = v.rot(c, s).rot(c, -s);
        assert!(back.eq(&v));
    }
    let exact = Point::new(123_456_789, -987_654_321).rot(600_000, 800_000).rot(600_000, -800_000);
    assert!(exact.eq(&Point::new(123_456_789, -987_654_321)));
}

#[test]
fn rotation_by_exact_cosine_and_sine() {
    let v = Point::new(5_000_000, 0);
    let r = v.rot(600_000, 800_000);
    assert_eq!((r.x, r.y), (3_000_000, 4_000_000));
    let t = v.turn(3, 4, 5);
    assert_eq!((t.x, t.y), (3_000_000, 4_000_000));
    let left = v.aim(10_000_000, 6_000_000, true);
    let right = v.aim(10_000_000, 6_000_000, false);
    assert_eq!((left.x, left.y), (6_000_000, 8_000_000));
    assert_eq!((right.x, right.y), (6_000_000, -8_000_000));
}

#[test]
fn short_vectors_and_small_divisors_fail() {
    let tiny = Point::new(EPS, 0);
    assert_eq!(tiny.normalize().err(), Some(GeometryError::ZeroVector));
    assert_eq!(tiny.resize(SCALE).err(), Some(GeometryError::ZeroVector));
    assert!(Point::new(EPS + 1, 0).normalize().is_ok());
    let p = pt(1.0, 1.0);
    assert_eq!(p.div(EPS).err(), Some(GeometryError::ZeroDivisor));
    assert_eq!(p.div(-EPS).err(), Some(GeometryError::ZeroDivisor));
    assert_eq!(p.div(0).err(), Some(GeometryError::ZeroDivisor));
    assert!(p.div(EPS + 1).is_ok());
}

#[test]
fn range_checks() {
    assert!(Point::new(LIMIT, -LIMIT).check_range());
    assert!(!Point::new(LIMIT + 1, 0).check_range());
    assert!(!Point::new(0, -LIMIT - 1).check_range());
    assert!(Point::new(2 * LIMIT, -2 * LIMIT).check_span());
    assert!(!Point::new(2 * LIMIT + 1, 0).check_span());
}

#[test]
fn largest_inputs_do_not_overflow() {
    let a = Point::new(2 * LIMIT, -2 * LIMIT);
    let b = Point::new(-2 * LIMIT, -2 * LIMIT);
    assert_eq!(a.cross_raw(b), -8 * (LIMIT as i128) * (LIMIT as i128));
    assert_eq!(a.cross(b), -2_000_000_000_000_000_000);
    assert_eq!(a.dot(b), 0);
    assert_eq!(a.sqrdis(), 2_000_000_000_000_000_000);
    assert_eq!(a.dis(), 1_414_213_562_373);
    let far = Point::new(8 * LIMIT, 8 * LIMIT);
    assert_eq!(far.dis(), 5_656_854_249_492);
    let s = a.scale(2 * LIMIT);
    assert_eq!((s.x, s.y), (1_000_000_000_000_000_000, -1_000_000_000_000_000_000));
}
