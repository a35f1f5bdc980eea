use rust_geometry::convex_hull::{points_in_range, precedes, sort_points, ConvexHull};
use rust_geometry::point::Point;
use rust_geometry::{EPS, LIMIT, SCALE};
use std::cmp::Ordering;

fn hfx(v: f64) -> i64 {
    (v * SCALE as f64).round() as i64
}

fn hpt(x: f64, y: f64) -> Point {
    Point::new(hfx(x), hfx(y))
}

fn same_points(a: &Vec<Point>, b: &Vec<Point>) -> bool {
    a.len() == b.len() && a.iter().zip(b.iter()).all(|(p, q)| p.eq(q))
}

fn coords(v: &Vec<Point>) -> Vec<(i64, i64)> {
    v.iter().map(|p| (p.x, p.y)).collect()
}

fn square_with_centre() -> Vec<Point> {
    vec![hpt(0.0, 0.0), hpt(1.0, 0.0), hpt(0.0, 1.0), hpt(1.0, 1.0), hpt(0.5, 0.5)]
}

#[test]
fn convex_hull_test() {
    let vec = square_with_centre();
    let convex_hull = ConvexHull::get_convex_hull(vec);
    let area = convex_hull.area();

    assert!(convex_hull.valid());
    assert!((area - SCALE as i128).abs() < EPS as i128);

    let pts = convex_hull.get_points();
    let stdans = vec![hpt(0.0, 0.0), hpt(1.0, 0.0), hpt(1.0, 1.0), hpt(0.0, 1.0)];
    assert!(same_points(&pts, &stdans));
}

#[test]
fn chains_of_the_square() {
    let convex_hull = ConvexHull::get_convex_hull(square_with_centre());
    let ans_u = vec![hpt(0.0, 0.0), hpt(0.0, 1.0), hpt(1.0, 1.0)];
    let ans_d = vec![hpt(0.0, 0.0), hpt(1.0, 0.0), hpt(1.0, 1.0)];
    assert!(same_points(&ans_u, &convex_hull.u_hull));
    assert!(same_points(&ans_d, &convex_hull.d_hull));
    assert_eq!(convex_hull.area(), 1_000_000);
}

#[test]
fn every_input_point_is_on_or_inside_the_hull() {
    let mut pts: Vec<Point> = Vec::new();
    let mut seed: i64 = 12345;
    for _ in 0..200 {
        seed = (seed * 1_103_515_245 + 12_345) % 2_147_483_648;
        let x = seed % 2_000 - 1_000;
        seed = (seed * 1_103_515_245 + 12_345) % 2_147_483_648;
        let y = seed % 2_000 - 1_000;
        pts.push(Point::new(x * 10_000_000, y * 10_000_000));
    }
    let hull = ConvexHull::get_convex_hull(pts.clone());
    assert!(hull.valid());
    for p in pts.iter() {
        for w in hull.u_hull.windows(2) {
            assert!(w[1].sub(w[0]).cross_raw(p.sub(w[0])) <= 0);
        }
        for w in hull.d_hull.windows(2) {
            assert!(w[1].sub(w[0]).cross_raw(p.sub(w[0])) >= 0);
        }
    }
}

#[test]
fn hull_of_two_points_is_the_segment() {
    let a = hpt(3.0, -1.0);
    let b = hpt(-2.0, 5.0);
    let hull = ConvexHull::get_convex_hull(vec![a, b]);
    assert_eq!(coords(&hull.u_hull), vec![(b.x, b.y), (a.x, a.y)]);
    assert_eq!(coords(&hull.d_hull), vec![(b.x, b.y), (a.x, a.y)]);
    assert!(hull.valid());
    assert_eq!(hull.area(), 0);
    assert_eq!(coords(&hull.get_points()), vec![(b.x, b.y), (a.x, a.y)]);
}

#[test]
fn hull_of_one_point_is_that_point() {
    let a = hpt(3.0, -1.0);
    let hull = ConvexHull::get_convex_hull(vec![a]);
    assert_eq!(coords(&hull.u_hull), vec![(a.x, a.y)]);
    assert_eq!(coords(&hull.d_hull), vec![(a.x, a.y)]);
    assert!(hull.valid());
    assert_eq!(hull.area(), 0);
    assert_eq!(coords(&hull.get_points()), vec![(a.x, a.y)]);
}

#[test]
fn hull_of_no_point_is_empty_and_not_valid() {
    let hull = ConvexHull::get_convex_hull(Vec::new());
    assert!(hull.u_hull.is_empty());
    assert!(hull.d_hull.is_empty());
    assert!(!hull.valid());
    assert_eq!(hull.area(), 0);
    assert!(hull.get_points().is_empty());
}

#[test]
fn points_on_a_line_leave_the_two_extremes() {
    let pts = vec![hpt(2.0, 2.0), hpt(0.0, 0.0), hpt(3.0, 3.0), hpt(1.0, 1.0), hpt(-1.0, -1.0)];
    let hull = ConvexHull::get_convex_hull(pts);
    let ends = vec![(-1_000_000, -1_000_000), (3_000_000, 3_000_000)];
    assert_eq!(coords(&hull.u_hull), ends);
    assert_eq!(coords(&hull.d_hull), ends);
    assert_eq!(hull.area(), 0);
    assert!(hull.valid());
    assert_eq!(coords(&hull.get_points()), ends);
}

#[test]
fn repeated_points_are_no_vertices() {
    let mut pts = square_with_centre();
    pts.extend(square_with_centre());
    pts.push(Point::new(1, SCALE - 1));
    pts.push(Point::new(SCALE + EPS - 1, 2));
    let hull = ConvexHull::get_convex_hull(pts);
    assert!(hull.valid());
    let boundary = hull.get_points();
    let stdans = vec![hpt(0.0, 0.0), hpt(1.0, 0.0), hpt(1.0, 1.0), hpt(0.0, 1.0)];
    assert!(same_points(&boundary, &stdans));
    assert!((hull.area() - SCALE as i128).abs() < EPS as i128);
}

#[test]
fn area_of_a_triangle_is_signed_by_the_chains() {
    let hull = ConvexHull::get_convex_hull(vec![hpt(0.0, 0.0), hpt(4.0, 0.0), hpt(0.0, 3.0)]);
    assert_eq!(coords(&hull.u_hull), vec![(0, 0), (0, 3_000_000), (4_000_000, 0)]);
    assert_eq!(coords(&hull.d_hull), vec![(0, 0), (4_000_000, 0)]);
    assert_eq!(hull.area(), 6_000_000);
    let turned = ConvexHull::new(hull.d_hull.clone(), hull.u_hull.clone());
    assert_eq!(turned.area(), -6_000_000);
    assert!(!turned.valid());
}

#[test]
fn valid_rejects_hulls_put_together_wrongly() {
    let a = hpt(0.0, 0.0);
    let b = hpt(1.0, 1.0);
    let c = hpt(2.0, 0.0);
    let low = hpt(1.0, -1.0);
    assert!(ConvexHull::new(vec![a, b, c], vec![a, low, c]).valid());
    assert!(!ConvexHull::new(vec![a, low, c], vec![a, low, c]).valid());
    assert!(!ConvexHull::new(vec![a, b, c], vec![a, b, c]).valid());
    assert!(!ConvexHull::new(vec![a, b, c], vec![low, c]).valid());
    assert!(!ConvexHull::new(vec![a, b, c], vec![a, low]).valid());
    assert!(!ConvexHull::new(vec![], vec![a]).valid());
    assert!(!ConvexHull::new(vec![a], vec![]).valid());
    let flat = Point::new(1_000_000, EPS / 2 - 1);
    assert!(!ConvexHull::new(vec![a, flat, c], vec![a, c]).valid());
    let barely = Point::new(1_000_000, EPS / 2);
    assert!(!ConvexHull::new(vec![a, barely, c], vec![a, c]).valid());
    let enough = Point::new(1_000_000, EPS / 2 + 1);
    assert!(ConvexHull::new(vec![a, enough, c], vec![a, c]).valid());
    assert!(!ConvexHull::new(vec![a, c], vec![a, enough, c]).valid());
    let below = Point::new(1_000_000, -EPS / 2 - 1);
    assert!(ConvexHull::new(vec![a, c], vec![a, below, c]).valid());
}

#[test]
fn boundary_of_a_hull_put_together_by_hand() {
    let a = hpt(0.0, 0.0);
    let b = hpt(1.0, 1.0);
    let c = hpt(2.0, 0.0);
    let low = hpt(1.0, -1.0);
    let hull = ConvexHull::new(vec![a, b, c], vec![a, low, c]);
    assert_eq!(
        coords(&hull.get_points()),
        vec![(a.x, a.y), (low.x, low.y), (c.x, c.y), (b.x, b.y)]
    );
    assert_eq!(hull.area(), 2_000_000);
    let open = ConvexHull::new(vec![a, b, c], vec![]);
    assert_eq!(coords(&open.get_points()), vec![(c.x, c.y), (b.x, b.y)]);
    let lower_only = ConvexHull::new(vec![], vec![a, low, c]);
    assert_eq!(coords(&lower_only.get_points()), vec![(a.x, a.y), (low.x, low.y)]);
}

#[test]
fn order_is_by_x_then_y_with_tolerance() {
    let a = Point::new(0, 0);
    assert_eq!(ConvexHull::pt_cmp(&a, &Point::new(EPS, -5_000)), Ordering::Less);
    assert_eq!(ConvexHull::pt_cmp(&Point::new(EPS, -5_000), &a), Ordering::Greater);
    assert_eq!(ConvexHull::pt_cmp(&a, &Point::new(EPS - 1, EPS)), Ordering::Less);
    assert_eq!(ConvexHull::pt_cmp(&a, &Point::new(EPS - 1, -EPS)), Ordering::Greater);
    assert_eq!(ConvexHull::pt_cmp(&a, &Point::new(EPS - 1, 1 - EPS)), Ordering::Equal);
    assert_eq!(ConvexHull::pt_cmp(&a, &a), Ordering::Equal);
    assert!(precedes(&a, &Point::new(EPS, 0)));
    assert!(!precedes(&a, &Point::new(EPS - 1, 0)));
    assert!(!precedes(&Point::new(EPS, 0), &a));
}

#[test]
fn sorting_orders_the_points_and_keeps_ties_in_place() {
    let pts = vec![
        Point::new(5_000, 0),
        Point::new(0, 10),
        Point::new(300, 20),
        Point::new(-4_000, 0),
        Point::new(100, 30),
        Point::new(0, -2_000),
    ];
    let out = sort_points(&pts);
    assert_eq!(
        coords(&out),
        vec![(-4_000, 0), (0, -2_000), (0, 10), (300, 20), (100, 30), (5_000, 0)]
    );
    assert!(sort_points(&Vec::new()).is_empty());
    assert_eq!(coords(&sort_points(&vec![Point::new(7, 8)])), vec![(7, 8)]);
}

#[test]
fn range_of_point_lists() {
    assert!(points_in_range(&Vec::new()));
    assert!(points_in_range(&vec![Point::new(LIMIT, -LIMIT), Point::new(0, 0)]));
    assert!(!points_in_range(&vec![Point::new(0, 0), Point::new(0, LIMIT + 1)]));
    let hull = ConvexHull::new(vec![Point::new(0, 0)], vec![Point::new(LIMIT + 1, 0)]);
    assert!(!hull.check_range());
    assert!(ConvexHull::new(vec![Point::new(0, 0)], vec![Point::new(LIMIT, 0)]).check_range());
}

#[test]
fn hull_of_the_largest_square() {
    let pts = vec![
        Point::new(-LIMIT, -LIMIT),
        Point::new(LIMIT, LIMIT),
        Point::new(-LIMIT, LIMIT),
        Point::new(LIMIT, -LIMIT),
        Point::new(0, 0),
    ];
    let hull = ConvexHull::get_convex_hull(pts);
    assert!(hull.valid());
    assert_eq!(hull.area(), 1_000_000_000_000_000_000);
    assert_eq!(
        coords(&hull.get_points()),
        vec![(-LIMIT, -LIMIT), (LIMIT, -LIMIT), (LIMIT, LIMIT), (-LIMIT, LIMIT)]
    );
}

#[test]
fn a_turn_within_the_tolerance_can_leave_a_point_outside() {
    let a = Point::new(0, 0);
    let b = Point::new(1_000, 2_000);
    let c = Point::new(2_000, 0);
    let hull = ConvexHull::get_convex_hull(vec![a, b, c]);
    assert_eq!(coords(&hull.u_hull), vec![(0, 0), (2_000, 0)]);
    assert_eq!(coords(&hull.d_hull), vec![(0, 0), (2_000, 0)]);
    assert!(c.sub(a).cross_raw(b.sub(a)) > 0);
    assert_eq!(b.sub(a).cross(c.sub(a)), -4);
}

#[test]
fn points_with_whole_coordinates_are_inside_their_hull() {
    let mut pts: Vec<Point> = Vec::new();
    for x in -4..5_i64 {
        for y in -4..5_i64 {
            if (x * x + 3 * y * y + x * y) % 7 < 4 {
                pts.push(Point::new(x * SCALE, y * SCALE));
                pts.push(Point::new(y * SCALE, x * SCALE));
            }
        }
    }
    let hull = ConvexHull::get_convex_hull(pts.clone());
    assert!(hull.valid());
    assert_eq!(hull.u_hull[0].x, hull.d_hull[0].x);
    assert_eq!(hull.u_hull[0].y, hull.d_hull[0].y);
    for p in pts.iter() {
        for w in hull.u_hull.windows(2) {
            assert!(w[1].sub(w[0]).cross_raw(p.sub(w[0])) <= 0);
        }
        for w in hull.d_hull.windows(2) {
            assert!(w[1].sub(w[0]).cross_raw(p.sub(w[0])) >= 0);
        }
    }
    for v in hull.get_points() {
        assert!(pts.iter().any(|p| p.x == v.x && p.y == v.y));
    }
}

#[test]
fn evictions_within_the_tolerance_add_up() {
    let pts: Vec<Point> = (0..1001_i64).map(|i| Point::new(1_000 * i, -i * i)).collect();
    let hull = ConvexHull::get_convex_hull(pts.clone());
    assert!(hull.valid());
    assert_eq!(coords(&hull.u_hull), vec![(0, 0), (1_000_000, -1_000_000)]);
    let (a, b) = (hull.u_hull[0], hull.u_hull[1]);
    let middle = pts[500];
    assert_eq!(b.sub(a).cross(middle.sub(a)), 250_000);
    assert_eq!(hull.d_hull.len(), 2);
}
