//! The hull contains the points it was made of.
//!
//! The statement is exact, and so are its conditions: it is proved of point
//! sets on which the tolerance decides nothing, that is, on which the
//! tolerant order and the tolerant turn test agree with the exact ones.
use vstd::prelude::*;
use crate::convex_hull::{chain_of, evicts, lex_less, merged, sorted, trimmed, turn, ConvexHull};
use crate::fixed::tdiv;
use crate::hull_proofs::{
    lemma_chain_of_one, lemma_chain_shape, lemma_hull_vertices, lemma_sorted_permutes,
};
use crate::point::{Point, Vec2};
use crate::{EPS, SCALE};

verus! {

/// The exact lexicographic order: by `x`, then by `y`.
pub open spec fn exact_less(a: Vec2, b: Vec2) -> bool {
    a.x < b.x || (a.x == b.x && a.y < b.y)
}

/// The exact cross product of `b - a` and `c - a`: twice the signed area of
/// the triangle, positive where the way from `a` over `b` to `c` turns left.
pub open spec fn turn_raw(a: Vec2, b: Vec2, c: Vec2) -> int {
    b.sub(a).cross_raw(c.sub(a))
}

/// The point `q` lies on the line from `a` to `b` or on the side of it on
/// which the hull lies: to the right of an edge of the upper chain, to the
/// left of an edge of the lower chain.
pub open spec fn inside(a: Vec2, b: Vec2, q: Vec2, upper: bool) -> bool {
    if upper {
        turn_raw(a, b, q) <= 0
    } else {
        turn_raw(a, b, q) >= 0
    }
}

/// The way from `a` over `b` to `c` turns as a chain must, by any amount.
pub open spec fn bends(a: Vec2, b: Vec2, c: Vec2, upper: bool) -> bool {
    if upper {
        turn_raw(a, b, c) < 0
    } else {
        turn_raw(a, b, c) > 0
    }
}

/// A vector from a point to one that is not before it in the exact order.
pub open spec fn forward(v: Vec2) -> bool {
    v.x > 0 || (v.x == 0 && v.y >= 0)
}

/// Of three vectors that point forward, the middle one not zero: where the
/// second lies on the hull's side of the first, and the third on the hull's
/// side of the second, the third lies on the hull's side of the first.
proof fn lemma_fan(a: Vec2, b: Vec2, u: Vec2, upper: bool)
    requires
        forward(a),
        forward(b),
        b.x != 0 || b.y != 0,
        forward(u),
        upper ==> a.cross_raw(b) <= 0 && b.cross_raw(u) <= 0,
        !upper ==> a.cross_raw(b) >= 0 && b.cross_raw(u) >= 0,
    ensures
        upper ==> a.cross_raw(u) <= 0,
        !upper ==> a.cross_raw(u) >= 0,
{
    let ab = a.cross_raw(b);
    let bu = b.cross_raw(u);
    let au = a.cross_raw(u);
    if b.x > 0 {
        assert(b.x * au == a.x * bu + u.x * ab) by (nonlinear_arith)
            requires
                ab == a.x * b.y - a.y * b.x,
                bu == b.x * u.y - b.y * u.x,
                au == a.x * u.y - a.y * u.x,
        ;
        if upper {
            assert(a.x * bu <= 0 && u.x * ab <= 0) by (nonlinear_arith)
                requires
                    a.x >= 0,
                    u.x >= 0,
                    ab <= 0,
                    bu <= 0,
            ;
            assert(au <= 0) by (nonlinear_arith)
                requires
                    b.x * au <= 0,
                    b.x > 0,
            ;
        } else {
            assert(a.x * bu >= 0 && u.x * ab >= 0) by (nonlinear_arith)
                requires
                    a.x >= 0,
                    u.x >= 0,
                    ab >= 0,
                    bu >= 0,
            ;
            assert(au >= 0) by (nonlinear_arith)
                requires
                    b.x * au >= 0,
                    b.x > 0,
            ;
        }
    } else {
        assert(b.x == 0 && b.y > 0);
        if upper {
            assert(a.x == 0) by (nonlinear_arith)
                requires
                    a.x >= 0,
                    b.y > 0,
                    b.x == 0,
                    a.x * b.y - a.y * b.x <= 0,
            ;
            assert(au <= 0) by (nonlinear_arith)
                requires
                    au == a.x * u.y - a.y * u.x,
                    a.x == 0,
                    a.y >= 0,
                    u.x >= 0,
            ;
        } else {
            assert(u.x == 0) by (nonlinear_arith)
                requires
                    u.x >= 0,
                    b.y > 0,
                    b.x == 0,
                    b.x * u.y - b.y * u.x >= 0,
            ;
            assert(au >= 0) by (nonlinear_arith)
                requires
                    au == a.x * u.y - a.y * u.x,
                    u.x == 0,
                    u.y >= 0,
                    a.x >= 0,
            ;
        }
    }
}

/// The cross product of two vectors and those of their sums and
/// differences that the steps of the sweep need.
proof fn lemma_cross_shifts(a: Vec2, b: Vec2)
    ensures
        a.cross_raw(a) == 0,
        a.cross_raw(a.add(b)) == a.cross_raw(b),
        a.cross_raw(a.sub(b)) == -a.cross_raw(b),
        a.cross_raw(b.neg()) == -a.cross_raw(b),
        b.cross_raw(a) == -a.cross_raw(b),
        a.sub(b).cross_raw(a) == -b.cross_raw(a),
{
    assert(a.x * a.y - a.y * a.x == 0) by (nonlinear_arith);
    assert(a.x * (a.y + b.y) - a.y * (a.x + b.x) == a.x * b.y - a.y * b.x) by (nonlinear_arith);
    assert(a.x * (a.y - b.y) - a.y * (a.x - b.x) == -(a.x * b.y - a.y * b.x)) by (nonlinear_arith);
    assert(a.x * (-b.y) - a.y * (-b.x) == -(a.x * b.y - a.y * b.x)) by (nonlinear_arith);
    assert(b.x * a.y - b.y * a.x == -(a.x * b.y - a.y * b.x)) by (nonlinear_arith);
    assert((a.x - b.x) * a.y - (a.y - b.y) * a.x == -(b.x * a.y - b.y * a.x)) by (nonlinear_arith);
}

/// Along a chain that bends at `b`, a point that is not before `c` and lies
/// inside the edge from `b` to `c` lies inside the edge from `a` to `b`.
proof fn lemma_walk_back(a: Vec2, b: Vec2, c: Vec2, p: Vec2, upper: bool)
    requires
        !exact_less(b, a),
        !exact_less(c, b),
        !exact_less(p, c),
        bends(a, b, c, upper),
        inside(b, c, p, upper),
    ensures
        inside(a, b, p, upper),
{
    let e1 = b.sub(a);
    let e2 = c.sub(b);
    let u = p.sub(b);
    lemma_cross_shifts(e1, e2);
    lemma_cross_shifts(e1, u);
    assert(c.sub(a) == e1.add(e2));
    assert(p.sub(a) == e1.add(u));
    lemma_fan(e1, e2, u, upper);
}

/// Where the chain bends at `t` towards `p`, a point that is not after `t`
/// and lies inside the edge from `s` to `t` lies inside the edge from `t`
/// to `p`.
proof fn lemma_before_top(s: Vec2, t: Vec2, p: Vec2, q: Vec2, upper: bool)
    requires
        !exact_less(t, s),
        !exact_less(t, q),
        !exact_less(p, t),
        inside(s, t, q, upper),
        bends(s, t, p, upper),
    ensures
        inside(t, p, q, upper),
{
    let w = t.sub(q);
    let e1 = t.sub(s);
    let e2 = p.sub(t);
    lemma_cross_shifts(e1, e2);
    lemma_cross_shifts(e1, w);
    lemma_cross_shifts(e2, w);
    lemma_cross_shifts(w, e1);
    lemma_cross_shifts(w, e2);
    assert(p.sub(s) == e1.add(e2));
    assert(q.sub(s) == e1.sub(w));
    assert(q.sub(t) == w.neg());
    lemma_fan(w, e1, e2, upper);
}

/// Where `t` leaves the chain because the way from `s` over `t` to `p` does
/// not bend, a point between `t` and `p` that lies inside the edge from `t`
/// to `p` lies inside the edge from `s` to `p`.
proof fn lemma_after_top(s: Vec2, t: Vec2, p: Vec2, q: Vec2, upper: bool)
    requires
        !exact_less(t, s),
        !exact_less(q, t),
        !exact_less(p, q),
        inside(t, p, q, upper),
        !bends(s, t, p, upper),
    ensures
        inside(s, p, q, upper),
{
    let va = p.sub(s);
    let vb = p.sub(t);
    let vu = p.sub(q);
    lemma_cross_shifts(vb, vu);
    lemma_cross_shifts(vu, vb);
    lemma_cross_shifts(va, vb);
    lemma_cross_shifts(va, vu);
    lemma_cross_shifts(vu, va);
    lemma_cross_shifts(vb, va);
    assert(q.sub(t) == vb.sub(vu));
    assert(t.sub(s) == va.sub(vb));
    assert(q.sub(s) == va.sub(vu));
    if vb.x == 0 && vb.y == 0 {
        assert(vu.x == 0 && vu.y == 0);
        assert(q.sub(s) == va);
    } else {
        lemma_fan(vu, vb, va, upper);
    }
}

/// Where `t` leaves the chain because the way from `s` over `t` to `p` does
/// not bend, a point between `s` and `t` that lies inside the edge from `s`
/// to `t` lies inside the edge from `s` to `p`.
proof fn lemma_under_top(s: Vec2, t: Vec2, p: Vec2, q: Vec2, upper: bool)
    requires
        !exact_less(q, s),
        !exact_less(t, q),
        !exact_less(p, t),
        inside(s, t, q, upper),
        !bends(s, t, p, upper),
    ensures
        inside(s, p, q, upper),
{
    let va = t.sub(s);
    let vb = p.sub(s);
    let vu = q.sub(s);
    lemma_cross_shifts(va, vb);
    lemma_cross_shifts(vb, va);
    lemma_cross_shifts(vb, vb);
    if va.x == 0 && va.y == 0 {
        assert(vu.x == 0 && vu.y == 0);
        assert(vb.x * 0 - vb.y * 0 == 0);
    } else {
        lemma_fan(vb, va, vu, upper);
    }
}

/// The tolerance does not decide the turn from `a` over `b` to `c`: the
/// three points lie exactly on one line, or the turn is larger than `EPS`.
pub open spec fn clear_turn(a: Vec2, b: Vec2, c: Vec2) -> bool {
    turn_raw(a, b, c) == 0 || turn(a, b, c) > EPS || turn(a, b, c) < -EPS
}

/// On the points of `s` the tolerant order is the exact one: no two of them
/// differ in a coordinate by less than `EPS` without being equal in it.
pub open spec fn order_is_exact(s: Seq<Point>) -> bool {
    forall|p: Point, q: Point|
        #![trigger s.contains(p), s.contains(q)]
        s.contains(p) && s.contains(q) ==> lex_less(p@, q@) == exact_less(p@, q@)
}

/// On the points of `s` the tolerance decides no turn.
pub open spec fn turns_are_clear(s: Seq<Point>) -> bool {
    forall|p: Point, q: Point, r: Point|
        #![trigger s.contains(p), s.contains(q), s.contains(r)]
        s.contains(p) && s.contains(q) && s.contains(r) ==> clear_turn(p@, q@, r@)
}

/// The tolerance decides nothing on the points of `s`.
pub open spec fn well_separated(s: Seq<Point>) -> bool {
    order_is_exact(s) && turns_are_clear(s)
}

/// No point of the sequence is before an earlier one in the exact order.
pub open spec fn ascending(s: Seq<Point>) -> bool {
    forall|i: int, j: int|
        #![trigger s[i], s[j]]
        0 <= i <= j < s.len() ==> !exact_less(s[j]@, s[i]@)
}

/// The point lies inside every edge of the chain.
pub open spec fn chain_covers(c: Seq<Point>, q: Point, upper: bool) -> bool {
    forall|i: int| 0 <= i && i + 1 < c.len() ==> inside((#[trigger] c[i])@, c[i + 1]@, q@, upper)
}

/// The point lies on or inside the hull: on the hull's side of every edge
/// of the upper chain and of every edge of the lower chain, or on the edge.
pub open spec fn covers(hull: ConvexHull, q: Point) -> bool {
    chain_covers(hull.u_hull@, q, true) && chain_covers(hull.d_hull@, q, false)
}

/// What the turn test decides, in exact terms: a top that stays makes the
/// chain bend; a top that leaves does not, where the turn is clear.
proof fn lemma_verdict(a: Vec2, b: Vec2, p: Vec2, upper: bool)
    ensures
        !evicts(a, b, p, upper) ==> bends(a, b, p, upper),
        evicts(a, b, p, upper) && clear_turn(a, b, p) ==> !bends(a, b, p, upper),
{
    let raw = turn_raw(a, b, p);
    assert(turn(a, b, p) == tdiv(raw, SCALE as int));
    assert(raw >= 0 ==> tdiv(raw, SCALE as int) >= 0);
    assert(raw <= 0 ==> tdiv(raw, SCALE as int) <= 0);
}

/// The chain `c` is made of the points of `s` with the indices `idx`, which
/// begin with zero, increase, and stay below `m`.
spec fn tracks(s: Seq<Point>, c: Seq<Point>, idx: Seq<int>, m: int) -> bool {
    &&& c.len() == idx.len()
    &&& c.len() >= 1
    &&& idx[0] == 0
    &&& forall|i: int| 0 <= i < idx.len() ==> 0 <= #[trigger] idx[i] < m && c[i] == s[idx[i]]
    &&& forall|i: int| 0 <= i && i + 1 < idx.len() ==> #[trigger] idx[i] < idx[i + 1]
}

/// The chain bends at every point.
spec fn strict(c: Seq<Point>, upper: bool) -> bool {
    forall|i: int| 0 <= i && i + 2 < c.len() ==> bends((#[trigger] c[i])@, c[i + 1]@, c[i + 2]@, upper)
}

/// The first `m` points of `s` lie inside every edge of the chain.
spec fn encloses(c: Seq<Point>, s: Seq<Point>, m: int, upper: bool) -> bool {
    forall|i: int, j: int|
        #![trigger c[i], s[j]]
        0 <= i && i + 1 < c.len() && 0 <= j < m ==> inside(c[i]@, c[i + 1]@, s[j]@, upper)
}

/// The points of `s` from the one of index `from` up to the one before `p`
/// lie inside the edge from `t` to `p`.
spec fn tail_inside(s: Seq<Point>, from: int, m: int, t: Point, upper: bool) -> bool {
    forall|j: int| from <= j < m ==> inside(t@, s[m]@, (#[trigger] s[j])@, upper)
}

/// The arrival of the point of index `m`: the tops of the chain leave one
/// by one, and each time the points that came after the new top lie inside
/// the edge from it to the new point.
proof fn lemma_trim(s: Seq<Point>, c: Seq<Point>, idx: Seq<int>, m: int, n: int, upper: bool) -> (k:
    int)
    requires
        ascending(s),
        turns_are_clear(s),
        1 <= m < s.len(),
        tracks(s, c, idx, m),
        encloses(c, s, m, upper),
        1 <= n <= c.len(),
        trimmed(c, s[m], upper) == trimmed(c.take(n), s[m], upper),
        tail_inside(s, idx[n - 1], m, c[n - 1], upper),
    ensures
        1 <= k <= n,
        trimmed(c, s[m], upper) == c.take(k),
        tail_inside(s, idx[k - 1], m, c[k - 1], upper),
        k >= 2 ==> !evicts(c[k - 2]@, c[k - 1]@, s[m]@, upper),
    decreases n,
{
    let p = s[m];
    let cn = c.take(n);
    if n >= 2 && evicts(cn[n - 2]@, cn[n - 1]@, p@, upper) {
        assert(cn.drop_last() == c.take(n - 1));
        let i0 = idx[n - 2];
        let i1 = idx[n - 1];
        let low = c[n - 2];
        let top = c[n - 1];
        assert(low == s[i0] && top == s[i1]);
        assert(i0 < i1 < m);
        assert(s.contains(s[i0]) && s.contains(s[i1]) && s.contains(s[m]));
        lemma_verdict(low@, top@, p@, upper);
        assert(!exact_less(s[i1]@, s[i0]@));
        assert(!exact_less(s[m]@, s[i1]@));
        assert forall|j: int| i0 <= j < m implies inside(low@, s[m]@, (#[trigger] s[j])@, upper) by {
            assert(!exact_less(s[m]@, s[j]@));
            assert(!exact_less(s[j]@, s[i0]@));
            if j >= i1 {
                assert(!exact_less(s[j]@, s[i1]@));
                lemma_after_top(low@, top@, p@, s[j]@, upper);
            } else {
                assert(!exact_less(s[i1]@, s[j]@));
                assert(inside(c[n - 2]@, c[n - 2 + 1]@, s[j]@, upper));
                lemma_under_top(low@, top@, p@, s[j]@, upper);
            }
        }
        lemma_trim(s, c, idx, m, n - 1, upper)
    } else {
        assert(trimmed(cn, p, upper) == cn);
        n
    }
}

/// The new point lies inside every edge of the chain that it leaves.
proof fn lemma_walk(s: Seq<Point>, c: Seq<Point>, idx: Seq<int>, m: int, k: int, i: int, upper: bool)
    requires
        ascending(s),
        1 <= m < s.len(),
        tracks(s, c, idx, m),
        strict(c, upper),
        2 <= k <= c.len(),
        bends(c[k - 2]@, c[k - 1]@, s[m]@, upper),
        0 <= i <= k - 2,
    ensures
        inside(c[i]@, c[i + 1]@, s[m]@, upper),
    decreases k - i,
{
    if i < k - 2 {
        lemma_walk(s, c, idx, m, k, i + 1, upper);
        let (i0, i1, i2) = (idx[i], idx[i + 1], idx[i + 1 + 1]);
        assert(c[i] == s[i0] && c[i + 1] == s[i1] && c[i + 2] == s[i2]);
        assert(i0 < i1 && i1 < i2 && i2 < m);
        assert(!exact_less(s[i1]@, s[i0]@));
        assert(!exact_less(s[i2]@, s[i1]@));
        assert(!exact_less(s[m]@, s[i2]@));
        assert(bends(c[i]@, c[i + 1]@, c[i + 2]@, upper));
        lemma_walk_back(c[i]@, c[i + 1]@, c[i + 2]@, s[m]@, upper);
    }
}

/// The chain after the point of index `m` has arrived: what it left of the
/// chain `c`, which is the first `k` points, and the point on top.
spec fn pushed(s: Seq<Point>, c: Seq<Point>, m: int, k: int) -> Seq<Point> {
    c.take(k).push(s[m])
}

/// One point of the sequence against one edge of the chain after the point
/// of index `m` has arrived.
proof fn lemma_push_inside(
    s: Seq<Point>,
    c: Seq<Point>,
    idx: Seq<int>,
    m: int,
    k: int,
    i: int,
    j: int,
    upper: bool,
)
    requires
        ascending(s),
        1 <= m < s.len(),
        tracks(s, c, idx, m),
        strict(c, upper),
        encloses(c, s, m, upper),
        1 <= k <= c.len(),
        tail_inside(s, idx[k - 1], m, c[k - 1], upper),
        k >= 2 ==> bends(c[k - 2]@, c[k - 1]@, s[m]@, upper),
        0 <= i < k,
        0 <= j <= m,
    ensures
        inside(pushed(s, c, m, k)[i]@, pushed(s, c, m, k)[i + 1]@, s[j]@, upper),
{
    let c2 = pushed(s, c, m, k);
    let p = s[m];
    assert(c2[i] == c[i]);
    if i + 1 < k {
        assert(c2[i + 1] == c[i + 1]);
        if j < m {
            assert(inside(c[i]@, c[i + 1]@, s[j]@, upper));
        } else {
            lemma_walk(s, c, idx, m, k, i, upper);
        }
    } else {
        let top = c[k - 1];
        let it = idx[k - 1];
        assert(top == s[it]);
        assert(c2[i + 1] == p);
        if j == m {
            lemma_cross_shifts(p@.sub(top@), p@.sub(top@));
        } else if j >= it {
            assert(inside(top@, s[m]@, s[j]@, upper));
        } else {
            let i0 = idx[k - 2];
            assert(c[k - 2] == s[i0] && i0 < it);
            assert(!exact_less(s[it]@, s[i0]@));
            assert(!exact_less(s[it]@, s[j]@));
            assert(!exact_less(s[m]@, s[it]@));
            assert(inside(c[k - 2]@, c[k - 2 + 1]@, s[j]@, upper));
            lemma_before_top(c[k - 2]@, top@, p@, s[j]@, upper);
        }
    }
}

/// The chain after the point of index `m` has arrived is again made of
/// points of the sequence, bends at every point, and has the points up to
/// the new one inside every edge.
proof fn lemma_push(s: Seq<Point>, c: Seq<Point>, idx: Seq<int>, m: int, k: int, upper: bool) -> (idx2:
    Seq<int>)
    requires
        ascending(s),
        1 <= m < s.len(),
        tracks(s, c, idx, m),
        strict(c, upper),
        encloses(c, s, m, upper),
        1 <= k <= c.len(),
        tail_inside(s, idx[k - 1], m, c[k - 1], upper),
        k >= 2 ==> bends(c[k - 2]@, c[k - 1]@, s[m]@, upper),
    ensures
        tracks(s, pushed(s, c, m, k), idx2, m + 1),
        idx2.last() == m,
        strict(pushed(s, c, m, k), upper),
        encloses(pushed(s, c, m, k), s, m + 1, upper),
{
    let c2 = pushed(s, c, m, k);
    let idx2 = idx.take(k).push(m);
    assert forall|i: int| 0 <= i < idx2.len() implies 0 <= #[trigger] idx2[i] < m + 1 && c2[i]
        == s[idx2[i]] by {
        if i < k {
            assert(idx2[i] == idx[i]);
            assert(c2[i] == c[i]);
        }
    }
    assert forall|i: int| 0 <= i && i + 1 < idx2.len() implies #[trigger] idx2[i] < idx2[i + 1] by {
        assert(idx2[i] == idx[i]);
        if i + 1 < k {
            assert(idx2[i + 1] == idx[i + 1]);
        }
    }
    assert forall|i: int| 0 <= i && i + 2 < c2.len() implies bends(
        (#[trigger] c2[i])@,
        c2[i + 1]@,
        c2[i + 2]@,
        upper,
    ) by {
        assert(c2[i] == c[i] && c2[i + 1] == c[i + 1]);
        if i + 2 < k {
            assert(c2[i + 2] == c[i + 2]);
            assert(bends(c[i]@, c[i + 1]@, c[i + 2]@, upper));
        }
    }
    assert forall|i: int, j: int|
        #![trigger c2[i], s[j]]
        0 <= i && i + 1 < c2.len() && 0 <= j < m + 1 implies inside(
        c2[i]@,
        c2[i + 1]@,
        s[j]@,
        upper,
    ) by {
        lemma_push_inside(s, c, idx, m, k, i, j, upper);
    }
    idx2
}

/// The sweep over the first `m` points of a sequence that ascends and on
/// which every turn is clear leaves a chain of points of the sequence that
/// bends at every point and has all the `m` points inside every edge.
proof fn lemma_sweep(s: Seq<Point>, m: int, upper: bool) -> (idx: Seq<int>)
    requires
        ascending(s),
        turns_are_clear(s),
        1 <= m <= s.len(),
    ensures
        tracks(s, chain_of(s.take(m), upper), idx, m),
        idx.last() == m - 1,
        strict(chain_of(s.take(m), upper), upper),
        encloses(chain_of(s.take(m), upper), s, m, upper),
    decreases m,
{
    if m == 1 {
        assert(s.take(1) == seq![s[0]]);
        lemma_chain_of_one(s[0], upper);
        seq![0int]
    } else {
        let old_idx = lemma_sweep(s, m - 1, upper);
        let c = chain_of(s.take(m - 1), upper);
        let p = s[m - 1];
        let n = c.len() as int;
        assert(s.take(m).drop_last() == s.take(m - 1));
        assert(s.take(m).last() == p);
        assert(chain_of(s.take(m), upper) == trimmed(c, p, upper).push(p));
        assert(c.take(n) == c);
        assert(tail_inside(s, old_idx[n - 1], m - 1, c[n - 1], upper)) by {
            let top = c[n - 1];
            assert(top == s[m - 2]);
            assert(p@.sub(top@).x * 0 - p@.sub(top@).y * 0 == 0);
            assert(top@.sub(top@) == Vec2 { x: 0, y: 0 });
        }
        let k = lemma_trim(s, c, old_idx, m - 1, n, upper);
        if k >= 2 {
            lemma_verdict(c[k - 2]@, c[k - 1]@, p@, upper);
        }
        lemma_push(s, c, old_idx, m - 1, k, upper)
    }
}

/// Between the points of `a` and those of `b` the tolerant order is the
/// exact one.
spec fn exact_across(a: Seq<Point>, b: Seq<Point>) -> bool {
    forall|i: int, j: int|
        #![trigger a[i], b[j]]
        0 <= i < a.len() && 0 <= j < b.len() ==> lex_less(b[j]@, a[i]@) == exact_less(b[j]@, a[i]@)
}

/// Every point of `c` is a point of `a` or of `b`.
spec fn drawn_from(c: Seq<Point>, a: Seq<Point>, b: Seq<Point>) -> bool {
    forall|k: int| 0 <= k < c.len() ==> a.contains(#[trigger] c[k]) || b.contains(c[k])
}

/// Merging two ascending sequences between which the order is exact gives
/// an ascending sequence.
proof fn lemma_merged_ascending(a: Seq<Point>, b: Seq<Point>)
    requires
        ascending(a),
        ascending(b),
        exact_across(a, b),
    ensures
        ascending(merged(a, b)),
        drawn_from(merged(a, b), a, b),
    decreases a.len() + b.len(),
{
    let out = merged(a, b);
    if a.len() == 0 {
        assert forall|k: int| 0 <= k < out.len() implies a.contains(#[trigger] out[k])
            || b.contains(out[k]) by {
            assert(b[k] == out[k]);
        }
    } else if b.len() == 0 {
        assert forall|k: int| 0 <= k < out.len() implies a.contains(#[trigger] out[k])
            || b.contains(out[k]) by {
            assert(a[k] == out[k]);
        }
    } else {
        let first_b = lex_less(b[0]@, a[0]@);
        let (ra, rb) = if first_b { (a, b.skip(1)) } else { (a.skip(1), b) };
        let h = if first_b { b[0] } else { a[0] };
        assert(ascending(ra) && ascending(rb)) by {
            assert forall|i: int, j: int| #![trigger ra[i], ra[j]] 0 <= i <= j < ra.len()
                implies !exact_less(ra[j]@, ra[i]@) by {
                if !first_b {
                    assert(ra[i] == a[i + 1] && ra[j] == a[j + 1]);
                }
            }
            assert forall|i: int, j: int| #![trigger rb[i], rb[j]] 0 <= i <= j < rb.len()
                implies !exact_less(rb[j]@, rb[i]@) by {
                if first_b {
                    assert(rb[i] == b[i + 1] && rb[j] == b[j + 1]);
                }
            }
        }
        assert(exact_across(ra, rb)) by {
            assert forall|i: int, j: int|
                #![trigger ra[i], rb[j]]
                0 <= i < ra.len() && 0 <= j < rb.len() implies lex_less(rb[j]@, ra[i]@)
                == exact_less(rb[j]@, ra[i]@) by {
                if first_b {
                    assert(rb[j] == b[j + 1] && ra[i] == a[i]);
                } else {
                    assert(ra[i] == a[i + 1] && rb[j] == b[j]);
                }
            }
        }
        lemma_merged_ascending(ra, rb);
        let rest = merged(ra, rb);
        assert(out == seq![h] + rest);
        assert(exact_less(b[0]@, a[0]@) == first_b);
        assert forall|k: int| 0 <= k < rest.len() implies !exact_less((#[trigger] rest[k])@, h@)
            && (a.contains(rest[k]) || b.contains(rest[k])) by {
            if ra.contains(rest[k]) {
                let i = choose|i: int| 0 <= i < ra.len() && ra[i] == rest[k];
                if first_b {
                    assert(!exact_less(a[i]@, a[0]@));
                } else {
                    assert(ra[i] == a[i + 1]);
                    assert(!exact_less(a[i + 1]@, a[0]@));
                }
            } else {
                let j = choose|j: int| 0 <= j < rb.len() && rb[j] == rest[k];
                if first_b {
                    assert(rb[j] == b[j + 1]);
                    assert(!exact_less(b[j + 1]@, b[0]@));
                } else {
                    assert(!exact_less(b[j]@, b[0]@));
                }
            }
        }
        assert forall|k: int| 0 <= k < out.len() implies a.contains(#[trigger] out[k])
            || b.contains(out[k]) by {
            if k == 0 {
                assert(out[0] == h);
                assert(a[0] == a[0] && b[0] == b[0]);
            } else {
                assert(out[k] == rest[k - 1]);
            }
        }
        assert forall|i: int, j: int| #![trigger out[i], out[j]] 0 <= i <= j < out.len()
            implies !exact_less(out[j]@, out[i]@) by {
            if i == 0 {
                if j > 0 {
                    assert(out[j] == rest[j - 1]);
                }
            } else {
                assert(out[i] == rest[i - 1] && out[j] == rest[j - 1]);
            }
        }
    }
}

/// Sorting changes the order of the points and nothing else: the sorted
/// sequence holds a point where the sequence does.
pub proof fn lemma_sorted_same_points(s: Seq<Point>)
    ensures
        forall|p: Point| #[trigger] sorted(s).contains(p) == s.contains(p),
{
    broadcast use vstd::seq_lib::to_multiset_contains;

    lemma_sorted_permutes(s);
    assert forall|p: Point| #[trigger] sorted(s).contains(p) == s.contains(p) by {
        assert(sorted(s).contains(p) == (sorted(s).to_multiset().count(p) > 0));
        assert(s.contains(p) == (s.to_multiset().count(p) > 0));
    }
}

/// Where the tolerant order is the exact one on the points of `all`, a
/// sequence of such points is sorted into an ascending one.
proof fn lemma_sorted_ascending(s: Seq<Point>, all: Seq<Point>)
    requires
        order_is_exact(all),
        forall|i: int| 0 <= i < s.len() ==> all.contains(#[trigger] s[i]),
    ensures
        ascending(sorted(s)),
    decreases s.len(),
{
    if s.len() > 1 {
        let m = (s.len() / 2) as int;
        let left = s.take(m);
        let right = s.skip(m);
        assert forall|i: int| 0 <= i < left.len() implies all.contains(#[trigger] left[i]) by {
            assert(left[i] == s[i]);
        }
        assert forall|i: int| 0 <= i < right.len() implies all.contains(#[trigger] right[i]) by {
            assert(right[i] == s[i + m]);
        }
        lemma_sorted_ascending(left, all);
        lemma_sorted_ascending(right, all);
        lemma_sorted_same_points(left);
        lemma_sorted_same_points(right);
        let a = sorted(left);
        let b = sorted(right);
        assert(exact_across(a, b)) by {
            assert forall|i: int, j: int|
                #![trigger a[i], b[j]]
                0 <= i < a.len() && 0 <= j < b.len() implies lex_less(b[j]@, a[i]@) == exact_less(
                b[j]@,
                a[i]@,
            ) by {
                assert(a.contains(a[i]) && b.contains(b[j]));
                assert(left.contains(a[i]) && right.contains(b[j]));
                let i0 = choose|k: int| 0 <= k < left.len() && left[k] == a[i];
                let j0 = choose|k: int| 0 <= k < right.len() && right[k] == b[j];
                assert(all.contains(left[i0]) && all.contains(right[j0]));
            }
        }
        lemma_merged_ascending(a, b);
    }
}

/// Every input point lies on or inside the hull, exactly, where the
/// tolerance decides nothing on the input: where no two input points differ
/// in a coordinate by less than `EPS` without being equal in it, and no
/// three of them make a turn within `EPS` of zero without lying exactly on
/// one line.
pub proof fn lemma_hull_covers(pts: Seq<Point>, hull: ConvexHull, q: Point)
    requires
        well_separated(pts),
        hull.u_hull@ == chain_of(sorted(pts), true),
        hull.d_hull@ == chain_of(sorted(pts), false),
        pts.contains(q),
    ensures
        covers(hull, q),
{
    let s = sorted(pts);
    lemma_sorted_same_points(pts);
    lemma_sorted_permutes(pts);
    assert forall|i: int| 0 <= i < pts.len() implies pts.contains(#[trigger] pts[i]) by {}
    lemma_sorted_ascending(pts, pts);
    assert(turns_are_clear(s)) by {
        assert forall|a: Point, b: Point, c: Point|
            #![trigger s.contains(a), s.contains(b), s.contains(c)]
            s.contains(a) && s.contains(b) && s.contains(c) implies clear_turn(a@, b@, c@) by {
            assert(pts.contains(a) && pts.contains(b) && pts.contains(c));
        }
    }
    assert(s.contains(q));
    let j = choose|j: int| 0 <= j < s.len() && s[j] == q;
    assert(s.take(s.len() as int) == s);
    let up = lemma_sweep(s, s.len() as int, true);
    let down = lemma_sweep(s, s.len() as int, false);
    let u = hull.u_hull@;
    let d = hull.d_hull@;
    assert forall|i: int| 0 <= i && i + 1 < u.len() implies inside(
        (#[trigger] u[i])@,
        u[i + 1]@,
        q@,
        true,
    ) by {
        assert(inside(u[i]@, u[i + 1]@, s[j]@, true));
    }
    assert forall|i: int| 0 <= i && i + 1 < d.len() implies inside(
        (#[trigger] d[i])@,
        d[i + 1]@,
        q@,
        false,
    ) by {
        assert(inside(d[i]@, d[i + 1]@, s[j]@, false));
    }
}

/// Both coordinates of the point are whole numbers: multiples of `SCALE`.
pub open spec fn whole(p: Vec2) -> bool {
    p.x % (SCALE as int) == 0 && p.y % (SCALE as int) == 0
}

/// On points with whole coordinates the tolerance decides nothing: two
/// coordinates are equal or a whole unit apart, and a cross product is zero
/// or at least a whole unit.
pub proof fn lemma_whole_points_separated(s: Seq<Point>)
    requires
        forall|i: int| 0 <= i < s.len() ==> whole((#[trigger] s[i])@),
    ensures
        well_separated(s),
{
    assert forall|p: Point, q: Point|
        #![trigger s.contains(p), s.contains(q)]
        s.contains(p) && s.contains(q) implies lex_less(p@, q@) == exact_less(p@, q@) by {
        let i = choose|i: int| 0 <= i < s.len() && s[i] == p;
        let j = choose|j: int| 0 <= j < s.len() && s[j] == q;
        assert(whole(s[i]@) && whole(s[j]@));
    }
    assert forall|p: Point, q: Point, r: Point|
        #![trigger s.contains(p), s.contains(q), s.contains(r)]
        s.contains(p) && s.contains(q) && s.contains(r) implies clear_turn(p@, q@, r@) by {
        let i = choose|i: int| 0 <= i < s.len() && s[i] == p;
        let j = choose|j: int| 0 <= j < s.len() && s[j] == q;
        let k = choose|k: int| 0 <= k < s.len() && s[k] == r;
        assert(whole(s[i]@) && whole(s[j]@) && whole(s[k]@));
        lemma_whole_turn(p@, q@, r@);
    }
}

/// The turn between three points with whole coordinates is clear.
proof fn lemma_whole_turn(a: Vec2, b: Vec2, c: Vec2)
    requires
        whole(a),
        whole(b),
        whole(c),
    ensures
        clear_turn(a, b, c),
{
    let m: int = 1_000_000;
    let (ux, uy) = ((b.x - a.x) / m, (b.y - a.y) / m);
    let (wx, wy) = ((c.x - a.x) / m, (c.y - a.y) / m);
    assert(b.x - a.x == m * ux && b.y - a.y == m * uy);
    assert(c.x - a.x == m * wx && c.y - a.y == m * wy);
    let k = ux * wy - uy * wx;
    let raw = turn_raw(a, b, c);
    lemma_scaled_product(m, ux, wy);
    lemma_scaled_product(m, uy, wx);
    assert(m * (m * (ux * wy)) - m * (m * (uy * wx)) == m * (m * k)) by (nonlinear_arith)
        requires
            k == ux * wy - uy * wx,
    ;
    assert(raw == m * (m * k));
    crate::fixed::lemma_tdiv_multiple(m * k, m);
    assert(turn(a, b, c) == m * k);
}

/// The product of two multiples of `m`.
proof fn lemma_scaled_product(m: int, x: int, y: int)
    by (nonlinear_arith)
    ensures
        (m * x) * (m * y) == m * (m * (x * y)),
{
}

/// The index after `i` on the way round a boundary of `n` points.
pub open spec fn next_around(i: int, n: int) -> int {
    if i + 1 < n {
        i + 1
    } else {
        0
    }
}

/// The boundary is a convex polygon that is walked counter-clockwise: every
/// point of it lies to the left of the way from each point to the next, or
/// on it.
pub open spec fn turns_left_around(b: Seq<Point>) -> bool {
    forall|i: int, k: int|
        #![trigger b[i], b[k]]
        0 <= i < b.len() && 0 <= k < b.len() ==> turn_raw(
            b[i]@,
            b[next_around(i, b.len() as int)]@,
            b[k]@,
        ) >= 0
}

/// The turn from `b` over `a` to `c` is the opposite of the turn from `a`
/// over `b` to `c`.
proof fn lemma_turn_flips(a: Vec2, b: Vec2, c: Vec2)
    ensures
        turn_raw(b, a, c) == -turn_raw(a, b, c),
{
    let u = b.sub(a);
    let w = c.sub(a);
    lemma_cross_shifts(u, w);
    lemma_cross_shifts(u.neg(), w);
    lemma_cross_shifts(w, u);
    assert(a.sub(b) == u.neg());
    assert(c.sub(b) == w.sub(u));
    assert(u.neg().cross_raw(w.sub(u)) == -u.cross_raw(w)) by (nonlinear_arith)
        requires
            u.neg().cross_raw(w.sub(u)) == (-u.x) * (w.y - u.y) - (-u.y) * (w.x - u.x),
            u.cross_raw(w) == u.x * w.y - u.y * w.x,
    ;
}

/// The two chains without the end of the lower one and the beginning of the
/// upper one, the upper one backwards: the boundary of a hull of two points
/// or more.
spec fn ring(u: Seq<Point>, d: Seq<Point>) -> Seq<Point> {
    d.drop_last() + u.skip(1).reverse()
}

/// A point that both chains cover lies to the left of the way from each
/// point of the ring to the next, or on it.
proof fn lemma_ring_edge(u: Seq<Point>, d: Seq<Point>, i: int, r: Point)
    requires
        u.len() >= 2,
        d.len() >= 2,
        u[0] == d[0],
        u.last() == d.last(),
        chain_covers(u, r, true),
        chain_covers(d, r, false),
        0 <= i < ring(u, d).len(),
    ensures
        turn_raw(ring(u, d)[i]@, ring(u, d)[next_around(i, ring(u, d).len() as int)]@, r@) >= 0,
{
    let b = ring(u, d);
    let nu = u.len() as int;
    let nd = d.len() as int;
    let n = b.len() as int;
    assert(n == nd - 1 + nu - 1);
    if i < nd - 1 {
        assert(b[i] == d[i]);
        if i + 1 < nd - 1 {
            assert(b[i + 1] == d[i + 1]);
        } else {
            assert(b[i + 1] == u[nu - 1]);
        }
        assert(inside(d[i]@, d[i + 1]@, r@, false));
    } else {
        let j = nu - 2 - (i - (nd - 1));
        assert(b[i] == u[j + 1]);
        if i + 1 < n {
            assert(b[i + 1] == u[j]);
        } else {
            assert(j == 0);
            assert(b[0] == d[0]);
        }
        assert(inside(u[j]@, u[j + 1]@, r@, true));
        lemma_turn_flips(u[j]@, u[j + 1]@, r@);
    }
}

/// Every point of the ring is a point of one of the chains.
proof fn lemma_ring_member(u: Seq<Point>, d: Seq<Point>, k: int)
    requires
        u.len() >= 2,
        d.len() >= 2,
        0 <= k < ring(u, d).len(),
    ensures
        u.contains(ring(u, d)[k]) || d.contains(ring(u, d)[k]),
{
    let nu = u.len() as int;
    let nd = d.len() as int;
    if k < nd - 1 {
        assert(ring(u, d)[k] == d[k]);
    } else {
        assert(ring(u, d)[k] == u[nu - 1 - (k - (nd - 1))]);
    }
}

/// The boundary of a hull runs counter-clockwise round a convex polygon,
/// where the tolerance decides nothing on the points the hull was made of.
pub proof fn lemma_boundary_counter_clockwise(pts: Seq<Point>, hull: ConvexHull)
    requires
        well_separated(pts),
        hull.u_hull@ == chain_of(sorted(pts), true),
        hull.d_hull@ == chain_of(sorted(pts), false),
    ensures
        turns_left_around(hull.boundary()),
{
    let s = sorted(pts);
    let u = hull.u_hull@;
    let d = hull.d_hull@;
    let b = hull.boundary();
    lemma_sorted_permutes(pts);
    if pts.len() == 0 {
        assert(u.len() == 0 && d.len() == 0);
        assert(b.len() == 0);
    } else {
        lemma_chain_shape(s, true);
        lemma_chain_shape(s, false);
        if u.len() == 1 && d.len() == 1 {
            assert(b == d);
            lemma_cross_shifts(Vec2 { x: 0, y: 0 }, Vec2 { x: 0, y: 0 });
        } else {
            assert(b == ring(u, d));
            lemma_hull_vertices(pts, true);
            lemma_hull_vertices(pts, false);
            assert forall|i: int, k: int|
                #![trigger b[i], b[k]]
                0 <= i < b.len() && 0 <= k < b.len() implies turn_raw(
                b[i]@,
                b[next_around(i, b.len() as int)]@,
                b[k]@,
            ) >= 0 by {
                let r = b[k];
                lemma_ring_member(u, d, k);
                if u.contains(r) {
                    let j = choose|j: int| 0 <= j < u.len() && u[j] == r;
                    assert(pts.contains(u[j]));
                } else {
                    let j = choose|j: int| 0 <= j < d.len() && d[j] == r;
                    assert(pts.contains(d[j]));
                }
                lemma_hull_covers(pts, hull, r);
                lemma_ring_edge(u, d, i, r);
            }
        }
    }
}

/// Both chains begin with the first input point of the exact order and
/// end with its last, where the tolerant order is the exact one on the
/// input: no input point is before the first point of the hull or after its
/// last.
pub proof fn lemma_hull_extremes(pts: Seq<Point>, hull: ConvexHull, q: Point)
    requires
        order_is_exact(pts),
        hull.u_hull@ == chain_of(sorted(pts), true),
        hull.d_hull@ == chain_of(sorted(pts), false),
        pts.contains(q),
    ensures
        hull.u_hull@.len() >= 1,
        hull.d_hull@.len() >= 1,
        hull.u_hull@[0] == hull.d_hull@[0],
        hull.u_hull@.last() == hull.d_hull@.last(),
        !exact_less(q@, hull.u_hull@[0]@),
        !exact_less(hull.u_hull@.last()@, q@),
{
    let s = sorted(pts);
    lemma_sorted_same_points(pts);
    lemma_sorted_permutes(pts);
    assert forall|i: int| 0 <= i < pts.len() implies pts.contains(#[trigger] pts[i]) by {}
    lemma_sorted_ascending(pts, pts);
    assert(s.contains(q));
    let j = choose|j: int| 0 <= j < s.len() && s[j] == q;
    lemma_chain_shape(s, true);
    lemma_chain_shape(s, false);
    assert(!exact_less(s[j]@, s[0]@));
    assert(!exact_less(s[s.len() - 1]@, s[j]@));
}

} // verus!
