//! Convex hulls by the monotone-chain sweep.
//!
//! The points are sorted by the tolerant order of `pt_cmp` and swept once.
//! The sweep keeps two chains, the upper and the lower one, from the first
//! point of the sorted sequence to its last.
use vstd::prelude::*;
use std::cmp::Ordering;
use crate::fixed::{div_trunc, lemma_product_bound, lemma_tdiv_le, tdiv};
use crate::point::{Point, Vec2};
use crate::containment::{covers, lemma_hull_covers, well_separated};
use crate::hull_proofs::{
    lemma_chain_subsequence, lemma_hull_valid, lemma_hull_vertices, lemma_sorted_in_order,
    lemma_sorted_permutes,
};
use crate::{eq_f64, near, EPS, SCALE};

verus! {

/// The tolerant lexicographic order: `a` comes before `b` where its `x` is
/// smaller by `EPS` or more, or where the two `x` are within `EPS` of each
/// other and its `y` is smaller by `EPS` or more.
pub open spec fn lex_less(a: Vec2, b: Vec2) -> bool {
    if !near(a.x, b.x) {
        a.x < b.x
    } else {
        !near(a.y, b.y) && a.y < b.y
    }
}

/// The cross product of `b - a` and `c - a`, as a fixed-point scalar:
/// positive where the way from `a` over `b` to `c` turns left, negative
/// where it turns right.
pub open spec fn turn(a: Vec2, b: Vec2, c: Vec2) -> int {
    b.sub(a).cross(c.sub(a))
}

/// Every point of the sequence is in range.
pub open spec fn all_in_range(s: Seq<Point>) -> bool {
    forall|i: int| 0 <= i < s.len() ==> (#[trigger] s[i]).in_range()
}

/// Two sorted sequences merged into one. Of two points of which neither
/// comes before the other, the one of `a` goes first.
pub open spec fn merged(a: Seq<Point>, b: Seq<Point>) -> Seq<Point>
    decreases a.len() + b.len(),
{
    if a.len() == 0 {
        b
    } else if b.len() == 0 {
        a
    } else if lex_less(b[0]@, a[0]@) {
        seq![b[0]] + merged(a, b.skip(1))
    } else {
        seq![a[0]] + merged(a.skip(1), b)
    }
}

/// The sequence sorted by the tolerant order: each half sorted, and the two
/// merged. Points of which neither comes before the other keep their order.
pub open spec fn sorted(s: Seq<Point>) -> Seq<Point>
    decreases s.len(),
{
    if s.len() <= 1 {
        s
    } else {
        let m = s.len() / 2;
        merged(sorted(s.take(m as int)), sorted(s.skip(m as int)))
    }
}

/// No point of a sequence comes before the point in front of it.
pub open spec fn in_order(s: Seq<Point>) -> bool {
    forall|i: int| 0 <= i && i + 1 < s.len() ==> !lex_less(s[i + 1]@, (#[trigger] s[i])@)
}

/// The points of `c` are points of `s`, in the order in which `s` has them.
pub open spec fn subsequence(c: Seq<Point>, s: Seq<Point>) -> bool
    decreases s.len(),
{
    if c.len() == 0 {
        true
    } else if s.len() == 0 {
        false
    } else {
        (c.last() == s.last() && subsequence(c.drop_last(), s.drop_last())) || subsequence(
            c,
            s.drop_last(),
        )
    }
}

/// Whether the top `b` of a chain that ends in `a`, `b` leaves the chain
/// when `p` arrives: in the upper chain, where the turn at `b` is not a
/// right turn by more than `EPS`; in the lower chain, where it is not a left
/// turn by more than `EPS`.
pub open spec fn evicts(a: Vec2, b: Vec2, p: Vec2, upper: bool) -> bool {
    if upper {
        turn(a, b, p) >= -EPS
    } else {
        turn(a, b, p) <= EPS
    }
}

/// The chain after the points that `p` evicts have left it.
pub open spec fn trimmed(chain: Seq<Point>, p: Point, upper: bool) -> Seq<Point>
    decreases chain.len(),
{
    if chain.len() >= 2 && evicts(chain[chain.len() - 2]@, chain[chain.len() - 1]@, p@, upper) {
        trimmed(chain.drop_last(), p, upper)
    } else {
        chain
    }
}

/// The chain that the sweep over `pts` leaves: each point in turn evicts
/// what it evicts and is then put on top.
pub open spec fn chain_of(pts: Seq<Point>, upper: bool) -> Seq<Point>
    decreases pts.len(),
{
    if pts.len() == 0 {
        Seq::empty()
    } else {
        trimmed(chain_of(pts.drop_last(), upper), pts.last(), upper).push(pts.last())
    }
}

/// Every three consecutive points of the chain turn the right way by more
/// than `EPS`: to the right in an upper chain, to the left in a lower one.
pub open spec fn chain_turns(s: Seq<Point>, upper: bool) -> bool {
    forall|i: int|
        0 <= i && i + 2 < s.len() ==> !evicts(
            (#[trigger] s[i])@,
            s[i + 1]@,
            s[i + 2]@,
            upper,
        )
}

/// The term of index `i` of the fan of triangles from the first point of
/// the chain.
pub open spec fn fan_term(s: Seq<Point>, i: int) -> int {
    s[i + 1]@.sub(s[0]@).cross(s[i]@.sub(s[0]@))
}

/// The sum of the terms of the fan from index 1 to index `n`.
pub open spec fn fan(s: Seq<Point>, n: int) -> int
    decreases n,
{
    if n <= 0 {
        0
    } else {
        fan(s, n - 1) + fan_term(s, n)
    }
}

/// The sum of the whole fan of a chain: a term for each triangle between the
/// first point and two consecutive later ones.
pub open spec fn fan_total(s: Seq<Point>) -> int {
    fan(s, s.len() - 2)
}

/// A convex hull as its upper and its lower chain, each in sorted order.
pub struct ConvexHull {
    pub u_hull: Vec<Point>,
    pub d_hull: Vec<Point>,
}

impl ConvexHull {
    /// Every point of both chains is in range.
    pub open spec fn in_range(self) -> bool {
        all_in_range(self.u_hull@) && all_in_range(self.d_hull@)
    }

    /// What `valid` decides: neither chain is empty, the chains begin with
    /// equal points and end with equal points, and each chain turns the
    /// right way at every point.
    pub open spec fn is_valid(self) -> bool {
        let u = self.u_hull@;
        let d = self.d_hull@;
        &&& u.len() >= 1
        &&& d.len() >= 1
        &&& u[0]@.approx_eq(d[0]@)
        &&& u.last()@.approx_eq(d.last()@)
        &&& chain_turns(u, true)
        &&& chain_turns(d, false)
    }

    /// The signed area: the fan of the upper chain less the fan of the lower
    /// chain, halved.
    pub open spec fn signed_area(self) -> int {
        tdiv(fan_total(self.u_hull@) - fan_total(self.d_hull@), 2)
    }

    /// The boundary counter-clockwise: the lower chain without its last
    /// point, then the upper chain backwards without its first point. Where
    /// each chain is a single point, the two extremes are one point, and the
    /// boundary is that point.
    pub open spec fn boundary(self) -> Seq<Point> {
        let u = self.u_hull@;
        let d = self.d_hull@;
        if u.len() == 1 && d.len() == 1 {
            d
        } else {
            let lower = if d.len() == 0 { d } else { d.drop_last() };
            let upper = if u.len() == 0 { u } else { u.skip(1) };
            lower + upper.reverse()
        }
    }
}

/// Whether `a` comes before `b` in the order of `pt_cmp`.
pub fn precedes(a: &Point, b: &Point) -> (r: bool)
    ensures
        r == lex_less(a@, b@),
{
    match ConvexHull::pt_cmp(a, b) {
        Ordering::Less => true,
        _ => false,
    }
}

/// Merges two sequences as `merged` says.
fn merge(a: &Vec<Point>, b: &Vec<Point>) -> (r: Vec<Point>)
    requires
        a.len() + b.len() <= usize::MAX,
    ensures
        r@ == merged(a@, b@),
        all_in_range(a@) && all_in_range(b@) ==> all_in_range(r@),
{
    let mut r: Vec<Point> = Vec::new();
    let mut i: usize = 0;
    let mut j: usize = 0;
    assert(a@.skip(0) == a@ && b@.skip(0) == b@);
    assert(r@ + merged(a@, b@) == merged(a@, b@));
    while i < a.len() || j < b.len()
        invariant
            i <= a.len(),
            j <= b.len(),
            r@ + merged(a@.skip(i as int), b@.skip(j as int)) == merged(a@, b@),
            all_in_range(a@) && all_in_range(b@) ==> all_in_range(r@),
        decreases a.len() - i + b.len() - j,
    {
        let ghost ra = a@.skip(i as int);
        let ghost rb = b@.skip(j as int);
        let ghost before = r@;
        let take_b: bool = if i == a.len() {
            true
        } else if j == b.len() {
            false
        } else {
            precedes(&b[j], &a[i])
        };
        if take_b {
            assert(rb.skip(1) == b@.skip(j + 1));
            assert(merged(ra, rb) == seq![b@[j as int]] + merged(ra, rb.skip(1))) by {
                if ra.len() == 0 {
                    assert(rb == seq![b@[j as int]] + rb.skip(1));
                    assert(merged(ra, rb.skip(1)) == rb.skip(1));
                }
            }
            r.push(b[j]);
            j = j + 1;
            assert(r@ + merged(ra, rb.skip(1)) == before + (seq![b@[j - 1]] + merged(
                ra,
                rb.skip(1),
            )));
        } else {
            assert(ra.skip(1) == a@.skip(i + 1));
            assert(merged(ra, rb) == seq![a@[i as int]] + merged(ra.skip(1), rb)) by {
                if rb.len() == 0 {
                    assert(ra == seq![a@[i as int]] + ra.skip(1));
                    if ra.skip(1).len() > 0 {
                        assert(merged(ra.skip(1), rb) == ra.skip(1));
                    } else {
                        assert(merged(ra.skip(1), rb) == rb);
                        assert(ra.skip(1) == rb);
                    }
                }
            }
            r.push(a[i]);
            i = i + 1;
            assert(r@ + merged(ra.skip(1), rb) == before + (seq![a@[i - 1]] + merged(
                ra.skip(1),
                rb,
            )));
        }
    }
    assert(merged(a@.skip(i as int), b@.skip(j as int)) == Seq::<Point>::empty());
    assert(r@ + Seq::<Point>::empty() == r@);
    r
}

/// Sorts the points of `v` from index `lo` up to index `hi`.
fn sort_range(v: &Vec<Point>, lo: usize, hi: usize) -> (r: Vec<Point>)
    requires
        lo <= hi <= v.len(),
    ensures
        r@ == sorted(v@.subrange(lo as int, hi as int)),
        r.len() == hi - lo,
        all_in_range(v@) ==> all_in_range(r@),
    decreases hi - lo,
{
    let ghost s = v@.subrange(lo as int, hi as int);
    if hi - lo <= 1 {
        let mut r: Vec<Point> = Vec::new();
        if hi - lo == 1 {
            r.push(v[lo]);
        }
        assert(r@ == s);
        return r;
    }
    let mid: usize = lo + (hi - lo) / 2;
    let left = sort_range(v, lo, mid);
    let right = sort_range(v, mid, hi);
    proof {
        let m = s.len() / 2;
        assert(s.take(m as int) == v@.subrange(lo as int, mid as int));
        assert(s.skip(m as int) == v@.subrange(mid as int, hi as int));
    }
    let r = merge(&left, &right);
    proof {
        lemma_merged_len(left@, right@);
    }
    r
}

/// Merging loses and adds no point.
pub proof fn lemma_merged_len(a: Seq<Point>, b: Seq<Point>)
    ensures
        merged(a, b).len() == a.len() + b.len(),
    decreases a.len() + b.len(),
{
    if a.len() == 0 || b.len() == 0 {
    } else if lex_less(b[0]@, a[0]@) {
        lemma_merged_len(a, b.skip(1));
    } else {
        lemma_merged_len(a.skip(1), b);
    }
}

/// The points sorted by the tolerant order: the same points, as often as
/// they occur, none of them before the one in front of it.
pub fn sort_points(v: &Vec<Point>) -> (r: Vec<Point>)
    ensures
        r@ == sorted(v@),
        r.len() == v.len(),
        r@.to_multiset() == v@.to_multiset(),
        in_order(r@),
        all_in_range(v@) ==> all_in_range(r@),
{
    assert(v@.subrange(0, v.len() as int) == v@);
    proof {
        lemma_sorted_permutes(v@);
        lemma_sorted_in_order(v@);
    }
    sort_range(v, 0, v.len())
}

/// The turn from `a` over `b` to `p`.
fn turn_of(a: Point, b: Point, p: Point) -> (r: i64)
    requires
        a.in_range(),
        b.in_range(),
        p.in_range(),
    ensures
        r == turn(a@, b@, p@),
        -2_000_000_000_000_000_000 <= r <= 2_000_000_000_000_000_000,
{
    let u: Point = b.sub(a);
    let w: Point = p.sub(a);
    proof {
        lemma_product_bound(u.x as int, w.y as int, 1_000_000_000_000, 1_000_000_000_000);
        lemma_product_bound(u.y as int, w.x as int, 1_000_000_000_000, 1_000_000_000_000);
        lemma_tdiv_le(u@.cross_raw(w@), SCALE as int, 2_000_000_000_000_000_000);
    }
    u.cross(w)
}

/// Lets the point `p` arrive on a chain: the tops that it evicts leave, and
/// it is put on top.
fn settle(chain: &mut Vec<Point>, p: Point, upper: bool)
    requires
        p.in_range(),
        all_in_range(old(chain)@),
    ensures
        final(chain)@ == trimmed(old(chain)@, p, upper).push(p),
        all_in_range(final(chain)@),
{
    let ghost before = chain@;
    loop
        invariant
            p.in_range(),
            all_in_range(chain@),
            trimmed(chain@, p, upper) == trimmed(before, p, upper),
        ensures
            chain@ == trimmed(before, p, upper),
        decreases chain.len(),
    {
        let n: usize = chain.len();
        if n < 2 {
            break ;
        }
        let t: i64 = turn_of(chain[n - 2], chain[n - 1], p);
        let evict: bool = if upper {
            t >= -EPS
        } else {
            t <= EPS
        };
        if !evict {
            break ;
        }
        chain.pop();
    }
    chain.push(p);
}

/// Decides `all_in_range`.
pub fn points_in_range(v: &Vec<Point>) -> (r: bool)
    ensures
        r == all_in_range(v@),
{
    let mut i: usize = 0;
    while i < v.len()
        invariant
            i <= v.len(),
            forall|k: int| 0 <= k < i ==> (#[trigger] v@[k]).in_range(),
        decreases v.len() - i,
    {
        if !v[i].check_range() {
            return false;
        }
        i = i + 1;
    }
    true
}

/// Whether every three consecutive points of the chain turn the right way.
fn check_turns(chain: &Vec<Point>, upper: bool) -> (r: bool)
    requires
        all_in_range(chain@),
    ensures
        r == chain_turns(chain@, upper),
{
    let n: usize = chain.len();
    let mut i: usize = 0;
    if n < 3 {
        return true;
    }
    while i + 2 < n
        invariant
            n == chain.len(),
            i + 2 <= n,
            all_in_range(chain@),
            forall|k: int|
                0 <= k < i && k + 2 < n ==> !evicts(
                    (#[trigger] chain@[k])@,
                    chain@[k + 1]@,
                    chain@[k + 2]@,
                    upper,
                ),
        decreases n - i,
    {
        let t: i64 = turn_of(chain[i], chain[i + 1], chain[i + 2]);
        let evict: bool = if upper {
            t >= -EPS
        } else {
            t <= EPS
        };
        if evict {
            return false;
        }
        i = i + 1;
    }
    true
}

/// The sum of the fan of triangles of the chain.
fn fan_sum(chain: &Vec<Point>) -> (r: i128)
    requires
        all_in_range(chain@),
    ensures
        r == fan_total(chain@),
        -2_000_000_000_000_000_000 * chain.len() <= r <= 2_000_000_000_000_000_000 * chain.len(),
{
    let n: usize = chain.len();
    let mut acc: i128 = 0;
    let mut i: usize = 1;
    if n < 3 {
        assert(fan(chain@, n - 2) == 0);
        return 0;
    }
    assert(fan(chain@, 0) == 0);
    while i + 1 < n
        invariant
            n == chain.len(),
            1 <= i < n,
            all_in_range(chain@),
            acc == fan(chain@, i - 1),
            -2_000_000_000_000_000_000 * i <= acc <= 2_000_000_000_000_000_000 * i,
        decreases n - i,
    {
        let t: i64 = turn_of(chain[0], chain[i + 1], chain[i]);
        acc = acc + t as i128;
        i = i + 1;
    }
    acc
}

impl ConvexHull {
    /// A hull from two chains, taken as they are.
    pub fn new(u_hull: Vec<Point>, d_hull: Vec<Point>) -> (h: ConvexHull)
        ensures
            h.u_hull == u_hull,
            h.d_hull == d_hull,
    {
        ConvexHull { u_hull, d_hull }
    }

    /// The order by which the points are sorted: by `x`, then by `y`, two
    /// coordinates within `EPS` of each other counting as equal.
    pub fn pt_cmp(a: &Point, b: &Point) -> (r: Ordering)
        ensures
            (r == Ordering::Less) == lex_less(a@, b@),
            (r == Ordering::Greater) == lex_less(b@, a@),
    {
        if !eq_f64(a.x, b.x) {
            if a.x < b.x {
                Ordering::Less
            } else {
                Ordering::Greater
            }
        } else if !eq_f64(a.y, b.y) {
            if a.y < b.y {
                Ordering::Less
            } else {
                Ordering::Greater
            }
        } else {
            Ordering::Equal
        }
    }

    /// Decides `in_range`.
    pub fn check_range(&self) -> (r: bool)
        ensures
            r == self.in_range(),
    {
        points_in_range(&self.u_hull) && points_in_range(&self.d_hull)
    }

    /// Whether the two chains begin with equal points, end with equal
    /// points and turn the right way at every point: a check for a hull
    /// that was put together by hand.
    pub fn valid(&self) -> (r: bool)
        requires
            self.in_range(),
        ensures
            r == self.is_valid(),
    {
        let ulen: usize = self.u_hull.len();
        let dlen: usize = self.d_hull.len();
        if ulen == 0 || dlen == 0 {
            return false;
        }
        if !self.u_hull[0].eq(&self.d_hull[0]) {
            return false;
        }
        if !self.u_hull[ulen - 1].eq(&self.d_hull[dlen - 1]) {
            return false;
        }
        check_turns(&self.u_hull, true) && check_turns(&self.d_hull, false)
    }

    /// The signed area of the hull, a fixed-point scalar in a wider integer.
    pub fn area(&self) -> (r: i128)
        requires
            self.in_range(),
        ensures
            r == self.signed_area(),
    {
        let up: i128 = fan_sum(&self.u_hull);
        let down: i128 = fan_sum(&self.d_hull);
        div_trunc(up - down, 2)
    }

    /// The points of the boundary, counter-clockwise, each once.
    pub fn get_points(&self) -> (r: Vec<Point>)
        ensures
            r@ == self.boundary(),
    {
        let ulen: usize = self.u_hull.len();
        let dlen: usize = self.d_hull.len();
        let mut r: Vec<Point> = Vec::new();
        if ulen == 1 && dlen == 1 {
            r.push(self.d_hull[0]);
            assert(r@ == self.d_hull@);
            return r;
        }
        let ghost lower = if dlen == 0 { self.d_hull@ } else { self.d_hull@.drop_last() };
        let ghost upper = if ulen == 0 { self.u_hull@ } else { self.u_hull@.skip(1) };
        let mut i: usize = 0;
        while i + 1 < dlen
            invariant
                dlen == self.d_hull.len(),
                dlen >= 1 ==> i + 1 <= dlen,
                dlen == 0 ==> i == 0,
                r@ == self.d_hull@.take(i as int),
            decreases dlen - i,
        {
            r.push(self.d_hull[i]);
            assert(self.d_hull@.take(i + 1) == self.d_hull@.take(i as int).push(self.d_hull@[i as int]));
            i = i + 1;
        }
        assert(r@ == lower);
        let mut j: usize = ulen;
        while j > 1
            invariant
                ulen == self.u_hull.len(),
                j <= ulen,
                ulen >= 1 ==> j >= 1,
                upper.len() == if ulen == 0 { 0int } else { ulen - 1 },
                upper == if ulen == 0 { self.u_hull@ } else { self.u_hull@.skip(1) },
                r@ == lower + upper.reverse().take(if ulen == 0 { 0int } else { ulen - j }),
            decreases j,
        {
            j = j - 1;
            r.push(self.u_hull[j]);
            assert(upper.reverse()[ulen - 1 - j] == self.u_hull@[j as int]);
            assert(upper.reverse().take(ulen - j) == upper.reverse().take(ulen - 1 - j).push(
                self.u_hull@[j as int],
            ));
            assert(r@ == lower + upper.reverse().take(ulen - j));
        }
        assert(upper.reverse().take(upper.len() as int) == upper.reverse());
        r
    }

    /// The hull of the points: they are sorted, and the sorted sequence is
    /// swept once, each point arriving on the upper and on the lower chain.
    /// Of no point the hull is a pair of empty chains; of one point both
    /// chains are that point. A hull of at least one point is valid. The
    /// hull contains every point it was made of where the tolerance decided
    /// nothing on them; a turn within the tolerance can leave a point
    /// outside.
    pub fn get_convex_hull(pts: Vec<Point>) -> (hull: ConvexHull)
        requires
            all_in_range(pts@),
        ensures
            hull.u_hull@ == chain_of(sorted(pts@), true),
            hull.d_hull@ == chain_of(sorted(pts@), false),
            hull.in_range(),
            pts.len() >= 1 ==> hull.is_valid() && hull.u_hull@[0] == hull.d_hull@[0]
                && hull.u_hull@.last() == hull.d_hull@.last() && hull.u_hull@[0] == sorted(pts@)[0]
                && hull.u_hull@.last() == sorted(pts@).last(),
            subsequence(hull.u_hull@, sorted(pts@)),
            subsequence(hull.d_hull@, sorted(pts@)),
            forall|i: int| 0 <= i < hull.u_hull@.len() ==> pts@.contains(#[trigger] hull.u_hull@[i]),
            forall|i: int| 0 <= i < hull.d_hull@.len() ==> pts@.contains(#[trigger] hull.d_hull@[i]),
            well_separated(pts@) ==> forall|q: Point| #[trigger] pts@.contains(q) ==> covers(hull, q),
    {
        let ordered = sort_points(&pts);
        let mut u_hull: Vec<Point> = Vec::new();
        let mut d_hull: Vec<Point> = Vec::new();
        let mut i: usize = 0;
        while i < ordered.len()
            invariant
                i <= ordered.len(),
                all_in_range(ordered@),
                all_in_range(u_hull@),
                all_in_range(d_hull@),
                u_hull@ == chain_of(ordered@.take(i as int), true),
                d_hull@ == chain_of(ordered@.take(i as int), false),
            decreases ordered.len() - i,
        {
            let p: Point = ordered[i];
            settle(&mut u_hull, p, true);
            settle(&mut d_hull, p, false);
            proof {
                let next = ordered@.take(i + 1);
                assert(next.drop_last() == ordered@.take(i as int));
                assert(next.last() == p);
            }
            i = i + 1;
        }
        assert(ordered@.take(ordered.len() as int) == ordered@);
        let hull = ConvexHull { u_hull, d_hull };
        proof {
            if pts.len() >= 1 {
                lemma_hull_valid(sorted(pts@), hull);
            }
            lemma_chain_subsequence(sorted(pts@), true);
            lemma_chain_subsequence(sorted(pts@), false);
            lemma_hull_vertices(pts@, true);
            lemma_hull_vertices(pts@, false);
            if well_separated(pts@) {
                assert forall|q: Point| #[trigger] pts@.contains(q) implies covers(hull, q) by {
                    lemma_hull_covers(pts@, hull, q);
                }
            }
        }
        hull
    }
}

} // verus!
