//! What holds of the sorted sequence and of the chains that the sweep
//! leaves.
use vstd::prelude::*;
use crate::convex_hull::{
    chain_of, chain_turns, evicts, in_order, lemma_merged_len, lex_less, merged, sorted,
    subsequence, trimmed, ConvexHull,
};
use crate::point::Point;

verus! {

/// What a new point leaves of a chain is a beginning of the chain. It is
/// empty only where the chain was, and its top is not evicted.
pub proof fn lemma_trimmed_prefix(chain: Seq<Point>, p: Point, upper: bool)
    ensures
        trimmed(chain, p, upper).len() <= chain.len(),
        trimmed(chain, p, upper) == chain.take(trimmed(chain, p, upper).len() as int),
        chain.len() >= 1 ==> trimmed(chain, p, upper).len() >= 1,
        trimmed(chain, p, upper).len() >= 2 ==> !evicts(
            trimmed(chain, p, upper)[trimmed(chain, p, upper).len() - 2]@,
            trimmed(chain, p, upper).last()@,
            p@,
            upper,
        ),
    decreases chain.len(),
{
    if chain.len() >= 2 && evicts(chain[chain.len() - 2]@, chain[chain.len() - 1]@, p@, upper) {
        lemma_trimmed_prefix(chain.drop_last(), p, upper);
        let t = trimmed(chain.drop_last(), p, upper);
        assert(t == chain.take(t.len() as int));
    } else {
        assert(chain == chain.take(chain.len() as int));
    }
}

/// The chain of a sequence that is not empty begins with its first point,
/// ends with its last point, and turns the right way by more than the
/// tolerance at every point.
pub proof fn lemma_chain_shape(pts: Seq<Point>, upper: bool)
    requires
        pts.len() >= 1,
    ensures
        chain_of(pts, upper).len() >= 1,
        chain_of(pts, upper).len() <= pts.len(),
        pts.len() >= 2 ==> chain_of(pts, upper).len() >= 2,
        chain_of(pts, upper)[0] == pts[0],
        chain_of(pts, upper).last() == pts.last(),
        chain_turns(chain_of(pts, upper), upper),
    decreases pts.len(),
{
    let p = pts.last();
    let before = chain_of(pts.drop_last(), upper);
    let kept = trimmed(before, p, upper);
    lemma_trimmed_prefix(before, p, upper);
    if pts.len() >= 2 {
        lemma_chain_shape(pts.drop_last(), upper);
    } else {
        assert(before.len() == 0);
    }
    let c = kept.push(p);
    assert(chain_of(pts, upper) == c);
    assert forall|i: int| 0 <= i && i + 2 < c.len() implies !evicts(
        (#[trigger] c[i])@,
        c[i + 1]@,
        c[i + 2]@,
        upper,
    ) by {
        if i + 2 < kept.len() {
            assert(kept[i] == before[i] && kept[i + 1] == before[i + 1] && kept[i + 2] == before[i
                + 2]);
        }
    }
}

/// The hull of at least one point is valid: its chains share their first
/// and their last point and turn the right way at every point.
pub proof fn lemma_hull_valid(pts: Seq<Point>, hull: ConvexHull)
    requires
        pts.len() >= 1,
        hull.u_hull@ == chain_of(pts, true),
        hull.d_hull@ == chain_of(pts, false),
    ensures
        hull.is_valid(),
        hull.u_hull@[0] == pts[0],
        hull.d_hull@[0] == pts[0],
        hull.u_hull@.last() == pts.last(),
        hull.d_hull@.last() == pts.last(),
{
    lemma_chain_shape(pts, true);
    lemma_chain_shape(pts, false);
}

/// The chain of a single point is that point.
pub proof fn lemma_chain_of_one(p: Point, upper: bool)
    ensures
        chain_of(seq![p], upper) == seq![p],
{
    let s = seq![p];
    assert(s.drop_last().len() == 0);
    assert(chain_of(s.drop_last(), upper) == Seq::<Point>::empty());
    assert(trimmed(Seq::<Point>::empty(), p, upper) == Seq::<Point>::empty());
    assert(Seq::<Point>::empty().push(p) == s);
}

/// The chain of two points is the two points: the sweep of a segment
/// leaves the segment, in the upper chain as in the lower one.
pub proof fn lemma_chain_of_two(p: Point, q: Point, upper: bool)
    ensures
        chain_of(seq![p, q], upper) == seq![p, q],
{
    let s = seq![p, q];
    assert(s.drop_last() == seq![p]);
    lemma_chain_of_one(p, upper);
    assert(trimmed(seq![p], q, upper) == seq![p]);
    assert(seq![p].push(q) == s);
}

/// Sorting two points puts the one first that comes before the other, and
/// leaves them as they are where neither does.
pub proof fn lemma_sorted_two(p: Point, q: Point)
    ensures
        sorted(seq![p, q]) == if lex_less(q@, p@) { seq![q, p] } else { seq![p, q] },
        sorted(seq![p]) == seq![p],
{
    let s = seq![p, q];
    assert(s.take(1) == seq![p]);
    assert(s.skip(1) == seq![q]);
    let a = seq![p];
    let b = seq![q];
    assert(sorted(a) == a && sorted(b) == b);
    assert(sorted(s) == merged(a, b));
    let e = Seq::<Point>::empty();
    assert(a.skip(1) == e && b.skip(1) == e);
    assert(merged(a, e) == a);
    assert(merged(e, b) == b);
    if lex_less(q@, p@) {
        assert(merged(a, b) == seq![q] + merged(a, b.skip(1)));
        assert(seq![q] + a == seq![q, p]);
    } else {
        assert(merged(a, b) == seq![p] + merged(a.skip(1), b));
        assert(seq![p] + b == seq![p, q]);
    }
}

/// Merging keeps every point, as often as it occurs.
pub proof fn lemma_merged_permutes(a: Seq<Point>, b: Seq<Point>)
    ensures
        merged(a, b).to_multiset() == a.to_multiset().add(b.to_multiset()),
    decreases a.len() + b.len(),
{
    broadcast use vstd::seq_lib::lemma_multiset_commutative;

    if a.len() == 0 {
        assert(a.to_multiset().add(b.to_multiset()) =~= (a + b).to_multiset());
        assert(a + b == b);
    } else if b.len() == 0 {
        assert(a.to_multiset().add(b.to_multiset()) =~= (a + b).to_multiset());
        assert(a + b == a);
    } else if lex_less(b[0]@, a[0]@) {
        lemma_merged_permutes(a, b.skip(1));
        assert(b == seq![b[0]] + b.skip(1));
        assert(merged(a, b).to_multiset() =~= seq![b[0]].to_multiset().add(
            a.to_multiset().add(b.skip(1).to_multiset()),
        ));
        assert(b.to_multiset() =~= seq![b[0]].to_multiset().add(b.skip(1).to_multiset()));
        assert(merged(a, b).to_multiset() =~= a.to_multiset().add(b.to_multiset()));
    } else {
        lemma_merged_permutes(a.skip(1), b);
        assert(a == seq![a[0]] + a.skip(1));
        assert(merged(a, b).to_multiset() =~= seq![a[0]].to_multiset().add(
            a.skip(1).to_multiset().add(b.to_multiset()),
        ));
        assert(a.to_multiset() =~= seq![a[0]].to_multiset().add(a.skip(1).to_multiset()));
        assert(merged(a, b).to_multiset() =~= a.to_multiset().add(b.to_multiset()));
    }
}

/// Sorting keeps every point, as often as it occurs.
pub proof fn lemma_sorted_permutes(s: Seq<Point>)
    ensures
        sorted(s).to_multiset() == s.to_multiset(),
        sorted(s).len() == s.len(),
    decreases s.len(),
{
    broadcast use vstd::seq_lib::lemma_multiset_commutative;

    if s.len() > 1 {
        let m = (s.len() / 2) as int;
        lemma_sorted_permutes(s.take(m));
        lemma_sorted_permutes(s.skip(m));
        lemma_merged_permutes(sorted(s.take(m)), sorted(s.skip(m)));
        lemma_merged_len(sorted(s.take(m)), sorted(s.skip(m)));
        assert(s == s.take(m) + s.skip(m));
        assert(s.to_multiset() =~= s.take(m).to_multiset().add(s.skip(m).to_multiset()));
    }
}

/// Merging two sequences that are in order gives one that is in order.
pub proof fn lemma_merged_in_order(a: Seq<Point>, b: Seq<Point>)
    requires
        in_order(a),
        in_order(b),
    ensures
        in_order(merged(a, b)),
        merged(a, b).len() == a.len() + b.len(),
        merged(a, b).len() > 0 ==> (a.len() > 0 && merged(a, b)[0] == a[0]) || (b.len() > 0
            && merged(a, b)[0] == b[0]),
    decreases a.len() + b.len(),
{
    if a.len() == 0 || b.len() == 0 {
    } else {
        let first_b = lex_less(b[0]@, a[0]@);
        let (ra, rb) = if first_b { (a, b.skip(1)) } else { (a.skip(1), b) };
        let h = if first_b { b[0] } else { a[0] };
        assert(in_order(ra)) by {
            assert forall|i: int| 0 <= i && i + 1 < ra.len() implies !lex_less(
                ra[i + 1]@,
                (#[trigger] ra[i])@,
            ) by {
                if !first_b {
                    assert(ra[i] == a[i + 1]);
                }
            }
        }
        assert(in_order(rb)) by {
            assert forall|i: int| 0 <= i && i + 1 < rb.len() implies !lex_less(
                rb[i + 1]@,
                (#[trigger] rb[i])@,
            ) by {
                if first_b {
                    assert(rb[i] == b[i + 1]);
                }
            }
        }
        lemma_merged_in_order(ra, rb);
        let rest = merged(ra, rb);
        let out = merged(a, b);
        assert(out == seq![h] + rest);
        assert forall|i: int| 0 <= i && i + 1 < out.len() implies !lex_less(
            out[i + 1]@,
            (#[trigger] out[i])@,
        ) by {
            if i == 0 {
                assert(out[1] == rest[0]);
                if first_b {
                    if rb.len() > 0 && rest[0] == rb[0] {
                        assert(rb[0] == b[1]);
                        assert(!lex_less(b[0int + 1]@, b[0int]@));
                    }
                } else {
                    if ra.len() > 0 && rest[0] == ra[0] {
                        assert(ra[0] == a[1]);
                        assert(!lex_less(a[0int + 1]@, a[0int]@));
                    }
                }
            } else {
                assert(out[i] == rest[i - 1] && out[i + 1] == rest[i - 1 + 1]);
            }
        }
    }
}

/// In a sorted sequence no point comes before the point in front of it.
/// More does not hold of every input, since the tolerant order is not
/// transitive.
pub proof fn lemma_sorted_in_order(s: Seq<Point>)
    ensures
        in_order(sorted(s)),
    decreases s.len(),
{
    if s.len() > 1 {
        let m = (s.len() / 2) as int;
        lemma_sorted_in_order(s.take(m));
        lemma_sorted_in_order(s.skip(m));
        lemma_merged_in_order(sorted(s.take(m)), sorted(s.skip(m)));
    }
}

/// The hull of one point is that point, in both chains.
pub proof fn lemma_hull_of_one(p: Point, upper: bool)
    ensures
        chain_of(sorted(seq![p]), upper) == seq![p],
{
    lemma_sorted_two(p, p);
    lemma_chain_of_one(p, upper);
}

/// The hull of two points is the segment between them: both chains are the
/// two points, first the one that comes before the other.
pub proof fn lemma_hull_of_two(p: Point, q: Point, upper: bool)
    ensures
        chain_of(sorted(seq![p, q]), upper) == sorted(seq![p, q]),
        sorted(seq![p, q]) == if lex_less(q@, p@) { seq![q, p] } else { seq![p, q] },
{
    lemma_sorted_two(p, q);
    lemma_chain_of_two(p, q, upper);
    lemma_chain_of_two(q, p, upper);
}

/// The beginning of a subsequence is a subsequence.
pub proof fn lemma_subsequence_prefix(c: Seq<Point>, s: Seq<Point>, k: int)
    requires
        subsequence(c, s),
        0 <= k <= c.len(),
    ensures
        subsequence(c.take(k), s),
    decreases s.len(),
{
    if k == 0 || c.len() == 0 {
    } else if k == c.len() {
        assert(c.take(k) == c);
    } else {
        if c.last() == s.last() && subsequence(c.drop_last(), s.drop_last()) {
            assert(c.drop_last().take(k) == c.take(k));
            lemma_subsequence_prefix(c.drop_last(), s.drop_last(), k);
        } else {
            lemma_subsequence_prefix(c, s.drop_last(), k);
        }
    }
}

/// A chain holds only points that were swept, in the order in which they
/// were swept: every vertex of a hull is one of the sorted points, and the
/// vertices of a chain follow each other as the sorted points do.
pub proof fn lemma_chain_subsequence(pts: Seq<Point>, upper: bool)
    ensures
        subsequence(chain_of(pts, upper), pts),
    decreases pts.len(),
{
    if pts.len() > 0 {
        let p = pts.last();
        let before = chain_of(pts.drop_last(), upper);
        let kept = trimmed(before, p, upper);
        lemma_chain_subsequence(pts.drop_last(), upper);
        lemma_trimmed_prefix(before, p, upper);
        lemma_subsequence_prefix(before, pts.drop_last(), kept.len() as int);
        assert(kept.push(p).drop_last() == kept);
    }
}

/// Every point of a subsequence is a point of the sequence.
pub proof fn lemma_subsequence_members(c: Seq<Point>, s: Seq<Point>)
    requires
        subsequence(c, s),
    ensures
        forall|i: int| 0 <= i < c.len() ==> s.contains(#[trigger] c[i]),
    decreases s.len(),
{
    if c.len() > 0 {
        let rest = s.drop_last();
        if c.last() == s.last() && subsequence(c.drop_last(), rest) {
            lemma_subsequence_members(c.drop_last(), rest);
            assert forall|i: int| 0 <= i < c.len() implies s.contains(#[trigger] c[i]) by {
                if i + 1 < c.len() {
                    assert(c[i] == c.drop_last()[i]);
                    let j = choose|j: int| 0 <= j < rest.len() && rest[j] == c[i];
                    assert(s[j] == c[i]);
                } else {
                    assert(s[s.len() - 1] == c[i]);
                }
            }
        } else {
            lemma_subsequence_members(c, rest);
            assert forall|i: int| 0 <= i < c.len() implies s.contains(#[trigger] c[i]) by {
                let j = choose|j: int| 0 <= j < rest.len() && rest[j] == c[i];
                assert(s[j] == c[i]);
            }
        }
    }
}

/// Every vertex of the hull is one of the points it was made of.
pub proof fn lemma_hull_vertices(pts: Seq<Point>, upper: bool)
    ensures
        forall|i: int|
            0 <= i < chain_of(sorted(pts), upper).len() ==> pts.contains(
                #[trigger] chain_of(sorted(pts), upper)[i],
            ),
{
    broadcast use vstd::seq_lib::to_multiset_contains;

    let s = sorted(pts);
    let c = chain_of(s, upper);
    lemma_chain_subsequence(s, upper);
    lemma_subsequence_members(c, s);
    lemma_sorted_permutes(pts);
    assert forall|i: int| 0 <= i < c.len() implies pts.contains(#[trigger] c[i]) by {
        assert(s.contains(c[i]));
        assert(s.to_multiset().count(c[i]) > 0);
    }
}

} // verus!
