//! A planar geometry kernel on a fixed-point grid: vectors, lines, circles
//! and convex hulls.
//!
//! Every coordinate, length, radius and scalar product is a signed 64-bit
//! fixed-point number: an `i64` that counts grid steps, `SCALE` steps to the
//! unit. Products and quotients are formed exactly in wider integers and then
//! rounded once, toward zero, so that every result is a definite integer and
//! every contract is an exact statement about integers.
//!
//! Two numbers that differ by less than `EPS` count as equal wherever the
//! kernel compares: in the equality of points, in the order by which points
//! are sorted, and in every test for a tangent, a parallel or a flat turn.
//!
//! The queries accept coordinates and radii up to `LIMIT`. Within it no
//! operation overflows or panics. What cannot be computed is refused with a
//! `GeometryError`; that two things do not meet is no error but `None`.
use vstd::prelude::*;

pub mod containment;
pub mod convex_hull;
pub mod fixed;
pub mod hull_proofs;
pub mod line;
pub mod point;
pub mod round;

verus! {

/// Grid steps per unit: the number one is stored as `SCALE`.
pub const SCALE: i64 = 1_000_000;

/// The tolerance: two scalars that differ by less than `EPS` grid steps are
/// treated as equal.
pub const EPS: i64 = 1_000;

/// The largest magnitude of a coordinate or radius that the kernel accepts.
/// Within it no intermediate value can leave the machine integers.
pub const LIMIT: i64 = 500_000_000_000;

/// What `eq_f64` decides: the two scalars differ by less than `EPS`.
pub open spec fn near(a: int, b: int) -> bool {
    -EPS < a - b < EPS
}

/// Tolerant equality of two 64-bit fixed-point scalars.
pub fn eq_f64(a: i64, b: i64) -> (r: bool)
    ensures
        r == near(a as int, b as int),
{
    let d: i128 = a as i128 - b as i128;
    -(EPS as i128) < d && d < EPS as i128
}

/// `near` holds of every scalar and itself, and in both directions or in none.
pub proof fn lemma_near_reflexive_symmetric(a: int, b: int)
    ensures
        near(a, a),
        near(a, b) == near(b, a),
{
}

/// `near` is not transitive: a chain of neighbours can drift beyond `EPS`.
pub proof fn lemma_near_not_transitive()
    ensures
        exists|a: int, b: int, c: int| near(a, b) && near(b, c) && !near(a, c),
{
    assert(near(0, 600) && near(600, 1200) && !near(0, 1200));
}

/// Why an operation could not give a result.
#[derive(Debug, Clone, Copy, PartialEq, Eq, Structural)]
pub enum GeometryError {
    /// A line whose endpoints are no further apart than `EPS`.
    DegenerateLine,
    /// A vector no longer than `EPS` where a direction was needed.
    ZeroVector,
    /// A divisor no larger in magnitude than `EPS`.
    ZeroDivisor,
    /// The exact result has a coordinate that no `i64` holds.
    OutOfRange,
}

} // verus!
