//! Preconditions of the plane estimator.
use vstd::prelude::*;

verus! {

/// The fewest points that define a plane.
pub const MIN_PLANE_POINTS: usize = 3;

/// Why a plane cannot be fitted to a point set.
#[derive(Debug, Clone, Copy, PartialEq, Eq, Structural)]
pub enum FitError {
    /// The point set has fewer than three points; `count` is how many it has.
    TooFewPoints { count: usize },
}

/// Whether a point set of `count` points is large enough to define a plane.
pub open spec fn enough_points(count: nat) -> bool {
    count >= MIN_PLANE_POINTS as nat
}

/// Checks the size precondition of plane fitting before any accumulation
/// work begins: `Ok` exactly when there are at least three points, otherwise
/// the error that names the count.
pub fn check_point_count(count: usize) -> (r: Result<(), FitError>)
    ensures
        enough_points(count as nat) <==> r is Ok,
        !enough_points(count as nat) ==> r == Err::<(), FitError>(FitError::TooFewPoints { count }),
{
    if count < MIN_PLANE_POINTS {
        Err(FitError::TooFewPoints { count })
    } else {
        Ok(())
    }
}

} // verus!
