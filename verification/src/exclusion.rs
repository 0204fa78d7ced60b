//! The exclusion rule of the force kernel.
//!
//! Two bodies act on each other only while they are further apart than the
//! sum of their radii. The kernel hands over the squared distance of the pair
//! and the square of that sum; a pair at exactly that distance, a coincident
//! pair and a body taken with itself are all left out.
use crate::encoding::{at_most, is_at_most};
use vstd::prelude::*;

verus! {

/// Whether a pair at squared distance `distance_squared` contributes no force
/// when the square of the sum of its radii is `reach_squared`.
pub open spec fn excluded(distance_squared: u64, reach_squared: u64) -> bool {
    at_most(distance_squared, reach_squared)
}

/// Decides whether a pair of bodies contributes no force.
pub fn pair_is_excluded(distance_squared: u64, reach_squared: u64) -> (left_out: bool)
    ensures
        left_out == excluded(distance_squared, reach_squared),
{
    is_at_most(distance_squared, reach_squared)
}

} // verus!
