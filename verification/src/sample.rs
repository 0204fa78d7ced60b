//! What a finished sample is summed up to before it is shown.
use vstd::prelude::*;

verus! {

/// The least and the greatest of the step counts of a sample, in that order:
/// the range that an axis of step counts has to cover. Of no step counts, the
/// least is the greatest number there is, and the greatest is zero.
pub fn step_bounds(steps: &Vec<usize>) -> (bounds: (usize, usize))
    ensures
        forall|k: int| 0 <= k < steps.len() ==> bounds.0 <= #[trigger] steps[k] <= bounds.1,
        steps.len() == 0 ==> bounds.0 == usize::MAX && bounds.1 == 0,
        steps.len() > 0 ==> exists|k: int| 0 <= k < steps.len() && #[trigger] steps[k] == bounds.0,
        steps.len() > 0 ==> exists|k: int| 0 <= k < steps.len() && #[trigger] steps[k] == bounds.1,
{
    let mut least: usize = usize::MAX;
    let mut greatest: usize = 0;
    let mut seen: usize = 0;
    while seen < steps.len()
        invariant
            seen <= steps.len(),
            forall|k: int| 0 <= k < seen ==> least <= #[trigger] steps[k] <= greatest,
            seen == 0 ==> least == usize::MAX && greatest == 0,
            seen > 0 ==> exists|k: int| 0 <= k < seen && #[trigger] steps[k] == least,
            seen > 0 ==> exists|k: int| 0 <= k < seen && #[trigger] steps[k] == greatest,
        decreases steps.len() - seen,
    {
        let count = steps[seen];
        if count < least {
            least = count;
        }
        if count > greatest {
            greatest = count;
        }
        seen = seen + 1;
    }
    (least, greatest)
}

} // verus!
