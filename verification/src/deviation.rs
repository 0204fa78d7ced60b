//! Starting deviations and the divergence threshold.
//!
//! A perturbed world starts at some distance from the reference, its starting
//! deviation, and is followed until it lies at least twice as far away. Both
//! numbers come from the numeric side; what is decided here is whether a
//! starting deviation is usable at all, and whether a measured ratio of
//! divergence to starting deviation has reached the threshold.
use crate::encoding::{at_most, below, is_at_most, is_below, TWO_BITS, ZERO_BITS};
use vstd::prelude::*;

verus! {

/// Whether `bits` encodes a number above zero. A world whose starting
/// deviation is not above zero has no ratio to measure.
pub open spec fn encodes_positive(bits: u64) -> bool {
    below(ZERO_BITS, bits)
}

/// Whether every world of `deviations` starts away from the reference.
pub open spec fn all_positive(deviations: Seq<u64>) -> bool {
    forall|w: int| 0 <= w < deviations.len() ==> encodes_positive(#[trigger] deviations[w])
}

/// Whether a ratio of divergence to starting deviation is at least two.
pub open spec fn reaches_threshold(ratio: u64) -> bool {
    at_most(TWO_BITS, ratio)
}

/// For each measured ratio, whether it has reached the threshold.
pub open spec fn verdicts(ratios: Seq<u64>) -> Seq<bool> {
    Seq::new(ratios.len(), |p: int| reaches_threshold(ratios[p]))
}

/// Tells whether `bits` encodes a number above zero.
pub fn deviation_is_positive(bits: u64) -> (positive: bool)
    ensures
        positive == encodes_positive(bits),
{
    is_below(ZERO_BITS, bits)
}

/// Tells whether a ratio of divergence to starting deviation is at least two.
pub fn ratio_reaches_threshold(ratio: u64) -> (reached: bool)
    ensures
        reached == reaches_threshold(ratio),
{
    is_at_most(TWO_BITS, ratio)
}

/// The first world whose starting deviation is not above zero, if there is
/// one.
pub fn first_unperturbed(deviations: &Vec<u64>) -> (found: Option<usize>)
    ensures
        found is None <==> all_positive(deviations@),
        found matches Some(world) ==> {
            &&& world < deviations.len()
            &&& !encodes_positive(deviations[world as int])
            &&& all_positive(deviations@.take(world as int))
        },
{
    let mut world: usize = 0;
    while world < deviations.len()
        invariant
            world <= deviations.len(),
            all_positive(deviations@.take(world as int)),
        decreases deviations.len() - world,
    {
        if !deviation_is_positive(deviations[world]) {
            return Some(world);
        }
        assert forall|w: int| 0 <= w < world + 1 implies encodes_positive(
            #[trigger] deviations@.take(world + 1)[w],
        ) by {
            if w < world {
                assert(deviations@.take(world as int)[w] == deviations@[w]);
            }
        }
        world = world + 1;
    }
    assert(deviations@.take(world as int) =~= deviations@);
    None
}

} // verus!
