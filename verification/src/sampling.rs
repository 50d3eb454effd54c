//! Which random points are kept.
//!
//! A point inside the unit ball, or inside the unit disk, is found by
//! rejection: points are drawn from the enclosing cube or square until one
//! lies inside. A point of the hemisphere around a normal is a point of the
//! ball, turned around where it lies on the far side.

use vstd::prelude::*;
use crate::scalar::Scalar;
use crate::scalar::ONE_BITS;

verus! {

/// A point lies inside the unit ball, or the unit disk, if its squared length
/// is below one.
pub open spec fn spec_inside_unit(len2: Scalar) -> bool {
    len2.spec_lt(Scalar { bits: ONE_BITS })
}

/// A point lies on the side of a normal if their dot product is above zero.
pub open spec fn spec_same_side(facing: Scalar) -> bool {
    facing.spec_gt(Scalar { bits: 0 })
}

/// Whether a point that was drawn is kept, from its squared length.
pub fn inside_unit(len2: Scalar) -> (keep: bool)
    ensures
        keep == spec_inside_unit(len2),
{
    let one = Scalar::one();
    len2.lt(&one)
}

/// Whether a point of the ball is kept as it is for the hemisphere around a
/// normal, from their dot product. Otherwise it is negated.
pub fn same_side(facing: Scalar) -> (keep: bool)
    ensures
        keep == spec_same_side(facing),
{
    let zero = Scalar::zero();
    facing.gt(&zero)
}

/// After the turn the point is on the normal's side or on the boundary: the
/// dot product of the normal with the point that is handed out, which is
/// `facing` or its negation, is never below zero.
pub proof fn lemma_hemisphere_side(facing: Scalar)
    requires
        !facing.is_nan(),
    ensures
        spec_same_side(facing) ==> facing.key() > 0,
        !spec_same_side(facing) ==> facing.spec_neg().key() >= 0,
{
}

} // verus!
