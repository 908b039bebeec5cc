//! Token spacing decisions.

use vstd::prelude::*;
use crate::cst::Kind;

verus! {

#[derive(Debug, Clone, Copy, PartialEq, Eq, Structural)]
pub enum SpaceDecision {
    NoSpace,
    Single,
}

/// The spacing to emit between `prev` and `next` given their parent
/// context: a single space in every context.
pub fn space_between(prev: Kind, next: Kind, parent: Kind) -> (r: SpaceDecision)
    ensures
        r == SpaceDecision::Single,
{
    SpaceDecision::Single
}

} // verus!
