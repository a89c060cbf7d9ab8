use vstd::prelude::*;
use crate::bounds::Bounds;
use crate::card::Card;

verus! {

/// What the solver remembers of a position: bounds for the declarer's future
/// yield, and the card that decided the threshold when the position was last
/// looked at, if one did.
#[derive(Clone, Copy, Debug, PartialEq, Eq, Structural)]
pub struct BoundsAndMaybePreference {
    pub bounds: Bounds,
    pub maybe_preference: Option<Card>,
}

impl BoundsAndMaybePreference {
    pub fn bounds(self) -> (r: Bounds)
        ensures
            r == self.bounds,
    {
        self.bounds
    }

    pub fn maybe_preference(self) -> (r: Option<Card>)
        ensures
            r == self.maybe_preference,
    {
        self.maybe_preference
    }

    pub fn new(bounds: Bounds, maybe_preference: Option<Card>) -> (r: BoundsAndMaybePreference)
        ensures
            r == (BoundsAndMaybePreference { bounds, maybe_preference }),
    {
        BoundsAndMaybePreference { bounds, maybe_preference }
    }
}

} // verus!
