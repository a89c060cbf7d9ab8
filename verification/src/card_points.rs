use vstd::prelude::*;

verus! {

/// Card points ("Augen"): what a card counts for when the tricks are summed up.
#[derive(Clone, Copy, PartialEq, Eq, PartialOrd, Ord, Debug, Hash, Structural)]
pub struct CardPoints(pub u8);

impl CardPoints {
    /// The points of the whole deck.
    pub const DECK: u8 = 120;
}

} // verus!
