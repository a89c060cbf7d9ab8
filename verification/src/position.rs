use vstd::prelude::*;
use crate::bidding_role::BiddingRole;

verus! {

/// A place within a trick: who led, who played second, who played last.
#[derive(Clone, Copy, Debug, PartialEq, Eq, Structural)]
pub enum Position {
    Forehand,
    Middlehand,
    Rearhand,
}

impl Position {
    pub open spec fn spec_role(self, first_player: BiddingRole) -> BiddingRole {
        match self {
            Position::Forehand => first_player,
            Position::Middlehand => first_player.spec_next(),
            Position::Rearhand => first_player.spec_next().spec_next(),
        }
    }

    /// The seat that played at this place of a trick that `first_player` led.
    #[verifier::when_used_as_spec(spec_role)]
    pub fn role(self, first_player: BiddingRole) -> (r: BiddingRole)
        ensures
            r == self.spec_role(first_player),
    {
        match self {
            Position::Forehand => first_player,
            Position::Middlehand => first_player.next(),
            Position::Rearhand => first_player.next().next(),
        }
    }
}

} // verus!
