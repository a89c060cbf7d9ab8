use vstd::prelude::*;
use crate::role::Role;

verus! {

/// A seat at the table, named by its part in the bidding.
#[derive(Clone, Copy, Debug, PartialEq, Eq, Hash, Structural)]
pub enum BiddingRole {
    FirstReceiver,
    FirstCaller,
    SecondCaller,
}

impl BiddingRole {
    pub const DEALER: BiddingRole = BiddingRole::SecondCaller;

    pub const FIRST_ACTIVE_PLAYER: BiddingRole = BiddingRole::FirstReceiver;

    pub const SECOND_RECEIVER: BiddingRole = BiddingRole::FirstCaller;

    pub open spec fn spec_next(self) -> BiddingRole {
        match self {
            BiddingRole::FirstReceiver => BiddingRole::FirstCaller,
            BiddingRole::FirstCaller => BiddingRole::SecondCaller,
            BiddingRole::SecondCaller => BiddingRole::FirstReceiver,
        }
    }

    /// The seat that plays after this one.
    #[verifier::when_used_as_spec(spec_next)]
    pub fn next(self) -> (r: BiddingRole)
        ensures
            r == self.spec_next(),
    {
        match self {
            BiddingRole::FirstReceiver => BiddingRole::FirstCaller,
            BiddingRole::FirstCaller => BiddingRole::SecondCaller,
            BiddingRole::SecondCaller => BiddingRole::FirstReceiver,
        }
    }

    pub open spec fn spec_to_role(self, bidding_winner: BiddingRole) -> Role {
        let first_active = Role::spec_first_active(bidding_winner);
        match self {
            BiddingRole::FirstReceiver => first_active,
            BiddingRole::FirstCaller => first_active.spec_next(),
            BiddingRole::SecondCaller => first_active.spec_next().spec_next(),
        }
    }

    /// The role of the player on this seat, given who won the bidding.
    #[verifier::when_used_as_spec(spec_to_role)]
    pub fn to_role(self, bidding_winner: BiddingRole) -> (r: Role)
        ensures
            r == self.spec_to_role(bidding_winner),
    {
        let first_active = Role::first_active(bidding_winner);

        match self {
            BiddingRole::FirstReceiver => first_active,
            BiddingRole::FirstCaller => first_active.next(),
            BiddingRole::SecondCaller => first_active.next().next(),
        }
    }
}

} // verus!
