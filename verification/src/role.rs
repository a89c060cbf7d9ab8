use vstd::prelude::*;
use crate::bidding_role::BiddingRole;

verus! {

/// A player's part in the game: the declarer, or the defender who plays after
/// the declarer, or the one who plays before.
#[derive(Clone, Copy, Debug, PartialEq, Eq, Hash, Structural)]
pub enum Role {
    Declarer,
    FirstDefender,
    SecondDefender,
}

impl Role {
    pub open spec fn spec_next(self) -> Role {
        match self {
            Role::Declarer => Role::FirstDefender,
            Role::FirstDefender => Role::SecondDefender,
            Role::SecondDefender => Role::Declarer,
        }
    }

    /// The role that plays after this one.
    #[verifier::when_used_as_spec(spec_next)]
    pub fn next(self) -> (r: Role)
        ensures
            r == self.spec_next(),
    {
        match self {
            Role::Declarer => Role::FirstDefender,
            Role::FirstDefender => Role::SecondDefender,
            Role::SecondDefender => Role::Declarer,
        }
    }

    pub open spec fn spec_first_active(bidding_winner: BiddingRole) -> Role {
        match bidding_winner {
            BiddingRole::FirstReceiver => Role::Declarer,
            BiddingRole::FirstCaller => Role::SecondDefender,
            BiddingRole::SecondCaller => Role::FirstDefender,
        }
    }

    /// The role of the player who leads the first trick, who is the first
    /// receiver at the table.
    #[verifier::when_used_as_spec(spec_first_active)]
    pub fn first_active(bidding_winner: BiddingRole) -> (r: Role)
        ensures
            r == Role::spec_first_active(bidding_winner),
    {
        match bidding_winner {
            BiddingRole::FirstReceiver => Role::Declarer,
            BiddingRole::FirstCaller => Role::SecondDefender,
            BiddingRole::SecondCaller => Role::FirstDefender,
        }
    }

    pub open spec fn spec_other_defender(self) -> Role {
        match self {
            Role::Declarer => Role::Declarer,
            Role::FirstDefender => Role::SecondDefender,
            Role::SecondDefender => Role::FirstDefender,
        }
    }

    /// A defender's partner. The declarer has none and gets himself.
    #[verifier::when_used_as_spec(spec_other_defender)]
    pub fn other_defender(self) -> (r: Role)
        ensures
            r == self.spec_other_defender(),
    {
        match self {
            Role::Declarer => Role::Declarer,
            Role::FirstDefender => Role::SecondDefender,
            Role::SecondDefender => Role::FirstDefender,
        }
    }

    /// Three steps round the table lead back to the same role.
    pub proof fn lemma_next_cycles(self)
        ensures
            self.spec_next().spec_next().spec_next() == self,
            self.spec_next() != self,
            self.spec_next().spec_next() != self,
    {
    }
}

} // verus!
