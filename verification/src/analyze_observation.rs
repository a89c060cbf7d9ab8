use vstd::prelude::*;
use crate::bidding_role::BiddingRole;
use crate::game_type::GameType;
use crate::observed_gameplay::{ObservedInitialGameState, ObservedPlayedCards};

verus! {

/// Who plays what.
#[derive(Clone, Copy, Debug, PartialEq, Eq, Structural)]
pub struct GameMode {
    pub bidding_winner: BiddingRole,
    pub game_type: GameType,
}

impl GameMode {
    pub fn game_type(&self) -> (r: GameType)
        ensures
            r == self.game_type,
    {
        self.game_type
    }

    pub fn bidding_winner(&self) -> (r: BiddingRole)
        ensures
            r == self.bidding_winner,
    {
        self.bidding_winner
    }
}

/// Whether the observer has to decide now: it is his turn.
pub fn is_decision_of_observer(
    initial: &ObservedInitialGameState,
    observed_tricks: &ObservedPlayedCards,
) -> (r: bool)
    ensures
        r == (observed_tricks.spec_active_role() == initial.spec_bidding_role()),
{
    observed_tricks.active_role() == initial.bidding_role()
}

} // verus!
