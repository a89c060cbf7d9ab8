use vstd::prelude::*;
use crate::bidding_role::BiddingRole;
use crate::card::Card;
use crate::cards::Cards;
use crate::game_type::GameType;
use crate::monte_carlo::{Announcement, AnnouncementError, Contract};
use crate::observed_gameplay::ObservedInitialGameState;

verus! {

/// What was announced, as it is read from a description of a game.
#[derive(Clone, Copy, Debug, PartialEq, Eq, Structural)]
pub struct AnnouncementDto {
    pub bidding_winner: BiddingRole,
    pub game_type: GameType,
    pub hand: bool,
    pub schneider: bool,
    pub schwarz: bool,
    pub ouvert: bool,
}

impl AnnouncementDto {
    pub fn game_type(&self) -> (r: GameType)
        ensures
            r == self.game_type,
    {
        self.game_type
    }

    pub fn bidding_winner(&self) -> (r: BiddingRole)
        ensures
            r == self.bidding_winner,
    {
        self.bidding_winner
    }

    /// The announcement, if the flags make one.
    pub fn announcement(&self) -> (r: Result<Announcement, AnnouncementError>)
        ensures
            r == Announcement::spec_new(
                self.game_type,
                self.hand,
                self.schneider,
                self.schwarz,
                self.ouvert,
            ),
    {
        Announcement::new(self.game_type, self.hand, self.schneider, self.schwarz, self.ouvert)
    }
}

/// A game as it is described to the program: who observes, his hand, the skat
/// if he knows it, what was announced and bid, and the cards that were played,
/// trick by trick.
pub struct Dto {
    pub position: BiddingRole,
    pub hand: Cards,
    pub skat: Cards,
    pub game_mode: AnnouncementDto,
    pub bidding_value: i16,
    pub played_cards: Vec<Vec<Card>>,
}

/// The cards of lists of cards, one list after the other.
pub open spec fn flattened(lists: Seq<Vec<Card>>) -> Seq<Card>
    decreases lists.len(),
{
    if lists.len() == 0 {
        Seq::empty()
    } else {
        flattened(lists.drop_last()) + lists.last()@
    }
}

impl Dto {
    pub open spec fn skat_if_known(&self) -> Option<Cards> {
        if self.skat.spec_len() == 0 {
            None
        } else {
            Some(self.skat)
        }
    }

    /// The description makes sense with the given announcement: the skat is
    /// given with both cards or not at all, and what the observer says he
    /// knows is what he can know.
    pub open spec fn fits(&self, announcement: Announcement) -> bool {
        &&& self.skat.spec_len() == 0 || self.skat.spec_len() == 2
        &&& ObservedInitialGameState::is_valid(
            self.hand,
            self.skat_if_known(),
            None,
            self.position,
            self.game_mode.bidding_winner,
            Contract { bidding_value: self.bidding_value, announcement },
        )
    }

    /// Whether the description makes sense with the given announcement.
    pub fn check_fits(&self, announcement: Announcement) -> (r: bool)
        ensures
            r == self.fits(announcement),
    {
        let length = self.skat.len();
        if length != 0 && length != 2 {
            return false;
        }
        let skat_if_known = if length == 0 {
            None
        } else {
            Some(self.skat)
        };
        ObservedInitialGameState::check_valid(
            self.hand,
            skat_if_known,
            None,
            self.position,
            self.game_mode.bidding_winner(),
            Contract::new(self.bidding_value, announcement),
        )
    }

    /// What the observer knows before the first card, if the flags make an
    /// announcement. The description has to make sense with it.
    pub fn pre_game_observations(&self) -> (r: Result<ObservedInitialGameState, AnnouncementError>)
        requires
            Announcement::spec_new(
                self.game_mode.game_type,
                self.game_mode.hand,
                self.game_mode.schneider,
                self.game_mode.schwarz,
                self.game_mode.ouvert,
            ) matches Ok(announcement) ==> self.fits(announcement),
        ensures
            match Announcement::spec_new(
                self.game_mode.game_type,
                self.game_mode.hand,
                self.game_mode.schneider,
                self.game_mode.schwarz,
                self.game_mode.ouvert,
            ) {
                Err(error) => r == Err::<ObservedInitialGameState, AnnouncementError>(error),
                Ok(announcement) => {
                    &&& r matches Ok(state)
                    &&& state.wf()
                    &&& state.spec_start_hand() == self.hand
                    &&& state.spec_skat_if_known() == self.skat_if_known()
                    &&& state.spec_revealed_if_known_and_not_own_hand() == None::<Cards>
                    &&& state.spec_game_type() == self.game_mode.game_type
                    &&& state.spec_bidding_role() == self.position
                    &&& state.spec_bidding_winner() == self.game_mode.bidding_winner
                    &&& state.spec_contract() == (Contract {
                        bidding_value: self.bidding_value,
                        announcement,
                    })
                },
            },
    {
        let announcement = match self.game_mode.announcement() {
            Ok(announcement) => announcement,
            Err(error) => {
                return Err(error);
            },
        };
        let skat_if_known = if self.skat.len() == 0 {
            None
        } else {
            Some(self.skat)
        };

        let contract = Contract::new(self.bidding_value, announcement);

        Ok(
            ObservedInitialGameState::new(
                self.hand,
                skat_if_known,
                None,
                self.game_mode.game_type(),
                self.position,
                self.game_mode.bidding_winner(),
                contract,
            ),
        )
    }

    /// The cards that were played, in the order in which they were played.
    pub fn played_cards(&self) -> (r: Vec<Card>)
        ensures
            r@ == flattened(self.played_cards@),
    {
        let mut result: Vec<Card> = Vec::new();
        let mut i: usize = 0;
        proof {
            assert(self.played_cards@.take(0) =~= Seq::<Vec<Card>>::empty());
        }
        while i < self.played_cards.len()
            invariant
                i <= self.played_cards@.len(),
                result@ == flattened(self.played_cards@.take(i as int)),
            decreases self.played_cards@.len() - i,
        {
            let trick = &self.played_cards[i];
            let ghost before = result@;
            let mut k: usize = 0;
            while k < trick.len()
                invariant
                    k <= trick@.len(),
                    result@ == before + trick@.take(k as int),
                decreases trick@.len() - k,
            {
                result.push(trick[k]);
                proof {
                    assert(trick@.take(k + 1) =~= trick@.take(k as int).push(trick@[k as int]));
                }
                k += 1;
            }
            proof {
                assert(trick@.take(k as int) =~= trick@);
                assert(self.played_cards@.take(i + 1).drop_last() =~= self.played_cards@.take(
                    i as int,
                ));
            }
            i += 1;
        }
        proof {
            assert(self.played_cards@.take(i as int) =~= self.played_cards@);
        }
        result
    }
}

} // verus!
