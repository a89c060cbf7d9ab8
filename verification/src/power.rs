use vstd::prelude::*;
use crate::card::{Card, CardType, Rank, Suit};
use crate::game_type::GameType;

verus! {

/// How strong a card is within one trick. The greater power beats the smaller.
#[derive(Clone, Copy, PartialEq, Eq, PartialOrd, Ord, Debug, Structural)]
pub struct CardPower(pub i8);

impl CardPower {
    /// The power of a card that neither follows the led type nor is a trump:
    /// it is below every other power.
    pub open spec fn deactivated() -> int {
        -1
    }

    /// A rank's place in the order of a Null game: 7, 8, 9, Z, U, O, K, A.
    pub open spec fn null_order(rank: Rank) -> int {
        match rank {
            Rank::L7 => 0,
            Rank::L8 => 1,
            Rank::L9 => 2,
            Rank::Z => 3,
            Rank::U => 4,
            Rank::O => 5,
            Rank::K => 6,
            Rank::A => 7,
        }
    }

    /// A suit's place in the order of the Us: diamonds, hearts, spades, clubs.
    pub open spec fn suit_order(suit: Suit) -> int {
        match suit {
            Suit::Diamonds => 0,
            Suit::Hearts => 1,
            Suit::Spades => 2,
            Suit::Clubs => 3,
        }
    }

    /// A card's strength within its own type in a trump game: 7, 8, 9, O, K, Z, A,
    /// and above them the four Us by their suits.
    pub open spec fn trump_game_order(card: Card) -> int {
        match card.spec_rank() {
            Rank::Z => 7,
            Rank::A => 8,
            Rank::U => 9 + CardPower::suit_order(card.spec_suit()),
            other_rank => CardPower::null_order(other_rank),
        }
    }

    /// The power of a card in a trick of the given type: deactivated unless the
    /// card is a trump or of the trick's type; else the card's place in the
    /// game's order, with every trump above every other card.
    pub open spec fn spec_of(card: Card, trick_type: CardType, game_type: GameType) -> int {
        let card_type = card.spec_card_type(game_type);
        if card_type != CardType::Trump && card_type != trick_type {
            CardPower::deactivated()
        } else {
            match game_type {
                GameType::Null => CardPower::null_order(card.spec_rank()),
                GameType::Trump(_) => CardPower::trump_game_order(card) + if card_type
                    == CardType::Trump {
                    10int
                } else {
                    0int
                },
            }
        }
    }

    pub fn comes_from_deactivated_card(self) -> (r: bool)
        ensures
            r == (self.0 == CardPower::deactivated()),
    {
        self.0 == -1
    }

    pub fn of(card: Card, trick_type: CardType, game_type: GameType) -> (r: CardPower)
        ensures
            r.0 == CardPower::spec_of(card, trick_type, game_type),
            -1 <= r.0 <= 22,
    {
        let card_type = card.card_type(game_type);

        if !matches!(card_type, CardType::Trump) && card_type != trick_type {
            return CardPower(-1);
        }
        let rank = card.rank();

        CardPower(
            match game_type {
                GameType::Null => rank as i8,
                GameType::Trump(_) => {
                    let mut result: i8 = match rank {
                        Rank::Z => 7,
                        Rank::A => 8,
                        Rank::U => 9 + card.suit() as i8,
                        other_rank => other_rank as i8,
                    };

                    if matches!(card_type, CardType::Trump) {
                        result += 10;
                    }
                    result
                },
            },
        )
    }

    /// In a trump game, two cards of one type are ordered by power as they are
    /// ordered in the list of all cards.
    pub proof fn lemma_order_within_type(a: Card, b: Card, trump: CardType)
        requires
            a.spec_card_type(GameType::Trump(trump)) == b.spec_card_type(GameType::Trump(trump)),
        ensures
            ({
                let game_type = GameType::Trump(trump);
                let card_type = a.spec_card_type(game_type);
                (a.index() < b.index()) == (CardPower::spec_of(a, card_type, game_type)
                    < CardPower::spec_of(b, card_type, game_type))
            }),
    {
    }

    /// Within one trick two different cards that are not deactivated never have the same power.
    pub proof fn lemma_powers_differ(a: Card, b: Card, trick_type: CardType, game_type: GameType)
        requires
            a != b,
            CardPower::spec_of(a, trick_type, game_type) != CardPower::deactivated(),
        ensures
            CardPower::spec_of(a, trick_type, game_type) != CardPower::spec_of(
                b,
                trick_type,
                game_type,
            ),
    {
    }
}

} // verus!
