use vstd::prelude::*;
use crate::card::{Card, CardType};
use crate::card_points::CardPoints;
use crate::cards::Cards;
use crate::game_type::GameType;
use crate::position::Position;
use crate::power::CardPower;

verus! {

/// Three different cards in the order in which they were played.
#[derive(Clone, Copy, Debug, PartialEq, Eq, Structural)]
pub struct Trick {
    first: Card,
    second: Card,
    third: Card,
}

impl Trick {
    pub closed spec fn spec_first(self) -> Card {
        self.first
    }

    pub closed spec fn spec_second(self) -> Card {
        self.second
    }

    pub closed spec fn spec_third(self) -> Card {
        self.third
    }

    /// The trick of three cards in the order in which they were played.
    pub closed spec fn spec_new(first: Card, second: Card, third: Card) -> Trick {
        Trick { first, second, third }
    }

    pub broadcast proof fn lemma_new(first: Card, second: Card, third: Card)
        ensures
            (#[trigger] Trick::spec_new(first, second, third)).spec_first() == first,
            Trick::spec_new(first, second, third).spec_second() == second,
            Trick::spec_new(first, second, third).spec_third() == third,
    {
    }

    /// The three cards differ from each other.
    pub open spec fn wf(self) -> bool {
        &&& self.spec_first() != self.spec_second()
        &&& self.spec_first() != self.spec_third()
        &&& self.spec_second() != self.spec_third()
    }

    pub fn new(first: Card, second: Card, third: Card) -> (r: Trick)
        requires
            first != second,
            first != third,
            second != third,
        ensures
            r == Trick::spec_new(first, second, third),
            r.wf(),
            r.spec_first() == first,
            r.spec_second() == second,
            r.spec_third() == third,
    {
        Trick { first, second, third }
    }

    #[verifier::when_used_as_spec(spec_first)]
    pub fn first(self) -> (r: Card)
        ensures
            r == self.spec_first(),
    {
        self.first
    }

    #[verifier::when_used_as_spec(spec_second)]
    pub fn second(self) -> (r: Card)
        ensures
            r == self.spec_second(),
    {
        self.second
    }

    #[verifier::when_used_as_spec(spec_third)]
    pub fn third(self) -> (r: Card)
        ensures
            r == self.spec_third(),
    {
        self.third
    }

    pub open spec fn spec_trick_type(self, game_type: GameType) -> CardType {
        self.spec_first().spec_card_type(game_type)
    }

    /// The type that has to be followed: that of the card that was led.
    #[verifier::when_used_as_spec(spec_trick_type)]
    pub fn trick_type(self, game_type: GameType) -> (r: CardType)
        ensures
            r == self.spec_trick_type(game_type),
    {
        self.first.card_type(game_type)
    }

    /// The power of each of the three cards in this trick.
    pub open spec fn powers(self, game_type: GameType) -> (int, int, int) {
        let trick_type = self.spec_trick_type(game_type);
        (
            CardPower::spec_of(self.spec_first(), trick_type, game_type),
            CardPower::spec_of(self.spec_second(), trick_type, game_type),
            CardPower::spec_of(self.spec_third(), trick_type, game_type),
        )
    }

    /// The place of the card with the greatest power. The card that was led is
    /// never deactivated, so it wins against two deactivated cards.
    pub open spec fn spec_winner_position(self, game_type: GameType) -> Position {
        let (forehand, middlehand, rearhand) = self.powers(game_type);
        if forehand < middlehand && rearhand < middlehand {
            Position::Middlehand
        } else if forehand < rearhand && middlehand < rearhand {
            Position::Rearhand
        } else {
            Position::Forehand
        }
    }

    /// Who wins the trick: the place of the card with the greatest power.
    pub fn winner_position(self, game_type: GameType) -> (r: Position)
        requires
            self.wf(),
        ensures
            r == self.spec_winner_position(game_type),
    {
        let trick_type = self.trick_type(game_type);

        if let GameType::Trump(trump_type) = game_type {
            let trump = Cards::of_trump(game_type);

            let trump_1 = Cards::just(self.first).and(trump);
            let trump_2 = Cards::just(self.second).and(trump);
            let trump_3 = Cards::just(self.third).and(trump);

            proof {
                self.lemma_masked(Cards::spec_of_card_type(CardType::Trump, game_type), trump_type,
                    CardType::Trump);
            }

            if trump_1.or(trump_2).or(trump_3).is_empty() {
                let matching_cards = Cards::of_card_type(trick_type, game_type);
                let matching_1 = Cards::just(self.first);
                let matching_2 = Cards::just(self.second).and(matching_cards);
                let matching_3 = Cards::just(self.third).and(matching_cards);

                proof {
                    self.lemma_unmasked_first(matching_cards, trump_type, trick_type);
                    self.lemma_masked(matching_cards, trump_type, trick_type);
                    self.lemma_all_empty(trump_1, trump_2, trump_3);
                }

                return if matching_1.smaller(matching_2) {
                    if matching_2.smaller(matching_3) {
                        Position::Rearhand
                    } else {
                        Position::Middlehand
                    }
                } else if matching_1.smaller(matching_3) {
                    Position::Rearhand
                } else {
                    Position::Forehand
                };
            }
            proof {
                self.lemma_not_all_empty(trump_1, trump_2, trump_3);
            }

            return if trump_1.smaller(trump_2) {
                if trump_2.smaller(trump_3) {
                    Position::Rearhand
                } else {
                    Position::Middlehand
                }
            } else if trump_1.smaller(trump_3) {
                Position::Rearhand
            } else {
                Position::Forehand
            };
        }
        let power_forehand = CardPower::of(self.first, trick_type, game_type);
        let power_middlehand = CardPower::of(self.second, trick_type, game_type);
        let power_rearhand = CardPower::of(self.third, trick_type, game_type);

        proof {
            CardPower::lemma_powers_differ(self.first, self.second, trick_type, game_type);
            CardPower::lemma_powers_differ(self.first, self.third, trick_type, game_type);
            if power_middlehand.0 != CardPower::deactivated() {
                CardPower::lemma_powers_differ(self.second, self.third, trick_type, game_type);
            }
        }

        if power_forehand.0 <= power_middlehand.0 {
            if power_middlehand.0 <= power_rearhand.0 {
                Position::Rearhand
            } else {
                Position::Middlehand
            }
        } else if power_forehand.0 <= power_rearhand.0 {
            Position::Rearhand
        } else {
            Position::Forehand
        }
    }

    /// How the three cards, each kept only if it is of `card_type`, compare as
    /// sets: as their powers in a trick of that type compare, where a card that
    /// was not kept counts as the weakest.
    proof fn lemma_masked(self, of_type: Cards, trump: CardType, card_type: CardType)
        requires
            self.wf(),
            of_type == Cards::spec_of_card_type(card_type, GameType::Trump(trump)),
        ensures
            ({
                let game_type = GameType::Trump(trump);
                let kept_first = Cards::spec_just(self.first).spec_and(of_type);
                let kept_second = Cards::spec_just(self.second).spec_and(of_type);
                let kept_third = Cards::spec_just(self.third).spec_and(of_type);
                let power_of_first = Trick::masked_power(self.first, card_type, game_type);
                let power_of_second = Trick::masked_power(self.second, card_type, game_type);
                let power_of_third = Trick::masked_power(self.third, card_type, game_type);
                &&& kept_first.spec_smaller(kept_second) == (power_of_first < power_of_second)
                &&& kept_first.spec_smaller(kept_third) == (power_of_first < power_of_third)
                &&& kept_second.spec_smaller(kept_third) == (power_of_second < power_of_third)
                &&& kept_first.spec_is_empty() == (self.first.spec_card_type(game_type) != card_type)
                &&& kept_second.spec_is_empty() == (self.second.spec_card_type(game_type) != card_type)
                &&& kept_third.spec_is_empty() == (self.third.spec_card_type(game_type) != card_type)
            }),
    {
        Trick::lemma_masked_one(self.first, of_type, trump, card_type);
        Trick::lemma_masked_one(self.second, of_type, trump, card_type);
        Trick::lemma_masked_one(self.third, of_type, trump, card_type);
        Trick::lemma_masked_pair(self.first, self.second, of_type, trump, card_type);
        Trick::lemma_masked_pair(self.first, self.third, of_type, trump, card_type);
        Trick::lemma_masked_pair(self.second, self.third, of_type, trump, card_type);
    }

    /// The power of a card among the cards of one type, and -1 for a card of
    /// another type.
    pub open spec fn masked_power(card: Card, card_type: CardType, game_type: GameType) -> int {
        if card.spec_card_type(game_type) == card_type {
            CardPower::spec_of(card, card_type, game_type)
        } else {
            -1
        }
    }

    proof fn lemma_masked_one(card: Card, of_type: Cards, trump: CardType, card_type: CardType)
        requires
            of_type == Cards::spec_of_card_type(card_type, GameType::Trump(trump)),
        ensures
            Cards::spec_just(card).spec_and(of_type) == if card.spec_card_type(
                GameType::Trump(trump),
            ) == card_type {
                Cards::spec_just(card)
            } else {
                Cards::spec_empty()
            },
            Cards::spec_just(card).spec_and(of_type).spec_is_empty() == (card.spec_card_type(
                GameType::Trump(trump),
            ) != card_type),
    {
        let game_type = GameType::Trump(trump);
        let masked = Cards::spec_just(card).spec_and(of_type);
        let expected = if card.spec_card_type(game_type) == card_type {
            Cards::spec_just(card)
        } else {
            Cards::spec_empty()
        };
        assert forall|c: Card| masked.spec_contains(c) == expected.spec_contains(c) by {
            Cards::lemma_and(Cards::spec_just(card), of_type, c);
            Cards::lemma_just(card, c);
            Cards::lemma_empty(c);
            Cards::lemma_of_card_type(card_type, game_type, c);
        }
        masked.lemma_ext(expected);
        masked.lemma_is_empty();
        Cards::lemma_just(card, card);
    }

    proof fn lemma_masked_pair(a: Card, b: Card, of_type: Cards, trump: CardType, card_type:
        CardType)
        requires
            a != b,
            of_type == Cards::spec_of_card_type(card_type, GameType::Trump(trump)),
        ensures
            Cards::spec_just(a).spec_and(of_type).spec_smaller(
                Cards::spec_just(b).spec_and(of_type),
            ) == (Trick::masked_power(a, card_type, GameType::Trump(trump)) < Trick::masked_power(
                b,
                card_type,
                GameType::Trump(trump),
            )),
    {
        let game_type = GameType::Trump(trump);
        Trick::lemma_masked_one(a, of_type, trump, card_type);
        Trick::lemma_masked_one(b, of_type, trump, card_type);
        Cards::lemma_smaller_just(a, b);
        if a.spec_card_type(game_type) == card_type && b.spec_card_type(game_type) == card_type {
            CardPower::lemma_order_within_type(a, b, trump);
        }
    }

    proof fn lemma_unmasked_first(self, of_type: Cards, trump: CardType, card_type: CardType)
        requires
            of_type == Cards::spec_of_card_type(card_type, GameType::Trump(trump)),
            card_type == self.first.spec_card_type(GameType::Trump(trump)),
        ensures
            Cards::spec_just(self.first) == Cards::spec_just(self.first).spec_and(of_type),
    {
        Trick::lemma_masked_one(self.first, of_type, trump, card_type);
    }

    proof fn lemma_all_empty(self, a: Cards, b: Cards, c: Cards)
        requires
            a.spec_or(b).spec_or(c).spec_is_empty(),
        ensures
            a.spec_is_empty(),
            b.spec_is_empty(),
            c.spec_is_empty(),
    {
        a.spec_or(b).spec_or(c).lemma_is_empty();
        a.lemma_is_empty();
        b.lemma_is_empty();
        c.lemma_is_empty();
        assert forall|card: Card|
            !a.spec_contains(card) && !b.spec_contains(card) && !c.spec_contains(card) by {
            a.spec_or(b).lemma_or(c, card);
            a.lemma_or(b, card);
        }
    }

    proof fn lemma_not_all_empty(self, a: Cards, b: Cards, c: Cards)
        requires
            !a.spec_or(b).spec_or(c).spec_is_empty(),
        ensures
            !a.spec_is_empty() || !b.spec_is_empty() || !c.spec_is_empty(),
    {
        a.spec_or(b).spec_or(c).lemma_is_empty();
        a.lemma_is_empty();
        b.lemma_is_empty();
        c.lemma_is_empty();
        if a.spec_is_empty() && b.spec_is_empty() && c.spec_is_empty() {
            assert forall|card: Card| !a.spec_or(b).spec_or(c).spec_contains(card) by {
                a.spec_or(b).lemma_or(c, card);
                a.lemma_or(b, card);
            }
        }
    }

    pub open spec fn spec_to_points(self) -> int {
        self.spec_first().spec_to_points().0 + self.spec_second().spec_to_points().0
            + self.spec_third().spec_to_points().0
    }

    /// The points of the three cards together.
    pub fn to_points(self) -> (r: CardPoints)
        ensures
            r.0 == self.spec_to_points(),
            r.0 <= 33,
    {
        CardPoints(
            self.first.to_points().0 + self.second.to_points().0 + self.third.to_points().0,
        )
    }

    /// A trick holds at most 33 points.
    pub proof fn lemma_points_bound(self)
        ensures
            0 <= self.spec_to_points() <= 33,
    {
    }

    pub open spec fn spec_cards(&self) -> Cards {
        Cards::spec_just(self.spec_first()).spec_or(Cards::spec_just(self.spec_second())).spec_or(
            Cards::spec_just(self.spec_third()),
        )
    }

    /// The three cards as a set.
    #[verifier::when_used_as_spec(spec_cards)]
    pub fn cards(&self) -> (r: Cards)
        ensures
            r == self.spec_cards(),
    {
        let mut result = Cards::empty();
        result.add_new(self.first);
        result.add_new(self.second);
        result.add_new(self.third);
        proof {
            assert forall|c: Card| result.spec_contains(c) == self.spec_cards().spec_contains(
                c,
            ) by {
                Cards::lemma_empty(c);
                Cards::lemma_or(Cards::spec_empty(), Cards::spec_just(self.first), c);
                Cards::lemma_or(
                    Cards::spec_empty().spec_or(Cards::spec_just(self.first)),
                    Cards::spec_just(self.second),
                    c,
                );
                Cards::lemma_or(
                    Cards::spec_empty().spec_or(Cards::spec_just(self.first)).spec_or(
                        Cards::spec_just(self.second),
                    ),
                    Cards::spec_just(self.third),
                    c,
                );
                Cards::lemma_or(Cards::spec_just(self.first), Cards::spec_just(self.second), c);
                Cards::lemma_or(
                    Cards::spec_just(self.first).spec_or(Cards::spec_just(self.second)),
                    Cards::spec_just(self.third),
                    c,
                );
            }
            result.lemma_ext(self.spec_cards());
        }
        result
    }
}

} // verus!
