use vstd::prelude::*;
use crate::bits::{
    bit, highest_bit, lemma_bit_ext, lemma_bit_ops, lemma_bit_single, lemma_bit_test,
    lemma_flip_set_bit, lemma_highest_bit, lemma_lowest_bit, lemma_single_order,
    lemma_unit_weight_below, lemma_weighted_all, lemma_weighted_bound, lemma_weighted_or_and,
    lemma_weighted_positive, lemma_weighted_single, lemma_weighted_split, lemma_weighted_zero,
    lowest_bit, ones_in, weight_below, weighted_count, count_true, lemma_count_true,
};
use crate::card::{Card, CardType, Rank, Suit};
use crate::card_points::CardPoints;
use crate::game_type::GameType;
use vstd::std_specs::bits::{axiom_u32_leading_zeros, axiom_u32_trailing_zeros};

verus! {

/// A set of cards, kept as one bit per card: the bit at a card's place in the
/// list of all cards says whether the set holds the card.
///
/// What a value is, is given by `contains`: two sets with the same cards are equal
/// (`lemma_ext`). The other spec functions build sets (`spec_or`, `spec_and`,
/// `spec_without`, `spec_just`, ...) or measure them (`spec_len`, `spec_to_points`);
/// the lemmas of `group_cards` say which cards the built sets hold.
#[derive(Clone, Copy, PartialEq, Eq, Hash, Debug, Structural)]
pub struct Cards {
    bits: u32,
}

/// What each place of the bitset weighs when card points are summed up.
pub open spec fn point_weight() -> spec_fn(u32) -> nat {
    |i: u32| Card::spec_from_index(i).spec_to_points().0 as nat
}

proof fn lemma_masks(i: u32)
    by (bit_vector)
    requires
        i < 32,
    ensures
        bit(0b00010000_00000000_00000000_01111111u32, i) == (i < 7 || i == 28),
        bit(0b00100000_00000000_00111111_10000000u32, i) == (7 <= i < 14 || i == 29),
        bit(0b01000000_00011111_11000000_00000000u32, i) == (14 <= i < 21 || i == 30),
        bit(0b10001111_11100000_00000000_00000000u32, i) == (21 <= i < 28 || i == 31),
        bit(0b00000000_00100000_01000000_10000001u32, i) == (i == 0 || i == 7 || i == 14 || i
            == 21),
        bit(0b00000000_01000000_10000001_00000010u32, i) == (i == 1 || i == 8 || i == 15 || i
            == 22),
        bit(0b00000000_10000001_00000010_00000100u32, i) == (i == 2 || i == 9 || i == 16 || i
            == 23),
        bit(0b00000001_00000010_00000100_00001000u32, i) == (i == 3 || i == 10 || i == 17 || i
            == 24),
        bit(0b00000010_00000100_00001000_00010000u32, i) == (i == 4 || i == 11 || i == 18 || i
            == 25),
        bit(0b00000100_00001000_00010000_00100000u32, i) == (i == 5 || i == 12 || i == 19 || i
            == 26),
        bit(0b00001000_00010000_00100000_01000000u32, i) == (i == 6 || i == 13 || i == 20 || i
            == 27),
        bit(0b11110000_00000000_00000000_00000000u32, i) == (i >= 28),
        bit(0b00000000_11100001_11000011_10000111u32, i) == (i < 3 || 7 <= i < 10 || 14 <= i < 17
            || 21 <= i < 24),
{
}

/// What `lemma_masks` says of a place.
spec fn lemma_masks_holds(i: u32) -> bool {
    &&& bit(0b00010000_00000000_00000000_01111111u32, i) == (i < 7 || i == 28)
    &&& bit(0b00100000_00000000_00111111_10000000u32, i) == (7 <= i < 14 || i == 29)
    &&& bit(0b01000000_00011111_11000000_00000000u32, i) == (14 <= i < 21 || i == 30)
    &&& bit(0b10001111_11100000_00000000_00000000u32, i) == (21 <= i < 28 || i == 31)
    &&& bit(0b00000000_00100000_01000000_10000001u32, i) == (i == 0 || i == 7 || i == 14 || i
        == 21)
    &&& bit(0b00000000_01000000_10000001_00000010u32, i) == (i == 1 || i == 8 || i == 15 || i
        == 22)
    &&& bit(0b00000000_10000001_00000010_00000100u32, i) == (i == 2 || i == 9 || i == 16 || i
        == 23)
    &&& bit(0b00000001_00000010_00000100_00001000u32, i) == (i == 3 || i == 10 || i == 17 || i
        == 24)
    &&& bit(0b00000010_00000100_00001000_00010000u32, i) == (i == 4 || i == 11 || i == 18 || i
        == 25)
    &&& bit(0b00000100_00001000_00010000_00100000u32, i) == (i == 5 || i == 12 || i == 19 || i
        == 26)
    &&& bit(0b00001000_00010000_00100000_01000000u32, i) == (i == 6 || i == 13 || i == 20 || i
        == 27)
    &&& bit(0b11110000_00000000_00000000_00000000u32, i) == (i >= 28)
}

impl View for Cards {
    type V = Set<Card>;

    /// The set of the cards that the value holds.
    open spec fn view(&self) -> Set<Card> {
        Set::new(|card: Card| self.spec_contains(card))
    }
}

impl Cards {
    /// The set without any card.
    pub closed spec fn spec_empty() -> Cards {
        Cards { bits: 0 }
    }

    /// The whole deck.
    pub closed spec fn spec_all() -> Cards {
        Cards { bits: 0xffff_ffff }
    }

    /// The sevens, eights and nines: the cards that count no points.
    pub closed spec fn spec_of_zero_points() -> Cards {
        Cards { bits: 0b00000000_11100001_11000011_10000111 }
    }

    // ----- what a set is -----

    pub closed spec fn spec_detail_to_bits(self) -> u32 {
        self.bits
    }

    /// The set whose cards are the ones of a word.
    pub closed spec fn spec_from_bits(bits: u32) -> Cards {
        Cards { bits }
    }

    /// A set and its bits give each other.
    pub broadcast proof fn lemma_bits(self)
        ensures
            Cards::spec_from_bits(#[trigger] self.spec_detail_to_bits()) == self,
    {
    }

    pub closed spec fn spec_contains(self, card: Card) -> bool {
        bit(self.bits, card.index())
    }

    pub closed spec fn spec_is_empty(self) -> bool {
        self.bits == 0
    }

    pub closed spec fn spec_just(card: Card) -> Cards {
        Cards { bits: 1u32 << card.index() }
    }

    pub closed spec fn spec_or(self, other: Cards) -> Cards {
        Cards { bits: self.bits | other.bits }
    }

    pub closed spec fn spec_and(self, other: Cards) -> Cards {
        Cards { bits: self.bits & other.bits }
    }

    pub closed spec fn spec_without(self, other: Cards) -> Cards {
        Cards { bits: self.bits & !other.bits }
    }

    /// The number of cards in the set.
    pub closed spec fn spec_len(self) -> nat {
        ones_in(self.bits)
    }

    /// The sum of the points of the cards in the set.
    pub closed spec fn spec_to_points(self) -> nat {
        weighted_count(self.bits, 32, point_weight())
    }

    /// The first of the set's cards in the list of all cards. Only meant for a set
    /// that is not empty.
    pub closed spec fn spec_lowest(self) -> Card {
        Card::spec_from_index(lowest_bit(self.bits))
    }

    /// The last of the set's cards in the list of all cards. Only meant for a set
    /// that is not empty.
    pub closed spec fn spec_highest(self) -> Card {
        Card::spec_from_index(highest_bit(self.bits))
    }

    pub open spec fn spec_overlaps(self, other: Cards) -> bool {
        !self.spec_and(other).spec_is_empty()
    }

    pub open spec fn disjoint(self, other: Cards) -> bool {
        self.spec_and(other).spec_is_empty()
    }

    pub open spec fn subset_of(self, other: Cards) -> bool {
        forall|card: Card| self.spec_contains(card) ==> other.spec_contains(card)
    }

    /// Whether the set comes before the other when both are read as numbers:
    /// the last card that only one of the two holds is the other's.
    pub closed spec fn spec_smaller(self, other: Cards) -> bool {
        self.bits < other.bits
    }

    pub closed spec fn spec_of_suit(suit: Suit) -> Cards {
        Cards {
            bits: match suit {
                Suit::Diamonds => 0b00010000_00000000_00000000_01111111u32,
                Suit::Hearts => 0b00100000_00000000_00111111_10000000u32,
                Suit::Spades => 0b01000000_00011111_11000000_00000000u32,
                Suit::Clubs => 0b10001111_11100000_00000000_00000000u32,
            },
        }
    }

    pub closed spec fn spec_of_rank(rank: Rank) -> Cards {
        Cards {
            bits: match rank {
                Rank::L7 => 0b00000000_00100000_01000000_10000001u32,
                Rank::L8 => 0b00000000_01000000_10000001_00000010u32,
                Rank::L9 => 0b00000000_10000001_00000010_00000100u32,
                Rank::O => 0b00000001_00000010_00000100_00001000u32,
                Rank::K => 0b00000010_00000100_00001000_00010000u32,
                Rank::Z => 0b00000100_00001000_00010000_00100000u32,
                Rank::A => 0b00001000_00010000_00100000_01000000u32,
                Rank::U => 0b11110000_00000000_00000000_00000000u32,
            },
        }
    }

    pub open spec fn spec_of_trump(game_type: GameType) -> Cards {
        match game_type {
            GameType::Trump(CardType::Suit(suit)) => Cards::spec_of_rank(Rank::U).spec_or(
                Cards::spec_of_suit(suit),
            ),
            GameType::Trump(CardType::Trump) => Cards::spec_of_rank(Rank::U),
            GameType::Null => Cards::spec_empty(),
        }
    }

    pub open spec fn spec_of_card_type(card_type: CardType, game_type: GameType) -> Cards {
        match card_type {
            CardType::Trump => Cards::spec_of_trump(game_type),
            CardType::Suit(suit) => Cards::spec_of_suit(suit).spec_without(
                Cards::spec_of_trump(game_type),
            ),
        }
    }

    /// What may be played from this hand into a trick of the given type: the
    /// hand's cards of that type, or the whole hand if it has none.
    pub open spec fn spec_possible_plays_for_trick_type(
        self,
        trick_type: CardType,
        game_type: GameType,
    ) -> Cards {
        let following = self.spec_and(Cards::spec_of_card_type(trick_type, game_type));
        if following.spec_is_empty() {
            self
        } else {
            following
        }
    }

    /// What may be played from this hand: anything if no card has been led, else
    /// what may be played into a trick of the led card's type.
    pub open spec fn spec_possible_plays(
        self,
        maybe_first_trick_card: Option<Card>,
        game_type: GameType,
    ) -> Cards {
        match maybe_first_trick_card {
            None => self,
            Some(first) => self.spec_possible_plays_for_trick_type(
                first.spec_card_type(game_type),
                game_type,
            ),
        }
    }

    // ----- which cards the built sets hold -----

    /// Sets that hold the same cards are equal.
    pub proof fn lemma_ext(self, other: Cards)
        requires
            forall|card: Card| self.spec_contains(card) == other.spec_contains(card),
        ensures
            self == other,
    {
        assert forall|i: u32| i < 32 implies bit(self.bits, i) == bit(other.bits, i) by {
            let card = Card::spec_from_index(i);
            Card::lemma_from_index(i);
            assert(self.spec_contains(card) == other.spec_contains(card));
        }
        lemma_bit_ext(self.bits, other.bits);
    }

    pub broadcast proof fn lemma_view(self, card: Card)
        ensures
            #[trigger] self@.contains(card) == self.spec_contains(card),
    {
    }

    pub broadcast proof fn lemma_empty(card: Card)
        ensures
            !#[trigger] Cards::spec_empty().spec_contains(card),
    {
        card.lemma_index();
        lemma_bit_ops(0, 0, card.index());
    }

    pub broadcast proof fn lemma_all(card: Card)
        ensures
            #[trigger] Cards::spec_all().spec_contains(card),
    {
        card.lemma_index();
        lemma_bit_ops(0, 0, card.index());
    }

    /// The cards of no points are the sevens, eights and nines.
    pub broadcast proof fn lemma_zero_points(card: Card)
        ensures
            #[trigger] Cards::spec_of_zero_points().spec_contains(card) == (card.spec_to_points().0 == 0),
    {
        card.lemma_index();
        lemma_masks(card.index());
    }

    /// A set is empty exactly if it holds no card, and exactly if it is `EMPTY`.
    pub broadcast proof fn lemma_is_empty(self)
        ensures
            #[trigger] self.spec_is_empty() == (self == Cards::spec_empty()),
            self.spec_is_empty() == (forall|card: Card| !self.spec_contains(card)),
            !self.spec_is_empty() ==> self.spec_contains(self.spec_lowest()),
    {
        if self.bits != 0 {
            lemma_lowest_bit(self.bits);
            Card::lemma_from_index(lowest_bit(self.bits));
            assert(self.spec_contains(self.spec_lowest()));
        } else {
            assert forall|card: Card| !self.spec_contains(card) by {
                Cards::lemma_empty(card);
            }
        }
    }

    /// Two sets are disjoint exactly if no card is in both.
    pub broadcast proof fn lemma_disjoint(self, other: Cards)
        ensures
            #[trigger] self.spec_and(other).spec_is_empty() == (forall|card: Card|
                #![trigger self.spec_contains(card)]
                #![trigger other.spec_contains(card)]
                !(self.spec_contains(card) && other.spec_contains(card))),
    {
        self.spec_and(other).lemma_is_empty();
        assert forall|card: Card|
            self.spec_and(other).spec_contains(card) == (self.spec_contains(card)
                && other.spec_contains(card)) by {
            self.lemma_and(other, card);
        }
        if self.spec_and(other).spec_is_empty() {
            assert forall|card: Card|
                #![trigger self.spec_contains(card)]
                #![trigger other.spec_contains(card)]
                !(self.spec_contains(card) && other.spec_contains(card)) by {
                assert(!self.spec_and(other).spec_contains(card));
            }
        } else {
            let witness = self.spec_and(other).spec_lowest();
            assert(self.spec_and(other).spec_contains(witness));
            assert(self.spec_contains(witness) && other.spec_contains(witness));
        }
    }

    pub broadcast proof fn lemma_just(card: Card, other: Card)
        ensures
            #[trigger] Cards::spec_just(card).spec_contains(other) == (card == other),
    {
        card.lemma_index();
        other.lemma_index();
        lemma_bit_single(card.index(), other.index());
    }

    pub broadcast proof fn lemma_or(self, other: Cards, card: Card)
        ensures
            #[trigger] self.spec_or(other).spec_contains(card) == (self.spec_contains(card)
                || other.spec_contains(card)),
    {
        card.lemma_index();
        lemma_bit_ops(self.bits, other.bits, card.index());
    }

    pub broadcast proof fn lemma_and(self, other: Cards, card: Card)
        ensures
            #[trigger] self.spec_and(other).spec_contains(card) == (self.spec_contains(card)
                && other.spec_contains(card)),
    {
        card.lemma_index();
        lemma_bit_ops(self.bits, other.bits, card.index());
    }

    pub broadcast proof fn lemma_without(self, other: Cards, card: Card)
        ensures
            #[trigger] self.spec_without(other).spec_contains(card) == (self.spec_contains(card)
                && !other.spec_contains(card)),
    {
        card.lemma_index();
        lemma_bit_ops(self.bits, other.bits, card.index());
    }

    pub broadcast proof fn lemma_of_suit(suit: Suit, card: Card)
        ensures
            #[trigger] Cards::spec_of_suit(suit).spec_contains(card) == (card.spec_suit() == suit),
    {
        card.lemma_index();
        lemma_masks(card.index());
    }

    pub broadcast proof fn lemma_of_rank(rank: Rank, card: Card)
        ensures
            #[trigger] Cards::spec_of_rank(rank).spec_contains(card) == (card.spec_rank() == rank),
    {
        card.lemma_index();
        lemma_masks(card.index());
    }

    /// The trumps of a game are the cards that are trump in it.
    pub broadcast proof fn lemma_of_trump(game_type: GameType, card: Card)
        ensures
            #[trigger] Cards::spec_of_trump(game_type).spec_contains(card) == card.is_trump(
                game_type,
            ),
    {
        Cards::lemma_empty(card);
        Cards::lemma_of_rank(Rank::U, card);
        match game_type {
            GameType::Trump(CardType::Suit(suit)) => {
                Cards::lemma_of_suit(suit, card);
                Cards::lemma_or(Cards::spec_of_rank(Rank::U), Cards::spec_of_suit(suit), card);
            },
            _ => {},
        }
    }

    /// The cards of a type are the cards that count as that type in the game.
    pub broadcast proof fn lemma_of_card_type(card_type: CardType, game_type: GameType, card: Card)
        ensures
            #[trigger] Cards::spec_of_card_type(card_type, game_type).spec_contains(card) == (
            card.spec_card_type(game_type) == card_type),
    {
        Cards::lemma_of_trump(game_type, card);
        match card_type {
            CardType::Suit(suit) => {
                Cards::lemma_of_suit(suit, card);
                Cards::lemma_without(
                    Cards::spec_of_suit(suit),
                    Cards::spec_of_trump(game_type),
                    card,
                );
            },
            _ => {},
        }
    }

    /// The lowest card of a set is in it, and no card of the set stands before it.
    pub broadcast proof fn lemma_lowest(self, card: Card)
        requires
            self.spec_contains(card),
        ensures
            #![trigger self.spec_lowest(), self.spec_contains(card)]
            self.spec_contains(self.spec_lowest()),
            self.spec_lowest().index() <= card.index(),
    {
        card.lemma_index();
        lemma_bit_ops(0, 0, card.index());
        lemma_lowest_bit(self.bits);
        Card::lemma_from_index(lowest_bit(self.bits));
    }

    /// The highest card of a set is in it, and no card of the set stands behind it.
    pub broadcast proof fn lemma_highest(self, card: Card)
        requires
            self.spec_contains(card),
        ensures
            #![trigger self.spec_highest(), self.spec_contains(card)]
            self.spec_contains(self.spec_highest()),
            card.index() <= self.spec_highest().index(),
    {
        card.lemma_index();
        lemma_bit_ops(0, 0, card.index());
        lemma_highest_bit(self.bits);
        Card::lemma_from_index(highest_bit(self.bits));
    }

    /// Among sets of at most one card, the smaller is the one whose card stands
    /// first, and the empty set is smaller than any other.
    pub proof fn lemma_smaller_just(a: Card, b: Card)
        ensures
            Cards::spec_just(a).spec_smaller(Cards::spec_just(b)) == (a.index() < b.index()),
            Cards::spec_empty().spec_smaller(Cards::spec_just(b)),
            !Cards::spec_just(a).spec_smaller(Cards::spec_empty()),
            !Cards::spec_empty().spec_smaller(Cards::spec_empty()),
    {
        a.lemma_index();
        b.lemma_index();
        lemma_single_order(a.index(), b.index());
    }

    // ----- how much the built sets measure -----

    pub broadcast proof fn lemma_len_bounds(self)
        ensures
            #[trigger] self.spec_len() <= 32,
            (self.spec_len() == 0) == self.spec_is_empty(),
    {
        let unit = |i: u32| 1nat;
        lemma_weighted_bound(self.bits, 32, unit);
        lemma_unit_weight_below(32);
        if self.spec_len() == 0 {
            lemma_weighted_positive(self.bits, 32, unit);
            assert forall|i: u32| i < 32 implies bit(self.bits, i) == bit(0u32, i) by {
                lemma_bit_ops(0, 0, i);
            }
            lemma_bit_ext(self.bits, 0);
        }
        if self.bits == 0 {
            lemma_weighted_zero(32, unit);
        }
    }

    pub broadcast proof fn lemma_points_bounds(self)
        ensures
            #[trigger] self.spec_to_points() <= 120,
    {
        lemma_weighted_bound(self.bits, 32, point_weight());
        Cards::lemma_deck_weight();
    }

    proof fn lemma_deck_weight()
        ensures
            weight_below(32, point_weight()) == 120,
    {
        let w = point_weight();
        assert(weight_below(8, w) == 28) by {
            reveal_with_fuel(weight_below, 9);
        }
        assert(weight_below(16, w) == 56) by {
            reveal_with_fuel(weight_below, 9);
        }
        assert(weight_below(24, w) == 84) by {
            reveal_with_fuel(weight_below, 9);
        }
        assert(weight_below(32, w) == 120) by {
            reveal_with_fuel(weight_below, 9);
        }
    }

    pub proof fn lemma_measure_constants()
        ensures
            Cards::spec_empty().spec_len() == 0,
            Cards::spec_empty().spec_to_points() == 0,
            Cards::spec_all().spec_len() == 32,
            Cards::spec_all().spec_to_points() == 120,
    {
        let unit = |i: u32| 1nat;
        lemma_weighted_zero(32, unit);
        lemma_weighted_zero(32, point_weight());
        lemma_weighted_all(32, unit);
        lemma_weighted_all(32, point_weight());
        lemma_unit_weight_below(32);
        Cards::lemma_deck_weight();
    }

    pub broadcast proof fn lemma_measure_just(card: Card)
        ensures
            #[trigger] Cards::spec_just(card).spec_len() == 1,
            Cards::spec_just(card).spec_to_points() == card.spec_to_points().0,
    {
        card.lemma_index();
        lemma_weighted_single(card.index(), 32, |i: u32| 1nat);
        lemma_weighted_single(card.index(), 32, point_weight());
    }

    /// A suit has eight cards, and there are four Us.
    pub proof fn lemma_measure_rank_and_suit()
        ensures
            forall|suit: Suit| (#[trigger] Cards::spec_of_suit(suit)).spec_len() == 8,
            Cards::spec_of_rank(Rank::U).spec_len() == 4,
    {
        Cards::lemma_measure_diamonds_and_hearts();
        Cards::lemma_measure_spades_and_clubs();
        assert forall|suit: Suit| (#[trigger] Cards::spec_of_suit(suit)).spec_len() == 8 by {
            match suit {
                Suit::Diamonds => {},
                Suit::Hearts => {},
                Suit::Spades => {},
                Suit::Clubs => {},
            }
        }
    }

    proof fn lemma_measure_diamonds_and_hearts()
        ensures
            ones_in(0b00010000_00000000_00000000_01111111u32) == 8,
            ones_in(0b00100000_00000000_00111111_10000000u32) == 8,
    {
        {
        let f = |i: u32| i < 7 || i == 28;
        assert(count_true(f, 8) == 7) by {
            reveal_with_fuel(count_true, 9);
        }
        assert(count_true(f, 16) == 7) by {
            reveal_with_fuel(count_true, 9);
        }
        assert(count_true(f, 24) == 7) by {
            reveal_with_fuel(count_true, 9);
        }
        assert(count_true(f, 32) == 8) by {
            reveal_with_fuel(count_true, 9);
        }
        Cards::lemma_places_counted(0b00010000_00000000_00000000_01111111u32, f, 8);
        }
        {
        let f = |i: u32| 7 <= i < 14 || i == 29;
        assert(count_true(f, 8) == 1) by {
            reveal_with_fuel(count_true, 9);
        }
        assert(count_true(f, 16) == 7) by {
            reveal_with_fuel(count_true, 9);
        }
        assert(count_true(f, 24) == 7) by {
            reveal_with_fuel(count_true, 9);
        }
        assert(count_true(f, 32) == 8) by {
            reveal_with_fuel(count_true, 9);
        }
        Cards::lemma_places_counted(0b00100000_00000000_00111111_10000000u32, f, 8);
        }
    }

    proof fn lemma_measure_spades_and_clubs()
        ensures
            ones_in(0b01000000_00011111_11000000_00000000u32) == 8,
            ones_in(0b10001111_11100000_00000000_00000000u32) == 8,
            ones_in(0b11110000_00000000_00000000_00000000u32) == 4,
    {
        {
        let f = |i: u32| 14 <= i < 21 || i == 30;
        assert(count_true(f, 8) == 0) by {
            reveal_with_fuel(count_true, 9);
        }
        assert(count_true(f, 16) == 2) by {
            reveal_with_fuel(count_true, 9);
        }
        assert(count_true(f, 24) == 7) by {
            reveal_with_fuel(count_true, 9);
        }
        assert(count_true(f, 32) == 8) by {
            reveal_with_fuel(count_true, 9);
        }
        Cards::lemma_places_counted(0b01000000_00011111_11000000_00000000u32, f, 8);
        }
        {
        let f = |i: u32| 21 <= i < 28 || i == 31;
        assert(count_true(f, 8) == 0) by {
            reveal_with_fuel(count_true, 9);
        }
        assert(count_true(f, 16) == 0) by {
            reveal_with_fuel(count_true, 9);
        }
        assert(count_true(f, 24) == 3) by {
            reveal_with_fuel(count_true, 9);
        }
        assert(count_true(f, 32) == 8) by {
            reveal_with_fuel(count_true, 9);
        }
        Cards::lemma_places_counted(0b10001111_11100000_00000000_00000000u32, f, 8);
        }
        {
        let f = |i: u32| i >= 28;
        assert(count_true(f, 8) == 0) by {
            reveal_with_fuel(count_true, 9);
        }
        assert(count_true(f, 16) == 0) by {
            reveal_with_fuel(count_true, 9);
        }
        assert(count_true(f, 24) == 0) by {
            reveal_with_fuel(count_true, 9);
        }
        assert(count_true(f, 32) == 4) by {
            reveal_with_fuel(count_true, 9);
        }
        Cards::lemma_places_counted(0b11110000_00000000_00000000_00000000u32, f, 4);
        }
    }

    proof fn lemma_places_counted(mask: u32, f: spec_fn(u32) -> bool, count: nat)
        requires
            forall|i: u32| i < 32 ==> lemma_masks_holds(i) ==> bit(mask, i) == #[trigger] f(i),
            count_true(f, 32) == count,
        ensures
            ones_in(mask) == count,
    {
        assert forall|i: u32| i < 32 implies bit(mask, i) == #[trigger] f(i) by {
            lemma_masks(i);
        }
        lemma_count_true(mask, 32, f);
    }

    /// The U of a suit is the one card that is both of the suit and a U.
    pub proof fn lemma_unter_of_suit(suit: Suit)
        ensures
            Cards::spec_of_suit(suit).spec_and(Cards::spec_of_rank(Rank::U)).spec_len() == 1,
            Cards::spec_of_rank(Rank::U).spec_and(Cards::spec_of_suit(suit)).spec_len() == 1,
    {
        let unter = Card::spec_of(Rank::U, suit);
        let both = Cards::spec_of_suit(suit).spec_and(Cards::spec_of_rank(Rank::U));
        let other = Cards::spec_of_rank(Rank::U).spec_and(Cards::spec_of_suit(suit));
        Cards::lemma_measure_just(unter);
        assert forall|card: Card| both.spec_contains(card) == Cards::spec_just(
            unter,
        ).spec_contains(card) by {
            Cards::spec_of_suit(suit).lemma_and(Cards::spec_of_rank(Rank::U), card);
            Cards::lemma_of_suit(suit, card);
            Cards::lemma_of_rank(Rank::U, card);
            Cards::lemma_just(unter, card);
            card.lemma_of_rank_and_suit();
        }
        both.lemma_ext(Cards::spec_just(unter));
        assert forall|card: Card| other.spec_contains(card) == both.spec_contains(card) by {
            Cards::spec_of_suit(suit).lemma_and(Cards::spec_of_rank(Rank::U), card);
            Cards::spec_of_rank(Rank::U).lemma_and(Cards::spec_of_suit(suit), card);
        }
        other.lemma_ext(both);
    }

    /// Inclusion and exclusion: two sets measure together what their union and
    /// their intersection measure together.
    pub broadcast proof fn lemma_measure_or(self, other: Cards)
        ensures
            #[trigger] self.spec_or(other).spec_len() + self.spec_and(other).spec_len()
                == self.spec_len() + other.spec_len(),
            self.spec_or(other).spec_to_points() + self.spec_and(other).spec_to_points()
                == self.spec_to_points() + other.spec_to_points(),
    {
        lemma_weighted_or_and(self.bits, other.bits, 32, |i: u32| 1nat);
        lemma_weighted_or_and(self.bits, other.bits, 32, point_weight());
    }

    /// A set measures what its part inside another set and its part outside of it
    /// measure together.
    pub broadcast proof fn lemma_measure_without(self, other: Cards)
        ensures
            #[trigger] self.spec_without(other).spec_len() + self.spec_and(other).spec_len()
                == self.spec_len(),
            self.spec_without(other).spec_to_points() + self.spec_and(other).spec_to_points()
                == self.spec_to_points(),
    {
        lemma_weighted_split(self.bits, other.bits, 32, |i: u32| 1nat);
        lemma_weighted_split(self.bits, other.bits, 32, point_weight());
    }

    /// Taking a card out of a set that holds it makes the set one card and the
    /// card's points smaller.
    pub proof fn lemma_measure_remove(self, card: Card)
        requires
            self.spec_contains(card),
        ensures
            self.spec_without(Cards::spec_just(card)).spec_len() + 1 == self.spec_len(),
            self.spec_without(Cards::spec_just(card)).spec_to_points() + card.spec_to_points().0
                == self.spec_to_points(),
    {
        let just = Cards::spec_just(card);
        self.lemma_measure_without(just);
        Cards::lemma_measure_just(card);
        assert(self.spec_and(just) == just) by {
            assert forall|c: Card|
                self.spec_and(just).spec_contains(c) == just.spec_contains(c) by {
                self.lemma_and(just, c);
                Cards::lemma_just(card, c);
            }
            self.spec_and(just).lemma_ext(just);
        }
    }

    /// Taking a card out of a set takes it out of the set's part inside another
    /// set, if it was in that part, and out of the part outside of it otherwise.
    pub proof fn lemma_measure_remove_within(self, card: Card, other: Cards)
        requires
            self.spec_contains(card),
        ensures
            ({
                let rest = self.spec_without(Cards::spec_just(card));
                let inside: nat = if other.spec_contains(card) {
                    1
                } else {
                    0
                };
                let points = card.spec_to_points().0 as nat;
                &&& rest.spec_and(other).spec_len() + inside == self.spec_and(other).spec_len()
                &&& rest.spec_without(other).spec_len() + (1 - inside) == self.spec_without(
                    other,
                ).spec_len()
                &&& rest.spec_and(other).spec_to_points() + inside * points == self.spec_and(
                    other,
                ).spec_to_points()
                &&& rest.spec_without(other).spec_to_points() + (1 - inside) * points
                    == self.spec_without(other).spec_to_points()
            }),
    {
        let just = Cards::spec_just(card);
        let rest = self.spec_without(just);
        let inner = self.spec_and(other);
        let outer = self.spec_without(other);
        assert forall|c: Card|
            rest.spec_and(other).spec_contains(c) == inner.spec_without(just).spec_contains(
                c,
            ) by {
            self.lemma_without(just, c);
            rest.lemma_and(other, c);
            self.lemma_and(other, c);
            inner.lemma_without(just, c);
        }
        rest.spec_and(other).lemma_ext(inner.spec_without(just));
        assert forall|c: Card|
            rest.spec_without(other).spec_contains(c) == outer.spec_without(just).spec_contains(
                c,
            ) by {
            self.lemma_without(just, c);
            rest.lemma_without(other, c);
            self.lemma_without(other, c);
            outer.lemma_without(just, c);
        }
        rest.spec_without(other).lemma_ext(outer.spec_without(just));
        self.lemma_and(other, card);
        self.lemma_without(other, card);
        if other.spec_contains(card) {
            inner.lemma_measure_remove(card);
            assert forall|c: Card|
                outer.spec_without(just).spec_contains(c) == outer.spec_contains(c) by {
                outer.lemma_without(just, c);
                Cards::lemma_just(card, c);
            }
            outer.spec_without(just).lemma_ext(outer);
        } else {
            outer.lemma_measure_remove(card);
            assert forall|c: Card|
                inner.spec_without(just).spec_contains(c) == inner.spec_contains(c) by {
                inner.lemma_without(just, c);
                Cards::lemma_just(card, c);
            }
            inner.spec_without(just).lemma_ext(inner);
        }
    }

    /// Putting a card into a set that lacks it makes the set one card and the
    /// card's points larger.
    pub proof fn lemma_measure_add(self, card: Card)
        requires
            !self.spec_contains(card),
        ensures
            self.spec_or(Cards::spec_just(card)).spec_len() == self.spec_len() + 1,
            self.spec_or(Cards::spec_just(card)).spec_to_points() == self.spec_to_points()
                + card.spec_to_points().0,
    {
        let just = Cards::spec_just(card);
        self.lemma_measure_or(just);
        Cards::lemma_measure_just(card);
        Cards::lemma_measure_constants();
        assert(self.spec_and(just) == Cards::spec_empty()) by {
            assert forall|c: Card|
                self.spec_and(just).spec_contains(c) == Cards::spec_empty().spec_contains(c) by {
                self.lemma_and(just, c);
                Cards::lemma_just(card, c);
                Cards::lemma_empty(c);
            }
            self.spec_and(just).lemma_ext(Cards::spec_empty());
        }
    }

    /// A part of a set measures no more than the set.
    pub proof fn lemma_measure_subset(self, other: Cards)
        requires
            self.subset_of(other),
        ensures
            self.spec_len() <= other.spec_len(),
            self.spec_to_points() <= other.spec_to_points(),
    {
        other.lemma_measure_without(self);
        assert(other.spec_and(self) == self) by {
            assert forall|c: Card|
                other.spec_and(self).spec_contains(c) == self.spec_contains(c) by {
                other.lemma_and(self, c);
            }
            other.spec_and(self).lemma_ext(self);
        }
    }
    #[verifier::when_used_as_spec(spec_empty)]
    pub fn empty() -> (r: Cards)
        ensures
            r == Cards::spec_empty(),
    {
        Cards { bits: 0 }
    }

    #[verifier::when_used_as_spec(spec_all)]
    pub fn all() -> (r: Cards)
        ensures
            r == Cards::spec_all(),
    {
        Cards { bits: 0xffff_ffff }
    }

    #[verifier::when_used_as_spec(spec_of_zero_points)]
    pub fn of_zero_points() -> (r: Cards)
        ensures
            r == Cards::spec_of_zero_points(),
    {
        Cards { bits: 0b00000000_11100001_11000011_10000111 }
    }

    #[verifier::when_used_as_spec(spec_just)]
    pub fn just(card: Card) -> (r: Cards)
        ensures
            r == Cards::spec_just(card),
    {
        Cards { bits: card.detail_to_bit() }
    }

    #[verifier::when_used_as_spec(spec_of_suit)]
    pub fn of_suit(suit: Suit) -> (r: Cards)
        ensures
            r == Cards::spec_of_suit(suit),
    {
        let bits: u32 = match suit {
            Suit::Diamonds => 0b00010000_00000000_00000000_01111111,
            Suit::Hearts => 0b00100000_00000000_00111111_10000000,
            Suit::Spades => 0b01000000_00011111_11000000_00000000,
            Suit::Clubs => 0b10001111_11100000_00000000_00000000,
        };
        Cards { bits }
    }

    #[verifier::when_used_as_spec(spec_of_rank)]
    pub fn of_rank(rank: Rank) -> (r: Cards)
        ensures
            r == Cards::spec_of_rank(rank),
    {
        let bits: u32 = match rank {
            Rank::L7 => 0b00000000_00100000_01000000_10000001,
            Rank::L8 => 0b00000000_01000000_10000001_00000010,
            Rank::L9 => 0b00000000_10000001_00000010_00000100,
            Rank::O => 0b00000001_00000010_00000100_00001000,
            Rank::K => 0b00000010_00000100_00001000_00010000,
            Rank::Z => 0b00000100_00001000_00010000_00100000,
            Rank::A => 0b00001000_00010000_00100000_01000000,
            Rank::U => 0b11110000_00000000_00000000_00000000,
        };
        Cards { bits }
    }

    /// The trumps of a game.
    #[verifier::when_used_as_spec(spec_of_trump)]
    pub fn of_trump(game_type: GameType) -> (r: Cards)
        ensures
            r == Cards::spec_of_trump(game_type),
    {
        match game_type {
            GameType::Trump(CardType::Suit(suit)) => Cards::of_rank(Rank::U).or(
                Cards::of_suit(suit),
            ),
            GameType::Trump(CardType::Trump) => Cards::of_rank(Rank::U),
            GameType::Null => Cards::empty(),
        }
    }

    /// The cards that count as the given type in the game.
    #[verifier::when_used_as_spec(spec_of_card_type)]
    pub fn of_card_type(card_type: CardType, game_type: GameType) -> (r: Cards)
        ensures
            r == Cards::spec_of_card_type(card_type, game_type),
    {
        let trump = Cards::of_trump(game_type);

        match card_type {
            CardType::Trump => trump,
            CardType::Suit(suit) => Cards::of_suit(suit).without(trump),
        }
    }

    #[verifier::when_used_as_spec(spec_is_empty)]
    pub fn is_empty(self) -> (r: bool)
        ensures
            r == self.spec_is_empty(),
    {
        self.bits == 0
    }

    pub fn len(self) -> (r: u8)
        ensures
            r == self.spec_len(),
            r <= 32,
    {
        proof {
            self.lemma_len_bounds();
        }
        self.bits.count_ones() as u8
    }

    #[verifier::when_used_as_spec(spec_overlaps)]
    pub fn overlaps(self, other: Cards) -> (r: bool)
        ensures
            r == self.spec_overlaps(other),
    {
        !self.and(other).is_empty()
    }

    #[verifier::when_used_as_spec(spec_contains)]
    pub fn contains(self, card: Card) -> (r: bool)
        ensures
            r == self.spec_contains(card),
    {
        proof {
            card.lemma_index();
            lemma_bit_test(self.bits, card.index());
        }
        self.overlaps(Cards::just(card))
    }

    #[verifier::when_used_as_spec(spec_smaller)]
    pub fn smaller(self, other: Cards) -> (r: bool)
        ensures
            r == self.spec_smaller(other),
    {
        self.bits < other.bits
    }

    /// Takes out a card that the set holds.
    pub fn remove_existing(&mut self, card: Card)
        requires
            old(self).spec_contains(card),
        ensures
            *final(self) == old(self).spec_without(Cards::spec_just(card)),
            final(self).spec_len() + 1 == old(self).spec_len(),
            final(self).spec_to_points() + card.spec_to_points().0 == old(self).spec_to_points(),
    {
        proof {
            self.lemma_measure_remove(card);
        }
        *self = self.without(Cards::just(card))
    }

    /// The cards of the hand that may be played into a trick of the given type.
    #[verifier::when_used_as_spec(spec_possible_plays_for_trick_type)]
    pub fn possible_plays_for_trick_type(self, trick_type: CardType, game_type: GameType) -> (r:
        Cards)
        ensures
            r == self.spec_possible_plays_for_trick_type(trick_type, game_type),
    {
        let following = self.and(Cards::of_card_type(trick_type, game_type));
        if following.is_empty() {
            return self;
        }
        following
    }

    /// The legal moves from this hand: follow the led card's type if the hand can,
    /// otherwise anything.
    #[verifier::when_used_as_spec(spec_possible_plays)]
    pub fn possible_plays(self, maybe_first_trick_card: Option<Card>, game_type: GameType) -> (r:
        Cards)
        ensures
            r == self.spec_possible_plays(maybe_first_trick_card, game_type),
    {
        match maybe_first_trick_card {
            None => self,
            Some(first_trick_card) => self.possible_plays_for_trick_type(
                first_trick_card.card_type(game_type),
                game_type,
            ),
        }
    }

    #[verifier::when_used_as_spec(spec_or)]
    pub fn or(self, other: Cards) -> (r: Cards)
        ensures
            r == self.spec_or(other),
    {
        Cards { bits: self.bits | other.bits }
    }

    #[verifier::when_used_as_spec(spec_and)]
    pub fn and(self, other: Cards) -> (r: Cards)
        ensures
            r == self.spec_and(other),
    {
        Cards { bits: self.bits & other.bits }
    }

    #[verifier::when_used_as_spec(spec_without)]
    pub fn without(self, cards: Cards) -> (r: Cards)
        ensures
            r == self.spec_without(cards),
    {
        Cards { bits: self.bits & !cards.bits }
    }

    /// Takes out the lowest card of a set that is not empty, and returns it.
    pub fn remove_smallest_unchecked(&mut self) -> (card: Card)
        requires
            !old(self).spec_is_empty(),
        ensures
            card == old(self).spec_lowest(),
            old(self).spec_contains(card),
            *final(self) == old(self).spec_without(Cards::spec_just(card)),
            final(self).spec_len() + 1 == old(self).spec_len(),
            final(self).spec_to_points() + card.spec_to_points().0 == old(self).spec_to_points(),
    {
        proof {
            axiom_u32_trailing_zeros(self.bits);
            lemma_lowest_bit(self.bits);
            lemma_flip_set_bit(self.bits, lowest_bit(self.bits));
            Card::lemma_from_index(lowest_bit(self.bits));
            self.lemma_measure_remove(self.spec_lowest());
        }
        let id_card: u32 = self.bits.trailing_zeros();
        let bit_to_flip: u32 = 1u32 << id_card;
        self.bits = self.bits ^ bit_to_flip;
        Card::from_index(id_card as u8)
    }

    /// Takes out the lowest card and returns it, if there is one.
    pub fn remove_smallest(&mut self) -> (r: Option<Card>)
        ensures
            match r {
                None => old(self).spec_is_empty() && *final(self) == *old(self),
                Some(card) => {
                    &&& !old(self).spec_is_empty()
                    &&& card == old(self).spec_lowest()
                    &&& old(self).spec_contains(card)
                    &&& *final(self) == old(self).spec_without(Cards::spec_just(card))
                    &&& final(self).spec_len() + 1 == old(self).spec_len()
                    &&& final(self).spec_to_points() + card.spec_to_points().0 == old(
                        self,
                    ).spec_to_points()
                },
            },
    {
        if self.is_empty() {
            return None;
        }
        Some(self.remove_smallest_unchecked())
    }

    /// The sum of the points of the set's cards.
    pub fn to_points(self) -> (r: CardPoints)
        ensures
            r.0 == self.spec_to_points(),
            r.0 <= 120,
    {
        let mut result: u8 = 0;
        let mut rest = self;
        proof {
            self.lemma_points_bounds();
        }
        loop
            invariant
                result + rest.spec_to_points() == self.spec_to_points(),
                self.spec_to_points() <= 120,
            ensures
                result == self.spec_to_points(),
            decreases rest.spec_len(),
        {
            match rest.remove_smallest() {
                None => {
                    proof {
                        rest.lemma_is_empty();
                        Cards::lemma_measure_constants();
                    }
                    break ;
                },
                Some(card) => {
                    result = result + card.to_points().0;
                },
            }
        }
        CardPoints(result)
    }

    /// Puts a card into the set.
    pub fn add_new(&mut self, card: Card)
        ensures
            *final(self) == old(self).spec_or(Cards::spec_just(card)),
    {
        self.bits = self.bits | card.detail_to_bit();
    }

    #[verifier::when_used_as_spec(spec_from_bits)]
    pub fn from_bits(bits: u32) -> (r: Cards)
        ensures
            r == Cards::spec_from_bits(bits),
    {
        Cards { bits }
    }

    #[verifier::when_used_as_spec(spec_detail_to_bits)]
    pub fn detail_to_bits(self) -> (r: u32)
        ensures
            r == self.spec_detail_to_bits(),
    {
        self.bits
    }

    /// The union of two sets that share no card.
    pub fn combined_with_disjoint(&self, other: Cards) -> (r: Cards)
        requires
            self.disjoint(other),
        ensures
            r == self.spec_or(other),
            r.spec_len() == self.spec_len() + other.spec_len(),
            r.spec_to_points() == self.spec_to_points() + other.spec_to_points(),
    {
        proof {
            self.lemma_measure_or(other);
            self.spec_and(other).lemma_is_empty();
            Cards::lemma_measure_constants();
        }
        self.or(other)
    }

    /// The set's cards, from the lowest to the highest.
    pub open spec fn spec_to_seq(self) -> Seq<Card>
        decreases self.spec_len(),
        when self.spec_len() <= 32
        via Cards::decreases_to_seq
    {
        if self.spec_is_empty() {
            Seq::empty()
        } else {
            seq![self.spec_lowest()] + self.spec_without(
                Cards::spec_just(self.spec_lowest()),
            ).spec_to_seq()
        }
    }

    #[via_fn]
    proof fn decreases_to_seq(self) {
        if !self.spec_is_empty() {
            self.lemma_is_empty();
            self.lemma_measure_remove(self.spec_lowest());
            self.spec_without(Cards::spec_just(self.spec_lowest())).lemma_len_bounds();
        }
    }

    /// A list that holds the set's cards and no others, each once, from the
    /// lowest to the highest, is the list of the set's cards.
    pub proof fn lemma_to_seq(self, list: Seq<Card>)
        requires
            list.len() == self.spec_len(),
            forall|i: int| 0 <= i < list.len() ==> self.spec_contains(#[trigger] list[i]),
            forall|card: Card| self.spec_contains(card) ==> list.contains(card),
            forall|i: int, j: int|
                0 <= i < j < list.len() ==> (#[trigger] list[i]).index() < (
                #[trigger] list[j]).index(),
        ensures
            list == self.spec_to_seq(),
        decreases list.len(),
    {
        self.lemma_len_bounds();
        self.lemma_is_empty();
        if list.len() == 0 {
            assert(list =~= Seq::<Card>::empty());
        } else {
            let lowest = self.spec_lowest();
            assert(list.contains(lowest));
            let k = choose|k: int| 0 <= k < list.len() && list[k] == lowest;
            self.lemma_lowest(list[0]);
            list[0].lemma_index();
            lowest.lemma_index();
            assert(k == 0) by {
                if k > 0 {
                    assert(list[0].index() < list[k].index());
                }
            }
            let rest = self.spec_without(Cards::spec_just(lowest));
            let tail = list.subrange(1, list.len() as int);
            self.lemma_measure_remove(lowest);
            assert forall|i: int| 0 <= i < tail.len() implies rest.spec_contains(
                #[trigger] tail[i],
            ) by {
                assert(tail[i] == list[i + 1]);
                assert(list[0].index() < list[i + 1].index());
                self.lemma_without(Cards::spec_just(lowest), tail[i]);
                Cards::lemma_just(lowest, tail[i]);
            }
            assert forall|card: Card| rest.spec_contains(card) implies tail.contains(card) by {
                self.lemma_without(Cards::spec_just(lowest), card);
                Cards::lemma_just(lowest, card);
                let j = choose|j: int| 0 <= j < list.len() && list[j] == card;
                assert(tail[j - 1] == card);
            }
            assert forall|i: int, j: int| 0 <= i < j < tail.len() implies (
            #[trigger] tail[i]).index() < (#[trigger] tail[j]).index() by {
                assert(tail[i] == list[i + 1]);
                assert(tail[j] == list[j + 1]);
            }
            rest.lemma_to_seq(tail);
            assert(list =~= seq![lowest] + tail);
        }
    }

    /// The set's cards, from the lowest to the highest.
    pub fn to_vec(self) -> (r: Vec<Card>)
        ensures
            r@ == self.spec_to_seq(),
            r@.len() == self.spec_len(),
            forall|i: int| 0 <= i < r@.len() ==> self.spec_contains(#[trigger] r@[i]),
            forall|card: Card| self.spec_contains(card) ==> r@.contains(card),
            forall|i: int, j: int|
                0 <= i < j < r@.len() ==> (#[trigger] r@[i]).index() < (#[trigger] r@[j]).index(),
    {
        let mut rest = self;
        let mut result: Vec<Card> = Vec::new();
        loop
            invariant
                result@.len() + rest.spec_len() == self.spec_len(),
                rest.subset_of(self),
                forall|i: int| 0 <= i < result@.len() ==> self.spec_contains(#[trigger] result@[i]),
                forall|card: Card|
                    self.spec_contains(card) ==> rest.spec_contains(card) || result@.contains(
                        card,
                    ),
                forall|i: int, card: Card|
                    0 <= i < result@.len() && rest.spec_contains(card) ==> (
                    #[trigger] result@[i]).index() < (#[trigger] card.index()),
                forall|i: int, j: int|
                    0 <= i < j < result@.len() ==> (#[trigger] result@[i]).index() < (
                    #[trigger] result@[j]).index(),
            ensures
                result@.len() == self.spec_len(),
                forall|i: int| 0 <= i < result@.len() ==> self.spec_contains(#[trigger] result@[i]),
                forall|card: Card| self.spec_contains(card) ==> result@.contains(card),
                forall|i: int, j: int|
                    0 <= i < j < result@.len() ==> (#[trigger] result@[i]).index() < (
                    #[trigger] result@[j]).index(),
            decreases rest.spec_len(),
        {
            let ghost before = rest;
            let ghost so_far = result@;
            match rest.remove_smallest() {
                None => {
                    proof {
                        rest.lemma_is_empty();
                        Cards::lemma_measure_constants();
                    }
                    break ;
                },
                Some(card) => {
                    result.push(card);
                    proof {
                        assert(result@[result@.len() - 1] == card);
                        assert forall|c: Card|
                            self.spec_contains(c) implies rest.spec_contains(c)
                            || result@.contains(c) by {
                            before.lemma_without(Cards::spec_just(card), c);
                            Cards::lemma_just(card, c);
                            if c == card {
                                assert(result@[result@.len() - 1] == c);
                            } else if !rest.spec_contains(c) {
                                assert(so_far.contains(c));
                                let k = choose|k: int| 0 <= k < so_far.len() && so_far[k] == c;
                                assert(result@[k] == c);
                            }
                        }
                        assert forall|c: Card| rest.spec_contains(c) implies self.spec_contains(
                            c,
                        ) by {
                            before.lemma_without(Cards::spec_just(card), c);
                        }
                        assert forall|i: int, c: Card|
                            0 <= i < result@.len() && rest.spec_contains(c) implies (
                        #[trigger] result@[i]).index() < (#[trigger] c.index()) by {
                            before.lemma_without(Cards::spec_just(card), c);
                            Cards::lemma_just(card, c);
                            before.lemma_lowest(c);
                            c.lemma_index();
                            card.lemma_index();
                        }
                    }
                },
            }
        }
        proof {
            self.lemma_to_seq(result@);
        }
        result
    }

    /// Takes out the highest card and returns it, if there is one.
    pub fn remove_highest_non_null(&mut self) -> (r: Option<Card>)
        ensures
            match r {
                None => old(self).spec_is_empty() && *final(self) == *old(self),
                Some(card) => {
                    &&& !old(self).spec_is_empty()
                    &&& card == old(self).spec_highest()
                    &&& old(self).spec_contains(card)
                    &&& *final(self) == old(self).spec_without(Cards::spec_just(card))
                    &&& final(self).spec_len() + 1 == old(self).spec_len()
                    &&& final(self).spec_to_points() + card.spec_to_points().0 == old(
                        self,
                    ).spec_to_points()
                },
            },
    {
        if self.bits == 0 {
            return None;
        }
        proof {
            axiom_u32_leading_zeros(self.bits);
            lemma_highest_bit(self.bits);
            lemma_flip_set_bit(self.bits, highest_bit(self.bits));
            Card::lemma_from_index(highest_bit(self.bits));
            self.lemma_measure_remove(self.spec_highest());
        }
        let id_card: u32 = 31 - self.bits.leading_zeros();
        self.bits = self.bits ^ (1u32 << id_card);
        Some(Card::from_index(id_card as u8))
    }

    /// The highest card of a set that is not empty.
    pub fn highest_existing(self) -> (card: Card)
        requires
            !self.spec_is_empty(),
        ensures
            card == self.spec_highest(),
            self.spec_contains(card),
    {
        proof {
            axiom_u32_leading_zeros(self.bits);
            lemma_highest_bit(self.bits);
            Card::lemma_from_index(highest_bit(self.bits));
        }
        let id_card: u32 = 31 - self.bits.leading_zeros();
        Card::from_index(id_card as u8)
    }

    /// The highest card, if there is one.
    pub fn highest_non_null(self) -> (r: Option<Card>)
        ensures
            match r {
                None => self.spec_is_empty(),
                Some(card) => !self.spec_is_empty() && card == self.spec_highest()
                    && self.spec_contains(card),
            },
    {
        let mut copy = self;
        copy.remove_highest_non_null()
    }

    /// Takes the card out, and says whether it was there.
    pub fn remove_if_there(&mut self, card: Card) -> (was_there: bool)
        ensures
            was_there == old(self).spec_contains(card),
            *final(self) == old(self).spec_without(Cards::spec_just(card)),
            was_there ==> final(self).spec_len() + 1 == old(self).spec_len(),
            was_there ==> final(self).spec_to_points() + card.spec_to_points().0 == old(
                self,
            ).spec_to_points(),
            !was_there ==> *final(self) == *old(self),
    {
        let new = self.without(Cards::just(card));
        proof {
            self.lemma_without(Cards::spec_just(card), card);
            Cards::lemma_just(card, card);
            if self.spec_contains(card) {
                self.lemma_measure_remove(card);
            } else {
                assert forall|c: Card| new.spec_contains(c) == self.spec_contains(c) by {
                    self.lemma_without(Cards::spec_just(card), c);
                    Cards::lemma_just(card, c);
                }
                new.lemma_ext(*self);
            }
        }
        let was_there = new != *self;
        *self = new;
        was_there
    }

    /// Takes out the lowest of the set's cards that is also in `cards`, if there
    /// is one.
    pub fn remove_lowest_of_cards(&mut self, cards: Cards) -> (r: Option<Card>)
        ensures
            match r {
                None => old(self).disjoint(cards) && *final(self) == *old(self),
                Some(card) => {
                    &&& !old(self).disjoint(cards)
                    &&& card == old(self).spec_and(cards).spec_lowest()
                    &&& old(self).spec_contains(card)
                    &&& cards.spec_contains(card)
                    &&& *final(self) == old(self).spec_without(Cards::spec_just(card))
                    &&& final(self).spec_len() + 1 == old(self).spec_len()
                    &&& final(self).spec_to_points() + card.spec_to_points().0 == old(
                        self,
                    ).spec_to_points()
                },
            },
    {
        let mut both = self.and(cards);
        match both.remove_smallest() {
            None => None,
            Some(card) => {
                proof {
                    self.lemma_and(cards, card);
                }
                self.remove_existing(card);
                Some(card)
            },
        }
    }

    /// Takes out the highest of the set's cards that is also in `cards`, if there
    /// is one.
    pub fn remove_highest_of_cards(&mut self, cards: Cards) -> (r: Option<Card>)
        ensures
            match r {
                None => old(self).disjoint(cards) && *final(self) == *old(self),
                Some(card) => {
                    &&& !old(self).disjoint(cards)
                    &&& card == old(self).spec_and(cards).spec_highest()
                    &&& old(self).spec_contains(card)
                    &&& cards.spec_contains(card)
                    &&& *final(self) == old(self).spec_without(Cards::spec_just(card))
                    &&& final(self).spec_len() + 1 == old(self).spec_len()
                    &&& final(self).spec_to_points() + card.spec_to_points().0 == old(
                        self,
                    ).spec_to_points()
                },
            },
    {
        let mut both = self.and(cards);
        match both.remove_highest_non_null() {
            None => None,
            Some(card) => {
                proof {
                    self.lemma_and(cards, card);
                }
                self.remove_existing(card);
                Some(card)
            },
        }
    }

    /// Takes out the lowest of the set's cards of a type, if there is one.
    pub fn remove_lowest_of_type(&mut self, card_type: CardType, game_type: GameType) -> (r:
        Option<Card>)
        ensures
            match r {
                None => old(self).disjoint(Cards::spec_of_card_type(card_type, game_type))
                    && *final(self) == *old(self),
                Some(card) => {
                    &&& !old(self).disjoint(Cards::spec_of_card_type(card_type, game_type))
                    &&& card == old(self).spec_and(
                        Cards::spec_of_card_type(card_type, game_type),
                    ).spec_lowest()
                    &&& old(self).spec_contains(card)
                    &&& card.spec_card_type(game_type) == card_type
                    &&& *final(self) == old(self).spec_without(Cards::spec_just(card))
                    &&& final(self).spec_len() + 1 == old(self).spec_len()
                    &&& final(self).spec_to_points() + card.spec_to_points().0 == old(
                        self,
                    ).spec_to_points()
                },
            },
    {
        let r = self.remove_lowest_of_cards(Cards::of_card_type(card_type, game_type));
        proof {
            if let Some(card) = r {
                Cards::lemma_of_card_type(card_type, game_type, card);
            }
        }
        r
    }

    /// The card that counts least among the set's cards whose rank stands at
    /// place `k` or later in the list of the ranks by their points; of several
    /// with the least rank, the lowest.
    pub open spec fn spec_lowest_value_from(self, k: int) -> Card
        decreases 8 - k,
    {
        if k >= 8 {
            self.spec_lowest()
        } else {
            let of_rank = self.spec_and(Cards::spec_of_rank(Rank::spec_by_points(k)));
            if of_rank.spec_is_empty() {
                self.spec_lowest_value_from(k + 1)
            } else {
                of_rank.spec_lowest()
            }
        }
    }

    /// The card of the set that counts least; of several, the lowest of the
    /// first rank among them.
    pub open spec fn spec_lowest_value(self) -> Card {
        self.spec_lowest_value_from(0)
    }

    /// The card that counts most among the set's cards whose rank stands at
    /// place `k` or earlier in the list of the ranks by their points; of several
    /// with the greatest rank, the lowest.
    pub open spec fn spec_highest_value_from(self, k: int) -> Card
        decreases k + 1,
    {
        if k < 0 {
            self.spec_lowest()
        } else {
            let of_rank = self.spec_and(Cards::spec_of_rank(Rank::spec_by_points(k)));
            if of_rank.spec_is_empty() {
                self.spec_highest_value_from(k - 1)
            } else {
                of_rank.spec_lowest()
            }
        }
    }

    /// The card of the set that counts most; of several, the lowest of the last
    /// rank among them.
    pub open spec fn spec_highest_value(self) -> Card {
        self.spec_highest_value_from(7)
    }

    /// Takes out the card that counts least, and returns it.
    pub fn remove_lowest_value(&mut self) -> (card: Card)
        requires
            !old(self).spec_is_empty(),
        ensures
            card == old(self).spec_lowest_value(),
            old(self).spec_contains(card),
            forall|other: Card| #[trigger]
                old(self).spec_contains(other) ==> card.spec_to_points().0
                    <= other.spec_to_points().0,
            *final(self) == old(self).spec_without(Cards::spec_just(card)),
            final(self).spec_len() + 1 == old(self).spec_len(),
            final(self).spec_to_points() + card.spec_to_points().0 == old(self).spec_to_points(),
    {
        let mut k: u8 = 0;
        while k < 8
            invariant
                k <= 8,
                *self == *old(self),
                !self.spec_is_empty(),
                self.spec_lowest_value_from(k as int) == self.spec_lowest_value(),
                forall|other: Card| #[trigger]
                    self.spec_contains(other) ==> k <= other.spec_rank().points_position(),
            decreases 8 - k,
        {
            let rank = Rank::by_points(k);
            let mut of_rank = self.and(Cards::of_rank(rank));
            if let Some(card) = of_rank.remove_smallest() {
                proof {
                    self.lemma_and(Cards::spec_of_rank(rank), card);
                    Cards::lemma_of_rank(rank, card);
                    assert forall|other: Card| #[trigger]
                        self.spec_contains(other) implies card.spec_to_points().0
                        <= other.spec_to_points().0 by {
                        card.spec_rank().lemma_by_points(other.spec_rank());
                    }
                }
                self.remove_existing(card);
                return card;
            }
            proof {
                assert forall|other: Card| #[trigger]
                    self.spec_contains(other) implies k + 1
                    <= other.spec_rank().points_position() by {
                    self.lemma_and(Cards::spec_of_rank(rank), other);
                    Cards::lemma_of_rank(rank, other);
                    self.spec_and(Cards::spec_of_rank(rank)).lemma_is_empty();
                    other.spec_rank().lemma_by_points(rank);
                }
            }
            k += 1;
        }
        proof {
            self.lemma_is_empty();
            let witness = self.spec_lowest();
            witness.spec_rank().lemma_by_points(Rank::A);
            assert(self.spec_contains(witness));
        }
        self.remove_smallest_unchecked()
    }

    /// Takes out the card that counts most, and returns it.
    fn remove_highest_value(&mut self) -> (card: Card)
        requires
            !old(self).spec_is_empty(),
        ensures
            card == old(self).spec_highest_value(),
            old(self).spec_contains(card),
            forall|other: Card| #[trigger]
                old(self).spec_contains(other) ==> other.spec_to_points().0
                    <= card.spec_to_points().0,
            *final(self) == old(self).spec_without(Cards::spec_just(card)),
            final(self).spec_len() + 1 == old(self).spec_len(),
            final(self).spec_to_points() + card.spec_to_points().0 == old(self).spec_to_points(),
    {
        let mut k: u8 = 8;
        while k > 0
            invariant
                k <= 8,
                *self == *old(self),
                !self.spec_is_empty(),
                self.spec_highest_value_from(k - 1) == self.spec_highest_value(),
                forall|other: Card| #[trigger]
                    self.spec_contains(other) ==> other.spec_rank().points_position() < k,
            decreases k,
        {
            k -= 1;
            let rank = Rank::by_points(k);
            let mut of_rank = self.and(Cards::of_rank(rank));
            if let Some(card) = of_rank.remove_smallest() {
                proof {
                    self.lemma_and(Cards::spec_of_rank(rank), card);
                    Cards::lemma_of_rank(rank, card);
                    assert forall|other: Card| #[trigger]
                        self.spec_contains(other) implies other.spec_to_points().0
                        <= card.spec_to_points().0 by {
                        other.spec_rank().lemma_by_points(card.spec_rank());
                    }
                }
                self.remove_existing(card);
                return card;
            }
            proof {
                assert forall|other: Card| #[trigger]
                    self.spec_contains(other) implies other.spec_rank().points_position()
                    < k by {
                    self.lemma_and(Cards::spec_of_rank(rank), other);
                    Cards::lemma_of_rank(rank, other);
                    self.spec_and(Cards::spec_of_rank(rank)).lemma_is_empty();
                    other.spec_rank().lemma_by_points(rank);
                }
            }
        }
        proof {
            self.lemma_is_empty();
            let witness = self.spec_lowest();
            witness.spec_rank().lemma_by_points(Rank::A);
            assert(self.spec_contains(witness));
        }
        self.remove_smallest_unchecked()
    }

    /// The card of the set that counts most; of several with the same rank, the
    /// lowest.
    pub fn highest_value(self) -> (card: Card)
        requires
            !self.spec_is_empty(),
        ensures
            card == self.spec_highest_value(),
            self.spec_contains(card),
            forall|other: Card| #[trigger]
                self.spec_contains(other) ==> other.spec_to_points().0
                    <= card.spec_to_points().0,
    {
        let mut copy = self;
        copy.remove_highest_value()
    }

    /// The set of the cards of a list.
    pub open spec fn spec_from_seq(cards: Seq<Card>) -> Cards
        decreases cards.len(),
    {
        if cards.len() == 0 {
            Cards::spec_empty()
        } else {
            Cards::spec_from_seq(cards.drop_last()).spec_or(Cards::spec_just(cards.last()))
        }
    }

    /// The set of the cards of a list holds the cards of the list.
    pub proof fn lemma_from_seq(cards: Seq<Card>, card: Card)
        ensures
            Cards::spec_from_seq(cards).spec_contains(card) == cards.contains(card),
        decreases cards.len(),
    {
        Cards::lemma_empty(card);
        if cards.len() > 0 {
            Cards::lemma_from_seq(cards.drop_last(), card);
            Cards::lemma_or(
                Cards::spec_from_seq(cards.drop_last()),
                Cards::spec_just(cards.last()),
                card,
            );
            Cards::lemma_just(cards.last(), card);
            if cards.drop_last().contains(card) {
                let k = choose|k: int| 0 <= k < cards.drop_last().len() && cards.drop_last()[k] == card;
                assert(cards[k] == card);
            }
            if cards.contains(card) {
                let k = choose|k: int| 0 <= k < cards.len() && cards[k] == card;
                if k < cards.len() - 1 {
                    assert(cards.drop_last()[k] == card);
                }
            }
        }
    }

    /// The set of the cards of a slice.
    pub fn from_slice(cards: &[Card]) -> (r: Cards)
        ensures
            r == Cards::spec_from_seq(cards@),
    {
        let mut result = Cards::empty();
        let mut i: usize = 0;
        while i < cards.len()
            invariant
                i <= cards@.len(),
                result == Cards::spec_from_seq(cards@.take(i as int)),
            decreases cards@.len() - i,
        {
            proof {
                assert(cards@.take(i + 1).drop_last() == cards@.take(i as int));
            }
            result.add_new(cards[i]);
            i += 1;
        }
        proof {
            assert(cards@.take(i as int) == cards@);
        }
        result
    }
}

impl<const N: usize> From<&[Card; N]> for Cards {
    /// The set of the cards of an array.
    fn from(cards: &[Card; N]) -> (r: Cards) {
        let mut result = Cards::empty();
        let mut i: usize = 0;
        while i < N
            invariant
                i <= N,
                cards@.len() == N,
                result == Cards::spec_from_seq(cards@.take(i as int)),
            decreases N - i,
        {
            proof {
                assert(cards@.take(i + 1).drop_last() == cards@.take(i as int));
            }
            result.add_new(cards[i]);
            i += 1;
        }
        proof {
            assert(cards@.take(i as int) == cards@);
        }
        result
    }
}

impl<const N: usize> vstd::std_specs::convert::FromSpecImpl<&[Card; N]> for Cards {
    open spec fn obeys_from_spec() -> bool {
        true
    }

    open spec fn from_spec(cards: &[Card; N]) -> Cards {
        Cards::spec_from_seq(cards@)
    }
}

/// How far apart two cards are in points.
pub open spec fn point_distance(a: Card, b: Card) -> int {
    if a.spec_to_points().0 >= b.spec_to_points().0 {
        a.spec_to_points().0 - b.spec_to_points().0
    } else {
        b.spec_to_points().0 - a.spec_to_points().0
    }
}

/// A card's place among the cards of its type, from the weakest to the
/// strongest: in a Null game by the order of the ranks there, in a trump game
/// by the card's place in the list of all cards.
pub open spec fn strength_in_type(card: Card, game_type: GameType) -> int {
    match game_type {
        GameType::Null => crate::power::CardPower::null_order(card.spec_rank()),
        GameType::Trump(_) => card.index() as int,
    }
}

/// Two cards are of the same type, and every card of that type whose strength
/// is between theirs, both included, is in `present`: no card that someone else
/// holds separates them.
pub open spec fn in_same_block(card: Card, other: Card, present: Cards, game_type: GameType) -> bool {
    &&& card.spec_card_type(game_type) == other.spec_card_type(game_type)
    &&& forall|between: Card|
        {
            &&& #[trigger] between.spec_card_type(game_type) == card.spec_card_type(game_type)
            &&& (strength_in_type(card, game_type) <= strength_in_type(between, game_type)
                <= strength_in_type(other, game_type) || strength_in_type(other, game_type)
                <= strength_in_type(between, game_type) <= strength_in_type(card, game_type))
        } ==> present.spec_contains(between)
}

/// The cards that can stand in for `card`: those still considered, in the same
/// block as `card`, and at most `max_delta` points away from it.
pub open spec fn is_quasi_equivalent(
    card: Card,
    other: Card,
    in_hand_or_yielded: Cards,
    game_type: GameType,
    max_delta: CardPoints,
    still_considered: Cards,
) -> bool {
    &&& still_considered.spec_contains(other)
    &&& point_distance(other, card) <= max_delta.0
    &&& in_same_block(card, other, in_hand_or_yielded, game_type)
}

/// `delta` is the greatest distance in points between `card` and a card of
/// `cards`, and zero if `cards` is empty.
pub open spec fn is_greatest_distance(cards: Cards, card: Card, delta: CardPoints) -> bool {
    &&& forall|other: Card| #[trigger] cards.spec_contains(other) ==> point_distance(other, card) <= delta.0
    &&& delta.0 == 0 || exists|other: Card| #[trigger]
        cards.spec_contains(other) && point_distance(other, card) == delta.0
}

/// Two cards of a list, with every card of the list between them, both
/// included, in `present`.
pub open spec fn in_same_run(candidates: Seq<Card>, card: Card, other: Card, present: Cards) -> bool {
    exists|p: int, q: int|
        {
            &&& 0 <= p < candidates.len()
            &&& 0 <= q < candidates.len()
            &&& #[trigger] candidates[p] == card
            &&& #[trigger] candidates[q] == other
            &&& forall|k: int|
                (p <= k <= q || q <= k <= p) ==> present.spec_contains(#[trigger] candidates[k])
        }
}

/// The cards of `candidates` that are still considered, at most `max_delta`
/// points away from `card`, and in the same run of present cards as `card`;
/// with them the greatest distance in points among them.
fn quasi_equivalent_impl(
    card: Card,
    candidates_sorted_by_rank: &Vec<Card>,
    in_hand_or_yielded: Cards,
    max_delta: CardPoints,
    still_considered: Cards,
) -> (r: (Cards, CardPoints))
    requires
        forall|i: int, j: int|
            0 <= i < j < candidates_sorted_by_rank@.len() ==> candidates_sorted_by_rank@[i]
                != candidates_sorted_by_rank@[j],
        candidates_sorted_by_rank@.contains(card),
        in_hand_or_yielded.spec_contains(card),
    ensures
        forall|other: Card| #[trigger]
            r.0.spec_contains(other) <==> {
                &&& still_considered.spec_contains(other)
                &&& point_distance(other, card) <= max_delta.0
                &&& in_same_run(candidates_sorted_by_rank@, card, other, in_hand_or_yielded)
            },
        is_greatest_distance(r.0, card, r.1),
        r.1.0 <= max_delta.0,
{
    let mut filtered_equivalence_set = Cards::empty();
    let mut result_max_delta: u8 = 0;
    let mut found_card = false;

    let card_points = card.to_points();
    let ghost cands = candidates_sorted_by_rank@;
    let ghost present = in_hand_or_yielded;
    let ghost mut start: int = 0;
    let ghost mut place: int = 0;
    let ghost mut stopped: bool = false;

    proof {
        assert forall|other: Card| !filtered_equivalence_set.spec_contains(other) by {
            Cards::lemma_empty(other);
        }
    }
    let mut i: usize = 0;
    while i < candidates_sorted_by_rank.len()
        invariant_except_break
            !stopped,
        invariant
            cands == candidates_sorted_by_rank@,
            present == in_hand_or_yielded,
            present.spec_contains(card),
            card_points == card.spec_to_points(),
            0 <= start <= i <= cands.len(),
            forall|k: int| start <= k < i ==> present.spec_contains(#[trigger] cands[k]),
            start == 0 || !present.spec_contains(cands[start - 1]),
            found_card ==> start <= place < i && cands[place] == card,
            !found_card ==> forall|k: int| 0 <= k < i ==> #[trigger] cands[k] != card,
            stopped ==> found_card && i < cands.len() && !present.spec_contains(cands[i as int]),
            forall|other: Card|
                filtered_equivalence_set.spec_contains(other) <==> {
                    &&& still_considered.spec_contains(other)
                    &&& point_distance(other, card) <= max_delta.0
                    &&& exists|q: int| start <= q < i && #[trigger] cands[q] == other
                },
            is_greatest_distance(filtered_equivalence_set, card, CardPoints(result_max_delta)),
            result_max_delta <= max_delta.0,
        ensures
            stopped || i == cands.len(),
        decreases cands.len() - i,
    {
        let candidate = candidates_sorted_by_rank[i];
        if !in_hand_or_yielded.contains(candidate) {
            if found_card {
                proof {
                    stopped = true;
                }
                break ;
            }
            filtered_equivalence_set = Cards::empty();
            result_max_delta = 0;
            proof {
                start = i + 1;
                assert forall|other: Card| !filtered_equivalence_set.spec_contains(other) by {
                    Cards::lemma_empty(other);
                }
                assert(cands[i as int] != card);
            }
            i += 1;
            continue ;
        }
        if candidate == card {
            proof {
                place = i as int;
            }
            found_card = true;
        }
        let ghost old_set = filtered_equivalence_set;
        let ghost old_delta = result_max_delta;

        if still_considered.contains(candidate) {
            let points = candidate.to_points().0;
            let delta: u8 = if points >= card_points.0 {
                points - card_points.0
            } else {
                card_points.0 - points
            };
            if delta <= max_delta.0 {
                filtered_equivalence_set.add_new(candidate);
                if result_max_delta < delta {
                    result_max_delta = delta;
                }
            }
        }
        proof {
            assert forall|other: Card|
                filtered_equivalence_set.spec_contains(other) <==> {
                    &&& still_considered.spec_contains(other)
                    &&& point_distance(other, card) <= max_delta.0
                    &&& exists|q: int| start <= q < i + 1 && #[trigger] cands[q] == other
                } by {
                Cards::lemma_or(old_set, Cards::spec_just(candidate), other);
                Cards::lemma_just(candidate, other);
                if old_set.spec_contains(other) {
                    let q = choose|q: int| start <= q < i && #[trigger] cands[q] == other;
                    assert(start <= q < i + 1 && cands[q] == other);
                }
                if exists|q: int| start <= q < i + 1 && #[trigger] cands[q] == other {
                    let q = choose|q: int| start <= q < i + 1 && #[trigger] cands[q] == other;
                    if q < i {
                        assert(start <= q < i && cands[q] == other);
                    }
                }
                if other == candidate {
                    assert(cands[i as int] == other);
                }
            }
            assert(is_greatest_distance(
                filtered_equivalence_set,
                card,
                CardPoints(result_max_delta),
            )) by {
                assert forall|other: Card| #[trigger]
                    filtered_equivalence_set.spec_contains(other) implies point_distance(
                    other,
                    card,
                ) <= result_max_delta by {
                    Cards::lemma_or(old_set, Cards::spec_just(candidate), other);
                    Cards::lemma_just(candidate, other);
                }
                if result_max_delta != 0 {
                    if result_max_delta == old_delta {
                        let w = choose|w: Card| #[trigger]
                            old_set.spec_contains(w) && point_distance(w, card) == old_delta;
                        Cards::lemma_or(old_set, Cards::spec_just(candidate), w);
                        assert(filtered_equivalence_set.spec_contains(w));
                    } else {
                        Cards::lemma_or(old_set, Cards::spec_just(candidate), candidate);
                        Cards::lemma_just(candidate, candidate);
                        assert(filtered_equivalence_set.spec_contains(candidate));
                    }
                }
            }
        }
        i += 1;
    }
    proof {
        if !found_card {
            let k = choose|k: int| 0 <= k < cands.len() && cands[k] == card;
            assert(cands[k] != card);
        }
        let end = i as int;
        assert forall|other: Card| #[trigger]
            filtered_equivalence_set.spec_contains(other) <==> {
                &&& still_considered.spec_contains(other)
                &&& point_distance(other, card) <= max_delta.0
                &&& in_same_run(cands, card, other, present)
            } by {
            if filtered_equivalence_set.spec_contains(other) {
                let q = choose|q: int| start <= q < end && #[trigger] cands[q] == other;
                assert(cands[place] == card && cands[q] == other);
                assert(in_same_run(cands, card, other, present));
            }
            if in_same_run(cands, card, other, present) {
                let (p, q) = choose|p: int, q: int|
                    {
                        &&& 0 <= p < cands.len()
                        &&& 0 <= q < cands.len()
                        &&& #[trigger] cands[p] == card
                        &&& #[trigger] cands[q] == other
                        &&& forall|k: int|
                            (p <= k <= q || q <= k <= p) ==> present.spec_contains(
                                #[trigger] cands[k],
                            )
                    };
                assert(p == place);
                if q < start {
                    assert(present.spec_contains(cands[start - 1]));
                }
                if q >= end {
                    assert(present.spec_contains(cands[end]));
                }
                assert(start <= q < end && cands[q] == other);
            }
        }
    }
    (filtered_equivalence_set, CardPoints(result_max_delta))
}

/// The ranks of a suit in the order of a Null game.
fn null_order_candidates(suit: Suit) -> (r: Vec<Card>)
    ensures
        r@.len() == 8,
        forall|i: int|
            0 <= i < 8 ==> (#[trigger] r@[i]).spec_suit() == suit
                && crate::power::CardPower::null_order(r@[i].spec_rank()) == i,
{
    let mut result: Vec<Card> = Vec::new();
    result.push(Card::of(Rank::L7, suit));
    result.push(Card::of(Rank::L8, suit));
    result.push(Card::of(Rank::L9, suit));
    result.push(Card::of(Rank::Z, suit));
    result.push(Card::of(Rank::U, suit));
    result.push(Card::of(Rank::O, suit));
    result.push(Card::of(Rank::K, suit));
    result.push(Card::of(Rank::A, suit));
    result
}

/// The cards of `card`'s type, from the weakest to the strongest.
fn candidates_of_type(card: Card, game_type: GameType) -> (r: Vec<Card>)
    ensures
        is_type_in_order(r@, card.spec_card_type(game_type), game_type),
{
    let candidates = if matches!(game_type, GameType::Null) {
        null_order_candidates(card.suit())
    } else {
        Cards::of_card_type(card.card_type(game_type), game_type).to_vec()
    };
    proof {
        let cands = candidates@;
        let card_type = card.spec_card_type(game_type);
        assert forall|i: int| 0 <= i < cands.len() implies (#[trigger] cands[i]).spec_card_type(
            game_type,
        ) == card_type by {
            Cards::lemma_of_card_type(card_type, game_type, cands[i]);
        }
        assert forall|c: Card| c.spec_card_type(game_type) == card_type implies cands.contains(
            c,
        ) by {
            Cards::lemma_of_card_type(card_type, game_type, c);
            if game_type == GameType::Null {
                let i = crate::power::CardPower::null_order(c.spec_rank());
                c.lemma_of_rank_and_suit();
                cands[i].lemma_of_rank_and_suit();
                assert(cands[i] == c);
            }
        }
    }
    candidates
}

/// The list holds the cards of a type, each once, from the weakest to the
/// strongest.
pub open spec fn is_type_in_order(cards: Seq<Card>, card_type: CardType, game_type: GameType) -> bool {
    &&& forall|i: int|
        0 <= i < cards.len() ==> (#[trigger] cards[i]).spec_card_type(game_type) == card_type
    &&& forall|i: int, j: int|
        0 <= i < j < cards.len() ==> strength_in_type(#[trigger] cards[i], game_type)
            < strength_in_type(#[trigger] cards[j], game_type)
    &&& forall|c: Card| #[trigger] c.spec_card_type(game_type) == card_type ==> cards.contains(c)
}

proof fn lemma_run_gives_block(
    cands: Seq<Card>,
    card: Card,
    other: Card,
    present: Cards,
    game_type: GameType,
)
    requires
        is_type_in_order(cands, card.spec_card_type(game_type), game_type),
        in_same_run(cands, card, other, present),
    ensures
        in_same_block(card, other, present, game_type),
{
    let card_type = card.spec_card_type(game_type);
    let (p, q) = choose|p: int, q: int|
        {
            &&& 0 <= p < cands.len()
            &&& 0 <= q < cands.len()
            &&& #[trigger] cands[p] == card
            &&& #[trigger] cands[q] == other
            &&& forall|k: int|
                (p <= k <= q || q <= k <= p) ==> present.spec_contains(#[trigger] cands[k])
        };
    assert forall|between: Card|
        {
            &&& #[trigger] between.spec_card_type(game_type) == card_type
            &&& (strength_in_type(card, game_type) <= strength_in_type(between, game_type)
                <= strength_in_type(other, game_type) || strength_in_type(other, game_type)
                <= strength_in_type(between, game_type) <= strength_in_type(card, game_type))
        } implies present.spec_contains(between) by {
        assert(cands.contains(between));
        let k = choose|k: int| 0 <= k < cands.len() && cands[k] == between;
        if k < p && k < q {
            assert(strength_in_type(cands[k], game_type) < strength_in_type(cands[p], game_type));
            assert(strength_in_type(cands[k], game_type) < strength_in_type(cands[q], game_type));
        }
        if k > p && k > q {
            assert(strength_in_type(cands[p], game_type) < strength_in_type(cands[k], game_type));
            assert(strength_in_type(cands[q], game_type) < strength_in_type(cands[k], game_type));
        }
        assert(present.spec_contains(cands[k]));
    }
}

proof fn lemma_block_gives_run(
    cands: Seq<Card>,
    card: Card,
    other: Card,
    present: Cards,
    game_type: GameType,
)
    requires
        is_type_in_order(cands, card.spec_card_type(game_type), game_type),
        in_same_block(card, other, present, game_type),
    ensures
        in_same_run(cands, card, other, present),
{
    let card_type = card.spec_card_type(game_type);
    assert(cands.contains(card));
    assert(cands.contains(other));
    let p = choose|p: int| 0 <= p < cands.len() && cands[p] == card;
    let q = choose|q: int| 0 <= q < cands.len() && cands[q] == other;
    assert forall|k: int| (p <= k <= q || q <= k <= p) implies present.spec_contains(
        #[trigger] cands[k],
    ) by {
        let between = cands[k];
        assert(between.spec_card_type(game_type) == card_type);
        if k < p {
            assert(strength_in_type(cands[k], game_type) < strength_in_type(cands[p], game_type));
        }
        if k > p {
            assert(strength_in_type(cands[p], game_type) < strength_in_type(cands[k], game_type));
        }
        if k < q {
            assert(strength_in_type(cands[k], game_type) < strength_in_type(cands[q], game_type));
        }
        if k > q {
            assert(strength_in_type(cands[q], game_type) < strength_in_type(cands[k], game_type));
        }
    }
    assert(cands[p] == card && cands[q] == other);
}

/// The still considered cards that can stand in for `card` and need not be
/// tried after it: those of `card`'s type that no card in another player's
/// hand separates from `card`, and that are at most `max_delta` points away.
/// With them comes the greatest distance in points of such a card, which is
/// zero if there is none.
pub fn quasi_equivalent_with_max_delta(
    card: Card,
    in_hand_or_yielded: Cards,
    game_type: GameType,
    max_delta: CardPoints,
    still_considered: Cards,
) -> (r: (Cards, CardPoints))
    requires
        in_hand_or_yielded.spec_contains(card),
    ensures
        forall|other: Card| #[trigger]
            r.0.spec_contains(other) <==> is_quasi_equivalent(
                card,
                other,
                in_hand_or_yielded,
                game_type,
                max_delta,
                still_considered,
            ),
        is_greatest_distance(r.0, card, r.1),
        r.1.0 <= max_delta.0,
        r.0.subset_of(still_considered),
{
    let candidates = candidates_of_type(card, game_type);
    proof {
        let cands = candidates@;
        assert(cands.contains(card));
        assert forall|i: int, j: int| 0 <= i < j < cands.len() implies cands[i] != cands[j] by {
            assert(strength_in_type(cands[i], game_type) < strength_in_type(cands[j], game_type));
        }
    }
    let r = quasi_equivalent_impl(
        card,
        &candidates,
        in_hand_or_yielded,
        max_delta,
        still_considered,
    );
    proof {
        let cands = candidates@;
        assert forall|other: Card| #[trigger]
            r.0.spec_contains(other) <==> is_quasi_equivalent(
                card,
                other,
                in_hand_or_yielded,
                game_type,
                max_delta,
                still_considered,
            ) by {
            if in_same_run(cands, card, other, in_hand_or_yielded) {
                lemma_run_gives_block(cands, card, other, in_hand_or_yielded, game_type);
            }
            if in_same_block(card, other, in_hand_or_yielded, game_type) {
                lemma_block_gives_run(cands, card, other, in_hand_or_yielded, game_type);
            }
        }
    }
    r
}

/// What the built sets hold and measure, for proofs that reason about sets of
/// cards by their members.
pub broadcast group group_cards {
    Card::lemma_index,
    Cards::lemma_view,
    Cards::lemma_empty,
    Cards::lemma_all,
    Cards::lemma_is_empty,
    Cards::lemma_disjoint,
    Cards::lemma_just,
    Cards::lemma_or,
    Cards::lemma_and,
    Cards::lemma_without,
    Cards::lemma_of_suit,
    Cards::lemma_of_rank,
    Cards::lemma_of_trump,
    Cards::lemma_of_card_type,
    Cards::lemma_len_bounds,
    Cards::lemma_points_bounds,
    Cards::lemma_measure_just,
}

} // verus!
