use rand_xoshiro::Xoshiro256PlusPlus;
use vstd::prelude::*;
use crate::card::{Card, CardType, Suit};
use crate::cards::{group_cards, Cards};
use crate::deal::Deal;
use crate::game_type::GameType;
use crate::observed_gameplay::CardKnowledge;
use crate::rng::{random_of_range, shuffle_cards};
use crate::util::{
    all_choices, binomial, is_choice, is_listed, lemma_binomial_positive, number_of_choices,
};

verus! {

/// What is not known of a hand or of the skat: how many of its cards are
/// unknown, and of which types they can still be.
#[derive(Clone, Copy, Debug, PartialEq, Eq, Structural)]
pub struct UnknownCards {
    pub number: u8,
    pub hearts_possible: bool,
    pub spades_possible: bool,
    pub diamonds_possible: bool,
    pub clubs_possible: bool,
    pub trump_possible: bool,
}

impl UnknownCards {
    pub open spec fn spec_unrestricted(number: u8) -> UnknownCards {
        UnknownCards {
            number,
            hearts_possible: true,
            spades_possible: true,
            diamonds_possible: true,
            clubs_possible: true,
            trump_possible: true,
        }
    }

    /// So many unknown cards, which can be of every type.
    #[verifier::when_used_as_spec(spec_unrestricted)]
    pub fn unrestricted(number: u8) -> (r: UnknownCards)
        ensures
            r == UnknownCards::spec_unrestricted(number),
    {
        UnknownCards {
            number,
            hearts_possible: true,
            spades_possible: true,
            diamonds_possible: true,
            clubs_possible: true,
            trump_possible: true,
        }
    }

    /// Nothing unknown.
    pub fn all_known() -> (r: UnknownCards)
        ensures
            r == (UnknownCards {
                number: 0,
                hearts_possible: false,
                spades_possible: false,
                diamonds_possible: false,
                clubs_possible: false,
                trump_possible: false,
            }),
    {
        UnknownCards {
            number: 0,
            hearts_possible: false,
            spades_possible: false,
            diamonds_possible: false,
            clubs_possible: false,
            trump_possible: false,
        }
    }

    /// A hand of which nothing is known.
    pub fn unknown_hand() -> (r: UnknownCards)
        ensures
            r == UnknownCards::spec_unrestricted(10),
    {
        UnknownCards::unrestricted(10)
    }

    /// A skat of which nothing is known.
    pub fn unknown_skat() -> (r: UnknownCards)
        ensures
            r == UnknownCards::spec_unrestricted(2),
    {
        UnknownCards::unrestricted(2)
    }

    pub open spec fn spec_possible(&self, card_type: CardType) -> bool {
        match card_type {
            CardType::Trump => self.trump_possible,
            CardType::Suit(Suit::Diamonds) => self.diamonds_possible,
            CardType::Suit(Suit::Spades) => self.spades_possible,
            CardType::Suit(Suit::Clubs) => self.clubs_possible,
            CardType::Suit(Suit::Hearts) => self.hearts_possible,
        }
    }

    /// Whether the unknown cards can be of the type.
    #[verifier::when_used_as_spec(spec_possible)]
    pub fn possible(&self, card_type: CardType) -> (r: bool)
        ensures
            r == self.spec_possible(card_type),
    {
        match card_type {
            CardType::Trump => self.trump_possible,
            CardType::Suit(Suit::Diamonds) => self.diamonds_possible,
            CardType::Suit(Suit::Spades) => self.spades_possible,
            CardType::Suit(Suit::Clubs) => self.clubs_possible,
            CardType::Suit(Suit::Hearts) => self.hearts_possible,
        }
    }

    pub open spec fn spec_max_possible(&self, card_type: CardType) -> u8 {
        if self.spec_possible(card_type) {
            self.number
        } else {
            0
        }
    }

    /// How many of the unknown cards can be of the type at most.
    #[verifier::when_used_as_spec(spec_max_possible)]
    pub fn max_possible(&self, card_type: CardType) -> (r: u8)
        ensures
            r == self.spec_max_possible(card_type),
    {
        if self.possible(card_type) {
            self.number
        } else {
            0
        }
    }

    pub open spec fn spec_without(self, number: u8) -> UnknownCards {
        UnknownCards { number: (self.number - number) as u8, ..self }
    }

    /// The unknown cards when `number` of them have become known.
    #[verifier::when_used_as_spec(spec_without)]
    pub fn without(self, number: u8) -> (r: UnknownCards)
        requires
            number <= self.number,
        ensures
            r == self.spec_without(number),
    {
        let mut result = self;
        result.remove(number);
        result
    }

    /// `number` of the unknown cards have become known.
    pub fn remove(&mut self, number: u8)
        requires
            number <= old(self).number,
        ensures
            *final(self) == old(self).spec_without(number),
    {
        self.number = self.number - number;
    }

    pub open spec fn spec_is_empty(&self) -> bool {
        self.number == 0
    }

    #[verifier::when_used_as_spec(spec_is_empty)]
    pub fn is_empty(&self) -> (r: bool)
        ensures
            r == self.spec_is_empty(),
    {
        self.number == 0
    }

    pub open spec fn spec_retrict(self, trick_type: CardType) -> UnknownCards {
        match trick_type {
            CardType::Trump => UnknownCards { trump_possible: false, ..self },
            CardType::Suit(Suit::Clubs) => UnknownCards { clubs_possible: false, ..self },
            CardType::Suit(Suit::Spades) => UnknownCards { spades_possible: false, ..self },
            CardType::Suit(Suit::Hearts) => UnknownCards { hearts_possible: false, ..self },
            CardType::Suit(Suit::Diamonds) => UnknownCards { diamonds_possible: false, ..self },
        }
    }

    /// The unknown cards cannot be of the type: their holder did not follow it.
    pub fn retrict(&mut self, trick_type: CardType)
        ensures
            *final(self) == old(self).spec_retrict(trick_type),
            forall|card_type: CardType|
                final(self).spec_possible(card_type) == (old(self).spec_possible(card_type)
                    && card_type != trick_type),
    {
        match trick_type {
            CardType::Trump => self.trump_possible = false,
            CardType::Suit(Suit::Clubs) => self.clubs_possible = false,
            CardType::Suit(Suit::Spades) => self.spades_possible = false,
            CardType::Suit(Suit::Hearts) => self.hearts_possible = false,
            CardType::Suit(Suit::Diamonds) => self.diamonds_possible = false,
        }
    }
}

/// How many cards of each type: of the cards that are still to be given out, or
/// of those that are given to one holder.
#[derive(Clone, Copy, Debug, PartialEq, Eq, Structural)]
pub struct ColorDistribution {
    pub hearts: u8,
    pub spades: u8,
    pub diamonds: u8,
    pub clubs: u8,
    pub trump: u8,
}

impl ColorDistribution {
    pub open spec fn of_type(self, card_type: CardType) -> u8 {
        match card_type {
            CardType::Trump => self.trump,
            CardType::Suit(Suit::Diamonds) => self.diamonds,
            CardType::Suit(Suit::Spades) => self.spades,
            CardType::Suit(Suit::Clubs) => self.clubs,
            CardType::Suit(Suit::Hearts) => self.hearts,
        }
    }

    /// The numbers in the order in which they are counted through: hearts,
    /// diamonds, clubs, spades, trump.
    pub open spec fn key(self) -> (int, int, int, int, int) {
        (
            self.hearts as int,
            self.diamonds as int,
            self.clubs as int,
            self.spades as int,
            self.trump as int,
        )
    }

    /// How many cards in all.
    pub open spec fn total(self) -> int {
        self.hearts + self.spades + self.diamonds + self.clubs + self.trump
    }

    /// No more cards of any type than the other has.
    pub open spec fn fits_in(self, other: ColorDistribution) -> bool {
        &&& self.hearts <= other.hearts
        &&& self.spades <= other.spades
        &&& self.diamonds <= other.diamonds
        &&& self.clubs <= other.clubs
        &&& self.trump <= other.trump
    }

    /// At most the cards of a deck.
    pub open spec fn wf(self) -> bool {
        self.total() <= 32
    }

    pub open spec fn spec_minus(self, other: ColorDistribution) -> ColorDistribution {
        ColorDistribution {
            hearts: (self.hearts - other.hearts) as u8,
            spades: (self.spades - other.spades) as u8,
            diamonds: (self.diamonds - other.diamonds) as u8,
            clubs: (self.clubs - other.clubs) as u8,
            trump: (self.trump - other.trump) as u8,
        }
    }

    pub open spec fn spec_plus(self, other: ColorDistribution) -> ColorDistribution {
        ColorDistribution {
            hearts: (self.hearts + other.hearts) as u8,
            spades: (self.spades + other.spades) as u8,
            diamonds: (self.diamonds + other.diamonds) as u8,
            clubs: (self.clubs + other.clubs) as u8,
            trump: (self.trump + other.trump) as u8,
        }
    }

    pub open spec fn spec_new(cards: Cards, game_type: GameType) -> ColorDistribution {
        ColorDistribution {
            hearts: Cards::spec_of_card_type(CardType::Suit(Suit::Hearts), game_type).spec_and(
                cards,
            ).spec_len() as u8,
            spades: Cards::spec_of_card_type(CardType::Suit(Suit::Spades), game_type).spec_and(
                cards,
            ).spec_len() as u8,
            diamonds: Cards::spec_of_card_type(CardType::Suit(Suit::Diamonds), game_type).spec_and(
                cards,
            ).spec_len() as u8,
            clubs: Cards::spec_of_card_type(CardType::Suit(Suit::Clubs), game_type).spec_and(
                cards,
            ).spec_len() as u8,
            trump: Cards::spec_of_card_type(CardType::Trump, game_type).spec_and(
                cards,
            ).spec_len() as u8,
        }
    }

    /// How many of the cards are of each type in the game.
    pub fn new(cards: Cards, game_type: GameType) -> (r: ColorDistribution)
        ensures
            r == ColorDistribution::spec_new(cards, game_type),
    {
        ColorDistribution {
            hearts: Cards::of_card_type(CardType::Suit(Suit::Hearts), game_type).and(cards).len(),
            spades: Cards::of_card_type(CardType::Suit(Suit::Spades), game_type).and(cards).len(),
            diamonds: Cards::of_card_type(CardType::Suit(Suit::Diamonds), game_type).and(
                cards,
            ).len(),
            clubs: Cards::of_card_type(CardType::Suit(Suit::Clubs), game_type).and(cards).len(),
            trump: Cards::of_card_type(CardType::Trump, game_type).and(cards).len(),
        }
    }

    pub open spec fn spec_empty() -> ColorDistribution {
        ColorDistribution { hearts: 0, spades: 0, diamonds: 0, clubs: 0, trump: 0 }
    }

    /// No card of any type.
    #[verifier::when_used_as_spec(spec_empty)]
    pub fn empty() -> (r: ColorDistribution)
        ensures
            r == ColorDistribution::spec_empty(),
    {
        ColorDistribution { hearts: 0, spades: 0, diamonds: 0, clubs: 0, trump: 0 }
    }

    pub open spec fn spec_initial(game_type: GameType) -> ColorDistribution {
        match game_type {
            GameType::Trump(CardType::Suit(Suit::Clubs)) => ColorDistribution {
                hearts: 7,
                spades: 7,
                diamonds: 7,
                clubs: 0,
                trump: 11,
            },
            GameType::Trump(CardType::Suit(Suit::Hearts)) => ColorDistribution {
                hearts: 0,
                spades: 7,
                diamonds: 7,
                clubs: 7,
                trump: 11,
            },
            GameType::Trump(CardType::Suit(Suit::Diamonds)) => ColorDistribution {
                hearts: 7,
                spades: 7,
                diamonds: 0,
                clubs: 7,
                trump: 11,
            },
            GameType::Trump(CardType::Suit(Suit::Spades)) => ColorDistribution {
                hearts: 7,
                spades: 0,
                diamonds: 7,
                clubs: 7,
                trump: 11,
            },
            GameType::Trump(CardType::Trump) => ColorDistribution {
                hearts: 7,
                spades: 7,
                diamonds: 7,
                clubs: 7,
                trump: 4,
            },
            GameType::Null => ColorDistribution {
                hearts: 8,
                spades: 8,
                diamonds: 8,
                clubs: 8,
                trump: 0,
            },
        }
    }

    /// How many cards of each type the deck has in the game.
    #[verifier::when_used_as_spec(spec_initial)]
    pub fn initial(game_type: GameType) -> (r: ColorDistribution)
        ensures
            r == ColorDistribution::spec_initial(game_type),
            r.total() == 32,
    {
        match game_type {
            GameType::Trump(CardType::Suit(Suit::Clubs)) => ColorDistribution {
                hearts: 7,
                spades: 7,
                diamonds: 7,
                clubs: 0,
                trump: 11,
            },
            GameType::Trump(CardType::Suit(Suit::Hearts)) => ColorDistribution {
                hearts: 0,
                spades: 7,
                diamonds: 7,
                clubs: 7,
                trump: 11,
            },
            GameType::Trump(CardType::Suit(Suit::Diamonds)) => ColorDistribution {
                hearts: 7,
                spades: 7,
                diamonds: 0,
                clubs: 7,
                trump: 11,
            },
            GameType::Trump(CardType::Suit(Suit::Spades)) => ColorDistribution {
                hearts: 7,
                spades: 0,
                diamonds: 7,
                clubs: 7,
                trump: 11,
            },
            GameType::Trump(CardType::Trump) => ColorDistribution {
                hearts: 7,
                spades: 7,
                diamonds: 7,
                clubs: 7,
                trump: 4,
            },
            GameType::Null => ColorDistribution {
                hearts: 8,
                spades: 8,
                diamonds: 8,
                clubs: 8,
                trump: 0,
            },
        }
    }

    /// The deck's distribution is that of all cards.
    pub proof fn lemma_initial_is_the_deck(game_type: GameType)
        ensures
            ColorDistribution::spec_initial(game_type) == ColorDistribution::spec_new(
                Cards::spec_all(),
                game_type,
            ),
    {
        broadcast use group_cards;

        ColorDistribution::lemma_count_of_type(CardType::Trump, game_type);
        ColorDistribution::lemma_count_of_type(CardType::Suit(Suit::Diamonds), game_type);
        ColorDistribution::lemma_count_of_type(CardType::Suit(Suit::Hearts), game_type);
        ColorDistribution::lemma_count_of_type(CardType::Suit(Suit::Spades), game_type);
        ColorDistribution::lemma_count_of_type(CardType::Suit(Suit::Clubs), game_type);
    }

    proof fn lemma_count_of_type(card_type: CardType, game_type: GameType)
        ensures
            Cards::spec_of_card_type(card_type, game_type).spec_and(Cards::spec_all()).spec_len()
                == ColorDistribution::spec_initial(game_type).of_type(card_type),
    {
        broadcast use group_cards;

        let of_type = Cards::spec_of_card_type(card_type, game_type);
        of_type.spec_and(Cards::spec_all()).lemma_ext(of_type);
        let unters = Cards::spec_of_rank(crate::card::Rank::U);
        Cards::lemma_measure_rank_and_suit();
        match card_type {
            CardType::Trump => {
                match game_type {
                    GameType::Trump(CardType::Suit(suit)) => {
                        unters.lemma_measure_or(Cards::spec_of_suit(suit));
                        Cards::lemma_unter_of_suit(suit);
                    },
                    _ => {
                        Cards::lemma_measure_constants();
                    },
                }
            },
            CardType::Suit(suit) => {
                let trump = Cards::spec_of_trump(game_type);
                Cards::spec_of_suit(suit).lemma_measure_without(trump);
                Cards::lemma_unter_of_suit(suit);
                Cards::lemma_measure_constants();
                match game_type {
                    GameType::Trump(CardType::Suit(trump_suit)) => {
                        if trump_suit == suit {
                            Cards::spec_of_suit(suit).spec_and(trump).lemma_ext(
                                Cards::spec_of_suit(suit),
                            );
                        } else {
                            Cards::spec_of_suit(suit).spec_and(trump).lemma_ext(
                                Cards::spec_of_suit(suit).spec_and(unters),
                            );
                        }
                    },
                    GameType::Trump(CardType::Trump) => {
                        Cards::spec_of_suit(suit).spec_and(trump).lemma_ext(
                            Cards::spec_of_suit(suit).spec_and(unters),
                        );
                    },
                    GameType::Null => {
                        Cards::spec_of_suit(suit).spec_and(trump).lemma_ext(Cards::spec_empty());
                    },
                }
            },
        }
    }

    pub open spec fn spec_is_empty(&self) -> bool {
        self.total() == 0
    }

    #[verifier::when_used_as_spec(spec_is_empty)]
    pub fn is_empty(&self) -> (r: bool)
        ensures
            r == self.spec_is_empty(),
    {
        self.hearts == 0 && self.spades == 0 && self.diamonds == 0 && self.clubs == 0
            && self.trump == 0
    }

    /// How many cards in all.
    pub fn len(&self) -> (r: u8)
        requires
            self.total() <= u8::MAX,
        ensures
            r == self.total(),
    {
        self.hearts + self.spades + self.diamonds + self.clubs + self.trump
    }

    /// The number of cards of a type, to be changed.
    pub fn get_mut(&mut self, card_type: CardType) -> (r: &mut u8)
        ensures
            *r == old(self).of_type(card_type),
            final(self).of_type(card_type) == *final(r),
            forall|other: CardType|
                other != card_type ==> final(self).of_type(other) == old(self).of_type(other),
    {
        match card_type {
            CardType::Trump => &mut self.trump,
            CardType::Suit(Suit::Diamonds) => &mut self.diamonds,
            CardType::Suit(Suit::Spades) => &mut self.spades,
            CardType::Suit(Suit::Clubs) => &mut self.clubs,
            CardType::Suit(Suit::Hearts) => &mut self.hearts,
        }
    }

    /// A distribution is given by its numbers for the five types.
    pub proof fn lemma_ext(self, other: ColorDistribution)
        requires
            forall|card_type: CardType| self.of_type(card_type) == other.of_type(card_type),
        ensures
            self == other,
    {
        assert(self.of_type(CardType::Trump) == other.of_type(CardType::Trump));
        assert(self.of_type(CardType::Suit(Suit::Diamonds)) == other.of_type(
            CardType::Suit(Suit::Diamonds),
        ));
        assert(self.of_type(CardType::Suit(Suit::Hearts)) == other.of_type(
            CardType::Suit(Suit::Hearts),
        ));
        assert(self.of_type(CardType::Suit(Suit::Spades)) == other.of_type(
            CardType::Suit(Suit::Spades),
        ));
        assert(self.of_type(CardType::Suit(Suit::Clubs)) == other.of_type(
            CardType::Suit(Suit::Clubs),
        ));
    }

    /// The distribution with `number` cards of a type less.
    pub fn without(self, number: u8, card_type: CardType) -> (r: ColorDistribution)
        requires
            number <= self.of_type(card_type),
        ensures
            r.of_type(card_type) == self.of_type(card_type) - number,
            forall|other: CardType| other != card_type ==> r.of_type(other) == self.of_type(other),
    {
        let mut result = self;
        match card_type {
            CardType::Trump => result.trump = result.trump - number,
            CardType::Suit(Suit::Diamonds) => result.diamonds = result.diamonds - number,
            CardType::Suit(Suit::Spades) => result.spades = result.spades - number,
            CardType::Suit(Suit::Clubs) => result.clubs = result.clubs - number,
            CardType::Suit(Suit::Hearts) => result.hearts = result.hearts - number,
        }
        result
    }

    /// Adds the other's cards, type by type.
    pub fn add_assign(&mut self, other: ColorDistribution)
        requires
            old(self).total() + other.total() <= u8::MAX,
        ensures
            *final(self) == old(self).spec_plus(other),
    {
        self.hearts = self.hearts + other.hearts;
        self.spades = self.spades + other.spades;
        self.diamonds = self.diamonds + other.diamonds;
        self.clubs = self.clubs + other.clubs;
        self.trump = self.trump + other.trump;
    }
}

/// One way to give a holder his unknown cards: how many of each type he gets,
/// and what is then still to be given out.
#[derive(Clone, Copy, Debug, PartialEq, Eq, Structural)]
pub struct PartialDistributionResult {
    pub distributed: ColorDistribution,
    pub still_open: ColorDistribution,
}

/// A way to give a holder his unknown cards out of what is still open: no
/// more of a type than is open, none of a type that he cannot have, and in
/// all as many as he has unknown.
pub open spec fn is_partial_distribution(
    unknown_cards: UnknownCards,
    open: ColorDistribution,
    distributed: ColorDistribution,
) -> bool {
    &&& distributed.fits_in(open)
    &&& distributed.hearts > 0 ==> unknown_cards.hearts_possible
    &&& distributed.spades > 0 ==> unknown_cards.spades_possible
    &&& distributed.diamonds > 0 ==> unknown_cards.diamonds_possible
    &&& distributed.clubs > 0 ==> unknown_cards.clubs_possible
    &&& distributed.trump > 0 ==> unknown_cards.trump_possible
    &&& distributed.total() == unknown_cards.number
}

/// The order in which the ways are counted through: by the numbers of hearts,
/// diamonds, clubs, spades and trump, in this order.
pub open spec fn comes_before(a: (int, int, int, int, int), b: (int, int, int, int, int)) -> bool {
    a.0 < b.0 || (a.0 == b.0 && (a.1 < b.1 || (a.1 == b.1 && (a.2 < b.2 || (a.2 == b.2 && (a.3
        < b.3 || (a.3 == b.3 && a.4 < b.4)))))))
}

/// The list holds, in their order, exactly the ways that come before `bound`.
pub open spec fn holds_ways_before(
    ways: Seq<PartialDistributionResult>,
    unknown_cards: UnknownCards,
    open: ColorDistribution,
    bound: (int, int, int, int, int),
) -> bool {
    &&& forall|i: int|
        0 <= i < ways.len() ==> {
            &&& is_partial_distribution(unknown_cards, open, (#[trigger] ways[i]).distributed)
            &&& ways[i].still_open == open.spec_minus(ways[i].distributed)
            &&& comes_before(ways[i].distributed.key(), bound)
        }
    &&& forall|distributed: ColorDistribution|
        is_partial_distribution(unknown_cards, open, distributed) && comes_before(
            #[trigger] distributed.key(),
            bound,
        ) ==> exists|i: int| 0 <= i < ways.len() && (#[trigger] ways[i]).distributed == distributed
    &&& forall|i: int, j: int|
        0 <= i < j < ways.len() ==> comes_before(
            (#[trigger] ways[i]).distributed.key(),
            (#[trigger] ways[j]).distributed.key(),
        )
}

fn lesser(a: u8, b: u8) -> (r: u8)
    ensures
        r == if a <= b {
            a
        } else {
            b
        },
{
    if a <= b {
        a
    } else {
        b
    }
}

/// All ways to give a holder his unknown cards out of what is still open, each
/// with what is then still open, in the order of `comes_before`.
#[verifier::rlimit(80)]
pub fn partially_distribute(unknown_cards: &UnknownCards, open: &ColorDistribution) -> (r: Vec<
    PartialDistributionResult,
>)
    ensures
        forall|i: int|
            0 <= i < r@.len() ==> {
                &&& is_partial_distribution(*unknown_cards, *open, (#[trigger] r@[i]).distributed)
                &&& r@[i].still_open == open.spec_minus(r@[i].distributed)
            },
        forall|distributed: ColorDistribution| #[trigger]
            is_partial_distribution(*unknown_cards, *open, distributed) ==> exists|i: int|
                0 <= i < r@.len() && (#[trigger] r@[i]).distributed == distributed,
        forall|i: int, j: int|
            0 <= i < j < r@.len() ==> comes_before(
                (#[trigger] r@[i]).distributed.key(),
                (#[trigger] r@[j]).distributed.key(),
            ),
{
    let mut result: Vec<PartialDistributionResult> = Vec::new();
    let unknown = *unknown_cards;
    let all_open = *open;

    let h_max = lesser(unknown.max_possible(CardType::Suit(Suit::Hearts)), all_open.hearts);
    let mut h: u16 = 0;
    while h <= h_max as u16
        invariant
            h <= h_max + 1,
            h_max == if unknown.spec_max_possible(CardType::Suit(Suit::Hearts)) <= all_open.hearts {
                unknown.spec_max_possible(CardType::Suit(Suit::Hearts))
            } else {
                all_open.hearts
            },
            holds_ways_before(result@, unknown, all_open, (h as int, 0, 0, 0, 0)),
        decreases h_max + 1 - h,
    {
        let unknown_h = unknown.without(h as u8);
        let d_max = lesser(unknown_h.max_possible(CardType::Suit(Suit::Diamonds)), all_open.diamonds);
        let mut d: u16 = 0;
        while d <= d_max as u16
            invariant
                h <= h_max,
                h_max <= unknown.number,
                h_max <= all_open.hearts,
                h > 0 ==> unknown.hearts_possible,
                unknown_h == unknown.spec_without(h as u8),
                d <= d_max + 1,
                d_max == if unknown_h.spec_max_possible(CardType::Suit(Suit::Diamonds))
                    <= all_open.diamonds {
                    unknown_h.spec_max_possible(CardType::Suit(Suit::Diamonds))
                } else {
                    all_open.diamonds
                },
                holds_ways_before(result@, unknown, all_open, (h as int, d as int, 0, 0, 0)),
            decreases d_max + 1 - d,
        {
            let unknown_d = unknown_h.without(d as u8);
            let c_max = lesser(unknown_d.max_possible(CardType::Suit(Suit::Clubs)), all_open.clubs);
            let mut c: u16 = 0;
            while c <= c_max as u16
                invariant
                    h <= unknown.number,
                    h <= all_open.hearts,
                    h > 0 ==> unknown.hearts_possible,
                    unknown_h == unknown.spec_without(h as u8),
                    d <= d_max,
                    d_max <= unknown_h.number,
                    d_max <= all_open.diamonds,
                    d > 0 ==> unknown.diamonds_possible,
                    unknown_d == unknown_h.spec_without(d as u8),
                    c <= c_max + 1,
                    c_max == if unknown_d.spec_max_possible(CardType::Suit(Suit::Clubs))
                        <= all_open.clubs {
                        unknown_d.spec_max_possible(CardType::Suit(Suit::Clubs))
                    } else {
                        all_open.clubs
                    },
                    holds_ways_before(
                        result@,
                        unknown,
                        all_open,
                        (h as int, d as int, c as int, 0, 0),
                    ),
                decreases c_max + 1 - c,
            {
                let unknown_c = unknown_d.without(c as u8);
                let s_max = lesser(
                    unknown_c.max_possible(CardType::Suit(Suit::Spades)),
                    all_open.spades,
                );
                let mut s: u16 = 0;
                while s <= s_max as u16
                    invariant
                        h <= unknown.number,
                        h <= all_open.hearts,
                        h > 0 ==> unknown.hearts_possible,
                        unknown_h == unknown.spec_without(h as u8),
                        d <= unknown_h.number,
                        d <= all_open.diamonds,
                        d > 0 ==> unknown.diamonds_possible,
                        unknown_d == unknown_h.spec_without(d as u8),
                        c <= c_max,
                        c_max <= unknown_d.number,
                        c_max <= all_open.clubs,
                        c > 0 ==> unknown.clubs_possible,
                        unknown_c == unknown_d.spec_without(c as u8),
                        s <= s_max + 1,
                        s_max == if unknown_c.spec_max_possible(CardType::Suit(Suit::Spades))
                            <= all_open.spades {
                            unknown_c.spec_max_possible(CardType::Suit(Suit::Spades))
                        } else {
                            all_open.spades
                        },
                        holds_ways_before(
                            result@,
                            unknown,
                            all_open,
                            (h as int, d as int, c as int, s as int, 0),
                        ),
                    decreases s_max + 1 - s,
                {
                    let unknown_s = unknown_c.without(s as u8);
                    let t_max = lesser(unknown_s.max_possible(CardType::Trump), all_open.trump);
                    let mut t: u16 = 0;
                    while t <= t_max as u16
                        invariant
                            h <= unknown.number,
                            h <= all_open.hearts,
                            h > 0 ==> unknown.hearts_possible,
                            unknown_h == unknown.spec_without(h as u8),
                            d <= unknown_h.number,
                            d <= all_open.diamonds,
                            d > 0 ==> unknown.diamonds_possible,
                            unknown_d == unknown_h.spec_without(d as u8),
                            c <= unknown_d.number,
                            c <= all_open.clubs,
                            c > 0 ==> unknown.clubs_possible,
                            unknown_c == unknown_d.spec_without(c as u8),
                            s <= s_max,
                            s_max <= unknown_c.number,
                            s_max <= all_open.spades,
                            s > 0 ==> unknown.spades_possible,
                            unknown_s == unknown_c.spec_without(s as u8),
                            t <= t_max + 1,
                            t_max == if unknown_s.spec_max_possible(CardType::Trump)
                                <= all_open.trump {
                                unknown_s.spec_max_possible(CardType::Trump)
                            } else {
                                all_open.trump
                            },
                            holds_ways_before(
                                result@,
                                unknown,
                                all_open,
                                (h as int, d as int, c as int, s as int, t as int),
                            ),
                        decreases t_max + 1 - t,
                    {
                        let unknown_t = unknown_s.without(t as u8);
                        let ghost before = result@;
                        if unknown_t.is_empty() {
                            let distributed = ColorDistribution {
                                hearts: h as u8,
                                spades: s as u8,
                                diamonds: d as u8,
                                clubs: c as u8,
                                trump: t as u8,
                            };
                            let still_open = ColorDistribution {
                                hearts: all_open.hearts - h as u8,
                                spades: all_open.spades - s as u8,
                                diamonds: all_open.diamonds - d as u8,
                                clubs: all_open.clubs - c as u8,
                                trump: all_open.trump - t as u8,
                            };
                            result.push(PartialDistributionResult { distributed, still_open });
                            proof {
                                let bound = (h as int, d as int, c as int, s as int, t + 1);
                                assert forall|other: ColorDistribution|
                                    is_partial_distribution(unknown, all_open, other)
                                        && comes_before(
                                        #[trigger] other.key(),
                                        bound,
                                    ) implies exists|i: int|
                                    0 <= i < result@.len() && (#[trigger] result@[i]).distributed
                                        == other by {
                                    if comes_before(
                                        other.key(),
                                        (h as int, d as int, c as int, s as int, t as int),
                                    ) {
                                        let i = choose|i: int|
                                            0 <= i < before.len() && (#[trigger] before[i]).distributed
                                                == other;
                                        assert(result@[i].distributed == other);
                                    } else {
                                        assert(other == distributed);
                                        assert(result@[before.len() as int].distributed == other);
                                    }
                                }
                                assert forall|i: int, j: int|
                                    0 <= i < j < result@.len() implies comes_before(
                                    (#[trigger] result@[i]).distributed.key(),
                                    (#[trigger] result@[j]).distributed.key(),
                                ) by {
                                    assert(result@[i] == before[i]);
                                    if j < before.len() {
                                        assert(result@[j] == before[j]);
                                    }
                                }
                                assert forall|i: int| 0 <= i < result@.len() implies {
                                    &&& is_partial_distribution(
                                        unknown,
                                        all_open,
                                        (#[trigger] result@[i]).distributed,
                                    )
                                    &&& result@[i].still_open == all_open.spec_minus(
                                        result@[i].distributed,
                                    )
                                    &&& comes_before(result@[i].distributed.key(), bound)
                                } by {
                                    if i < before.len() {
                                        assert(result@[i] == before[i]);
                                    }
                                }
                            }
                        } else {
                            proof {
                                let bound = (h as int, d as int, c as int, s as int, t + 1);
                                assert forall|other: ColorDistribution|
                                    is_partial_distribution(unknown, all_open, other)
                                        && comes_before(
                                        #[trigger] other.key(),
                                        bound,
                                    ) implies exists|i: int|
                                    0 <= i < result@.len() && (#[trigger] result@[i]).distributed
                                        == other by {
                                    assert(comes_before(
                                        other.key(),
                                        (h as int, d as int, c as int, s as int, t as int),
                                    ));
                                }
                            }
                        }
                        t += 1;
                    }
                    proof {
                        let bound = (h as int, d as int, c as int, s + 1, 0int);
                        assert forall|other: ColorDistribution|
                            is_partial_distribution(unknown, all_open, other) && comes_before(
                                #[trigger] other.key(),
                                bound,
                            ) implies exists|i: int|
                            0 <= i < result@.len() && (#[trigger] result@[i]).distributed
                                == other by {
                            assert(comes_before(
                                other.key(),
                                (h as int, d as int, c as int, s as int, t as int),
                            ));
                        }
                    }
                    s += 1;
                }
                proof {
                    let bound = (h as int, d as int, c + 1, 0int, 0int);
                    assert forall|other: ColorDistribution|
                        is_partial_distribution(unknown, all_open, other) && comes_before(
                            #[trigger] other.key(),
                            bound,
                        ) implies exists|i: int|
                        0 <= i < result@.len() && (#[trigger] result@[i]).distributed == other by {
                        assert(comes_before(
                            other.key(),
                            (h as int, d as int, c as int, s as int, 0int),
                        ));
                    }
                }
                c += 1;
            }
            proof {
                let bound = (h as int, d + 1, 0int, 0int, 0int);
                assert forall|other: ColorDistribution|
                    is_partial_distribution(unknown, all_open, other) && comes_before(
                        #[trigger] other.key(),
                        bound,
                    ) implies exists|i: int|
                    0 <= i < result@.len() && (#[trigger] result@[i]).distributed == other by {
                    assert(comes_before(
                        other.key(),
                        (h as int, d as int, c as int, 0int, 0int),
                    ));
                }
            }
            d += 1;
        }
        proof {
            let bound = (h + 1, 0int, 0int, 0int, 0int);
            assert forall|other: ColorDistribution|
                is_partial_distribution(unknown, all_open, other) && comes_before(
                    #[trigger] other.key(),
                    bound,
                ) implies exists|i: int|
                0 <= i < result@.len() && (#[trigger] result@[i]).distributed == other by {
                assert(comes_before(other.key(), (h as int, d as int, 0int, 0int, 0int)));
            }
        }
        h += 1;
    }
    proof {
        assert forall|distributed: ColorDistribution| #[trigger]
            is_partial_distribution(unknown, all_open, distributed) implies exists|i: int|
            0 <= i < result@.len() && (#[trigger] result@[i]).distributed == distributed by {
            assert(comes_before(distributed.key(), (h as int, 0int, 0int, 0int, 0int)));
        }
    }
    result
}


/// For each holder of unknown cards, how many cards of each type he gets. The
/// holders together get all cards that were open.
#[derive(Clone, Debug, PartialEq, Eq)]
pub struct ColorDistributions {
    exhausting_color_distributions: Vec<ColorDistribution>,
}

impl View for ColorDistributions {
    type V = Seq<ColorDistribution>;

    /// What each holder gets, in the order of the holders.
    closed spec fn view(&self) -> Seq<ColorDistribution> {
        self.exhausting_color_distributions@
    }
}

/// The holders' unknown cards are given out of what is open, and nothing is
/// left: the last holder gets one of his ways, and the holders before him
/// share what is then still open.
pub open spec fn is_distribution(
    unknown_cards: Seq<UnknownCards>,
    open: ColorDistribution,
    distributions: Seq<ColorDistribution>,
) -> bool
    decreases unknown_cards.len(),
{
    if unknown_cards.len() == 0 {
        open.spec_is_empty() && distributions.len() == 0
    } else {
        &&& distributions.len() == unknown_cards.len()
        &&& is_partial_distribution(unknown_cards.last(), open, distributions.last())
        &&& is_distribution(
            unknown_cards.drop_last(),
            open.spec_minus(distributions.last()),
            distributions.drop_last(),
        )
    }
}

/// What the holders get together.
pub open spec fn sum_of(distributions: Seq<ColorDistribution>) -> ColorDistribution
    decreases distributions.len(),
{
    if distributions.len() == 0 {
        ColorDistribution::spec_empty()
    } else {
        sum_of(distributions.drop_last()).spec_plus(distributions.last())
    }
}

/// In a distribution every holder gets as many cards as he has unknown, of
/// types that he can have, and all together get what was open.
pub proof fn lemma_distribution_exhausts(
    unknown_cards: Seq<UnknownCards>,
    open: ColorDistribution,
    distributions: Seq<ColorDistribution>,
)
    requires
        is_distribution(unknown_cards, open, distributions),
    ensures
        distributions.len() == unknown_cards.len(),
        sum_of(distributions) == open,
        forall|i: int|
            0 <= i < distributions.len() ==> (#[trigger] distributions[i]).total()
                == unknown_cards[i].number && distributions[i].fits_in(open),
    decreases unknown_cards.len(),
{
    if unknown_cards.len() == 0 {
        assert(open == ColorDistribution::spec_empty());
    } else {
        let rest = open.spec_minus(distributions.last());
        lemma_distribution_exhausts(unknown_cards.drop_last(), rest, distributions.drop_last());
        assert forall|i: int| 0 <= i < distributions.len() implies (
        #[trigger] distributions[i]).total() == unknown_cards[i].number
            && distributions[i].fits_in(open) by {
            if i < distributions.len() - 1 {
                assert(distributions.drop_last()[i] == distributions[i]);
                assert(unknown_cards.drop_last()[i] == unknown_cards[i]);
            }
        }
    }
}

impl ColorDistributions {
    /// Nothing is given to nobody.
    pub fn new() -> (r: ColorDistributions)
        ensures
            r@ == Seq::<ColorDistribution>::empty(),
    {
        ColorDistributions { exhausting_color_distributions: Vec::new() }
    }

    /// One more holder, and what he gets.
    pub fn push(&mut self, distributed: ColorDistribution)
        ensures
            final(self)@ == old(self)@.push(distributed),
    {
        self.exhausting_color_distributions.push(distributed);
    }

    /// The number of holders.
    pub fn len(&self) -> (r: usize)
        ensures
            r == self@.len(),
    {
        self.exhausting_color_distributions.len()
    }

    /// What the holder at a place gets.
    pub fn get(&self, place: usize) -> (r: ColorDistribution)
        requires
            place < self@.len(),
        ensures
            r == self@[place as int],
    {
        self.exhausting_color_distributions[place]
    }

    fn copy(&self) -> (r: ColorDistributions)
        ensures
            r@ == self@,
    {
        let mut result = ColorDistributions::new();
        let mut i: usize = 0;
        while i < self.exhausting_color_distributions.len()
            invariant
                i <= self@.len(),
                result@ == self@.take(i as int),
            decreases self@.len() - i,
        {
            result.push(self.exhausting_color_distributions[i]);
            proof {
                assert(self@.take(i + 1) =~= self@.take(i as int).push(self@[i as int]));
            }
            i += 1;
        }
        proof {
            assert(self@.take(i as int) =~= self@);
        }
        result
    }
}

/// The list holds exactly the distributions whose last part is one of the
/// first `ways_done` ways, or is the way at `ways_done` with the rest among
/// the first `rests_done` of `rests`.
spec fn holds_distributions(
    result: Seq<ColorDistributions>,
    unknown_cards: Seq<UnknownCards>,
    open: ColorDistribution,
    ways: Seq<PartialDistributionResult>,
    ways_done: int,
    rests: Seq<ColorDistributions>,
    rests_done: int,
) -> bool {
    &&& forall|i: int|
        0 <= i < result.len() ==> is_distribution(unknown_cards, open, (#[trigger] result[i])@)
    &&& forall|distributions: Seq<ColorDistribution>| #[trigger]
        is_distribution(unknown_cards, open, distributions) ==> {
            ||| exists|i: int| 0 <= i < result.len() && (#[trigger] result[i])@ == distributions
            ||| exists|w: int|
                ways_done < w < ways.len() && (#[trigger] ways[w]).distributed
                    == distributions.last()
            ||| (ways_done < ways.len() && ways[ways_done].distributed == distributions.last()
                && exists|k: int|
                rests_done <= k < rests.len() && (#[trigger] rests[k])@
                    == distributions.drop_last())
        }
}

/// A list of distributions, each made of a rest and one of the ways as its
/// last part, holds no distribution twice when one more is put at its end
/// that is made of the next rest and the way that is being worked on.
proof fn lemma_listed_once_more(
    before: Seq<ColorDistributions>,
    origin_before: Seq<int>,
    after: Seq<ColorDistributions>,
    origin: Seq<int>,
    ways: Seq<PartialDistributionResult>,
    way: int,
    rests: Seq<ColorDistributions>,
    base: int,
)
    requires
        0 <= way < ways.len(),
        0 <= base <= before.len(),
        before.len() - base < rests.len(),
        after.len() == before.len() + 1,
        after.drop_last() == before,
        origin == origin_before.push(way),
        origin_before.len() == before.len(),
        after.last()@.len() > 0,
        after.last()@.last() == ways[way].distributed,
        after.last()@.drop_last() == rests[before.len() - base]@,
        forall|i: int, j: int|
            0 <= i < j < ways.len() ==> (#[trigger] ways[i]).distributed != (
            #[trigger] ways[j]).distributed,
        forall|i: int, j: int| 0 <= i < j < rests.len() ==> (#[trigger] rests[i])@ != (#[trigger] rests[j])@,
        forall|k: int|
            0 <= k < before.len() ==> 0 <= #[trigger] origin_before[k] <= way && before[k]@.len() > 0
                && before[k]@.last() == ways[origin_before[k]].distributed,
        forall|k: int| 0 <= k < base ==> #[trigger] origin_before[k] < way,
        forall|k: int|
            base <= k < before.len() ==> #[trigger] origin_before[k] == way && before[k]@.drop_last()
                == rests[k - base]@,
        forall|k: int, j: int|
            0 <= k < j < before.len() ==> (#[trigger] before[k])@ != (#[trigger] before[j])@,
    ensures
        forall|k: int|
            0 <= k < after.len() ==> 0 <= #[trigger] origin[k] <= way && after[k]@.len() > 0
                && after[k]@.last() == ways[origin[k]].distributed,
        forall|k: int| 0 <= k < base ==> #[trigger] origin[k] < way,
        forall|k: int|
            base <= k < after.len() ==> #[trigger] origin[k] == way && after[k]@.drop_last()
                == rests[k - base]@,
        forall|k: int, j: int|
            0 <= k < j < after.len() ==> (#[trigger] after[k])@ != (#[trigger] after[j])@,
{
    assert forall|k: int| 0 <= k < after.len() implies 0 <= #[trigger] origin[k] <= way
        && after[k]@.len() > 0 && after[k]@.last() == ways[origin[k]].distributed by {
        if k < before.len() {
            assert(after[k] == after.drop_last()[k]);
            assert(origin[k] == origin_before[k]);
        } else {
            assert(after[k] == after.last());
        }
    }
    assert forall|k: int| 0 <= k < base implies #[trigger] origin[k] < way by {
        assert(origin[k] == origin_before[k]);
    }
    assert forall|k: int| base <= k < after.len() implies #[trigger] origin[k] == way
        && after[k]@.drop_last() == rests[k - base]@ by {
        if k < before.len() {
            assert(after[k] == after.drop_last()[k]);
            assert(origin[k] == origin_before[k]);
        } else {
            assert(after[k] == after.last());
        }
    }
    assert forall|k: int, j: int| 0 <= k < j < after.len() implies (#[trigger] after[k])@ != (
    #[trigger] after[j])@ by {
        assert(after[k] == after.drop_last()[k]);
        if j == before.len() {
            assert(after[j] == after.last());
            assert(origin[k] == origin_before[k]);
            if k < base {
                assert(ways[origin_before[k]].distributed != ways[way].distributed);
            } else {
                assert(rests[k - base]@ != rests[before.len() - base]@);
            }
        } else {
            assert(after[j] == after.drop_last()[j]);
        }
    }
}

/// All ways to give the holders their unknown cards out of what is open so
/// that nothing is left, each way once.
pub fn distribute_colors(unknown_cards_slice: &[UnknownCards], open: ColorDistribution) -> (r: Vec<
    ColorDistributions,
>)
    ensures
        forall|i: int|
            0 <= i < r@.len() ==> is_distribution(unknown_cards_slice@, open, (#[trigger] r@[i])@),
        forall|distributions: Seq<ColorDistribution>| #[trigger]
            is_distribution(unknown_cards_slice@, open, distributions) ==> exists|i: int|
                0 <= i < r@.len() && (#[trigger] r@[i])@ == distributions,
        forall|i: int, j: int| 0 <= i < j < r@.len() ==> (#[trigger] r@[i])@ != (#[trigger] r@[j])@,
{
    let result = distribute_colors_among(unknown_cards_slice, unknown_cards_slice.len(), open);
    proof {
        assert(unknown_cards_slice@.take(unknown_cards_slice@.len() as int)
            =~= unknown_cards_slice@);
    }
    result
}

/// All ways to give the first `holders` holders their unknown cards out of
/// what is open so that nothing is left.
fn distribute_colors_among(
    unknown_cards_slice: &[UnknownCards],
    holders: usize,
    open: ColorDistribution,
) -> (r: Vec<ColorDistributions>)
    requires
        holders <= unknown_cards_slice@.len(),
    ensures
        forall|i: int|
            0 <= i < r@.len() ==> is_distribution(
                unknown_cards_slice@.take(holders as int),
                open,
                (#[trigger] r@[i])@,
            ),
        forall|distributions: Seq<ColorDistribution>| #[trigger]
            is_distribution(unknown_cards_slice@.take(holders as int), open, distributions)
                ==> exists|i: int| 0 <= i < r@.len() && (#[trigger] r@[i])@ == distributions,
        forall|i: int, j: int| 0 <= i < j < r@.len() ==> (#[trigger] r@[i])@ != (#[trigger] r@[j])@,
    decreases holders,
{
    let ghost unknown = unknown_cards_slice@.take(holders as int);
    if holders == 0 {
        let mut result: Vec<ColorDistributions> = Vec::new();
        if open.is_empty() {
            result.push(ColorDistributions::new());
            proof {
                assert forall|distributions: Seq<ColorDistribution>| #[trigger]
                    is_distribution(unknown, open, distributions) implies exists|i: int|
                    0 <= i < result@.len() && (#[trigger] result@[i])@ == distributions by {
                    assert(distributions =~= Seq::<ColorDistribution>::empty());
                    assert(result@[0]@ == distributions);
                }
            }
        }
        return result;
    }
    let unknown_cards = &unknown_cards_slice[holders - 1];
    proof {
        assert(unknown.last() == *unknown_cards);
        assert(unknown.drop_last() =~= unknown_cards_slice@.take(holders - 1));
    }

    let mut result: Vec<ColorDistributions> = Vec::new();
    let ghost mut origin: Seq<int> = Seq::empty();

    let ways = partially_distribute(unknown_cards, &open);
    let mut way: usize = 0;
    while way < ways.len()
        invariant
            way <= ways@.len(),
            0 < holders <= unknown_cards_slice@.len(),
            unknown == unknown_cards_slice@.take(holders as int),
            unknown.last() == *unknown_cards,
            unknown.drop_last() == unknown_cards_slice@.take(holders - 1),
            forall|i: int|
                0 <= i < ways@.len() ==> {
                    &&& is_partial_distribution(
                        *unknown_cards,
                        open,
                        (#[trigger] ways@[i]).distributed,
                    )
                    &&& ways@[i].still_open == open.spec_minus(ways@[i].distributed)
                },
            forall|distributed: ColorDistribution| #[trigger]
                is_partial_distribution(*unknown_cards, open, distributed) ==> exists|i: int|
                    0 <= i < ways@.len() && (#[trigger] ways@[i]).distributed == distributed,
            forall|i: int, j: int|
                0 <= i < j < ways@.len() ==> (#[trigger] ways@[i]).distributed != (
                #[trigger] ways@[j]).distributed,
            holds_distributions(
                result@,
                unknown,
                open,
                ways@,
                way - 1,
                Seq::<ColorDistributions>::empty(),
                0,
            ),
            origin.len() == result@.len(),
            forall|k: int|
                0 <= k < result@.len() ==> 0 <= #[trigger] origin[k] < way && result@[k]@.len() > 0
                    && result@[k]@.last() == ways@[origin[k]].distributed,
            forall|k: int, j: int|
                0 <= k < j < result@.len() ==> (#[trigger] result@[k])@ != (
                #[trigger] result@[j])@,
        decreases ways@.len() - way,
    {
        let distributed = ways[way].distributed;
        let still_open = ways[way].still_open;
        let rests = distribute_colors_among(unknown_cards_slice, holders - 1, still_open);
        let mut rest: usize = 0;
        let ghost base = result@.len();
        proof {
            assert forall|distributions: Seq<ColorDistribution>| #[trigger]
                is_distribution(unknown, open, distributions) implies {
                ||| exists|i: int| 0 <= i < result@.len() && (#[trigger] result@[i])@ == distributions
                ||| exists|w: int|
                    way < w < ways@.len() && (#[trigger] ways@[w]).distributed
                        == distributions.last()
                ||| (way < ways@.len() && ways@[way as int].distributed == distributions.last()
                    && exists|k: int|
                    0 <= k < rests@.len() && (#[trigger] rests@[k])@
                        == distributions.drop_last())
            } by {
                if !(exists|i: int| 0 <= i < result@.len() && (#[trigger] result@[i])@ == distributions) {
                    let w = choose|w: int|
                        way - 1 < w < ways@.len() && (#[trigger] ways@[w]).distributed
                            == distributions.last();
                    if w == way {
                        assert(is_distribution(
                            unknown.drop_last(),
                            still_open,
                            distributions.drop_last(),
                        ));
                    }
                }
            }
        }
        while rest < rests.len()
            invariant
                rest <= rests@.len(),
                way < ways@.len(),
                distributed == ways@[way as int].distributed,
                still_open == open.spec_minus(distributed),
                is_partial_distribution(*unknown_cards, open, distributed),
                unknown.len() > 0,
                unknown.last() == *unknown_cards,
                unknown.drop_last() == unknown_cards_slice@.take(holders - 1),
                forall|i: int|
                    0 <= i < rests@.len() ==> is_distribution(
                        unknown.drop_last(),
                        still_open,
                        (#[trigger] rests@[i])@,
                    ),
                holds_distributions(result@, unknown, open, ways@, way as int, rests@, rest as int),
                forall|i: int, j: int|
                    0 <= i < j < ways@.len() ==> (#[trigger] ways@[i]).distributed != (
                    #[trigger] ways@[j]).distributed,
                forall|i: int, j: int|
                    0 <= i < j < rests@.len() ==> (#[trigger] rests@[i])@ != (#[trigger] rests@[j])@,
                result@.len() == base + rest,
                origin.len() == result@.len(),
                forall|k: int|
                    0 <= k < result@.len() ==> 0 <= #[trigger] origin[k] <= way && result@[k]@.len()
                        > 0 && result@[k]@.last() == ways@[origin[k]].distributed,
                forall|k: int| 0 <= k < base ==> #[trigger] origin[k] < way,
                forall|k: int|
                    base <= k < result@.len() ==> #[trigger] origin[k] == way
                        && result@[k]@.drop_last() == rests@[k - base]@,
                forall|k: int, j: int|
                    0 <= k < j < result@.len() ==> (#[trigger] result@[k])@ != (
                    #[trigger] result@[j])@,
            decreases rests@.len() - rest,
        {
            let mut possible_distribution = rests[rest].copy();
            possible_distribution.push(distributed);
            let ghost before = result@;
            let ghost origin_before = origin;
            result.push(possible_distribution);
            proof {
                origin = origin.push(way as int);
                assert(result@.drop_last() =~= before);
                assert(possible_distribution@.drop_last() =~= rests@[rest as int]@);
                assert(result@.last() == possible_distribution);
                assert(before.len() - base == rest);
                lemma_listed_once_more(
                    before,
                    origin_before,
                    result@,
                    origin,
                    ways@,
                    way as int,
                    rests@,
                    base as int,
                );
                assert forall|k: int| base <= k < result@.len() implies #[trigger] origin[k] == way
                    && result@[k]@.drop_last() == rests@[k - base]@ by {}
            }
            proof {
                let whole = possible_distribution@;
                assert(whole.drop_last() =~= rests@[rest as int]@);
                assert(whole.last() == distributed);
                assert(is_distribution(unknown, open, whole));
                assert forall|i: int| 0 <= i < result@.len() implies is_distribution(
                    unknown,
                    open,
                    (#[trigger] result@[i])@,
                ) by {
                    if i < before.len() {
                        assert(result@[i] == before[i]);
                    }
                }
                assert forall|distributions: Seq<ColorDistribution>| #[trigger]
                    is_distribution(unknown, open, distributions) implies {
                    ||| exists|i: int|
                        0 <= i < result@.len() && (#[trigger] result@[i])@ == distributions
                    ||| exists|w: int|
                        way < w < ways@.len() && (#[trigger] ways@[w]).distributed
                            == distributions.last()
                    ||| (way < ways@.len() && ways@[way as int].distributed == distributions.last()
                        && exists|k: int|
                        rest + 1 <= k < rests@.len() && (#[trigger] rests@[k])@
                            == distributions.drop_last())
                } by {
                    if exists|i: int| 0 <= i < before.len() && (#[trigger] before[i])@ == distributions {
                        let i = choose|i: int|
                            0 <= i < before.len() && (#[trigger] before[i])@ == distributions;
                        assert(result@[i]@ == distributions);
                    } else if !(exists|w: int|
                        way < w < ways@.len() && (#[trigger] ways@[w]).distributed
                            == distributions.last()) {
                        let k = choose|k: int|
                            rest <= k < rests@.len() && (#[trigger] rests@[k])@
                                == distributions.drop_last();
                        if k == rest {
                            assert(distributions =~= whole) by {
                                assert(distributions.len() == unknown.len());
                                assert(distributions =~= distributions.drop_last().push(
                                    distributions.last(),
                                ));
                                assert(whole =~= whole.drop_last().push(whole.last()));
                            }
                            assert(result@[before.len() as int]@ == distributions);
                        }
                    }
                }
            }
            rest += 1;
        }
        way += 1;
    }
    proof {
        assert forall|distributions: Seq<ColorDistribution>| #[trigger]
            is_distribution(unknown, open, distributions) implies exists|i: int|
            0 <= i < result@.len() && (#[trigger] result@[i])@ == distributions by {
            if !(exists|i: int| 0 <= i < result@.len() && (#[trigger] result@[i])@ == distributions) {
                let w = choose|w: int|
                    way - 1 < w < ways@.len() && (#[trigger] ways@[w]).distributed
                        == distributions.last();
            }
        }
    }
    result
}


/// The cards of a list at the given places.
pub open spec fn at_places(cards: Seq<Card>, places: Seq<usize>) -> Seq<Card> {
    Seq::new(places.len(), |k: int| cards[places[k] as int])
}

/// The list without the cards at the given places, which are given from the
/// least to the greatest.
pub open spec fn without_places(cards: Seq<Card>, places: Seq<usize>) -> Seq<Card>
    decreases places.len(),
{
    if places.len() == 0 {
        cards
    } else {
        without_places(cards.remove(places.last() as int), places.drop_last())
    }
}

/// The cards of a list as a set.
pub open spec fn set_of(cards: Seq<Card>) -> Cards {
    Cards::spec_from_seq(cards)
}

/// The list holds no card twice.
pub open spec fn is_set_list(cards: Seq<Card>) -> bool {
    cards.len() == set_of(cards).spec_len()
}

/// A list that holds no card twice holds no card twice when a card is
/// taken out of it, and the card is none of the others.
pub proof fn lemma_set_list_remove(cards: Seq<Card>, place: int)
    requires
        is_set_list(cards),
        0 <= place < cards.len(),
    ensures
        is_set_list(cards.remove(place)),
        !set_of(cards.remove(place)).spec_contains(cards[place]),
        set_of(cards) == set_of(cards.remove(place)).spec_or(Cards::spec_just(cards[place])),
        cards.len() <= 32,
{
    broadcast use group_cards;

    lemma_set_list_has_no_duplicates(cards);
    let rest = cards.remove(place);
    let card = cards[place];
    assert forall|c: Card| set_of(cards).spec_contains(c) == set_of(rest).spec_or(
        Cards::spec_just(card),
    ).spec_contains(c) by {
        Cards::lemma_from_seq(cards, c);
        Cards::lemma_from_seq(rest, c);
        if cards.contains(c) {
            let k = choose|k: int| 0 <= k < cards.len() && cards[k] == c;
            if k < place {
                assert(rest[k] == c);
            } else if k > place {
                assert(rest[k - 1] == c);
            }
        }
        if rest.contains(c) {
            let k = choose|k: int| 0 <= k < rest.len() && rest[k] == c;
            if k < place {
                assert(cards[k] == c);
            } else {
                assert(cards[k + 1] == c);
            }
        }
    }
    set_of(cards).lemma_ext(set_of(rest).spec_or(Cards::spec_just(card)));
    assert(!set_of(rest).spec_contains(card)) by {
        Cards::lemma_from_seq(rest, card);
        if rest.contains(card) {
            let k = choose|k: int| 0 <= k < rest.len() && rest[k] == card;
            if k < place {
                assert(cards[k] == cards[place]);
            } else {
                assert(cards[k + 1] == cards[place]);
            }
        }
    }
    set_of(rest).lemma_measure_add(card);
    set_of(cards).lemma_len_bounds();
}

/// A list holds no card twice exactly if it has as many cards as its set.
pub proof fn lemma_set_list_has_no_duplicates(cards: Seq<Card>)
    ensures
        is_set_list(cards) == cards.no_duplicates(),
        set_of(cards).spec_len() <= cards.len(),
    decreases cards.len(),
{
    broadcast use group_cards;

    Cards::lemma_measure_constants();
    if cards.len() > 0 {
        let head = cards.drop_last();
        let last = cards.last();
        lemma_set_list_has_no_duplicates(head);
        Cards::lemma_from_seq(head, last);
        if set_of(head).spec_contains(last) {
            set_of(head).spec_or(Cards::spec_just(last)).lemma_ext(set_of(head));
            let k = choose|k: int| 0 <= k < head.len() && head[k] == last;
            assert(cards[k] == cards[cards.len() - 1]);
        } else {
            set_of(head).lemma_measure_add(last);
            if head.no_duplicates() {
                assert forall|i: int, j: int|
                    0 <= i < cards.len() && 0 <= j < cards.len() && i != j implies cards[i]
                    != cards[j] by {
                    if i < head.len() && j < head.len() {
                        assert(head[i] != head[j]);
                    } else if i < head.len() {
                        assert(head.contains(head[i]));
                    } else {
                        assert(head.contains(head[j]));
                    }
                }
            } else {
                let (i, j) = choose|i: int, j: int|
                    0 <= i < head.len() && 0 <= j < head.len() && i != j && head[i] == head[j];
                assert(cards[i] == cards[j]);
            }
        }
    }
}

fn copy_of(cards: &Vec<Card>) -> (r: Vec<Card>)
    ensures
        r@ == cards@,
{
    let mut result: Vec<Card> = Vec::new();
    let mut i: usize = 0;
    while i < cards.len()
        invariant
            i <= cards@.len(),
            result@ == cards@.take(i as int),
        decreases cards@.len() - i,
    {
        result.push(cards[i]);
        proof {
            assert(cards@.take(i + 1) =~= cards@.take(i as int).push(cards@[i as int]));
        }
        i += 1;
    }
    proof {
        assert(cards@.take(i as int) =~= cards@);
    }
    result
}

/// Takes the cards at the given places out of the list, and returns them as a
/// set. The places are given from the least to the greatest.
pub fn remove_by_index(to_be_shortened: &mut Vec<Card>, sorted_indices_to_remove: &Vec<usize>) -> (removed:
    Cards)
    requires
        is_choice(
            sorted_indices_to_remove@,
            old(to_be_shortened)@.len(),
            sorted_indices_to_remove@.len(),
        ),
        is_set_list(old(to_be_shortened)@),
    ensures
        final(to_be_shortened)@ == without_places(
            old(to_be_shortened)@,
            sorted_indices_to_remove@,
        ),
        removed == set_of(at_places(old(to_be_shortened)@, sorted_indices_to_remove@)),
        final(to_be_shortened)@.len() + sorted_indices_to_remove@.len() == old(
            to_be_shortened,
        )@.len(),
        is_set_list(final(to_be_shortened)@),
        removed.spec_len() == sorted_indices_to_remove@.len(),
        removed.disjoint(set_of(final(to_be_shortened)@)),
        removed.spec_or(set_of(final(to_be_shortened)@)) == set_of(old(to_be_shortened)@),
{
    let ghost places = sorted_indices_to_remove@;
    let ghost before = to_be_shortened@;
    let mut removed = Cards::empty();
    let mut left: usize = sorted_indices_to_remove.len();
    proof {
        broadcast use group_cards;

        Cards::lemma_measure_constants();
        assert(places.take(left as int) =~= places);
        removed.spec_or(set_of(to_be_shortened@)).lemma_ext(set_of(before));
    }
    while left > 0
        invariant
            left <= places.len(),
            places == sorted_indices_to_remove@,
            is_choice(places, before.len(), places.len()),
            to_be_shortened@.len() + (places.len() - left) == before.len(),
            without_places(to_be_shortened@, places.take(left as int)) == without_places(
                before,
                places,
            ),
            forall|i: int|
                0 <= i < to_be_shortened@.len() && (left == places.len() || i < places[left as int])
                    ==> to_be_shortened@[i] == before[i],
            is_set_list(to_be_shortened@),
            removed.spec_len() == places.len() - left,
            removed.disjoint(set_of(to_be_shortened@)),
            removed.spec_or(set_of(to_be_shortened@)) == set_of(before),
            forall|card: Card|
                removed.spec_contains(card) <==> exists|k: int|
                    left <= k < places.len() && before[#[trigger] places[k] as int] == card,
        decreases left,
    {
        let place = sorted_indices_to_remove[left - 1];
        let ghost list = to_be_shortened@;
        let ghost removed_before = removed;
        proof {
            assert(places.take(left as int).drop_last() =~= places.take(left - 1));
            assert(places.take(left as int).last() == place);
            if left < places.len() {
                assert(places[left - 1] < places[left as int]);
            }
            assert(place < list.len()) by {
                lemma_choice_has_room(places, before.len(), left - 1);
            }
            lemma_set_list_remove(list, place as int);
        }
        let card = to_be_shortened.remove(place);
        removed.add_new(card);
        proof {
            broadcast use group_cards;

            removed_before.lemma_measure_add(card);
            let rest = to_be_shortened@;
            assert(removed.spec_or(set_of(rest)) == set_of(before)) by {
                removed.spec_or(set_of(rest)).lemma_ext(set_of(before));
            }
            assert forall|c: Card|
                removed.spec_contains(c) <==> exists|k: int|
                    left - 1 <= k < places.len() && before[#[trigger] places[k] as int] == c by {
                if removed_before.spec_contains(c) {
                    let k = choose|k: int|
                        left <= k < places.len() && before[#[trigger] places[k] as int] == c;
                    assert(left - 1 <= k < places.len() && before[places[k] as int] == c);
                }
                if c == card {
                    assert(before[places[left - 1] as int] == c);
                }
                if exists|k: int|
                    left - 1 <= k < places.len() && before[#[trigger] places[k] as int] == c {
                    let k = choose|k: int|
                        left - 1 <= k < places.len() && before[#[trigger] places[k] as int] == c;
                    if k >= left {
                        assert(left <= k < places.len() && before[places[k] as int] == c);
                    }
                }
            }
        }
        left -= 1;
    }
    proof {
        assert(places.take(0) =~= Seq::<usize>::empty());
        let taken = at_places(before, places);
        assert forall|c: Card| removed.spec_contains(c) == set_of(taken).spec_contains(c) by {
            Cards::lemma_from_seq(taken, c);
            if exists|k: int| 0 <= k < places.len() && before[#[trigger] places[k] as int] == c {
                let k = choose|k: int|
                    0 <= k < places.len() && before[#[trigger] places[k] as int] == c;
                assert(taken[k] == c);
            }
            if taken.contains(c) {
                let k = choose|k: int| 0 <= k < taken.len() && taken[k] == c;
                assert(before[places[k] as int] == c);
            }
        }
        removed.lemma_ext(set_of(taken));
    }
    removed
}

/// The place at a position of a choice leaves room for the places after it.
pub proof fn lemma_choice_has_room(places: Seq<usize>, total: nat, position: int)
    requires
        is_choice(places, total, places.len()),
        0 <= position < places.len(),
    ensures
        places[position] + (places.len() - position) <= total,
    decreases places.len() - position,
{
    if position < places.len() - 1 {
        lemma_choice_has_room(places, total, position + 1);
    }
}

/// The cards that are still to be given out, by their types.
#[derive(Clone, Debug)]
pub struct OpenCards {
    pub hearts: Vec<Card>,
    pub spades: Vec<Card>,
    pub diamonds: Vec<Card>,
    pub clubs: Vec<Card>,
    pub trump: Vec<Card>,
}

impl OpenCards {
    /// The five lists hold no card twice, neither within a list nor in two
    /// lists.
    pub open spec fn wf(&self) -> bool {
        &&& is_set_list(self.hearts@)
        &&& is_set_list(self.spades@)
        &&& is_set_list(self.diamonds@)
        &&& is_set_list(self.clubs@)
        &&& is_set_list(self.trump@)
        &&& set_of(self.hearts@).disjoint(set_of(self.diamonds@))
        &&& set_of(self.hearts@).spec_or(set_of(self.diamonds@)).disjoint(set_of(self.spades@))
        &&& set_of(self.hearts@).spec_or(set_of(self.diamonds@)).spec_or(
            set_of(self.spades@),
        ).disjoint(set_of(self.clubs@))
        &&& set_of(self.hearts@).spec_or(set_of(self.diamonds@)).spec_or(
            set_of(self.spades@),
        ).spec_or(set_of(self.clubs@)).disjoint(set_of(self.trump@))
    }

    /// All cards of the five lists.
    pub open spec fn all(&self) -> Cards {
        set_of(self.hearts@).spec_or(set_of(self.diamonds@)).spec_or(set_of(self.spades@)).spec_or(
            set_of(self.clubs@),
        ).spec_or(set_of(self.trump@))
    }

    /// How many cards of each type there are.
    pub open spec fn sizes(&self) -> ColorDistribution {
        ColorDistribution {
            hearts: self.hearts@.len() as u8,
            spades: self.spades@.len() as u8,
            diamonds: self.diamonds@.len() as u8,
            clubs: self.clubs@.len() as u8,
            trump: self.trump@.len() as u8,
        }
    }

    /// Well-formed lists hold at most the cards of a deck.
    pub proof fn lemma_sizes(&self)
        requires
            self.wf(),
        ensures
            self.hearts@.len() + self.diamonds@.len() + self.spades@.len() + self.clubs@.len()
                + self.trump@.len() == self.all().spec_len(),
            self.all().spec_len() <= 32,
            self.sizes().total() == self.all().spec_len(),
    {
        broadcast use group_cards;

        Cards::lemma_measure_constants();
        let h = set_of(self.hearts@);
        let d = set_of(self.diamonds@);
        let s = set_of(self.spades@);
        let c = set_of(self.clubs@);
        let t = set_of(self.trump@);
        h.lemma_measure_or(d);
        h.spec_or(d).lemma_measure_or(s);
        h.spec_or(d).spec_or(s).lemma_measure_or(c);
        h.spec_or(d).spec_or(s).spec_or(c).lemma_measure_or(t);
        h.spec_and(d).lemma_ext(Cards::spec_empty());
        h.spec_or(d).spec_and(s).lemma_ext(Cards::spec_empty());
        h.spec_or(d).spec_or(s).spec_and(c).lemma_ext(Cards::spec_empty());
        h.spec_or(d).spec_or(s).spec_or(c).spec_and(t).lemma_ext(Cards::spec_empty());
        self.all().lemma_len_bounds();
    }

    pub fn is_empty(&self) -> (r: bool)
        ensures
            r == (self.hearts@.len() == 0 && self.spades@.len() == 0 && self.diamonds@.len() == 0
                && self.clubs@.len() == 0 && self.trump@.len() == 0),
    {
        self.clubs.len() == 0 && self.spades.len() == 0 && self.hearts.len() == 0
            && self.trump.len() == 0 && self.diamonds.len() == 0
    }

    /// The cards by their types in the game, each list from the lowest card to
    /// the highest.
    pub fn ordered(open: Cards, game_type: GameType) -> (r: OpenCards)
        ensures
            r.wf(),
            r.all() == open,
            r.hearts@ == Cards::spec_of_card_type(CardType::Suit(Suit::Hearts), game_type).spec_and(
                open,
            ).spec_to_seq(),
            r.spades@ == Cards::spec_of_card_type(CardType::Suit(Suit::Spades), game_type).spec_and(
                open,
            ).spec_to_seq(),
            r.diamonds@ == Cards::spec_of_card_type(
                CardType::Suit(Suit::Diamonds),
                game_type,
            ).spec_and(open).spec_to_seq(),
            r.clubs@ == Cards::spec_of_card_type(CardType::Suit(Suit::Clubs), game_type).spec_and(
                open,
            ).spec_to_seq(),
            r.trump@ == Cards::spec_of_card_type(CardType::Trump, game_type).spec_and(
                open,
            ).spec_to_seq(),
            r.sizes() == ColorDistribution::spec_new(open, game_type),
            forall|card_type: CardType|
                set_of(#[trigger] r.list_of(card_type)) == Cards::spec_of_card_type(
                    card_type,
                    game_type,
                ).spec_and(open),
    {
        let hearts = list_of_type(open, CardType::Suit(Suit::Hearts), game_type);
        let spades = list_of_type(open, CardType::Suit(Suit::Spades), game_type);
        let diamonds = list_of_type(open, CardType::Suit(Suit::Diamonds), game_type);
        let clubs = list_of_type(open, CardType::Suit(Suit::Clubs), game_type);
        let trump = list_of_type(open, CardType::Trump, game_type);
        let result = OpenCards { hearts, spades, diamonds, clubs, trump };
        proof {
            broadcast use group_cards;

            result.all().lemma_ext(open);
            set_of(result.hearts@).lemma_len_bounds();
            set_of(result.spades@).lemma_len_bounds();
            set_of(result.diamonds@).lemma_len_bounds();
            set_of(result.clubs@).lemma_len_bounds();
            set_of(result.trump@).lemma_len_bounds();
        }
        result
    }

    /// Puts each of the five lists into a random order.
    pub fn shuffle(&mut self, rng: &mut Xoshiro256PlusPlus)
        requires
            old(self).wf(),
        ensures
            final(self).wf(),
            final(self).all() == old(self).all(),
            final(self).sizes() == old(self).sizes(),
            final(self).hearts@.to_multiset() == old(self).hearts@.to_multiset(),
            final(self).spades@.to_multiset() == old(self).spades@.to_multiset(),
            final(self).diamonds@.to_multiset() == old(self).diamonds@.to_multiset(),
            final(self).clubs@.to_multiset() == old(self).clubs@.to_multiset(),
            final(self).trump@.to_multiset() == old(self).trump@.to_multiset(),
            forall|card_type: CardType|
                set_of(#[trigger] final(self).list_of(card_type)) == set_of(
                    old(self).list_of(card_type),
                ),
    {
        shuffle_list(&mut self.clubs, rng);
        shuffle_list(&mut self.hearts, rng);
        shuffle_list(&mut self.diamonds, rng);
        shuffle_list(&mut self.spades, rng);
        shuffle_list(&mut self.trump, rng);
    }

    fn duplicate(&self) -> (r: OpenCards)
        ensures
            r.hearts@ == self.hearts@,
            r.spades@ == self.spades@,
            r.diamonds@ == self.diamonds@,
            r.clubs@ == self.clubs@,
            r.trump@ == self.trump@,
    {
        OpenCards {
            hearts: copy_of(&self.hearts),
            spades: copy_of(&self.spades),
            diamonds: copy_of(&self.diamonds),
            clubs: copy_of(&self.clubs),
            trump: copy_of(&self.trump),
        }
    }
}

/// The cards of a type among the given cards, from the lowest to the highest.
fn list_of_type(open: Cards, card_type: CardType, game_type: GameType) -> (r: Vec<Card>)
    ensures
        r@ == Cards::spec_of_card_type(card_type, game_type).spec_and(open).spec_to_seq(),
        is_set_list(r@),
        set_of(r@) == Cards::spec_of_card_type(card_type, game_type).spec_and(open),
{
    let of_type = open.and(Cards::of_card_type(card_type, game_type));
    let list = of_type.to_vec();
    proof {
        broadcast use group_cards;

        of_type.lemma_to_seq(list@);
        of_type.lemma_ext(Cards::spec_of_card_type(card_type, game_type).spec_and(open));
        assert forall|card: Card| set_of(list@).spec_contains(card) == of_type.spec_contains(
            card,
        ) by {
            Cards::lemma_from_seq(list@, card);
            if list@.contains(card) {
                let k = choose|k: int| 0 <= k < list@.len() && list@[k] == card;
            }
        }
        set_of(list@).lemma_ext(of_type);
    }
    list
}

/// Puts a list that holds no card twice into a random order.
fn shuffle_list(cards: &mut Vec<Card>, rng: &mut Xoshiro256PlusPlus)
    ensures
        final(cards)@.to_multiset() == old(cards)@.to_multiset(),
        final(cards)@.len() == old(cards)@.len(),
        set_of(final(cards)@) == set_of(old(cards)@),
        is_set_list(final(cards)@) == is_set_list(old(cards)@),
{
    let ghost before = cards@;
    shuffle_cards(cards, rng);
    proof {
        before.to_multiset_ensures();
        cards@.to_multiset_ensures();
        assert forall|card: Card| set_of(cards@).spec_contains(card) == set_of(
            before,
        ).spec_contains(card) by {
            Cards::lemma_from_seq(cards@, card);
            Cards::lemma_from_seq(before, card);
            assert(cards@.contains(card) == (cards@.to_multiset().count(card) > 0));
            assert(before.contains(card) == (before.to_multiset().count(card) > 0));
        }
        set_of(cards@).lemma_ext(set_of(before));
    }
}


/// The first place at which two lists of the same length differ.
proof fn lemma_first_difference(first: Seq<usize>, second: Seq<usize>) -> (place: int)
    requires
        first.len() == second.len(),
        first != second,
    ensures
        0 <= place < first.len(),
        first[place] != second[place],
        forall|before: int| 0 <= before < place ==> first[before] == second[before],
    decreases first.len(),
{
    if first.len() == 0 {
        assert(first =~= second);
        0
    } else if first.drop_last() == second.drop_last() {
        if first.last() == second.last() {
            assert(first =~= first.drop_last().push(first.last()));
            assert(second =~= second.drop_last().push(second.last()));
        }
        assert forall|before: int| 0 <= before < first.len() - 1 implies first[before]
            == second[before] by {
            assert(first[before] == first.drop_last()[before]);
            assert(second[before] == second.drop_last()[before]);
        }
        first.len() - 1
    } else {
        let place = lemma_first_difference(first.drop_last(), second.drop_last());
        assert(first[place] == first.drop_last()[place]);
        assert(second[place] == second.drop_last()[place]);
        assert forall|before: int| 0 <= before < place implies first[before]
            == second[before] by {
            assert(first[before] == first.drop_last()[before]);
            assert(second[before] == second.drop_last()[before]);
        }
        place
    }
}

/// The card at a place of the first choice that is no place of the second
/// choice is taken by the first choice only.
proof fn lemma_taken_by_one(list: Seq<Card>, first: Seq<usize>, second: Seq<usize>, place: int)
    requires
        list.no_duplicates(),
        0 <= place < first.len(),
        first[place] < list.len(),
        forall|k: int| 0 <= k < second.len() ==> #[trigger] second[k] < list.len(),
        forall|k: int| 0 <= k < second.len() ==> #[trigger] second[k] != first[place],
    ensures
        set_of(at_places(list, first)) != set_of(at_places(list, second)),
{
    let card = list[first[place] as int];
    Cards::lemma_from_seq(at_places(list, first), card);
    Cards::lemma_from_seq(at_places(list, second), card);
    assert(at_places(list, first)[place] == card);
    if at_places(list, second).contains(card) {
        let k = choose|k: int|
            0 <= k < at_places(list, second).len() && at_places(list, second)[k] == card;
        assert(list[second[k] as int] == card);
    }
}

/// Two choices of places that are not the same take different cards out of a
/// list that holds no card twice.
pub proof fn lemma_choices_take_different_cards(
    list: Seq<Card>,
    first: Seq<usize>,
    second: Seq<usize>,
    count: nat,
)
    requires
        is_set_list(list),
        is_choice(first, list.len(), count),
        is_choice(second, list.len(), count),
        first != second,
    ensures
        set_of(at_places(list, first)) != set_of(at_places(list, second)),
{
    lemma_set_list_has_no_duplicates(list);
    let place = lemma_first_difference(first, second);
    if first[place] < second[place] {
        assert forall|k: int| 0 <= k < second.len() implies #[trigger] second[k]
            != first[place] by {
            if k < place {
                assert(second[k] == first[k]);
            } else if k > place {
                assert(second[place] < second[k]);
            }
        }
        lemma_taken_by_one(list, first, second, place);
    } else {
        assert forall|k: int| 0 <= k < first.len() implies #[trigger] first[k]
            != second[place] by {
            if k < place {
                assert(first[k] == second[k]);
            } else if k > place {
                assert(first[place] < first[k]);
            }
        }
        lemma_taken_by_one(list, second, first, place);
    }
}

/// The places of a list at which the given cards stand, from the least to
/// the greatest.
pub open spec fn places_of(list: Seq<Card>, cards: Cards) -> Seq<usize>
    decreases list.len(),
{
    if list.len() == 0 {
        Seq::empty()
    } else if cards.spec_contains(list.last()) {
        places_of(list.drop_last(), cards).push((list.len() - 1) as usize)
    } else {
        places_of(list.drop_last(), cards)
    }
}

/// The places at which the cards stand are places of the list, in rising
/// order, and a place is among them exactly if its card is one of the cards.
pub proof fn lemma_places_of(list: Seq<Card>, cards: Cards)
    requires
        list.len() <= usize::MAX,
    ensures
        forall|k: int|
            0 <= k < places_of(list, cards).len() ==> #[trigger] places_of(list, cards)[k]
                < list.len(),
        forall|k: int, j: int|
            0 <= k < j < places_of(list, cards).len() ==> #[trigger] places_of(list, cards)[k]
                < #[trigger] places_of(list, cards)[j],
        forall|place: int|
            0 <= place < list.len() ==> places_of(list, cards).contains(place as usize)
                == cards.spec_contains(#[trigger] list[place]),
    decreases list.len(),
{
    if list.len() > 0 {
        let shorter = list.drop_last();
        let before = places_of(shorter, cards);
        let places = places_of(list, cards);
        let last = (list.len() - 1) as usize;
        lemma_places_of(shorter, cards);
        if cards.spec_contains(list.last()) {
            assert(places == before.push(last));
            assert forall|k: int| 0 <= k < places.len() implies #[trigger] places[k]
                < list.len() by {
                if k < before.len() {
                    assert(places[k] == before[k]);
                }
            }
            assert forall|k: int, j: int| 0 <= k < j < places.len() implies #[trigger] places[k]
                < #[trigger] places[j] by {
                assert(places[k] == before[k]);
                if j < before.len() {
                    assert(places[j] == before[j]);
                }
            }
            assert forall|place: int| 0 <= place < list.len() implies places.contains(
                place as usize,
            ) == cards.spec_contains(#[trigger] list[place]) by {
                if place < shorter.len() {
                    assert(list[place] == shorter[place]);
                    if before.contains(place as usize) {
                        let k = choose|k: int| 0 <= k < before.len() && before[k] == place as usize;
                        assert(places[k] == place as usize);
                    }
                    if places.contains(place as usize) {
                        let k = choose|k: int| 0 <= k < places.len() && places[k] == place as usize;
                        assert(before[k] == place as usize);
                    }
                } else {
                    assert(places[places.len() - 1] == last);
                }
            }
        } else {
            assert forall|place: int| 0 <= place < list.len() implies places.contains(
                place as usize,
            ) == cards.spec_contains(#[trigger] list[place]) by {
                if place < shorter.len() {
                    assert(list[place] == shorter[place]);
                } else {
                    if places.contains(place as usize) {
                        let k = choose|k: int| 0 <= k < places.len() && places[k] == place as usize;
                        assert(places[k] < shorter.len());
                    }
                }
            }
        }
    }
}

/// Cards of a list that holds no card twice are taken by a choice of places:
/// the choice of the places at which they stand.
pub proof fn lemma_cards_are_taken_by_a_choice(list: Seq<Card>, cards: Cards, count: nat)
    requires
        is_set_list(list),
        cards.subset_of(set_of(list)),
        cards.spec_len() == count,
    ensures
        is_choice(places_of(list, cards), list.len(), count),
        set_of(at_places(list, places_of(list, cards))) == cards,
{
    lemma_set_list_has_no_duplicates(list);
    set_of(list).lemma_len_bounds();
    lemma_places_of(list, cards);
    let places = places_of(list, cards);
    let taken = at_places(list, places);
    assert forall|card: Card| set_of(taken).spec_contains(card) == cards.spec_contains(
        card,
    ) by {
        Cards::lemma_from_seq(taken, card);
        Cards::lemma_from_seq(list, card);
        if taken.contains(card) {
            let k = choose|k: int| 0 <= k < taken.len() && taken[k] == card;
            assert(places.contains(places[k]));
            assert(cards.spec_contains(list[places[k] as int]));
        }
        if cards.spec_contains(card) {
            let place = choose|place: int| 0 <= place < list.len() && list[place] == card;
            assert(places.contains(place as usize));
            let k = choose|k: int| 0 <= k < places.len() && places[k] == place as usize;
            assert(taken[k] == card);
        }
    }
    set_of(taken).lemma_ext(cards);
    assert(taken.no_duplicates()) by {
        assert forall|k: int, j: int| 0 <= k < taken.len() && 0 <= j < taken.len() && k
            != j implies taken[k] != taken[j] by {
            if k < j {
                assert(places[k] < places[j]);
            } else {
                assert(places[j] < places[k]);
            }
        }
    }
    lemma_set_list_has_no_duplicates(taken);
}

/// One way to take cards out of a list: the cards that are taken, and the
/// list that is left.
pub struct ChoiceOfList {
    pub taken: Cards,
    pub left: Vec<Card>,
}

/// `count` cards were taken out of the list, and the others are left.
pub open spec fn is_taken_from(list: Seq<Card>, count: nat, taken: Cards, left: Seq<Card>) -> bool {
    &&& is_set_list(left)
    &&& taken.spec_len() == count
    &&& left.len() + count == list.len()
    &&& taken.disjoint(set_of(left))
    &&& taken.spec_or(set_of(left)) == set_of(list)
}

/// All ways to take `count` cards out of a list that holds no card twice.
fn choices_of_list(list: &Vec<Card>, count: u8) -> (r: Vec<ChoiceOfList>)
    requires
        is_set_list(list@),
    ensures
        r@.len() == binomial(list@.len(), count as nat),
        forall|i: int|
            0 <= i < r@.len() ==> is_taken_from(
                list@,
                count as nat,
                (#[trigger] r@[i]).taken,
                r@[i].left@,
            ),
        forall|i: int, j: int|
            0 <= i < j < r@.len() ==> (#[trigger] r@[i]).taken != (#[trigger] r@[j]).taken,
        forall|cards: Cards|
            cards.subset_of(set_of(list@)) && #[trigger] cards.spec_len() == count ==> exists|
                i: int,
            | 0 <= i < r@.len() && (#[trigger] r@[i]).taken == cards,
{
    proof {
        set_of(list@).lemma_len_bounds();
    }
    let choices = all_choices(list.len() as u8, count);
    let mut result: Vec<ChoiceOfList> = Vec::new();
    let mut i: usize = 0;
    while i < choices.len()
        invariant
            i <= choices@.len(),
            is_set_list(list@),
            list@.len() <= 32,
            result@.len() == i,
            forall|k: int|
                0 <= k < choices@.len() ==> is_choice(
                    (#[trigger] choices@[k])@,
                    list@.len(),
                    count as nat,
                ),
            forall|k: int|
                0 <= k < result@.len() ==> is_taken_from(
                    list@,
                    count as nat,
                    (#[trigger] result@[k]).taken,
                    result@[k].left@,
                ),
            forall|k: int, j: int|
                0 <= k < j < choices@.len() ==> (#[trigger] choices@[k])@ != (
                #[trigger] choices@[j])@,
            forall|k: int|
                0 <= k < result@.len() ==> (#[trigger] result@[k]).taken == set_of(
                    at_places(list@, choices@[k]@),
                ),
            forall|choice: Seq<usize>| #[trigger]
                is_choice(choice, list@.len(), count as nat) ==> is_listed(choices@, choice),
        decreases choices@.len() - i,
    {
        let mut left = copy_of(list);
        let taken = remove_by_index(&mut left, &choices[i]);
        result.push(ChoiceOfList { taken, left });
        i += 1;
    }
    proof {
        assert forall|k: int, j: int| 0 <= k < j < result@.len() implies (
        #[trigger] result@[k]).taken != (#[trigger] result@[j]).taken by {
            lemma_choices_take_different_cards(
                list@,
                choices@[k]@,
                choices@[j]@,
                count as nat,
            );
        }
        assert forall|cards: Cards|
            cards.subset_of(set_of(list@)) && #[trigger] cards.spec_len() == count implies exists|
            i: int,
        | 0 <= i < result@.len() && (#[trigger] result@[i]).taken == cards by {
            lemma_cards_are_taken_by_a_choice(list@, cards, count as nat);
            let places = places_of(list@, cards);
            assert(is_listed(choices@, places));
            let i = choose|i: int| 0 <= i < choices@.len() && (#[trigger] choices@[i])@ == places;
            assert(result@[i].taken == cards);
        }
    }
    result
}

/// In how many ways cards can be taken out of lists of the given sizes, so
/// many of each type as the distribution says.
pub open spec fn ways_to_choose(sizes: ColorDistribution, distributed: ColorDistribution) -> nat {
    binomial(sizes.hearts as nat, distributed.hearts as nat) * binomial(
        sizes.diamonds as nat,
        distributed.diamonds as nat,
    ) * binomial(sizes.spades as nat, distributed.spades as nat) * binomial(
        sizes.clubs as nat,
        distributed.clubs as nat,
    ) * binomial(sizes.trump as nat, distributed.trump as nat)
}

/// Each list of the part holds only cards of the whole's list of the same
/// type.
pub open spec fn is_part_of(part: &OpenCards, whole: &OpenCards) -> bool {
    &&& set_of(part.hearts@).subset_of(set_of(whole.hearts@))
    &&& set_of(part.diamonds@).subset_of(set_of(whole.diamonds@))
    &&& set_of(part.spades@).subset_of(set_of(whole.spades@))
    &&& set_of(part.clubs@).subset_of(set_of(whole.clubs@))
    &&& set_of(part.trump@).subset_of(set_of(whole.trump@))
}

/// A part of a part is a part.
pub proof fn lemma_part_of_part(part: &OpenCards, middle: &OpenCards, whole: &OpenCards)
    requires
        is_part_of(part, middle),
        is_part_of(middle, whole),
    ensures
        is_part_of(part, whole),
{
}

/// The cards were taken out of the open cards, so many of each type as the
/// distribution says, and the others are left, each in the list of its type.
pub open spec fn is_chosen_from(
    open_cards: &OpenCards,
    distributed: ColorDistribution,
    taken: Cards,
    left: &OpenCards,
) -> bool {
    &&& left.wf()
    &&& is_part_of(left, open_cards)
    &&& taken.spec_len() == distributed.total()
    &&& taken.disjoint(left.all())
    &&& taken.spec_or(left.all()) == open_cards.all()
    &&& left.hearts@.len() + distributed.hearts == open_cards.hearts@.len()
    &&& left.diamonds@.len() + distributed.diamonds == open_cards.diamonds@.len()
    &&& left.spades@.len() + distributed.spades == open_cards.spades@.len()
    &&& left.clubs@.len() + distributed.clubs == open_cards.clubs@.len()
    &&& left.trump@.len() + distributed.trump == open_cards.trump@.len()
}

impl OpenCards {
    pub open spec fn list_of(&self, card_type: CardType) -> Seq<Card> {
        match card_type {
            CardType::Trump => self.trump@,
            CardType::Suit(Suit::Diamonds) => self.diamonds@,
            CardType::Suit(Suit::Spades) => self.spades@,
            CardType::Suit(Suit::Clubs) => self.clubs@,
            CardType::Suit(Suit::Hearts) => self.hearts@,
        }
    }

    fn list(&self, card_type: CardType) -> (r: &Vec<Card>)
        ensures
            r@ == self.list_of(card_type),
    {
        match card_type {
            CardType::Trump => &self.trump,
            CardType::Suit(Suit::Diamonds) => &self.diamonds,
            CardType::Suit(Suit::Spades) => &self.spades,
            CardType::Suit(Suit::Clubs) => &self.clubs,
            CardType::Suit(Suit::Hearts) => &self.hearts,
        }
    }

    /// The open cards with another list for one type.
    fn with_list(&self, card_type: CardType, list: &Vec<Card>) -> (r: OpenCards)
        ensures
            r.list_of(card_type) == list@,
            forall|other: CardType|
                other != card_type ==> r.list_of(other) == self.list_of(other),
    {
        let mut result = self.duplicate();
        match card_type {
            CardType::Trump => result.trump = copy_of(list),
            CardType::Suit(Suit::Diamonds) => result.diamonds = copy_of(list),
            CardType::Suit(Suit::Spades) => result.spades = copy_of(list),
            CardType::Suit(Suit::Clubs) => result.clubs = copy_of(list),
            CardType::Suit(Suit::Hearts) => result.hearts = copy_of(list),
        }
        result
    }

    /// The lists of the types are the five lists.
    proof fn lemma_lists(&self)
        ensures
            self.list_of(CardType::Suit(Suit::Hearts)) == self.hearts@,
            self.list_of(CardType::Suit(Suit::Diamonds)) == self.diamonds@,
            self.list_of(CardType::Suit(Suit::Spades)) == self.spades@,
            self.list_of(CardType::Suit(Suit::Clubs)) == self.clubs@,
            self.list_of(CardType::Trump) == self.trump@,
    {
    }

    /// Taking cards out of the list of one type leaves well-formed lists, with
    /// the cards that were taken missing.
    proof fn lemma_with_list(
        &self,
        after: &OpenCards,
        card_type: CardType,
        count: nat,
        taken: Cards,
    )
        requires
            self.wf(),
            is_taken_from(self.list_of(card_type), count, taken, after.list_of(card_type)),
            forall|other: CardType|
                other != card_type ==> after.list_of(other) == self.list_of(other),
        ensures
            after.wf(),
            is_part_of(after, self),
            taken.disjoint(after.all()),
            taken.spec_or(after.all()) == self.all(),
    {
        broadcast use group_cards;

        self.lemma_lists();
        after.lemma_lists();
        assert(after.list_of(CardType::Suit(Suit::Hearts)) == after.hearts@);
        match card_type {
            CardType::Trump => {
                assert(after.list_of(CardType::Suit(Suit::Hearts)) == self.list_of(
                    CardType::Suit(Suit::Hearts),
                ));
                assert(after.list_of(CardType::Suit(Suit::Diamonds)) == self.list_of(
                    CardType::Suit(Suit::Diamonds),
                ));
                assert(after.list_of(CardType::Suit(Suit::Spades)) == self.list_of(
                    CardType::Suit(Suit::Spades),
                ));
                assert(after.list_of(CardType::Suit(Suit::Clubs)) == self.list_of(
                    CardType::Suit(Suit::Clubs),
                ));
            },
            CardType::Suit(Suit::Hearts) => {
                assert(after.list_of(CardType::Trump) == self.list_of(CardType::Trump));
                assert(after.list_of(CardType::Suit(Suit::Diamonds)) == self.list_of(
                    CardType::Suit(Suit::Diamonds),
                ));
                assert(after.list_of(CardType::Suit(Suit::Spades)) == self.list_of(
                    CardType::Suit(Suit::Spades),
                ));
                assert(after.list_of(CardType::Suit(Suit::Clubs)) == self.list_of(
                    CardType::Suit(Suit::Clubs),
                ));
            },
            CardType::Suit(Suit::Diamonds) => {
                assert(after.list_of(CardType::Trump) == self.list_of(CardType::Trump));
                assert(after.list_of(CardType::Suit(Suit::Hearts)) == self.list_of(
                    CardType::Suit(Suit::Hearts),
                ));
                assert(after.list_of(CardType::Suit(Suit::Spades)) == self.list_of(
                    CardType::Suit(Suit::Spades),
                ));
                assert(after.list_of(CardType::Suit(Suit::Clubs)) == self.list_of(
                    CardType::Suit(Suit::Clubs),
                ));
            },
            CardType::Suit(Suit::Spades) => {
                assert(after.list_of(CardType::Trump) == self.list_of(CardType::Trump));
                assert(after.list_of(CardType::Suit(Suit::Hearts)) == self.list_of(
                    CardType::Suit(Suit::Hearts),
                ));
                assert(after.list_of(CardType::Suit(Suit::Diamonds)) == self.list_of(
                    CardType::Suit(Suit::Diamonds),
                ));
                assert(after.list_of(CardType::Suit(Suit::Clubs)) == self.list_of(
                    CardType::Suit(Suit::Clubs),
                ));
            },
            CardType::Suit(Suit::Clubs) => {
                assert(after.list_of(CardType::Trump) == self.list_of(CardType::Trump));
                assert(after.list_of(CardType::Suit(Suit::Hearts)) == self.list_of(
                    CardType::Suit(Suit::Hearts),
                ));
                assert(after.list_of(CardType::Suit(Suit::Diamonds)) == self.list_of(
                    CardType::Suit(Suit::Diamonds),
                ));
                assert(after.list_of(CardType::Suit(Suit::Spades)) == self.list_of(
                    CardType::Suit(Suit::Spades),
                ));
            },
        }
        taken.spec_or(after.all()).lemma_ext(self.all());
    }
}

/// One way to take cards of some types out of the open cards.
pub struct ChoiceOfOpenCards {
    pub taken: Cards,
    pub left: OpenCards,
}

/// Cards of the open cards, so many of each type as the distribution says.
pub open spec fn is_choice_by_type(
    open_cards: &OpenCards,
    distributed: ColorDistribution,
    cards: Cards,
) -> bool {
    cards.subset_of(open_cards.all()) && holds_by_type(open_cards, distributed, cards)
}

/// One of the ways of the list takes the cards.
pub open spec fn is_taken_in(list: Seq<ChoiceOfOpenCards>, cards: Cards) -> bool {
    exists|i: int| 0 <= i < list.len() && (#[trigger] list[i]).taken == cards
}

/// What one of the ways takes is still taken when the list grows at its end.
pub proof fn lemma_still_taken(
    list: Seq<ChoiceOfOpenCards>,
    longer: Seq<ChoiceOfOpenCards>,
    cards: Cards,
)
    requires
        is_taken_in(list, cards),
        list.len() <= longer.len(),
        forall|i: int| 0 <= i < list.len() ==> list[i] == longer[i],
    ensures
        is_taken_in(longer, cards),
{
    let i = choose|i: int| 0 <= i < list.len() && (#[trigger] list[i]).taken == cards;
    assert(longer[i].taken == cards);
}

/// A part of some cards that has as many cards as they are is all of them.
pub proof fn lemma_part_of_same_size(part: Cards, whole: Cards)
    requires
        part.subset_of(whole),
        part.spec_len() == whole.spec_len(),
    ensures
        part == whole,
{
    broadcast use group_cards;

    let rest = whole.spec_without(part);
    whole.lemma_measure_without(part);
    whole.spec_and(part).lemma_ext(part);
    assert(rest.spec_len() == 0);
    rest.lemma_is_empty();
    if !rest.spec_is_empty() {
        let card = rest.spec_lowest();
        rest.lemma_measure_remove(card);
        rest.spec_without(Cards::spec_just(card)).lemma_len_bounds();
    }
    assert(rest.spec_is_empty());
    assert forall|card: Card| part.spec_contains(card) == whole.spec_contains(card) by {
        assert(!rest.spec_contains(card));
        whole.lemma_without(part, card);
    }
    part.lemma_ext(whole);
}

/// Without the cards of one type, cards have none of that type and as many
/// of every other type as before.
proof fn lemma_count_without_type(
    open_cards: &OpenCards,
    cards: Cards,
    card_type: CardType,
    other: CardType,
)
    requires
        open_cards.wf(),
    ensures
        count_of_type(
            open_cards,
            cards.spec_without(set_of(open_cards.list_of(card_type))),
            other,
        ) == if other == card_type {
            0
        } else {
            count_of_type(open_cards, cards, other)
        },
{
    broadcast use group_cards;

    let of_type = set_of(open_cards.list_of(card_type));
    let of_other = set_of(open_cards.list_of(other));
    let rest = cards.spec_without(of_type);
    Cards::lemma_measure_constants();
    if other == card_type {
        rest.spec_and(of_other).lemma_ext(Cards::spec_empty());
    } else {
        assert forall|card: Card|
            rest.spec_and(of_other).spec_contains(card) == cards.spec_and(of_other).spec_contains(
                card,
            ) by {
            if of_other.spec_contains(card) && of_type.spec_contains(card) {
                lemma_one_list(open_cards, card, card_type, other);
            }
        }
        rest.spec_and(of_other).lemma_ext(cards.spec_and(of_other));
    }
}

/// Cards that are chosen by type for a distribution are, without the cards
/// of one type, chosen by type for the distribution with none of that type.
proof fn lemma_choice_without_type(
    open_cards: &OpenCards,
    before: ColorDistribution,
    after: ColorDistribution,
    cards: Cards,
    card_type: CardType,
)
    requires
        open_cards.wf(),
        before.of_type(card_type) == 0,
        forall|other: CardType|
            other != card_type ==> after.of_type(other) == before.of_type(other),
        is_choice_by_type(open_cards, after, cards),
    ensures
        is_choice_by_type(
            open_cards,
            before,
            cards.spec_without(set_of(open_cards.list_of(card_type))),
        ),
        cards.spec_and(set_of(open_cards.list_of(card_type))).spec_len() == after.of_type(
            card_type,
        ),
{
    broadcast use group_cards;

    lemma_count_without_type(open_cards, cards, card_type, CardType::Suit(Suit::Hearts));
    lemma_count_without_type(open_cards, cards, card_type, CardType::Suit(Suit::Diamonds));
    lemma_count_without_type(open_cards, cards, card_type, CardType::Suit(Suit::Spades));
    lemma_count_without_type(open_cards, cards, card_type, CardType::Suit(Suit::Clubs));
    lemma_count_without_type(open_cards, cards, card_type, CardType::Trump);
    assert(after.of_type(CardType::Suit(Suit::Hearts)) == after.hearts);
    assert(after.of_type(CardType::Suit(Suit::Diamonds)) == after.diamonds);
    assert(after.of_type(CardType::Suit(Suit::Spades)) == after.spades);
    assert(after.of_type(CardType::Suit(Suit::Clubs)) == after.clubs);
    assert(after.of_type(CardType::Trump) == after.trump);
    assert(before.of_type(CardType::Suit(Suit::Hearts)) == before.hearts);
    assert(before.of_type(CardType::Suit(Suit::Diamonds)) == before.diamonds);
    assert(before.of_type(CardType::Suit(Suit::Spades)) == before.spades);
    assert(before.of_type(CardType::Suit(Suit::Clubs)) == before.clubs);
    assert(before.of_type(CardType::Trump) == before.trump);
    match card_type {
        CardType::Trump => {},
        CardType::Suit(Suit::Hearts) => {},
        CardType::Suit(Suit::Diamonds) => {},
        CardType::Suit(Suit::Spades) => {},
        CardType::Suit(Suit::Clubs) => {},
    }
}

/// For each way of the list, all ways to take `count` more cards of one type.
fn choices_with_type(
    so_far: Vec<ChoiceOfOpenCards>,
    card_type: CardType,
    count: u8,
    Ghost(open_cards): Ghost<&OpenCards>,
    Ghost(before): Ghost<ColorDistribution>,
    Ghost(after): Ghost<ColorDistribution>,
) -> (r: Vec<ChoiceOfOpenCards>)
    requires
        open_cards.wf(),
        before.of_type(card_type) == 0,
        after.of_type(card_type) == count,
        forall|other: CardType|
            other != card_type ==> after.of_type(other) == before.of_type(other),
        forall|i: int|
            0 <= i < so_far@.len() ==> is_chosen_from(
                open_cards,
                before,
                (#[trigger] so_far@[i]).taken,
                &so_far@[i].left,
            ),
        forall|i: int, j: int|
            0 <= i < j < so_far@.len() ==> (#[trigger] so_far@[i]).taken != (
            #[trigger] so_far@[j]).taken,
        forall|cards: Cards| #[trigger]
            is_choice_by_type(open_cards, before, cards) ==> is_taken_in(so_far@, cards),
    ensures
        r@.len() == so_far@.len() * binomial(
            open_cards.list_of(card_type).len(),
            count as nat,
        ),
        forall|i: int|
            0 <= i < r@.len() ==> is_chosen_from(
                open_cards,
                after,
                (#[trigger] r@[i]).taken,
                &r@[i].left,
            ),
        forall|i: int, j: int|
            0 <= i < j < r@.len() ==> (#[trigger] r@[i]).taken != (#[trigger] r@[j]).taken,
        forall|cards: Cards| #[trigger]
            is_choice_by_type(open_cards, after, cards) ==> is_taken_in(r@, cards),
{
    let ghost ways = binomial(open_cards.list_of(card_type).len(), count as nat);
    let ghost of_type = set_of(open_cards.list_of(card_type));
    let ghost mut origin: Seq<int> = Seq::empty();
    let mut result: Vec<ChoiceOfOpenCards> = Vec::new();
    let mut i: usize = 0;
    proof {
        assert(0 * ways == 0) by (nonlinear_arith);
    }
    while i < so_far.len()
        invariant
            i <= so_far@.len(),
            open_cards.wf(),
            ways == binomial(open_cards.list_of(card_type).len(), count as nat),
            before.of_type(card_type) == 0,
            after.of_type(card_type) == count,
            forall|other: CardType|
                other != card_type ==> after.of_type(other) == before.of_type(other),
            forall|k: int|
                0 <= k < so_far@.len() ==> is_chosen_from(
                    open_cards,
                    before,
                    (#[trigger] so_far@[k]).taken,
                    &so_far@[k].left,
                ),
            result@.len() == i * ways,
            forall|k: int|
                0 <= k < result@.len() ==> is_chosen_from(
                    open_cards,
                    after,
                    (#[trigger] result@[k]).taken,
                    &result@[k].left,
                ),
            of_type == set_of(open_cards.list_of(card_type)),
            forall|k: int, j: int|
                0 <= k < j < so_far@.len() ==> (#[trigger] so_far@[k]).taken != (
                #[trigger] so_far@[j]).taken,
            forall|cards: Cards| #[trigger]
                is_choice_by_type(open_cards, before, cards) ==> is_taken_in(so_far@, cards),
            origin.len() == result@.len(),
            forall|earlier: int, part: Cards|
                0 <= earlier < i && part.subset_of(of_type) && part.spec_len() == count
                    ==> is_taken_in(result@, #[trigger] so_far@[earlier].taken.spec_or(part)),
            forall|k: int|
                0 <= k < result@.len() ==> 0 <= #[trigger] origin[k] < i && result@[k].taken.spec_without(
                    of_type,
                ) == so_far@[origin[k]].taken,
            forall|k: int, j: int|
                0 <= k < j < result@.len() ==> (#[trigger] result@[k]).taken != (
                #[trigger] result@[j]).taken,
        decreases so_far@.len() - i,
    {
        let taken_so_far = so_far[i].taken;
        let left_so_far = &so_far[i].left;
        proof {
            open_cards.lemma_lists();
            left_so_far.lemma_lists();
            assert(left_so_far.list_of(card_type).len() == open_cards.list_of(card_type).len()) by {
                match card_type {
                    CardType::Trump => {},
                    CardType::Suit(Suit::Hearts) => {},
                    CardType::Suit(Suit::Diamonds) => {},
                    CardType::Suit(Suit::Spades) => {},
                    CardType::Suit(Suit::Clubs) => {},
                }
            }
            assert(is_set_list(left_so_far.list_of(card_type))) by {
                match card_type {
                    CardType::Trump => {},
                    CardType::Suit(Suit::Hearts) => {},
                    CardType::Suit(Suit::Diamonds) => {},
                    CardType::Suit(Suit::Spades) => {},
                    CardType::Suit(Suit::Clubs) => {},
                }
            }
        }
        let choices = choices_of_list(left_so_far.list(card_type), count);
        let ghost base = result@.len();
        let mut k: usize = 0;
        while k < choices.len()
            invariant
                k <= choices@.len(),
                i < so_far@.len(),
                choices@.len() == ways,
                open_cards.wf(),
                taken_so_far == so_far@[i as int].taken,
                *left_so_far == so_far@[i as int].left,
                is_chosen_from(open_cards, before, taken_so_far, left_so_far),
                before.of_type(card_type) == 0,
                after.of_type(card_type) == count,
                forall|other: CardType|
                    other != card_type ==> after.of_type(other) == before.of_type(other),
                forall|c: int|
                    0 <= c < choices@.len() ==> is_taken_from(
                        left_so_far.list_of(card_type),
                        count as nat,
                        (#[trigger] choices@[c]).taken,
                        choices@[c].left@,
                    ),
                base == i * ways,
                result@.len() == base + k,
                forall|r: int|
                    0 <= r < result@.len() ==> is_chosen_from(
                        open_cards,
                        after,
                        (#[trigger] result@[r]).taken,
                        &result@[r].left,
                    ),
                of_type == set_of(open_cards.list_of(card_type)),
                forall|c: int, j: int|
                    0 <= c < j < choices@.len() ==> (#[trigger] choices@[c]).taken != (
                    #[trigger] choices@[j]).taken,
                forall|c: int, j: int|
                    0 <= c < j < so_far@.len() ==> (#[trigger] so_far@[c]).taken != (
                    #[trigger] so_far@[j]).taken,
                origin.len() == result@.len(),
                forall|earlier: int, part: Cards|
                    0 <= earlier < i && part.subset_of(of_type) && part.spec_len() == count
                        ==> is_taken_in(result@, #[trigger] so_far@[earlier].taken.spec_or(part)),
                forall|part: Cards|
                    part.subset_of(set_of(left_so_far.list_of(card_type)))
                        && #[trigger] part.spec_len() == count ==> exists|c: int|
                        0 <= c < choices@.len() && (#[trigger] choices@[c]).taken == part,
                forall|r: int|
                    0 <= r < result@.len() ==> 0 <= #[trigger] origin[r] <= i
                        && result@[r].taken.spec_without(of_type) == so_far@[origin[r]].taken,
                forall|r: int| 0 <= r < base ==> #[trigger] origin[r] < i,
                forall|r: int|
                    base <= r < result@.len() ==> #[trigger] origin[r] == i && result@[r].taken.spec_and(
                        of_type,
                    ) == choices@[r - base].taken,
                forall|r: int, j: int|
                    0 <= r < j < result@.len() ==> (#[trigger] result@[r]).taken != (
                    #[trigger] result@[j]).taken,
            decreases choices@.len() - k,
        {
            let left = left_so_far.with_list(card_type, &choices[k].left);
            proof {
                broadcast use group_cards;

                left_so_far.lemma_with_list(&left, card_type, count as nat, choices@[k as int].taken);
                left_so_far.lemma_lists();
                left.lemma_lists();
                open_cards.lemma_lists();
                taken_so_far.lemma_measure_or(choices@[k as int].taken);
                Cards::lemma_measure_constants();
                taken_so_far.spec_and(choices@[k as int].taken).lemma_ext(Cards::spec_empty());
            }
            let taken = taken_so_far.combined_with_disjoint(choices[k].taken);
            proof {
                broadcast use group_cards;

                taken.spec_or(left.all()).lemma_ext(open_cards.all());
                assert(is_chosen_from(open_cards, after, taken, &left)) by {
                    left_so_far.lemma_lists();
                    left.lemma_lists();
                    open_cards.lemma_lists();
                    assert(after.of_type(CardType::Trump) == if card_type == CardType::Trump {
                        count
                    } else {
                        before.of_type(CardType::Trump)
                    });
                    assert(after.of_type(CardType::Suit(Suit::Hearts)) == if card_type
                        == CardType::Suit(Suit::Hearts) {
                        count
                    } else {
                        before.of_type(CardType::Suit(Suit::Hearts))
                    });
                    assert(after.of_type(CardType::Suit(Suit::Diamonds)) == if card_type
                        == CardType::Suit(Suit::Diamonds) {
                        count
                    } else {
                        before.of_type(CardType::Suit(Suit::Diamonds))
                    });
                    assert(after.of_type(CardType::Suit(Suit::Spades)) == if card_type
                        == CardType::Suit(Suit::Spades) {
                        count
                    } else {
                        before.of_type(CardType::Suit(Suit::Spades))
                    });
                    assert(after.of_type(CardType::Suit(Suit::Clubs)) == if card_type
                        == CardType::Suit(Suit::Clubs) {
                        count
                    } else {
                        before.of_type(CardType::Suit(Suit::Clubs))
                    });
                    assert(left.list_of(CardType::Trump) == if card_type == CardType::Trump {
                        choices@[k as int].left@
                    } else {
                        left_so_far.list_of(CardType::Trump)
                    });
                    assert(left.list_of(CardType::Suit(Suit::Hearts)) == if card_type
                        == CardType::Suit(Suit::Hearts) {
                        choices@[k as int].left@
                    } else {
                        left_so_far.list_of(CardType::Suit(Suit::Hearts))
                    });
                    assert(left.list_of(CardType::Suit(Suit::Diamonds)) == if card_type
                        == CardType::Suit(Suit::Diamonds) {
                        choices@[k as int].left@
                    } else {
                        left_so_far.list_of(CardType::Suit(Suit::Diamonds))
                    });
                    assert(left.list_of(CardType::Suit(Suit::Spades)) == if card_type
                        == CardType::Suit(Suit::Spades) {
                        choices@[k as int].left@
                    } else {
                        left_so_far.list_of(CardType::Suit(Suit::Spades))
                    });
                    assert(left.list_of(CardType::Suit(Suit::Clubs)) == if card_type
                        == CardType::Suit(Suit::Clubs) {
                        choices@[k as int].left@
                    } else {
                        left_so_far.list_of(CardType::Suit(Suit::Clubs))
                    });
                }
            }
            let ghost listed = result@;
            let ghost listed_origin = origin;
            result.push(ChoiceOfOpenCards { taken, left });
            proof {
                broadcast use group_cards;

                origin = origin.push(i as int);
                lemma_chosen_by_type(open_cards, before, taken_so_far, left_so_far);
                lemma_part_list(left_so_far, open_cards, card_type);
                let added = choices@[k as int].taken;
                taken_so_far.spec_and(of_type).lemma_is_empty();
                assert(taken_so_far.spec_and(of_type).spec_is_empty()) by {
                    match card_type {
                        CardType::Trump => {},
                        CardType::Suit(Suit::Hearts) => {},
                        CardType::Suit(Suit::Diamonds) => {},
                        CardType::Suit(Suit::Spades) => {},
                        CardType::Suit(Suit::Clubs) => {},
                    }
                }
                assert(added.subset_of(of_type));
                taken.spec_without(of_type).lemma_ext(taken_so_far);
                taken.spec_and(of_type).lemma_ext(added);
                assert forall|r: int| 0 <= r < result@.len() implies 0 <= #[trigger] origin[r] <= i
                    && result@[r].taken.spec_without(of_type) == so_far@[origin[r]].taken by {
                    if r < listed.len() {
                        assert(result@[r] == listed[r]);
                        assert(origin[r] == listed_origin[r]);
                    }
                }
                assert forall|r: int| base <= r < result@.len() implies #[trigger] origin[r] == i
                    && result@[r].taken.spec_and(of_type) == choices@[r - base].taken by {
                    if r < listed.len() {
                        assert(result@[r] == listed[r]);
                        assert(origin[r] == listed_origin[r]);
                    }
                }
                assert forall|r: int| 0 <= r < base implies #[trigger] origin[r] < i by {
                    assert(origin[r] == listed_origin[r]);
                }
                assert forall|earlier: int, part: Cards|
                    0 <= earlier < i && part.subset_of(of_type) && part.spec_len()
                        == count implies is_taken_in(
                    result@,
                    #[trigger] so_far@[earlier].taken.spec_or(part),
                ) by {
                    lemma_still_taken(listed, result@, so_far@[earlier].taken.spec_or(part));
                }
                assert forall|r: int, j: int| 0 <= r < j < result@.len() implies (
                #[trigger] result@[r]).taken != (#[trigger] result@[j]).taken by {
                    if j == listed.len() {
                        assert(result@[r] == listed[r]);
                        assert(origin[r] == listed_origin[r]);
                        if r < base {
                            assert(so_far@[listed_origin[r]].taken != so_far@[i as int].taken);
                        } else {
                            assert(choices@[r - base].taken != choices@[k as int].taken);
                        }
                    } else {
                        assert(result@[r] == listed[r] && result@[j] == listed[j]);
                    }
                }
            }
            k += 1;
        }
        proof {
            broadcast use group_cards;

            assert((i + 1) * ways == i * ways + ways) by (nonlinear_arith);
            lemma_part_list(left_so_far, open_cards, card_type);
            assert(set_of(left_so_far.list_of(card_type)).spec_len() == of_type.spec_len()) by {
                open_cards.lemma_lists();
                left_so_far.lemma_lists();
                match card_type {
                    CardType::Trump => {},
                    CardType::Suit(Suit::Hearts) => {},
                    CardType::Suit(Suit::Diamonds) => {},
                    CardType::Suit(Suit::Spades) => {},
                    CardType::Suit(Suit::Clubs) => {},
                }
            }
            lemma_part_of_same_size(set_of(left_so_far.list_of(card_type)), of_type);
            assert forall|earlier: int, part: Cards|
                0 <= earlier < i + 1 && part.subset_of(of_type) && part.spec_len()
                    == count implies is_taken_in(
                result@,
                #[trigger] so_far@[earlier].taken.spec_or(part),
            ) by {
                if earlier == i {
                    let c = choose|c: int|
                        0 <= c < choices@.len() && (#[trigger] choices@[c]).taken == part;
                    let entry = result@[base + c];
                    assert(origin[base + c] == i);
                    assert(entry.taken.spec_and(of_type) == choices@[base + c - base].taken);
                    assert(entry.taken.spec_without(of_type) == so_far@[i as int].taken);
                    entry.taken.lemma_ext(so_far@[i as int].taken.spec_or(part));
                }
            }
        }
        i += 1;
    }
    proof {
        broadcast use group_cards;

        assert forall|cards: Cards| #[trigger]
            is_choice_by_type(open_cards, after, cards) implies is_taken_in(result@, cards) by {
            lemma_choice_without_type(open_cards, before, after, cards, card_type);
            let rest = cards.spec_without(of_type);
            let part = cards.spec_and(of_type);
            assert(is_taken_in(so_far@, rest));
            let earlier = choose|earlier: int|
                0 <= earlier < so_far@.len() && (#[trigger] so_far@[earlier]).taken == rest;
            assert(part.subset_of(of_type));
            assert(is_taken_in(result@, so_far@[earlier].taken.spec_or(part)));
            rest.spec_or(part).lemma_ext(cards);
        }
    }
    result
}

impl ColorDistribution {
    /// All ways to take so many cards of each type out of the open cards as the
    /// distribution says: for each way the cards that are taken, and the open
    /// cards that are left. No two ways take the same cards, and every way
    /// to take so many cards of each type is among them.
    pub fn get_all(&self, open_cards: &OpenCards) -> (r: Vec<ChoiceOfOpenCards>)
        requires
            open_cards.wf(),
        ensures
            r@.len() == ways_to_choose(open_cards.sizes(), *self),
            forall|i: int|
                0 <= i < r@.len() ==> is_chosen_from(
                    open_cards,
                    *self,
                    (#[trigger] r@[i]).taken,
                    &r@[i].left,
                ),
            forall|i: int, j: int|
                0 <= i < j < r@.len() ==> (#[trigger] r@[i]).taken != (#[trigger] r@[j]).taken,
            forall|cards: Cards| #[trigger]
                is_choice_by_type(open_cards, *self, cards) ==> is_taken_in(r@, cards),
    {
        let ghost none = ColorDistribution::spec_empty();
        let ghost with_hearts = ColorDistribution { hearts: self.hearts, ..none };
        let ghost with_diamonds = ColorDistribution { diamonds: self.diamonds, ..with_hearts };
        let ghost with_spades = ColorDistribution { spades: self.spades, ..with_diamonds };
        let ghost with_clubs = ColorDistribution { clubs: self.clubs, ..with_spades };
        proof {
            broadcast use group_cards;

            open_cards.lemma_sizes();
            open_cards.lemma_lists();
            Cards::lemma_measure_constants();
            Cards::spec_empty().spec_or(open_cards.all()).lemma_ext(open_cards.all());
        }
        let mut start: Vec<ChoiceOfOpenCards> = Vec::new();
        start.push(ChoiceOfOpenCards { taken: Cards::empty(), left: open_cards.duplicate() });
        proof {
            broadcast use group_cards;

            assert(is_chosen_from(open_cards, none, start@[0].taken, &start@[0].left));
            assert forall|cards: Cards| #[trigger]
                is_choice_by_type(open_cards, none, cards) implies is_taken_in(start@, cards) by {
                assert forall|card: Card| !cards.spec_contains(card) by {
                    if cards.spec_contains(card) {
                        let found = lemma_some_list(open_cards, card);
                        cards.spec_and(set_of(open_cards.list_of(found))).lemma_is_empty();
                        assert(cards.spec_and(set_of(open_cards.list_of(found))).spec_contains(
                            card,
                        ));
                        Cards::lemma_measure_constants();
                        match found {
                            CardType::Trump => {},
                            CardType::Suit(Suit::Hearts) => {},
                            CardType::Suit(Suit::Diamonds) => {},
                            CardType::Suit(Suit::Spades) => {},
                            CardType::Suit(Suit::Clubs) => {},
                        }
                    }
                }
                cards.lemma_ext(Cards::spec_empty());
                assert(start@[0].taken == cards);
            }
        }
        let hearts = choices_with_type(
            start,
            CardType::Suit(Suit::Hearts),
            self.hearts,
            Ghost(open_cards),
            Ghost(none),
            Ghost(with_hearts),
        );
        let diamonds = choices_with_type(
            hearts,
            CardType::Suit(Suit::Diamonds),
            self.diamonds,
            Ghost(open_cards),
            Ghost(with_hearts),
            Ghost(with_diamonds),
        );
        let spades = choices_with_type(
            diamonds,
            CardType::Suit(Suit::Spades),
            self.spades,
            Ghost(open_cards),
            Ghost(with_diamonds),
            Ghost(with_spades),
        );
        let clubs = choices_with_type(
            spades,
            CardType::Suit(Suit::Clubs),
            self.clubs,
            Ghost(open_cards),
            Ghost(with_spades),
            Ghost(with_clubs),
        );
        let trump = choices_with_type(
            clubs,
            CardType::Trump,
            self.trump,
            Ghost(open_cards),
            Ghost(with_clubs),
            Ghost(*self),
        );
        proof {
            let h = binomial(open_cards.hearts@.len(), self.hearts as nat);
            assert(1 * h == h) by (nonlinear_arith);
        }
        trump
    }
}


/// How many cards of a type of the open cards the part holds.
pub open spec fn count_of_type(open_cards: &OpenCards, part: Cards, card_type: CardType) -> nat {
    part.spec_and(set_of(open_cards.list_of(card_type))).spec_len()
}

/// The part holds so many cards of each type of the open cards as the
/// distribution says.
pub open spec fn holds_by_type(
    open_cards: &OpenCards,
    distributed: ColorDistribution,
    part: Cards,
) -> bool {
    &&& count_of_type(open_cards, part, CardType::Suit(Suit::Hearts)) == distributed.hearts
    &&& count_of_type(open_cards, part, CardType::Suit(Suit::Diamonds)) == distributed.diamonds
    &&& count_of_type(open_cards, part, CardType::Suit(Suit::Spades)) == distributed.spades
    &&& count_of_type(open_cards, part, CardType::Suit(Suit::Clubs)) == distributed.clubs
    &&& count_of_type(open_cards, part, CardType::Trump) == distributed.trump
}

/// A card of the open cards is in the list of one type only.
proof fn lemma_one_list(open_cards: &OpenCards, card: Card, card_type: CardType, other: CardType)
    requires
        open_cards.wf(),
        set_of(open_cards.list_of(card_type)).spec_contains(card),
        set_of(open_cards.list_of(other)).spec_contains(card),
    ensures
        card_type == other,
{
    broadcast use group_cards;

    open_cards.lemma_lists();
}

/// A card of the open cards is in the list of a type.
proof fn lemma_some_list(open_cards: &OpenCards, card: Card) -> (card_type: CardType)
    requires
        open_cards.all().spec_contains(card),
    ensures
        set_of(open_cards.list_of(card_type)).spec_contains(card),
{
    broadcast use group_cards;

    open_cards.lemma_lists();
    if set_of(open_cards.hearts@).spec_contains(card) {
        CardType::Suit(Suit::Hearts)
    } else if set_of(open_cards.diamonds@).spec_contains(card) {
        CardType::Suit(Suit::Diamonds)
    } else if set_of(open_cards.spades@).spec_contains(card) {
        CardType::Suit(Suit::Spades)
    } else if set_of(open_cards.clubs@).spec_contains(card) {
        CardType::Suit(Suit::Clubs)
    } else {
        CardType::Trump
    }
}

/// The list of a type of a part holds only cards of the whole's list.
proof fn lemma_part_list(part: &OpenCards, whole: &OpenCards, card_type: CardType)
    requires
        is_part_of(part, whole),
    ensures
        set_of(part.list_of(card_type)).subset_of(set_of(whole.list_of(card_type))),
        forall|card: Card|
            set_of(whole.list_of(card_type)).spec_contains(card) ==> whole.all().spec_contains(
                card,
            ),
{
    broadcast use group_cards;

    part.lemma_lists();
    whole.lemma_lists();
}

/// Of the cards of a type, those that were taken are those that are not left.
proof fn lemma_taken_of_type(
    open_cards: &OpenCards,
    taken: Cards,
    left: &OpenCards,
    card_type: CardType,
)
    requires
        open_cards.wf(),
        left.wf(),
        is_part_of(left, open_cards),
        taken.disjoint(left.all()),
        taken.spec_or(left.all()) == open_cards.all(),
    ensures
        count_of_type(open_cards, taken, card_type) + left.list_of(card_type).len()
            == open_cards.list_of(card_type).len(),
{
    broadcast use group_cards;

    let whole = set_of(open_cards.list_of(card_type));
    let rest = set_of(left.list_of(card_type));
    let part = taken.spec_and(whole);
    lemma_part_list(left, open_cards, card_type);
    assert forall|card: Card|
        part.spec_contains(card) == whole.spec_without(rest).spec_contains(card) by {
        if whole.spec_contains(card) {
            assert(open_cards.all().spec_contains(card));
            assert(taken.spec_or(left.all()).spec_contains(card));
            if left.all().spec_contains(card) {
                let found = lemma_some_list(left, card);
                lemma_part_list(left, open_cards, found);
                lemma_one_list(open_cards, card, card_type, found);
            } else {
                assert(!rest.spec_contains(card)) by {
                    left.lemma_lists();
                }
            }
        }
    }
    part.lemma_ext(whole.spec_without(rest));
    whole.lemma_measure_without(rest);
    whole.spec_and(rest).lemma_ext(rest);
    open_cards.lemma_lists();
    left.lemma_lists();
}

/// Cards that were chosen out of the open cards are so many of each type of
/// the open cards as the distribution says.
pub proof fn lemma_chosen_by_type(
    open_cards: &OpenCards,
    distributed: ColorDistribution,
    taken: Cards,
    left: &OpenCards,
)
    requires
        open_cards.wf(),
        is_chosen_from(open_cards, distributed, taken, left),
    ensures
        holds_by_type(open_cards, distributed, taken),
        taken.subset_of(open_cards.all()),
{
    broadcast use group_cards;

    lemma_taken_of_type(open_cards, taken, left, CardType::Suit(Suit::Hearts));
    lemma_taken_of_type(open_cards, taken, left, CardType::Suit(Suit::Diamonds));
    lemma_taken_of_type(open_cards, taken, left, CardType::Suit(Suit::Spades));
    lemma_taken_of_type(open_cards, taken, left, CardType::Suit(Suit::Clubs));
    lemma_taken_of_type(open_cards, taken, left, CardType::Trump);
    open_cards.lemma_lists();
    left.lemma_lists();
}

/// Of cards of a part of the open cards, as many are of a type of the part as
/// are of that type of the open cards.
proof fn lemma_count_in_part(
    open_cards: &OpenCards,
    left: &OpenCards,
    part: Cards,
    card_type: CardType,
)
    requires
        open_cards.wf(),
        is_part_of(left, open_cards),
        part.subset_of(left.all()),
    ensures
        count_of_type(open_cards, part, card_type) == count_of_type(left, part, card_type),
{
    broadcast use group_cards;

    let whole = set_of(open_cards.list_of(card_type));
    let rest = set_of(left.list_of(card_type));
    lemma_part_list(left, open_cards, card_type);
    assert forall|card: Card|
        part.spec_and(whole).spec_contains(card) == part.spec_and(rest).spec_contains(card) by {
        if part.spec_contains(card) && whole.spec_contains(card) {
            let found = lemma_some_list(left, card);
            lemma_part_list(left, open_cards, found);
            lemma_one_list(open_cards, card, card_type, found);
        }
    }
    part.spec_and(whole).lemma_ext(part.spec_and(rest));
}

/// What holds type by type of cards of a part of the open cards holds of
/// them type by type of the open cards.
pub proof fn lemma_holds_by_type_of_part(
    open_cards: &OpenCards,
    left: &OpenCards,
    distributed: ColorDistribution,
    part: Cards,
)
    requires
        open_cards.wf(),
        is_part_of(left, open_cards),
        part.subset_of(left.all()),
        holds_by_type(left, distributed, part),
    ensures
        holds_by_type(open_cards, distributed, part),
{
    lemma_count_in_part(open_cards, left, part, CardType::Suit(Suit::Hearts));
    lemma_count_in_part(open_cards, left, part, CardType::Suit(Suit::Diamonds));
    lemma_count_in_part(open_cards, left, part, CardType::Suit(Suit::Spades));
    lemma_count_in_part(open_cards, left, part, CardType::Suit(Suit::Clubs));
    lemma_count_in_part(open_cards, left, part, CardType::Trump);
}

/// The number of ways to deal the open cards to the holders so that each gets
/// so many cards of each type as his distribution says: the last holder
/// chooses from all cards, the one before him from what is left, and so on.
pub open spec fn number_of_deals(distributions: Seq<ColorDistribution>) -> nat
    decreases distributions.len(),
{
    if distributions.len() == 0 {
        1
    } else {
        number_of_deals(distributions.drop_last()) * ways_to_choose(
            sum_of(distributions),
            distributions.last(),
        )
    }
}

/// How many cards the holders get together.
pub open spec fn cards_in(distributions: Seq<ColorDistribution>) -> int
    decreases distributions.len(),
{
    if distributions.len() == 0 {
        0
    } else {
        cards_in(distributions.drop_last()) + distributions.last().total()
    }
}

/// Holders who get at most a deck together get as many cards as the sum of
/// their distributions says, type by type.
pub proof fn lemma_sum_of(distributions: Seq<ColorDistribution>)
    requires
        cards_in(distributions) <= 32,
    ensures
        sum_of(distributions).total() == cards_in(distributions),
        distributions.len() > 0 ==> {
            &&& cards_in(distributions.drop_last()) <= 32
            &&& distributions.last().fits_in(sum_of(distributions))
            &&& sum_of(distributions).spec_minus(distributions.last()) == sum_of(
                distributions.drop_last(),
            )
        },
    decreases distributions.len(),
{
    if distributions.len() > 0 {
        lemma_cards_in_is_not_negative(distributions.drop_last());
        lemma_sum_of(distributions.drop_last());
    }
}

pub proof fn lemma_cards_in_is_not_negative(distributions: Seq<ColorDistribution>)
    ensures
        cards_in(distributions) >= 0,
    decreases distributions.len(),
{
    if distributions.len() > 0 {
        lemma_cards_in_is_not_negative(distributions.drop_last());
    }
}

/// The parts are a deal of the cards to the holders: each holder's part has as
/// many cards as his distribution says, the parts share no card, and together
/// they are all the cards.
pub open spec fn is_dealt(
    cards: Cards,
    distributions: Seq<ColorDistribution>,
    parts: Seq<Cards>,
) -> bool
    decreases distributions.len(),
{
    if distributions.len() == 0 {
        parts.len() == 0 && cards == Cards::spec_empty()
    } else {
        &&& parts.len() == distributions.len()
        &&& parts.last().subset_of(cards)
        &&& parts.last().spec_len() == distributions.last().total()
        &&& is_dealt(
            cards.spec_without(parts.last()),
            distributions.drop_last(),
            parts.drop_last(),
        )
    }
}

/// Of each type of the open cards, each holder's part holds so many cards as
/// his distribution says.
pub open spec fn is_dealt_by_type(
    open_cards: &OpenCards,
    distributions: Seq<ColorDistribution>,
    parts: Seq<Cards>,
) -> bool {
    &&& parts.len() == distributions.len()
    &&& forall|i: int|
        0 <= i < parts.len() ==> holds_by_type(open_cards, distributions[i], #[trigger] parts[i])
}

/// The parts of a deal are parts of the cards.
pub proof fn lemma_parts_are_within(
    cards: Cards,
    distributions: Seq<ColorDistribution>,
    parts: Seq<Cards>,
)
    requires
        is_dealt(cards, distributions, parts),
    ensures
        parts.len() == distributions.len(),
        forall|i: int|
            0 <= i < parts.len() ==> (#[trigger] parts[i]).subset_of(cards) && parts[i].spec_len()
                == distributions[i].total(),
    decreases distributions.len(),
{
    broadcast use group_cards;

    if distributions.len() > 0 {
        lemma_parts_are_within(
            cards.spec_without(parts.last()),
            distributions.drop_last(),
            parts.drop_last(),
        );
        assert forall|i: int| 0 <= i < parts.len() implies (#[trigger] parts[i]).subset_of(
            cards,
        ) && parts[i].spec_len() == distributions[i].total() by {
            if i < parts.len() - 1 {
                assert(parts[i] == parts.drop_last()[i]);
                assert(distributions[i] == distributions.drop_last()[i]);
            }
        }
    }
}

/// One of the listed deals gives the holders the parts.
pub open spec fn is_dealt_in(list: Seq<Vec<Cards>>, parts: Seq<Cards>) -> bool {
    exists|i: int| 0 <= i < list.len() && (#[trigger] list[i])@ == parts
}

/// A deal that is listed is still listed when the list grows at its end.
pub proof fn lemma_still_dealt(list: Seq<Vec<Cards>>, longer: Seq<Vec<Cards>>, parts: Seq<Cards>)
    requires
        is_dealt_in(list, parts),
        list.len() <= longer.len(),
        forall|i: int| 0 <= i < list.len() ==> list[i] == longer[i],
    ensures
        is_dealt_in(longer, parts),
{
    let i = choose|i: int| 0 <= i < list.len() && (#[trigger] list[i])@ == parts;
    assert(longer[i]@ == parts);
}

/// A deal of the open cards by type is, without its last part, a deal by
/// type of the open cards that the last part leaves.
proof fn lemma_deal_without_last_part(
    open_cards: &OpenCards,
    left: &OpenCards,
    distributions: Seq<ColorDistribution>,
    parts: Seq<Cards>,
)
    requires
        open_cards.wf(),
        distributions.len() > 0,
        is_chosen_from(open_cards, distributions.last(), parts.last(), left),
        is_dealt(open_cards.all(), distributions, parts),
        is_dealt_by_type(open_cards, distributions, parts),
    ensures
        is_dealt(left.all(), distributions.drop_last(), parts.drop_last()),
        is_dealt_by_type(left, distributions.drop_last(), parts.drop_last()),
{
    broadcast use group_cards;

    let rest = parts.drop_last();
    let to_rest = distributions.drop_last();
    open_cards.all().spec_without(parts.last()).lemma_ext(left.all());
    assert(is_dealt(left.all(), to_rest, rest));
    lemma_parts_are_within(left.all(), to_rest, rest);
    assert forall|j: int| 0 <= j < rest.len() implies holds_by_type(
        left,
        to_rest[j],
        #[trigger] rest[j],
    ) by {
        assert(rest[j] == parts[j]);
        assert(to_rest[j] == distributions[j]);
        assert(holds_by_type(open_cards, distributions[j], parts[j]));
        lemma_count_in_part(open_cards, left, rest[j], CardType::Suit(Suit::Hearts));
        lemma_count_in_part(open_cards, left, rest[j], CardType::Suit(Suit::Diamonds));
        lemma_count_in_part(open_cards, left, rest[j], CardType::Suit(Suit::Spades));
        lemma_count_in_part(open_cards, left, rest[j], CardType::Suit(Suit::Clubs));
        lemma_count_in_part(open_cards, left, rest[j], CardType::Trump);
    }
}

fn copy_of_parts(parts: &Vec<Cards>) -> (r: Vec<Cards>)
    ensures
        r@ == parts@,
{
    let mut result: Vec<Cards> = Vec::new();
    let mut i: usize = 0;
    while i < parts.len()
        invariant
            i <= parts@.len(),
            result@ == parts@.take(i as int),
        decreases parts@.len() - i,
    {
        result.push(parts[i]);
        proof {
            assert(parts@.take(i + 1) =~= parts@.take(i as int).push(parts@[i as int]));
        }
        i += 1;
    }
    proof {
        assert(parts@.take(i as int) =~= parts@);
    }
    result
}

/// All ways to deal the open cards to the first `holders` holders.
fn get_all_possibilities_impl(
    exhausting_color_distributions: &Vec<ColorDistribution>,
    holders: usize,
    open_cards: &OpenCards,
) -> (r: Vec<Vec<Cards>>)
    requires
        holders <= exhausting_color_distributions@.len(),
        open_cards.wf(),
        cards_in(exhausting_color_distributions@.take(holders as int)) <= 32,
        open_cards.sizes() == sum_of(exhausting_color_distributions@.take(holders as int)),
    ensures
        r@.len() == number_of_deals(exhausting_color_distributions@.take(holders as int)),
        forall|i: int|
            0 <= i < r@.len() ==> is_dealt(
                open_cards.all(),
                exhausting_color_distributions@.take(holders as int),
                (#[trigger] r@[i])@,
            ),
        forall|i: int|
            0 <= i < r@.len() ==> is_dealt_by_type(
                open_cards,
                exhausting_color_distributions@.take(holders as int),
                (#[trigger] r@[i])@,
            ),
        forall|i: int, j: int| 0 <= i < j < r@.len() ==> (#[trigger] r@[i])@ != (#[trigger] r@[j])@,
        forall|parts: Seq<Cards>|
            is_dealt(open_cards.all(), exhausting_color_distributions@.take(holders as int), parts)
                && #[trigger] is_dealt_by_type(
                open_cards,
                exhausting_color_distributions@.take(holders as int),
                parts,
            ) ==> is_dealt_in(r@, parts),
    decreases holders,
{
    let ghost distributions = exhausting_color_distributions@.take(holders as int);
    if holders == 0 {
        let mut result: Vec<Vec<Cards>> = Vec::new();
        result.push(Vec::new());
        proof {
            broadcast use group_cards;

            open_cards.lemma_sizes();
            Cards::lemma_measure_constants();
            assert(open_cards.all().spec_len() == 0);
            assert(open_cards.all() == Cards::spec_empty());
            assert forall|parts: Seq<Cards>|
                is_dealt(open_cards.all(), distributions, parts) && #[trigger] is_dealt_by_type(
                    open_cards,
                    distributions,
                    parts,
                ) implies is_dealt_in(result@, parts) by {
                assert(parts =~= result@[0]@);
            }
        }
        return result;
    }
    let last_color_distribution = exhausting_color_distributions[holders - 1];
    proof {
        assert(distributions.last() == last_color_distribution);
        assert(distributions.drop_last() =~= exhausting_color_distributions@.take(holders - 1));
        lemma_sum_of(distributions);
        open_cards.lemma_sizes();
    }
    let ghost rest_ways = number_of_deals(distributions.drop_last());
    let ghost last_ways = ways_to_choose(open_cards.sizes(), last_color_distribution);

    let mut result: Vec<Vec<Cards>> = Vec::new();
    let ghost mut origin: Seq<int> = Seq::empty();

    let choices = last_color_distribution.get_all(open_cards);
    let mut i: usize = 0;
    proof {
        assert(0 * rest_ways == 0) by (nonlinear_arith);
    }
    while i < choices.len()
        invariant
            i <= choices@.len(),
            0 < holders <= exhausting_color_distributions@.len(),
            distributions == exhausting_color_distributions@.take(holders as int),
            distributions.last() == last_color_distribution,
            distributions.drop_last() == exhausting_color_distributions@.take(holders - 1),
            cards_in(distributions.drop_last()) <= 32,
            open_cards.wf(),
            open_cards.sizes().total() <= 32,
            open_cards.sizes() == sum_of(distributions),
            last_color_distribution.fits_in(sum_of(distributions)),
            sum_of(distributions).spec_minus(last_color_distribution) == sum_of(
                distributions.drop_last(),
            ),
            rest_ways == number_of_deals(distributions.drop_last()),
            choices@.len() == last_ways,
            forall|k: int|
                0 <= k < choices@.len() ==> is_chosen_from(
                    open_cards,
                    last_color_distribution,
                    (#[trigger] choices@[k]).taken,
                    &choices@[k].left,
                ),
            result@.len() == i * rest_ways,
            forall|k: int|
                0 <= k < result@.len() ==> is_dealt(
                    open_cards.all(),
                    distributions,
                    (#[trigger] result@[k])@,
                ),
            forall|k: int|
                0 <= k < result@.len() ==> is_dealt_by_type(
                    open_cards,
                    distributions,
                    (#[trigger] result@[k])@,
                ),
            forall|k: int, j: int|
                0 <= k < j < choices@.len() ==> (#[trigger] choices@[k]).taken != (
                #[trigger] choices@[j]).taken,
            origin.len() == result@.len(),
            forall|cards: Cards| #[trigger]
                is_choice_by_type(open_cards, last_color_distribution, cards) ==> is_taken_in(
                    choices@,
                    cards,
                ),
            forall|parts: Seq<Cards>|
                is_dealt(open_cards.all(), distributions, parts) && #[trigger] is_dealt_by_type(
                    open_cards,
                    distributions,
                    parts,
                ) && is_taken_in(choices@.take(i as int), parts.last()) ==> is_dealt_in(
                    result@,
                    parts,
                ),
            forall|k: int|
                0 <= k < result@.len() ==> 0 <= #[trigger] origin[k] < i && result@[k]@.len() > 0
                    && result@[k]@.last() == choices@[origin[k]].taken,
            forall|k: int, j: int|
                0 <= k < j < result@.len() ==> (#[trigger] result@[k])@ != (
                #[trigger] result@[j])@,
        decreases choices@.len() - i,
    {
        let distributed_cards = choices[i].taken;
        let remaining_open_cards = &choices[i].left;
        proof {
            remaining_open_cards.lemma_sizes();
            assert(remaining_open_cards.sizes() == sum_of(distributions.drop_last()));
        }
        let rests = get_all_possibilities_impl(
            exhausting_color_distributions,
            holders - 1,
            remaining_open_cards,
        );
        let ghost base = result@.len();
        let mut k: usize = 0;
        while k < rests.len()
            invariant
                k <= rests@.len(),
                rests@.len() == rest_ways,
                distributions.len() > 0,
                distributions.last() == last_color_distribution,
                open_cards.wf(),
                is_chosen_from(
                    open_cards,
                    last_color_distribution,
                    distributed_cards,
                    remaining_open_cards,
                ),
                forall|r: int|
                    0 <= r < rests@.len() ==> is_dealt(
                        remaining_open_cards.all(),
                        distributions.drop_last(),
                        (#[trigger] rests@[r])@,
                    ),
                base == i * rest_ways,
                result@.len() == base + k,
                forall|r: int|
                    0 <= r < result@.len() ==> is_dealt(
                        open_cards.all(),
                        distributions,
                        (#[trigger] result@[r])@,
                    ),
                forall|r: int|
                    0 <= r < rests@.len() ==> is_dealt_by_type(
                        remaining_open_cards,
                        distributions.drop_last(),
                        (#[trigger] rests@[r])@,
                    ),
                forall|r: int|
                    0 <= r < result@.len() ==> is_dealt_by_type(
                        open_cards,
                        distributions,
                        (#[trigger] result@[r])@,
                    ),
                i < choices@.len(),
                distributed_cards == choices@[i as int].taken,
                forall|c: int, j: int|
                    0 <= c < j < choices@.len() ==> (#[trigger] choices@[c]).taken != (
                    #[trigger] choices@[j]).taken,
                forall|c: int, j: int|
                    0 <= c < j < rests@.len() ==> (#[trigger] rests@[c])@ != (#[trigger] rests@[j])@,
                origin.len() == result@.len(),
                forall|parts: Seq<Cards>|
                    is_dealt(open_cards.all(), distributions, parts) && #[trigger] is_dealt_by_type(
                        open_cards,
                        distributions,
                        parts,
                    ) && is_taken_in(choices@.take(i as int), parts.last()) ==> is_dealt_in(
                        result@,
                        parts,
                    ),
                forall|parts: Seq<Cards>|
                    is_dealt(remaining_open_cards.all(), distributions.drop_last(), parts)
                        && #[trigger] is_dealt_by_type(
                        remaining_open_cards,
                        distributions.drop_last(),
                        parts,
                    ) ==> is_dealt_in(rests@, parts),
                forall|r: int|
                    0 <= r < result@.len() ==> 0 <= #[trigger] origin[r] <= i && result@[r]@.len()
                        > 0 && result@[r]@.last() == choices@[origin[r]].taken,
                forall|r: int| 0 <= r < base ==> #[trigger] origin[r] < i,
                forall|r: int|
                    base <= r < result@.len() ==> #[trigger] origin[r] == i
                        && result@[r]@.drop_last() == rests@[r - base]@,
                forall|r: int, j: int|
                    0 <= r < j < result@.len() ==> (#[trigger] result@[r])@ != (
                    #[trigger] result@[j])@,
            decreases rests@.len() - k,
        {
            let mut remaining_distributions = copy_of_parts(&rests[k]);
            remaining_distributions.push(distributed_cards);
            proof {
                broadcast use group_cards;

                let parts = remaining_distributions@;
                assert(parts.drop_last() =~= rests@[k as int]@);
                assert(parts.last() == distributed_cards);
                open_cards.all().spec_without(distributed_cards).lemma_ext(
                    remaining_open_cards.all(),
                );
                assert(is_dealt(open_cards.all(), distributions, parts));
                lemma_chosen_by_type(
                    open_cards,
                    last_color_distribution,
                    distributed_cards,
                    remaining_open_cards,
                );
                lemma_parts_are_within(
                    remaining_open_cards.all(),
                    distributions.drop_last(),
                    rests@[k as int]@,
                );
                assert forall|j: int| 0 <= j < parts.len() implies holds_by_type(
                    open_cards,
                    distributions[j],
                    #[trigger] parts[j],
                ) by {
                    if j < parts.len() - 1 {
                        assert(parts[j] == rests@[k as int]@[j]);
                        assert(distributions[j] == distributions.drop_last()[j]);
                        lemma_holds_by_type_of_part(
                            open_cards,
                            remaining_open_cards,
                            distributions[j],
                            parts[j],
                        );
                    }
                }
                assert(is_dealt_by_type(open_cards, distributions, parts));
            }
            let ghost listed = result@;
            let ghost listed_origin = origin;
            let ghost added = remaining_distributions@;
            result.push(remaining_distributions);
            proof {
                origin = origin.push(i as int);
                assert(added.drop_last() =~= rests@[k as int]@);
                assert forall|r: int| 0 <= r < result@.len() implies 0 <= #[trigger] origin[r] <= i
                    && result@[r]@.len() > 0 && result@[r]@.last() == choices@[origin[r]].taken by {
                    if r < listed.len() {
                        assert(result@[r] == listed[r]);
                        assert(origin[r] == listed_origin[r]);
                    }
                }
                assert forall|r: int| base <= r < result@.len() implies #[trigger] origin[r] == i
                    && result@[r]@.drop_last() == rests@[r - base]@ by {
                    if r < listed.len() {
                        assert(result@[r] == listed[r]);
                        assert(origin[r] == listed_origin[r]);
                    }
                }
                assert forall|r: int| 0 <= r < base implies #[trigger] origin[r] < i by {
                    assert(origin[r] == listed_origin[r]);
                }
                assert forall|parts: Seq<Cards>|
                    is_dealt(open_cards.all(), distributions, parts) && #[trigger] is_dealt_by_type(
                        open_cards,
                        distributions,
                        parts,
                    ) && is_taken_in(choices@.take(i as int), parts.last()) implies is_dealt_in(
                    result@,
                    parts,
                ) by {
                    lemma_still_dealt(listed, result@, parts);
                }
                assert forall|r: int, j: int| 0 <= r < j < result@.len() implies (
                #[trigger] result@[r])@ != (#[trigger] result@[j])@ by {
                    if j == listed.len() {
                        assert(result@[r] == listed[r]);
                        assert(origin[r] == listed_origin[r]);
                        if r < base {
                            assert(choices@[listed_origin[r]].taken != choices@[i as int].taken);
                        } else {
                            assert(rests@[r - base]@ != rests@[k as int]@);
                        }
                    } else {
                        assert(result@[r] == listed[r] && result@[j] == listed[j]);
                    }
                }
            }
            k += 1;
        }
        proof {
            assert((i + 1) * rest_ways == i * rest_ways + rest_ways) by (nonlinear_arith);
            assert forall|parts: Seq<Cards>|
                is_dealt(open_cards.all(), distributions, parts) && #[trigger] is_dealt_by_type(
                    open_cards,
                    distributions,
                    parts,
                ) && is_taken_in(choices@.take(i + 1), parts.last()) implies is_dealt_in(
                result@,
                parts,
            ) by {
                let found = choose|found: int|
                    0 <= found < choices@.take(i + 1).len() && (#[trigger] choices@.take(
                        i + 1,
                    )[found]).taken == parts.last();
                if found < i {
                    assert(choices@.take(i as int)[found].taken == parts.last());
                    assert(is_taken_in(choices@.take(i as int), parts.last()));
                } else {
                    assert(parts.last() == distributed_cards);
                    lemma_deal_without_last_part(
                        open_cards,
                        remaining_open_cards,
                        distributions,
                        parts,
                    );
                    assert(is_dealt_in(rests@, parts.drop_last()));
                    let k = choose|k: int|
                        0 <= k < rests@.len() && (#[trigger] rests@[k])@ == parts.drop_last();
                    let listed = result@[base + k]@;
                    assert(origin[base + k] == i);
                    assert(listed.drop_last() == rests@[base + k - base]@);
                    assert(listed.last() == choices@[origin[base + k]].taken);
                    assert(listed =~= listed.drop_last().push(listed.last()));
                    assert(parts =~= parts.drop_last().push(parts.last()));
                    assert(result@[base + k]@ == parts);
                }
            }
        }
        i += 1;
    }
    proof {
        assert(last_ways * rest_ways == rest_ways * last_ways) by (nonlinear_arith);
        assert(choices@.take(i as int) =~= choices@);
        assert forall|parts: Seq<Cards>|
            is_dealt(open_cards.all(), distributions, parts) && #[trigger] is_dealt_by_type(
                open_cards,
                distributions,
                parts,
            ) implies is_dealt_in(result@, parts) by {
            assert(holds_by_type(open_cards, distributions[parts.len() - 1], parts[parts.len() - 1]));
            assert(is_choice_by_type(open_cards, last_color_distribution, parts.last()));
        }
    }
    result
}

impl ColorDistributions {
    /// The holders get at most a deck together.
    pub open spec fn wf(&self) -> bool {
        cards_in(self@) <= 32
    }

    /// All ways to deal the open cards to the holders so that each gets so
    /// many cards of each type as his distribution says, each way once and
    /// none missing. The open cards are the cards that the holders get
    /// together.
    pub fn get_all_possibilities(&self, open_cards: &OpenCards) -> (r: Vec<Vec<Cards>>)
        requires
            self.wf(),
            open_cards.wf(),
            open_cards.sizes() == sum_of(self@),
        ensures
            r@.len() == number_of_deals(self@),
            forall|i: int|
                0 <= i < r@.len() ==> is_dealt(open_cards.all(), self@, (#[trigger] r@[i])@),
            forall|i: int|
                0 <= i < r@.len() ==> is_dealt_by_type(open_cards, self@, (#[trigger] r@[i])@),
            forall|i: int, j: int|
                0 <= i < j < r@.len() ==> (#[trigger] r@[i])@ != (#[trigger] r@[j])@,
            forall|parts: Seq<Cards>|
                is_dealt(open_cards.all(), self@, parts) && #[trigger] is_dealt_by_type(
                    open_cards,
                    self@,
                    parts,
                ) ==> is_dealt_in(r@, parts),
    {
        proof {
            assert(self@.take(self@.len() as int) =~= self@);
        }
        get_all_possibilities_impl(
            &self.exhausting_color_distributions,
            self.exhausting_color_distributions.len(),
            open_cards,
        )
    }

    /// The number of ways to deal the cards to the holders, or the greatest
    /// number that fits if there are more.
    pub fn number_of_possibilities(&self) -> (r: usize)
        requires
            self.wf(),
        ensures
            r == if number_of_deals(self@) <= usize::MAX {
                number_of_deals(self@)
            } else {
                usize::MAX as nat
            },
    {
        let mut distrution_so_far = ColorDistribution::empty();
        let mut result: Option<usize> = Some(1);
        let ghost mut exact: nat = 1;

        let mut i: usize = 0;
        proof {
            lemma_cards_in_prefix(self@, 0);
        }
        while i < self.exhausting_color_distributions.len()
            invariant
                i <= self@.len(),
                cards_in(self@) <= 32,
                cards_in(self@.take(i as int)) <= cards_in(self@),
                distrution_so_far == sum_of(self@.take(i as int)),
                distrution_so_far.total() == cards_in(self@.take(i as int)),
                exact == number_of_deals(self@.take(i as int)),
                exact >= 1,
                match result {
                    Some(number) => number == exact,
                    None => exact > usize::MAX,
                },
            decreases self@.len() - i,
        {
            let color_distribution = self.exhausting_color_distributions[i];
            proof {
                assert(self@.take(i + 1).drop_last() =~= self@.take(i as int));
                assert(self@.take(i + 1).last() == color_distribution);
                lemma_cards_in_prefix(self@, i + 1);
                lemma_sum_of(self@.take(i + 1));
            }
            distrution_so_far.add_assign(color_distribution);
            let ghost before = exact;
            proof {
                exact = before * ways_to_choose(distrution_so_far, color_distribution);
                lemma_binomial_positive(
                    distrution_so_far.hearts as nat,
                    color_distribution.hearts as nat,
                );
                lemma_binomial_positive(
                    distrution_so_far.diamonds as nat,
                    color_distribution.diamonds as nat,
                );
                lemma_binomial_positive(
                    distrution_so_far.spades as nat,
                    color_distribution.spades as nat,
                );
                lemma_binomial_positive(
                    distrution_so_far.clubs as nat,
                    color_distribution.clubs as nat,
                );
                lemma_binomial_positive(
                    distrution_so_far.trump as nat,
                    color_distribution.trump as nat,
                );
            }
            result = times(result, number_of_choices(distrution_so_far.hearts, color_distribution.hearts), Ghost(before));
            let ghost with_hearts = before * binomial(
                distrution_so_far.hearts as nat,
                color_distribution.hearts as nat,
            );
            result = times(result, number_of_choices(distrution_so_far.diamonds, color_distribution.diamonds), Ghost(with_hearts));
            let ghost with_diamonds = with_hearts * binomial(
                distrution_so_far.diamonds as nat,
                color_distribution.diamonds as nat,
            );
            result = times(result, number_of_choices(distrution_so_far.spades, color_distribution.spades), Ghost(with_diamonds));
            let ghost with_spades = with_diamonds * binomial(
                distrution_so_far.spades as nat,
                color_distribution.spades as nat,
            );
            result = times(result, number_of_choices(distrution_so_far.clubs, color_distribution.clubs), Ghost(with_spades));
            let ghost with_clubs = with_spades * binomial(
                distrution_so_far.clubs as nat,
                color_distribution.clubs as nat,
            );
            result = times(result, number_of_choices(distrution_so_far.trump, color_distribution.trump), Ghost(with_clubs));
            proof {
                let h = binomial(distrution_so_far.hearts as nat, color_distribution.hearts as nat);
                let d = binomial(
                    distrution_so_far.diamonds as nat,
                    color_distribution.diamonds as nat,
                );
                let s = binomial(distrution_so_far.spades as nat, color_distribution.spades as nat);
                let c = binomial(distrution_so_far.clubs as nat, color_distribution.clubs as nat);
                let t = binomial(distrution_so_far.trump as nat, color_distribution.trump as nat);
                lemma_binomial_positive(
                    distrution_so_far.hearts as nat,
                    color_distribution.hearts as nat,
                );
                lemma_binomial_positive(
                    distrution_so_far.diamonds as nat,
                    color_distribution.diamonds as nat,
                );
                lemma_binomial_positive(
                    distrution_so_far.spades as nat,
                    color_distribution.spades as nat,
                );
                lemma_binomial_positive(
                    distrution_so_far.clubs as nat,
                    color_distribution.clubs as nat,
                );
                lemma_binomial_positive(
                    distrution_so_far.trump as nat,
                    color_distribution.trump as nat,
                );
                assert(before * h * d * s * c * t == before * (h * d * s * c * t))
                    by (nonlinear_arith);
                assert(before * (h * d * s * c * t) >= 1) by (nonlinear_arith)
                    requires
                        before >= 1,
                        h >= 1,
                        d >= 1,
                        s >= 1,
                        c >= 1,
                        t >= 1,
                ;
            }
            i += 1;
        }
        proof {
            assert(self@.take(i as int) =~= self@);
        }
        match result {
            Some(number) => number,
            None => usize::MAX,
        }
    }
}

/// The holders of a part of the list get no more cards than all holders.
pub proof fn lemma_cards_in_prefix(distributions: Seq<ColorDistribution>, count: int)
    requires
        0 <= count <= distributions.len(),
    ensures
        0 <= cards_in(distributions.take(count)) <= cards_in(distributions),
    decreases distributions.len() - count,
{
    lemma_cards_in_is_not_negative(distributions.take(count));
    if count == distributions.len() {
        assert(distributions.take(count) =~= distributions);
    } else {
        lemma_cards_in_prefix(distributions, count + 1);
        assert(distributions.take(count + 1).drop_last() =~= distributions.take(count));
    }
}

/// The product of a number that may be beyond what fits and a factor that is
/// not zero: nothing if the product does not fit.
fn times(number: Option<usize>, factor: usize, Ghost(exact): Ghost<nat>) -> (r: Option<usize>)
    requires
        factor >= 1,
        match number {
            Some(n) => n == exact,
            None => exact > usize::MAX,
        },
    ensures
        match r {
            Some(n) => n == exact * factor,
            None => exact * factor > usize::MAX,
        },
{
    match number {
        Some(n) => {
            let product = n.checked_mul(factor);
            product
        },
        None => {
            proof {
                assert(exact * factor >= exact) by (nonlinear_arith)
                    requires
                        factor >= 1,
                ;
            }
            None
        },
    }
}


/// In a distribution nobody gets a card of a type that he cannot have.
pub proof fn lemma_distribution_keeps_types(
    unknown_cards: Seq<UnknownCards>,
    open: ColorDistribution,
    distributions: Seq<ColorDistribution>,
    holder: int,
    card_type: CardType,
)
    requires
        is_distribution(unknown_cards, open, distributions),
        0 <= holder < distributions.len(),
        !unknown_cards[holder].spec_possible(card_type),
    ensures
        distributions[holder].of_type(card_type) == 0,
    decreases unknown_cards.len(),
{
    if holder < unknown_cards.len() - 1 {
        lemma_distribution_keeps_types(
            unknown_cards.drop_last(),
            open.spec_minus(distributions.last()),
            distributions.drop_last(),
            holder,
            card_type,
        );
    }
}

/// In a distribution the holders get as many cards together as were open.
pub proof fn lemma_distribution_counts(
    unknown_cards: Seq<UnknownCards>,
    open: ColorDistribution,
    distributions: Seq<ColorDistribution>,
)
    requires
        is_distribution(unknown_cards, open, distributions),
    ensures
        cards_in(distributions) == open.total(),
    decreases unknown_cards.len(),
{
    if unknown_cards.len() > 0 {
        lemma_distribution_counts(
            unknown_cards.drop_last(),
            open.spec_minus(distributions.last()),
            distributions.drop_last(),
        );
    }
}

/// Every card is of one of the five types, so the cards of a set are as many as
/// its cards of the five types together.
pub proof fn lemma_types_share_the_cards(cards: Cards, game_type: GameType)
    ensures
        ColorDistribution::spec_new(cards, game_type).total() == cards.spec_len(),
{
    broadcast use group_cards;

    Cards::lemma_measure_constants();
    let h = Cards::spec_of_card_type(CardType::Suit(Suit::Hearts), game_type).spec_and(cards);
    let d = Cards::spec_of_card_type(CardType::Suit(Suit::Diamonds), game_type).spec_and(cards);
    let s = Cards::spec_of_card_type(CardType::Suit(Suit::Spades), game_type).spec_and(cards);
    let c = Cards::spec_of_card_type(CardType::Suit(Suit::Clubs), game_type).spec_and(cards);
    let t = Cards::spec_of_card_type(CardType::Trump, game_type).spec_and(cards);
    h.lemma_measure_or(d);
    h.spec_or(d).lemma_measure_or(s);
    h.spec_or(d).spec_or(s).lemma_measure_or(c);
    h.spec_or(d).spec_or(s).spec_or(c).lemma_measure_or(t);
    h.spec_and(d).lemma_ext(Cards::spec_empty());
    h.spec_or(d).spec_and(s).lemma_ext(Cards::spec_empty());
    h.spec_or(d).spec_or(s).spec_and(c).lemma_ext(Cards::spec_empty());
    h.spec_or(d).spec_or(s).spec_or(c).spec_and(t).lemma_ext(Cards::spec_empty());
    assert forall|card: Card|
        h.spec_or(d).spec_or(s).spec_or(c).spec_or(t).spec_contains(card) == cards.spec_contains(
            card,
        ) by {
        match card.spec_card_type(game_type) {
            CardType::Trump => {},
            CardType::Suit(Suit::Hearts) => {},
            CardType::Suit(Suit::Diamonds) => {},
            CardType::Suit(Suit::Spades) => {},
            CardType::Suit(Suit::Clubs) => {},
        }
    }
    h.spec_or(d).spec_or(s).spec_or(c).spec_or(t).lemma_ext(cards);
    h.lemma_len_bounds();
    d.lemma_len_bounds();
    s.lemma_len_bounds();
    c.lemma_len_bounds();
    t.lemma_len_bounds();
}

/// Takes `count` cards from the end of a list, and returns them as a set.
fn take_from_end(list: &mut Vec<Card>, count: u8) -> (taken: Cards)
    requires
        is_set_list(old(list)@),
        count <= old(list)@.len(),
    ensures
        is_taken_from(old(list)@, count as nat, taken, final(list)@),
        final(list)@ == old(list)@.take(old(list)@.len() - count),
{
    let mut taken = Cards::empty();
    let mut done: u8 = 0;
    let ghost before = list@;
    proof {
        broadcast use group_cards;

        Cards::lemma_measure_constants();
        taken.spec_or(set_of(list@)).lemma_ext(set_of(before));
        assert(before.take(before.len() as int) =~= before);
    }
    while done < count
        invariant
            done <= count <= before.len(),
            list@ == before.take(before.len() - done),
            is_taken_from(before, done as nat, taken, list@),
        decreases count - done,
    {
        let ghost list_before = list@;
        let ghost taken_before = taken;
        proof {
            lemma_set_list_remove(list_before, list_before.len() - 1);
            assert(list_before.remove(list_before.len() - 1) =~= list_before.drop_last());
            assert(before.take(before.len() - done).drop_last() =~= before.take(
                before.len() - done - 1,
            ));
        }
        let card = list.pop().unwrap();
        taken.add_new(card);
        proof {
            broadcast use group_cards;

            taken_before.lemma_measure_add(card);
            taken.spec_or(set_of(list@)).lemma_ext(set_of(before));
        }
        done += 1;
    }
    taken
}

/// Takes from the ends of the lists as many cards of each type as the
/// distribution says.
fn take_for_holder(open_cards: &mut OpenCards, distributed: ColorDistribution) -> (cards: Cards)
    requires
        old(open_cards).wf(),
        distributed.fits_in(old(open_cards).sizes()),
        old(open_cards).sizes().total() <= 32,
    ensures
        is_chosen_from(old(open_cards), distributed, cards, final(open_cards)),
{
    let ghost start = *open_cards;
    proof {
        start.lemma_lists();
    }
    let hearts = take_from_end(&mut open_cards.hearts, distributed.hearts);
    let ghost after_hearts = *open_cards;
    proof {
        after_hearts.lemma_lists();
        start.lemma_with_list(
            &after_hearts,
            CardType::Suit(Suit::Hearts),
            distributed.hearts as nat,
            hearts,
        );
    }
    let diamonds = take_from_end(&mut open_cards.diamonds, distributed.diamonds);
    let ghost after_diamonds = *open_cards;
    proof {
        after_diamonds.lemma_lists();
        after_hearts.lemma_with_list(
            &after_diamonds,
            CardType::Suit(Suit::Diamonds),
            distributed.diamonds as nat,
            diamonds,
        );
    }
    let spades = take_from_end(&mut open_cards.spades, distributed.spades);
    let ghost after_spades = *open_cards;
    proof {
        after_spades.lemma_lists();
        after_diamonds.lemma_with_list(
            &after_spades,
            CardType::Suit(Suit::Spades),
            distributed.spades as nat,
            spades,
        );
    }
    let clubs = take_from_end(&mut open_cards.clubs, distributed.clubs);
    let ghost after_clubs = *open_cards;
    proof {
        after_clubs.lemma_lists();
        after_spades.lemma_with_list(
            &after_clubs,
            CardType::Suit(Suit::Clubs),
            distributed.clubs as nat,
            clubs,
        );
    }
    let trump = take_from_end(&mut open_cards.trump, distributed.trump);
    proof {
        broadcast use group_cards;

        open_cards.lemma_lists();
        after_clubs.lemma_with_list(
            open_cards,
            CardType::Trump,
            distributed.trump as nat,
            trump,
        );
        Cards::lemma_measure_constants();
        hearts.lemma_measure_or(diamonds);
        hearts.spec_and(diamonds).lemma_ext(Cards::spec_empty());
        hearts.spec_or(diamonds).lemma_measure_or(spades);
        hearts.spec_or(diamonds).spec_and(spades).lemma_ext(Cards::spec_empty());
        hearts.spec_or(diamonds).spec_or(spades).lemma_measure_or(clubs);
        hearts.spec_or(diamonds).spec_or(spades).spec_and(clubs).lemma_ext(Cards::spec_empty());
        hearts.spec_or(diamonds).spec_or(spades).spec_or(clubs).lemma_measure_or(trump);
        hearts.spec_or(diamonds).spec_or(spades).spec_or(clubs).spec_and(trump).lemma_ext(
            Cards::spec_empty(),
        );
    }
    let cards = hearts.or(diamonds).or(spades).or(clubs).or(trump);
    proof {
        broadcast use group_cards;

        cards.spec_or(open_cards.all()).lemma_ext(start.all());
    }
    cards
}

/// What four holders get together, type by type, if it is at most a deck.
pub proof fn lemma_sum_of_four(distributions: Seq<ColorDistribution>)
    requires
        distributions.len() == 4,
        cards_in(distributions) <= 32,
    ensures
        ({
            let sum = sum_of(distributions);
            let d0 = distributions[0];
            let d1 = distributions[1];
            let d2 = distributions[2];
            let d3 = distributions[3];
            &&& sum.hearts == d0.hearts + d1.hearts + d2.hearts + d3.hearts
            &&& sum.diamonds == d0.diamonds + d1.diamonds + d2.diamonds + d3.diamonds
            &&& sum.spades == d0.spades + d1.spades + d2.spades + d3.spades
            &&& sum.clubs == d0.clubs + d1.clubs + d2.clubs + d3.clubs
            &&& sum.trump == d0.trump + d1.trump + d2.trump + d3.trump
            &&& d0.total() + d1.total() + d2.total() + d3.total() <= 32
        }),
{
    let d3 = distributions.drop_last();
    let d2 = d3.drop_last();
    let d1 = d2.drop_last();
    let d0 = d1.drop_last();
    assert(d0 =~= Seq::<ColorDistribution>::empty());
    assert(sum_of(d0) == ColorDistribution::spec_empty());
    assert(cards_in(d0) == 0);
    assert(d1.last() == distributions[0]);
    assert(d2.last() == distributions[1]);
    assert(d3.last() == distributions[2]);
    assert(sum_of(d1) == sum_of(d0).spec_plus(distributions[0]));
    assert(sum_of(d2) == sum_of(d1).spec_plus(distributions[1]));
    assert(sum_of(d3) == sum_of(d2).spec_plus(distributions[2]));
    assert(sum_of(distributions) == sum_of(d3).spec_plus(distributions[3]));
    assert(cards_in(d1) == distributions[0].total());
    assert(cards_in(d2) == cards_in(d1) + distributions[1].total());
    assert(cards_in(d3) == cards_in(d2) + distributions[2].total());
    assert(cards_in(distributions) == cards_in(d3) + distributions[3].total());
}

/// Four parts that were taken one after the other out of some cards until
/// none was left share no card and are the cards together.
pub proof fn lemma_four_parts(
    all: Cards,
    first: Cards,
    after_first: Cards,
    second: Cards,
    after_second: Cards,
    third: Cards,
    after_third: Cards,
    fourth: Cards,
)
    requires
        first.disjoint(after_first),
        first.spec_or(after_first) == all,
        second.disjoint(after_second),
        second.spec_or(after_second) == after_first,
        third.disjoint(after_third),
        third.spec_or(after_third) == after_second,
        fourth == after_third,
    ensures
        first.subset_of(all),
        second.subset_of(all),
        third.subset_of(all),
        fourth.subset_of(all),
        first.disjoint(second),
        first.disjoint(third),
        first.disjoint(fourth),
        second.disjoint(third),
        second.disjoint(fourth),
        third.disjoint(fourth),
        first.spec_or(second).spec_or(third).spec_or(fourth) == all,
{
    broadcast use group_cards;

    first.spec_or(second).spec_or(third).spec_or(fourth).lemma_ext(all);
}

/// Four parts of some cards that share no card, are the cards together and
/// have as many cards as the distributions say are a deal of the cards.
pub proof fn lemma_four_parts_are_dealt(
    cards: Cards,
    distributions: Seq<ColorDistribution>,
    parts: Seq<Cards>,
)
    requires
        distributions.len() == 4,
        parts.len() == 4,
        forall|i: int|
            0 <= i < 4 ==> (#[trigger] parts[i]).spec_len() == distributions[i].total()
                && parts[i].subset_of(cards),
        forall|i: int, j: int| 0 <= i < j < 4 ==> (#[trigger] parts[i]).disjoint(#[trigger] parts[j]),
        parts[0].spec_or(parts[1]).spec_or(parts[2]).spec_or(parts[3]) == cards,
    ensures
        is_dealt(cards, distributions, parts),
{
    broadcast use group_cards;

    let to_three = distributions.drop_last();
    let to_two = to_three.drop_last();
    let to_one = to_two.drop_last();
    let to_none = to_one.drop_last();
    let parts_of_three = parts.drop_last();
    let parts_of_two = parts_of_three.drop_last();
    let parts_of_one = parts_of_two.drop_last();
    let parts_of_none = parts_of_one.drop_last();
    let for_three = cards.spec_without(parts[3]);
    let for_two = for_three.spec_without(parts[2]);
    let for_one = for_two.spec_without(parts[1]);
    let for_none = for_one.spec_without(parts[0]);
    assert(parts[0].disjoint(parts[1]));
    assert(parts[0].disjoint(parts[2]));
    assert(parts[0].disjoint(parts[3]));
    assert(parts[1].disjoint(parts[2]));
    assert(parts[1].disjoint(parts[3]));
    assert(parts[2].disjoint(parts[3]));
    assert(parts[3].subset_of(cards));
    assert(parts[2].subset_of(cards));
    assert(parts[1].subset_of(cards));
    assert(parts[0].subset_of(cards));
    for_none.lemma_ext(Cards::spec_empty());
    assert(parts.last() == parts[3] && distributions.last() == distributions[3]);
    assert(parts_of_three.last() == parts[2] && to_three.last() == distributions[2]);
    assert(parts_of_two.last() == parts[1] && to_two.last() == distributions[1]);
    assert(parts_of_one.last() == parts[0] && to_one.last() == distributions[0]);
    assert(is_dealt(for_none, to_none, parts_of_none));
    assert(is_dealt(for_one, to_one, parts_of_one));
    assert(is_dealt(for_two, to_two, parts_of_two));
    assert(is_dealt(for_three, to_three, parts_of_three));
}

/// Deals the open cards to four holders from the ends of the lists, so many of
/// each type to each holder as his distribution says, the first holder first.
pub fn choose_in_order(open_cards: &mut OpenCards, color_distributions: &ColorDistributions) -> (r: [Cards; 4])
    requires
        old(open_cards).wf(),
        color_distributions@.len() == 4,
        color_distributions.wf(),
        sum_of(color_distributions@) == old(open_cards).sizes(),
    ensures
        forall|i: int|
            0 <= i < 4 ==> (#[trigger] r@[i]).spec_len() == color_distributions@[i].total()
                && r@[i].subset_of(old(open_cards).all()),
        forall|i: int, j: int| 0 <= i < j < 4 ==> (#[trigger] r@[i]).disjoint(#[trigger] r@[j]),
        r@[0].spec_or(r@[1]).spec_or(r@[2]).spec_or(r@[3]) == old(open_cards).all(),
        is_dealt(old(open_cards).all(), color_distributions@, r@),
        is_dealt_by_type(old(open_cards), color_distributions@, r@),
{
    let ghost distributions = color_distributions@;
    let ghost start = *open_cards;
    proof {
        start.lemma_sizes();
        lemma_sum_of_four(distributions);
    }
    let first_receiver = take_for_holder(open_cards, color_distributions.get(0));
    let ghost after_first = *open_cards;
    proof {
        after_first.lemma_sizes();
    }
    let first_caller = take_for_holder(open_cards, color_distributions.get(1));
    let ghost after_second = *open_cards;
    proof {
        after_second.lemma_sizes();
    }
    let second_caller = take_for_holder(open_cards, color_distributions.get(2));
    let ghost after_third = *open_cards;
    proof {
        after_third.lemma_sizes();
    }
    let skat = take_for_holder(open_cards, color_distributions.get(3));
    let result = [first_receiver, first_caller, second_caller, skat];
    proof {
        open_cards.lemma_sizes();
        open_cards.all().lemma_len_bounds();
        open_cards.all().lemma_is_empty();
        assert forall|card: Card|
            skat.spec_or(open_cards.all()).spec_contains(card) == skat.spec_contains(card) by {
            skat.lemma_or(open_cards.all(), card);
        }
        skat.spec_or(open_cards.all()).lemma_ext(skat);
        lemma_four_parts(
            start.all(),
            first_receiver,
            after_first.all(),
            first_caller,
            after_second.all(),
            second_caller,
            after_third.all(),
            skat,
        );
        assert(result@[0] == first_receiver);
        assert(result@[1] == first_caller);
        assert(result@[2] == second_caller);
        assert(result@[3] == skat);
        lemma_four_parts_are_dealt(start.all(), distributions, result@);
        lemma_chosen_by_type(&start, distributions[0], first_receiver, &after_first);
        lemma_chosen_by_type(&after_first, distributions[1], first_caller, &after_second);
        lemma_chosen_by_type(&after_second, distributions[2], second_caller, &after_third);
        lemma_chosen_by_type(&after_third, distributions[3], skat, open_cards);
        lemma_part_of_part(&after_second, &after_first, &start);
        lemma_part_of_part(&after_third, &after_second, &start);
        lemma_holds_by_type_of_part(&start, &after_first, distributions[1], first_caller);
        lemma_holds_by_type_of_part(&start, &after_second, distributions[2], second_caller);
        lemma_holds_by_type_of_part(&start, &after_third, distributions[3], skat);
        assert forall|i: int| 0 <= i < 4 implies holds_by_type(
            &start,
            distributions[i],
            #[trigger] result@[i],
        ) by {
            if i == 0 {
            } else if i == 1 {
            } else if i == 2 {
            } else {
            }
        }
    }
    result
}

/// The deals that fit what an observer knows, to enumerate them or to draw from
/// them.
pub struct UniformPossibleDealsFromObservedGameplay {
    possible_color_distributions_vec: Vec<ColorDistributions>,
    number_of_possibilities: usize,
    open_cards_ordered: OpenCards,
    observed_cards_array: [Cards; 4],
}

/// The sum of the numbers of deals of the distributions, where a number that
/// does not fit counts as the greatest that fits.
pub open spec fn deals_in(distributions: Seq<ColorDistributions>) -> nat
    decreases distributions.len(),
{
    if distributions.len() == 0 {
        0
    } else {
        deals_in(distributions.drop_last()) + if number_of_deals(distributions.last()@)
            <= usize::MAX {
            number_of_deals(distributions.last()@)
        } else {
            usize::MAX as nat
        }
    }
}

impl UniformPossibleDealsFromObservedGameplay {
    /// The ways to give the holders their unknown cards type by type.
    pub closed spec fn distributions(&self) -> Seq<ColorDistributions> {
        self.possible_color_distributions_vec@
    }

    /// The cards of which it is not known where they were.
    pub closed spec fn open_cards(&self) -> OpenCards {
        self.open_cards_ordered
    }

    /// The cards that are known to have been in the three hands and the skat.
    pub closed spec fn observed(&self) -> Seq<Cards> {
        self.observed_cards_array@
    }

    pub closed spec fn spec_number_of_possibilities(&self) -> usize {
        self.number_of_possibilities
    }

    /// Every way gives four holders the cards that are open, which are none of
    /// the cards that are known.
    pub open spec fn wf(&self) -> bool {
        &&& self.open_cards().wf()
        &&& self.observed().len() == 4
        &&& forall|i: int|
            0 <= i < 4 ==> self.open_cards().all().disjoint(#[trigger] self.observed()[i])
        &&& forall|i: int|
            0 <= i < self.distributions().len() ==> {
                &&& (#[trigger] self.distributions()[i])@.len() == 4
                &&& self.distributions()[i].wf()
                &&& sum_of(self.distributions()[i]@) == self.open_cards().sizes()
            }
        &&& forall|i: int, j: int|
            0 <= i < j < self.distributions().len() ==> (#[trigger] self.distributions()[i])@ != (
            #[trigger] self.distributions()[j])@
        &&& self.spec_number_of_possibilities() == if deals_in(self.distributions())
            <= usize::MAX {
            deals_in(self.distributions())
        } else {
            usize::MAX as nat
        }
    }

    /// The deal gives each holder the part and the cards that he is known to
    /// have had, and the parts are the open cards dealt in the way of the
    /// given number: each holder's part has so many cards of each type as the
    /// way says.
    pub open spec fn deals_so(&self, way: int, parts: Seq<Cards>, deal: Deal) -> bool {
        &&& 0 <= way < self.distributions().len()
        &&& is_dealt(self.open_cards().all(), self.distributions()[way]@, parts)
        &&& is_dealt_by_type(&self.open_cards(), self.distributions()[way]@, parts)
        &&& deal == Deal::spec_new(
            parts[0].spec_or(self.observed()[0]),
            parts[1].spec_or(self.observed()[1]),
            parts[2].spec_or(self.observed()[2]),
            parts[3].spec_or(self.observed()[3]),
        )
    }

    /// The deal gives each holder the cards that he is known to have had, and
    /// deals the open cards in one of the ways.
    pub open spec fn is_possible_deal(&self, deal: Deal) -> bool {
        exists|way: int, parts: Seq<Cards>| #[trigger] self.deals_so(way, parts, deal)
    }

    /// A deal is dealt in one way only, and with the same parts only.
    pub proof fn lemma_dealt_in_one_way(
        &self,
        way: int,
        parts: Seq<Cards>,
        other_way: int,
        other_parts: Seq<Cards>,
        deal: Deal,
    )
        requires
            self.wf(),
            self.deals_so(way, parts, deal),
            self.deals_so(other_way, other_parts, deal),
        ensures
            way == other_way,
            parts == other_parts,
    {
        broadcast use group_cards;
        broadcast use Deal::lemma_new;

        let open = self.open_cards();
        let first = self.distributions()[way]@;
        let second = self.distributions()[other_way]@;
        lemma_parts_are_within(open.all(), first, parts);
        lemma_parts_are_within(open.all(), second, other_parts);
        assert forall|holder: int| 0 <= holder < 4 implies parts[holder]
            == other_parts[holder] by {
            let known = self.observed()[holder];
            assert(open.all().disjoint(known));
            assert(parts[holder].subset_of(open.all()));
            assert(other_parts[holder].subset_of(open.all()));
            assert(parts[holder].spec_or(known) == other_parts[holder].spec_or(known)) by {
                if holder == 0 {
                } else if holder == 1 {
                } else if holder == 2 {
                } else {
                }
            }
            assert forall|card: Card|
                parts[holder].spec_contains(card) == other_parts[holder].spec_contains(card) by {
                assert(parts[holder].spec_or(known).spec_contains(card)
                    == other_parts[holder].spec_or(known).spec_contains(card));
            }
            parts[holder].lemma_ext(other_parts[holder]);
        }
        assert(parts =~= other_parts);
        if way != other_way {
            assert forall|holder: int| 0 <= holder < 4 implies first[holder]
                == second[holder] by {
                assert(holds_by_type(&open, first[holder], parts[holder]));
                assert(holds_by_type(&open, second[holder], other_parts[holder]));
            }
            assert(first =~= second);
            if way < other_way {
                assert(self.distributions()[way]@ != self.distributions()[other_way]@);
            } else {
                assert(self.distributions()[other_way]@ != self.distributions()[way]@);
            }
        }
    }

    /// What holds of the deals that are listed, way by way, holds of them with
    /// one more deal of the way that is being worked on: each was dealt in a
    /// way, those of earlier ways first; none is listed twice; and the deals
    /// of earlier ways are all there.
    proof fn lemma_one_more_deal(
        &self,
        before: Seq<Deal>,
        ways_before: Seq<int>,
        parts_before: Seq<Seq<Cards>>,
        way: int,
        base: int,
        all: Seq<Vec<Cards>>,
        deal: Deal,
    )
        requires
            self.wf(),
            ways_before.len() == before.len(),
            parts_before.len() == before.len(),
            0 <= base <= before.len(),
            before.len() - base < all.len(),
            self.deals_so(way, all[before.len() - base]@, deal),
            forall|a: int, b: int| 0 <= a < b < all.len() ==> (#[trigger] all[a])@ != (#[trigger] all[b])@,
            forall|r: int|
                0 <= r < before.len() ==> #[trigger] ways_before[r] <= way && self.deals_so(
                    ways_before[r],
                    parts_before[r],
                    before[r],
                ),
            forall|r: int| 0 <= r < base ==> #[trigger] ways_before[r] < way,
            forall|r: int|
                base <= r < before.len() ==> #[trigger] ways_before[r] == way && parts_before[r]
                    == all[r - base]@,
            forall|r: int, j: int|
                0 <= r < j < before.len() ==> #[trigger] before[r] != #[trigger] before[j],
            forall|earlier: int, parts: Seq<Cards>, other: Deal|
                0 <= earlier < way && #[trigger] self.deals_so(earlier, parts, other)
                    ==> before.contains(other),
            forall|r: int| 0 <= r < before.len() ==> self.is_possible_deal(#[trigger] before[r]),
        ensures
            ({
                let after = before.push(deal);
                let ways_after = ways_before.push(way);
                let parts_after = parts_before.push(all[before.len() - base]@);
                &&& forall|r: int|
                    0 <= r < after.len() ==> #[trigger] ways_after[r] <= way && self.deals_so(
                        ways_after[r],
                        parts_after[r],
                        after[r],
                    )
                &&& forall|r: int| 0 <= r < base ==> #[trigger] ways_after[r] < way
                &&& forall|r: int|
                    base <= r < after.len() ==> #[trigger] ways_after[r] == way && parts_after[r]
                        == all[r - base]@
                &&& forall|r: int, j: int|
                    0 <= r < j < after.len() ==> #[trigger] after[r] != #[trigger] after[j]
                &&& forall|earlier: int, parts: Seq<Cards>, other: Deal|
                    0 <= earlier < way && #[trigger] self.deals_so(earlier, parts, other)
                        ==> after.contains(other)
                &&& forall|r: int| 0 <= r < after.len() ==> self.is_possible_deal(#[trigger] after[r])
            }),
    {
        let after = before.push(deal);
        let ways_after = ways_before.push(way);
        let newest = all[before.len() - base]@;
        let parts_after = parts_before.push(newest);
        assert forall|r: int| 0 <= r < after.len() implies #[trigger] ways_after[r] <= way
            && self.deals_so(ways_after[r], parts_after[r], after[r]) by {
            if r < before.len() {
                assert(after[r] == before[r]);
                assert(ways_after[r] == ways_before[r]);
                assert(parts_after[r] == parts_before[r]);
            }
        }
        assert forall|r: int| 0 <= r < base implies #[trigger] ways_after[r] < way by {
            assert(ways_after[r] == ways_before[r]);
        }
        assert forall|r: int| base <= r < after.len() implies #[trigger] ways_after[r] == way
            && parts_after[r] == all[r - base]@ by {
            if r < before.len() {
                assert(ways_after[r] == ways_before[r]);
                assert(parts_after[r] == parts_before[r]);
            }
        }
        assert forall|r: int, j: int| 0 <= r < j < after.len() implies #[trigger] after[r]
            != #[trigger] after[j] by {
            assert(after[r] == before[r]);
            if j == before.len() {
                if after[r] == deal {
                    self.lemma_dealt_in_one_way(
                        ways_before[r],
                        parts_before[r],
                        way,
                        newest,
                        deal,
                    );
                    assert(all[r - base]@ != all[before.len() - base]@);
                }
            } else {
                assert(after[j] == before[j]);
            }
        }
        assert forall|earlier: int, parts: Seq<Cards>, other: Deal|
            0 <= earlier < way && #[trigger] self.deals_so(
                earlier,
                parts,
                other,
            ) implies after.contains(other) by {
            assert(before.contains(other));
            let at = choose|at: int| 0 <= at < before.len() && before[at] == other;
            assert(after[at] == other);
        }
        assert forall|r: int| 0 <= r < after.len() implies self.is_possible_deal(
            #[trigger] after[r],
        ) by {
            if r < before.len() {
                assert(after[r] == before[r]);
            }
        }
    }

    /// In a deal that fits what is known, a holder gets as many of the open
    /// cards as he has unknown cards, and none of a type that he cannot have.
    pub proof fn lemma_deal_keeps_to_what_is_known(
        &self,
        unknown_cards: Seq<UnknownCards>,
        game_type: GameType,
        way: int,
        parts: Seq<Cards>,
        deal: Deal,
        holder: int,
        card_type: CardType,
    )
        requires
            self.wf(),
            self.deals_so(way, parts, deal),
            is_distribution(unknown_cards, self.open_cards().sizes(), self.distributions()[way]@),
            set_of(self.open_cards().list_of(card_type)) == Cards::spec_of_card_type(
                card_type,
                game_type,
            ).spec_and(self.open_cards().all()),
            0 <= holder < parts.len(),
        ensures
            parts[holder].subset_of(self.open_cards().all()),
            parts[holder].spec_len() == unknown_cards[holder].number,
            !unknown_cards[holder].spec_possible(card_type) ==> parts[holder].disjoint(
                Cards::spec_of_card_type(card_type, game_type),
            ),
    {
        broadcast use group_cards;

        let distributions = self.distributions()[way]@;
        let open = self.open_cards();
        lemma_parts_are_within(open.all(), distributions, parts);
        lemma_distribution_exhausts(unknown_cards, open.sizes(), distributions);
        if !unknown_cards[holder].spec_possible(card_type) {
            lemma_distribution_keeps_types(
                unknown_cards,
                open.sizes(),
                distributions,
                holder,
                card_type,
            );
            assert(holds_by_type(&open, distributions[holder], parts[holder]));
            assert(count_of_type(&open, parts[holder], card_type) == 0) by {
                match card_type {
                    CardType::Trump => {},
                    CardType::Suit(Suit::Hearts) => {},
                    CardType::Suit(Suit::Diamonds) => {},
                    CardType::Suit(Suit::Spades) => {},
                    CardType::Suit(Suit::Clubs) => {},
                }
            }
            let of_type = Cards::spec_of_card_type(card_type, game_type);
            let listed = set_of(open.list_of(card_type));
            parts[holder].spec_and(listed).lemma_is_empty();
            assert forall|card: Card|
                !(parts[holder].spec_contains(card) && of_type.spec_contains(card)) by {
                if parts[holder].spec_contains(card) && of_type.spec_contains(card) {
                    assert(open.all().spec_contains(card));
                    assert(listed.spec_contains(card));
                    assert(parts[holder].spec_and(listed).spec_contains(card));
                }
            }
        }
    }

    /// The deal of four parts of the open cards and the cards that are known.
    fn deal_of(&self, parts: &[Cards]) -> (r: Deal)
        requires
            self.wf(),
            parts@.len() == 4,
            forall|i: int| 0 <= i < 4 ==> (#[trigger] parts@[i]).subset_of(self.open_cards().all()),
        ensures
            r == Deal::spec_new(
                parts@[0].spec_or(self.observed()[0]),
                parts@[1].spec_or(self.observed()[1]),
                parts@[2].spec_or(self.observed()[2]),
                parts@[3].spec_or(self.observed()[3]),
            ),
    {
        proof {
            broadcast use group_cards;

            assert(parts@[0].subset_of(self.open_cards().all()));
            assert(parts@[1].subset_of(self.open_cards().all()));
            assert(parts@[2].subset_of(self.open_cards().all()));
            assert(parts@[3].subset_of(self.open_cards().all()));
            assert(self.open_cards().all().disjoint(self.observed()[0]));
            assert(self.open_cards().all().disjoint(self.observed()[1]));
            assert(self.open_cards().all().disjoint(self.observed()[2]));
            assert(self.open_cards().all().disjoint(self.observed()[3]));
        }
        Deal::new(
            parts[0].combined_with_disjoint(self.observed_cards_array[0]),
            parts[1].combined_with_disjoint(self.observed_cards_array[1]),
            parts[2].combined_with_disjoint(self.observed_cards_array[2]),
            parts[3].combined_with_disjoint(self.observed_cards_array[3]),
        )
    }

    /// All deals that fit what is known: for every way to give the holders their
    /// unknown cards type by type, every way to deal the open cards so.
    /// Each deal gives each holder the cards that he is known to have had, and
    /// of the open cards so many of each type as the way says. No deal is
    /// listed twice, none is missing, and the deals are as many as the number
    /// of possibilities.
    pub fn get_all_possibilities(&self) -> (r: Vec<Deal>)
        requires
            self.wf(),
        ensures
            forall|k: int| 0 <= k < r@.len() ==> self.is_possible_deal(#[trigger] r@[k]),
            r@.len() == self.spec_number_of_possibilities(),
            r@.len() == deals_in(self.distributions()),
            forall|k: int, j: int| 0 <= k < j < r@.len() ==> #[trigger] r@[k] != #[trigger] r@[j],
            forall|deal: Deal| #[trigger] self.is_possible_deal(deal) ==> r@.contains(deal),
    {
        let mut result: Vec<Deal> = Vec::new();
        let ghost mut ways_of: Seq<int> = Seq::empty();
        let ghost mut parts_of: Seq<Seq<Cards>> = Seq::empty();

        let mut i: usize = 0;
        while i < self.possible_color_distributions_vec.len()
            invariant
                i <= self.distributions().len(),
                self.wf(),
                result@.len() == deals_in(self.distributions().take(i as int)),
                ways_of.len() == result@.len(),
                parts_of.len() == result@.len(),
                forall|k: int|
                    0 <= k < result@.len() ==> #[trigger] ways_of[k] < i && self.deals_so(
                        ways_of[k],
                        parts_of[k],
                        result@[k],
                    ),
                forall|k: int, j: int|
                    0 <= k < j < result@.len() ==> #[trigger] result@[k] != #[trigger] result@[j],
                forall|way: int, parts: Seq<Cards>, deal: Deal|
                    0 <= way < i && #[trigger] self.deals_so(way, parts, deal) ==> result@.contains(
                        deal,
                    ),
                forall|k: int| 0 <= k < result@.len() ==> self.is_possible_deal(#[trigger] result@[k]),
            decreases self.distributions().len() - i,
        {
            let possible_color_distributions = &self.possible_color_distributions_vec[i];
            let all = possible_color_distributions.get_all_possibilities(&self.open_cards_ordered);
            let ghost base = result@.len();
            let mut k: usize = 0;
            while k < all.len()
                invariant
                    k <= all@.len(),
                    i < self.distributions().len(),
                    self.wf(),
                    result@.len() == deals_in(self.distributions().take(i as int)) + k,
                    result@.len() == base + k,
                    forall|a: int, b: int|
                        0 <= a < b < all@.len() ==> (#[trigger] all@[a])@ != (#[trigger] all@[b])@,
                    ways_of.len() == result@.len(),
                    parts_of.len() == result@.len(),
                    forall|r: int|
                        0 <= r < result@.len() ==> #[trigger] ways_of[r] <= i && self.deals_so(
                            ways_of[r],
                            parts_of[r],
                            result@[r],
                        ),
                    forall|r: int| 0 <= r < base ==> #[trigger] ways_of[r] < i,
                    forall|r: int|
                        base <= r < result@.len() ==> #[trigger] ways_of[r] == i && parts_of[r]
                            == all@[r - base]@,
                    forall|r: int, j: int|
                        0 <= r < j < result@.len() ==> #[trigger] result@[r] != #[trigger] result@[j],
                    forall|way: int, parts: Seq<Cards>, deal: Deal|
                        0 <= way < i && #[trigger] self.deals_so(way, parts, deal)
                            ==> result@.contains(deal),
                    forall|parts: Seq<Cards>|
                        is_dealt(self.open_cards().all(), possible_color_distributions@, parts)
                            && #[trigger] is_dealt_by_type(
                            &self.open_cards(),
                            possible_color_distributions@,
                            parts,
                        ) ==> is_dealt_in(all@, parts),
                    *possible_color_distributions == self.distributions()[i as int],
                    forall|a: int|
                        0 <= a < all@.len() ==> is_dealt(
                            self.open_cards().all(),
                            possible_color_distributions@,
                            (#[trigger] all@[a])@,
                        ),
                    forall|a: int|
                        0 <= a < all@.len() ==> is_dealt_by_type(
                            &self.open_cards(),
                            possible_color_distributions@,
                            (#[trigger] all@[a])@,
                        ),
                    forall|k: int| 0 <= k < result@.len() ==> self.is_possible_deal(#[trigger] result@[k]),
                decreases all@.len() - k,
            {
                let parts = &all[k];
                proof {
                    lemma_parts_are_within(
                        self.open_cards().all(),
                        possible_color_distributions@,
                        parts@,
                    );
                }
                let deal = self.deal_of(parts.as_slice());
                let ghost before = result@;
                result.push(deal);
                proof {
                    assert(is_dealt(
                        self.open_cards().all(),
                        self.distributions()[i as int]@,
                        parts@,
                    ));
                    assert(deal == Deal::spec_new(
                        parts@[0].spec_or(self.observed()[0]),
                        parts@[1].spec_or(self.observed()[1]),
                        parts@[2].spec_or(self.observed()[2]),
                        parts@[3].spec_or(self.observed()[3]),
                    ));
                    assert(self.deals_so(i as int, parts@, deal));
                    let ways_before = ways_of;
                    let parts_before = parts_of;
                    ways_of = ways_of.push(i as int);
                    parts_of = parts_of.push(parts@);
                    assert(result@ == before.push(deal));
                    self.lemma_one_more_deal(
                        before,
                        ways_before,
                        parts_before,
                        i as int,
                        base as int,
                        all@,
                        deal,
                    );
                }
                k += 1;
            }
            proof {
                let longer = self.distributions().take(i + 1);
                assert(longer.drop_last() =~= self.distributions().take(i as int));
                assert(longer.last() == self.distributions()[i as int]);
                assert forall|way: int, parts: Seq<Cards>, deal: Deal|
                    0 <= way < i + 1 && #[trigger] self.deals_so(
                        way,
                        parts,
                        deal,
                    ) implies result@.contains(deal) by {
                    if way == i {
                        assert(is_dealt_in(all@, parts));
                        let a = choose|a: int| 0 <= a < all@.len() && (#[trigger] all@[a])@ == parts;
                        assert(ways_of[base + a] == i);
                        assert(parts_of[base + a] == all@[base + a - base]@);
                        assert(self.deals_so(
                            ways_of[base + a],
                            parts_of[base + a],
                            result@[base + a],
                        ));
                        assert(result@[base + a] == deal);
                    }
                }
            }
            i += 1;
        }
        proof {
            assert(self.distributions().take(i as int) =~= self.distributions());
            assert(result@.len() == result.len());
            assert forall|deal: Deal| #[trigger] self.is_possible_deal(deal) implies result@.contains(
                deal,
            ) by {
                let (way, parts) = choose|way: int, parts: Seq<Cards>| #[trigger]
                    self.deals_so(way, parts, deal);
                assert(self.deals_so(way, parts, deal));
            }
        }
        result
    }

    /// The way to give the holders their unknown cards type by type that the
    /// deal of the given number belongs to, the deals counted through way by
    /// way: the deals of the ways before it are at most `id`, and with its own
    /// deals they are more.
    pub fn color_distributions_at(&self, id: usize) -> (r: &ColorDistributions)
        requires
            self.wf(),
            id < self.spec_number_of_possibilities(),
        ensures
            exists|i: int|
                0 <= i < self.distributions().len() && *r == #[trigger] self.distributions()[i]
                    && deals_in(self.distributions().take(i)) <= id < deals_in(
                    self.distributions().take(i + 1),
                ),
    {
        let mut rest = id;
        let ghost all = self.distributions();

        let mut i: usize = 0;
        proof {
            assert(all.take(all.len() as int) =~= all);
            assert(all.take(0) =~= Seq::<ColorDistributions>::empty());
        }
        while i < self.possible_color_distributions_vec.len()
            invariant
                i <= all.len(),
                all == self.distributions(),
                self.wf(),
                id < deals_in(all),
                rest + deals_in(all.take(i as int)) == id,
            decreases all.len() - i,
        {
            let color_distributions = &self.possible_color_distributions_vec[i];
            proof {
                assert(all.take(i + 1).drop_last() =~= all.take(i as int));
                assert(all.take(i + 1).last() == all[i as int]);
                lemma_deals_in_prefix(all, i + 1);
            }
            match rest.checked_sub(color_distributions.number_of_possibilities()) {
                Some(less) => rest = less,
                None => return color_distributions,
            }
            i += 1;
        }
        proof {
            assert(all.take(i as int) =~= all);
        }
        vstd::pervasive::unreached()
    }

    /// Draws one of the ways to give the holders their unknown cards type by
    /// type, each with a chance that is its share of the deals: a deal's
    /// number is drawn, and the way is the one that the deal belongs to.
    fn sample_color_distribution(&self, rng: &mut Xoshiro256PlusPlus) -> (r: &ColorDistributions)
        requires
            self.wf(),
            self.spec_number_of_possibilities() > 0,
        ensures
            exists|i: int|
                0 <= i < self.distributions().len() && *r == #[trigger] self.distributions()[i],
    {
        let id = random_of_range(rng, self.number_of_possibilities);
        self.color_distributions_at(id)
    }

    pub fn number_of_color_distributions(&self) -> (r: usize)
        ensures
            r == self.distributions().len(),
    {
        self.possible_color_distributions_vec.len()
    }

    /// The number of deals that fit what is known, or the greatest number that
    /// fits if there are more.
    #[verifier::when_used_as_spec(spec_number_of_possibilities)]
    pub fn number_of_possibilities(&self) -> (r: usize)
        ensures
            r == self.spec_number_of_possibilities(),
    {
        self.number_of_possibilities
    }

    /// What an observer knows turned into the deals that fit it: the ways to
    /// give the holders their unknown cards type by type out of the cards
    /// that were not seen, these cards by their types, and the number of the
    /// deals.
    pub fn new(card_knowledge: &CardKnowledge, game_type: GameType) -> (r:
        UniformPossibleDealsFromObservedGameplay)
        requires
            card_knowledge.wf(),
            card_knowledge.is_consistent(),
        ensures
            r.wf(),
            r.observed() == card_knowledge@.observed_cards,
            r.open_cards().all() == Cards::spec_all().spec_without(
                card_knowledge.spec_observed_cards(),
            ),
            forall|card_type: CardType|
                set_of(#[trigger] r.open_cards().list_of(card_type)) == Cards::spec_of_card_type(
                    card_type,
                    game_type,
                ).spec_and(r.open_cards().all()),
            forall|i: int|
                0 <= i < r.distributions().len() ==> is_distribution(
                    card_knowledge@.unknown_cards,
                    r.open_cards().sizes(),
                    (#[trigger] r.distributions()[i])@,
                ),
            forall|distributions: Seq<ColorDistribution>| #[trigger]
                is_distribution(
                    card_knowledge@.unknown_cards,
                    r.open_cards().sizes(),
                    distributions,
                ) ==> exists|i: int|
                    0 <= i < r.distributions().len() && (#[trigger] r.distributions()[i])@
                        == distributions,
    {
        let unobserved_cards = Cards::all().without(card_knowledge.observed_cards());
        let open: ColorDistribution = ColorDistribution::new(unobserved_cards, game_type);

        let possible_color_distributions_vec = distribute_colors(
            card_knowledge.unknown_cards_slice(),
            open,
        );
        let open_cards_ordered = OpenCards::ordered(unobserved_cards, game_type);
        proof {
            broadcast use group_cards;

            lemma_types_share_the_cards(unobserved_cards, game_type);
            unobserved_cards.lemma_len_bounds();
            open_cards_ordered.lemma_sizes();
            assert(open_cards_ordered.sizes() == open);
            assert forall|i: int| 0 <= i < possible_color_distributions_vec@.len() implies {
                &&& (#[trigger] possible_color_distributions_vec@[i])@.len() == 4
                &&& possible_color_distributions_vec@[i].wf()
                &&& sum_of(possible_color_distributions_vec@[i]@) == open
            } by {
                lemma_distribution_exhausts(
                    card_knowledge@.unknown_cards,
                    open,
                    possible_color_distributions_vec@[i]@,
                );
                lemma_distribution_counts(
                    card_knowledge@.unknown_cards,
                    open,
                    possible_color_distributions_vec@[i]@,
                );
            }
        }

        let possible_situations = count_deals(&possible_color_distributions_vec);

        let observed_cards_array = card_knowledge.observed_cards_array();
        let ghost all = possible_color_distributions_vec@;
        let ghost unknown = card_knowledge@.unknown_cards;

        let result = UniformPossibleDealsFromObservedGameplay {
            possible_color_distributions_vec,
            open_cards_ordered,
            observed_cards_array,
            number_of_possibilities: possible_situations,
        };
        proof {
            assert(result.distributions() == all);
            assert(result.open_cards().sizes() == open);
            assert forall|distributions: Seq<ColorDistribution>| #[trigger]
                is_distribution(unknown, result.open_cards().sizes(), distributions) implies exists|
                i: int,
            | 0 <= i < result.distributions().len() && (#[trigger] result.distributions()[i])@
                == distributions by {
                assert(is_distribution(unknown, open, distributions));
                let i = choose|i: int| 0 <= i < all.len() && (#[trigger] all[i])@ == distributions;
                assert(result.distributions()[i]@ == distributions);
            }
            assert forall|i: int| 0 <= i < result.distributions().len() implies is_distribution(
                unknown,
                result.open_cards().sizes(),
                (#[trigger] result.distributions()[i])@,
            ) by {
                assert(is_distribution(unknown, open, all[i]@));
            }
        }
        result
    }

    /// Draws a deal that fits what is known: one of the ways to give the
    /// holders their unknown cards type by type, and then the open cards in
    /// a random order, dealt so.
    pub fn sample(&self, rng: &mut Xoshiro256PlusPlus) -> (r: Deal)
        requires
            self.wf(),
            self.spec_number_of_possibilities() > 0,
        ensures
            self.is_possible_deal(r),
    {
        let color_distributions: &ColorDistributions = self.sample_color_distribution(rng);
        let ghost way = choose|way: int|
            0 <= way < self.distributions().len() && *color_distributions
                == #[trigger] self.distributions()[way];

        let mut open_cards = self.open_cards_ordered.duplicate();
        proof {
            assert(open_cards.wf());
            self.open_cards().lemma_lists();
            open_cards.lemma_lists();
        }
        let ghost ordered = open_cards;
        open_cards.shuffle(rng);
        let ghost shuffled = open_cards;

        let chosen = choose_in_order(&mut open_cards, color_distributions);
        proof {
            assert(chosen@[0].subset_of(self.open_cards().all()));
            assert forall|i: int| 0 <= i < 4 implies holds_by_type(
                &self.open_cards(),
                color_distributions@[i],
                #[trigger] chosen@[i],
            ) by {
                assert(holds_by_type(&shuffled, color_distributions@[i], chosen@[i]));
                assert(shuffled.list_of(CardType::Trump) == shuffled.trump@);
                assert(ordered.list_of(CardType::Trump) == ordered.trump@);
            }
        }
        let deal = self.deal_of(chosen.as_slice());
        proof {
            assert(self.deals_so(way, chosen@, deal));
        }
        deal
    }
}

/// The sum of the numbers of deals of the distributions, each number and the
/// sum being the greatest number that fits where it would be beyond it.
fn count_deals(possible_color_distributions_vec: &Vec<ColorDistributions>) -> (r: usize)
    requires
        forall|k: int|
            0 <= k < possible_color_distributions_vec@.len() ==> (
            #[trigger] possible_color_distributions_vec@[k]).wf(),
    ensures
        r == if deals_in(possible_color_distributions_vec@) <= usize::MAX {
            deals_in(possible_color_distributions_vec@)
        } else {
            usize::MAX as nat
        },
{
    let mut possible_situations: usize = 0;
    let mut i: usize = 0;
    proof {
        assert(possible_color_distributions_vec@.take(0) =~= Seq::<ColorDistributions>::empty());
    }
    while i < possible_color_distributions_vec.len()
        invariant
            i <= possible_color_distributions_vec@.len(),
            forall|k: int|
                0 <= k < possible_color_distributions_vec@.len() ==> (
                #[trigger] possible_color_distributions_vec@[k]).wf(),
            possible_situations == if deals_in(possible_color_distributions_vec@.take(i as int))
                <= usize::MAX {
                deals_in(possible_color_distributions_vec@.take(i as int))
            } else {
                usize::MAX as nat
            },
        decreases possible_color_distributions_vec@.len() - i,
    {
        proof {
            assert(possible_color_distributions_vec@.take(i + 1).drop_last()
                =~= possible_color_distributions_vec@.take(i as int));
        }
        possible_situations =
        possible_situations.saturating_add(
            possible_color_distributions_vec[i].number_of_possibilities(),
        );
        i += 1;
    }
    proof {
        assert(possible_color_distributions_vec@.take(i as int)
            =~= possible_color_distributions_vec@);
    }
    possible_situations
}

/// The deals of a part of the list are not more than the deals of the list.
pub proof fn lemma_deals_in_prefix(distributions: Seq<ColorDistributions>, count: int)
    requires
        0 <= count <= distributions.len(),
    ensures
        deals_in(distributions.take(count)) <= deals_in(distributions),
    decreases distributions.len() - count,
{
    if count == distributions.len() {
        assert(distributions.take(count) =~= distributions);
    } else {
        lemma_deals_in_prefix(distributions, count + 1);
        assert(distributions.take(count + 1).drop_last() =~= distributions.take(count));
    }
}

} // verus!
