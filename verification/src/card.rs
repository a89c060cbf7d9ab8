use vstd::prelude::*;
use crate::card_points::CardPoints;
use crate::cards::Cards;
use crate::game_type::GameType;

verus! {

/// The four suits. The letters of the card names are those of the German deck:
/// S (Schellen) for diamonds, H for hearts, G (Grün) for spades, E (Eichel) for clubs.
#[derive(Clone, Copy, PartialEq, Eq, Debug, Hash, Structural)]
pub enum Suit {
    Diamonds,
    Hearts,
    Spades,
    Clubs,
}

/// What a card counts as within a game: a trump, or a card of its suit.
/// As the trump of a game, `Trump` stands for Grand, where only the four Us are trump.
#[derive(Clone, Copy, PartialEq, Eq, Debug, Hash, Structural)]
pub enum CardType {
    Trump,
    Suit(Suit),
}

impl CardType {
    pub open spec fn spec_base_value(self) -> int {
        match self {
            CardType::Trump => 24,
            CardType::Suit(Suit::Clubs) => 12,
            CardType::Suit(Suit::Spades) => 11,
            CardType::Suit(Suit::Hearts) => 10,
            CardType::Suit(Suit::Diamonds) => 9,
        }
    }

    /// The base value of a game with this trump.
    pub fn base_value(&self) -> (r: i16)
        ensures
            r == self.spec_base_value(),
    {
        match self {
            CardType::Trump => 24,
            CardType::Suit(Suit::Clubs) => 12,
            CardType::Suit(Suit::Spades) => 11,
            CardType::Suit(Suit::Hearts) => 10,
            CardType::Suit(Suit::Diamonds) => 9,
        }
    }
}

/// The eight ranks, in the order in which they beat each other in a Null game.
#[derive(Clone, Copy, PartialEq, Eq, Debug, Hash, Structural)]
pub enum Rank {
    L7,
    L8,
    L9,
    Z,
    U,
    O,
    K,
    A,
}

impl Rank {
    pub open spec fn spec_to_points(self) -> CardPoints {
        match self {
            Rank::L7 | Rank::L8 | Rank::L9 => CardPoints(0),
            Rank::Z => CardPoints(10),
            Rank::U => CardPoints(2),
            Rank::O => CardPoints(3),
            Rank::K => CardPoints(4),
            Rank::A => CardPoints(11),
        }
    }

    #[verifier::when_used_as_spec(spec_to_points)]
    pub fn to_points(self) -> (r: CardPoints)
        ensures
            r == self.spec_to_points(),
    {
        match self {
            Rank::L7 | Rank::L8 | Rank::L9 => CardPoints(0),
            Rank::Z => CardPoints(10),
            Rank::U => CardPoints(2),
            Rank::O => CardPoints(3),
            Rank::K => CardPoints(4),
            Rank::A => CardPoints(11),
        }
    }

    /// A rank's place in the list of the ranks by their points.
    pub open spec fn points_position(self) -> int {
        match self {
            Rank::L7 => 0,
            Rank::L8 => 1,
            Rank::L9 => 2,
            Rank::U => 3,
            Rank::O => 4,
            Rank::K => 5,
            Rank::Z => 6,
            Rank::A => 7,
        }
    }

    /// The list of the ranks by their points holds every rank at its place, and
    /// a rank that comes later counts at least as much.
    pub proof fn lemma_by_points(self, other: Rank)
        ensures
            Rank::spec_by_points(self.points_position()) == self,
            0 <= self.points_position() < 8,
            self.points_position() <= other.points_position() ==> self.spec_to_points().0
                <= other.spec_to_points().0,
    {
    }

    /// The ranks from the cheapest to the dearest; the three ranks without
    /// points come first, in their natural order.
    pub open spec fn spec_by_points(i: int) -> Rank {
        if i <= 0 {
            Rank::L7
        } else if i == 1 {
            Rank::L8
        } else if i == 2 {
            Rank::L9
        } else if i == 3 {
            Rank::U
        } else if i == 4 {
            Rank::O
        } else if i == 5 {
            Rank::K
        } else if i == 6 {
            Rank::Z
        } else {
            Rank::A
        }
    }

    pub fn by_points(i: u8) -> (r: Rank)
        requires
            i < 8,
        ensures
            r == Rank::spec_by_points(i as int),
    {
        match i {
            0 => Rank::L7,
            1 => Rank::L8,
            2 => Rank::L9,
            3 => Rank::U,
            4 => Rank::O,
            5 => Rank::K,
            6 => Rank::Z,
            _ => Rank::A,
        }
    }
}

/// The 32 cards. A card's position in this list is its position in a `Cards`
/// bitset: the seven cards of a suit that are no U stand together, from the
/// weakest to the strongest of a trump game, and the four Us fill the top four
/// places, from the weakest to the strongest.
#[derive(Clone, Copy, PartialEq, Eq, Debug, Hash, Structural)]
pub enum Card {
    S7,
    S8,
    S9,
    SO,
    SK,
    SZ,
    SA,
    H7,
    H8,
    H9,
    HO,
    HK,
    HZ,
    HA,
    G7,
    G8,
    G9,
    GO,
    GK,
    GZ,
    GA,
    E7,
    E8,
    E9,
    EO,
    EK,
    EZ,
    EA,
    SU,
    HU,
    GU,
    EU,
}

impl Card {
    /// The number of cards in the deck.
    pub const COUNT: u8 = 32;

    /// The card's place in the list of all cards, below 32.
    pub open spec fn index(self) -> u32 {
        self as u32
    }

    pub open spec fn spec_from_index(i: u32) -> Card {
        if i == 0 { Card::S7 }
        else if i == 1 { Card::S8 }
        else if i == 2 { Card::S9 }
        else if i == 3 { Card::SO }
        else if i == 4 { Card::SK }
        else if i == 5 { Card::SZ }
        else if i == 6 { Card::SA }
        else if i == 7 { Card::H7 }
        else if i == 8 { Card::H8 }
        else if i == 9 { Card::H9 }
        else if i == 10 { Card::HO }
        else if i == 11 { Card::HK }
        else if i == 12 { Card::HZ }
        else if i == 13 { Card::HA }
        else if i == 14 { Card::G7 }
        else if i == 15 { Card::G8 }
        else if i == 16 { Card::G9 }
        else if i == 17 { Card::GO }
        else if i == 18 { Card::GK }
        else if i == 19 { Card::GZ }
        else if i == 20 { Card::GA }
        else if i == 21 { Card::E7 }
        else if i == 22 { Card::E8 }
        else if i == 23 { Card::E9 }
        else if i == 24 { Card::EO }
        else if i == 25 { Card::EK }
        else if i == 26 { Card::EZ }
        else if i == 27 { Card::EA }
        else if i == 28 { Card::SU }
        else if i == 29 { Card::HU }
        else if i == 30 { Card::GU }
        else { Card::EU }
    }

    /// The card at a place of the list of all cards.
    pub fn from_index(i: u8) -> (r: Card)
        requires
            i < 32,
        ensures
            r == Card::spec_from_index(i as u32),
            r.index() == i,
    {
        match i {
            0 => Card::S7,
            1 => Card::S8,
            2 => Card::S9,
            3 => Card::SO,
            4 => Card::SK,
            5 => Card::SZ,
            6 => Card::SA,
            7 => Card::H7,
            8 => Card::H8,
            9 => Card::H9,
            10 => Card::HO,
            11 => Card::HK,
            12 => Card::HZ,
            13 => Card::HA,
            14 => Card::G7,
            15 => Card::G8,
            16 => Card::G9,
            17 => Card::GO,
            18 => Card::GK,
            19 => Card::GZ,
            20 => Card::GA,
            21 => Card::E7,
            22 => Card::E8,
            23 => Card::E9,
            24 => Card::EO,
            25 => Card::EK,
            26 => Card::EZ,
            27 => Card::EA,
            28 => Card::SU,
            29 => Card::HU,
            30 => Card::GU,
            _ => Card::EU,
        }
    }

    /// Every card has a place below 32, and the card at that place is the card.
    pub broadcast proof fn lemma_index(self)
        ensures
            #[trigger] self.index() < 32,
            Card::spec_from_index(self.index()) == self,
    {
    }

    /// Every place below 32 holds a card, and that card's place is the place.
    pub broadcast proof fn lemma_from_index(i: u32)
        requires
            i < 32,
        ensures
            (#[trigger] Card::spec_from_index(i)).index() == i,
    {
    }

    pub fn to_u8(self) -> (r: u8)
        ensures
            r == self.index(),
            r < 32,
    {
        self as u8
    }

    pub open spec fn spec_detail_to_bit(self) -> u32 {
        1u32 << self.index()
    }

    pub(crate) fn detail_to_bit(self) -> (r: u32)
        ensures
            r == self.spec_detail_to_bit(),
    {
        1u32 << (self.to_u8() as u32)
    }

    pub open spec fn spec_to_points(self) -> CardPoints {
        self.spec_rank().spec_to_points()
    }

    #[verifier::when_used_as_spec(spec_to_points)]
    pub fn to_points(self) -> (r: CardPoints)
        ensures
            r == self.spec_to_points(),
            r.0 <= 11,
    {
        self.rank().to_points()
    }

    pub open spec fn spec_suit(self) -> Suit {
        match self {
            Card::S7 | Card::S8 | Card::S9 | Card::SO | Card::SK | Card::SZ | Card::SU
            | Card::SA => Suit::Diamonds,
            Card::H7 | Card::H8 | Card::H9 | Card::HO | Card::HK | Card::HZ | Card::HU
            | Card::HA => Suit::Hearts,
            Card::G7 | Card::G8 | Card::G9 | Card::GO | Card::GK | Card::GZ | Card::GU
            | Card::GA => Suit::Spades,
            Card::E7 | Card::E8 | Card::E9 | Card::EO | Card::EK | Card::EZ | Card::EU
            | Card::EA => Suit::Clubs,
        }
    }

    #[verifier::when_used_as_spec(spec_suit)]
    pub fn suit(self) -> (r: Suit)
        ensures
            r == self.spec_suit(),
    {
        match self {
            Card::S7 | Card::S8 | Card::S9 | Card::SO | Card::SK | Card::SZ | Card::SU
            | Card::SA => Suit::Diamonds,
            Card::H7 | Card::H8 | Card::H9 | Card::HO | Card::HK | Card::HZ | Card::HU
            | Card::HA => Suit::Hearts,
            Card::G7 | Card::G8 | Card::G9 | Card::GO | Card::GK | Card::GZ | Card::GU
            | Card::GA => Suit::Spades,
            Card::E7 | Card::E8 | Card::E9 | Card::EO | Card::EK | Card::EZ | Card::EU
            | Card::EA => Suit::Clubs,
        }
    }

    pub open spec fn spec_rank(self) -> Rank {
        match self {
            Card::S7 | Card::H7 | Card::G7 | Card::E7 => Rank::L7,
            Card::S8 | Card::H8 | Card::G8 | Card::E8 => Rank::L8,
            Card::S9 | Card::H9 | Card::G9 | Card::E9 => Rank::L9,
            Card::SZ | Card::HZ | Card::GZ | Card::EZ => Rank::Z,
            Card::SU | Card::HU | Card::GU | Card::EU => Rank::U,
            Card::SO | Card::HO | Card::GO | Card::EO => Rank::O,
            Card::SK | Card::HK | Card::GK | Card::EK => Rank::K,
            Card::SA | Card::HA | Card::GA | Card::EA => Rank::A,
        }
    }

    #[verifier::when_used_as_spec(spec_rank)]
    pub fn rank(self) -> (r: Rank)
        ensures
            r == self.spec_rank(),
    {
        match self {
            Card::S7 | Card::H7 | Card::G7 | Card::E7 => Rank::L7,
            Card::S8 | Card::H8 | Card::G8 | Card::E8 => Rank::L8,
            Card::S9 | Card::H9 | Card::G9 | Card::E9 => Rank::L9,
            Card::SZ | Card::HZ | Card::GZ | Card::EZ => Rank::Z,
            Card::SU | Card::HU | Card::GU | Card::EU => Rank::U,
            Card::SO | Card::HO | Card::GO | Card::EO => Rank::O,
            Card::SK | Card::HK | Card::GK | Card::EK => Rank::K,
            Card::SA | Card::HA | Card::GA | Card::EA => Rank::A,
        }
    }

    /// Whether the card is a trump of the game: never in Null, the Us in every
    /// trump game, and the trump suit's cards in a suit game.
    pub open spec fn is_trump(self, game_type: GameType) -> bool {
        match game_type {
            GameType::Null => false,
            GameType::Trump(CardType::Trump) => self.spec_rank() == Rank::U,
            GameType::Trump(CardType::Suit(suit)) => self.spec_rank() == Rank::U
                || self.spec_suit() == suit,
        }
    }

    pub open spec fn spec_card_type(self, game_type: GameType) -> CardType {
        if self.is_trump(game_type) {
            CardType::Trump
        } else {
            CardType::Suit(self.spec_suit())
        }
    }

    /// What the card counts as in a game: `Trump` if it is one of the game's
    /// trumps, else its suit.
    #[verifier::when_used_as_spec(spec_card_type)]
    pub fn card_type(self, game_type: GameType) -> (r: CardType)
        ensures
            r == self.spec_card_type(game_type),
    {
        let trump = Cards::of_trump(game_type);
        proof {
            Cards::lemma_of_trump(game_type, self);
        }

        if trump.contains(self) {
            return CardType::Trump;
        }
        CardType::Suit(self.suit())
    }

    pub open spec fn spec_of(rank: Rank, suit: Suit) -> Card {
        match (rank, suit) {
            (Rank::L7, Suit::Diamonds) => Card::S7,
            (Rank::L7, Suit::Hearts) => Card::H7,
            (Rank::L7, Suit::Spades) => Card::G7,
            (Rank::L7, Suit::Clubs) => Card::E7,
            (Rank::L8, Suit::Diamonds) => Card::S8,
            (Rank::L8, Suit::Hearts) => Card::H8,
            (Rank::L8, Suit::Spades) => Card::G8,
            (Rank::L8, Suit::Clubs) => Card::E8,
            (Rank::L9, Suit::Diamonds) => Card::S9,
            (Rank::L9, Suit::Hearts) => Card::H9,
            (Rank::L9, Suit::Spades) => Card::G9,
            (Rank::L9, Suit::Clubs) => Card::E9,
            (Rank::Z, Suit::Diamonds) => Card::SZ,
            (Rank::Z, Suit::Hearts) => Card::HZ,
            (Rank::Z, Suit::Spades) => Card::GZ,
            (Rank::Z, Suit::Clubs) => Card::EZ,
            (Rank::U, Suit::Diamonds) => Card::SU,
            (Rank::U, Suit::Hearts) => Card::HU,
            (Rank::U, Suit::Spades) => Card::GU,
            (Rank::U, Suit::Clubs) => Card::EU,
            (Rank::O, Suit::Diamonds) => Card::SO,
            (Rank::O, Suit::Hearts) => Card::HO,
            (Rank::O, Suit::Spades) => Card::GO,
            (Rank::O, Suit::Clubs) => Card::EO,
            (Rank::K, Suit::Diamonds) => Card::SK,
            (Rank::K, Suit::Hearts) => Card::HK,
            (Rank::K, Suit::Spades) => Card::GK,
            (Rank::K, Suit::Clubs) => Card::EK,
            (Rank::A, Suit::Diamonds) => Card::SA,
            (Rank::A, Suit::Hearts) => Card::HA,
            (Rank::A, Suit::Spades) => Card::GA,
            (Rank::A, Suit::Clubs) => Card::EA,
        }
    }

    /// The card of a rank and a suit: the one card `c` with `c.rank() == rank`
    /// and `c.suit() == suit`.
    #[verifier::when_used_as_spec(spec_of)]
    pub fn of(rank: Rank, suit: Suit) -> (r: Card)
        ensures
            r == Card::spec_of(rank, suit),
            r.spec_rank() == rank,
            r.spec_suit() == suit,
    {
        match (rank, suit) {
            (Rank::L7, Suit::Diamonds) => Card::S7,
            (Rank::L7, Suit::Hearts) => Card::H7,
            (Rank::L7, Suit::Spades) => Card::G7,
            (Rank::L7, Suit::Clubs) => Card::E7,
            (Rank::L8, Suit::Diamonds) => Card::S8,
            (Rank::L8, Suit::Hearts) => Card::H8,
            (Rank::L8, Suit::Spades) => Card::G8,
            (Rank::L8, Suit::Clubs) => Card::E8,
            (Rank::L9, Suit::Diamonds) => Card::S9,
            (Rank::L9, Suit::Hearts) => Card::H9,
            (Rank::L9, Suit::Spades) => Card::G9,
            (Rank::L9, Suit::Clubs) => Card::E9,
            (Rank::Z, Suit::Diamonds) => Card::SZ,
            (Rank::Z, Suit::Hearts) => Card::HZ,
            (Rank::Z, Suit::Spades) => Card::GZ,
            (Rank::Z, Suit::Clubs) => Card::EZ,
            (Rank::U, Suit::Diamonds) => Card::SU,
            (Rank::U, Suit::Hearts) => Card::HU,
            (Rank::U, Suit::Spades) => Card::GU,
            (Rank::U, Suit::Clubs) => Card::EU,
            (Rank::O, Suit::Diamonds) => Card::SO,
            (Rank::O, Suit::Hearts) => Card::HO,
            (Rank::O, Suit::Spades) => Card::GO,
            (Rank::O, Suit::Clubs) => Card::EO,
            (Rank::K, Suit::Diamonds) => Card::SK,
            (Rank::K, Suit::Hearts) => Card::HK,
            (Rank::K, Suit::Spades) => Card::GK,
            (Rank::K, Suit::Clubs) => Card::EK,
            (Rank::A, Suit::Diamonds) => Card::SA,
            (Rank::A, Suit::Hearts) => Card::HA,
            (Rank::A, Suit::Spades) => Card::GA,
            (Rank::A, Suit::Clubs) => Card::EA,
        }
    }

    /// A card is given by its rank and its suit.
    pub proof fn lemma_of_rank_and_suit(self)
        ensures
            Card::spec_of(self.spec_rank(), self.spec_suit()) == self,
    {
    }
}

} // verus!
