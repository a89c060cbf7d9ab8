use vstd::prelude::*;
use crate::bidding_role::BiddingRole;
use crate::card::{Card, CardType, Rank};
use crate::cards::{group_cards, Cards};
use crate::deck::Deck;
use crate::game_type::GameType;
use crate::trick_yield::YieldSoFar;

verus! {

/// Who was dealt which cards: the three hands by their seats, and the skat.
#[derive(Clone, Copy, Debug, PartialEq, Eq, Hash, Structural)]
pub struct Deal {
    first_receiver: Cards,
    first_caller: Cards,
    second_caller: Cards,
    skat: Cards,
}

impl Deal {
    pub closed spec fn spec_hand(&self, bidding_role: BiddingRole) -> Cards {
        match bidding_role {
            BiddingRole::FirstReceiver => self.first_receiver,
            BiddingRole::FirstCaller => self.first_caller,
            BiddingRole::SecondCaller => self.second_caller,
        }
    }

    pub closed spec fn spec_skat(self) -> Cards {
        self.skat
    }

    /// The deal of the given hands and skat.
    pub closed spec fn spec_new(
        first_receiver: Cards,
        first_caller: Cards,
        second_caller: Cards,
        skat: Cards,
    ) -> Deal {
        Deal { first_receiver, first_caller, second_caller, skat }
    }

    pub broadcast proof fn lemma_new(
        first_receiver: Cards,
        first_caller: Cards,
        second_caller: Cards,
        skat: Cards,
    )
        ensures
            ({
                let deal = #[trigger] Deal::spec_new(
                    first_receiver,
                    first_caller,
                    second_caller,
                    skat,
                );
                &&& deal.spec_hand(BiddingRole::FirstReceiver) == first_receiver
                &&& deal.spec_hand(BiddingRole::FirstCaller) == first_caller
                &&& deal.spec_hand(BiddingRole::SecondCaller) == second_caller
                &&& deal.spec_skat() == skat
            }),
    {
    }

    /// A deal is given by its three hands and its skat.
    pub proof fn lemma_ext(self, other: Deal)
        requires
            forall|bidding_role: BiddingRole|
                self.spec_hand(bidding_role) == other.spec_hand(bidding_role),
            self.spec_skat() == other.spec_skat(),
        ensures
            self == other,
    {
        assert(self.spec_hand(BiddingRole::FirstReceiver) == other.spec_hand(
            BiddingRole::FirstReceiver,
        ));
        assert(self.spec_hand(BiddingRole::FirstCaller) == other.spec_hand(
            BiddingRole::FirstCaller,
        ));
        assert(self.spec_hand(BiddingRole::SecondCaller) == other.spec_hand(
            BiddingRole::SecondCaller,
        ));
    }

    /// No card was dealt twice.
    pub open spec fn disjoint(self) -> bool {
        let first_receiver = self.spec_hand(BiddingRole::FirstReceiver);
        let first_caller = self.spec_hand(BiddingRole::FirstCaller);
        let second_caller = self.spec_hand(BiddingRole::SecondCaller);
        &&& first_receiver.disjoint(first_caller)
        &&& first_receiver.disjoint(second_caller)
        &&& first_receiver.disjoint(self.spec_skat())
        &&& first_caller.disjoint(second_caller)
        &&& first_caller.disjoint(self.spec_skat())
        &&& second_caller.disjoint(self.spec_skat())
    }

    /// A whole deal: ten cards for each hand, two for the skat, and no card
    /// twice, so that every card of the deck was dealt.
    pub open spec fn wf(self) -> bool {
        &&& self.spec_hand(BiddingRole::FirstReceiver).spec_len() == 10
        &&& self.spec_hand(BiddingRole::FirstCaller).spec_len() == 10
        &&& self.spec_hand(BiddingRole::SecondCaller).spec_len() == 10
        &&& self.spec_skat().spec_len() == 2
        &&& self.disjoint()
    }

    /// Whether this is a whole deal.
    pub fn is_whole(&self) -> (r: bool)
        ensures
            r == self.wf(),
    {
        self.first_receiver.len() == 10 && self.first_caller.len() == 10
            && self.second_caller.len() == 10 && self.skat.len() == 2
            && !self.first_receiver.overlaps(self.first_caller) && !self.first_receiver.overlaps(
            self.second_caller,
        ) && !self.first_receiver.overlaps(self.skat) && !self.first_caller.overlaps(
            self.second_caller,
        ) && !self.first_caller.overlaps(self.skat) && !self.second_caller.overlaps(self.skat)
    }

    /// The hand that was dealt to a seat.
    pub fn hand(&self, bidding_role: BiddingRole) -> (r: &Cards)
        ensures
            *r == self.spec_hand(bidding_role),
    {
        match bidding_role {
            BiddingRole::FirstReceiver => &self.first_receiver,
            BiddingRole::FirstCaller => &self.first_caller,
            BiddingRole::SecondCaller => &self.second_caller,
        }
    }

    /// The hand that was dealt to a seat, to be changed.
    pub fn hand_mut(&mut self, bidding_role: BiddingRole) -> (r: &mut Cards)
        ensures
            *r == old(self).spec_hand(bidding_role),
            final(self).spec_hand(bidding_role) == *final(r),
            forall|other: BiddingRole|
                other != bidding_role ==> final(self).spec_hand(other) == old(self).spec_hand(
                    other,
                ),
            final(self).spec_skat() == old(self).spec_skat(),
    {
        match bidding_role {
            BiddingRole::FirstReceiver => &mut self.first_receiver,
            BiddingRole::FirstCaller => &mut self.first_caller,
            BiddingRole::SecondCaller => &mut self.second_caller,
        }
    }

    #[verifier::when_used_as_spec(spec_skat)]
    pub fn skat(self) -> (r: Cards)
        ensures
            r == self.spec_skat(),
    {
        self.skat
    }

    /// The deal of the given hands and skat. That it is a whole deal is not
    /// checked here: see `is_whole`.
    #[verifier::when_used_as_spec(spec_new)]
    pub fn new(first_receiver: Cards, first_caller: Cards, second_caller: Cards, skat: Cards) -> (r:
        Deal)
        ensures
            r == Deal::spec_new(first_receiver, first_caller, second_caller, skat),
    {
        Deal { first_receiver, first_caller, second_caller, skat }
    }

    /// Two deals that share no card within a hand or within the skat, put
    /// together hand by hand.
    pub fn combined_with_disjoint(self, other: Deal) -> (r: Deal)
        requires
            forall|bidding_role: BiddingRole|
                self.spec_hand(bidding_role).disjoint(other.spec_hand(bidding_role)),
            self.spec_skat().disjoint(other.spec_skat()),
        ensures
            forall|bidding_role: BiddingRole|
                r.spec_hand(bidding_role) == self.spec_hand(bidding_role).spec_or(
                    other.spec_hand(bidding_role),
                ),
            r.spec_skat() == self.spec_skat().spec_or(other.spec_skat()),
    {
        proof {
            assert(self.spec_hand(BiddingRole::FirstReceiver).disjoint(
                other.spec_hand(BiddingRole::FirstReceiver),
            ));
            assert(self.spec_hand(BiddingRole::FirstCaller).disjoint(
                other.spec_hand(BiddingRole::FirstCaller),
            ));
            assert(self.spec_hand(BiddingRole::SecondCaller).disjoint(
                other.spec_hand(BiddingRole::SecondCaller),
            ));
        }
        Deal {
            first_receiver: self.first_receiver.combined_with_disjoint(other.first_receiver),
            first_caller: self.first_caller.combined_with_disjoint(other.first_caller),
            second_caller: self.second_caller.combined_with_disjoint(other.second_caller),
            skat: self.skat.combined_with_disjoint(other.skat),
        }
    }

    pub open spec fn spec_cards(&self) -> Cards {
        self.spec_hand(BiddingRole::FirstCaller).spec_or(
            self.spec_hand(BiddingRole::SecondCaller),
        ).spec_or(self.spec_hand(BiddingRole::FirstReceiver)).spec_or(self.spec_skat())
    }

    /// All cards of the deal, which was dealt without a card twice.
    pub fn cards(&self) -> (r: Cards)
        requires
            self.disjoint(),
        ensures
            r == self.spec_cards(),
    {
        proof {
            broadcast use crate::cards::group_cards;

            let a = self.first_caller.spec_or(self.second_caller);
            let b = a.spec_or(self.first_receiver);
            assert(a.spec_and(self.first_receiver).spec_is_empty());
            assert(b.spec_and(self.skat).spec_is_empty());
        }
        self.first_caller.combined_with_disjoint(self.second_caller).combined_with_disjoint(
            self.first_receiver,
        ).combined_with_disjoint(self.skat)
    }

    /// What the declarer has before the first card: the skat's points, no trick.
    pub fn initial_yield(self) -> (r: YieldSoFar)
        ensures
            r.card_points.0 == self.spec_skat().spec_to_points(),
            r.number_of_tricks == 0,
    {
        YieldSoFar::new(self.skat.to_points(), 0)
    }

    /// A whole deal holds every card of the deck.
    pub proof fn lemma_whole_deal_is_the_deck(self)
        requires
            self.wf(),
        ensures
            self.spec_cards() == Cards::spec_all(),
    {
        broadcast use crate::cards::group_cards;

        let fc = self.spec_hand(BiddingRole::FirstCaller);
        let sc = self.spec_hand(BiddingRole::SecondCaller);
        let fr = self.spec_hand(BiddingRole::FirstReceiver);
        let a = fc.spec_or(sc);
        let b = a.spec_or(fr);
        let c = b.spec_or(self.spec_skat());
        fc.lemma_measure_or(sc);
        a.lemma_measure_or(fr);
        b.lemma_measure_or(self.spec_skat());
        Cards::lemma_measure_constants();
        assert(fc.spec_and(sc) == Cards::spec_empty());
        assert(a.spec_and(fr).spec_is_empty());
        assert(a.spec_and(fr) == Cards::spec_empty());
        assert(b.spec_and(self.spec_skat()).spec_is_empty());
        assert(b.spec_and(self.spec_skat()) == Cards::spec_empty());
        assert(c.spec_len() == 32);
        Cards::spec_all().lemma_measure_without(c);
        assert(Cards::spec_all().spec_and(c) == c) by {
            assert forall|card: Card|
                Cards::spec_all().spec_and(c).spec_contains(card) == c.spec_contains(card) by {}
            Cards::spec_all().spec_and(c).lemma_ext(c);
        }
        assert(Cards::spec_all().spec_without(c).spec_len() == 0);
        assert forall|card: Card| c.spec_contains(card) == Cards::spec_all().spec_contains(
            card,
        ) by {
            if !c.spec_contains(card) {
                assert(Cards::spec_all().spec_without(c).spec_contains(card));
            }
        }
        c.lemma_ext(Cards::spec_all());
    }
}


/// The ranks of a trump suit from the strongest down, the Us left out.
pub open spec fn rank_from_top(place: int) -> Rank {
    if place <= 0 {
        Rank::A
    } else if place == 1 {
        Rank::Z
    } else if place == 2 {
        Rank::K
    } else if place == 3 {
        Rank::O
    } else if place == 4 {
        Rank::L9
    } else if place == 5 {
        Rank::L8
    } else {
        Rank::L7
    }
}

/// How many trumps a game has.
pub open spec fn number_of_trumps(game_type: GameType) -> int {
    match game_type {
        GameType::Null => 0,
        GameType::Trump(CardType::Trump) => 4,
        GameType::Trump(CardType::Suit(_)) => 11,
    }
}

/// The trumps of a game from the strongest down: the Us of clubs, spades,
/// hearts and diamonds, then the trump suit from the ace down.
pub open spec fn top_trump(game_type: GameType, place: int) -> Card {
    if place <= 0 {
        Card::EU
    } else if place == 1 {
        Card::GU
    } else if place == 2 {
        Card::HU
    } else if place == 3 {
        Card::SU
    } else {
        match game_type {
            GameType::Trump(CardType::Suit(suit)) => Card::spec_of(rank_from_top(place - 4), suit),
            _ => Card::SU,
        }
    }
}

/// A trump's place among the trumps of a game, from the strongest down.
pub open spec fn place_from_top(game_type: GameType, card: Card) -> int {
    match card.spec_rank() {
        Rank::U => 31 - card.index(),
        Rank::A => 4,
        Rank::Z => 5,
        Rank::K => 6,
        Rank::O => 7,
        Rank::L9 => 8,
        Rank::L8 => 9,
        Rank::L7 => 10,
    }
}

/// The trumps and their places give each other, and a trump that stands
/// later in the list of all cards is the stronger.
pub proof fn lemma_places_of_trumps(game_type: GameType, card: Card, other: Card)
    requires
        card.is_trump(game_type),
        other.is_trump(game_type),
    ensures
        0 <= place_from_top(game_type, card) < number_of_trumps(game_type),
        top_trump(game_type, place_from_top(game_type, card)) == card,
        (card.index() < other.index()) == (place_from_top(game_type, other) < place_from_top(
            game_type,
            card,
        )),
{
}

pub proof fn lemma_trumps_of_places(game_type: GameType, place: int)
    requires
        0 <= place < number_of_trumps(game_type),
    ensures
        top_trump(game_type, place).is_trump(game_type),
        place_from_top(game_type, top_trump(game_type, place)) == place,
{
}

/// The cards are with `count` matadors or without them: the `count` strongest
/// trumps are all in them or all missing, as the strongest is, and the next
/// trump, if there is one, is not as they are.
pub open spec fn is_matadors(cards: Cards, game_type: GameType, count: int) -> bool {
    &&& 1 <= count <= number_of_trumps(game_type)
    &&& forall|place: int|
        0 <= place < count ==> cards.spec_contains(#[trigger] top_trump(game_type, place))
            == cards.spec_contains(Card::EU)
    &&& count < number_of_trumps(game_type) ==> cards.spec_contains(top_trump(game_type, count))
        != cards.spec_contains(Card::EU)
}

impl Deal {
    /// With or without how many matadors the winner of the bidding plays: how
    /// many of the strongest trumps in a row are all in his hand and the skat,
    /// or all missing there. A Null game has no trumps and no matadors.
    pub fn matadors(self, bidding_winner: BiddingRole, game_type: GameType) -> (r: Option<u8>)
        ensures
            match r {
                None => game_type == GameType::Null,
                Some(count) => game_type != GameType::Null && is_matadors(
                    self.spec_hand(bidding_winner).spec_or(self.spec_skat()),
                    game_type,
                    count as int,
                ),
            },
    {
        broadcast use group_cards;

        let hand_and_skat = self.hand(bidding_winner).or(self.skat);

        let mut trumps = Cards::of_trump(game_type);
        let ghost all_trumps = trumps;
        proof {
            if game_type != GameType::Null {
                lemma_trumps_of_places(game_type, 0);
                assert(trumps.spec_contains(Card::EU));
            }
        }
        let Some(highest_trump) = trumps.remove_highest_non_null() else {
            return None;
        };
        proof {
            lemma_places_of_trumps(game_type, highest_trump, Card::EU);
            all_trumps.lemma_highest(Card::EU);
        }

        let count_with = hand_and_skat.contains(highest_trump);

        let mut result: u8 = 1;
        loop
            invariant_except_break
                forall|card: Card|
                    trumps.spec_contains(card) <==> card.is_trump(game_type) && result
                        <= place_from_top(game_type, card),
            invariant
                game_type != GameType::Null,
                count_with == hand_and_skat.spec_contains(Card::EU),
                1 <= result <= number_of_trumps(game_type),
                forall|place: int|
                    0 <= place < result ==> hand_and_skat.spec_contains(
                        #[trigger] top_trump(game_type, place),
                    ) == count_with,
            ensures
                is_matadors(hand_and_skat, game_type, result as int),
            decreases number_of_trumps(game_type) - result,
        {
            let ghost before = trumps;
            proof {
                if result < number_of_trumps(game_type) {
                    lemma_trumps_of_places(game_type, result as int);
                    assert(trumps.spec_contains(top_trump(game_type, result as int)));
                }
            }
            match trumps.remove_highest_non_null() {
                None => {
                    proof {
                        broadcast use group_cards;

                        before.lemma_is_empty();
                        assert(result == number_of_trumps(game_type));
                    }
                    break ;
                },
                Some(next_lower_trump) => {
                    proof {
                        broadcast use group_cards;

                        let expected = top_trump(game_type, result as int);
                        if result >= number_of_trumps(game_type) {
                            lemma_places_of_trumps(game_type, next_lower_trump, next_lower_trump);
                        }
                        lemma_places_of_trumps(game_type, next_lower_trump, expected);
                        before.lemma_highest(expected);
                        assert(next_lower_trump == expected);
                        lemma_trumps_of_places(game_type, result as int);
                        assert forall|card: Card|
                            trumps.spec_contains(card) <==> card.is_trump(game_type) && result
                                + 1 <= place_from_top(game_type, card) by {
                            before.lemma_without(Cards::spec_just(next_lower_trump), card);
                            Cards::lemma_just(next_lower_trump, card);
                            if card.is_trump(game_type) {
                                lemma_places_of_trumps(game_type, card, expected);
                            }
                        }
                    }
                    if count_with != hand_and_skat.contains(next_lower_trump) {
                        break ;
                    }
                    result += 1;
                },
            }
        }
        Some(result)
    }
}

impl Deck {
    /// Who gets the card at a place of the deck, and nobody for the skat:
    /// three cards each, the skat, four cards each, three cards each.
    pub open spec fn dealt_to(place: int) -> Option<BiddingRole> {
        if place < 3 || 11 <= place < 15 || 23 <= place < 26 {
            Some(BiddingRole::FirstReceiver)
        } else if 3 <= place < 6 || 15 <= place < 19 || 26 <= place < 29 {
            Some(BiddingRole::FirstCaller)
        } else if 9 <= place < 11 {
            None
        } else {
            Some(BiddingRole::SecondCaller)
        }
    }

    /// The cards at the places from `from` up to, not including, `to`.
    fn cards_between(&self, from: usize, to: usize) -> (r: Cards)
        requires
            self.wf(),
            from <= to <= 32,
        ensures
            forall|card: Card|
                r.spec_contains(card) <==> exists|place: int|
                    from <= place < to && #[trigger] self@[place] == card,
            r.spec_len() == to - from,
    {
        let mut result = Cards::empty();
        let mut place = from;
        proof {
            broadcast use group_cards;

            Cards::lemma_measure_constants();
        }
        while place < to
            invariant
                self.wf(),
                from <= place <= to <= 32,
                forall|card: Card|
                    result.spec_contains(card) <==> exists|k: int|
                        from <= k < place && #[trigger] self@[k] == card,
                result.spec_len() == place - from,
            decreases to - place,
        {
            let card = self.card(place);
            let ghost before = result;
            proof {
                broadcast use group_cards;

                if before.spec_contains(card) {
                    let k = choose|k: int| from <= k < place && #[trigger] self@[k] == card;
                    assert(self@[k] == self@[place as int]);
                }
                before.lemma_measure_add(card);
            }
            result.add_new(card);
            proof {
                broadcast use group_cards;

                assert forall|c: Card|
                    result.spec_contains(c) <==> exists|k: int|
                        from <= k < place + 1 && #[trigger] self@[k] == c by {
                    if before.spec_contains(c) {
                        let k = choose|k: int| from <= k < place && #[trigger] self@[k] == c;
                        assert(from <= k < place + 1 && self@[k] == c);
                    }
                    if c == card {
                        assert(self@[place as int] == c);
                    }
                    if exists|k: int| from <= k < place + 1 && #[trigger] self@[k] == c {
                        let k = choose|k: int| from <= k < place + 1 && #[trigger] self@[k] == c;
                        if k < place {
                            assert(from <= k < place && self@[k] == c);
                        }
                    }
                }
            }
            place += 1;
        }
        result
    }

    /// Deals the cards: three to each seat, two to the skat, four to each seat,
    /// three to each seat, the first receiver always first.
    pub fn deal(&self) -> (r: Deal)
        requires
            self.wf(),
        ensures
            r.wf(),
            forall|place: int|
                0 <= place < 32 ==> match Deck::dealt_to(place) {
                    Some(seat) => r.spec_hand(seat).spec_contains(#[trigger] self@[place]),
                    None => r.spec_skat().spec_contains(self@[place]),
                },
    {
        proof {
            broadcast use group_cards;

        }
        let first_receiver = self.cards_between(0, 3).combined_with_disjoint(
            self.cards_between(11, 15),
        ).combined_with_disjoint(self.cards_between(23, 26));
        let first_caller = self.cards_between(3, 6).combined_with_disjoint(
            self.cards_between(15, 19),
        ).combined_with_disjoint(self.cards_between(26, 29));
        let second_caller = self.cards_between(6, 9).combined_with_disjoint(
            self.cards_between(19, 23),
        ).combined_with_disjoint(self.cards_between(29, 32));
        let skat = self.cards_between(9, 11);

        Deal { first_receiver, first_caller, second_caller, skat }
    }
}

} // verus!
