use vstd::prelude::*;
use crate::card::Card;
use crate::cards::Cards;
use crate::trick::Trick;

verus! {

/// The cards that lie on the table: none, one or two, in the order in which
/// they were played, and all different.
#[derive(Clone, Copy, Debug, PartialEq, Eq, Hash, Structural)]
pub struct PartialTrick(PartialTrickImpl);

#[derive(Clone, Copy, Debug, PartialEq, Eq, Hash, Structural)]
enum PartialTrickImpl {
    Empty,
    OneCard(Card),
    TwoCards { first: Card, second: Card },
}

impl View for PartialTrick {
    type V = Seq<Card>;

    /// The cards on the table in the order in which they were played.
    closed spec fn view(&self) -> Seq<Card> {
        match self.0 {
            PartialTrickImpl::Empty => seq![],
            PartialTrickImpl::OneCard(card) => seq![card],
            PartialTrickImpl::TwoCards { first, second } => seq![first, second],
        }
    }
}

impl PartialTrick {
    /// At most two cards, and no card twice.
    pub open spec fn wf(self) -> bool {
        &&& self@.len() <= 2
        &&& self@.len() == 2 ==> self@[0] != self@[1]
    }

    pub closed spec fn spec_empty() -> PartialTrick {
        PartialTrick(PartialTrickImpl::Empty)
    }

    /// No card on the table.
    #[verifier::when_used_as_spec(spec_empty)]
    pub fn empty() -> (r: PartialTrick)
        ensures
            r == PartialTrick::spec_empty(),
            r@ == Seq::<Card>::empty(),
            r.wf(),
    {
        PartialTrick(PartialTrickImpl::Empty)
    }

    /// A partial trick is given by the cards on the table.
    pub proof fn lemma_ext(self, other: PartialTrick)
        requires
            self@ == other@,
        ensures
            self == other,
    {
        match self.0 {
            PartialTrickImpl::Empty => {
                assert(self@.len() == 0);
            },
            PartialTrickImpl::OneCard(a) => {
                assert(self@.len() == 1 && self@[0] == a);
            },
            PartialTrickImpl::TwoCards { first, second } => {
                assert(self@.len() == 2 && self@[0] == first && self@[1] == second);
            },
        }
        match other.0 {
            PartialTrickImpl::Empty => {
                assert(other@.len() == 0);
            },
            PartialTrickImpl::OneCard(a) => {
                assert(other@.len() == 1 && other@[0] == a);
            },
            PartialTrickImpl::TwoCards { first, second } => {
                assert(other@.len() == 2 && other@[0] == first && other@[1] == second);
            },
        }
    }

    pub broadcast proof fn lemma_len(self)
        ensures
            #[trigger] self@.len() <= 2,
            (self@.len() == 0) == (self == PartialTrick::spec_empty()),
            PartialTrick::spec_empty()@.len() == 0,
    {
    }

    pub open spec fn spec_first(self) -> Option<Card> {
        if self@.len() > 0 {
            Some(self@[0])
        } else {
            None
        }
    }

    /// The card that was led, if one was.
    #[verifier::when_used_as_spec(spec_first)]
    pub fn first(self) -> (r: Option<Card>)
        ensures
            r == self.spec_first(),
    {
        match self.0 {
            PartialTrickImpl::Empty => None,
            PartialTrickImpl::OneCard(card) => Some(card),
            PartialTrickImpl::TwoCards { first, second: _ } => Some(first),
        }
    }

    pub open spec fn spec_second(self) -> Option<Card> {
        if self@.len() > 1 {
            Some(self@[1])
        } else {
            None
        }
    }

    /// The card that was played second, if one was.
    #[verifier::when_used_as_spec(spec_second)]
    pub fn second(self) -> (r: Option<Card>)
        ensures
            r == self.spec_second(),
    {
        match self.0 {
            PartialTrickImpl::Empty | PartialTrickImpl::OneCard(_) => None,
            PartialTrickImpl::TwoCards { first: _, second } => Some(second),
        }
    }

    pub open spec fn spec_is_in_progress(self) -> bool {
        self@.len() > 0
    }

    /// Whether a card lies on the table.
    #[verifier::when_used_as_spec(spec_is_in_progress)]
    pub fn is_in_progress(self) -> (r: bool)
        ensures
            r == self.spec_is_in_progress(),
    {
        match self.0 {
            PartialTrickImpl::Empty => false,
            PartialTrickImpl::OneCard(_) | PartialTrickImpl::TwoCards { first: _, second: _ } => true,
        }
    }

    /// The table after one more card: the third card clears it.
    pub closed spec fn spec_with(self, card: Card) -> PartialTrick {
        match self.0 {
            PartialTrickImpl::Empty => PartialTrick(PartialTrickImpl::OneCard(card)),
            PartialTrickImpl::OneCard(first) => PartialTrick(
                PartialTrickImpl::TwoCards { first, second: card },
            ),
            PartialTrickImpl::TwoCards { first, second } => PartialTrick(PartialTrickImpl::Empty),
        }
    }

    pub broadcast proof fn lemma_with(self, card: Card)
        ensures
            (#[trigger] self.spec_with(card))@ == if self@.len() < 2 {
                self@.push(card)
            } else {
                Seq::<Card>::empty()
            },
    {
        match self.0 {
            PartialTrickImpl::Empty => {
                assert(self.spec_with(card)@ =~= self@.push(card));
            },
            PartialTrickImpl::OneCard(first) => {
                assert(self.spec_with(card)@ =~= self@.push(card));
            },
            PartialTrickImpl::TwoCards { first, second } => {},
        }
    }

    /// Puts a card on the table. The third card completes the trick: the trick is
    /// returned and the table is empty again.
    pub fn add(&mut self, card: Card) -> (r: Option<Trick>)
        requires
            old(self).wf(),
            !old(self)@.contains(card),
        ensures
            final(self).wf(),
            *final(self) == old(self).spec_with(card),
            match r {
                None => old(self)@.len() < 2 && final(self)@ == old(self)@.push(card),
                Some(trick) => {
                    &&& old(self)@.len() == 2
                    &&& final(self)@ == Seq::<Card>::empty()
                    &&& trick.wf()
                    &&& trick == Trick::spec_new(old(self)@[0], old(self)@[1], card)
                    &&& trick.spec_first() == old(self)@[0]
                    &&& trick.spec_second() == old(self)@[1]
                    &&& trick.spec_third() == card
                },
            },
    {
        match self.0 {
            PartialTrickImpl::Empty => {
                self.0 = PartialTrickImpl::OneCard(card);
                None
            },
            PartialTrickImpl::OneCard(first) => {
                proof {
                    assert(old(self)@[0] == first);
                }
                self.0 = PartialTrickImpl::TwoCards { first, second: card };
                None
            },
            PartialTrickImpl::TwoCards { first, second } => {
                proof {
                    assert(old(self)@[0] == first);
                    assert(old(self)@[1] == second);
                }
                self.0 = PartialTrickImpl::Empty;
                Some(Trick::new(first, second, card))
            },
        }
    }

    /// The cards on the table as a set.
    pub closed spec fn spec_cards(self) -> Cards {
        match self.0 {
            PartialTrickImpl::Empty => Cards::spec_empty(),
            PartialTrickImpl::OneCard(card) => Cards::spec_just(card),
            PartialTrickImpl::TwoCards { first, second } => Cards::spec_just(first).spec_or(
                Cards::spec_just(second),
            ),
        }
    }

    /// The set of the cards on the table holds the cards on the table, and as
    /// many as there are.
    pub broadcast proof fn lemma_cards(self, card: Card)
        ensures
            #[trigger] self.spec_cards().spec_contains(card) == self@.contains(card),
    {
        Cards::lemma_empty(card);
        match self.0 {
            PartialTrickImpl::Empty => {},
            PartialTrickImpl::OneCard(c) => {
                Cards::lemma_just(c, card);
                if c == card {
                    assert(self@[0] == card);
                }
            },
            PartialTrickImpl::TwoCards { first, second } => {
                Cards::lemma_just(first, card);
                Cards::lemma_just(second, card);
                Cards::lemma_or(Cards::spec_just(first), Cards::spec_just(second), card);
                if first == card {
                    assert(self@[0] == card);
                }
                if second == card {
                    assert(self@[1] == card);
                }
            },
        }
    }

    pub proof fn lemma_cards_measure(self)
        requires
            self.wf(),
        ensures
            self.spec_cards().spec_len() == self@.len(),
            self@.len() == 0 ==> self.spec_cards().spec_to_points() == 0,
            self@.len() == 1 ==> self.spec_cards().spec_to_points() == self@[0].spec_to_points().0,
            self@.len() == 2 ==> self.spec_cards().spec_to_points() == self@[0].spec_to_points().0
                + self@[1].spec_to_points().0,
    {
        Cards::lemma_measure_constants();
        match self.0 {
            PartialTrickImpl::Empty => {},
            PartialTrickImpl::OneCard(c) => {
                Cards::lemma_measure_just(c);
            },
            PartialTrickImpl::TwoCards { first, second } => {
                assert(self@[0] == first && self@[1] == second);
                Cards::lemma_measure_just(first);
                Cards::lemma_just(first, second);
                Cards::spec_just(first).lemma_measure_add(second);
            },
        }
    }

    #[verifier::when_used_as_spec(spec_cards)]
    pub fn cards(self) -> (r: Cards)
        ensures
            r == self.spec_cards(),
    {
        match self.0 {
            PartialTrickImpl::Empty => Cards::empty(),
            PartialTrickImpl::OneCard(card) => Cards::just(card),
            PartialTrickImpl::TwoCards { first, second } => Cards::just(first).or(
                Cards::just(second),
            ),
        }
    }

    /// Whether the card lies on the table.
    pub fn contains(self, card: Card) -> (r: bool)
        ensures
            r == self@.contains(card),
    {
        proof {
            self.lemma_cards(card);
        }
        self.cards().contains(card)
    }

    /// How many cards lie on the table.
    pub fn number_of_cards(self) -> (r: u8)
        ensures
            r == self@.len(),
            r <= 2,
    {
        match self.0 {
            PartialTrickImpl::Empty => 0,
            PartialTrickImpl::OneCard(_) => 1,
            PartialTrickImpl::TwoCards { first: _, second: _ } => 2,
        }
    }
}

} // verus!
