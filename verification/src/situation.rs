use vstd::prelude::*;
use crate::bidding_role::BiddingRole;
use crate::card::Card;
use crate::card_points::CardPoints;
use crate::cards::{group_cards, Cards};
use crate::deal::Deal;
use crate::game_type::GameType;
use crate::minimax_role::MinimaxRole;
use crate::partial_trick::PartialTrick;
use crate::position::Position;
use crate::role::Role;
use crate::trick::Trick;
use crate::trick_yield::{TrickYield, YieldSoFar};

verus! {

/// A position with all cards open: the three hands, the cards on the table and
/// whose turn it is. What has been played before, the game's type and the
/// declarer's yield so far are not part of it.
///
/// A position of a game is well formed (`wf`): no card is in two places, and
/// every player has the same number of cards when the cards on the table are
/// counted for those who played them.
#[derive(Clone, Copy, Debug, PartialEq, Eq, Hash, Structural)]
pub struct OpenSituation {
    hand_declarer: Cards,
    hand_first_defender: Cards,
    hand_second_defender: Cards,
    partial_trick: PartialTrick,
    active_role: Role,
}

impl OpenSituation {
    // ----- what a position is -----

    pub closed spec fn spec_hand_cards_of(&self, role: Role) -> Cards {
        match role {
            Role::Declarer => self.hand_declarer,
            Role::FirstDefender => self.hand_first_defender,
            Role::SecondDefender => self.hand_second_defender,
        }
    }

    pub closed spec fn spec_partial_trick(self) -> PartialTrick {
        self.partial_trick
    }

    pub closed spec fn spec_active_role(self) -> Role {
        self.active_role
    }

    /// The position with the given hands, table and player to move.
    pub closed spec fn spec_new(
        hand_declarer: Cards,
        hand_first_defender: Cards,
        hand_second_defender: Cards,
        partial_trick: PartialTrick,
        active_role: Role,
    ) -> OpenSituation {
        OpenSituation {
            hand_declarer,
            hand_first_defender,
            hand_second_defender,
            partial_trick,
            active_role,
        }
    }

    pub broadcast proof fn lemma_new(
        hand_declarer: Cards,
        hand_first_defender: Cards,
        hand_second_defender: Cards,
        partial_trick: PartialTrick,
        active_role: Role,
    )
        ensures
            ({
                let situation = #[trigger] OpenSituation::spec_new(
                    hand_declarer,
                    hand_first_defender,
                    hand_second_defender,
                    partial_trick,
                    active_role,
                );
                &&& situation.spec_hand_cards_of(Role::Declarer) == hand_declarer
                &&& situation.spec_hand_cards_of(Role::FirstDefender) == hand_first_defender
                &&& situation.spec_hand_cards_of(Role::SecondDefender) == hand_second_defender
                &&& situation.spec_partial_trick() == partial_trick
                &&& situation.spec_active_role() == active_role
            }),
    {
    }

    /// A position is given by its hands, its table and its player to move.
    pub proof fn lemma_ext(self, other: OpenSituation)
        requires
            self.spec_hand_cards_of(Role::Declarer) == other.spec_hand_cards_of(Role::Declarer),
            self.spec_hand_cards_of(Role::FirstDefender) == other.spec_hand_cards_of(
                Role::FirstDefender,
            ),
            self.spec_hand_cards_of(Role::SecondDefender) == other.spec_hand_cards_of(
                Role::SecondDefender,
            ),
            self.spec_partial_trick() == other.spec_partial_trick(),
            self.spec_active_role() == other.spec_active_role(),
        ensures
            self == other,
    {
    }

    /// How many cards of those on the table a player has played: the one before
    /// the player to move has played the last of them, the one after him the other
    /// if there are two.
    pub open spec fn on_table(self, role: Role) -> nat {
        let cards = self.spec_partial_trick()@.len();
        let active = self.spec_active_role();
        if cards == 1 && role == active.spec_next().spec_next() {
            1
        } else if cards == 2 && role != active {
            1
        } else {
            0
        }
    }

    /// No card is in two places.
    pub open spec fn disjoint(self) -> bool {
        let declarer = self.spec_hand_cards_of(Role::Declarer);
        let first = self.spec_hand_cards_of(Role::FirstDefender);
        let second = self.spec_hand_cards_of(Role::SecondDefender);
        let table = self.spec_partial_trick().spec_cards();
        &&& declarer.disjoint(first)
        &&& declarer.disjoint(second)
        &&& first.disjoint(second)
        &&& declarer.disjoint(table)
        &&& first.disjoint(table)
        &&& second.disjoint(table)
    }

    /// The cards that each player has, those on the table counted for those who
    /// played them.
    pub open spec fn cards_per_player(self) -> nat {
        self.spec_hand_cards_of(self.spec_active_role()).spec_len()
    }

    /// The position is one of a game: the table holds at most two cards, all
    /// different; no card is in two places; and each player has as many cards as
    /// the player to move when the cards on the table are counted for those who
    /// played them.
    pub open spec fn wf(self) -> bool {
        &&& self.spec_partial_trick().wf()
        &&& self.disjoint()
        &&& self.spec_hand_cards_of(Role::Declarer).spec_len() + self.on_table(Role::Declarer)
            == self.cards_per_player()
        &&& self.spec_hand_cards_of(Role::FirstDefender).spec_len() + self.on_table(
            Role::FirstDefender,
        ) == self.cards_per_player()
        &&& self.spec_hand_cards_of(Role::SecondDefender).spec_len() + self.on_table(
            Role::SecondDefender,
        ) == self.cards_per_player()
    }

    pub open spec fn spec_is_trick_in_progress(self) -> bool {
        self.spec_partial_trick().spec_is_in_progress()
    }

    pub open spec fn spec_remaining_cards_in_hands(self) -> Cards {
        self.spec_hand_cards_of(Role::Declarer).spec_or(
            self.spec_hand_cards_of(Role::FirstDefender),
        ).spec_or(self.spec_hand_cards_of(Role::SecondDefender))
    }

    /// The cards that lie face down: the skat and the tricks that are done.
    pub open spec fn spec_cellar(self) -> Cards {
        Cards::spec_all().spec_without(self.spec_remaining_cards_in_hands()).spec_without(
            self.spec_partial_trick().spec_cards(),
        )
    }

    pub open spec fn spec_is_initial_situation(self) -> bool {
        self.spec_cellar().spec_len() == 2 && self.spec_partial_trick()
            == PartialTrick::spec_empty()
    }

    pub open spec fn spec_maybe_first_trick_card(self) -> Option<Card> {
        self.spec_partial_trick().spec_first()
    }

    pub open spec fn spec_active_minimax_role(self, game_type: GameType) -> MinimaxRole {
        MinimaxRole::spec_of(self.spec_active_role(), game_type)
    }

    /// The cards that the player to move may play.
    pub open spec fn spec_next_possible_plays(self, game_type: GameType) -> Cards {
        self.spec_hand_cards_of(self.spec_active_role()).spec_possible_plays(
            self.spec_partial_trick().spec_first(),
            game_type,
        )
    }

    pub open spec fn spec_in_hand_or_yielded(&self) -> Cards {
        self.spec_hand_cards_of(self.spec_active_role()).spec_or(self.spec_cellar())
    }

    /// The trick that `card` completes, for a table with two cards.
    pub open spec fn completed_trick(self, card: Card) -> Trick {
        Trick::spec_new(self.spec_partial_trick()@[0], self.spec_partial_trick()@[1], card)
    }

    /// Whose turn it is after `card`: the next player's, or, if the card completes
    /// a trick, the turn of the trick's winner, counted from the player who led.
    pub open spec fn role_after(self, card: Card, game_type: GameType) -> Role {
        let next = self.spec_active_role().spec_next();
        if self.spec_partial_trick()@.len() < 2 {
            next
        } else {
            match self.completed_trick(card).spec_winner_position(game_type) {
                Position::Forehand => next,
                Position::Middlehand => next.spec_next(),
                Position::Rearhand => next.spec_next().spec_next(),
            }
        }
    }

    /// What the declarer gets for `card`: the points of the trick and one trick
    /// if the card completes a trick that the declarer wins, else nothing.
    pub open spec fn yield_of(self, card: Card, game_type: GameType) -> TrickYield {
        if self.spec_partial_trick()@.len() == 2 && self.role_after(card, game_type)
            == Role::Declarer {
            TrickYield {
                card_points: CardPoints(self.completed_trick(card).spec_to_points() as u8),
                number_of_tricks: 1,
            }
        } else {
            TrickYield::spec_zero_tricks()
        }
    }

    /// The position after the player to move has played `card`.
    pub closed spec fn spec_play_card(self, card: Card, game_type: GameType) -> OpenSituation {
        let just = Cards::spec_just(card);
        OpenSituation {
            hand_declarer: if self.active_role == Role::Declarer {
                self.hand_declarer.spec_without(just)
            } else {
                self.hand_declarer
            },
            hand_first_defender: if self.active_role == Role::FirstDefender {
                self.hand_first_defender.spec_without(just)
            } else {
                self.hand_first_defender
            },
            hand_second_defender: if self.active_role == Role::SecondDefender {
                self.hand_second_defender.spec_without(just)
            } else {
                self.hand_second_defender
            },
            partial_trick: self.partial_trick.spec_with(card),
            active_role: self.role_after(card, game_type),
        }
    }

    /// What playing a card does: the card leaves the hand of the player who was to
    /// move and goes on the table, the third card clears the table, and the turn
    /// passes on as `role_after` says.
    pub broadcast proof fn lemma_play_card(self, card: Card, game_type: GameType)
        ensures
            ({
                let child = #[trigger] self.spec_play_card(card, game_type);
                &&& forall|role: Role|
                    #![trigger child.spec_hand_cards_of(role)]
                    child.spec_hand_cards_of(role) == if role == self.spec_active_role() {
                        self.spec_hand_cards_of(role).spec_without(Cards::spec_just(card))
                    } else {
                        self.spec_hand_cards_of(role)
                    }
                &&& child.spec_partial_trick() == self.spec_partial_trick().spec_with(card)
                &&& child.spec_active_role() == self.role_after(card, game_type)
            }),
    {
    }

    // ----- what holds of the positions of a game -----

    /// In a position of a game the cards in the hands, on the table and in the
    /// cellar are the 32 cards of the deck, each in one place, and their points
    /// are the 120 points of the deck. The cellar holds the skat and whole tricks,
    /// and nobody has more than ten cards.
    pub proof fn lemma_all_cards_accounted_for(self)
        requires
            self.wf(),
        ensures
            self.spec_hand_cards_of(Role::Declarer).spec_len() + self.spec_hand_cards_of(
                Role::FirstDefender,
            ).spec_len() + self.spec_hand_cards_of(Role::SecondDefender).spec_len()
                + self.spec_partial_trick()@.len() + self.spec_cellar().spec_len() == 32,
            self.spec_hand_cards_of(Role::Declarer).spec_to_points() + self.spec_hand_cards_of(
                Role::FirstDefender,
            ).spec_to_points() + self.spec_hand_cards_of(Role::SecondDefender).spec_to_points()
                + self.spec_partial_trick().spec_cards().spec_to_points()
                + self.spec_cellar().spec_to_points() == 120,
            self.spec_remaining_cards_in_hands().spec_len() == self.spec_hand_cards_of(
                Role::Declarer,
            ).spec_len() + self.spec_hand_cards_of(Role::FirstDefender).spec_len()
                + self.spec_hand_cards_of(Role::SecondDefender).spec_len(),
            self.spec_cellar().spec_len() + 3 * self.cards_per_player() == 32,
            self.spec_cellar().spec_len() % 3 == 2,
            self.cards_per_player() <= 10,
    {
        broadcast use group_cards;

        let d = self.spec_hand_cards_of(Role::Declarer);
        let f = self.spec_hand_cards_of(Role::FirstDefender);
        let s = self.spec_hand_cards_of(Role::SecondDefender);
        let t = self.spec_partial_trick().spec_cards();
        let df = d.spec_or(f);
        let hands = df.spec_or(s);
        let all = Cards::spec_all();
        self.spec_partial_trick().lemma_cards_measure();
        Cards::lemma_measure_constants();
        d.lemma_measure_or(f);
        df.lemma_measure_or(s);
        assert(d.spec_and(f) == Cards::spec_empty());
        assert(df.spec_and(s).spec_is_empty());
        assert(df.spec_and(s) == Cards::spec_empty());
        all.lemma_measure_without(hands);
        assert(all.spec_and(hands) == hands) by {
            assert forall|c: Card| all.spec_and(hands).spec_contains(c) == hands.spec_contains(
                c,
            ) by {}
            all.spec_and(hands).lemma_ext(hands);
        }
        let rest = all.spec_without(hands);
        rest.lemma_measure_without(t);
        assert(rest.spec_and(t) == t) by {
            assert forall|c: Card| rest.spec_and(t).spec_contains(c) == t.spec_contains(c) by {}
            rest.spec_and(t).lemma_ext(t);
        }
    }

    /// The positions of a game stay positions of a game: playing a card that
    /// may be played gives a well-formed position again, with one card less in
    /// the hands.
    pub proof fn lemma_play_card_keeps_wf(self, card: Card, game_type: GameType)
        requires
            self.wf(),
            self.spec_next_possible_plays(game_type).spec_contains(card),
        ensures
            self.spec_play_card(card, game_type).wf(),
            self.spec_hand_cards_of(self.spec_active_role()).spec_contains(card),
            self.spec_play_card(card, game_type).spec_remaining_cards_in_hands().spec_len() + 1
                == self.spec_remaining_cards_in_hands().spec_len(),
            self.spec_play_card(card, game_type).spec_remaining_cards_in_hands()
                == self.spec_remaining_cards_in_hands().spec_without(Cards::spec_just(card)),
    {
        broadcast use group_cards;
        broadcast use PartialTrick::lemma_cards;
        broadcast use PartialTrick::lemma_with;

        let child = self.spec_play_card(card, game_type);
        self.lemma_play_card(card, game_type);
        let active = self.spec_active_role();
        let hand = self.spec_hand_cards_of(active);
        assert(hand.spec_contains(card));
        hand.lemma_measure_remove(card);
        let table = self.spec_partial_trick();
        let new_table = child.spec_partial_trick();
        assert(!table@.contains(card)) by {
            assert(!table.spec_cards().spec_contains(card));
        }
        assert(new_table.wf()) by {
            if table@.len() == 1 {
                assert(table@.contains(table@[0]));
            }
        }
        assert forall|c: Card| #[trigger]
            new_table.spec_cards().spec_contains(c) implies c == card
            || table.spec_cards().spec_contains(c) by {
            if table@.len() < 2 {
                let k = choose|k: int| 0 <= k < new_table@.len() && new_table@[k] == c;
                if k < table@.len() {
                    assert(table@[k] == c);
                    assert(table@.contains(c));
                }
            }
        }
        assert(child.spec_hand_cards_of(Role::Declarer).subset_of(
            self.spec_hand_cards_of(Role::Declarer),
        ));
        assert(child.spec_hand_cards_of(Role::FirstDefender).subset_of(
            self.spec_hand_cards_of(Role::FirstDefender),
        ));
        assert(child.spec_hand_cards_of(Role::SecondDefender).subset_of(
            self.spec_hand_cards_of(Role::SecondDefender),
        ));
        assert(child.disjoint());
        active.lemma_next_cycles();
        active.spec_next().lemma_next_cycles();
        let old_hands = self.spec_remaining_cards_in_hands();
        let new_hands = child.spec_remaining_cards_in_hands();
        assert(new_hands == old_hands.spec_without(Cards::spec_just(card))) by {
            assert forall|c: Card|
                new_hands.spec_contains(c) == old_hands.spec_without(
                    Cards::spec_just(card),
                ).spec_contains(c) by {}
            new_hands.lemma_ext(old_hands.spec_without(Cards::spec_just(card)));
        }
        old_hands.lemma_measure_remove(card);
    }

    /// What may be played is in the hand of the player to move.
    pub proof fn lemma_possible_plays_are_in_hand(self, game_type: GameType)
        ensures
            self.spec_next_possible_plays(game_type).subset_of(
                self.spec_hand_cards_of(self.spec_active_role()),
            ),
            self.spec_next_possible_plays(game_type).subset_of(
                self.spec_remaining_cards_in_hands(),
            ),
            self.spec_next_possible_plays(game_type).subset_of(self.spec_in_hand_or_yielded()),
    {
        broadcast use group_cards;

    }

    // ----- reading a position -----

    #[verifier::when_used_as_spec(spec_is_trick_in_progress)]
    pub fn is_trick_in_progress(self) -> (r: bool)
        ensures
            r == self.spec_is_trick_in_progress(),
    {
        self.partial_trick.is_in_progress()
    }

    /// Whether no card has been played yet: the cellar holds the skat only, and
    /// the table is empty.
    #[verifier::when_used_as_spec(spec_is_initial_situation)]
    pub fn is_initial_situation(self) -> (r: bool)
        ensures
            r == self.spec_is_initial_situation(),
    {
        proof {
            self.partial_trick.lemma_len();
        }
        self.cellar().len() == 2 && !self.partial_trick.is_in_progress()
    }

    #[verifier::when_used_as_spec(spec_maybe_first_trick_card)]
    pub fn maybe_first_trick_card(self) -> (r: Option<Card>)
        ensures
            r == self.spec_maybe_first_trick_card(),
    {
        self.partial_trick.first()
    }

    #[verifier::when_used_as_spec(spec_active_role)]
    pub fn active_role(self) -> (r: Role)
        ensures
            r == self.spec_active_role(),
    {
        self.active_role
    }

    #[verifier::when_used_as_spec(spec_partial_trick)]
    pub fn partial_trick(self) -> (r: PartialTrick)
        ensures
            r == self.spec_partial_trick(),
    {
        self.partial_trick
    }

    #[verifier::when_used_as_spec(spec_active_minimax_role)]
    pub fn active_minimax_role(self, game_type: GameType) -> (r: MinimaxRole)
        ensures
            r == self.spec_active_minimax_role(game_type),
    {
        MinimaxRole::of(self.active_role(), game_type)
    }

    /// The legal moves of the player to move.
    #[verifier::when_used_as_spec(spec_next_possible_plays)]
    pub fn next_possible_plays(self, game_type: GameType) -> (r: Cards)
        ensures
            r == self.spec_next_possible_plays(game_type),
    {
        let hand_cards = *self.active_hand_cards();

        hand_cards.possible_plays(self.partial_trick.first(), game_type)
    }

    pub fn hand_cards_of(&self, role: Role) -> (r: &Cards)
        ensures
            *r == self.spec_hand_cards_of(role),
    {
        match role {
            Role::Declarer => &self.hand_declarer,
            Role::FirstDefender => &self.hand_first_defender,
            Role::SecondDefender => &self.hand_second_defender,
        }
    }

    fn active_hand_cards(&self) -> (r: &Cards)
        ensures
            *r == self.spec_hand_cards_of(self.spec_active_role()),
    {
        self.hand_cards_of(self.active_role)
    }

    /// Plays a card for the player to move, and returns what the declarer gets
    /// for it: the trick's points and one trick if the card completes a trick
    /// that the declarer wins, else nothing.
    #[must_use]
    pub fn play_card(&mut self, card: Card, game_type: GameType) -> (r: TrickYield)
        requires
            old(self).wf(),
            old(self).spec_next_possible_plays(game_type).spec_contains(card),
        ensures
            *final(self) == old(self).spec_play_card(card, game_type),
            r == old(self).yield_of(card, game_type),
            final(self).wf(),
            final(self).spec_remaining_cards_in_hands().spec_len() + 1 == old(
                self,
            ).spec_remaining_cards_in_hands().spec_len(),
    {
        proof {
            broadcast use group_cards;
            broadcast use PartialTrick::lemma_cards;

            self.lemma_play_card_keeps_wf(card, game_type);
            self.lemma_play_card(card, game_type);
            assert(!self.spec_partial_trick()@.contains(card)) by {
                assert(!self.spec_partial_trick().spec_cards().spec_contains(card));
            }
        }
        let active = self.active_role;
        match active {
            Role::Declarer => self.hand_declarer.remove_existing(card),
            Role::FirstDefender => self.hand_first_defender.remove_existing(card),
            Role::SecondDefender => self.hand_second_defender.remove_existing(card),
        }

        self.active_role = self.active_role.next();

        let Some(trick) = self.partial_trick.add(card) else {
            return TrickYield::zero_tricks();
        };

        let position = trick.winner_position(game_type);

        // The player to move is now the one who led the trick.
        match position {
            Position::Forehand => {},
            Position::Middlehand => self.active_role = self.active_role.next(),
            Position::Rearhand => self.active_role = self.active_role.next().next(),
        }

        if matches!(self.active_role, Role::Declarer) {
            TrickYield::from_trick(trick)
        } else {
            TrickYield::zero_tricks()
        }
    }

    #[verifier::when_used_as_spec(spec_remaining_cards_in_hands)]
    pub fn remaining_cards_in_hands(self) -> (r: Cards)
        ensures
            r == self.spec_remaining_cards_in_hands(),
    {
        self.hand_declarer.or(self.hand_first_defender).or(self.hand_second_defender)
    }

    /// Everything that lies face down.
    #[verifier::when_used_as_spec(spec_cellar)]
    pub fn cellar(self) -> (r: Cards)
        ensures
            r == self.spec_cellar(),
    {
        Cards::all().without(self.remaining_cards_in_hands()).without(self.partial_trick.cards())
    }

    pub open spec fn spec_initial(deal: Deal, bidding_winner: BiddingRole) -> OpenSituation {
        OpenSituation::spec_new(
            deal.spec_hand(bidding_winner),
            deal.spec_hand(bidding_winner.spec_next()),
            deal.spec_hand(bidding_winner.spec_next().spec_next()),
            PartialTrick::spec_empty(),
            Role::spec_first_active(bidding_winner),
        )
    }

    /// The position before the first card: the winner of the bidding is the
    /// declarer, the seats after him are the defenders, and the first receiver
    /// leads.
    pub fn initial(deal: Deal, bidding_winner: BiddingRole) -> (r: OpenSituation)
        requires
            deal.wf(),
        ensures
            r == OpenSituation::spec_initial(deal, bidding_winner),
            r.wf(),
            r.spec_is_initial_situation(),
            r.spec_cellar() == deal.spec_skat(),
    {
        let hand_declarer = *deal.hand(bidding_winner);
        let hand_first_defender = *deal.hand(bidding_winner.next());
        let hand_second_defender = *deal.hand(bidding_winner.next().next());
        let partial_trick = PartialTrick::empty();
        let active_role = Role::first_active(bidding_winner);

        let result = OpenSituation {
            hand_declarer,
            hand_first_defender,
            hand_second_defender,
            partial_trick,
            active_role,
        };
        proof {
            broadcast use group_cards;
            broadcast use PartialTrick::lemma_cards;

            deal.lemma_whole_deal_is_the_deck();
            assert(result.wf());
            let cellar = result.spec_cellar();
            assert forall|c: Card| cellar.spec_contains(c) == deal.spec_skat().spec_contains(
                c,
            ) by {
                assert(deal.spec_cards().spec_contains(c));
            }
            cellar.lemma_ext(deal.spec_skat());
        }
        result
    }

    /// The points of the skat, which are the declarer's before the first card.
    pub fn yield_from_skat(self) -> (r: YieldSoFar)
        ensures
            r.card_points.0 == self.spec_cellar().spec_to_points(),
            r.number_of_tricks == 0,
    {
        YieldSoFar::new(self.cellar().to_points(), 0)
    }

    pub open spec fn spec_leaf(active_role: Role) -> OpenSituation {
        OpenSituation::spec_new(
            Cards::spec_empty(),
            Cards::spec_empty(),
            Cards::spec_empty(),
            PartialTrick::spec_empty(),
            active_role,
        )
    }

    /// The position after the last trick: nobody has a card left.
    #[verifier::when_used_as_spec(spec_leaf)]
    pub fn leaf(active_role: Role) -> (r: OpenSituation)
        ensures
            r == OpenSituation::spec_leaf(active_role),
    {
        OpenSituation {
            hand_declarer: Cards::empty(),
            hand_first_defender: Cards::empty(),
            hand_second_defender: Cards::empty(),
            partial_trick: PartialTrick::empty(),
            active_role,
        }
    }

    /// The cards that no other player holds or has put on the table: those of the
    /// player to move and those that lie face down.
    pub fn in_hand_or_yielded(&self) -> (r: Cards)
        ensures
            r == self.spec_in_hand_or_yielded(),
    {
        self.active_hand_cards().or(self.cellar())
    }
}

} // verus!

verus! {

impl OpenSituation {
    /// The position with the given hands, table and player to move. Whether it
    /// is a position of a game is not checked here: see `is_well_formed`.
    pub fn new(
        hand_declarer: Cards,
        hand_first_defender: Cards,
        hand_second_defender: Cards,
        partial_trick: PartialTrick,
        active_role: Role,
    ) -> (r: OpenSituation)
        ensures
            r == OpenSituation::spec_new(
                hand_declarer,
                hand_first_defender,
                hand_second_defender,
                partial_trick,
                active_role,
            ),
    {
        OpenSituation {
            hand_declarer,
            hand_first_defender,
            hand_second_defender,
            partial_trick,
            active_role,
        }
    }

    /// Whether the position is one of a game.
    pub fn is_well_formed(self) -> (r: bool)
        requires
            self.spec_partial_trick().wf(),
        ensures
            r == self.wf(),
    {
        let table = self.partial_trick.cards();
        let disjoint = !self.hand_declarer.overlaps(self.hand_first_defender)
            && !self.hand_declarer.overlaps(self.hand_second_defender)
            && !self.hand_first_defender.overlaps(self.hand_second_defender)
            && !self.hand_declarer.overlaps(table) && !self.hand_first_defender.overlaps(table)
            && !self.hand_second_defender.overlaps(table);
        if !disjoint {
            return false;
        }
        let on_table = self.partial_trick.number_of_cards();
        let active = self.active_role;
        let after = active.next();
        let before = after.next();
        let cards = self.hand_cards_of(active).len();
        let cards_after = self.hand_cards_of(after).len() + if on_table == 2 {
            1
        } else {
            0
        };
        let cards_before = self.hand_cards_of(before).len() + if on_table >= 1 {
            1
        } else {
            0
        };
        proof {
            active.lemma_next_cycles();
        }
        cards == cards_after && cards == cards_before
    }

}

/// What both sides have got out of tricks, in points and in tricks.
pub struct Outcome {
    pub end: OpenSituation,
    pub declarer_points: int,
    pub declarer_tricks: int,
    pub defenders_points: int,
    pub defenders_tricks: int,
}

impl OpenSituation {
    /// The position after the cards of the list have been played one after the
    /// other, with what both sides got for them; nothing if one of the cards may
    /// not be played when its turn comes.
    pub open spec fn played_out(self, cards: Seq<Card>, game_type: GameType) -> Option<Outcome>
        decreases cards.len(),
    {
        if cards.len() == 0 {
            Some(
                Outcome {
                    end: self,
                    declarer_points: 0,
                    declarer_tricks: 0,
                    defenders_points: 0,
                    defenders_tricks: 0,
                },
            )
        } else if !self.spec_next_possible_plays(game_type).spec_contains(cards[0]) {
            None
        } else {
            let card = cards[0];
            let completes = self.spec_partial_trick()@.len() == 2;
            let points = if completes {
                self.completed_trick(card).spec_to_points()
            } else {
                0
            };
            let tricks: int = if completes {
                1
            } else {
                0
            };
            let to_declarer = self.role_after(card, game_type) == Role::Declarer;
            match self.spec_play_card(card, game_type).played_out(
                cards.subrange(1, cards.len() as int),
                game_type,
            ) {
                None => None,
                Some(rest) => Some(
                    Outcome {
                        end: rest.end,
                        declarer_points: rest.declarer_points + if to_declarer {
                            points
                        } else {
                            0
                        },
                        declarer_tricks: rest.declarer_tricks + if to_declarer {
                            tricks
                        } else {
                            0
                        },
                        defenders_points: rest.defenders_points + if to_declarer {
                            0
                        } else {
                            points
                        },
                        defenders_tricks: rest.defenders_tricks + if to_declarer {
                            0
                        } else {
                            tricks
                        },
                    },
                ),
            }
        }
    }

    /// A card that completes a trick moves the trick into the cellar, and any
    /// other card leaves the cellar as it is.
    pub proof fn lemma_cellar_after_a_card(self, card: Card, game_type: GameType)
        requires
            self.wf(),
            self.spec_next_possible_plays(game_type).spec_contains(card),
        ensures
            ({
                let child = self.spec_play_card(card, game_type);
                let completes = self.spec_partial_trick()@.len() == 2;
                &&& child.spec_cellar().spec_to_points() == self.spec_cellar().spec_to_points()
                    + if completes {
                    self.completed_trick(card).spec_to_points()
                } else {
                    0
                }
                &&& child.spec_cellar().spec_len() == self.spec_cellar().spec_len() + if completes {
                    3int
                } else {
                    0int
                }
            }),
    {
        broadcast use group_cards;
        broadcast use PartialTrick::lemma_with;
        broadcast use Trick::lemma_new;

        let child = self.spec_play_card(card, game_type);
        self.lemma_play_card_keeps_wf(card, game_type);
        self.lemma_play_card(card, game_type);
        self.lemma_all_cards_accounted_for();
        child.lemma_all_cards_accounted_for();
        self.spec_partial_trick().lemma_cards_measure();
        child.spec_partial_trick().lemma_cards_measure();
        self.spec_hand_cards_of(self.spec_active_role()).lemma_measure_remove(card);
        let table = self.spec_partial_trick()@;
        if table.len() == 1 {
            assert(child.spec_partial_trick()@[0] == table[0]);
            assert(child.spec_partial_trick()@[1] == card);
        } else if table.len() == 0 {
            assert(child.spec_partial_trick()@[0] == card);
        }
    }

    /// However the cards that are left are played, as long as every card may be
    /// played when its turn comes: in the end all cards lie in the cellar, the
    /// two sides have shared the points that were not in the cellar, and they
    /// have shared the tricks that were not done.
    pub proof fn lemma_playing_all_cards(self, cards: Seq<Card>, game_type: GameType)
        requires
            self.wf(),
            self.played_out(cards, game_type) is Some,
            cards.len() == self.spec_remaining_cards_in_hands().spec_len(),
        ensures
            ({
                let outcome = self.played_out(cards, game_type)->0;
                &&& outcome.end.spec_cellar() == Cards::spec_all()
                &&& outcome.end.spec_remaining_cards_in_hands() == Cards::spec_empty()
                &&& outcome.declarer_points + outcome.defenders_points + self.spec_cellar().spec_to_points()
                    == 120
                &&& outcome.declarer_tricks + outcome.defenders_tricks == self.cards_per_player()
                &&& outcome.declarer_tricks + outcome.defenders_tricks + self.spec_cellar().spec_len()
                    / 3 == 10
            }),
    {
        broadcast use group_cards;

        self.lemma_played_out(cards, game_type);
        let end = self.played_out(cards, game_type)->0.end;
        end.lemma_all_cards_accounted_for();
        self.lemma_all_cards_accounted_for();
        Cards::lemma_measure_constants();
        let hands = end.spec_remaining_cards_in_hands();
        assert(hands.spec_len() == 0);
        assert(hands == Cards::spec_empty());
        assert(end.spec_partial_trick()@.len() == 0) by {
            end.spec_active_role().lemma_next_cycles();
        }
        end.spec_partial_trick().lemma_cards_measure();
        end.spec_partial_trick().spec_cards().lemma_len_bounds();
        assert(end.spec_partial_trick().spec_cards() == Cards::spec_empty());
        end.spec_cellar().lemma_ext(Cards::spec_all());
    }

    /// A player with a card in his hand has a card that he may play.
    pub proof fn lemma_a_card_may_be_played(self, game_type: GameType)
        requires
            !self.spec_hand_cards_of(self.spec_active_role()).spec_is_empty(),
        ensures
            !self.spec_next_possible_plays(game_type).spec_is_empty(),
    {
        broadcast use group_cards;

        let hand = self.spec_hand_cards_of(self.spec_active_role());
        let witness = hand.spec_lowest();
        match self.spec_partial_trick().spec_first() {
            None => {
                assert(self.spec_next_possible_plays(game_type).spec_contains(witness));
            },
            Some(first) => {
                let following = hand.spec_and(
                    Cards::spec_of_card_type(first.spec_card_type(game_type), game_type),
                );
                if following.spec_is_empty() {
                    assert(self.spec_next_possible_plays(game_type).spec_contains(witness));
                } else {
                    assert(self.spec_next_possible_plays(game_type).spec_contains(
                        following.spec_lowest(),
                    ));
                }
            },
        }
    }

    /// As long as cards are in the hands, the player to move has a card that
    /// he may play.
    pub proof fn lemma_a_card_is_left(self, game_type: GameType)
        requires
            self.wf(),
            self.spec_remaining_cards_in_hands().spec_len() > 0,
        ensures
            !self.spec_next_possible_plays(game_type).spec_is_empty(),
    {
        broadcast use group_cards;

        self.lemma_all_cards_accounted_for();
        Cards::lemma_measure_constants();
        let hand = self.spec_hand_cards_of(self.spec_active_role());
        if hand.spec_is_empty() {
            assert(self.cards_per_player() == 0);
            assert(self.spec_cellar().spec_len() == 32);
            self.spec_cellar().lemma_measure_or(self.spec_remaining_cards_in_hands());
            self.spec_cellar().spec_or(self.spec_remaining_cards_in_hands()).lemma_len_bounds();
            assert(false);
        }
        self.lemma_a_card_may_be_played(game_type);
    }

    /// A card that may be played after the cards of a list makes the list
    /// longer by one: the position is the one after the card, and the declarer
    /// has what he had and what he gets for the card.
    pub proof fn lemma_one_more_card(self, cards: Seq<Card>, card: Card, game_type: GameType)
        requires
            self.wf(),
            self.played_out(cards, game_type) matches Some(outcome)
                && outcome.end.spec_next_possible_plays(game_type).spec_contains(card),
        ensures
            self.played_out(cards.push(card), game_type) matches Some(longer) && {
                let outcome = self.played_out(cards, game_type)->0;
                let gained = outcome.end.yield_of(card, game_type);
                &&& longer.end == outcome.end.spec_play_card(card, game_type)
                &&& longer.declarer_points == outcome.declarer_points + gained.card_points.0
                &&& longer.declarer_tricks == outcome.declarer_tricks + gained.number_of_tricks
            },
        decreases cards.len(),
    {
        let longer = cards.push(card);
        if cards.len() == 0 {
            assert(longer[0] == card);
            assert(longer.subrange(1, longer.len() as int) =~= Seq::<Card>::empty());
            let child = self.spec_play_card(card, game_type);
            assert(child.played_out(Seq::<Card>::empty(), game_type) is Some);
            if self.spec_partial_trick()@.len() == 2 {
                self.completed_trick(card).lemma_points_bound();
            }
        } else {
            let first = cards[0];
            let child = self.spec_play_card(first, game_type);
            let rest = cards.subrange(1, cards.len() as int);
            self.lemma_play_card_keeps_wf(first, game_type);
            child.lemma_one_more_card(rest, card, game_type);
            assert(longer[0] == first);
            assert(longer.subrange(1, longer.len() as int) =~= rest.push(card));
        }
    }

    /// What both sides get for the cards that are played is what goes into the
    /// cellar, in points and in tricks.
    pub proof fn lemma_played_out(self, cards: Seq<Card>, game_type: GameType)
        requires
            self.wf(),
            self.played_out(cards, game_type) is Some,
        ensures
            ({
                let outcome = self.played_out(cards, game_type)->0;
                &&& outcome.end.wf()
                &&& outcome.end.spec_remaining_cards_in_hands().spec_len() + cards.len()
                    == self.spec_remaining_cards_in_hands().spec_len()
                &&& outcome.declarer_points + outcome.defenders_points
                    + self.spec_cellar().spec_to_points()
                    == outcome.end.spec_cellar().spec_to_points()
                &&& 3 * (outcome.declarer_tricks + outcome.defenders_tricks)
                    + self.spec_cellar().spec_len() == outcome.end.spec_cellar().spec_len()
                &&& outcome.declarer_points >= 0 && outcome.defenders_points >= 0
                &&& outcome.declarer_tricks >= 0 && outcome.defenders_tricks >= 0
            }),
        decreases cards.len(),
    {
        if cards.len() > 0 {
            let card = cards[0];
            let child = self.spec_play_card(card, game_type);
            self.lemma_play_card_keeps_wf(card, game_type);
            self.lemma_cellar_after_a_card(card, game_type);
            child.lemma_played_out(cards.subrange(1, cards.len() as int), game_type);
        }
    }
}

} // verus!
