use vstd::prelude::*;
use crate::bounds::Bounds;
use crate::card::{Card, CardType, Rank, Suit};
use crate::card_points::CardPoints;
use crate::cards::{group_cards, Cards};
use crate::game_type::GameType;
use crate::power::CardPower;
use crate::role::Role;
use crate::situation::OpenSituation;
use crate::trick_yield::{TrickYield, YieldSoFar};

verus! {

/// The suits in the order in which the quick bounds go through them.
pub open spec fn spec_suit_by_turn(turn: int) -> Suit {
    if turn <= 0 {
        Suit::Clubs
    } else if turn == 1 {
        Suit::Diamonds
    } else if turn == 2 {
        Suit::Hearts
    } else {
        Suit::Spades
    }
}

fn suit_by_turn(turn: u8) -> (r: Suit)
    requires
        turn < 4,
    ensures
        r == spec_suit_by_turn(turn as int),
{
    match turn {
        0 => Suit::Clubs,
        1 => Suit::Diamonds,
        2 => Suit::Hearts,
        _ => Suit::Spades,
    }
}

/// The points of the `count` cards that are taken out of the set one after
/// the other when each time the card is taken that counts least.
pub open spec fn cheapest_points(cards: Cards, count: nat) -> nat
    decreases count,
{
    if count == 0 {
        0
    } else {
        let card = cards.spec_lowest_value();
        card.spec_to_points().0 as nat + cheapest_points(
            cards.spec_without(Cards::spec_just(card)),
            (count - 1) as nat,
        )
    }
}

/// The tricks that the defenders are sure of when one of them leads, as far as
/// they have been found: the hands without the cards that went into these
/// tricks, who leads, and what the tricks have cost the declarer.
pub struct DefenderRun {
    pub declarer: Cards,
    pub first: Cards,
    pub second: Cards,
    pub active: Role,
    /// The declarer's trumps that have not been counted yet: he gives his lowest
    /// trump, but the cheapest of these is counted for it.
    pub declarer_trump_for_points: Cards,
    /// The tricks to which the declarer has not given a card yet.
    pub count: u8,
    pub points: u8,
    pub tricks: u8,
}

impl DefenderRun {
    pub open spec fn hand(self, role: Role) -> Cards {
        match role {
            Role::Declarer => self.declarer,
            Role::FirstDefender => self.first,
            Role::SecondDefender => self.second,
        }
    }

    /// The cards that are still in the hands.
    pub open spec fn remaining(self) -> Cards {
        self.declarer.spec_or(self.first).spec_or(self.second)
    }

    /// The run before the first trick.
    pub open spec fn start(open_situation: OpenSituation, trump_cards: Cards) -> DefenderRun {
        DefenderRun {
            declarer: open_situation.spec_hand_cards_of(Role::Declarer),
            first: open_situation.spec_hand_cards_of(Role::FirstDefender),
            second: open_situation.spec_hand_cards_of(Role::SecondDefender),
            active: open_situation.spec_active_role(),
            declarer_trump_for_points: open_situation.spec_hand_cards_of(Role::Declarer).spec_and(
                trump_cards,
            ),
            count: 0,
            points: 0,
            tricks: 0,
        }
    }

    /// A defender gives a card, and its points are counted.
    pub open spec fn gives(self, role: Role, card: Card) -> DefenderRun {
        let points = (self.points + card.spec_to_points().0) as u8;
        match role {
            Role::FirstDefender => DefenderRun {
                first: self.first.spec_without(Cards::spec_just(card)),
                points,
                ..self
            },
            _ => DefenderRun {
                second: self.second.spec_without(Cards::spec_just(card)),
                points,
                ..self
            },
        }
    }

    /// The first rule: the leading defender has a trump, and he or his partner
    /// holds the highest trump that is out. That trump takes a trick. The
    /// other defender adds his highest trump, or his highest card if he has no
    /// trump. The declarer gives his lowest trump, for which his cheapest
    /// trump that is not counted yet is counted; without a trump he gives a
    /// card later. The holder of the high trump leads next.
    pub open spec fn spec_rule_1(self, trump_cards: Cards) -> Option<DefenderRun> {
        if self.hand(self.active).spec_and(trump_cards).spec_is_empty() {
            None
        } else {
            let matador = self.remaining().spec_and(trump_cards).spec_highest();
            if !self.first.spec_contains(matador) && !self.second.spec_contains(matador) {
                None
            } else {
                let matador_defender = if self.first.spec_contains(matador) {
                    Role::FirstDefender
                } else {
                    Role::SecondDefender
                };
                let other_defender = matador_defender.spec_other_defender();
                let after_matador = self.gives(matador_defender, matador);
                let other_hand = after_matador.hand(other_defender);
                let other_card = if other_hand.spec_overlaps(trump_cards) {
                    other_hand.spec_and(trump_cards).spec_highest()
                } else {
                    other_hand.spec_highest()
                };
                let after_other = after_matador.gives(other_defender, other_card);
                let after_declarer = if after_other.declarer.disjoint(trump_cards) {
                    DefenderRun { count: (after_other.count + 1) as u8, ..after_other }
                } else {
                    let trump_declarer = after_other.declarer.spec_and(trump_cards).spec_lowest();
                    let counted = after_other.declarer_trump_for_points.spec_lowest_value();
                    DefenderRun {
                        declarer: after_other.declarer.spec_without(
                            Cards::spec_just(trump_declarer),
                        ),
                        declarer_trump_for_points: after_other.declarer_trump_for_points.spec_without(
                            Cards::spec_just(counted),
                        ),
                        points: (after_other.points + counted.spec_to_points().0) as u8,
                        ..after_other
                    }
                };
                Some(
                    DefenderRun {
                        tricks: (after_declarer.tricks + 1) as u8,
                        active: matador_defender,
                        ..after_declarer
                    },
                )
            }
        }
    }

    /// The second rule for one suit: the leading defender has a card of the
    /// suit; the declarer still has to give more cards of the suit than he
    /// owes to earlier tricks, or has no trump; and if the declarer holds the
    /// highest card of the suit that is out, the partner has no card of the
    /// suit but a trump. The leader plays his highest card of the suit. The
    /// declarer gives his lowest card of the suit, or a card later. The
    /// partner adds his highest card of the suit; without one he ruffs with
    /// the trump that counts most if the declarer holds the highest card, and
    /// else adds the card that counts most. The one of the two defenders
    /// who played the stronger card leads next.
    pub open spec fn spec_rule_2_for_suit(
        self,
        suit: Suit,
        game_type: GameType,
        trump_cards: Cards,
    ) -> Option<DefenderRun> {
        let partner = self.active.spec_other_defender();
        let suit_cards = Cards::spec_of_card_type(CardType::Suit(suit), game_type);
        if self.hand(self.active).spec_and(suit_cards).spec_is_empty() || (self.declarer.spec_and(
            suit_cards,
        ).spec_len() <= self.count && self.declarer.spec_overlaps(trump_cards)) {
            None
        } else {
            let highest = self.remaining().spec_and(suit_cards).spec_highest();
            let declarer_has_highest = self.declarer.spec_contains(highest);
            if declarer_has_highest && (self.hand(partner).spec_overlaps(suit_cards) || self.hand(
                partner,
            ).spec_and(trump_cards).spec_is_empty()) {
                None
            } else {
                let card_active = self.hand(self.active).spec_and(suit_cards).spec_highest();
                let after_active = self.gives(self.active, card_active);
                let after_declarer = if after_active.declarer.disjoint(suit_cards) {
                    DefenderRun { count: (after_active.count + 1) as u8, ..after_active }
                } else {
                    let card = after_active.declarer.spec_and(suit_cards).spec_lowest();
                    DefenderRun {
                        declarer: after_active.declarer.spec_without(Cards::spec_just(card)),
                        points: (after_active.points + card.spec_to_points().0) as u8,
                        ..after_active
                    }
                };
                let partner_hand = after_declarer.hand(partner);
                let card_partner = if partner_hand.spec_overlaps(suit_cards) {
                    partner_hand.spec_and(suit_cards).spec_highest()
                } else if declarer_has_highest {
                    partner_hand.spec_and(trump_cards).spec_highest_value()
                } else {
                    partner_hand.spec_highest_value()
                };
                let after_partner = after_declarer.gives(partner, card_partner);
                Some(
                    DefenderRun {
                        tricks: (after_partner.tricks + 1) as u8,
                        active: if CardPower::spec_of(card_active, CardType::Suit(suit), game_type)
                            < CardPower::spec_of(card_partner, CardType::Suit(suit), game_type) {
                            partner
                        } else {
                            after_partner.active
                        },
                        ..after_partner
                    },
                )
            }
        }
    }

    /// The second rule for the first suit from `turn` on for which it applies.
    pub open spec fn spec_rule_2(self, game_type: GameType, trump_cards: Cards, turn: int) -> Option<
        DefenderRun,
    >
        decreases 4 - turn,
    {
        if turn >= 4 {
            None
        } else {
            match self.spec_rule_2_for_suit(spec_suit_by_turn(turn), game_type, trump_cards) {
                Some(next) => Some(next),
                None => self.spec_rule_2(game_type, trump_cards, turn + 1),
            }
        }
    }

    /// The third rule for one suit: the leading defender has a card of the suit
    /// and his partner, who holds the highest trump that is out, has none. The
    /// leader plays his card of the suit that counts most, the partner ruffs
    /// with the high trump and leads next, and the declarer gives a card later.
    pub open spec fn spec_rule_3_for_suit(self, suit: Suit, matador: Card, game_type: GameType) -> Option<
        DefenderRun,
    > {
        let partner = self.active.spec_other_defender();
        let suit_cards = Cards::spec_of_card_type(CardType::Suit(suit), game_type);
        if self.hand(self.active).spec_and(suit_cards).spec_is_empty() || self.hand(
            partner,
        ).spec_overlaps(suit_cards) {
            None
        } else {
            let card = self.hand(self.active).spec_and(suit_cards).spec_highest_value();
            let after = self.gives(self.active, card).gives(partner, matador);
            Some(
                DefenderRun {
                    count: (after.count + 1) as u8,
                    tricks: (after.tricks + 1) as u8,
                    active: partner,
                    ..after
                },
            )
        }
    }

    /// The third rule for the first suit from `turn` on for which it applies.
    pub open spec fn spec_rule_3(self, matador: Card, game_type: GameType, turn: int) -> Option<
        DefenderRun,
    >
        decreases 4 - turn,
    {
        if turn >= 4 {
            None
        } else {
            match self.spec_rule_3_for_suit(spec_suit_by_turn(turn), matador, game_type) {
                Some(next) => Some(next),
                None => self.spec_rule_3(matador, game_type, turn + 1),
            }
        }
    }

    /// One more trick that the defenders are sure of, by the first of the three
    /// rules that applies, if one does.
    pub open spec fn spec_step(self, game_type: GameType, trump_cards: Cards) -> Option<DefenderRun> {
        match self.spec_rule_1(trump_cards) {
            Some(next) => Some(next),
            None => match self.spec_rule_2(game_type, trump_cards, 0) {
                Some(next) => Some(next),
                None => {
                    let outstanding = self.remaining().spec_and(trump_cards);
                    if outstanding.spec_is_empty() {
                        None
                    } else if !self.hand(self.active.spec_other_defender()).spec_contains(
                        outstanding.spec_highest(),
                    ) {
                        None
                    } else {
                        self.spec_rule_3(outstanding.spec_highest(), game_type, 0)
                    }
                },
            },
        }
    }

    /// All tricks that the defenders are sure of: one trick after the other until
    /// no rule applies, `tricks` tricks at most.
    pub open spec fn spec_run(self, game_type: GameType, trump_cards: Cards, tricks: nat) -> DefenderRun
        decreases tricks,
    {
        if tricks == 0 {
            self
        } else {
            match self.spec_step(game_type, trump_cards) {
                None => self,
                Some(next) => next.spec_run(game_type, trump_cards, (tricks - 1) as nat),
            }
        }
    }

    /// What the tricks have cost the declarer in points: what was counted, and
    /// for the tricks to which he has not given a card yet, the cheapest of
    /// the cards that he has left and of his trumps that are not counted.
    pub open spec fn spec_cost(self, trump_cards: Cards) -> nat {
        self.points as nat + cheapest_points(
            self.declarer.spec_without(trump_cards).spec_or(self.declarer_trump_for_points),
            self.count as nat,
        )
    }

    /// What holds between the tricks: a defender leads, every defender has
    /// given a card to each trick, the declarer to each trick but `count`, the
    /// trumps to count are as many as the declarer's trumps, and the points
    /// are those of the cards that were given.
    pub open spec fn inv(self, h: nat, total: nat, trump_cards: Cards) -> bool {
        &&& self.active != Role::Declarer
        &&& self.first.spec_len() + self.tricks == h
        &&& self.second.spec_len() + self.tricks == h
        &&& self.declarer.spec_len() + self.tricks == h + self.count
        &&& self.declarer_trump_for_points.spec_len() == self.declarer.spec_and(
            trump_cards,
        ).spec_len()
        &&& self.declarer_trump_for_points.subset_of(trump_cards)
        &&& self.points + self.first.spec_to_points() + self.second.spec_to_points()
            + self.declarer.spec_without(trump_cards).spec_to_points()
            + self.declarer_trump_for_points.spec_to_points() == total
        &&& total <= 120
        &&& h <= 10
        &&& self.count <= self.tricks
    }

    fn hand_of(&self, role: Role) -> (r: Cards)
        ensures
            r == self.hand(role),
    {
        match role {
            Role::Declarer => self.declarer,
            Role::FirstDefender => self.first,
            Role::SecondDefender => self.second,
        }
    }

    fn give(&mut self, role: Role, card: Card)
        requires
            role != Role::Declarer,
            old(self).hand(role).spec_contains(card),
            old(self).points + old(self).hand(role).spec_to_points() <= 120,
        ensures
            *final(self) == old(self).gives(role, card),
            final(self).hand(role).spec_len() + 1 == old(self).hand(role).spec_len(),
            final(self).hand(role).spec_to_points() + card.spec_to_points().0 == old(self).hand(
                role,
            ).spec_to_points(),
            final(self).hand(role.spec_other_defender()) == old(self).hand(
                role.spec_other_defender(),
            ),
            final(self).points == old(self).points + card.spec_to_points().0,
    {
        match role {
            Role::FirstDefender => self.first.remove_existing(card),
            _ => self.second.remove_existing(card),
        }
        self.points += card.to_points().0;
    }

    fn rule_1(
        &mut self,
        trump_cards: Cards,
        remaining_cards: Cards,
        Ghost(h): Ghost<nat>,
        Ghost(total): Ghost<nat>,
    ) -> (applied: bool)
        requires
            old(self).inv(h, total, trump_cards),
            remaining_cards == old(self).remaining(),
        ensures
            final(self).inv(h, total, trump_cards),
            applied ==> final(self).tricks == old(self).tricks + 1,
            !applied ==> *final(self) == *old(self),
            old(self).spec_rule_1(trump_cards) == if applied {
                Some(*final(self))
            } else {
                None
            },
    {
        proof {
            broadcast use group_cards;

        }
        if self.hand_of(self.active).and(trump_cards).is_empty() {
            return false;
        }
        let matador = remaining_cards.and(trump_cards).highest_existing();
        let (matador_defender, other_defender) = if self.first.contains(matador) {
            (Role::FirstDefender, Role::SecondDefender)
        } else if self.second.contains(matador) {
            (Role::SecondDefender, Role::FirstDefender)
        } else {
            return false;
        };
        self.give(matador_defender, matador);

        let other_hand = self.hand_of(other_defender);
        proof {
            other_hand.lemma_len_bounds();
        }
        let other_defender_card = if other_hand.overlaps(trump_cards) {
            other_hand.and(trump_cards).highest_existing()
        } else {
            other_hand.highest_existing()
        };
        self.give(other_defender, other_defender_card);
        proof {
            assert(self.points + self.first.spec_to_points() + self.second.spec_to_points()
                + self.declarer.spec_without(trump_cards).spec_to_points()
                + self.declarer_trump_for_points.spec_to_points() == total);
            assert(self.first.spec_len() + self.tricks + 1 == h);
            assert(self.second.spec_len() + self.tricks + 1 == h);
        }

        let ghost declarer_before = self.declarer;
        let ghost counted_before = self.declarer_trump_for_points;
        match self.declarer.remove_lowest_of_cards(trump_cards) {
            Some(trump_declarer) => {
                proof {
                    declarer_before.lemma_measure_remove_within(trump_declarer, trump_cards);
                    declarer_before.spec_and(trump_cards).lemma_len_bounds();
                    self.declarer_trump_for_points.lemma_len_bounds();
                    assert(self.declarer.spec_and(trump_cards).spec_len() + 1
                        == declarer_before.spec_and(trump_cards).spec_len());
                    assert(self.declarer.spec_without(trump_cards).spec_to_points()
                        == declarer_before.spec_without(trump_cards).spec_to_points());
                    assert(!counted_before.spec_is_empty());
                }
                let counted = self.declarer_trump_for_points.remove_lowest_value();
                self.points += counted.to_points().0;
                proof {
                    assert(self.declarer_trump_for_points.subset_of(trump_cards));
                }
            },
            None => {
                self.count += 1;
            },
        }
        self.tricks += 1;
        self.active = matador_defender;
        true
    }

    /// The declarer gives his lowest card of a suit, which is counted, or, if he
    /// has none, a card later.
    fn declarer_follows_suit(&mut self, suit_cards: Cards, trump_cards: Cards, Ghost(total): Ghost<nat>)
        requires
            suit_cards.disjoint(trump_cards),
            old(self).points + old(self).declarer.spec_without(trump_cards).spec_to_points()
                <= 120,
            old(self).count < 255,
        ensures
            *final(self) == if old(self).declarer.disjoint(suit_cards) {
                DefenderRun { count: (old(self).count + 1) as u8, ..*old(self) }
            } else {
                DefenderRun {
                    declarer: old(self).declarer.spec_without(
                        Cards::spec_just(old(self).declarer.spec_and(suit_cards).spec_lowest()),
                    ),
                    points: (old(self).points + old(self).declarer.spec_and(
                        suit_cards,
                    ).spec_lowest().spec_to_points().0) as u8,
                    ..*old(self)
                }
            },
            final(self).points + final(self).declarer.spec_without(trump_cards).spec_to_points()
                == old(self).points + old(self).declarer.spec_without(
                trump_cards,
            ).spec_to_points(),
            final(self).declarer.spec_and(trump_cards).spec_len() == old(self).declarer.spec_and(
                trump_cards,
            ).spec_len(),
            final(self).count == old(self).count + if old(self).declarer.disjoint(suit_cards) {
                1int
            } else {
                0int
            },
            final(self).declarer.spec_len() == old(self).declarer.spec_len() - if old(
                self,
            ).declarer.disjoint(suit_cards) {
                0int
            } else {
                1int
            },
    {
        proof {
            broadcast use group_cards;

        }
        let ghost declarer_before = self.declarer;
        match self.declarer.remove_lowest_of_cards(suit_cards) {
            Some(card) => {
                proof {
                    broadcast use group_cards;

                    assert(!trump_cards.spec_contains(card));
                    declarer_before.lemma_measure_remove_within(card, trump_cards);
                }
                self.points += card.to_points().0;
            },
            None => {
                self.count += 1;
            },
        }
    }

    #[verifier::spinoff_prover]
    #[verifier::rlimit(100)]
    fn rule_2_for_suit(
        &mut self,
        suit: Suit,
        game_type: GameType,
        trump_cards: Cards,
        remaining_cards: Cards,
        Ghost(h): Ghost<nat>,
        Ghost(total): Ghost<nat>,
    ) -> (applied: bool)
        requires
            old(self).inv(h, total, trump_cards),
            trump_cards == Cards::spec_of_card_type(CardType::Trump, game_type),
            remaining_cards == old(self).remaining(),
        ensures
            final(self).inv(h, total, trump_cards),
            applied ==> final(self).tricks == old(self).tricks + 1,
            !applied ==> *final(self) == *old(self),
            old(self).spec_rule_2_for_suit(suit, game_type, trump_cards) == if applied {
                Some(*final(self))
            } else {
                None
            },
    {
        proof {
            broadcast use group_cards;

        }
        let partner = self.active.other_defender();
        let suit_cards = Cards::of_card_type(CardType::Suit(suit), game_type);

        if self.hand_of(self.active).and(suit_cards).is_empty() || (self.declarer.and(
            suit_cards,
        ).len() <= self.count && self.declarer.overlaps(trump_cards)) {
            return false;
        }
        let highest = remaining_cards.and(suit_cards).highest_existing();

        let declarer_has_highest = self.declarer.contains(highest);

        if declarer_has_highest && (self.hand_of(partner).overlaps(suit_cards) || self.hand_of(
            partner,
        ).and(trump_cards).is_empty()) {
            return false;
        }
        let card_active = self.hand_of(self.active).and(suit_cards).highest_existing();
        proof {
            self.hand(self.active).lemma_len_bounds();
        }
        self.give(self.active, card_active);
        proof {
            assert(self.points + self.first.spec_to_points() + self.second.spec_to_points()
                + self.declarer.spec_without(trump_cards).spec_to_points()
                + self.declarer_trump_for_points.spec_to_points() == total);
            assert(suit_cards.disjoint(trump_cards));
        }

        self.declarer_follows_suit(suit_cards, trump_cards, Ghost(total));

        let partner_hand = self.hand_of(partner);
        proof {
            partner_hand.lemma_len_bounds();
            assert(self.points + self.first.spec_to_points() + self.second.spec_to_points()
                + self.declarer.spec_without(trump_cards).spec_to_points()
                + self.declarer_trump_for_points.spec_to_points() == total);
        }
        let card_partner = if partner_hand.overlaps(suit_cards) {
            partner_hand.and(suit_cards).highest_existing()
        } else if declarer_has_highest {
            partner_hand.and(trump_cards).highest_value()
        } else {
            partner_hand.highest_value()
        };
        self.give(partner, card_partner);

        self.tricks += 1;
        if CardPower::of(card_active, CardType::Suit(suit), game_type).0 < CardPower::of(
            card_partner,
            CardType::Suit(suit),
            game_type,
        ).0 {
            self.active = partner;
        }
        true
    }

    fn rule_3_for_suit(
        &mut self,
        suit: Suit,
        matador: Card,
        game_type: GameType,
        trump_cards: Cards,
        Ghost(h): Ghost<nat>,
        Ghost(total): Ghost<nat>,
    ) -> (applied: bool)
        requires
            old(self).inv(h, total, trump_cards),
            old(self).hand(old(self).active.spec_other_defender()).spec_contains(matador),
        ensures
            final(self).inv(h, total, trump_cards),
            applied ==> final(self).tricks == old(self).tricks + 1,
            !applied ==> *final(self) == *old(self),
            old(self).spec_rule_3_for_suit(suit, matador, game_type) == if applied {
                Some(*final(self))
            } else {
                None
            },
    {
        proof {
            broadcast use group_cards;

        }
        let partner = self.active.other_defender();
        let suit_cards = Cards::of_card_type(CardType::Suit(suit), game_type);

        if self.hand_of(self.active).and(suit_cards).is_empty() || self.hand_of(partner).overlaps(
            suit_cards,
        ) {
            return false;
        }
        let card = self.hand_of(self.active).and(suit_cards).highest_value();
        self.give(self.active, card);
        self.give(partner, matador);

        self.count += 1;

        self.tricks += 1;
        self.active = partner;
        true
    }

    /// One more trick by the first rule that applies, if one does.
    fn step(
        &mut self,
        game_type: GameType,
        trump_cards: Cards,
        Ghost(h): Ghost<nat>,
        Ghost(total): Ghost<nat>,
    ) -> (applied: bool)
        requires
            old(self).inv(h, total, trump_cards),
            trump_cards == Cards::spec_of_card_type(CardType::Trump, game_type),
        ensures
            final(self).inv(h, total, trump_cards),
            applied ==> final(self).tricks == old(self).tricks + 1,
            !applied ==> *final(self) == *old(self),
            old(self).spec_step(game_type, trump_cards) == if applied {
                Some(*final(self))
            } else {
                None
            },
    {
        let remaining_cards = self.declarer.or(self.first).or(self.second);

        if self.rule_1(trump_cards, remaining_cards, Ghost(h), Ghost(total)) {
            return true;
        }
        let mut turn: u8 = 0;
        while turn < 4
            invariant
                turn <= 4,
                *self == *old(self),
                self.inv(h, total, trump_cards),
                trump_cards == Cards::spec_of_card_type(CardType::Trump, game_type),
                remaining_cards == self.remaining(),
                old(self).spec_rule_1(trump_cards) is None,
                self.spec_rule_2(game_type, trump_cards, turn as int) == self.spec_rule_2(
                    game_type,
                    trump_cards,
                    0,
                ),
            decreases 4 - turn,
        {
            if self.rule_2_for_suit(
                suit_by_turn(turn),
                game_type,
                trump_cards,
                remaining_cards,
                Ghost(h),
                Ghost(total),
            ) {
                return true;
            }
            turn += 1;
        }
        let partner = self.active.other_defender();
        let Some(matador) = remaining_cards.and(trump_cards).highest_non_null() else {
            return false;
        };
        if !self.hand_of(partner).contains(matador) {
            return false;
        }
        let mut turn: u8 = 0;
        while turn < 4
            invariant
                turn <= 4,
                *self == *old(self),
                self.inv(h, total, trump_cards),
                self.hand(self.active.spec_other_defender()).spec_contains(matador),
                old(self).spec_rule_1(trump_cards) is None,
                old(self).spec_rule_2(game_type, trump_cards, 0) is None,
                !old(self).remaining().spec_and(trump_cards).spec_is_empty(),
                matador == old(self).remaining().spec_and(trump_cards).spec_highest(),
                self.spec_rule_3(matador, game_type, turn as int) == self.spec_rule_3(
                    matador,
                    game_type,
                    0,
                ),
            decreases 4 - turn,
        {
            if self.rule_3_for_suit(
                suit_by_turn(turn),
                matador,
                game_type,
                trump_cards,
                Ghost(h),
                Ghost(total),
            ) {
                return true;
            }
            turn += 1;
        }
        false
    }
}

/// The points of the `count` cheapest cards of the set, taken one after the
/// other.
fn points_of_cheapest(cards: Cards, count: u8, Ghost(limit): Ghost<nat>) -> (r: u8)
    requires
        count <= cards.spec_len(),
        cards.spec_to_points() <= limit <= 120,
    ensures
        r == cheapest_points(cards, count as nat),
        r <= cards.spec_to_points(),
{
    let mut left = cards;
    let mut points: u8 = 0;
    let mut given: u8 = 0;
    while given < count
        invariant
            given <= count,
            left.spec_len() + given >= count,
            points + left.spec_to_points() == cards.spec_to_points(),
            cards.spec_to_points() <= 120,
            points + cheapest_points(left, (count - given) as nat) == cheapest_points(
                cards,
                count as nat,
            ),
        decreases count - given,
    {
        proof {
            left.lemma_len_bounds();
        }
        let card = left.remove_lowest_value();
        points += card.to_points().0;
        given += 1;
    }
    points
}

impl OpenSituation {
    /// The most that the declarer can still get if every trick to come is his:
    /// all points and tricks but those that lie in the cellar.
    pub open spec fn spec_naive_upper(self) -> TrickYield {
        YieldSoFar::spec_max_yield().spec_saturating_sub(
            YieldSoFar {
                card_points: CardPoints(self.spec_cellar().spec_to_points() as u8),
                number_of_tricks: (self.spec_cellar().spec_len() / 3) as u8,
            },
        )
    }

    fn naive_upper(self) -> (r: TrickYield)
        ensures
            r == self.spec_naive_upper(),
    {
        let cellar = self.cellar();
        let gone_tricks = cellar.len() / 3;
        let cellar_score = YieldSoFar::new(cellar.to_points(), gone_tricks);
        YieldSoFar::max_yield().saturating_sub(cellar_score)
    }

    /// With the table empty, the naive upper bound is what the hands hold: their
    /// points, and a trick for each card of a player.
    pub proof fn lemma_naive_upper(self)
        requires
            self.wf(),
            !self.spec_is_trick_in_progress(),
        ensures
            self.spec_naive_upper().card_points.0 == self.spec_hand_cards_of(
                Role::Declarer,
            ).spec_to_points() + self.spec_hand_cards_of(Role::FirstDefender).spec_to_points()
                + self.spec_hand_cards_of(Role::SecondDefender).spec_to_points(),
            self.spec_naive_upper().number_of_tricks == self.cards_per_player(),
            self.spec_hand_cards_of(Role::Declarer).spec_len() == self.cards_per_player(),
            self.spec_hand_cards_of(Role::FirstDefender).spec_len() == self.cards_per_player(),
            self.spec_hand_cards_of(Role::SecondDefender).spec_len() == self.cards_per_player(),
            self.cards_per_player() <= 10,
    {
        broadcast use group_cards;

        self.lemma_all_cards_accounted_for();
        self.spec_partial_trick().lemma_cards_measure();
    }

    /// The upper bound for a trump game in which a defender leads: the naive
    /// upper bound less what the tricks that the defenders are sure of cost
    /// the declarer.
    pub open spec fn spec_upper_bound_non_null_defender_forehand(self, trump: CardType) -> TrickYield {
        let game_type = GameType::Trump(trump);
        let trump_cards = Cards::spec_of_card_type(CardType::Trump, game_type);
        let run = DefenderRun::start(self, trump_cards).spec_run(game_type, trump_cards, 11);
        self.spec_naive_upper().spec_saturating_sub(
            TrickYield {
                card_points: CardPoints(run.spec_cost(trump_cards) as u8),
                number_of_tricks: run.tricks,
            },
        )
    }

    /// An upper bound for a trump game in which a defender leads: the naive
    /// upper bound less the tricks that the defenders are sure of. They are
    /// found by three rules, tried in this order until none applies: a
    /// defender's highest trump that is out takes a trick; a suit in which
    /// the defenders hold the best cards, or that the declarer can neither
    /// follow nor ruff, takes a trick; the partner ruffs with the highest
    /// trump that is out.
    pub fn upper_bound_non_null_defender_forehand(self, trump: CardType) -> (r: TrickYield)
        requires
            self.wf(),
            self.spec_active_role() != Role::Declarer,
            !self.spec_is_trick_in_progress(),
        ensures
            r == self.spec_upper_bound_non_null_defender_forehand(trump),
            r.card_points.0 <= self.spec_naive_upper().card_points.0,
            r.number_of_tricks <= self.spec_naive_upper().number_of_tricks,
    {
        let naive_upper = self.naive_upper();

        let game_type = GameType::Trump(trump);
        let trump_cards = Cards::of_card_type(CardType::Trump, game_type);

        let mut run = DefenderRun {
            declarer: *self.hand_cards_of(Role::Declarer),
            first: *self.hand_cards_of(Role::FirstDefender),
            second: *self.hand_cards_of(Role::SecondDefender),
            active: self.active_role(),
            declarer_trump_for_points: self.hand_cards_of(Role::Declarer).and(trump_cards),
            count: 0,
            points: 0,
            tricks: 0,
        };
        let ghost h = self.cards_per_player();
        let ghost total = naive_upper.card_points.0 as nat;
        let ghost start = run;
        proof {
            broadcast use group_cards;

            self.lemma_naive_upper();
            self.spec_hand_cards_of(Role::Declarer).lemma_measure_without(trump_cards);
        }

        loop
            invariant
                run.inv(h, total, trump_cards),
                game_type == GameType::Trump(trump),
                trump_cards == Cards::spec_of_card_type(CardType::Trump, game_type),
                run.spec_run(game_type, trump_cards, (11 - run.tricks) as nat) == start.spec_run(
                    game_type,
                    trump_cards,
                    11,
                ),
            ensures
                run.inv(h, total, trump_cards),
                run == start.spec_run(game_type, trump_cards, 11),
            decreases h - run.tricks,
        {
            if !run.step(game_type, trump_cards, Ghost(h), Ghost(total)) {
                break ;
            }
        }

        let remaining_cards_for_points = run.declarer.without(trump_cards).or(
            run.declarer_trump_for_points,
        );
        proof {
            broadcast use group_cards;

            let outside = run.declarer.spec_without(trump_cards);
            outside.lemma_measure_or(run.declarer_trump_for_points);
            run.declarer.lemma_measure_without(trump_cards);
            Cards::lemma_measure_constants();
            assert(outside.spec_and(run.declarer_trump_for_points).spec_is_empty());
            assert(outside.spec_and(run.declarer_trump_for_points) == Cards::spec_empty());
        }
        let points = run.points + points_of_cheapest(
            remaining_cards_for_points,
            run.count,
            Ghost(total),
        );

        naive_upper.saturating_sub(TrickYield::new(CardPoints(points), run.tricks))
    }
}

/// The trump that a defender is taken to have given of the trumps in
/// `available`: the lowest without points, else the lowest U, else the lowest.
pub open spec fn spec_cheapest_trump(available: Cards) -> Card {
    if !available.spec_and(Cards::spec_of_zero_points()).spec_is_empty() {
        available.spec_and(Cards::spec_of_zero_points()).spec_lowest()
    } else if !available.spec_and(Cards::spec_of_rank(Rank::U)).spec_is_empty() {
        available.spec_and(Cards::spec_of_rank(Rank::U)).spec_lowest()
    } else {
        available.spec_lowest()
    }
}

fn cheapest_trump(available: Cards) -> (card: Card)
    requires
        !available.spec_is_empty(),
    ensures
        card == spec_cheapest_trump(available),
        available.spec_contains(card),
{
    proof {
        broadcast use group_cards;

    }
    let mut without_points = available.and(Cards::of_zero_points());
    if let Some(card) = without_points.remove_smallest() {
        return card;
    }
    let mut unters = available.and(Cards::of_rank(Rank::U));
    if let Some(card) = unters.remove_smallest() {
        return card;
    }
    let mut all = available;
    all.remove_smallest_unchecked()
}

/// The tricks that the declarer is sure of when he leads, as far as they have
/// been found: the hands without the cards that went into these tricks, and
/// what the tricks have given him.
pub struct DeclarerRun {
    pub declarer: Cards,
    pub first: Cards,
    pub second: Cards,
    /// The defenders' hands without the trumps that they followed with:
    /// which trumps they give is settled after the trumps have been led.
    pub first_for_trumps: Cards,
    pub second_for_trumps: Cards,
    /// The tricks to which a defender could not follow, and gives a card later.
    pub count_f: u8,
    pub count_s: u8,
    /// The tricks to which a defender followed with a trump.
    pub count_f_trump: u8,
    pub count_s_trump: u8,
    pub points: u8,
    pub tricks: u8,
}

impl DeclarerRun {
    /// The run before the first trick.
    pub open spec fn start(open_situation: OpenSituation) -> DeclarerRun {
        DeclarerRun {
            declarer: open_situation.spec_hand_cards_of(Role::Declarer),
            first: open_situation.spec_hand_cards_of(Role::FirstDefender),
            second: open_situation.spec_hand_cards_of(Role::SecondDefender),
            first_for_trumps: open_situation.spec_hand_cards_of(Role::FirstDefender),
            second_for_trumps: open_situation.spec_hand_cards_of(Role::SecondDefender),
            count_f: 0,
            count_s: 0,
            count_f_trump: 0,
            count_s_trump: 0,
            points: 0,
            tricks: 0,
        }
    }

    /// The declarer leads the highest trump that is out, if he holds it. It
    /// takes the trick and is counted. A defender who has a trump follows
    /// with his lowest; one who has none gives a card later.
    pub open spec fn spec_lead_trump(self, trump_cards: Cards) -> Option<DeclarerRun> {
        let outstanding = self.declarer.spec_or(self.first_for_trumps).spec_or(
            self.second_for_trumps,
        ).spec_and(trump_cards);
        if outstanding.spec_is_empty() || !self.declarer.spec_contains(outstanding.spec_highest()) {
            None
        } else {
            let matador = outstanding.spec_highest();
            let first_follows = !self.first_for_trumps.disjoint(trump_cards);
            let second_follows = !self.second_for_trumps.disjoint(trump_cards);
            Some(
                DeclarerRun {
                    declarer: self.declarer.spec_without(Cards::spec_just(matador)),
                    tricks: (self.tricks + 1) as u8,
                    points: (self.points + matador.spec_to_points().0) as u8,
                    first_for_trumps: if first_follows {
                        self.first_for_trumps.spec_without(
                            Cards::spec_just(
                                self.first_for_trumps.spec_and(trump_cards).spec_lowest(),
                            ),
                        )
                    } else {
                        self.first_for_trumps
                    },
                    count_f_trump: if first_follows {
                        (self.count_f_trump + 1) as u8
                    } else {
                        self.count_f_trump
                    },
                    count_f: if first_follows {
                        self.count_f
                    } else {
                        (self.count_f + 1) as u8
                    },
                    second_for_trumps: if second_follows {
                        self.second_for_trumps.spec_without(
                            Cards::spec_just(
                                self.second_for_trumps.spec_and(trump_cards).spec_lowest(),
                            ),
                        )
                    } else {
                        self.second_for_trumps
                    },
                    count_s_trump: if second_follows {
                        (self.count_s_trump + 1) as u8
                    } else {
                        self.count_s_trump
                    },
                    count_s: if second_follows {
                        self.count_s
                    } else {
                        (self.count_s + 1) as u8
                    },
                    ..self
                },
            )
        }
    }

    /// The declarer leads his trumps from the top as long as he holds the highest
    /// trump that is out, `tricks` tricks at most.
    pub open spec fn spec_lead_trumps(self, trump_cards: Cards, tricks: nat) -> DeclarerRun
        decreases tricks,
    {
        if tricks == 0 {
            self
        } else {
            match self.spec_lead_trump(trump_cards) {
                None => self,
                Some(next) => next.spec_lead_trumps(trump_cards, (tricks - 1) as nat),
            }
        }
    }

    /// The first defender gives `count` trumps, the cheapest first, and they are
    /// counted.
    pub open spec fn spec_first_gives_trumps(self, game_type: GameType, count: nat) -> DeclarerRun
        decreases count,
    {
        if count == 0 {
            self
        } else {
            let card = spec_cheapest_trump(self.first.spec_and(Cards::spec_of_trump(game_type)));
            (DeclarerRun {
                first: self.first.spec_without(Cards::spec_just(card)),
                points: (self.points + card.spec_to_points().0) as u8,
                ..self
            }).spec_first_gives_trumps(game_type, (count - 1) as nat)
        }
    }

    /// The second defender gives `count` trumps, the cheapest first, and they
    /// are counted.
    pub open spec fn spec_second_gives_trumps(self, game_type: GameType, count: nat) -> DeclarerRun
        decreases count,
    {
        if count == 0 {
            self
        } else {
            let card = spec_cheapest_trump(self.second.spec_and(Cards::spec_of_trump(game_type)));
            (DeclarerRun {
                second: self.second.spec_without(Cards::spec_just(card)),
                points: (self.points + card.spec_to_points().0) as u8,
                ..self
            }).spec_second_gives_trumps(game_type, (count - 1) as nat)
        }
    }

    /// The declarer leads the highest card of a suit that is out, if he holds
    /// it and no defender can ruff: each defender has a card of the suit, or
    /// no trump. The card takes the trick and is counted. A defender who has
    /// a card of the suit follows with his lowest, which is counted; one who
    /// has none gives a card later.
    pub open spec fn spec_lead_suit(self, card_type: CardType, game_type: GameType, trump_cards: Cards) -> Option<
        DeclarerRun,
    > {
        let cards_of_type = Cards::spec_of_card_type(card_type, game_type);
        let first_cannot_ruff = !self.first.spec_and(cards_of_type).spec_is_empty()
            || self.first.spec_and(trump_cards).spec_is_empty();
        let second_cannot_ruff = !self.second.spec_and(cards_of_type).spec_is_empty()
            || self.second.spec_and(trump_cards).spec_is_empty();
        let outstanding = self.declarer.spec_or(self.first).spec_or(self.second).spec_and(
            cards_of_type,
        );
        if !(first_cannot_ruff && second_cannot_ruff) || outstanding.spec_is_empty()
            || !self.declarer.spec_contains(outstanding.spec_highest()) {
            None
        } else {
            let highest = outstanding.spec_highest();
            let first_follows = !self.first.disjoint(cards_of_type);
            let second_follows = !self.second.disjoint(cards_of_type);
            let first_card = self.first.spec_and(cards_of_type).spec_lowest();
            let second_card = self.second.spec_and(cards_of_type).spec_lowest();
            Some(
                DeclarerRun {
                    declarer: self.declarer.spec_without(Cards::spec_just(highest)),
                    tricks: (self.tricks + 1) as u8,
                    first: if first_follows {
                        self.first.spec_without(Cards::spec_just(first_card))
                    } else {
                        self.first
                    },
                    count_f: if first_follows {
                        self.count_f
                    } else {
                        (self.count_f + 1) as u8
                    },
                    second: if second_follows {
                        self.second.spec_without(Cards::spec_just(second_card))
                    } else {
                        self.second
                    },
                    count_s: if second_follows {
                        self.count_s
                    } else {
                        (self.count_s + 1) as u8
                    },
                    points: (self.points + highest.spec_to_points().0 + if first_follows {
                        first_card.spec_to_points().0
                    } else {
                        0u8
                    } + if second_follows {
                        second_card.spec_to_points().0
                    } else {
                        0u8
                    }) as u8,
                    ..self
                },
            )
        }
    }

    /// The declarer leads a suit from the top as long as he is sure of the
    /// trick, `tricks` tricks at most.
    pub open spec fn spec_lead_suit_out(
        self,
        card_type: CardType,
        game_type: GameType,
        trump_cards: Cards,
        tricks: nat,
    ) -> DeclarerRun
        decreases tricks,
    {
        if tricks == 0 {
            self
        } else {
            match self.spec_lead_suit(card_type, game_type, trump_cards) {
                None => self,
                Some(next) => next.spec_lead_suit_out(
                    card_type,
                    game_type,
                    trump_cards,
                    (tricks - 1) as nat,
                ),
            }
        }
    }

    /// The declarer leads the suits from `turn` on, one after the other, each
    /// as long as he is sure of the trick.
    pub open spec fn spec_lead_suits(self, game_type: GameType, trump_cards: Cards, turn: int) -> DeclarerRun
        decreases 4 - turn,
    {
        if turn >= 4 {
            self
        } else {
            self.spec_lead_suit_out(
                CardType::Suit(spec_suit_by_turn(turn)),
                game_type,
                trump_cards,
                11,
            ).spec_lead_suits(game_type, trump_cards, turn + 1)
        }
    }

    /// All tricks that the declarer is sure of: the trumps, then what the
    /// defenders gave to them, then the suits.
    pub open spec fn spec_run(self, game_type: GameType, trump_cards: Cards) -> DeclarerRun {
        let trumps_led = self.spec_lead_trumps(trump_cards, 11);
        let first_gave = trumps_led.spec_first_gives_trumps(
            game_type,
            trumps_led.count_f_trump as nat,
        );
        let second_gave = first_gave.spec_second_gives_trumps(
            game_type,
            first_gave.count_s_trump as nat,
        );
        second_gave.spec_lead_suits(game_type, trump_cards, 0)
    }

    /// What the tricks give the declarer in points: what was counted, and for
    /// the tricks to which a defender could not follow, the cheapest cards
    /// that he has left.
    pub open spec fn spec_gain(self) -> nat {
        self.points as nat + cheapest_points(self.first, self.count_f as nat) + cheapest_points(
            self.second,
            self.count_s as nat,
        )
    }

    /// What holds between the tricks: the declarer has given a card to every
    /// trick, and the points are those of the cards that were counted.
    pub open spec fn inv(self, h: nat, total: nat) -> bool {
        &&& self.points + self.declarer.spec_to_points() + self.first.spec_to_points()
            + self.second.spec_to_points() == total
        &&& total <= 120
        &&& h <= 10
        &&& self.tricks + self.declarer.spec_len() == h
        &&& self.count_f <= self.tricks
        &&& self.count_s <= self.tricks
    }

    /// What holds between the tricks in which trumps are led: the defenders have
    /// not given a card yet, and have followed with a trump or not.
    pub open spec fn inv_trumps(self, h: nat, total: nat, trump_cards: Cards) -> bool {
        &&& self.inv(h, total)
        &&& self.first.spec_len() == h
        &&& self.second.spec_len() == h
        &&& self.count_f + self.count_f_trump == self.tricks
        &&& self.count_s + self.count_s_trump == self.tricks
        &&& self.first_for_trumps.spec_and(trump_cards).spec_len() + self.count_f_trump
            == self.first.spec_and(trump_cards).spec_len()
        &&& self.second_for_trumps.spec_and(trump_cards).spec_len() + self.count_s_trump
            == self.second.spec_and(trump_cards).spec_len()
    }

    /// What holds between the tricks in which suits are led: each defender has
    /// given a card to every trick but those to which he could not follow.
    pub open spec fn inv_suits(self, h: nat, total: nat) -> bool {
        &&& self.inv(h, total)
        &&& self.tricks - self.count_f + self.first.spec_len() == h
        &&& self.tricks - self.count_s + self.second.spec_len() == h
    }

    fn lead_trump(&mut self, trump_cards: Cards, game_type: GameType, Ghost(h): Ghost<nat>, Ghost(total): Ghost<nat>) -> (applied: bool)
        requires
            old(self).inv_trumps(h, total, trump_cards),
            trump_cards == Cards::spec_of_card_type(CardType::Trump, game_type),
        ensures
            final(self).inv_trumps(h, total, trump_cards),
            applied ==> final(self).tricks == old(self).tricks + 1,
            !applied ==> *final(self) == *old(self),
            old(self).spec_lead_trump(trump_cards) == if applied {
                Some(*final(self))
            } else {
                None
            },
    {
        proof {
            broadcast use group_cards;

        }
        let outstanding = self.declarer.or(self.first_for_trumps).or(self.second_for_trumps).and(
            trump_cards,
        );
        let Some(matador) = outstanding.highest_non_null() else {
            return false;
        };
        if !self.declarer.remove_if_there(matador) {
            return false;
        }
        self.tricks += 1;
        self.points += matador.to_points().0;

        let ghost before_f = self.first_for_trumps;
        match self.first_for_trumps.remove_lowest_of_type(CardType::Trump, game_type) {
            Some(low_trump) => {
                proof {
                    Cards::lemma_of_card_type(CardType::Trump, game_type, low_trump);
                    before_f.lemma_measure_remove_within(low_trump, trump_cards);
                }
                self.count_f_trump += 1;
            },
            None => {
                self.count_f += 1;
            },
        }

        let ghost before_s = self.second_for_trumps;
        match self.second_for_trumps.remove_lowest_of_type(CardType::Trump, game_type) {
            Some(low_trump) => {
                proof {
                    Cards::lemma_of_card_type(CardType::Trump, game_type, low_trump);
                    before_s.lemma_measure_remove_within(low_trump, trump_cards);
                }
                self.count_s_trump += 1;
            },
            None => {
                self.count_s += 1;
            },
        }
        true
    }

    fn lead_suit(
        &mut self,
        card_type: CardType,
        game_type: GameType,
        trump_cards: Cards,
        Ghost(h): Ghost<nat>,
        Ghost(total): Ghost<nat>,
    ) -> (applied: bool)
        requires
            old(self).inv_suits(h, total),
        ensures
            final(self).inv_suits(h, total),
            applied ==> final(self).tricks == old(self).tricks + 1,
            !applied ==> *final(self) == *old(self),
            old(self).spec_lead_suit(card_type, game_type, trump_cards) == if applied {
                Some(*final(self))
            } else {
                None
            },
    {
        proof {
            broadcast use group_cards;

        }
        let cards_of_type = Cards::of_card_type(card_type, game_type);
        let first_cannot_ruff = !self.first.and(cards_of_type).is_empty() || self.first.and(
            trump_cards,
        ).is_empty();
        let second_cannot_ruff = !self.second.and(cards_of_type).is_empty() || self.second.and(
            trump_cards,
        ).is_empty();
        if !(first_cannot_ruff && second_cannot_ruff) {
            return false;
        }
        let outstanding = self.declarer.or(self.first).or(self.second).and(cards_of_type);
        let Some(highest) = outstanding.highest_non_null() else {
            return false;
        };
        if !self.declarer.remove_if_there(highest) {
            return false;
        }
        self.tricks += 1;
        self.points += highest.to_points().0;

        match self.first.remove_lowest_of_type(card_type, game_type) {
            Some(lowest) => {
                self.points += lowest.to_points().0;
            },
            None => {
                self.count_f += 1;
            },
        }

        match self.second.remove_lowest_of_type(card_type, game_type) {
            Some(lowest) => {
                self.points += lowest.to_points().0;
            },
            None => {
                self.count_s += 1;
            },
        }
        true
    }
}

impl OpenSituation {
    /// The lower bound for a trump game in which the declarer leads: what the
    /// tricks that he is sure of give him.
    pub open spec fn spec_lower_bound_non_null_declarer_forehand(self, trump: CardType) -> TrickYield {
        let game_type = GameType::Trump(trump);
        let trump_cards = Cards::spec_of_card_type(CardType::Trump, game_type);
        let run = DeclarerRun::start(self).spec_run(game_type, trump_cards);
        TrickYield { card_points: CardPoints(run.spec_gain() as u8), number_of_tricks: run.tricks }
    }

    /// A lower bound for a trump game in which the declarer leads: what he gets
    /// by leading his trumps from the top as long as he holds the highest trump
    /// that is out, and then, suit by suit, his cards of the suit from the top
    /// as long as he holds the highest of the suit that is out and no defender
    /// can ruff. The defenders give their lowest cards of what is led, or,
    /// where they cannot follow, their cheapest cards at the end.
    pub fn lower_bound_non_null_declarer_forehand(self, trump: CardType) -> (r: TrickYield)
        requires
            self.wf(),
            self.spec_active_role() == Role::Declarer,
            !self.spec_is_trick_in_progress(),
        ensures
            r == self.spec_lower_bound_non_null_declarer_forehand(trump),
            r.card_points.0 <= self.spec_naive_upper().card_points.0,
            r.number_of_tricks <= self.spec_naive_upper().number_of_tricks,
    {
        let game_type = GameType::Trump(trump);
        let trump_cards = Cards::of_card_type(CardType::Trump, game_type);

        let mut run = DeclarerRun {
            declarer: *self.hand_cards_of(Role::Declarer),
            first: *self.hand_cards_of(Role::FirstDefender),
            second: *self.hand_cards_of(Role::SecondDefender),
            first_for_trumps: *self.hand_cards_of(Role::FirstDefender),
            second_for_trumps: *self.hand_cards_of(Role::SecondDefender),
            count_f: 0,
            count_s: 0,
            count_f_trump: 0,
            count_s_trump: 0,
            points: 0,
            tricks: 0,
        };
        let ghost start = run;
        let ghost h = self.cards_per_player();
        let ghost total = self.spec_naive_upper().card_points.0 as nat;
        proof {
            self.lemma_naive_upper();
        }

        loop
            invariant
                run.inv_trumps(h, total, trump_cards),
                trump_cards == Cards::spec_of_card_type(CardType::Trump, game_type),
                run.spec_lead_trumps(trump_cards, (11 - run.tricks) as nat)
                    == start.spec_lead_trumps(trump_cards, 11),
            ensures
                run.inv_trumps(h, total, trump_cards),
                run == start.spec_lead_trumps(trump_cards, 11),
            decreases h - run.tricks,
        {
            if !run.lead_trump(trump_cards, game_type, Ghost(h), Ghost(total)) {
                break ;
            }
        }

        let ghost trumps_led = run;
        let mut given: u8 = 0;
        while given < run.count_f_trump
            invariant
                given <= run.count_f_trump,
                trump_cards == Cards::spec_of_trump(game_type),
                run.inv(h, total),
                run.first.spec_and(trump_cards).spec_len() >= run.count_f_trump - given,
                run.tricks - (run.count_f_trump - given) - run.count_f + run.first.spec_len() == h,
                run.second.spec_len() == h,
                run.count_s + run.count_s_trump == run.tricks,
                run.second.spec_and(trump_cards).spec_len() >= run.count_s_trump,
                run.count_f_trump == trumps_led.count_f_trump,
                run.spec_first_gives_trumps(game_type, (run.count_f_trump - given) as nat)
                    == trumps_led.spec_first_gives_trumps(
                    game_type,
                    trumps_led.count_f_trump as nat,
                ),
            decreases run.count_f_trump - given,
        {
            let available = run.first.and(Cards::of_trump(game_type));
            proof {
                available.lemma_len_bounds();
            }
            let card = cheapest_trump(available);
            proof {
                run.first.lemma_and(trump_cards, card);
                run.first.lemma_measure_remove_within(card, trump_cards);
            }
            run.first.remove_existing(card);
            run.points += card.to_points().0;
            given += 1;
        }

        let ghost first_gave = run;
        let mut given: u8 = 0;
        while given < run.count_s_trump
            invariant
                given <= run.count_s_trump,
                trump_cards == Cards::spec_of_trump(game_type),
                run.inv(h, total),
                run.second.spec_and(trump_cards).spec_len() >= run.count_s_trump - given,
                run.tricks - (run.count_s_trump - given) - run.count_s + run.second.spec_len() == h,
                run.tricks - run.count_f + run.first.spec_len() == h,
                run.count_s_trump == first_gave.count_s_trump,
                run.spec_second_gives_trumps(game_type, (run.count_s_trump - given) as nat)
                    == first_gave.spec_second_gives_trumps(
                    game_type,
                    first_gave.count_s_trump as nat,
                ),
            decreases run.count_s_trump - given,
        {
            let available = run.second.and(Cards::of_trump(game_type));
            proof {
                available.lemma_len_bounds();
            }
            let card = cheapest_trump(available);
            proof {
                run.second.lemma_and(trump_cards, card);
                run.second.lemma_measure_remove_within(card, trump_cards);
            }
            run.second.remove_existing(card);
            run.points += card.to_points().0;
            given += 1;
        }

        let ghost second_gave = run;
        let mut turn: u8 = 0;
        while turn < 4
            invariant
                turn <= 4,
                run.inv_suits(h, total),
                run.spec_lead_suits(game_type, trump_cards, turn as int)
                    == second_gave.spec_lead_suits(game_type, trump_cards, 0),
            decreases 4 - turn,
        {
            let card_type = CardType::Suit(suit_by_turn(turn));
            let ghost suit_start = run;

            loop
                invariant
                    run.inv_suits(h, total),
                    suit_start.tricks <= run.tricks,
                    run.spec_lead_suit_out(
                        card_type,
                        game_type,
                        trump_cards,
                        (11 - (run.tricks - suit_start.tricks)) as nat,
                    ) == suit_start.spec_lead_suit_out(card_type, game_type, trump_cards, 11),
                ensures
                    run.inv_suits(h, total),
                    run == suit_start.spec_lead_suit_out(card_type, game_type, trump_cards, 11),
                decreases h - run.tricks,
            {
                if !run.lead_suit(card_type, game_type, trump_cards, Ghost(h), Ghost(total)) {
                    break ;
                }
            }
            turn += 1;
        }

        proof {
            run.first.lemma_len_bounds();
            run.second.lemma_len_bounds();
        }
        let from_first = points_of_cheapest(run.first, run.count_f, Ghost(total));
        let from_second = points_of_cheapest(run.second, run.count_s, Ghost(total));
        let points = run.points + from_first + from_second;

        TrickYield::new(CardPoints(points), run.tricks)
    }

    /// Whether the quick bounds look closer than at what lies in the cellar:
    /// they do in a trump game when no card lies on the table.
    pub open spec fn leads_in_trump_game(self, game_type: GameType) -> bool {
        !self.spec_is_trick_in_progress() && game_type != GameType::Null
    }

    /// The quick bounds of a position. The upper bound is the naive one, all
    /// points and tricks that are not in the cellar, but in a trump game that
    /// a defender leads: there it is the naive bound less the tricks that the
    /// defenders are sure of. The lower bound is nothing, but in a trump
    /// game that the declarer leads: there it is what the declarer is sure
    /// of.
    pub open spec fn spec_quick_bounds(self, game_type: GameType) -> Bounds {
        Bounds {
            lower: match game_type {
                GameType::Trump(trump) => if !self.spec_is_trick_in_progress()
                    && self.spec_active_role() == Role::Declarer {
                    self.spec_lower_bound_non_null_declarer_forehand(trump)
                } else {
                    TrickYield::spec_zero_tricks()
                },
                GameType::Null => TrickYield::spec_zero_tricks(),
            },
            upper: match game_type {
                GameType::Trump(trump) => if !self.spec_is_trick_in_progress()
                    && self.spec_active_role() != Role::Declarer {
                    self.spec_upper_bound_non_null_defender_forehand(trump)
                } else {
                    self.spec_naive_upper()
                },
                GameType::Null => self.spec_naive_upper(),
            },
        }
    }

    /// What holds of the quick bounds of a position of a game: both bounds stay
    /// within the naive upper bound, so the lower bound is never above the
    /// upper bound.
    pub open spec fn is_quick_bounds(self, game_type: GameType, bounds: Bounds) -> bool {
        &&& bounds == self.spec_quick_bounds(game_type)
        &&& bounds.upper.card_points.0 <= self.spec_naive_upper().card_points.0
        &&& bounds.upper.number_of_tricks <= self.spec_naive_upper().number_of_tricks
        &&& bounds.lower.card_points.0 <= self.spec_naive_upper().card_points.0
        &&& bounds.lower.number_of_tricks <= self.spec_naive_upper().number_of_tricks
        &&& bounds.is_interval()
        &&& bounds.upper.spec_le(TrickYield::spec_max_yield())
    }

    /// Bounds for the declarer's future yield that cost no search.
    pub fn quick_bounds(self, game_type: GameType) -> (r: Bounds)
        requires
            self.wf(),
        ensures
            r == self.spec_quick_bounds(game_type),
            self.is_quick_bounds(game_type, r),
    {
        let is_trick_in_progress = self.is_trick_in_progress();

        let lower = match (is_trick_in_progress, self.active_role(), game_type) {
            (false, Role::Declarer, GameType::Trump(trump)) => {
                self.lower_bound_non_null_declarer_forehand(trump)
            },
            _ => TrickYield::zero_tricks(),
        };

        let upper = match (is_trick_in_progress, self.active_role(), game_type) {
            (false, Role::FirstDefender | Role::SecondDefender, GameType::Trump(trump)) => {
                self.upper_bound_non_null_defender_forehand(trump)
            },
            _ => self.naive_upper(),
        };

        Bounds::new(lower, upper)
    }
}

} // verus!
