use vstd::prelude::*;
use crate::bounds::Bounds;
use crate::card::Card;
use crate::card_points::CardPoints;
use crate::cards::{group_cards, in_same_block, point_distance, Cards};
use crate::game_type::GameType;
use crate::minimax_role::MinimaxRole;
use crate::situation::OpenSituation;
use crate::trick_yield::TrickYield;

verus! {

/// The better of two yields for the player who wants the declarer's yield to
/// be large, or small.
pub open spec fn better_of(minimax_role: MinimaxRole, a: TrickYield, b: TrickYield) -> TrickYield {
    match minimax_role {
        MinimaxRole::Max => a.spec_max(b),
        MinimaxRole::Min => a.spec_min(b),
    }
}

/// What the declarer still gets if the player to move plays the card and all
/// three play as well as they can for `plies` cards after it: what he gets
/// for the card, and what he gets after it.
pub open spec fn outcome_within(
    open_situation: OpenSituation,
    game_type: GameType,
    card: Card,
    plies: nat,
) -> TrickYield
    decreases plies, 0nat,
{
    if plies == 0 {
        TrickYield::spec_zero_tricks()
    } else {
        optimal_within(
            open_situation.spec_play_card(card, game_type),
            game_type,
            (plies - 1) as nat,
        ).spec_plus(open_situation.yield_of(card, game_type))
    }
}

/// The best outcome for the player to move among the cards that he may play and
/// that stand at `place` or later in the list of all cards, if there is one.
pub open spec fn best_from(
    open_situation: OpenSituation,
    game_type: GameType,
    plies: nat,
    place: nat,
) -> Option<TrickYield>
    decreases plies, 33 - place,
{
    if place >= 32 {
        None
    } else {
        let card = Card::spec_from_index(place as u32);
        let rest = best_from(open_situation, game_type, plies, place + 1);
        if !open_situation.spec_next_possible_plays(game_type).spec_contains(card) {
            rest
        } else {
            let outcome = outcome_within(open_situation, game_type, card, plies);
            match rest {
                None => Some(outcome),
                Some(other) => Some(
                    better_of(open_situation.spec_active_minimax_role(game_type), outcome, other),
                ),
            }
        }
    }
}

/// What the declarer still gets from a position if all three play as well as
/// they can for `plies` cards: the best outcome for the player to move among
/// his cards, and nothing if he has no card.
pub open spec fn optimal_within(open_situation: OpenSituation, game_type: GameType, plies: nat) -> TrickYield
    decreases plies, 34nat,
{
    if plies == 0 {
        TrickYield::spec_zero_tricks()
    } else {
        match best_from(open_situation, game_type, plies, 0) {
            None => TrickYield::spec_zero_tricks(),
            Some(best) => best,
        }
    }
}

impl OpenSituation {
    /// What the declarer still gets from the position if all three play as well
    /// as they can until the last card: the declarer and, in a Null game, the
    /// defenders for a large yield, the others for a small one.
    pub open spec fn optimal_yield(self, game_type: GameType) -> TrickYield {
        optimal_within(self, game_type, self.spec_remaining_cards_in_hands().spec_len())
    }

    /// What the declarer still gets if the player to move plays the card and all
    /// three play as well as they can after it.
    pub open spec fn outcome_of(self, card: Card, game_type: GameType) -> TrickYield {
        self.spec_play_card(card, game_type).optimal_yield(game_type).spec_plus(
            self.yield_of(card, game_type),
        )
    }

    /// The best that the player to move can do is at least as good for him as
    /// every card that he may play, and is what one of his cards gives.
    pub proof fn lemma_optimal_yield(self, game_type: GameType)
        requires
            self.wf(),
        ensures
            forall|card: Card| #[trigger]
                self.spec_next_possible_plays(game_type).spec_contains(card) ==> match self.spec_active_minimax_role(
                    game_type,
                ) {
                    MinimaxRole::Max => self.outcome_of(card, game_type).spec_le(
                        self.optimal_yield(game_type),
                    ),
                    MinimaxRole::Min => self.optimal_yield(game_type).spec_le(
                        self.outcome_of(card, game_type),
                    ),
                },
            !self.spec_next_possible_plays(game_type).spec_is_empty() ==> exists|card: Card| #[trigger]
                self.spec_next_possible_plays(game_type).spec_contains(card) && self.outcome_of(
                    card,
                    game_type,
                ) == self.optimal_yield(game_type),
            self.spec_next_possible_plays(game_type).spec_is_empty() ==> self.optimal_yield(
                game_type,
            ) == TrickYield::spec_zero_tricks(),
    {
        broadcast use group_cards;

        let plies = self.spec_remaining_cards_in_hands().spec_len();
        let legal = self.spec_next_possible_plays(game_type);
        self.lemma_possible_plays_are_in_hand(game_type);
        assert forall|card: Card| #[trigger] legal.spec_contains(card) implies outcome_within(
            self,
            game_type,
            card,
            plies,
        ) == self.outcome_of(card, game_type) by {
            self.lemma_play_card_keeps_wf(card, game_type);
            self.spec_remaining_cards_in_hands().lemma_len_bounds();
            assert(plies > 0);
        }
        self.lemma_best_from(game_type, plies, 0);
        if legal.spec_is_empty() {
            assert(self.optimal_yield(game_type) == TrickYield::spec_zero_tricks());
        } else {
            let witness = legal.spec_lowest();
            assert(legal.spec_contains(witness));
            assert(self.spec_remaining_cards_in_hands().spec_contains(witness));
            self.spec_remaining_cards_in_hands().lemma_len_bounds();
            assert(plies > 0);
            witness.lemma_index();
            assert(best_from(self, game_type, plies, 0) is Some);
            let best = best_from(self, game_type, plies, 0)->0;
            let card = choose|card: Card|
                card.index() >= 0 && #[trigger] legal.spec_contains(card) && outcome_within(
                    self,
                    game_type,
                    card,
                    plies,
                ) == best;
            assert(legal.spec_contains(card) && self.outcome_of(card, game_type)
                == self.optimal_yield(game_type));
            assert forall|card: Card| #[trigger] legal.spec_contains(card) implies match self.spec_active_minimax_role(
                game_type,
            ) {
                MinimaxRole::Max => self.outcome_of(card, game_type).spec_le(
                    self.optimal_yield(game_type),
                ),
                MinimaxRole::Min => self.optimal_yield(game_type).spec_le(
                    self.outcome_of(card, game_type),
                ),
            } by {
                card.lemma_index();
            }
        }
    }

    /// The best outcome among the cards from a place on is at least as good as
    /// each of them, and is the outcome of one of them.
    proof fn lemma_best_from(self, game_type: GameType, plies: nat, place: nat)
        ensures
            ({
                let legal = self.spec_next_possible_plays(game_type);
                let role = self.spec_active_minimax_role(game_type);
                match best_from(self, game_type, plies, place) {
                    None => forall|card: Card|
                        card.index() >= place ==> !#[trigger] legal.spec_contains(card),
                    Some(best) => {
                        &&& forall|card: Card|
                            card.index() >= place && #[trigger] legal.spec_contains(card)
                                ==> match role {
                                MinimaxRole::Max => outcome_within(
                                    self,
                                    game_type,
                                    card,
                                    plies,
                                ).spec_le(best),
                                MinimaxRole::Min => best.spec_le(
                                    outcome_within(self, game_type, card, plies),
                                ),
                            }
                        &&& exists|card: Card|
                            card.index() >= place && #[trigger] legal.spec_contains(card)
                                && outcome_within(self, game_type, card, plies) == best
                    },
                }
            }),
        decreases 33 - place,
    {
        let legal = self.spec_next_possible_plays(game_type);
        let role = self.spec_active_minimax_role(game_type);
        if place >= 32 {
            assert forall|card: Card| card.index() >= place implies !#[trigger] legal.spec_contains(
                card,
            ) by {
                card.lemma_index();
            }
        } else {
            self.lemma_best_from(game_type, plies, place + 1);
            let here = Card::spec_from_index(place as u32);
            Card::lemma_from_index(place as u32);
            let rest = best_from(self, game_type, plies, place + 1);
            assert forall|card: Card| card.index() >= place implies card == here || card.index()
                >= place + 1 by {
                card.lemma_index();
            }
            if legal.spec_contains(here) {
                let outcome = outcome_within(self, game_type, here, plies);
                match rest {
                    None => {
                        assert(here.index() >= place && legal.spec_contains(here)
                            && outcome_within(self, game_type, here, plies) == outcome);
                    },
                    Some(other) => {
                        let best = better_of(role, outcome, other);
                        let from_rest = choose|card: Card|
                            card.index() >= place + 1 && #[trigger] legal.spec_contains(card)
                                && outcome_within(self, game_type, card, plies) == other;
                        if best == outcome {
                            assert(here.index() >= place && legal.spec_contains(here)
                                && outcome_within(self, game_type, here, plies) == best);
                        } else {
                            assert(from_rest.index() >= place && legal.spec_contains(from_rest)
                                && outcome_within(self, game_type, from_rest, plies) == best);
                        }
                    },
                }
            } else {
                match rest {
                    None => {},
                    Some(other) => {
                        let from_rest = choose|card: Card|
                            card.index() >= place + 1 && #[trigger] legal.spec_contains(card)
                                && outcome_within(self, game_type, card, plies) == other;
                        assert(from_rest.index() >= place && legal.spec_contains(from_rest)
                            && outcome_within(self, game_type, from_rest, plies) == other);
                    },
                }
            }
        }
    }
}

/// The yield is within the bounds: at least the lower and at most the upper
/// bound.
pub open spec fn holds_of(bounds: Bounds, value: TrickYield) -> bool {
    bounds.lower.spec_le(value) && value.spec_le(bounds.upper)
}

/// The bounds are right for the position: the declarer's yield under best play
/// of all three is within them, and the upper bound asks for no more than
/// what is not in the cellar.
pub open spec fn is_sound_for(
    bounds: Bounds,
    open_situation: OpenSituation,
    game_type: GameType,
) -> bool {
    &&& holds_of(bounds, open_situation.optimal_yield(game_type))
    &&& bounds.upper.spec_le(open_situation.spec_naive_upper())
}


impl OpenSituation {
    /// Under best play of all three the declarer gets no more than what is not
    /// in the cellar, in points and in tricks.
    pub proof fn lemma_optimal_yield_is_within_what_is_left(self, game_type: GameType)
        requires
            self.wf(),
        ensures
            self.optimal_yield(game_type).card_points.0 <= self.spec_naive_upper().card_points.0,
            self.optimal_yield(game_type).number_of_tricks
                <= self.spec_naive_upper().number_of_tricks,
        decreases self.spec_remaining_cards_in_hands().spec_len(),
    {
        broadcast use group_cards;

        self.lemma_optimal_yield(game_type);
        self.lemma_all_cards_accounted_for();
        if !self.spec_next_possible_plays(game_type).spec_is_empty() {
            let card = choose|card: Card| #[trigger]
                self.spec_next_possible_plays(game_type).spec_contains(card) && self.outcome_of(
                    card,
                    game_type,
                ) == self.optimal_yield(game_type);
            let child = self.spec_play_card(card, game_type);
            self.lemma_play_card_keeps_wf(card, game_type);
            self.lemma_cellar_after_a_card(card, game_type);
            child.lemma_all_cards_accounted_for();
            child.lemma_optimal_yield_is_within_what_is_left(game_type);
            self.completed_trick(card).lemma_points_bound();
        }
    }

    /// The bounds that look at nothing but the cellar are right: under best
    /// play of all three the declarer gets at least nothing and at most what
    /// is not in the cellar.
    pub proof fn lemma_naive_bounds_are_sound(self, game_type: GameType)
        requires
            self.wf(),
        ensures
            is_sound_for(
                Bounds { lower: TrickYield::spec_zero_tricks(), upper: self.spec_naive_upper() },
                self,
                game_type,
            ),
    {
        self.lemma_optimal_yield_is_within_what_is_left(game_type);
    }

    /// Where the quick bounds look at nothing but the cellar they are right: in
    /// a Null game, and with a card on the table.
    pub proof fn lemma_quick_bounds_are_sound_where_naive(self, game_type: GameType)
        requires
            self.wf(),
            !self.leads_in_trump_game(game_type),
        ensures
            is_sound_for(self.spec_quick_bounds(game_type), self, game_type),
    {
        self.lemma_naive_bounds_are_sound(game_type);
    }
}

/// The quick bounds are right for every position of a game of the type.
#[verifier::opaque]
pub open spec fn quick_bounds_are_sound(game_type: GameType) -> bool {
    forall|open_situation: OpenSituation|
        open_situation.wf() ==> holds_of(
            #[trigger] open_situation.spec_quick_bounds(game_type),
            open_situation.optimal_yield(game_type),
        )
}

/// A card that can stand in for another gives about what the other gives: bounds
/// that hold of what the one card gives hold, made wider by the distance of
/// the two cards in points, of what the other gives. This is asked of all
/// positions of a game of the type, of cards that may be played in them, and
/// of distances up to `max_delta` points.
#[verifier::opaque]
pub open spec fn stand_ins_are_sound(game_type: GameType, max_delta: CardPoints) -> bool {
    forall|open_situation: OpenSituation, card: Card, other: Card, delta: CardPoints, bounds: Bounds|
        #![trigger
            bounds.widened(delta),
            open_situation.outcome_of(other, game_type),
            open_situation.outcome_of(card, game_type)
        ]
        {
            &&& open_situation.wf()
            &&& open_situation.spec_next_possible_plays(game_type).spec_contains(card)
            &&& open_situation.spec_next_possible_plays(game_type).spec_contains(other)
            &&& in_same_block(card, other, open_situation.spec_in_hand_or_yielded(), game_type)
            &&& point_distance(other, card) <= delta.0 <= max_delta.0
            &&& holds_of(bounds, open_situation.outcome_of(card, game_type))
        } ==> holds_of(bounds.widened(delta), open_situation.outcome_of(other, game_type))
}

/// The most points by which two cards may differ that stand in for each other
/// in the solver.
pub open spec fn spec_greatest_stand_in_distance() -> CardPoints {
    CardPoints(1)
}

/// What the solver takes for granted of the game: that the quick bounds are
/// right, and that cards that stand in for each other give about the same.
pub open spec fn heuristics_are_sound(game_type: GameType) -> bool {
    quick_bounds_are_sound(game_type) && stand_ins_are_sound(
        game_type,
        spec_greatest_stand_in_distance(),
    )
}

/// The quick bounds of a position are right if the quick bounds are.
pub proof fn lemma_quick_bounds(open_situation: OpenSituation, game_type: GameType)
    requires
        quick_bounds_are_sound(game_type),
        open_situation.wf(),
        open_situation.is_quick_bounds(game_type, open_situation.spec_quick_bounds(game_type)),
    ensures
        is_sound_for(open_situation.spec_quick_bounds(game_type), open_situation, game_type),
{
    reveal(quick_bounds_are_sound);
}

/// What holds of a card holds, made wider, of a card that stands in for it, if
/// stand-ins are sound.
pub proof fn lemma_stand_in(
    open_situation: OpenSituation,
    game_type: GameType,
    card: Card,
    other: Card,
    delta: CardPoints,
    bounds: Bounds,
)
    requires
        stand_ins_are_sound(game_type, spec_greatest_stand_in_distance()),
        open_situation.wf(),
        open_situation.spec_next_possible_plays(game_type).spec_contains(card),
        open_situation.spec_next_possible_plays(game_type).spec_contains(other),
        in_same_block(card, other, open_situation.spec_in_hand_or_yielded(), game_type),
        point_distance(other, card) <= delta.0 <= 1,
        holds_of(bounds, open_situation.outcome_of(card, game_type)),
    ensures
        holds_of(bounds.widened(delta), open_situation.outcome_of(other, game_type)),
{
    reveal(stand_ins_are_sound);
}


/// Every card that may be played and is no longer among the cards that are
/// still to be looked at gives the player to move no more than `best`: the
/// declarer gets at most `best` for it if the player wants his yield to be
/// large, and at least `best` if he wants it to be small.
pub open spec fn settles(
    open_situation: OpenSituation,
    game_type: GameType,
    still_considered: Cards,
    best: TrickYield,
) -> bool {
    forall|card: Card|
        open_situation.spec_next_possible_plays(game_type).spec_contains(card)
            && !still_considered.spec_contains(card) ==> match open_situation.spec_active_minimax_role(
            game_type,
        ) {
            MinimaxRole::Max => (#[trigger] open_situation.outcome_of(card, game_type)).spec_le(
                best,
            ),
            MinimaxRole::Min => best.spec_le(open_situation.outcome_of(card, game_type)),
        }
}

impl OpenSituation {
    /// A player without a card to play is in a position in which nothing is
    /// left to get.
    pub proof fn lemma_no_play_means_nothing_left(self, game_type: GameType)
        requires
            self.wf(),
            self.spec_next_possible_plays(game_type).spec_is_empty(),
        ensures
            self.spec_naive_upper() == TrickYield::spec_zero_tricks(),
    {
        broadcast use group_cards;

        self.lemma_all_cards_accounted_for();
        Cards::lemma_measure_constants();
        let hand = self.spec_hand_cards_of(self.spec_active_role());
        assert(hand.spec_is_empty()) by {
            if !hand.spec_is_empty() {
                self.lemma_a_card_may_be_played(game_type);
            }
        }
        assert(self.cards_per_player() == 0);
        assert(self.spec_cellar().spec_len() == 32);
        self.spec_active_role().lemma_next_cycles();
        self.spec_partial_trick().lemma_cards_measure();
        self.spec_partial_trick().spec_cards().lemma_len_bounds();
        self.spec_cellar().lemma_ext(Cards::spec_all());
    }

    /// What right bounds for the position after a card say of the position
    /// before it: with what the card gives added, they hold of what the card
    /// gives in all; and what the card gives in all is no better for the player
    /// to move than the best that he can do.
    pub proof fn lemma_bounds_via_child(self, game_type: GameType, card: Card, child_bounds: Bounds)
        requires
            self.wf(),
            self.spec_next_possible_plays(game_type).spec_contains(card),
            is_sound_for(child_bounds, self.spec_play_card(card, game_type), game_type),
        ensures
            ({
                let gained = self.yield_of(card, game_type);
                let via_child = Bounds {
                    lower: child_bounds.lower.spec_plus(gained),
                    upper: child_bounds.upper.spec_plus(gained),
                };
                &&& holds_of(via_child, self.outcome_of(card, game_type))
                &&& self.spec_active_minimax_role(game_type) == MinimaxRole::Max
                    ==> via_child.lower.spec_le(self.optimal_yield(game_type))
                &&& self.spec_active_minimax_role(game_type) == MinimaxRole::Min
                    ==> self.optimal_yield(game_type).spec_le(via_child.upper)
            }),
    {
        let child = self.spec_play_card(card, game_type);
        let gained = self.yield_of(card, game_type);
        let value = child.optimal_yield(game_type);
        self.lemma_play_card_keeps_wf(card, game_type);
        child.lemma_optimal_yield_is_within_what_is_left(game_type);
        self.completed_trick(card).lemma_points_bound();
        child_bounds.lower.lemma_plus_keeps_order(value, gained);
        value.lemma_plus_keeps_order(child_bounds.upper, gained);
        self.lemma_optimal_yield(game_type);
    }

    /// After a card that did not decide the threshold, the card and the cards
    /// that stand in for it are settled by the bound that the card gave, made
    /// wider by the greatest distance of a stand-in.
    pub proof fn lemma_settles_more(
        self,
        game_type: GameType,
        card: Card,
        via_child: Bounds,
        delta: CardPoints,
        banned: Cards,
        still_before: Cards,
        best_before: TrickYield,
    )
        requires
            self.wf(),
            stand_ins_are_sound(game_type, spec_greatest_stand_in_distance()),
            settles(self, game_type, still_before.spec_or(Cards::spec_just(card)), best_before),
            self.spec_next_possible_plays(game_type).spec_contains(card),
            holds_of(via_child, self.outcome_of(card, game_type)),
            delta.0 <= 1,
            forall|other: Card| #[trigger]
                banned.spec_contains(other) ==> {
                    &&& self.spec_next_possible_plays(game_type).spec_contains(other)
                    &&& in_same_block(card, other, self.spec_in_hand_or_yielded(), game_type)
                    &&& point_distance(other, card) <= delta.0
                },
        ensures
            settles(
                self,
                game_type,
                still_before.spec_without(banned),
                match self.spec_active_minimax_role(game_type) {
                    MinimaxRole::Max => best_before.spec_max(via_child.upper.spec_add(delta)),
                    MinimaxRole::Min => best_before.spec_min(via_child.lower.spec_sub(delta)),
                },
            ),
    {
        broadcast use group_cards;

        let role = self.spec_active_minimax_role(game_type);
        let best = match role {
            MinimaxRole::Max => best_before.spec_max(via_child.upper.spec_add(delta)),
            MinimaxRole::Min => best_before.spec_min(via_child.lower.spec_sub(delta)),
        };
        let still = still_before.spec_without(banned);
        assert forall|other: Card|
            self.spec_next_possible_plays(game_type).spec_contains(other) && !still.spec_contains(
                other,
            ) implies match role {
            MinimaxRole::Max => (#[trigger] self.outcome_of(other, game_type)).spec_le(best),
            MinimaxRole::Min => best.spec_le(self.outcome_of(other, game_type)),
        } by {
            if banned.spec_contains(other) {
                lemma_stand_in(self, game_type, card, other, delta, via_child);
            } else if other == card {
            } else {
                assert(!still_before.spec_or(Cards::spec_just(card)).spec_contains(other));
            }
        }
    }

    /// When every card that may be played is settled by a bound, the best that
    /// the player to move can do is settled by it: the declarer gets at most
    /// the bound if the player wants a large yield, and, if he has a card to
    /// play and wants a small yield, at least the bound.
    pub proof fn lemma_all_settled(self, game_type: GameType, best: TrickYield)
        requires
            self.wf(),
            settles(self, game_type, Cards::spec_empty(), best),
        ensures
            self.spec_active_minimax_role(game_type) == MinimaxRole::Max ==> self.optimal_yield(
                game_type,
            ).spec_le(best),
            self.spec_active_minimax_role(game_type) == MinimaxRole::Min
                && !self.spec_next_possible_plays(game_type).spec_is_empty() ==> best.spec_le(
                self.optimal_yield(game_type),
            ),
    {
        broadcast use group_cards;

        self.lemma_optimal_yield(game_type);
        if !self.spec_next_possible_plays(game_type).spec_is_empty() {
            let card = choose|card: Card| #[trigger]
                self.spec_next_possible_plays(game_type).spec_contains(card) && self.outcome_of(
                    card,
                    game_type,
                ) == self.optimal_yield(game_type);
            assert(!Cards::spec_empty().spec_contains(card));
        }
    }
}

} // verus!
