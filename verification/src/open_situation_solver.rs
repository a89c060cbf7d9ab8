use std::time::{Duration, Instant};
use vstd::prelude::*;
use crate::bounds::Bounds;
use crate::card::{Card, CardType, Suit};
use crate::card_points::CardPoints;
use crate::cards::{group_cards, quasi_equivalent_with_max_delta, Cards};
use crate::game_type::GameType;
use crate::minimax_role::MinimaxRole;
use crate::open_situation_solver::bounds_and_preference::BoundsAndMaybePreference;
use crate::open_situation_solver::bounds_cache::{
    changed_only_within, entries_wf, is_within_game, knowledge_is_sound, lemma_changed_twice,
    lemma_sound_after_insert, lemma_sound_entry, lemma_tightened_twice, lemma_untouched,
    only_tightened, OpenSituationSolverCache, SituationKey,
};
use crate::optimal_play::{heuristics_are_sound, is_sound_for, lemma_quick_bounds, settles};
use crate::situation::OpenSituation;
use crate::trick_yield::TrickYield;

pub mod bounds_and_preference;
pub mod bounds_cache;

verus! {

/// A point in time, as the system's clock gives it. Nothing is known of it.
#[verifier::external_type_specification]
#[verifier::external_body]
pub struct ExInstant(Instant);

/// `Instant::now`: the time at the call. Nothing is claimed of it.
#[verifier::external_body]
fn current_instant() -> Instant {
    Instant::now()
}

/// `Instant::duration_since`: the time from `start` to `end`, which std gives
/// as zero where `start` is the later one. Nothing is claimed of it.
#[verifier::external_body]
fn time_between(start: &Instant, end: &Instant) -> Duration {
    end.duration_since(*start)
}

/// `Duration::saturating_add`: the sum of two durations, or the longest
/// duration if the sum is beyond it. Nothing is claimed of it.
#[verifier::external_body]
fn sum_of_durations(a: Duration, b: Duration) -> Duration {
    a.saturating_add(b)
}

/// `Duration::ZERO`. Nothing is claimed of it.
#[verifier::external_body]
fn no_duration() -> Duration {
    Duration::ZERO
}

/// The bounds decide the threshold for the player to move: the declarer gets
/// at least the threshold where he or his side moves to get much, and less
/// than the threshold where the mover wants him to get little.
pub open spec fn decides_for_mover(role: MinimaxRole, bounds: Bounds, threshold: TrickYield) -> bool {
    match role {
        MinimaxRole::Max => threshold.spec_le(bounds.lower),
        MinimaxRole::Min => bounds.upper.spec_lt(threshold),
    }
}

/// The bounds decide the threshold against the player to move.
pub open spec fn decides_against_mover(
    role: MinimaxRole,
    bounds: Bounds,
    threshold: TrickYield,
) -> bool {
    match role {
        MinimaxRole::Max => bounds.upper.spec_lt(threshold),
        MinimaxRole::Min => threshold.spec_le(bounds.lower),
    }
}

/// The five card types in the order in which they come when they branch alike.
pub open spec fn spec_type_by_turn(turn: int) -> CardType {
    if turn <= 0 {
        CardType::Trump
    } else if turn == 1 {
        CardType::Suit(Suit::Clubs)
    } else if turn == 2 {
        CardType::Suit(Suit::Diamonds)
    } else if turn == 3 {
        CardType::Suit(Suit::Hearts)
    } else {
        CardType::Suit(Suit::Spades)
    }
}

/// A card type's place in that order.
pub open spec fn turn_of_type(card_type: CardType) -> int {
    match card_type {
        CardType::Trump => 0,
        CardType::Suit(Suit::Clubs) => 1,
        CardType::Suit(Suit::Diamonds) => 2,
        CardType::Suit(Suit::Hearts) => 3,
        CardType::Suit(Suit::Spades) => 4,
    }
}

fn type_by_turn(turn: u8) -> (r: CardType)
    requires
        turn < 5,
    ensures
        r == spec_type_by_turn(turn as int),
        turn_of_type(r) == turn,
{
    match turn {
        0 => CardType::Trump,
        1 => CardType::Suit(Suit::Clubs),
        2 => CardType::Suit(Suit::Diamonds),
        3 => CardType::Suit(Suit::Hearts),
        _ => CardType::Suit(Suit::Spades),
    }
}

/// How many ways the two players after the leader have to answer a card of
/// the given type: the product of the numbers of cards that each may play.
pub open spec fn spec_branching(
    next_hand: Cards,
    next_next_hand: Cards,
    card_type: CardType,
    game_type: GameType,
) -> nat {
    next_hand.spec_possible_plays_for_trick_type(card_type, game_type).spec_len()
        * next_next_hand.spec_possible_plays_for_trick_type(card_type, game_type).spec_len()
}

fn branching(next_hand: Cards, next_next_hand: Cards, card_type: CardType, game_type: GameType) -> (r:
    u16)
    ensures
        r == spec_branching(next_hand, next_next_hand, card_type, game_type),
{
    let a: u16 = next_hand.possible_plays_for_trick_type(card_type, game_type).len() as u16;
    let b: u16 = next_next_hand.possible_plays_for_trick_type(card_type, game_type).len() as u16;
    assert(a * b <= 32 * 32) by (nonlinear_arith)
        requires
            a <= 32,
            b <= 32,
    ;
    a * b
}

/// A card type is tried before another: it branches less, or as much and
/// comes earlier in the order of the types.
pub open spec fn tried_before(
    next_hand: Cards,
    next_next_hand: Cards,
    game_type: GameType,
    a: CardType,
    b: CardType,
) -> bool {
    let branching_a = spec_branching(next_hand, next_next_hand, a, game_type);
    let branching_b = spec_branching(next_hand, next_next_hand, b, game_type);
    branching_a < branching_b || (branching_a == branching_b && turn_of_type(a) < turn_of_type(b))
}

/// The five card types, those that leave the other two players the fewest
/// answers first.
pub fn types_by_branching(next_hand: Cards, next_next_hand: Cards, game_type: GameType) -> (r: Vec<
    CardType,
>)
    ensures
        r@.len() == 5,
        forall|card_type: CardType| r@.contains(card_type),
        forall|i: int, j: int|
            0 <= i < j < 5 ==> tried_before(
                next_hand,
                next_next_hand,
                game_type,
                #[trigger] r@[i],
                #[trigger] r@[j],
            ),
{
    let mut result: Vec<CardType> = Vec::new();
    let mut turn: u8 = 0;
    while turn < 5
        invariant
            turn <= 5,
            result@.len() == turn,
            forall|i: int| 0 <= i < result@.len() ==> turn_of_type(#[trigger] result@[i]) < turn,
            forall|earlier: int|
                0 <= earlier < turn ==> result@.contains(#[trigger] spec_type_by_turn(earlier)),
            forall|i: int, j: int|
                0 <= i < j < result@.len() ==> tried_before(
                    next_hand,
                    next_next_hand,
                    game_type,
                    #[trigger] result@[i],
                    #[trigger] result@[j],
                ),
        decreases 5 - turn,
    {
        let card_type = type_by_turn(turn);
        let key = branching(next_hand, next_next_hand, card_type, game_type);
        let mut place: usize = 0;
        while place < result.len() && branching(
            next_hand,
            next_next_hand,
            result[place],
            game_type,
        ) <= key
            invariant
                place <= result@.len(),
                forall|i: int|
                    0 <= i < place ==> spec_branching(
                        next_hand,
                        next_next_hand,
                        #[trigger] result@[i],
                        game_type,
                    ) <= key,
            decreases result@.len() - place,
        {
            place += 1;
        }
        let ghost before = result@;
        result.insert(place, card_type);
        proof {
            assert forall|i: int, j: int| 0 <= i < j < result@.len() implies tried_before(
                next_hand,
                next_next_hand,
                game_type,
                #[trigger] result@[i],
                #[trigger] result@[j],
            ) by {
                if i < place && j > place {
                    assert(result@[i] == before[i]);
                    assert(result@[j] == before[j - 1]);
                } else if i == place {
                    assert(result@[j] == before[j - 1]);
                    if j - 1 > place {
                        assert(tried_before(
                            next_hand,
                            next_next_hand,
                            game_type,
                            before[place as int],
                            before[j - 1],
                        ));
                    }
                } else if j == place {
                    assert(result@[i] == before[i]);
                } else if j < place {
                    assert(result@[i] == before[i]);
                    assert(result@[j] == before[j]);
                } else {
                    assert(result@[i] == before[i - 1]);
                    assert(result@[j] == before[j - 1]);
                }
            }
            assert forall|earlier: int| 0 <= earlier < turn + 1 implies result@.contains(
                #[trigger] spec_type_by_turn(earlier),
            ) by {
                if earlier == turn {
                    assert(result@[place as int] == card_type);
                } else {
                    let k = choose|k: int|
                        0 <= k < before.len() && before[k] == spec_type_by_turn(earlier);
                    if k < place {
                        assert(result@[k] == before[k]);
                    } else {
                        assert(result@[k + 1] == before[k]);
                    }
                }
            }
            assert forall|i: int| 0 <= i < result@.len() implies turn_of_type(
                #[trigger] result@[i],
            ) < turn + 1 by {
                if i < place {
                    assert(result@[i] == before[i]);
                } else if i > place {
                    assert(result@[i] == before[i - 1]);
                }
            }
        }
        turn += 1;
    }
    proof {
        assert forall|card_type: CardType| result@.contains(card_type) by {
            assert(spec_type_by_turn(turn_of_type(card_type)) == card_type);
        }
    }
    result
}


/// Finds out on which side of a threshold the declarer's future yield is under
/// best play of all three, and remembers what it has found out about the
/// positions that it came through.
pub struct OpenSituationSolver<C> {
    cache: C,
    game_type: GameType,
    time_spend_calculating_bounds: Duration,
    analyzed_nodes: usize,
}

impl<C: OpenSituationSolverCache> OpenSituationSolver<C> {
    /// What the solver knows, by the keys of the positions.
    pub closed spec fn knowledge(&self) -> Map<u32, BoundsAndMaybePreference> {
        self.cache.knowledge()
    }

    /// How the positions get their keys.
    pub closed spec fn keys(&self) -> SituationKey {
        self.cache.keys()
    }

    pub closed spec fn spec_game_type(&self) -> GameType {
        self.game_type
    }

    /// What the solver knows is well formed.
    pub open spec fn wf(&self) -> bool {
        entries_wf(self.knowledge(), self.keys())
    }

    /// What the solver knows is right.
    pub open spec fn knows_soundly(&self) -> bool {
        knowledge_is_sound(self.knowledge(), self.keys(), self.spec_game_type())
    }

    /// The solver can be trusted: what it knows is right, and what it takes for
    /// granted of the game holds.
    pub open spec fn is_trustworthy(&self) -> bool {
        heuristics_are_sound(self.spec_game_type()) && self.knows_soundly()
    }

    /// The solver is the one of `before` after it has learned about positions
    /// whose hands are part of `hands`: nothing was forgotten, no bounds got
    /// wider, and what is known of other positions is as it was.
    pub open spec fn has_learned_since(&self, before: &Self, hands: Cards) -> bool {
        &&& self.wf()
        &&& self.keys() == before.keys()
        &&& self.spec_game_type() == before.spec_game_type()
        &&& only_tightened(before.knowledge(), self.knowledge())
        &&& changed_only_within(before.knowledge(), self.knowledge(), self.keys(), hands)
    }

    /// Looks at the positions after each card that may be played until what is
    /// known decides the threshold.
    ///
    /// The cards are tried in this order: the preferred card, if it may be
    /// played; then, if no card lies on the table, the cards by their types,
    /// the types as `types_by_branching` gives them, the highest card of a
    /// type first; else the cards from the highest down. After a card that does
    /// not decide the threshold, the cards that can stand in for it are
    /// dropped. If no card decides the threshold, the bound on the side of the
    /// player to move is set to the best of what the cards gave.
    ///
    /// The card that is returned is the one after which the threshold was
    /// decided for the player to move. Where none is returned, the threshold
    /// is decided against him.
    #[verifier::spinoff_prover]
    #[verifier::rlimit(100)]
    fn improve_bounds_to_decide_threshold(
        &mut self,
        bounds: Bounds,
        maybe_preference: Option<Card>,
        open_situation: OpenSituation,
        threshold: TrickYield,
    ) -> (r: BoundsAndMaybePreference)
        requires
            old(self).wf(),
            open_situation.wf(),
            old(self).keys().covers(open_situation),
            !bounds.spec_decides_threshold(threshold),
            is_within_game(bounds),
            old(self).is_trustworthy() ==> is_sound_for(
                bounds,
                open_situation,
                old(self).spec_game_type(),
            ),
        ensures
            final(self).has_learned_since(
                old(self),
                open_situation.spec_remaining_cards_in_hands(),
            ),
            old(self).is_trustworthy() ==> final(self).knows_soundly() && is_sound_for(
                r.bounds,
                open_situation,
                old(self).spec_game_type(),
            ),
            final(self).knowledge().contains_key(old(self).keys().spec_key(open_situation)) == old(self).knowledge().contains_key(old(self).keys().spec_key(open_situation)),
            old(self).knowledge().contains_key(old(self).keys().spec_key(open_situation))
                ==> final(self).knowledge()[old(self).keys().spec_key(open_situation)] == old(self).knowledge()[old(self).keys().spec_key(open_situation)],
            r.bounds.spec_decides_threshold(threshold),
            is_within_game(r.bounds),
            r.bounds.tightens(bounds),
            r.maybe_preference matches Some(card) ==> open_situation.spec_next_possible_plays(
                old(self).spec_game_type(),
            ).spec_contains(card),
            r.maybe_preference is Some ==> decides_for_mover(
                open_situation.spec_active_minimax_role(old(self).spec_game_type()),
                r.bounds,
                threshold,
            ),
            r.maybe_preference is None ==> decides_against_mover(
                open_situation.spec_active_minimax_role(old(self).spec_game_type()),
                r.bounds,
                threshold,
            ),
        decreases open_situation.spec_remaining_cards_in_hands().spec_len(), 0nat,
    {
        let game_type = self.game_type;
        let active_minimax_role = open_situation.active_minimax_role(game_type);
        let initial_bounds = bounds;
        let mut bounds = bounds;

        let mut bound_calculated_over_all_children = TrickYield::worst(active_minimax_role);

        // The cards that are still to be looked at.
        let mut still_considered = open_situation.next_possible_plays(game_type);

        let mut maybe_deciding_card: Option<Card> = None;

        // Decides what can stand in for what.
        let in_hand_or_yielded = open_situation.in_hand_or_yielded();

        let mut maybe_preference: Option<Card> = match maybe_preference {
            Some(preference) => if still_considered.contains(preference) {
                Some(preference)
            } else {
                None
            },
            None => None,
        };

        let by_type = !open_situation.is_trick_in_progress();
        let types: Vec<CardType> = if by_type {
            let n = open_situation.active_role().next();
            let nn = n.next();
            types_by_branching(
                *open_situation.hand_cards_of(n),
                *open_situation.hand_cards_of(nn),
                game_type,
            )
        } else {
            Vec::new()
        };
        let mut index: usize = 0;

        let ghost start = *self;
        let ghost keys = self.keys();
        let ghost hands = open_situation.spec_remaining_cards_in_hands();
        let ghost own_key = keys.spec_key(open_situation);
        let ghost trusted = start.is_trustworthy();
        proof {
            open_situation.lemma_possible_plays_are_in_hand(game_type);
        }

        loop
            invariant_except_break
                maybe_deciding_card is None,
                trusted ==> settles(
                    open_situation,
                    game_type,
                    still_considered,
                    bound_calculated_over_all_children,
                ),
            invariant
                trusted == start.is_trustworthy(),
                trusted ==> self.knows_soundly(),
                trusted ==> is_sound_for(bounds, open_situation, game_type),
                by_type ==> forall|card_type: CardType| types@.contains(card_type),
                by_type ==> forall|earlier: int|
                    0 <= earlier < index ==> still_considered.disjoint(
                        Cards::spec_of_card_type(#[trigger] types@[earlier], game_type),
                    ),
                self.has_learned_since(&start, hands),
                start == *old(self),
                start.wf(),
                keys == start.keys(),
                keys.covers(open_situation),
                game_type == start.spec_game_type(),
                hands == open_situation.spec_remaining_cards_in_hands(),
                own_key == keys.spec_key(open_situation),
                open_situation.wf(),
                self.knowledge().contains_key(own_key) == start.knowledge().contains_key(own_key),
                start.knowledge().contains_key(own_key) ==> self.knowledge()[own_key]
                    == start.knowledge()[own_key],
                active_minimax_role == open_situation.spec_active_minimax_role(game_type),
                in_hand_or_yielded == open_situation.spec_in_hand_or_yielded(),
                still_considered.subset_of(open_situation.spec_next_possible_plays(game_type)),
                maybe_preference matches Some(preference) ==> still_considered.spec_contains(
                    preference,
                ),
                by_type ==> types@.len() == 5,
                index <= 4,
                is_within_game(bounds),
                bounds.tightens(initial_bounds),
                !initial_bounds.spec_decides_threshold(threshold),
                maybe_deciding_card is None ==> !bounds.spec_decides_threshold(threshold),
                maybe_deciding_card matches Some(card) ==> bounds.spec_decides_threshold(threshold)
                    && open_situation.spec_next_possible_plays(game_type).spec_contains(card),
                maybe_deciding_card is Some ==> decides_for_mover(
                    active_minimax_role,
                    bounds,
                    threshold,
                ),
                active_minimax_role == MinimaxRole::Max
                    ==> bound_calculated_over_all_children.spec_lt(threshold),
                active_minimax_role == MinimaxRole::Min ==> threshold.spec_le(
                    bound_calculated_over_all_children,
                ),
            ensures
                trusted && maybe_deciding_card is None ==> still_considered.spec_is_empty()
                    && settles(
                    open_situation,
                    game_type,
                    still_considered,
                    bound_calculated_over_all_children,
                ),
            decreases still_considered.spec_len(), 5 - index,
        {
            let ghost still_at_start = still_considered;
            let ghost best_at_start = bound_calculated_over_all_children;
            let mut next: Option<Card> = None;
            if let Some(preference) = maybe_preference {
                still_considered.remove_existing(preference);
                maybe_preference = None;
                next = Some(preference);
            } else if by_type {
                next =
                still_considered.remove_highest_of_cards(
                    Cards::of_card_type(types[index], game_type),
                );
                if next.is_none() {
                    if index == 4 {
                        proof {
                            lemma_no_card_left(still_considered, types@, game_type);
                        }
                        break ;
                    }
                    index += 1;
                    continue ;
                }
            } else {
                next = still_considered.remove_highest_non_null();
                if next.is_none() {
                    break ;
                }
            }
            let card = next.unwrap();
            proof {
                broadcast use group_cards;

                still_at_start.lemma_ext(still_considered.spec_or(Cards::spec_just(card)));
                if by_type {
                    assert forall|earlier: int|
                        0 <= earlier < index implies still_considered.disjoint(
                        Cards::spec_of_card_type(#[trigger] types@[earlier], game_type),
                    ) by {
                        assert(still_at_start.disjoint(
                            Cards::spec_of_card_type(types@[earlier], game_type),
                        ));
                    }
                }
            }

            proof {
                broadcast use group_cards;

                keys.lemma_covers_child(open_situation, card, game_type);
                open_situation.lemma_play_card_keeps_wf(card, game_type);
            }

            let mut child = open_situation;

            let additional_score = child.play_card(card, game_type);
            let threshold_child = threshold.saturating_sub(additional_score);

            let ghost before_child = *self;
            let bounds_child = self.bounds_deciding_threshold(child, threshold_child);

            let mut lower_bound_via_child = bounds_child.lower();
            lower_bound_via_child.add_assign(additional_score);

            let mut upper_bound_via_child = bounds_child.upper();
            upper_bound_via_child.add_assign(additional_score);

            let via_child = Bounds::new(lower_bound_via_child, upper_bound_via_child);
            proof {
                if trusted {
                    open_situation.lemma_bounds_via_child(game_type, card, bounds_child);
                }
                bounds_child.lemma_decision_carries(additional_score, threshold);
                lemma_tightened_twice(
                    start.knowledge(),
                    before_child.knowledge(),
                    self.knowledge(),
                );
                lemma_changed_twice(
                    start.knowledge(),
                    before_child.knowledge(),
                    self.knowledge(),
                    keys,
                    child.spec_remaining_cards_in_hands(),
                    hands,
                );
                lemma_untouched(
                    before_child.knowledge(),
                    self.knowledge(),
                    keys,
                    child.spec_remaining_cards_in_hands(),
                    open_situation,
                    card,
                );
            }

            match active_minimax_role {
                MinimaxRole::Min => {
                    bounds.minimize_upper(upper_bound_via_child);
                },
                MinimaxRole::Max => {
                    bounds.maximize_lower(lower_bound_via_child);
                },
            }

            if bounds.decides_threshold(threshold) {
                maybe_deciding_card = Some(card);
                break ;
            }
            // At most one point, as in the literature on the matter.

            let distance = via_child.distance_to_threshold(threshold);
            let max_delta = if distance.0 < 1 {
                distance
            } else {
                CardPoints(1)
            };

            let (banned, delta) = quasi_equivalent_with_max_delta(
                card,
                in_hand_or_yielded,
                game_type,
                max_delta,
                still_considered,
            );

            let ghost before_ban = still_considered;
            still_considered = still_considered.without(banned);

            proof {
                broadcast use group_cards;

                via_child.lemma_widened_less(delta, distance, threshold);
                still_considered.lemma_measure_subset(before_ban);
                if trusted {
                    open_situation.lemma_settles_more(
                        game_type,
                        card,
                        via_child,
                        delta,
                        banned,
                        before_ban,
                        best_at_start,
                    );
                }
                if by_type {
                    assert forall|earlier: int|
                        0 <= earlier < index implies still_considered.disjoint(
                        Cards::spec_of_card_type(#[trigger] types@[earlier], game_type),
                    ) by {
                        assert(before_ban.disjoint(
                            Cards::spec_of_card_type(types@[earlier], game_type),
                        ));
                    }
                }
            }

            // The greatest distance of a dropped card widens what the cards gave.
            match active_minimax_role {
                MinimaxRole::Min => {
                    bound_calculated_over_all_children =
                    bound_calculated_over_all_children.min(lower_bound_via_child.sub(delta));
                },
                MinimaxRole::Max => {
                    bound_calculated_over_all_children =
                    bound_calculated_over_all_children.max(upper_bound_via_child.add(delta));
                },
            }
        }

        proof {
            if trusted && maybe_deciding_card is None {
                broadcast use group_cards;

                still_considered.lemma_ext(Cards::spec_empty());
                open_situation.lemma_all_settled(game_type, bound_calculated_over_all_children);
                if open_situation.spec_next_possible_plays(game_type).spec_is_empty() {
                    open_situation.lemma_no_play_means_nothing_left(game_type);
                }
            }
        }
        if maybe_deciding_card.is_none() {
            match active_minimax_role {
                MinimaxRole::Min => {
                    // Every card leaves the declarer at least this.
                    bounds.update_lower(bound_calculated_over_all_children);
                },
                MinimaxRole::Max => {
                    // No card gives more than this.
                    bounds.update_upper(bound_calculated_over_all_children);
                },
            }
        }
        BoundsAndMaybePreference::new(bounds, maybe_deciding_card)
    }

    /// Bounds for the position that decide the threshold: the declarer gets at
    /// least the threshold (the lower bound is at least the threshold), or he
    /// does not (the upper bound is below it).
    ///
    /// With no card on the table, what is known of the position is looked up,
    /// made to decide the threshold if it does not yet, and kept. With a card
    /// on the table the quick bounds are the start, and nothing is kept.
    fn bounds_deciding_threshold(&mut self, open_situation: OpenSituation, threshold: TrickYield) -> (r:
        Bounds)
        requires
            old(self).wf(),
            open_situation.wf(),
            old(self).keys().covers(open_situation),
        ensures
            final(self).has_learned_since(
                old(self),
                open_situation.spec_remaining_cards_in_hands(),
            ),
            r.spec_decides_threshold(threshold),
            is_within_game(r),
            old(self).is_trustworthy() ==> final(self).knows_soundly() && is_sound_for(
                r,
                open_situation,
                old(self).spec_game_type(),
            ),
            !open_situation.spec_is_trick_in_progress() ==> {
                let key = old(self).keys().spec_key(open_situation);
                &&& final(self).knowledge().contains_key(key)
                &&& final(self).knowledge()[key].bounds == r
                &&& old(self).knowledge().contains_key(key) && old(self).knowledge()[key].bounds.spec_decides_threshold(threshold) ==> final(self).knowledge() == old(self).knowledge()
                &&& !old(self).starts_from(open_situation).spec_decides_threshold(threshold)
                    ==> Self::keeps_the_deciding_card(
                    final(self).knowledge()[key],
                    open_situation,
                    old(self).spec_game_type(),
                    threshold,
                )
                &&& old(self).starts_from(open_situation).spec_decides_threshold(threshold)
                    ==> r == old(self).starts_from(open_situation)
            },
            open_situation.spec_is_trick_in_progress() ==> r.tightens(
                open_situation.spec_quick_bounds(old(self).spec_game_type()),
            ),
        decreases open_situation.spec_remaining_cards_in_hands().spec_len(), 1nat,
    {
        if self.analyzed_nodes < usize::MAX {
            self.analyzed_nodes += 1;
        }
        let game_type = self.game_type;
        let ghost start = *self;
        let ghost keys = self.keys();
        let ghost hands = open_situation.spec_remaining_cards_in_hands();
        let ghost key = keys.spec_key(open_situation);

        // Positions with a card on the table have one position before them
        // only: what is found out about them is not kept.
        if !open_situation.is_trick_in_progress() {
            let mut bounds_and_preference = self.cache.get_current_knowledge(
                open_situation,
                game_type,
            );
            let ghost looked_up = *self;
            proof {
                if start.is_trustworthy() {
                    if start.knowledge().contains_key(key) {
                        lemma_sound_entry(start.knowledge(), keys, game_type, open_situation);
                    } else {
                        lemma_quick_bounds(open_situation, game_type);
                    }
                    lemma_sound_after_insert(
                        start.knowledge(),
                        keys,
                        game_type,
                        open_situation,
                        bounds_and_preference,
                    );
                }
                if looked_up.is_trustworthy() {
                    lemma_sound_entry(looked_up.knowledge(), keys, game_type, open_situation);
                }
                keys.lemma_hands_of_key(open_situation);
                assert(only_tightened(start.knowledge(), looked_up.knowledge()));
                assert(changed_only_within(
                    start.knowledge(),
                    looked_up.knowledge(),
                    keys,
                    hands,
                ));
                if start.knowledge().contains_key(key) {
                    assert(looked_up.knowledge() =~= start.knowledge());
                }
            }
            if !bounds_and_preference.bounds().decides_threshold(threshold) {
                bounds_and_preference =
                self.improve_bounds_to_decide_threshold(
                    bounds_and_preference.bounds(),
                    bounds_and_preference.maybe_preference(),
                    open_situation,
                    threshold,
                );
                let ghost improved = *self;

                self.cache.update_existing(open_situation, bounds_and_preference, game_type);
                proof {
                    if start.is_trustworthy() {
                        lemma_sound_after_insert(
                            improved.knowledge(),
                            keys,
                            game_type,
                            open_situation,
                            bounds_and_preference,
                        );
                    }
                    lemma_tightened_twice(
                        start.knowledge(),
                        looked_up.knowledge(),
                        improved.knowledge(),
                    );
                    lemma_changed_twice(
                        start.knowledge(),
                        looked_up.knowledge(),
                        improved.knowledge(),
                        keys,
                        hands,
                        hands,
                    );
                    assert(only_tightened(improved.knowledge(), self.knowledge()));
                    assert(changed_only_within(
                        improved.knowledge(),
                        self.knowledge(),
                        keys,
                        hands,
                    ));
                    lemma_tightened_twice(
                        start.knowledge(),
                        improved.knowledge(),
                        self.knowledge(),
                    );
                    lemma_changed_twice(
                        start.knowledge(),
                        improved.knowledge(),
                        self.knowledge(),
                        keys,
                        hands,
                        hands,
                    );
                }
            }
            return bounds_and_preference.bounds();
        }
        let mut bounds = open_situation.quick_bounds(game_type);
        proof {
            if start.is_trustworthy() {
                lemma_quick_bounds(open_situation, game_type);
            }
        }
        if !bounds.decides_threshold(threshold) {
            bounds =
            self.improve_bounds_to_decide_threshold(
                bounds,
                None,
                open_situation,
                threshold,
            ).bounds();
        }
        bounds
    }

    /// A solver for the positions that the cache's keys cover.
    pub fn new(cache: C, game_type: GameType) -> (r: OpenSituationSolver<C>)
        ensures
            r.knowledge() == cache.knowledge(),
            r.keys() == cache.keys(),
            r.spec_game_type() == game_type,
            r.knows_soundly() == knowledge_is_sound(cache.knowledge(), cache.keys(), game_type),
            r.spec_nodes_generated() == 0,
    {
        OpenSituationSolver {
            cache,
            game_type,
            time_spend_calculating_bounds: no_duration(),
            analyzed_nodes: 0,
        }
    }

    /// What the solver starts from at a position without a card on the table:
    /// the bounds that it knows of it, or, if it knows none, the quick bounds.
    pub open spec fn starts_from(&self, open_situation: OpenSituation) -> Bounds {
        let key = self.keys().spec_key(open_situation);
        if self.knowledge().contains_key(key) {
            self.knowledge()[key].bounds
        } else {
            open_situation.spec_quick_bounds(self.spec_game_type())
        }
    }

    /// What is kept of a position after it was looked at for a threshold: the
    /// card after which the threshold was decided for the player to move,
    /// which is a card that he may play; or no card, where the threshold was
    /// decided against him.
    pub open spec fn keeps_the_deciding_card(
        kept: BoundsAndMaybePreference,
        open_situation: OpenSituation,
        game_type: GameType,
        threshold: TrickYield,
    ) -> bool {
        let role = open_situation.spec_active_minimax_role(game_type);
        match kept.maybe_preference {
            Some(card) => open_situation.spec_next_possible_plays(game_type).spec_contains(card)
                && decides_for_mover(role, kept.bounds, threshold),
            None => decides_against_mover(role, kept.bounds, threshold),
        }
    }

    /// What a call of `still_makes_at_least` does to the solver and returns.
    ///
    /// The solver has learned. If it could be trusted, it still can, and the
    /// answer is right: the declarer makes the threshold exactly if he gets at
    /// least the threshold under best play of all three. Where no card lies
    /// on the table, what the solver then knows of the position decides the
    /// threshold, and the answer is read from it: the declarer makes the
    /// threshold if the lower bound is at least the threshold, and he does not
    /// if the upper bound is below it. Where it knew that before, nothing has
    /// changed. Where what it started from (what it knew, or the quick bounds)
    /// decides the threshold, that is what it knows afterwards; else it keeps
    /// the card that decided the threshold for the player to move, if there
    /// was one. Where a card lies on the table, the
    /// answer is read in the same way from bounds that decide the threshold
    /// and say at least as much as the quick bounds. A threshold of nothing
    /// is always made.
    pub open spec fn answered(
        before: &Self,
        open_situation: OpenSituation,
        threshold: TrickYield,
        after: &Self,
        made: bool,
    ) -> bool {
        &&& after.has_learned_since(before, open_situation.spec_remaining_cards_in_hands())
        &&& before.is_trustworthy() ==> after.is_trustworthy() && made == threshold.spec_le(
            open_situation.optimal_yield(before.spec_game_type()),
        )
        &&& !open_situation.spec_is_trick_in_progress() ==> {
            let key = before.keys().spec_key(open_situation);
            &&& after.knowledge().contains_key(key)
            &&& after.knowledge()[key].bounds.spec_decides_threshold(threshold)
            &&& made == threshold.spec_le(after.knowledge()[key].bounds.lower)
            &&& !made ==> after.knowledge()[key].bounds.upper.spec_lt(threshold)
            &&& before.knowledge().contains_key(key)
                && before.knowledge()[key].bounds.spec_decides_threshold(threshold)
                ==> after.knowledge() == before.knowledge()
            &&& !before.starts_from(open_situation).spec_decides_threshold(threshold)
                ==> Self::keeps_the_deciding_card(
                after.knowledge()[key],
                open_situation,
                before.spec_game_type(),
                threshold,
            )
            &&& before.starts_from(open_situation).spec_decides_threshold(threshold)
                ==> after.knowledge()[key].bounds == before.starts_from(open_situation)
        }
        &&& open_situation.spec_is_trick_in_progress() ==> exists|bounds: Bounds|
            {
                &&& #[trigger] bounds.spec_decides_threshold(threshold)
                &&& bounds.tightens(open_situation.spec_quick_bounds(before.spec_game_type()))
                &&& made == threshold.spec_le(bounds.lower)
                &&& !made ==> bounds.upper.spec_lt(threshold)
            }
        &&& threshold == TrickYield::spec_zero_tricks() ==> made
    }

    /// Whether the declarer still makes at least the threshold from this
    /// position on, under best play of all three.
    pub fn still_makes_at_least(&mut self, open_situation: OpenSituation, threshold: TrickYield) -> (made:
        bool)
        requires
            old(self).wf(),
            open_situation.wf(),
            old(self).keys().covers(open_situation),
        ensures
            Self::answered(old(self), open_situation, threshold, final(self), made),
    {
        let start_time = current_instant();
        let bounds = self.bounds_deciding_threshold(open_situation, threshold);
        let end_time = current_instant();
        self.time_spend_calculating_bounds =
        sum_of_durations(self.time_spend_calculating_bounds, time_between(&start_time, &end_time));

        if threshold.le(bounds.lower()) {
            return true;
        }
        false
    }

    #[verifier::when_used_as_spec(spec_game_type)]
    pub fn game_type(&self) -> (r: GameType)
        ensures
            r == self.spec_game_type(),
    {
        self.game_type
    }

    /// How many positions the solver has looked at, as far as they can be
    /// counted.
    pub closed spec fn spec_nodes_generated(&self) -> usize {
        self.analyzed_nodes
    }

    pub fn nodes_generated(&self) -> (r: usize)
        ensures
            r == self.spec_nodes_generated(),
    {
        self.analyzed_nodes
    }

    /// How long the solver has been looking: the time that its answers have
    /// taken together, as the clock gave it.
    pub closed spec fn spec_time_spent(&self) -> Duration {
        self.time_spend_calculating_bounds
    }

    pub fn time_spent(&self) -> (r: Duration)
        ensures
            r == self.spec_time_spent(),
    {
        self.time_spend_calculating_bounds
    }
}


impl<C: OpenSituationSolverCache> OpenSituationSolver<C> {
    /// What the solver knows of a position without cards on the table.
    pub open spec fn known_bounds(&self, open_situation: OpenSituation) -> Bounds {
        self.knowledge()[self.keys().spec_key(open_situation)].bounds
    }

    /// The answer is right whenever what the solver then knows of the position
    /// is right: for every yield within the bounds that it knows, the
    /// declarer makes the threshold exactly if the yield is at least the
    /// threshold.
    pub proof fn lemma_answer_is_as_good_as_the_bounds(
        before: &Self,
        open_situation: OpenSituation,
        threshold: TrickYield,
        after: &Self,
        made: bool,
        future_yield: TrickYield,
    )
        requires
            Self::answered(before, open_situation, threshold, after, made),
            !open_situation.spec_is_trick_in_progress(),
            after.known_bounds(open_situation).lower.spec_le(future_yield),
            future_yield.spec_le(after.known_bounds(open_situation).upper),
        ensures
            made == threshold.spec_le(future_yield),
    {
    }

    /// Thresholds that are asked one after the other make the bounds only
    /// tighter: what the solver knows of the position after the second
    /// question has a lower bound that is no lower and an upper bound that is
    /// no higher than after the first.
    pub proof fn lemma_knowledge_only_tightens(
        before: &Self,
        open_situation: OpenSituation,
        first_threshold: TrickYield,
        between: &Self,
        first_made: bool,
        second_threshold: TrickYield,
        after: &Self,
        second_made: bool,
    )
        requires
            Self::answered(before, open_situation, first_threshold, between, first_made),
            Self::answered(between, open_situation, second_threshold, after, second_made),
            !open_situation.spec_is_trick_in_progress(),
        ensures
            after.known_bounds(open_situation).tightens(between.known_bounds(open_situation)),
            between.known_bounds(open_situation).lower.spec_le(
                after.known_bounds(open_situation).lower,
            ),
            after.known_bounds(open_situation).upper.spec_le(
                between.known_bounds(open_situation).upper,
            ),
    {
        let key = before.keys().spec_key(open_situation);
        assert(between.knowledge().contains_key(key));
    }

    /// A threshold that the declarer makes stays made when less is asked: after
    /// the answer that he makes a threshold, the answer for every threshold
    /// that is at most as high is that he makes it. This holds of a position
    /// without a card on the table, and of every position for a solver that
    /// can be trusted.
    pub proof fn lemma_monotone_in_threshold(
        before: &Self,
        open_situation: OpenSituation,
        threshold: TrickYield,
        between: &Self,
        lower_threshold: TrickYield,
        after: &Self,
        made_lower: bool,
    )
        requires
            Self::answered(before, open_situation, threshold, between, true),
            lower_threshold.spec_le(threshold),
            Self::answered(between, open_situation, lower_threshold, after, made_lower),
            !open_situation.spec_is_trick_in_progress() || before.is_trustworthy(),
        ensures
            made_lower,
    {
        if !open_situation.spec_is_trick_in_progress() {
            let key = before.keys().spec_key(open_situation);
            assert(between.knowledge().contains_key(key));
        } else {
            assert(between.spec_game_type() == before.spec_game_type());
        }
    }

    /// The same question gets the same answer: asked again, the solver
    /// answers as before. This holds of a position without a card on the
    /// table, of which the solver then also knows the same bounds, having
    /// learned nothing; and of every position for a solver that can be
    /// trusted.
    pub proof fn lemma_same_question_same_answer(
        before: &Self,
        open_situation: OpenSituation,
        threshold: TrickYield,
        between: &Self,
        first_made: bool,
        after: &Self,
        second_made: bool,
    )
        requires
            Self::answered(before, open_situation, threshold, between, first_made),
            Self::answered(between, open_situation, threshold, after, second_made),
            !open_situation.spec_is_trick_in_progress() || before.is_trustworthy(),
        ensures
            first_made == second_made,
            !open_situation.spec_is_trick_in_progress() ==> after.known_bounds(open_situation)
                == between.known_bounds(open_situation) && after.knowledge()
                == between.knowledge(),
    {
        assert(between.spec_game_type() == before.spec_game_type());
    }
}


/// Cards of which none is of any of the five types are no cards.
pub proof fn lemma_no_card_left(cards: Cards, types: Seq<CardType>, game_type: GameType)
    requires
        types.len() == 5,
        forall|card_type: CardType| types.contains(card_type),
        forall|place: int|
            0 <= place < 5 ==> cards.disjoint(
                Cards::spec_of_card_type(#[trigger] types[place], game_type),
            ),
    ensures
        cards.spec_is_empty(),
{
    broadcast use group_cards;

    if !cards.spec_is_empty() {
        let card = cards.spec_lowest();
        let card_type = card.spec_card_type(game_type);
        assert(types.contains(card_type));
        let place = choose|place: int| 0 <= place < types.len() && types[place] == card_type;
        assert(cards.disjoint(Cards::spec_of_card_type(types[place], game_type)));
        assert(Cards::spec_of_card_type(card_type, game_type).spec_contains(card));
    }
}

} // verus!
