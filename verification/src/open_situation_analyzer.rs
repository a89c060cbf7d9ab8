use vstd::prelude::*;
use crate::card::Card;
use crate::cards::{group_cards, Cards};
use crate::open_analysis_performance::{analyzer, spec_analyzer, Level};
use crate::open_situation_solver::bounds_cache::OpenSituationSolverCache;
use crate::open_situation_solver::OpenSituationSolver;
use crate::situation::OpenSituation;
use crate::trick_yield::YieldSoFar;

pub mod alike;
pub mod score_for_possible_plays;

verus! {

/// What an analysis has found for each card that may be played, in the order
/// in which the cards were entered.
#[derive(Debug, PartialEq, Eq)]
pub struct AnalyzedPossiblePlays<R> {
    entries: Vec<(Card, R)>,
}

impl<R> View for AnalyzedPossiblePlays<R> {
    type V = Seq<(Card, R)>;

    /// The cards with what was found for them.
    closed spec fn view(&self) -> Seq<(Card, R)> {
        self.entries@
    }
}

impl<R> AnalyzedPossiblePlays<R> {
    /// No card was entered twice.
    pub open spec fn wf(&self) -> bool {
        forall|i: int, j: int|
            0 <= i < j < self@.len() ==> (#[trigger] self@[i]).0 != (#[trigger] self@[j]).0
    }

    /// Whether something was entered for the card.
    pub open spec fn has(&self, card: Card) -> bool {
        exists|i: int| 0 <= i < self@.len() && (#[trigger] self@[i]).0 == card
    }

    /// The cards for which something was entered.
    pub fn cards(&self) -> (r: Cards)
        ensures
            forall|card: Card| r.spec_contains(card) == self.has(card),
    {
        broadcast use group_cards;

        let mut result = Cards::empty();
        let mut i: usize = 0;
        while i < self.entries.len()
            invariant
                i <= self@.len(),
                forall|card: Card|
                    result.spec_contains(card) == exists|k: int|
                        0 <= k < i && (#[trigger] self@[k]).0 == card,
            decreases self@.len() - i,
        {
            let ghost before = result;
            result.add_new(self.entries[i].0);
            proof {
                broadcast use group_cards;

                assert forall|card: Card|
                    result.spec_contains(card) == exists|k: int|
                        0 <= k < i + 1 && (#[trigger] self@[k]).0 == card by {
                    if before.spec_contains(card) {
                        let k = choose|k: int| 0 <= k < i && (#[trigger] self@[k]).0 == card;
                        assert(0 <= k < i + 1 && self@[k].0 == card);
                    }
                    if card == self@[i as int].0 {
                        assert(0 <= i < i + 1 && self@[i as int].0 == card);
                    }
                    if exists|k: int| 0 <= k < i + 1 && (#[trigger] self@[k]).0 == card {
                        let k = choose|k: int| 0 <= k < i + 1 && (#[trigger] self@[k]).0 == card;
                        if k < i {
                            assert(0 <= k < i && self@[k].0 == card);
                        }
                    }
                }
            }
            i += 1;
        }
        result
    }

    /// Each card with itself as what was found for it.
    pub fn map_to_card(&self) -> (r: AnalyzedPossiblePlays<Card>)
        ensures
            r@.len() == self@.len(),
            forall|i: int|
                0 <= i < self@.len() ==> (#[trigger] r@[i]) == (self@[i].0, self@[i].0),
    {
        let mut entries: Vec<(Card, Card)> = Vec::new();
        let mut i: usize = 0;
        while i < self.entries.len()
            invariant
                i <= self@.len(),
                entries@.len() == i,
                forall|k: int| 0 <= k < i ==> (#[trigger] entries@[k]) == (self@[k].0, self@[k].0),
            decreases self@.len() - i,
        {
            let card = self.entries[i].0;
            entries.push((card, card));
            i += 1;
        }
        AnalyzedPossiblePlays { entries }
    }

    /// What `f` makes of what was found for each card, the cards as they
    /// were entered.
    pub fn map<F: Fn(&R) -> Q, Q>(&self, f: F) -> (r: AnalyzedPossiblePlays<Q>)
        requires
            forall|i: int| 0 <= i < self@.len() ==> call_requires(f, (&(#[trigger] self@[i]).1,)),
        ensures
            r@.len() == self@.len(),
            forall|i: int|
                0 <= i < self@.len() ==> (#[trigger] r@[i]).0 == self@[i].0 && call_ensures(
                    f,
                    (&self@[i].1,),
                    r@[i].1,
                ),
            self.wf() ==> r.wf(),
    {
        let mut entries: Vec<(Card, Q)> = Vec::new();
        let mut i: usize = 0;
        while i < self.entries.len()
            invariant
                i <= self@.len(),
                entries@.len() == i,
                forall|k: int|
                    0 <= k < self@.len() ==> call_requires(f, (&(#[trigger] self@[k]).1,)),
                forall|k: int|
                    0 <= k < i ==> (#[trigger] entries@[k]).0 == self@[k].0 && call_ensures(
                        f,
                        (&self@[k].1,),
                        entries@[k].1,
                    ),
            decreases self@.len() - i,
        {
            let card = self.entries[i].0;
            let value = f(&self.entries[i].1);
            entries.push((card, value));
            i += 1;
        }
        AnalyzedPossiblePlays { entries }
    }

    /// Nothing found yet.
    pub fn new() -> (r: AnalyzedPossiblePlays<R>)
        ensures
            r@ == Seq::<(Card, R)>::empty(),
            r.wf(),
    {
        AnalyzedPossiblePlays { entries: Vec::new() }
    }

    /// Enters what was found for a card for which nothing was entered yet.
    pub fn add_new(&mut self, card: Card, value: R)
        requires
            old(self).wf(),
            !old(self).has(card),
        ensures
            final(self).wf(),
            final(self)@ == old(self)@.push((card, value)),
    {
        self.entries.push((card, value));
    }

    /// How many cards something was entered for.
    pub fn len(&self) -> (r: usize)
        ensures
            r == self@.len(),
    {
        self.entries.len()
    }

    /// The card at a place, and what was found for it.
    pub fn entry(&self, place: usize) -> (r: &(Card, R))
        requires
            place < self@.len(),
        ensures
            *r == self@[place as int],
    {
        &self.entries[place]
    }

    /// What was found for a card, if something was entered for it.
    pub fn get(&self, card: Card) -> (r: Option<&R>)
        ensures
            match r {
                Some(value) => exists|i: int|
                    0 <= i < self@.len() && #[trigger] self@[i] == (card, *value),
                None => !self.has(card),
            },
    {
        let mut i: usize = 0;
        while i < self.entries.len()
            invariant
                i <= self@.len(),
                forall|k: int| 0 <= k < i ==> (#[trigger] self@[k]).0 != card,
            decreases self@.len() - i,
        {
            if self.entries[i].0 == card {
                return Some(&self.entries[i].1);
            }
            i += 1;
        }
        None
    }
}

/// What the analysis of a position after a card gives, at a level, if the
/// declarer gets what he gets under best play of all three.
pub open spec fn spec_analysis_after(
    open_situation: OpenSituation,
    game_type: crate::game_type::GameType,
    yield_so_far: YieldSoFar,
    card: Card,
    level: Level,
) -> YieldSoFar {
    spec_analyzer(
        open_situation.spec_play_card(card, game_type).optimal_yield(game_type),
        yield_so_far.spec_add(open_situation.yield_of(card, game_type)),
        level,
    )
}

/// Analyzes the position after each card that may be played: the card is
/// played, what the declarer gets for it is added to what he has, and the
/// position that follows is analyzed at the level that is asked for.
///
/// A solver that can be trusted gives for each card what follows from the
/// declarer's yield under best play of all three.
///
/// The result holds the cards that may be played, from the lowest to the
/// highest, each once, with what the analysis found for it.
pub fn analyze_all_possible_plays<C: OpenSituationSolverCache>(
    open_situation: OpenSituation,
    yield_so_far: YieldSoFar,
    solver: &mut OpenSituationSolver<C>,
    level: Level,
) -> (r: AnalyzedPossiblePlays<YieldSoFar>)
    requires
        old(solver).wf(),
        open_situation.wf(),
        old(solver).keys().covers(open_situation),
    ensures
        final(solver).has_learned_since(
            old(solver),
            open_situation.spec_remaining_cards_in_hands(),
        ),
        r.wf(),
        forall|card: Card|
            r.has(card) == open_situation.spec_next_possible_plays(
                old(solver).spec_game_type(),
            ).spec_contains(card),
        forall|i: int, j: int|
            0 <= i < j < r@.len() ==> (#[trigger] r@[i]).0.index() < (#[trigger] r@[j]).0.index(),
        old(solver).is_trustworthy() ==> final(solver).is_trustworthy() && forall|i: int|
            0 <= i < r@.len() ==> (#[trigger] r@[i]).1 == spec_analysis_after(
                open_situation,
                old(solver).spec_game_type(),
                yield_so_far,
                r@[i].0,
                level,
            ),
{
    broadcast use group_cards;

    let game_type = solver.game_type();
    let mut result: AnalyzedPossiblePlays<YieldSoFar> = AnalyzedPossiblePlays::new();

    let all_plays = open_situation.next_possible_plays(game_type);
    let mut possible_plays = all_plays;
    let ghost start = *solver;
    let ghost hands = open_situation.spec_remaining_cards_in_hands();
    let ghost mut moved = false;
    let ghost trusted = start.is_trustworthy();

    loop
        invariant
            trusted == start.is_trustworthy(),
            trusted ==> solver.is_trustworthy() && forall|i: int|
                0 <= i < result@.len() ==> (#[trigger] result@[i]).1 == spec_analysis_after(
                    open_situation,
                    game_type,
                    yield_so_far,
                    result@[i].0,
                    level,
                ),
            open_situation.wf(),
            solver.wf(),
            solver.keys() == start.keys(),
            solver.spec_game_type() == game_type,
            game_type == start.spec_game_type(),
            start.keys().covers(open_situation),
            start == *old(solver),
            hands == open_situation.spec_remaining_cards_in_hands(),
            !moved ==> *solver == start,
            moved ==> solver.has_learned_since(&start, hands),
            all_plays == open_situation.spec_next_possible_plays(game_type),
            possible_plays.subset_of(all_plays),
            result.wf(),
            forall|card: Card|
                result.has(card) == (all_plays.spec_contains(card) && !possible_plays.spec_contains(
                    card,
                )),
            forall|i: int, card: Card|
                0 <= i < result@.len() && possible_plays.spec_contains(card) ==> (
                #[trigger] result@[i]).0.index() < #[trigger] card.index(),
            forall|i: int, j: int|
                0 <= i < j < result@.len() ==> (#[trigger] result@[i]).0.index() < (
                #[trigger] result@[j]).0.index(),
        ensures
            possible_plays.spec_is_empty(),
            moved ==> solver.has_learned_since(&start, hands),
            !moved ==> *solver == start,
        decreases possible_plays.spec_len(),
    {
        let ghost plays_before = possible_plays;
        let ghost result_before = result@;
        let Some(card) = possible_plays.remove_smallest() else {
            break ;
        };
        proof {
            broadcast use group_cards;

            start.keys().lemma_covers_child(open_situation, card, game_type);
            open_situation.lemma_play_card_keeps_wf(card, game_type);
            assert(possible_plays.subset_of(all_plays));
        }
        let mut child = open_situation;
        let points_to_get_to_child = child.play_card(card, game_type);
        let mut yield_so_far_child = yield_so_far;
        yield_so_far_child.add_assign(points_to_get_to_child);

        let ghost before = *solver;
        let value = analyzer(child, solver, yield_so_far_child, level);
        proof {
            crate::open_situation_solver::bounds_cache::lemma_changed_twice(
                before.knowledge(),
                before.knowledge(),
                solver.knowledge(),
                solver.keys(),
                child.spec_remaining_cards_in_hands(),
                hands,
            );
            crate::open_analysis_performance::lemma_learned_twice(
                &start,
                &before,
                solver,
                hands,
                moved,
            );
            moved = true;
            if result.has(card) {
                let k = choose|k: int| 0 <= k < result@.len() && (#[trigger] result@[k]).0 == card;
                assert(result@[k].0.index() < card.index());
            }
        }
        result.add_new(card, value);
        proof {
            broadcast use group_cards;

            if trusted {
                assert forall|i: int| 0 <= i < result@.len() implies (
                #[trigger] result@[i]).1 == spec_analysis_after(
                    open_situation,
                    game_type,
                    yield_so_far,
                    result@[i].0,
                    level,
                ) by {
                    if i < result_before.len() {
                        assert(result@[i] == result_before[i]);
                    }
                }
            }
            assert forall|c: Card|
                result.has(c) == (all_plays.spec_contains(c) && !possible_plays.spec_contains(
                    c,
                )) by {
                if exists|k: int| 0 <= k < result_before.len() && (#[trigger] result_before[k]).0 == c {
                    let k = choose|k: int|
                        0 <= k < result_before.len() && (#[trigger] result_before[k]).0 == c;
                    assert(result@[k].0 == c);
                }
                if c == card {
                    assert(result@[result@.len() - 1].0 == c);
                }
                if result.has(c) {
                    let k = choose|k: int| 0 <= k < result@.len() && (#[trigger] result@[k]).0 == c;
                    if k < result_before.len() {
                        assert(result_before[k].0 == c);
                    }
                }
            }
            assert forall|i: int, c: Card|
                0 <= i < result@.len() && possible_plays.spec_contains(c) implies (
            #[trigger] result@[i]).0.index() < #[trigger] c.index() by {
                plays_before.lemma_lowest(c);
                if i < result_before.len() {
                    assert(result@[i] == result_before[i]);
                }
            }
            assert forall|i: int, j: int| 0 <= i < j < result@.len() implies (
            #[trigger] result@[i]).0.index() < (#[trigger] result@[j]).0.index() by {
                if j < result_before.len() {
                    assert(result@[i] == result_before[i]);
                    assert(result@[j] == result_before[j]);
                } else {
                    assert(result@[i] == result_before[i]);
                }
            }
        }
    }
    result
}

} // verus!
