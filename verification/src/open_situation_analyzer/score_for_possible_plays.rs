use vstd::prelude::*;
use crate::card::Card;
use crate::open_analysis_performance::Level;
use crate::open_situation_analyzer::{analyze_all_possible_plays, AnalyzedPossiblePlays};
use crate::open_situation_solver::bounds_cache::OpenSituationSolverCache;
use crate::open_situation_solver::OpenSituationSolver;
use crate::situation::OpenSituation;
use crate::trick_yield::YieldSoFar;

verus! {

/// What the declarer has in the end after each card that may be played, under
/// best play of all three from then on.
pub fn final_declarer_yield_for_possible_plays<C: OpenSituationSolverCache>(
    open_situation: OpenSituation,
    yield_so_far: YieldSoFar,
    open_situation_solver: &mut OpenSituationSolver<C>,
) -> (r: AnalyzedPossiblePlays<YieldSoFar>)
    requires
        old(open_situation_solver).wf(),
        open_situation.wf(),
        old(open_situation_solver).keys().covers(open_situation),
    ensures
        final(open_situation_solver).has_learned_since(
            old(open_situation_solver),
            open_situation.spec_remaining_cards_in_hands(),
        ),
        r.wf(),
        forall|card: Card|
            r.has(card) == open_situation.spec_next_possible_plays(
                old(open_situation_solver).spec_game_type(),
            ).spec_contains(card),
        old(open_situation_solver).is_trustworthy() ==> final(open_situation_solver).is_trustworthy()
            && forall|i: int|
            0 <= i < r@.len() ==> (#[trigger] r@[i]).1
                == crate::open_situation_analyzer::spec_analysis_after(
                open_situation,
                old(open_situation_solver).spec_game_type(),
                yield_so_far,
                r@[i].0,
                Level::Yield,
            ),
{
    analyze_all_possible_plays(open_situation, yield_so_far, open_situation_solver, Level::Yield)
}

/// Whether the declarer reaches the given yield from the first position of a
/// game on, the skat's points counted.
pub fn initial_situation_makes_at_least<C: OpenSituationSolverCache>(
    open_situation: OpenSituation,
    open_situation_solver: &mut OpenSituationSolver<C>,
    to_reach: YieldSoFar,
) -> (made: bool)
    requires
        old(open_situation_solver).wf(),
        open_situation.wf(),
        old(open_situation_solver).keys().covers(open_situation),
    ensures
        OpenSituationSolver::answered(
            old(open_situation_solver),
            open_situation,
            to_reach.spec_saturating_sub(
                YieldSoFar {
                    card_points: crate::card_points::CardPoints(
                        open_situation.spec_cellar().spec_to_points() as u8,
                    ),
                    number_of_tricks: 0,
                },
            ),
            final(open_situation_solver),
            made,
        ),
{
    let delta = to_reach.saturating_sub(open_situation.yield_from_skat());
    open_situation_solver.still_makes_at_least(open_situation, delta)
}

} // verus!
