use rand_xoshiro::Xoshiro256PlusPlus;
use vstd::prelude::*;
use crate::bidding_role::BiddingRole;
use crate::bounds::Bounds;
use crate::card::{Card, CardType, Suit};
use crate::card_points::CardPoints;
use crate::deal::Deal;
use crate::deck::Deck;
use crate::game_type::GameType;
use crate::monte_carlo::GameConclusion;
use crate::open_situation_solver::bounds_cache::OpenSituationSolverCache;
use crate::open_situation_solver::OpenSituationSolver;
use crate::rng::{random_below, random_card_of};
use crate::situation::OpenSituation;
use crate::trick_yield::{TrickYield, YieldSoFar};

verus! {

/// A position with all that is needed to analyze it.
#[derive(Clone, Copy, Debug, PartialEq, Eq, Hash, Structural)]
pub struct OpenSituationAndGameType {
    pub open_situation: OpenSituation,
    pub game_type: GameType,
    pub yield_so_far: YieldSoFar,
}

/// The trump of a trump game by its number: the grand first, then clubs,
/// diamonds, spades and hearts.
pub open spec fn spec_trump_by_number(number: usize) -> CardType {
    if number == 0 {
        CardType::Trump
    } else if number == 1 {
        CardType::Suit(Suit::Clubs)
    } else if number == 2 {
        CardType::Suit(Suit::Diamonds)
    } else if number == 3 {
        CardType::Suit(Suit::Spades)
    } else {
        CardType::Suit(Suit::Hearts)
    }
}

#[verifier::when_used_as_spec(spec_trump_by_number)]
pub fn trump_by_number(number: usize) -> (r: CardType)
    requires
        number < 5,
    ensures
        r == spec_trump_by_number(number),
{
    if number == 0 {
        CardType::Trump
    } else if number == 1 {
        CardType::Suit(Suit::Clubs)
    } else if number == 2 {
        CardType::Suit(Suit::Diamonds)
    } else if number == 3 {
        CardType::Suit(Suit::Spades)
    } else {
        CardType::Suit(Suit::Hearts)
    }
}

/// The seat of a number: the first receiver, the first caller, the second
/// caller.
pub open spec fn spec_seat_by_number(number: usize) -> BiddingRole {
    if number == 0 {
        BiddingRole::FirstReceiver
    } else if number == 1 {
        BiddingRole::FirstCaller
    } else {
        BiddingRole::SecondCaller
    }
}

#[verifier::when_used_as_spec(spec_seat_by_number)]
pub fn seat_by_number(number: usize) -> (r: BiddingRole)
    requires
        number < 3,
    ensures
        r == spec_seat_by_number(number),
{
    if number == 0 {
        BiddingRole::FirstReceiver
    } else if number == 1 {
        BiddingRole::FirstCaller
    } else {
        BiddingRole::SecondCaller
    }
}

/// The game of three numbers: null if the first is zero; else the grand if
/// the second is not zero; else the suit game of the third, in the order
/// clubs, hearts, diamonds, spades.
pub open spec fn spec_game_by_numbers(kind: usize, trump: usize, suit: usize) -> GameType {
    if kind == 0 {
        GameType::Null
    } else if trump != 0 {
        GameType::Trump(CardType::Trump)
    } else if suit == 0 {
        GameType::Trump(CardType::Suit(Suit::Clubs))
    } else if suit == 1 {
        GameType::Trump(CardType::Suit(Suit::Hearts))
    } else if suit == 2 {
        GameType::Trump(CardType::Suit(Suit::Diamonds))
    } else {
        GameType::Trump(CardType::Suit(Suit::Spades))
    }
}

#[verifier::when_used_as_spec(spec_game_by_numbers)]
pub fn game_by_numbers(kind: usize, trump: usize, suit: usize) -> (r: GameType)
    requires
        kind < 2,
        trump < 2,
        suit < 4,
    ensures
        r == spec_game_by_numbers(kind, trump, suit),
{
    if kind == 0 {
        GameType::Null
    } else if trump != 0 {
        GameType::Trump(CardType::Trump)
    } else if suit == 0 {
        GameType::Trump(CardType::Suit(Suit::Clubs))
    } else if suit == 1 {
        GameType::Trump(CardType::Suit(Suit::Hearts))
    } else if suit == 2 {
        GameType::Trump(CardType::Suit(Suit::Diamonds))
    } else {
        GameType::Trump(CardType::Suit(Suit::Spades))
    }
}

/// A game at random: null or a trump game with even chances, a trump game
/// the grand or a suit game with even chances, each suit as likely as the
/// others. A number is drawn only where the game depends on it, and the game
/// is the game of the numbers that were drawn.
fn random_game(rng: &mut Xoshiro256PlusPlus) -> (r: GameType)
    ensures
        exists|kind: usize, trump: usize, suit: usize|
            kind < 2 && trump < 2 && suit < 4 && r == #[trigger] spec_game_by_numbers(
                kind,
                trump,
                suit,
            ),
{
    let kind: usize = random_below(rng, 2);
    if kind == 0 {
        game_by_numbers(kind, 0, 0)
    } else {
        let trump: usize = random_below(rng, 2);
        if trump != 0 {
            game_by_numbers(kind, trump, 0)
        } else {
            let suit: usize = random_below(rng, 4);
            game_by_numbers(kind, trump, suit)
        }
    }
}

/// A trump game before its first card, with the first receiver as declarer:
/// a deal at random and a trump at random. Each call gives another one.
pub fn generate_random_trump_games_of_active_player(rng: &mut Xoshiro256PlusPlus) -> (r:
    OpenSituationAndGameType)
    ensures
        r.game_type is Trump,
        exists|deal: Deal|
            deal.wf() && r.open_situation == #[trigger] OpenSituation::spec_initial(
                deal,
                BiddingRole::FirstReceiver,
            ),
        r.open_situation.wf(),
        r.open_situation.spec_is_initial_situation(),
        r.yield_so_far.card_points.0 == r.open_situation.spec_cellar().spec_to_points(),
        r.yield_so_far.number_of_tricks == 0,
{
    let random_deal = Deck::shuffled(rng).deal();
    let random_trump_type = trump_by_number(random_below(rng, 5));
    let open_situation = OpenSituation::initial(random_deal, BiddingRole::FIRST_ACTIVE_PLAYER);
    OpenSituationAndGameType {
        open_situation,
        game_type: GameType::Trump(random_trump_type),
        yield_so_far: open_situation.yield_from_skat(),
    }
}

/// The position is reached from the first position of the deal, with the
/// given declarer, by playing the cards one after the other, each one allowed
/// when its turn comes; fewer than thirty, so that a card is left to play.
/// The yield is what the declarer has by then: the skat and his tricks.
pub open spec fn is_reached_in_play(
    reached: OpenSituationAndGameType,
    deal: Deal,
    bidding_winner: BiddingRole,
    cards: Seq<Card>,
) -> bool {
    &&& deal.wf()
    &&& cards.len() < 30
    &&& OpenSituation::spec_initial(deal, bidding_winner).played_out(cards, reached.game_type)
        matches Some(outcome) && {
        &&& reached.open_situation == outcome.end
        &&& reached.yield_so_far.card_points.0 == deal.spec_skat().spec_to_points()
            + outcome.declarer_points
        &&& reached.yield_so_far.number_of_tricks == outcome.declarer_tricks
    }
}

/// A position in the middle of a game, in which a card is left to play: a
/// deal, a game and a declarer at random, and then up to 29 cards played at
/// random, each one among those that may be played. Each call gives another
/// one.
pub fn generate_random_unfinished_open_situations(rng: &mut Xoshiro256PlusPlus) -> (r:
    OpenSituationAndGameType)
    ensures
        exists|deal: Deal, bidding_winner: BiddingRole, cards: Seq<Card>|
            is_reached_in_play(r, deal, bidding_winner, cards),
        r.open_situation.wf(),
        !r.open_situation.spec_next_possible_plays(r.game_type).spec_is_empty(),
{
    let deal = Deck::shuffled(rng).deal();
    let game_type = random_game(rng);
    let bidding_winner = seat_by_number(random_below(rng, 3));

    let mut open_situation = OpenSituation::initial(deal, bidding_winner);
    let mut yield_so_far = open_situation.yield_from_skat();

    let ghost start = open_situation;
    let ghost mut line: Seq<Card> = Seq::empty();
    let number_of_cards: usize = random_below(rng, 30);
    let mut played: usize = 0;
    proof {
        start.lemma_all_cards_accounted_for();
        start.spec_partial_trick().lemma_len();
    }
    while played < number_of_cards
        invariant
            deal.wf(),
            start == OpenSituation::spec_initial(deal, bidding_winner),
            start.wf(),
            start.spec_cellar() == deal.spec_skat(),
            start.spec_remaining_cards_in_hands().spec_len() == 30,
            played <= number_of_cards < 30,
            line.len() == played,
            open_situation.wf(),
            start.played_out(line, game_type) matches Some(outcome) && {
                &&& open_situation == outcome.end
                &&& yield_so_far.card_points.0 == deal.spec_skat().spec_to_points()
                    + outcome.declarer_points
                &&& yield_so_far.number_of_tricks == outcome.declarer_tricks
            },
        decreases number_of_cards - played,
    {
        let possibilities_for_decision = open_situation.next_possible_plays(game_type).to_vec();
        proof {
            start.lemma_played_out(line, game_type);
            open_situation.lemma_a_card_is_left(game_type);
        }
        match random_card_of(&possibilities_for_decision, rng) {
            Some(card) => {
                proof {
                    start.lemma_one_more_card(line, card, game_type);
                    start.lemma_played_out(line.push(card), game_type);
                    let end = start.played_out(line.push(card), game_type)->0.end;
                    end.lemma_all_cards_accounted_for();
                    line = line.push(card);
                }
                yield_so_far.add_assign(open_situation.play_card(card, game_type));
                played += 1;
            },
            None => {
                proof {
                    assert(false);
                }
            },
        }
    }
    proof {
        start.lemma_played_out(line, game_type);
        open_situation.lemma_a_card_is_left(game_type);
        assert(is_reached_in_play(
            OpenSituationAndGameType { open_situation, game_type, yield_so_far },
            deal,
            bidding_winner,
            line,
        ));
    }
    OpenSituationAndGameType { open_situation, game_type, yield_so_far }
}

/// How much is asked of an analysis: whether the game is won, how it is
/// concluded, or what the declarer gets exactly.
#[derive(Debug, Clone, Copy, PartialEq, Eq, Structural)]
pub enum Level {
    IsWon,
    Conclusion,
    Yield,
}

/// What the solver knows of a position without cards on the table.
pub open spec fn known_bounds<C: OpenSituationSolverCache>(
    solver: &OpenSituationSolver<C>,
    open_situation: OpenSituation,
) -> Bounds {
    solver.knowledge()[solver.keys().spec_key(open_situation)].bounds
}

/// What the solver knows puts the goal within the declarer's reach: he still
/// makes what is missing to it.
pub open spec fn is_within_reach<C: OpenSituationSolverCache>(
    solver: &OpenSituationSolver<C>,
    open_situation: OpenSituation,
    yield_so_far: YieldSoFar,
    goal: YieldSoFar,
) -> bool {
    goal.spec_saturating_sub(yield_so_far).spec_le(known_bounds(solver, open_situation).lower)
}

/// What the solver knows puts the goal out of the declarer's reach: he makes
/// less than what is missing to it.
pub open spec fn is_out_of_reach<C: OpenSituationSolverCache>(
    solver: &OpenSituationSolver<C>,
    open_situation: OpenSituation,
    yield_so_far: YieldSoFar,
    goal: YieldSoFar,
) -> bool {
    known_bounds(solver, open_situation).upper.spec_lt(goal.spec_saturating_sub(yield_so_far))
}

/// What the analysis of whether the declarer wins gives if he still gets
/// `future` under best play of all three: the least yield of a won game if
/// that is enough for it, else what he has.
pub open spec fn spec_analyzer_is_won(future: TrickYield, yield_so_far: YieldSoFar) -> YieldSoFar {
    let goal = GameConclusion::DefendersAreDominated.spec_least_yield_necessary_to_be_in_here();
    if goal.spec_saturating_sub(yield_so_far).spec_le(future) {
        goal
    } else {
        yield_so_far
    }
}

/// Whether the declarer wins: the least yield of a won game if he still gets
/// there, else what he has.
///
/// A solver that can be trusted gives what follows from the declarer's yield
/// under best play of all three. Where no card lies on the table, the answer
/// can in any case be read from what the solver knows afterwards.
pub fn analyzer_is_won<C: OpenSituationSolverCache>(
    open_situation: OpenSituation,
    solver: &mut OpenSituationSolver<C>,
    yield_so_far: YieldSoFar,
) -> (r: YieldSoFar)
    requires
        old(solver).wf(),
        open_situation.wf(),
        old(solver).keys().covers(open_situation),
    ensures
        final(solver).has_learned_since(
            old(solver),
            open_situation.spec_remaining_cards_in_hands(),
        ),
        r == GameConclusion::DefendersAreDominated.spec_least_yield_necessary_to_be_in_here() || r
            == yield_so_far,
        old(solver).is_trustworthy() ==> final(solver).is_trustworthy() && r == spec_analyzer_is_won(
            open_situation.optimal_yield(old(solver).spec_game_type()),
            yield_so_far,
        ),
        !open_situation.spec_is_trick_in_progress() ==> {
            let goal = GameConclusion::DefendersAreDominated.spec_least_yield_necessary_to_be_in_here();
            if r == goal {
                is_within_reach(final(solver), open_situation, yield_so_far, goal) || (r
                    == yield_so_far && is_out_of_reach(
                    final(solver),
                    open_situation,
                    yield_so_far,
                    goal,
                ))
            } else {
                is_out_of_reach(final(solver), open_situation, yield_so_far, goal)
            }
        },
{
    let yield_goal = GameConclusion::DefendersAreDominated.least_yield_necessary_to_be_in_here();
    let threshold = yield_goal.saturating_sub(yield_so_far);

    if solver.still_makes_at_least(open_situation, threshold) {
        yield_goal
    } else {
        yield_so_far
    }
}

/// The conclusions that are asked for, from the best down; the worst is what is
/// left if none of them is reached.
pub open spec fn asked_conclusion(step: int) -> GameConclusion {
    if step <= 0 {
        GameConclusion::DefendersAreSchwarz
    } else if step == 1 {
        GameConclusion::DefendersAreSchneider
    } else if step == 2 {
        GameConclusion::DefendersAreDominated
    } else if step == 3 {
        GameConclusion::DeclarerIsDominated
    } else if step == 4 {
        GameConclusion::DeclarerIsSchneider
    } else {
        GameConclusion::DeclarerIsSchwarz
    }
}

fn conclusion_to_ask(step: u8) -> (r: GameConclusion)
    requires
        step < 5,
    ensures
        r == asked_conclusion(step as int),
{
    match step {
        0 => GameConclusion::DefendersAreSchwarz,
        1 => GameConclusion::DefendersAreSchneider,
        2 => GameConclusion::DefendersAreDominated,
        3 => GameConclusion::DeclarerIsDominated,
        _ => GameConclusion::DeclarerIsSchneider,
    }
}

/// What the analysis of the conclusion gives if the declarer still gets
/// `future` under best play of all three: the least yield of the first of the
/// conclusions that are asked for, from `step` on, for which that is enough,
/// and the least yield of the worst conclusion if it is enough for none.
pub open spec fn reached_conclusion(future: TrickYield, yield_so_far: YieldSoFar, step: int) -> YieldSoFar
    decreases 5 - step,
{
    if step >= 5 {
        GameConclusion::DeclarerIsSchwarz.spec_least_yield_necessary_to_be_in_here()
    } else if asked_conclusion(step).spec_least_yield_necessary_to_be_in_here().spec_saturating_sub(
        yield_so_far,
    ).spec_le(future) {
        asked_conclusion(step).spec_least_yield_necessary_to_be_in_here()
    } else {
        reached_conclusion(future, yield_so_far, step + 1)
    }
}

/// How the game is concluded: the least yield of the best conclusion that the
/// declarer still reaches.
///
/// A solver that can be trusted gives what follows from the declarer's yield
/// under best play of all three.
/// Where no card lies on the table, the answer can be read from what the
/// solver knows afterwards: every better conclusion is out of reach, and this
/// one is within reach, or is the worst.
pub fn analyzer_conclusion<C: OpenSituationSolverCache>(
    open_situation: OpenSituation,
    solver: &mut OpenSituationSolver<C>,
    yield_so_far: YieldSoFar,
) -> (r: YieldSoFar)
    requires
        old(solver).wf(),
        open_situation.wf(),
        old(solver).keys().covers(open_situation),
    ensures
        final(solver).has_learned_since(
            old(solver),
            open_situation.spec_remaining_cards_in_hands(),
        ),
        old(solver).is_trustworthy() ==> final(solver).is_trustworthy() && r == reached_conclusion(
            open_situation.optimal_yield(old(solver).spec_game_type()),
            yield_so_far,
            0,
        ),
        exists|step: int|
            {
                &&& 0 <= step <= 5
                &&& r == (#[trigger] asked_conclusion(
                    step,
                )).spec_least_yield_necessary_to_be_in_here()
                &&& !open_situation.spec_is_trick_in_progress() ==> {
                    &&& step < 5 ==> is_within_reach(
                        final(solver),
                        open_situation,
                        yield_so_far,
                        asked_conclusion(step).spec_least_yield_necessary_to_be_in_here(),
                    )
                    &&& forall|better: int|
                        0 <= better < step ==> is_out_of_reach(
                            final(solver),
                            open_situation,
                            yield_so_far,
                            (#[trigger] asked_conclusion(
                                better,
                            )).spec_least_yield_necessary_to_be_in_here(),
                        )
                }
            },
{
    let ghost start = *solver;
    let ghost hands = open_situation.spec_remaining_cards_in_hands();
    let ghost trusted = start.is_trustworthy();
    let ghost future = open_situation.optimal_yield(start.spec_game_type());
    let mut step: u8 = 0;
    while step < 5
        invariant
            step <= 5,
            trusted == start.is_trustworthy(),
            future == open_situation.optimal_yield(start.spec_game_type()),
            solver.spec_game_type() == start.spec_game_type(),
            trusted ==> solver.is_trustworthy() && reached_conclusion(
                future,
                yield_so_far,
                step as int,
            ) == reached_conclusion(future, yield_so_far, 0),
            open_situation.wf(),
            solver.wf(),
            solver.keys() == start.keys(),
            solver.keys().covers(open_situation),
            hands == open_situation.spec_remaining_cards_in_hands(),
            start == *old(solver),
            step == 0 ==> *solver == start,
            step > 0 ==> solver.has_learned_since(&start, hands),
            step > 0 && !open_situation.spec_is_trick_in_progress()
                ==> solver.knowledge().contains_key(solver.keys().spec_key(open_situation)),
            !open_situation.spec_is_trick_in_progress() ==> forall|better: int|
                0 <= better < step ==> is_out_of_reach(
                    solver,
                    open_situation,
                    yield_so_far,
                    (#[trigger] asked_conclusion(
                        better,
                    )).spec_least_yield_necessary_to_be_in_here(),
                ),
        decreases 5 - step,
    {
        let game_conclusion = conclusion_to_ask(step);
        let yield_goal = game_conclusion.least_yield_necessary_to_be_in_here();
        let threshold = yield_goal.saturating_sub(yield_so_far);
        let ghost before = *solver;
        let made = solver.still_makes_at_least(open_situation, threshold);
        proof {
            lemma_learned_twice(&start, &before, solver, hands, step > 0);
            assert(asked_conclusion(step as int) == game_conclusion);
            if !open_situation.spec_is_trick_in_progress() {
                assert forall|better: int| 0 <= better < step implies is_out_of_reach(
                    solver,
                    open_situation,
                    yield_so_far,
                    (#[trigger] asked_conclusion(
                        better,
                    )).spec_least_yield_necessary_to_be_in_here(),
                ) by {
                    lemma_stays_out_of_reach(
                        &before,
                        solver,
                        open_situation,
                        yield_so_far,
                        asked_conclusion(better).spec_least_yield_necessary_to_be_in_here(),
                    );
                }
            }
        }
        if made {
            proof {
                let witness = step as int;
                assert(yield_goal == asked_conclusion(
                    witness,
                ).spec_least_yield_necessary_to_be_in_here());
            }
            return yield_goal;
        }
        step += 1;
    }
    proof {
        assert(asked_conclusion(5) == GameConclusion::DeclarerIsSchwarz);
    }
    GameConclusion::DeclarerIsSchwarz.least_yield_necessary_to_be_in_here()
}

/// What was out of reach stays out of reach when the solver learns.
pub proof fn lemma_stays_out_of_reach<C: OpenSituationSolverCache>(
    before: &OpenSituationSolver<C>,
    after: &OpenSituationSolver<C>,
    open_situation: OpenSituation,
    yield_so_far: YieldSoFar,
    goal: YieldSoFar,
)
    requires
        after.has_learned_since(before, open_situation.spec_remaining_cards_in_hands()),
        before.knowledge().contains_key(before.keys().spec_key(open_situation)),
        is_out_of_reach(before, open_situation, yield_so_far, goal),
    ensures
        is_out_of_reach(after, open_situation, yield_so_far, goal),
{
    let key = before.keys().spec_key(open_situation);
    assert(after.knowledge().contains_key(key) && after.knowledge()[key].bounds.tightens(
        before.knowledge()[key].bounds,
    ));
}

/// A solver that has learned, and then learned again, has learned.
pub proof fn lemma_learned_twice<C: OpenSituationSolverCache>(
    first: &OpenSituationSolver<C>,
    second: &OpenSituationSolver<C>,
    third: &OpenSituationSolver<C>,
    hands: crate::cards::Cards,
    moved: bool,
)
    requires
        moved ==> second.has_learned_since(first, hands),
        !moved ==> *second == *first,
        third.has_learned_since(second, hands),
    ensures
        third.has_learned_since(first, hands),
{
    if moved {
        crate::open_situation_solver::bounds_cache::lemma_tightened_twice(
            first.knowledge(),
            second.knowledge(),
            third.knowledge(),
        );
        crate::open_situation_solver::bounds_cache::lemma_changed_twice(
            first.knowledge(),
            second.knowledge(),
            third.knowledge(),
            third.keys(),
            hands,
            hands,
        );
    }
}

/// The yields that are asked for, from the best down: all points in all
/// tricks, then one point less at a time, in at least one trick.
pub open spec fn asked_yield(step: int) -> YieldSoFar {
    if step <= 0 {
        YieldSoFar::spec_max_yield()
    } else {
        YieldSoFar { card_points: CardPoints((120 - step) as u8), number_of_tricks: 1 }
    }
}

/// The answer if the yield of a step is the first that is within reach: that
/// yield, or, after the last step, what the declarer has.
pub open spec fn answer_at(step: int, yield_so_far: YieldSoFar) -> YieldSoFar {
    if step <= 120 {
        asked_yield(step)
    } else {
        yield_so_far
    }
}

/// What the analysis of the yield gives if the declarer still gets `future`
/// under best play of all three: the first of the yields that are asked for,
/// from `step` on, for which that is enough, and what he has if it is enough
/// for none.
pub open spec fn reached_yield(future: TrickYield, yield_so_far: YieldSoFar, step: int) -> YieldSoFar
    decreases 121 - step,
{
    if step > 120 {
        yield_so_far
    } else if asked_yield(step).spec_saturating_sub(yield_so_far).spec_le(future) {
        asked_yield(step)
    } else {
        reached_yield(future, yield_so_far, step + 1)
    }
}

/// What the declarer has in the end under best play of all three: the best of
/// the yields that are asked for that he still reaches, or what he has if he
/// reaches none.
///
/// A solver that can be trusted gives what follows from the declarer's yield
/// under best play of all three.
/// Where no card lies on the table, the answer can be read from what the
/// solver knows afterwards: every better yield is out of reach, and this one is
/// within reach, or is what the declarer has.
pub fn analyzer_yield<C: OpenSituationSolverCache>(
    open_situation: OpenSituation,
    solver: &mut OpenSituationSolver<C>,
    yield_so_far: YieldSoFar,
) -> (r: YieldSoFar)
    requires
        old(solver).wf(),
        open_situation.wf(),
        old(solver).keys().covers(open_situation),
    ensures
        final(solver).has_learned_since(
            old(solver),
            open_situation.spec_remaining_cards_in_hands(),
        ),
        old(solver).is_trustworthy() ==> final(solver).is_trustworthy() && r == reached_yield(
            open_situation.optimal_yield(old(solver).spec_game_type()),
            yield_so_far,
            0,
        ),
        exists|step: int|
            {
                &&& 0 <= step <= 121
                &&& r == #[trigger] answer_at(step, yield_so_far)
                &&& !open_situation.spec_is_trick_in_progress() ==> {
                    &&& step <= 120 ==> is_within_reach(
                        final(solver),
                        open_situation,
                        yield_so_far,
                        asked_yield(step),
                    )
                    &&& forall|better: int|
                        0 <= better < step ==> is_out_of_reach(
                            final(solver),
                            open_situation,
                            yield_so_far,
                            #[trigger] asked_yield(better),
                        )
                }
            },
{
    let mut yield_goal = YieldSoFar::max_yield();
    let ghost start = *solver;
    let ghost hands = open_situation.spec_remaining_cards_in_hands();
    let ghost trusted = start.is_trustworthy();
    let ghost future = open_situation.optimal_yield(start.spec_game_type());
    let ghost mut step: int = 0;

    loop
        invariant
            0 <= step <= 120,
            trusted == start.is_trustworthy(),
            future == open_situation.optimal_yield(start.spec_game_type()),
            solver.spec_game_type() == start.spec_game_type(),
            trusted ==> solver.is_trustworthy() && reached_yield(future, yield_so_far, step)
                == reached_yield(future, yield_so_far, 0),
            yield_goal == asked_yield(step),
            open_situation.wf(),
            solver.wf(),
            solver.keys() == start.keys(),
            solver.keys().covers(open_situation),
            hands == open_situation.spec_remaining_cards_in_hands(),
            start == *old(solver),
            step == 0 ==> *solver == start,
            step > 0 ==> solver.has_learned_since(&start, hands),
            step > 0 && !open_situation.spec_is_trick_in_progress()
                ==> solver.knowledge().contains_key(solver.keys().spec_key(open_situation)),
            !open_situation.spec_is_trick_in_progress() ==> forall|better: int|
                0 <= better < step ==> is_out_of_reach(
                    solver,
                    open_situation,
                    yield_so_far,
                    #[trigger] asked_yield(better),
                ),
        decreases 120 - step,
    {
        let threshold = yield_goal.saturating_sub(yield_so_far);

        let ghost before = *solver;
        let made = solver.still_makes_at_least(open_situation, threshold);
        proof {
            lemma_learned_twice(&start, &before, solver, hands, step > 0);
            if !open_situation.spec_is_trick_in_progress() {
                assert forall|better: int| 0 <= better < step implies is_out_of_reach(
                    solver,
                    open_situation,
                    yield_so_far,
                    #[trigger] asked_yield(better),
                ) by {
                    lemma_stays_out_of_reach(
                        &before,
                        solver,
                        open_situation,
                        yield_so_far,
                        asked_yield(better),
                    );
                }
            }
        }
        if made {
            proof {
                assert(yield_goal == answer_at(step, yield_so_far));
            }
            return yield_goal;
        }
        if yield_goal.card_points().0 == 0 && yield_goal.number_of_tricks() == 1 {
            proof {
                assert(step == 120);
                assert(yield_so_far == answer_at(121, yield_so_far));
                assert(reached_yield(future, yield_so_far, 121) == yield_so_far);
                if trusted {
                    assert(reached_yield(future, yield_so_far, 120) == reached_yield(
                        future,
                        yield_so_far,
                        121,
                    ));
                }
                if !open_situation.spec_is_trick_in_progress() {
                    assert forall|better: int| 0 <= better < 121 implies is_out_of_reach(
                        solver,
                        open_situation,
                        yield_so_far,
                        #[trigger] asked_yield(better),
                    ) by {}
                }
            }
            return yield_so_far;
        }
        yield_goal = YieldSoFar::new(CardPoints(yield_goal.card_points().0 - 1), 1);
        proof {
            step = step + 1;
        }
    }
}

/// What the analysis at a level gives if the declarer still gets `future`
/// under best play of all three.
pub open spec fn spec_analyzer(future: TrickYield, yield_so_far: YieldSoFar, level: Level) -> YieldSoFar {
    match level {
        Level::IsWon => spec_analyzer_is_won(future, yield_so_far),
        Level::Conclusion => reached_conclusion(future, yield_so_far, 0),
        Level::Yield => reached_yield(future, yield_so_far, 0),
    }
}

/// The analysis of a position at the level that is asked for.
pub fn analyzer<C: OpenSituationSolverCache>(
    open_situation: OpenSituation,
    solver: &mut OpenSituationSolver<C>,
    yield_so_far: YieldSoFar,
    level: Level,
) -> (r: YieldSoFar)
    requires
        old(solver).wf(),
        open_situation.wf(),
        old(solver).keys().covers(open_situation),
    ensures
        final(solver).has_learned_since(
            old(solver),
            open_situation.spec_remaining_cards_in_hands(),
        ),
        old(solver).is_trustworthy() ==> final(solver).is_trustworthy() && r == spec_analyzer(
            open_situation.optimal_yield(old(solver).spec_game_type()),
            yield_so_far,
            level,
        ),
{
    match level {
        Level::IsWon => analyzer_is_won(open_situation, solver, yield_so_far),
        Level::Conclusion => analyzer_conclusion(open_situation, solver, yield_so_far),
        Level::Yield => analyzer_yield(open_situation, solver, yield_so_far),
    }
}

} // verus!
