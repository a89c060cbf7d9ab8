use muskat::bidding_role::BiddingRole;
use muskat::card::{Card, CardType, Suit};
use muskat::card_points::CardPoints;
use muskat::cards::Cards;
use muskat::deck::Deck;
use muskat::game_type::GameType;
use muskat::open_analysis_performance::analyzer_yield;
use muskat::open_situation_solver::bounds_cache::{
    open_situation_reachable_from_to_u32_key, FastOpenSituationSolverCache,
};
use muskat::open_situation_solver::OpenSituationSolver;
use muskat::partial_trick::PartialTrick;
use muskat::rng::cheap_rng;
use muskat::role::Role;
use muskat::situation::OpenSituation;
use muskat::trick_yield::{TrickYield, YieldSoFar};

fn test_calculate_potential_score(
    deck: Deck,
    game_type: GameType,
    declarer: BiddingRole,
    expected: YieldSoFar,
) {
    let deal = deck.deal();
    let open_situation = OpenSituation::initial(deal, declarer);

    let mut solver = OpenSituationSolver::new(
        FastOpenSituationSolverCache::new(
            open_situation_reachable_from_to_u32_key(open_situation),
            game_type,
        ),
        game_type,
    );

    let actual = analyzer_yield(open_situation, &mut solver, open_situation.yield_from_skat());

    assert_eq!(actual, expected);
}

fn test_calculate_potential_score_rng_batch(
    game_type: GameType,
    declarer: BiddingRole,
    seed: u64,
    expecteds: &[YieldSoFar],
) {
    let mut rng = cheap_rng(seed);

    for &expected in expecteds {
        let deck = Deck::shuffled(&mut rng);
        test_calculate_potential_score(deck, game_type, declarer, expected);
    }
}

#[test]
fn test_calculate_potential_score_suit_declarer() {
    test_calculate_potential_score_rng_batch(
        GameType::Trump(CardType::Suit(Suit::Hearts)),
        BiddingRole::FirstCaller,
        432,
        &[
            YieldSoFar::new(CardPoints(9), 1),
            YieldSoFar::new(CardPoints(12), 1),
            YieldSoFar::new(CardPoints(47), 1),
            YieldSoFar::new(CardPoints(32), 1),
            YieldSoFar::new(CardPoints(45), 1),
        ],
    );
}

#[test]
fn test_calculate_potential_score_grand_first_receiver() {
    test_calculate_potential_score_rng_batch(
        GameType::Trump(CardType::Trump),
        BiddingRole::FirstReceiver,
        32,
        &[
            YieldSoFar::new(CardPoints(30), 1),
            YieldSoFar::new(CardPoints(27), 1),
            YieldSoFar::new(CardPoints(21), 0),
            YieldSoFar::new(CardPoints(36), 1),
            YieldSoFar::new(CardPoints(25), 1),
        ],
    );
}

#[test]
fn test_calculate_potential_score_null_second_caller() {
    test_calculate_potential_score_rng_batch(
        GameType::Null,
        BiddingRole::SecondCaller,
        333,
        &[
            YieldSoFar::new(CardPoints(91), 1),
            YieldSoFar::new(CardPoints(62), 1),
            YieldSoFar::new(CardPoints(60), 1),
            YieldSoFar::new(CardPoints(67), 1),
        ],
    );
}

#[test]
fn forcing_defender_play_highest_of_suit_for_rule_2() {
    let open_situation = OpenSituation::new(
        Cards::from(&[Card::S7, Card::SZ, Card::HK, Card::E9]),
        Cards::from(&[Card::G9, Card::GO, Card::E7, Card::EO]),
        Cards::from(&[Card::SK, Card::G8, Card::E8, Card::SU]),
        PartialTrick::empty(),
        Role::FirstDefender,
    );
    assert!(open_situation.is_well_formed());

    assert_eq!(
        open_situation.upper_bound_non_null_defender_forehand(CardType::Suit(Suit::Hearts)),
        TrickYield::new(CardPoints(21), 2)
    );
}

#[test]
fn forcing_defender_count_can_allow_declarer_to_use_trump() {
    let open_situation = OpenSituation::new(
        Cards::from(&[Card::SO, Card::H7]),
        Cards::from(&[Card::G9, Card::E7]),
        Cards::from(&[Card::SK, Card::SU]),
        PartialTrick::empty(),
        Role::FirstDefender,
    );
    assert!(open_situation.is_well_formed());

    assert_eq!(
        open_situation.upper_bound_non_null_defender_forehand(CardType::Suit(Suit::Hearts)),
        TrickYield::new(CardPoints(7), 1)
    );
}
