use muskat::bidding_role::BiddingRole;
use muskat::card::{Card, CardType, Suit};
use muskat::card_points::CardPoints;
use muskat::cards::{quasi_equivalent_with_max_delta, Cards};
use muskat::deal::Deal;
use muskat::game_type::GameType;
use muskat::monte_carlo::{Announcement, Contract, GameConclusion};
use muskat::open_analysis_performance::{
    analyzer_conclusion, analyzer_is_won, analyzer_yield, game_by_numbers,
    generate_random_trump_games_of_active_player, generate_random_unfinished_open_situations,
    seat_by_number, trump_by_number,
};
use muskat::open_situation_analyzer::score_for_possible_plays::initial_situation_makes_at_least;
use muskat::open_situation_solver::bounds_cache::{
    open_situation_reachable_from_to_u32_key, DebugOpenSituationSolverCache,
    FastOpenSituationSolverCache,
};
use muskat::open_situation_solver::OpenSituationSolver;
use muskat::rng::cheap_rng;
use muskat::role::Role;
use muskat::situation::OpenSituation;
use muskat::trick_yield::{TrickYield, YieldSoFar};

fn deal_with_declarer_hand(hand: &[Card; 10], skat: &[Card; 2], declarer: BiddingRole) -> Deal {
    let declarer_hand = Cards::from(hand);
    let skat = Cards::from(skat);
    let rest = Cards::all().without(declarer_hand).without(skat).to_vec();
    assert_eq!(rest.len(), 20);
    let first = Cards::from_slice(&rest[..10]);
    let second = Cards::from_slice(&rest[10..]);
    let deal = match declarer {
        BiddingRole::FirstReceiver => Deal::new(declarer_hand, first, second, skat),
        BiddingRole::FirstCaller => Deal::new(second, declarer_hand, first, skat),
        BiddingRole::SecondCaller => Deal::new(first, second, declarer_hand, skat),
    };
    assert!(deal.is_whole());
    deal
}

fn solver_for(
    open_situation: OpenSituation,
    game_type: GameType,
) -> OpenSituationSolver<FastOpenSituationSolverCache> {
    OpenSituationSolver::new(
        FastOpenSituationSolverCache::new(
            open_situation_reachable_from_to_u32_key(open_situation),
            game_type,
        ),
        game_type,
    )
}

#[test]
fn all_trump_in_one_hand_sweeps() {
    let game_type = GameType::Trump(CardType::Suit(Suit::Clubs));
    let hand = [
        Card::EU,
        Card::GU,
        Card::HU,
        Card::SU,
        Card::EA,
        Card::EZ,
        Card::EK,
        Card::E9,
        Card::E8,
        Card::E7,
    ];
    for declarer in [
        BiddingRole::FirstReceiver,
        BiddingRole::FirstCaller,
        BiddingRole::SecondCaller,
    ] {
        let deal = deal_with_declarer_hand(&hand, &[Card::SA, Card::SK], declarer);
        let open_situation = OpenSituation::initial(deal, declarer);
        assert!(open_situation.is_well_formed());
        let from_skat = open_situation.yield_from_skat();
        assert_eq!(from_skat, YieldSoFar::new(CardPoints(15), 0));

        let mut solver = solver_for(open_situation, game_type);
        // What is still to come: 105 points in 10 tricks.
        assert!(solver.still_makes_at_least(
            open_situation,
            TrickYield::new(CardPoints(105), 10)
        ));
        let total = analyzer_yield(open_situation, &mut solver, from_skat);
        assert_eq!(total, YieldSoFar::new(CardPoints(120), 10));
        assert_eq!(
            GameConclusion::from_final_declarer_yield(&total),
            GameConclusion::DefendersAreSchwarz
        );
        let concluded = analyzer_conclusion(open_situation, &mut solver, from_skat);
        assert_eq!(
            GameConclusion::from_final_declarer_yield(&concluded),
            GameConclusion::DefendersAreSchwarz
        );
        let won = analyzer_is_won(open_situation, &mut solver, from_skat);
        assert_eq!(won, YieldSoFar::new(CardPoints(61), 1));
    }
}

#[test]
fn null_with_the_lowest_cards_takes_no_trick() {
    let hand = [
        Card::S7,
        Card::S8,
        Card::S9,
        Card::H7,
        Card::H8,
        Card::H9,
        Card::G7,
        Card::G8,
        Card::G9,
        Card::E7,
    ];
    for declarer in [
        BiddingRole::FirstReceiver,
        BiddingRole::FirstCaller,
        BiddingRole::SecondCaller,
    ] {
        let deal = deal_with_declarer_hand(&hand, &[Card::E8, Card::E9], declarer);
        let open_situation = OpenSituation::initial(deal, declarer);
        let mut solver = solver_for(open_situation, GameType::Null);

        assert!(solver.still_makes_at_least(open_situation, TrickYield::zero_tricks()));
        assert!(!solver.still_makes_at_least(
            open_situation,
            TrickYield::new(CardPoints(0), 1)
        ));
        let total = analyzer_yield(
            open_situation,
            &mut solver,
            open_situation.yield_from_skat(),
        );
        assert_eq!(total.number_of_tricks(), 0);
        assert_eq!(
            GameConclusion::from_final_declarer_yield(&total),
            GameConclusion::DeclarerIsSchwarz
        );
    }
}

#[test]
fn debug_cache_gives_the_answers_of_the_fast_cache() {
    let game_type = GameType::Trump(CardType::Trump);
    let hand = [
        Card::EU,
        Card::SU,
        Card::EA,
        Card::EZ,
        Card::HA,
        Card::H9,
        Card::G7,
        Card::G8,
        Card::SA,
        Card::S7,
    ];
    let deal = deal_with_declarer_hand(&hand, &[Card::GK, Card::SO], BiddingRole::FirstCaller);
    let open_situation = OpenSituation::initial(deal, BiddingRole::FirstCaller);
    let mut fast = solver_for(open_situation, game_type);
    let mut debug = OpenSituationSolver::new(
        DebugOpenSituationSolverCache::new(open_situation_reachable_from_to_u32_key(
            open_situation,
        )),
        game_type,
    );
    for points in [0u8, 20, 40, 61, 90, 120] {
        let threshold = TrickYield::new(CardPoints(points), 1);
        assert_eq!(
            fast.still_makes_at_least(open_situation, threshold),
            debug.still_makes_at_least(open_situation, threshold)
        );
    }
    let from_skat = open_situation.yield_from_skat();
    assert_eq!(
        analyzer_yield(open_situation, &mut fast, from_skat),
        analyzer_yield(open_situation, &mut debug, from_skat)
    );
    assert!(fast.nodes_generated() > 0);
}

#[test]
fn answers_are_monotone_and_repeat() {
    let game_type = GameType::Trump(CardType::Suit(Suit::Spades));
    let hand = [
        Card::EU,
        Card::HU,
        Card::GA,
        Card::GZ,
        Card::G9,
        Card::EA,
        Card::E7,
        Card::HK,
        Card::H8,
        Card::S9,
    ];
    let deal = deal_with_declarer_hand(&hand, &[Card::SZ, Card::HO], BiddingRole::FirstReceiver);
    let open_situation = OpenSituation::initial(deal, BiddingRole::FirstReceiver);
    let mut solver = solver_for(open_situation, game_type);

    let mut answers = Vec::new();
    for points in (0..=120u8).rev() {
        let threshold = TrickYield::new(CardPoints(points), 1);
        let made = solver.still_makes_at_least(open_situation, threshold);
        assert_eq!(made, solver.still_makes_at_least(open_situation, threshold));
        answers.push(made);
    }
    // Once a threshold is made, every lower one is made too.
    let first_made = answers.iter().position(|&made| made).expect("nothing is always made");
    assert!(answers[first_made..].iter().all(|&made| made));
    assert!(answers[..first_made].iter().all(|&made| !made));
}

#[test]
fn sixty_points_are_not_enough() {
    for tricks in 1..=9u8 {
        assert_eq!(
            GameConclusion::from_final_declarer_yield(&YieldSoFar::new(CardPoints(60), tricks)),
            GameConclusion::DeclarerIsDominated
        );
        assert_eq!(
            GameConclusion::from_final_declarer_yield(&YieldSoFar::new(CardPoints(61), tricks)),
            GameConclusion::DefendersAreDominated
        );
    }
}

#[test]
fn quasi_equivalence_within_and_across_a_gap() {
    let game_type = GameType::Trump(CardType::Trump);

    // The declarer holds EU and GU, HU lies in the cellar: the three are one block.
    let (banned, delta) = quasi_equivalent_with_max_delta(
        Card::EU,
        Cards::from(&[Card::EU, Card::GU, Card::HU]),
        game_type,
        CardPoints(0),
        Cards::from(&[Card::GU]),
    );
    assert_eq!(banned, Cards::from(&[Card::GU]));
    assert_eq!(delta, CardPoints(0));

    // GU and HU are in other hands: the block of EU ends at EU.
    let (banned, delta) = quasi_equivalent_with_max_delta(
        Card::EU,
        Cards::from(&[Card::EU, Card::SU]),
        game_type,
        CardPoints(0),
        Cards::from(&[Card::SU]),
    );
    assert_eq!(banned, Cards::empty());
    assert_eq!(delta, CardPoints(0));
}

#[test]
fn quasi_equivalence_respects_the_points() {
    let game_type = GameType::Trump(CardType::Suit(Suit::Hearts));
    let hand = Cards::from(&[Card::G7, Card::G8, Card::G9, Card::GO, Card::GK, Card::GZ]);

    // King and queen are one point apart, the ten is six points above the king.
    let (banned, delta) = quasi_equivalent_with_max_delta(
        Card::GK,
        hand,
        game_type,
        CardPoints(1),
        hand.without(Cards::just(Card::GK)),
    );
    assert_eq!(banned, Cards::from(&[Card::GO]));
    assert_eq!(delta, CardPoints(1));

    let (banned, delta) = quasi_equivalent_with_max_delta(
        Card::G8,
        hand,
        game_type,
        CardPoints(0),
        hand.without(Cards::just(Card::G8)),
    );
    assert_eq!(banned, Cards::from(&[Card::G7, Card::G9]));
    assert_eq!(delta, CardPoints(0));

    // In a Null game the ten stands between nine and U.
    let (banned, _) = quasi_equivalent_with_max_delta(
        Card::G9,
        Cards::from(&[Card::G9, Card::GZ, Card::GO]),
        GameType::Null,
        CardPoints(11),
        Cards::from(&[Card::GZ, Card::GO]),
    );
    assert_eq!(banned, Cards::from(&[Card::GZ]));
}

#[test]
fn clubs_hand_with_two_is_worth_forty_eight() {
    let announcement = Announcement::new(
        GameType::Trump(CardType::Suit(Suit::Clubs)),
        true,
        false,
        false,
        false,
    )
    .expect("a hand game");
    let conclusion = GameConclusion::DefendersAreDominated;
    assert_eq!(announcement.value(&conclusion, Some(2)), 48);

    let contract = Contract::new(36, announcement);
    let result = contract.conclude(&conclusion, Some(2));
    assert_eq!(result.game_value, 48);
    assert!(result.is_won);
    assert_eq!(result.score_classical().delta(), 48);
}

#[test]
fn random_trump_games_start_with_ten_cards_each() {
    let mut rng = cheap_rng(17);
    for _ in 0..20 {
        let game = generate_random_trump_games_of_active_player(&mut rng);
        assert!(matches!(game.game_type, GameType::Trump(_)));
        assert!(game.open_situation.is_well_formed());
        assert!(game.open_situation.is_initial_situation());
        assert_eq!(game.open_situation.remaining_cards_in_hands().len(), 30);
        assert_eq!(game.open_situation.active_role(), Role::Declarer);
        assert_eq!(game.yield_so_far.number_of_tricks, 0);
        assert_eq!(
            game.yield_so_far.card_points.0,
            game.open_situation.cellar().to_points().0
        );
    }
}

#[test]
fn random_unfinished_positions_leave_a_card_to_play() {
    let mut rng = cheap_rng(23);
    let mut lengths = Vec::new();
    for _ in 0..40 {
        let game = generate_random_unfinished_open_situations(&mut rng);
        assert!(game.open_situation.is_well_formed());
        assert!(!game.open_situation.next_possible_plays(game.game_type).is_empty());
        let left = game.open_situation.remaining_cards_in_hands().len();
        assert!((1..=30).contains(&left));
        assert!(game.yield_so_far.card_points.0 <= 120);
        assert!(game.yield_so_far.number_of_tricks <= 10);
        lengths.push(left);
    }
    assert!(lengths.iter().any(|left| *left != lengths[0]));
}

#[test]
fn trumps_and_seats_by_number() {
    assert_eq!(trump_by_number(0), CardType::Trump);
    assert_eq!(trump_by_number(1), CardType::Suit(Suit::Clubs));
    assert_eq!(trump_by_number(2), CardType::Suit(Suit::Diamonds));
    assert_eq!(trump_by_number(3), CardType::Suit(Suit::Spades));
    assert_eq!(trump_by_number(4), CardType::Suit(Suit::Hearts));
    assert_eq!(seat_by_number(0), BiddingRole::FirstReceiver);
    assert_eq!(seat_by_number(1), BiddingRole::FirstCaller);
    assert_eq!(seat_by_number(2), BiddingRole::SecondCaller);
}

#[test]
fn the_first_position_counts_the_skat() {
    let game_type = GameType::Trump(CardType::Suit(Suit::Clubs));
    let hand = [
        Card::EU,
        Card::GU,
        Card::HU,
        Card::SU,
        Card::EA,
        Card::EZ,
        Card::EK,
        Card::E9,
        Card::E8,
        Card::E7,
    ];
    let deal = deal_with_declarer_hand(&hand, &[Card::SA, Card::SK], BiddingRole::FirstReceiver);
    let open_situation = OpenSituation::initial(deal, BiddingRole::FirstReceiver);
    let mut solver = solver_for(open_situation, game_type);
    // 15 points lie in the skat and 105 are won in the ten tricks.
    assert!(initial_situation_makes_at_least(
        open_situation,
        &mut solver,
        YieldSoFar::new(CardPoints(120), 10)
    ));
    assert!(initial_situation_makes_at_least(
        open_situation,
        &mut solver,
        YieldSoFar::new(CardPoints(61), 0)
    ));
    // More than all points cannot be had.
    assert!(!initial_situation_makes_at_least(
        open_situation,
        &mut solver,
        YieldSoFar::new(CardPoints(121), 10)
    ));
    assert!(solver.nodes_generated() > 0);

    let mut changed = deal;
    let first = *changed.hand(BiddingRole::FirstCaller);
    *changed.hand_mut(BiddingRole::FirstCaller) = *deal.hand(BiddingRole::SecondCaller);
    *changed.hand_mut(BiddingRole::SecondCaller) = first;
    assert!(changed.is_whole());
    assert_eq!(*changed.hand(BiddingRole::FirstCaller), *deal.hand(BiddingRole::SecondCaller));
    assert_eq!(changed.skat(), deal.skat());
}

#[test]
fn games_by_number() {
    assert_eq!(game_by_numbers(0, 0, 0), GameType::Null);
    assert_eq!(game_by_numbers(0, 1, 3), GameType::Null);
    assert_eq!(game_by_numbers(1, 1, 0), GameType::Trump(CardType::Trump));
    assert_eq!(game_by_numbers(1, 1, 2), GameType::Trump(CardType::Trump));
    assert_eq!(game_by_numbers(1, 0, 0), GameType::Trump(CardType::Suit(Suit::Clubs)));
    assert_eq!(game_by_numbers(1, 0, 1), GameType::Trump(CardType::Suit(Suit::Hearts)));
    assert_eq!(game_by_numbers(1, 0, 2), GameType::Trump(CardType::Suit(Suit::Diamonds)));
    assert_eq!(game_by_numbers(1, 0, 3), GameType::Trump(CardType::Suit(Suit::Spades)));
}

#[test]
fn a_new_solver_has_spent_no_time() {
    let game_type = GameType::Trump(CardType::Trump);
    let mut rng = cheap_rng(3);
    let game = generate_random_trump_games_of_active_player(&mut rng);
    let solver = solver_for(game.open_situation, game_type);
    assert_eq!(solver.time_spent(), std::time::Duration::ZERO);
    assert_eq!(solver.nodes_generated(), 0);
}

#[test]
fn nothing_is_always_made_and_the_quick_bounds_are_kept_to() {
    let mut rng = cheap_rng(41);
    let mut with_a_card_on_the_table = 0;
    for _ in 0..60 {
        let game = generate_random_unfinished_open_situations(&mut rng);
        if game.open_situation.remaining_cards_in_hands().len() > 12 {
            continue;
        }
        if game.open_situation.is_trick_in_progress() {
            with_a_card_on_the_table += 1;
        }
        let quick = game.open_situation.quick_bounds(game.game_type);
        let mut solver = solver_for(game.open_situation, game.game_type);
        assert!(solver.still_makes_at_least(game.open_situation, TrickYield::zero_tricks()));
        assert!(solver.still_makes_at_least(game.open_situation, quick.lower()));
        if quick.upper().card_points.0 < 120 {
            let more = TrickYield::new(CardPoints(quick.upper().card_points.0 + 1), 0);
            assert!(!solver.still_makes_at_least(game.open_situation, more));
        }
    }
    assert!(with_a_card_on_the_table > 0);
}
