use muskat::analyze_observation::{is_decision_of_observer, GameMode};
use muskat::bidding_role::BiddingRole;
use muskat::card::{Card, CardType, Suit};
use muskat::card_points::CardPoints;
use muskat::cards::Cards;
use muskat::deal::Deal;
use muskat::deck::Deck;
use muskat::dist::{
    choose_in_order, partially_distribute, remove_by_index, ColorDistribution, ColorDistributions,
    OpenCards, UniformPossibleDealsFromObservedGameplay, UnknownCards,
};
use muskat::dto::{AnnouncementDto, Dto};
use muskat::game_type::GameType;
use muskat::monte_carlo::{
    analyze_possible_world, sampled_deals, Announcement, AnnouncementError, Contract,
};
use muskat::observed_gameplay::{
    CardKnowledge, ObservedInitialGameState, ObservedPlayedCards, UnknownCardPosition,
};
use muskat::open_situation_analyzer::AnalyzedPossiblePlays;
use muskat::rng::cheap_rng;
use muskat::role::Role;
use muskat::situation::OpenSituation;
use muskat::trick_yield::YieldSoFar;

const CLUBS: GameType = GameType::Trump(CardType::Suit(Suit::Clubs));

fn declarer_state(hand: Cards, skat: Cards) -> ObservedInitialGameState {
    let announcement = Announcement::new(CLUBS, false, false, false, false).expect("clubs");
    let contract = Contract::new(24, announcement);
    assert!(ObservedInitialGameState::check_valid(
        hand,
        Some(skat),
        None,
        BiddingRole::FirstReceiver,
        BiddingRole::FirstReceiver,
        contract
    ));
    ObservedInitialGameState::new(
        hand,
        Some(skat),
        None,
        CLUBS,
        BiddingRole::FirstReceiver,
        BiddingRole::FirstReceiver,
        contract,
    )
}

fn hand_with_five_open_trumps() -> (Cards, Cards) {
    // Six trumps, two hearts, one spade and three diamonds are known.
    let hand = Cards::from(&[
        Card::EU,
        Card::GU,
        Card::EA,
        Card::EZ,
        Card::EK,
        Card::E7,
        Card::HA,
        Card::H7,
        Card::GA,
        Card::SA,
    ]);
    let skat = Cards::from(&[Card::SZ, Card::S7]);
    (hand, skat)
}

#[test]
fn a_declarer_who_knows_the_skat_faces_184756_deals() {
    let (hand, skat) = hand_with_five_open_trumps();
    let initial = declarer_state(hand, skat);
    assert_eq!(initial.bidding_role(), BiddingRole::FirstReceiver);
    assert_eq!(initial.bidding_winner(), BiddingRole::FirstReceiver);
    assert_eq!(initial.game_type(), CLUBS);
    assert_eq!(initial.contract().bidding_value, 24);

    let knowledge = CardKnowledge::from_observation(&initial, &ObservedPlayedCards::initial());
    assert!(knowledge.check_consistent());
    assert_eq!(knowledge.observed_cards(), hand.or(skat));
    assert_eq!(knowledge.observed_cards_array(), [hand, Cards::empty(), Cards::empty(), skat]);
    let unknown = knowledge.unknown_cards_slice();
    assert_eq!(unknown[0], UnknownCards::unrestricted(0));
    assert_eq!(unknown[1], UnknownCards::unknown_hand());
    assert_eq!(unknown[3].number, 0);

    let dist = UniformPossibleDealsFromObservedGameplay::new(&knowledge, CLUBS);
    assert_eq!(dist.number_of_color_distributions(), 140);
    assert_eq!(dist.number_of_possibilities(), 184_756);
}

#[test]
fn what_is_learned_from_the_cards_that_are_played() {
    let mut knowledge = CardKnowledge::no_knowledge();
    assert_eq!(knowledge.unknown_cards_slice().to_vec(), vec![
        UnknownCards::unknown_hand(),
        UnknownCards::unknown_hand(),
        UnknownCards::unknown_hand(),
        UnknownCards::unknown_skat(),
    ]);
    knowledge.learn_about_where_the_card_initially_was_without_any_further_inferences(
        Card::S7,
        UnknownCardPosition::Skat,
    );
    assert_eq!(knowledge.observed_cards_array()[3], Cards::just(Card::S7));
    assert_eq!(knowledge.unknown_cards_slice()[3].number, 1);
    assert_eq!(UnknownCardPosition::Skat.id(), 3);
    assert_eq!(UnknownCardPosition::Hand(BiddingRole::FirstCaller).id(), 1);

    // The first caller does not follow diamonds: he has none.
    knowledge.learn_about_if_not_everything_of_that_player_already_known(
        Card::HA,
        BiddingRole::FirstCaller,
        CardType::Suit(Suit::Diamonds),
        CLUBS,
    );
    let first_caller = knowledge.unknown_cards_slice()[1];
    assert_eq!(first_caller.number, 9);
    assert!(!first_caller.possible(CardType::Suit(Suit::Diamonds)));
    assert!(first_caller.possible(CardType::Suit(Suit::Hearts)));
    assert_eq!(first_caller.max_possible(CardType::Suit(Suit::Diamonds)), 0);
    assert_eq!(first_caller.max_possible(CardType::Trump), 9);
    assert_eq!(knowledge.observed_cards_array()[1], Cards::just(Card::HA));

    // A card of the second caller that follows.
    knowledge.learn_about_if_not_everything_of_that_player_already_known(
        Card::SK,
        BiddingRole::SecondCaller,
        CardType::Suit(Suit::Diamonds),
        CLUBS,
    );
    assert_eq!(knowledge.unknown_cards_slice()[2], UnknownCards::unrestricted(9));
    assert!(knowledge.check_consistent());
}

#[test]
fn observed_plays_lead_to_the_position() {
    let deal = Deck::unshuffled().deal();
    let mut observed = ObservedPlayedCards::initial();
    assert_eq!(observed.active_role(), BiddingRole::FirstReceiver);
    assert_eq!(observed.number_of_done_tricks(), 0);

    observed.observe_play(Card::S7, CLUBS);
    assert_eq!(observed.active_role(), BiddingRole::FirstCaller);
    observed.observe_play(Card::SZ, CLUBS);
    observed.observe_play(Card::SA, CLUBS);
    // The second caller has won the trick and leads.
    assert_eq!(observed.active_role(), BiddingRole::SecondCaller);
    assert_eq!(observed.number_of_done_tricks(), 1);
    assert!(!observed.current_trick().is_in_progress());
    observed.observe_play(Card::H7, CLUBS);
    assert_eq!(observed.current_trick().first(), Some(Card::H7));

    // The second caller is the declarer.
    let state = observed.to_open_game_state(deal, BiddingRole::SecondCaller, CLUBS);
    assert_eq!(state.yield_so_far, YieldSoFar::new(CardPoints(3 + 21), 1));
    assert_eq!(state.matadors, Some(3));
    assert!(state.open_situation.is_well_formed());
    assert_eq!(state.open_situation.active_role(), Role::FirstDefender);
    assert_eq!(state.open_situation.cellar().len(), 5);
    assert_eq!(state.open_situation.maybe_first_trick_card(), Some(Card::H7));

    // The cards cannot have been played from a deal in which the hands are swapped.
    let swapped = Deal::new(
        *deal.hand(BiddingRole::FirstCaller),
        *deal.hand(BiddingRole::FirstReceiver),
        *deal.hand(BiddingRole::SecondCaller),
        deal.skat(),
    );
    assert!(observed.try_to_open_game_state(swapped, BiddingRole::SecondCaller, CLUBS).is_none());
    assert!(observed.try_to_open_game_state(deal, BiddingRole::SecondCaller, CLUBS).is_some());
}

#[test]
fn a_possible_world_is_analyzed_for_each_card() {
    let deal = Deck::unshuffled().deal();
    let hand = *deal.hand(BiddingRole::SecondCaller);
    let announcement = Announcement::new(CLUBS, true, false, false, false).expect("hand");
    let contract = Contract::new(36, announcement);
    assert!(ObservedInitialGameState::check_valid(
        hand,
        None,
        None,
        BiddingRole::SecondCaller,
        BiddingRole::SecondCaller,
        contract
    ));
    let initial = ObservedInitialGameState::new(
        hand,
        None,
        None,
        CLUBS,
        BiddingRole::SecondCaller,
        BiddingRole::SecondCaller,
        contract,
    );
    let mut observed = ObservedPlayedCards::initial();
    assert!(!is_decision_of_observer(&initial, &observed));
    observed.observe_play(Card::S7, CLUBS);
    observed.observe_play(Card::SZ, CLUBS);
    assert!(is_decision_of_observer(&initial, &observed));

    let world = analyze_possible_world(&initial, &observed, deal).expect("the deal fits");
    assert_eq!(world.matadors, Some(3));
    // The declarer has to follow with his only diamond.
    assert_eq!(world.plays.cards(), Cards::just(Card::SA));
    assert_eq!(world.plays.len(), 1);
    let (card, total) = *world.plays.entry(0);
    assert_eq!(card, Card::SA);
    assert!(total.card_points().0 >= 3 + 21);
    assert_eq!(world.plays.get(Card::SA), Some(&total));
    assert_eq!(world.plays.get(Card::S7), None);
    assert_eq!(world.plays.map_to_card().entry(0), &(Card::SA, Card::SA));

    let broken = Deal::new(hand, hand, hand, deal.skat());
    assert!(analyze_possible_world(&initial, &observed, broken).is_none());
}

#[test]
fn few_deals_are_enumerated_and_many_are_sampled() {
    let (hand, skat) = hand_with_five_open_trumps();
    let initial = declarer_state(hand, skat);
    let knowledge = CardKnowledge::from_observation(&initial, &ObservedPlayedCards::initial());
    let dist = UniformPossibleDealsFromObservedGameplay::new(&knowledge, CLUBS);
    let mut rng = cheap_rng(11);

    // 184756 deals are more than 10000 and more than the sample: a sample is drawn.
    let sample = sampled_deals(&dist, 50, &mut rng);
    assert_eq!(sample.len(), 50);
    for deal in &sample {
        assert!(deal.is_whole());
        assert_eq!(*deal.hand(BiddingRole::FirstReceiver), hand);
        assert_eq!(deal.skat(), skat);
    }
    assert!(sample.iter().any(|deal| *deal != sample[0]));

    // With a sample that is as large as the number of deals, all are listed.
    let all = sampled_deals(&dist, 184_756, &mut rng);
    assert_eq!(all.len(), 184_756);
    assert!(all.iter().take(1000).all(|deal| deal.is_whole()));
    assert_eq!(dist.get_all_possibilities().len(), 184_756);
    assert!(dist.sample(&mut rng).is_whole());
}

#[test]
fn ways_to_give_out_the_cards_type_by_type() {
    let holder = UnknownCards {
        number: 2,
        hearts_possible: true,
        spades_possible: false,
        diamonds_possible: true,
        clubs_possible: true,
        trump_possible: true,
    };
    let open = ColorDistribution { hearts: 1, spades: 5, diamonds: 2, clubs: 0, trump: 1 };
    let ways = partially_distribute(&holder, &open);
    let distributed: Vec<(u8, u8, u8, u8, u8)> = ways
        .iter()
        .map(|way| {
            let d = way.distributed;
            (d.hearts, d.diamonds, d.clubs, d.spades, d.trump)
        })
        .collect();
    assert_eq!(
        distributed,
        vec![(0, 1, 0, 0, 1), (0, 2, 0, 0, 0), (1, 0, 0, 0, 1), (1, 1, 0, 0, 0)]
    );
    for way in &ways {
        assert_eq!(way.still_open.len() + way.distributed.len(), open.len());
    }
    assert_eq!(ColorDistribution::initial(CLUBS), ColorDistribution::new(Cards::all(), CLUBS));
    assert_eq!(ColorDistribution::initial(GameType::Null).len(), 32);
    assert!(ColorDistribution::empty().is_empty());
    assert_eq!(open.without(3, CardType::Suit(Suit::Spades)).spades, 2);
    let mut changed = open;
    *changed.get_mut(CardType::Trump) = 7;
    changed.add_assign(ColorDistribution { hearts: 1, spades: 0, diamonds: 0, clubs: 0, trump: 1 });
    assert_eq!(changed, ColorDistribution { hearts: 2, spades: 5, diamonds: 2, clubs: 0, trump: 8 });
    let mut unknown = holder;
    unknown.remove(1);
    unknown.retrict(CardType::Trump);
    assert_eq!((unknown.number, unknown.trump_possible, unknown.is_empty()), (1, false, false));
}

#[test]
fn cards_are_taken_by_their_places_and_dealt_in_order() {
    let mut list = vec![Card::H7, Card::H8, Card::H9, Card::HO];
    let removed = remove_by_index(&mut list, &vec![0, 2]);
    assert_eq!(removed, Cards::from(&[Card::H7, Card::H9]));
    assert_eq!(list, vec![Card::H8, Card::HO]);

    let open = Cards::from(&[Card::H7, Card::H8, Card::G7, Card::SK, Card::EA, Card::EU]);
    let mut open_cards = OpenCards::ordered(open, CLUBS);
    assert_eq!(open_cards.hearts, vec![Card::H7, Card::H8]);
    assert_eq!(open_cards.trump, vec![Card::EA, Card::EU]);
    assert!(!open_cards.is_empty());
    let mut distributions = ColorDistributions::new();
    distributions.push(ColorDistribution { hearts: 1, spades: 0, diamonds: 0, clubs: 0, trump: 1 });
    distributions.push(ColorDistribution { hearts: 1, spades: 1, diamonds: 0, clubs: 0, trump: 0 });
    distributions.push(ColorDistribution { hearts: 0, spades: 0, diamonds: 1, clubs: 0, trump: 0 });
    distributions.push(ColorDistribution { hearts: 0, spades: 0, diamonds: 0, clubs: 0, trump: 1 });
    assert_eq!(distributions.len(), 4);
    assert_eq!(distributions.get(2).diamonds, 1);
    // Two trumps for two holders, two hearts for two holders.
    assert_eq!(distributions.number_of_possibilities(), 4);
    let all = distributions.get_all_possibilities(&open_cards);
    assert_eq!(all.len(), 4);
    for parts in &all {
        assert_eq!(parts.len(), 4);
        assert_eq!(parts[0].or(parts[1]).or(parts[2]).or(parts[3]), open);
        assert_eq!(parts[0].len() + parts[1].len() + parts[2].len() + parts[3].len(), 6);
    }
    let chosen = choose_in_order(&mut open_cards, &distributions);
    assert_eq!(chosen[0], Cards::from(&[Card::H8, Card::EU]));
    assert_eq!(chosen[1], Cards::from(&[Card::H7, Card::G7]));
    assert_eq!(chosen[2], Cards::from(&[Card::SK]));
    assert_eq!(chosen[3], Cards::from(&[Card::EA]));
    assert!(open_cards.is_empty());

    let mut shuffled = OpenCards::ordered(Cards::all(), GameType::Null);
    shuffled.shuffle(&mut cheap_rng(5));
    assert_eq!(Cards::from_slice(&shuffled.hearts), Cards::of_suit(Suit::Hearts));
    assert_ne!(shuffled.hearts, Cards::of_suit(Suit::Hearts).to_vec());
}

#[test]
fn descriptions_of_games() {
    let (hand, skat) = hand_with_five_open_trumps();
    let game_mode = AnnouncementDto {
        bidding_winner: BiddingRole::FirstReceiver,
        game_type: CLUBS,
        hand: false,
        schneider: false,
        schwarz: false,
        ouvert: false,
    };
    let dto = Dto {
        position: BiddingRole::FirstReceiver,
        hand,
        skat,
        game_mode,
        bidding_value: 24,
        played_cards: vec![vec![Card::EU, Card::HU, Card::SU], vec![Card::EA]],
    };
    assert_eq!(game_mode.game_type(), CLUBS);
    assert_eq!(game_mode.bidding_winner(), BiddingRole::FirstReceiver);
    let announcement = game_mode.announcement().expect("clubs");
    assert!(dto.check_fits(announcement));
    let initial = dto.pre_game_observations().ok().expect("a valid game");
    assert_eq!(initial.contract(), Contract::new(24, announcement));
    assert_eq!(dto.played_cards(), vec![Card::EU, Card::HU, Card::SU, Card::EA]);

    // The declarer of a game that is not played from the hand knows the skat.
    let without_skat = Dto { skat: Cards::empty(), played_cards: Vec::new(), ..dto };
    assert!(!without_skat.check_fits(announcement));
    let one_card_skat = Dto { skat: Cards::just(Card::SZ), played_cards: Vec::new(), ..without_skat };
    assert!(!one_card_skat.check_fits(announcement));

    let invalid = Dto {
        game_mode: AnnouncementDto { schneider: true, ..game_mode },
        played_cards: Vec::new(),
        ..one_card_skat
    };
    assert_eq!(invalid.pre_game_observations().err(), Some(AnnouncementError::Invalid));

    let mode = GameMode { bidding_winner: BiddingRole::FirstCaller, game_type: GameType::Null };
    assert_eq!((mode.bidding_winner(), mode.game_type()), (BiddingRole::FirstCaller, GameType::Null));
}

#[test]
fn analyzed_plays_keep_their_order() {
    let mut plays: AnalyzedPossiblePlays<u8> = AnalyzedPossiblePlays::new();
    plays.add_new(Card::S7, 1);
    plays.add_new(Card::EU, 2);
    assert_eq!(plays.len(), 2);
    assert_eq!(plays.cards(), Cards::from(&[Card::S7, Card::EU]));
    assert_eq!(plays.get(Card::EU), Some(&2));
    assert_eq!(plays.entry(0), &(Card::S7, 1));
    let position = OpenSituation::leaf(Role::Declarer);
    assert!(position.next_possible_plays(CLUBS).is_empty());
}

#[test]
fn deals_that_fit_leave_out_the_types_a_player_lacks() {
    let (hand, skat) = hand_with_five_open_trumps();
    let initial = declarer_state(hand, skat);
    let mut knowledge =
        CardKnowledge::from_observation(&initial, &ObservedPlayedCards::initial());
    // The first caller plays a heart to a trick of trumps: he has no trump.
    knowledge.learn_about_if_not_everything_of_that_player_already_known(
        Card::HK,
        BiddingRole::FirstCaller,
        CardType::Trump,
        CLUBS,
    );
    assert!(knowledge.check_consistent());
    let dist = UniformPossibleDealsFromObservedGameplay::new(&knowledge, CLUBS);
    // The five open trumps go to the second caller; the first caller gets
    // nine of the fourteen other open cards.
    assert_eq!(dist.number_of_possibilities(), 2002);

    let trumps = Cards::of_card_type(CardType::Trump, CLUBS);
    let open_trumps = trumps.without(hand).without(skat);
    assert_eq!(open_trumps.len(), 5);
    let mut rng = cheap_rng(5);
    let all = sampled_deals(&dist, 100, &mut rng);
    assert_eq!(all.len(), 2002);
    for deal in &all {
        assert!(deal.is_whole());
        assert_eq!(*deal.hand(BiddingRole::FirstReceiver), hand);
        assert_eq!(deal.skat(), skat);
        assert!(deal.hand(BiddingRole::FirstCaller).contains(Card::HK));
        assert!(!deal.hand(BiddingRole::FirstCaller).overlaps(trumps));
        assert_eq!(deal.hand(BiddingRole::SecondCaller).and(trumps), open_trumps);
    }
    let mut seen = all.clone();
    seen.sort_by_key(|deal| deal.hand(BiddingRole::FirstCaller).detail_to_bits());
    seen.dedup();
    assert_eq!(seen.len(), 2002);

    for _ in 0..50 {
        let deal = dist.sample(&mut rng);
        assert!(deal.is_whole());
        assert_eq!(*deal.hand(BiddingRole::FirstReceiver), hand);
        assert_eq!(deal.skat(), skat);
        assert!(deal.hand(BiddingRole::FirstCaller).contains(Card::HK));
        assert!(!deal.hand(BiddingRole::FirstCaller).overlaps(trumps));
        assert_eq!(deal.hand(BiddingRole::SecondCaller).and(trumps), open_trumps);
    }
}

#[test]
fn the_deals_are_counted_through_way_by_way() {
    let (hand, skat) = hand_with_five_open_trumps();
    let initial = declarer_state(hand, skat);
    let mut knowledge =
        CardKnowledge::from_observation(&initial, &ObservedPlayedCards::initial());
    knowledge.learn_about_if_not_everything_of_that_player_already_known(
        Card::HK,
        BiddingRole::FirstCaller,
        CardType::Trump,
        CLUBS,
    );
    let dist = UniformPossibleDealsFromObservedGameplay::new(&knowledge, CLUBS);
    let deals = dist.number_of_possibilities();
    assert_eq!(deals, 2002);

    let mut ways = 0;
    let mut id = 0;
    while id < deals {
        let way = dist.color_distributions_at(id);
        let of_this_way = way.number_of_possibilities();
        assert!(of_this_way > 0);
        for same in id..id + of_this_way {
            assert!(std::ptr::eq(dist.color_distributions_at(same), way));
        }
        if id + of_this_way < deals {
            assert!(!std::ptr::eq(dist.color_distributions_at(id + of_this_way), way));
        }
        id += of_this_way;
        ways += 1;
    }
    assert_eq!(id, deals);
    assert_eq!(ways, dist.number_of_color_distributions());
}

#[test]
fn analyzed_plays_are_mapped_and_compared() {
    let mut plays: AnalyzedPossiblePlays<u8> = AnalyzedPossiblePlays::new();
    assert!(plays.are_all(&7));
    plays.add_new(Card::S7, 3);
    plays.add_new(Card::EU, 3);
    assert!(plays.are_all(&3));
    assert!(!plays.are_all(&4));

    let doubled = plays.map(|value| u16::from(*value) * 2);
    assert_eq!(doubled.len(), 2);
    assert_eq!(doubled.entry(0), &(Card::S7, 6));
    assert_eq!(doubled.entry(1), &(Card::EU, 6));
    assert!(doubled.are_all(&6));

    plays.add_new(Card::HA, 5);
    assert!(!plays.are_all(&3));
    let won = plays.map(|value| *value > 3);
    assert_eq!(won.get(Card::HA), Some(&true));
    assert_eq!(won.get(Card::S7), Some(&false));
    assert_eq!(won.cards(), plays.cards());
}
