use muskat::bidding_role::BiddingRole;
use muskat::bounds::Bounds;
use muskat::card::{Card, CardType, Rank, Suit};
use muskat::card_points::CardPoints;
use muskat::cards::Cards;
use muskat::deal::Deal;
use muskat::deck::Deck;
use muskat::game_type::GameType;
use muskat::minimax_role::MinimaxRole;
use muskat::monte_carlo::{
    value_due_to_overbid, Announcement, AnnouncementError, AnnouncementImpl, Contract,
    GameConclusion, GameResult, TrumpGameLevel,
};
use muskat::partial_trick::PartialTrick;
use muskat::position::Position;
use muskat::power::CardPower;
use muskat::rng::cheap_rng;
use muskat::role::Role;
use muskat::situation::OpenSituation;
use muskat::trick::Trick;
use muskat::trick_yield::{TrickYield, YieldSoFar};
use muskat::util::{all_choices, number_of_choices};

const HEARTS: GameType = GameType::Trump(CardType::Suit(Suit::Hearts));
const GRAND: GameType = GameType::Trump(CardType::Trump);

fn all_cards() -> Vec<Card> {
    (0..32u8).map(Card::from_index).collect()
}

#[test]
fn the_deck_has_120_points() {
    assert_eq!(Cards::all().len(), 32);
    assert_eq!(Cards::all().to_points(), CardPoints(120));
    assert_eq!(Cards::empty().to_points(), CardPoints(0));
    assert_eq!(Cards::of_zero_points().to_points(), CardPoints(0));
    assert_eq!(Cards::of_zero_points().len(), 12);
    let points: u32 = all_cards().iter().map(|card| card.to_points().0 as u32).sum();
    assert_eq!(points, 120);
    assert_eq!(Rank::Z.to_points(), CardPoints(10));
    assert_eq!(Rank::U.to_points(), CardPoints(2));
    assert_eq!(Rank::O.to_points(), CardPoints(3));
    assert_eq!(Rank::K.to_points(), CardPoints(4));
    assert_eq!(Rank::A.to_points(), CardPoints(11));
    assert_eq!(Rank::L9.to_points(), CardPoints(0));
}

#[test]
fn cards_know_their_suits_and_ranks() {
    for card in all_cards() {
        assert_eq!(Card::of(card.rank(), card.suit()), card);
        assert_eq!(Card::from_index(card.to_u8()), card);
        assert!(Cards::of_suit(card.suit()).contains(card));
        assert!(Cards::of_rank(card.rank()).contains(card));
        assert!(Cards::just(card).contains(card));
        assert_eq!(Cards::just(card).len(), 1);
    }
    for suit in [Suit::Diamonds, Suit::Hearts, Suit::Spades, Suit::Clubs] {
        assert_eq!(Cards::of_suit(suit).len(), 8);
        assert_eq!(Cards::of_suit(suit).to_points(), CardPoints(30));
    }
    assert_eq!(Cards::of_rank(Rank::U).len(), 4);
    assert_eq!(Card::HZ.suit(), Suit::Hearts);
    assert_eq!(Card::HZ.rank(), Rank::Z);
    assert_eq!(Card::SU.suit(), Suit::Diamonds);
}

#[test]
fn trumps_of_the_games() {
    assert!(Cards::of_trump(GameType::Null).is_empty());
    assert_eq!(Cards::of_trump(GRAND), Cards::of_rank(Rank::U));
    assert_eq!(Cards::of_trump(HEARTS).len(), 11);
    assert_eq!(Card::HA.card_type(HEARTS), CardType::Trump);
    assert_eq!(Card::SU.card_type(HEARTS), CardType::Trump);
    assert_eq!(Card::SA.card_type(HEARTS), CardType::Suit(Suit::Diamonds));
    assert_eq!(Card::HA.card_type(GRAND), CardType::Suit(Suit::Hearts));
    assert_eq!(Card::HU.card_type(GameType::Null), CardType::Suit(Suit::Hearts));
    assert!(Cards::of_card_type(CardType::Suit(Suit::Hearts), HEARTS).is_empty());
    assert_eq!(Cards::of_card_type(CardType::Suit(Suit::Spades), HEARTS).len(), 7);
    assert_eq!(Cards::of_card_type(CardType::Suit(Suit::Spades), GameType::Null).len(), 8);
    assert_eq!(CardType::Trump.base_value(), 24);
    assert_eq!(CardType::Suit(Suit::Clubs).base_value(), 12);
    assert_eq!(CardType::Suit(Suit::Spades).base_value(), 11);
    assert_eq!(CardType::Suit(Suit::Hearts).base_value(), 10);
    assert_eq!(CardType::Suit(Suit::Diamonds).base_value(), 9);
}

#[test]
fn set_operations() {
    let a = Cards::from(&[Card::S7, Card::HA, Card::EU]);
    let b = Cards::from(&[Card::HA, Card::G9]);
    assert_eq!(a.or(b), Cards::from(&[Card::S7, Card::HA, Card::EU, Card::G9]));
    assert_eq!(a.and(b), Cards::from(&[Card::HA]));
    assert_eq!(a.without(b), Cards::from(&[Card::S7, Card::EU]));
    assert!(a.overlaps(b));
    assert!(!a.without(b).overlaps(b));
    assert_eq!(a.len(), 3);
    assert_eq!(a.to_vec(), vec![Card::S7, Card::HA, Card::EU]);
    assert_eq!(a.highest_non_null(), Some(Card::EU));
    assert_eq!(Cards::empty().highest_non_null(), None);
    assert_eq!(Cards::from_bits(a.detail_to_bits()), a);
    assert!(Cards::just(Card::S7).smaller(Cards::just(Card::S8)));
    assert!(Cards::empty().smaller(Cards::just(Card::S7)));

    let mut c = a;
    assert_eq!(c.remove_smallest(), Some(Card::S7));
    assert_eq!(c.remove_highest_non_null(), Some(Card::EU));
    assert!(c.remove_if_there(Card::HA));
    assert!(!c.remove_if_there(Card::HA));
    assert!(c.is_empty());
    assert_eq!(c.remove_smallest(), None);

    let mut d = a.or(b);
    assert_eq!(d.remove_lowest_of_cards(b), Some(Card::HA));
    assert_eq!(d.remove_highest_of_cards(b), Some(Card::G9));
    assert_eq!(d.remove_highest_of_cards(b), None);
    assert_eq!(d.remove_lowest_of_type(CardType::Trump, HEARTS), Some(Card::EU));
    d.add_new(Card::SZ);
    assert_eq!(d, Cards::from(&[Card::S7, Card::SZ]));
    d.remove_existing(Card::S7);
    assert_eq!(d.combined_with_disjoint(a), Cards::from(&[Card::SZ, Card::S7, Card::HA, Card::EU]));
}

#[test]
fn cheapest_and_dearest_cards() {
    let mut cards = Cards::from(&[Card::SA, Card::H9, Card::G8, Card::EU, Card::SO]);
    assert_eq!(cards.highest_value(), Card::SA);
    assert_eq!(cards.remove_lowest_value(), Card::G8);
    assert_eq!(cards.remove_lowest_value(), Card::H9);
    assert_eq!(cards.remove_lowest_value(), Card::EU);
    assert_eq!(cards.remove_lowest_value(), Card::SO);
    assert_eq!(cards.remove_lowest_value(), Card::SA);
    assert!(cards.is_empty());
    // Of two tens the lower is taken.
    assert_eq!(Cards::from(&[Card::HZ, Card::SZ, Card::EK]).highest_value(), Card::SZ);
}

#[test]
fn legal_plays_follow_the_lead() {
    let hand = Cards::from(&[Card::S7, Card::SA, Card::HU, Card::G9]);
    assert_eq!(hand.possible_plays(None, HEARTS), hand);
    assert_eq!(
        hand.possible_plays(Some(Card::SK), HEARTS),
        Cards::from(&[Card::S7, Card::SA])
    );
    assert_eq!(
        hand.possible_plays(Some(Card::H7), HEARTS),
        Cards::from(&[Card::HU])
    );
    // No club in the hand: anything goes.
    assert_eq!(hand.possible_plays(Some(Card::EA), HEARTS), hand);
    // In a Null game the U is a heart.
    assert_eq!(
        hand.possible_plays(Some(Card::H7), GameType::Null),
        Cards::from(&[Card::HU])
    );
    assert_eq!(Cards::empty().possible_plays(Some(Card::H7), HEARTS), Cards::empty());
}

#[test]
fn powers_and_trick_winners() {
    let hearts = CardType::Suit(Suit::Hearts);
    assert!(CardPower::of(Card::SZ, CardType::Trump, HEARTS).comes_from_deactivated_card());
    assert!(CardPower::of(Card::H7, CardType::Trump, HEARTS) > CardPower::of(Card::SA, CardType::Suit(Suit::Diamonds), HEARTS));
    assert!(CardPower::of(Card::EU, CardType::Trump, GRAND) > CardPower::of(Card::GU, CardType::Trump, GRAND));
    assert!(CardPower::of(Card::SU, CardType::Trump, HEARTS) > CardPower::of(Card::HA, CardType::Trump, HEARTS));
    assert!(CardPower::of(Card::HZ, hearts, GRAND) > CardPower::of(Card::HK, hearts, GRAND));
    assert!(CardPower::of(Card::HZ, hearts, GameType::Null) < CardPower::of(Card::HU, hearts, GameType::Null));
    assert!(CardPower::of(Card::HU, hearts, GameType::Null) < CardPower::of(Card::HO, hearts, GameType::Null));

    assert_eq!(Trick::new(Card::S7, Card::SA, Card::SK).winner_position(HEARTS), Position::Middlehand);
    assert_eq!(Trick::new(Card::S7, Card::SA, Card::H7).winner_position(HEARTS), Position::Rearhand);
    assert_eq!(Trick::new(Card::S7, Card::EA, Card::GA).winner_position(HEARTS), Position::Forehand);
    assert_eq!(Trick::new(Card::S7, Card::SU, Card::EU).winner_position(GRAND), Position::Rearhand);
    assert_eq!(Trick::new(Card::SZ, Card::SU, Card::SK).winner_position(GameType::Null), Position::Rearhand);
    assert_eq!(Trick::new(Card::SZ, Card::SU, Card::S9).winner_position(GameType::Null), Position::Middlehand);
    let trick = Trick::new(Card::SA, Card::SZ, Card::SK);
    assert_eq!(trick.to_points(), CardPoints(25));
    assert_eq!(trick.cards(), Cards::from(&[Card::SA, Card::SZ, Card::SK]));
    assert_eq!(trick.trick_type(HEARTS), CardType::Suit(Suit::Diamonds));
    assert_eq!((trick.first(), trick.second(), trick.third()), (Card::SA, Card::SZ, Card::SK));
    assert_eq!(TrickYield::from_trick(trick), TrickYield::new(CardPoints(25), 1));
}

#[test]
fn roles_and_seats() {
    assert_eq!(Role::Declarer.next(), Role::FirstDefender);
    assert_eq!(Role::SecondDefender.next(), Role::Declarer);
    assert_eq!(Role::FirstDefender.other_defender(), Role::SecondDefender);
    assert_eq!(BiddingRole::SecondCaller.next(), BiddingRole::FirstReceiver);
    for winner in [BiddingRole::FirstReceiver, BiddingRole::FirstCaller, BiddingRole::SecondCaller] {
        assert_eq!(winner.to_role(winner), Role::Declarer);
        assert_eq!(winner.next().to_role(winner), Role::FirstDefender);
        assert_eq!(winner.next().next().to_role(winner), Role::SecondDefender);
        assert_eq!(BiddingRole::FirstReceiver.to_role(winner), Role::first_active(winner));
    }
    assert_eq!(Position::Rearhand.role(BiddingRole::FirstCaller), BiddingRole::FirstReceiver);
    assert_eq!(MinimaxRole::of(Role::Declarer, HEARTS), MinimaxRole::Max);
    assert_eq!(MinimaxRole::of(Role::Declarer, GameType::Null), MinimaxRole::Min);
    assert_eq!(MinimaxRole::of(Role::FirstDefender, GameType::Null), MinimaxRole::Max);
    assert_eq!(MinimaxRole::of(Role::SecondDefender, GRAND), MinimaxRole::Min);
    assert_eq!(TrickYield::worst(MinimaxRole::Min), TrickYield::max_yield());
    assert_eq!(TrickYield::worst(MinimaxRole::Max), TrickYield::zero_tricks());
}

#[test]
fn yields_are_ordered_by_points_first() {
    let a = TrickYield::new(CardPoints(28), 2);
    let b = TrickYield::new(CardPoints(24), 3);
    assert!(b.lt(a));
    assert!(b.le(a));
    assert!(!a.le(b));
    assert!(a.le(a));
    assert!(!a.lt(a));
    assert_eq!(a.min(b), b);
    assert_eq!(a.max(b), a);
    assert!(TrickYield::new(CardPoints(24), 2).lt(b));
    assert!(b < a);
}

#[test]
fn yield_arithmetic_saturates() {
    let max = TrickYield::max_yield();
    assert_eq!(max, TrickYield::new(CardPoints(120), 10));
    assert_eq!(max.saturating_sub(max), TrickYield::zero_tricks());
    assert_eq!(max.saturating_sub(TrickYield::new(CardPoints(200), 12)), TrickYield::zero_tricks());
    assert_eq!(max.saturating_sub(TrickYield::new(CardPoints(20), 12)), TrickYield::new(CardPoints(100), 0));
    assert_eq!(
        YieldSoFar::max_yield().saturating_sub(YieldSoFar::new(CardPoints(15), 0)),
        TrickYield::new(CardPoints(105), 10)
    );
    assert_eq!(YieldSoFar::new(CardPoints(10), 1).saturating_sub(YieldSoFar::max_yield()), TrickYield::zero_tricks());
    let mut sum = TrickYield::new(CardPoints(250), 1);
    sum.add_assign(TrickYield::new(CardPoints(10), 1));
    assert_eq!(sum, TrickYield::new(CardPoints(255), 2));
    assert_eq!(TrickYield::new(CardPoints(5), 3).sub(CardPoints(7)), TrickYield::new(CardPoints(0), 3));
    assert_eq!(TrickYield::new(CardPoints(5), 3).add(CardPoints(7)), TrickYield::new(CardPoints(12), 3));
    assert_eq!(TrickYield::new(CardPoints(250), 3).add(CardPoints(7)), TrickYield::new(CardPoints(255), 3));
    let mut so_far = YieldSoFar::new(CardPoints(15), 0);
    so_far.add_assign(TrickYield::new(CardPoints(25), 1));
    assert_eq!(so_far, YieldSoFar::new(CardPoints(40), 1));
    assert_eq!(YieldSoFar::new(CardPoints(15), 0).add(TrickYield::new(CardPoints(25), 1)), so_far);
    assert_eq!((so_far.card_points(), so_far.number_of_tricks()), (CardPoints(40), 1));
}

#[test]
fn bounds_decide_and_measure_their_distance() {
    let bounds = Bounds::new(TrickYield::new(CardPoints(30), 2), TrickYield::new(CardPoints(50), 4));
    assert_eq!((bounds.lower(), bounds.upper()), (TrickYield::new(CardPoints(30), 2), TrickYield::new(CardPoints(50), 4)));
    assert!(bounds.decides_threshold(TrickYield::new(CardPoints(30), 2)));
    assert!(bounds.decides_threshold(TrickYield::new(CardPoints(20), 9)));
    assert!(!bounds.decides_threshold(TrickYield::new(CardPoints(30), 3)));
    assert!(!bounds.decides_threshold(TrickYield::new(CardPoints(50), 4)));
    assert!(bounds.decides_threshold(TrickYield::new(CardPoints(50), 5)));
    assert!(bounds.decides_threshold(TrickYield::new(CardPoints(51), 0)));

    // Below the threshold: the upper bound can rise to one point below it.
    assert_eq!(bounds.distance_to_threshold(TrickYield::new(CardPoints(61), 1)), CardPoints(10));
    // With fewer tricks than the threshold asks for it can even reach its points.
    assert_eq!(bounds.distance_to_threshold(TrickYield::new(CardPoints(61), 5)), CardPoints(11));
    // At least the threshold: the lower bound can fall to its points if its tricks are enough.
    assert_eq!(bounds.distance_to_threshold(TrickYield::new(CardPoints(25), 1)), CardPoints(5));
    // With too few tricks it has to stay above the threshold's points.
    assert_eq!(bounds.distance_to_threshold(TrickYield::new(CardPoints(25), 5)), CardPoints(4));
    // Not decided: no distance.
    assert_eq!(bounds.distance_to_threshold(TrickYield::new(CardPoints(40), 1)), CardPoints(0));
    for threshold in [TrickYield::new(CardPoints(61), 1), TrickYield::new(CardPoints(61), 5), TrickYield::new(CardPoints(25), 1), TrickYield::new(CardPoints(25), 5)] {
        let distance = bounds.distance_to_threshold(threshold);
        let widened = Bounds::new(bounds.lower().sub(distance), bounds.upper().add(distance));
        assert!(widened.decides_threshold(threshold));
        let wider = Bounds::new(bounds.lower().sub(CardPoints(distance.0 + 1)), bounds.upper().add(CardPoints(distance.0 + 1)));
        assert!(!wider.decides_threshold(threshold));
    }

    let mut changed = bounds;
    changed.minimize_upper(TrickYield::new(CardPoints(60), 1));
    assert_eq!(changed, bounds);
    changed.minimize_upper(TrickYield::new(CardPoints(40), 1));
    changed.maximize_lower(TrickYield::new(CardPoints(10), 1));
    changed.maximize_lower(TrickYield::new(CardPoints(35), 1));
    assert_eq!(changed, Bounds::new(TrickYield::new(CardPoints(35), 1), TrickYield::new(CardPoints(40), 1)));
    changed.update_lower(TrickYield::new(CardPoints(36), 1));
    changed.update_upper(TrickYield::new(CardPoints(39), 1));
    assert_eq!(changed, Bounds::new(TrickYield::new(CardPoints(36), 1), TrickYield::new(CardPoints(39), 1)));
}

#[test]
fn the_table_fills_and_clears() {
    let mut table = PartialTrick::empty();
    assert!(!table.is_in_progress());
    assert_eq!((table.first(), table.second(), table.number_of_cards()), (None, None, 0));
    assert!(table.add(Card::S7).is_none());
    assert!(table.is_in_progress());
    assert_eq!((table.first(), table.second(), table.number_of_cards()), (Some(Card::S7), None, 1));
    assert!(table.add(Card::S8).is_none());
    assert_eq!((table.first(), table.second(), table.number_of_cards()), (Some(Card::S7), Some(Card::S8), 2));
    assert_eq!(table.cards(), Cards::from(&[Card::S7, Card::S8]));
    assert!(table.contains(Card::S8));
    let trick = table.add(Card::S9).expect("third card");
    assert_eq!((trick.first(), trick.second(), trick.third()), (Card::S7, Card::S8, Card::S9));
    assert_eq!(table, PartialTrick::empty());
}

fn sorted_deal() -> Deal {
    Deck::unshuffled().deal()
}

#[test]
fn dealing_gives_three_two_four_three() {
    let deal = sorted_deal();
    assert!(deal.is_whole());
    assert_eq!(deal.cards(), Cards::all());
    let receiver: Vec<u8> = deal.hand(BiddingRole::FirstReceiver).to_vec().iter().map(|c| c.to_u8()).collect();
    assert_eq!(receiver, vec![0, 1, 2, 11, 12, 13, 14, 23, 24, 25]);
    let caller: Vec<u8> = deal.hand(BiddingRole::FirstCaller).to_vec().iter().map(|c| c.to_u8()).collect();
    assert_eq!(caller, vec![3, 4, 5, 15, 16, 17, 18, 26, 27, 28]);
    let second: Vec<u8> = deal.hand(BiddingRole::SecondCaller).to_vec().iter().map(|c| c.to_u8()).collect();
    assert_eq!(second, vec![6, 7, 8, 19, 20, 21, 22, 29, 30, 31]);
    assert_eq!(deal.skat(), Cards::from(&[Card::H9, Card::HO]));
    assert_eq!(deal.initial_yield(), YieldSoFar::new(CardPoints(3), 0));
    assert!(!Deal::new(Cards::empty(), Cards::empty(), Cards::empty(), Cards::all()).is_whole());
}

#[test]
fn shuffling_keeps_the_cards_and_changes_the_order() {
    let mut rng = cheap_rng(7);
    let deck = Deck::shuffled(&mut rng);
    let mut seen = Cards::empty();
    let mut moved = 0;
    for place in 0..32 {
        let card = deck.card(place);
        assert!(!seen.contains(card));
        seen.add_new(card);
        if card.to_u8() as usize != place {
            moved += 1;
        }
    }
    assert_eq!(seen, Cards::all());
    assert!(moved > 16);
    // The same seed gives the same deck, another seed another one.
    let again = Deck::shuffled(&mut cheap_rng(7));
    let other = Deck::shuffled(&mut cheap_rng(8));
    assert!((0..32).all(|place| again.card(place) == deck.card(place)));
    assert!((0..32).any(|place| other.card(place) != deck.card(place)));
    assert!(Deck::from_cards(all_cards()).is_some());
    assert!(Deck::from_cards(vec![Card::S7; 32]).is_none());
    assert!(Deck::from_cards(vec![Card::S7]).is_none());
}

#[test]
fn matadors_with_and_without() {
    let deal = sorted_deal();
    // The second caller holds the three highest Us, and the first caller the fourth.
    assert_eq!(deal.matadors(BiddingRole::SecondCaller, GRAND), Some(3));
    assert_eq!(deal.matadors(BiddingRole::SecondCaller, GameType::Trump(CardType::Suit(Suit::Clubs))), Some(3));
    assert_eq!(deal.matadors(BiddingRole::SecondCaller, HEARTS), Some(3));
    // With all Us and the ace and ten of clubs, but not the king: with six.
    let strong = Deal::new(
        Cards::from(&[Card::EU, Card::GU, Card::HU, Card::SU, Card::EA, Card::EZ, Card::E9, Card::E8, Card::S7, Card::S8]),
        Cards::empty(),
        Cards::empty(),
        Cards::from(&[Card::E7, Card::S9]),
    );
    assert_eq!(strong.matadors(BiddingRole::FirstReceiver, GameType::Trump(CardType::Suit(Suit::Clubs))), Some(6));
    assert_eq!(strong.matadors(BiddingRole::FirstReceiver, GRAND), Some(4));
    // The others have the seven of clubs in the skat only: without ten.
    assert_eq!(strong.matadors(BiddingRole::FirstCaller, GameType::Trump(CardType::Suit(Suit::Clubs))), Some(10));
    // The first caller holds SU only, with H9 and HO in the skat: without three.
    assert_eq!(deal.matadors(BiddingRole::FirstCaller, GRAND), Some(3));
    assert_eq!(deal.matadors(BiddingRole::FirstReceiver, GRAND), Some(4));
    assert_eq!(deal.matadors(BiddingRole::FirstReceiver, GameType::Null), None);
}

#[test]
fn positions_at_the_start_and_at_the_end() {
    let deal = sorted_deal();
    let start = OpenSituation::initial(deal, BiddingRole::FirstCaller);
    assert!(start.is_well_formed());
    assert!(start.is_initial_situation());
    assert!(!start.is_trick_in_progress());
    assert_eq!(start.cellar(), deal.skat());
    assert_eq!(start.active_role(), Role::SecondDefender);
    assert_eq!(*start.hand_cards_of(Role::Declarer), *deal.hand(BiddingRole::FirstCaller));
    assert_eq!(*start.hand_cards_of(Role::FirstDefender), *deal.hand(BiddingRole::SecondCaller));
    assert_eq!(start.remaining_cards_in_hands(), Cards::all().without(deal.skat()));
    assert_eq!(start.yield_from_skat(), YieldSoFar::new(CardPoints(3), 0));
    assert_eq!(start.maybe_first_trick_card(), None);
    assert_eq!(start.active_minimax_role(HEARTS), MinimaxRole::Min);

    for role in [Role::Declarer, Role::FirstDefender, Role::SecondDefender] {
        let leaf = OpenSituation::leaf(role);
        assert!(leaf.is_well_formed());
        assert!(!leaf.is_initial_situation());
        assert_eq!(leaf.cellar(), Cards::all());
        assert!(leaf.next_possible_plays(HEARTS).is_empty());
        let bounds = leaf.quick_bounds(HEARTS);
        assert_eq!(bounds, Bounds::new(TrickYield::zero_tricks(), TrickYield::zero_tricks()));
    }
}

#[test]
fn playing_a_trick_moves_the_lead_to_the_winner() {
    let deal = sorted_deal();
    // The first receiver is the declarer and leads.
    let mut position = OpenSituation::initial(deal, BiddingRole::FirstReceiver);
    assert_eq!(position.active_role(), Role::Declarer);
    assert_eq!(position.quick_bounds(GRAND).upper(), TrickYield::new(CardPoints(117), 10));

    assert_eq!(position.play_card(Card::S7, GRAND), TrickYield::zero_tricks());
    assert!(position.is_trick_in_progress());
    assert_eq!(position.active_role(), Role::FirstDefender);
    assert_eq!(position.maybe_first_trick_card(), Some(Card::S7));
    // The first caller has to follow with a diamond.
    assert_eq!(
        position.next_possible_plays(GRAND),
        Cards::from(&[Card::SO, Card::SK, Card::SZ])
    );
    assert_eq!(position.play_card(Card::SZ, GRAND), TrickYield::zero_tricks());
    assert_eq!(position.next_possible_plays(GRAND), Cards::from(&[Card::SA]));
    assert_eq!(position.play_card(Card::SA, GRAND), TrickYield::zero_tricks());
    assert!(position.is_well_formed());
    assert!(!position.is_trick_in_progress());
    assert!(!position.is_initial_situation());
    assert_eq!(position.active_role(), Role::SecondDefender);
    assert_eq!(position.cellar().len(), 5);
    assert!(position.quick_bounds(GRAND).upper().number_of_tricks() <= 9);
    assert!(position.quick_bounds(GRAND).upper().card_points().0 <= 96);
    assert_eq!(position.quick_bounds(GameType::Null).upper(), TrickYield::new(CardPoints(96), 9));

    // The declarer wins a trick: he gets its points.
    let mut other = OpenSituation::initial(deal, BiddingRole::SecondCaller);
    assert_eq!(other.active_role(), Role::FirstDefender);
    assert_eq!(other.play_card(Card::S7, GRAND), TrickYield::zero_tricks());
    assert_eq!(other.play_card(Card::SZ, GRAND), TrickYield::zero_tricks());
    assert_eq!(other.play_card(Card::SA, GRAND), TrickYield::new(CardPoints(21), 1));
    assert_eq!(other.active_role(), Role::Declarer);
}

#[test]
fn quick_bounds_of_a_strong_grand() {
    let deal = sorted_deal();
    // The second caller holds the four Us: as declarer in front he is sure of four tricks.
    let position = OpenSituation::new(
        *deal.hand(BiddingRole::SecondCaller),
        *deal.hand(BiddingRole::FirstReceiver),
        *deal.hand(BiddingRole::FirstCaller),
        PartialTrick::empty(),
        Role::Declarer,
    );
    assert!(position.is_well_formed());
    let bounds = position.quick_bounds(GRAND);
    assert!(bounds.lower().number_of_tricks() >= 4);
    assert!(bounds.lower().card_points().0 >= 8);
    assert!(bounds.lower().le(bounds.upper()));
    assert_eq!(bounds.upper(), TrickYield::new(CardPoints(117), 10));
    assert_eq!(position.quick_bounds(GameType::Null).lower(), TrickYield::zero_tricks());
    assert_eq!(
        position.lower_bound_non_null_declarer_forehand(CardType::Trump),
        bounds.lower()
    );
}

#[test]
fn announcements() {
    let clubs = GameType::Trump(CardType::Suit(Suit::Clubs));
    assert_eq!(Announcement::new(GameType::Null, false, true, false, false), Err(AnnouncementError::Invalid));
    assert_eq!(Announcement::new(GameType::Null, true, false, true, true), Err(AnnouncementError::Invalid));
    assert_eq!(Announcement::new(clubs, false, true, false, false), Err(AnnouncementError::Invalid));
    assert_eq!(Announcement::new(clubs, true, false, true, false), Err(AnnouncementError::Invalid));
    assert_eq!(Announcement::new(clubs, false, false, false, true), Err(AnnouncementError::Invalid));
    assert_eq!(AnnouncementError::Invalid.message(), "invalid announcement");
    assert_eq!(
        Announcement::new(clubs, false, false, false, false),
        Ok(Announcement(AnnouncementImpl::Trump { trump: CardType::Suit(Suit::Clubs), level: TrumpGameLevel::Normal }))
    );
    assert_eq!(
        Announcement::new(clubs, true, true, true, true),
        Ok(Announcement(AnnouncementImpl::Trump { trump: CardType::Suit(Suit::Clubs), level: TrumpGameLevel::Ouvert }))
    );
    let null_values = [(false, false, 23), (true, false, 35), (false, true, 46), (true, true, 59)];
    for (hand, ouvert, value) in null_values {
        let announcement = Announcement::new(GameType::Null, hand, false, false, ouvert).expect("a null game");
        assert_eq!(announcement.value(&GameConclusion::DeclarerIsSchwarz, None), value);
        assert_eq!(announcement.game_type(), GameType::Null);
        assert_eq!((announcement.hand(), announcement.ouvert()), (hand, ouvert));
        assert!(announcement.is_won(&GameConclusion::DeclarerIsSchwarz));
        assert!(!announcement.is_won(&GameConclusion::DeclarerIsSchneider));
    }
}

#[test]
fn values_of_trump_games() {
    let grand = Announcement::new(GRAND, false, false, false, false).expect("a grand");
    // With one, game two, times 24.
    assert_eq!(grand.value(&GameConclusion::DefendersAreDominated, Some(1)), 48);
    // Schneider adds one, schwarz another one.
    assert_eq!(grand.value(&GameConclusion::DefendersAreSchneider, Some(1)), 72);
    assert_eq!(grand.value(&GameConclusion::DeclarerIsSchneider, Some(1)), 72);
    assert_eq!(grand.value(&GameConclusion::DefendersAreSchwarz, Some(1)), 96);
    assert_eq!(grand.value(&GameConclusion::DeclarerIsSchwarz, Some(4)), 24 * 7);
    assert!(grand.is_won(&GameConclusion::DefendersAreDominated));
    assert!(!grand.is_won(&GameConclusion::DeclarerIsDominated));

    let ouvert = Announcement::new(HEARTS, true, true, true, true).expect("an open game");
    // With three, game four, hand five, schneider six, announced seven, schwarz eight, announced nine, open ten.
    assert_eq!(ouvert.value(&GameConclusion::DefendersAreSchwarz, Some(3)), 100);
    assert_eq!(ouvert.value(&GameConclusion::DefendersAreDominated, Some(3)), 100);
    assert!(ouvert.is_won(&GameConclusion::DefendersAreSchwarz));
    assert!(!ouvert.is_won(&GameConclusion::DefendersAreSchneider));
    assert!(ouvert.hand() && ouvert.ouvert());
    assert_eq!(TrumpGameLevel::Schneider.conclusion_to_reach(), GameConclusion::DefendersAreSchneider);
    assert_eq!(TrumpGameLevel::Hand.conclusion_to_reach(), GameConclusion::DefendersAreDominated);
    assert_eq!(TrumpGameLevel::Schwarz.conclusion_to_reach(), GameConclusion::DefendersAreSchwarz);
}

#[test]
fn scores_of_won_lost_and_overbid_games() {
    let clubs = GameType::Trump(CardType::Suit(Suit::Clubs));
    let announcement = Announcement::new(clubs, false, false, false, false).expect("clubs");
    let contract = Contract::new(24, announcement);
    assert_eq!(contract.announcement(), announcement);

    let won = contract.conclude(&GameConclusion::DefendersAreDominated, Some(1));
    assert_eq!((won.game_value, won.is_won), (24, true));
    assert_eq!(won.score_classical().delta(), 24);

    let lost = contract.conclude(&GameConclusion::DeclarerIsDominated, Some(1));
    assert_eq!((lost.game_value, lost.is_won), (24, false));
    assert_eq!(lost.score_classical().delta(), -48);
    assert_eq!(lost.score_classical().on_others, 0);

    // Bid 40 with a game that is worth 24: the next multiple of 12 is lost.
    let overbid = Contract::new(40, announcement).conclude(&GameConclusion::DefendersAreDominated, Some(1));
    assert_eq!((overbid.game_value, overbid.is_won), (48, false));
    assert_eq!(overbid.score_classical().delta(), -96);
    assert_eq!(value_due_to_overbid(40, clubs), 48);
    assert_eq!(value_due_to_overbid(48, clubs), 48);
    assert_eq!(value_due_to_overbid(49, clubs), 60);
    assert_eq!(value_due_to_overbid(1, GRAND), 24);
    assert_eq!(value_due_to_overbid(33, GameType::Trump(CardType::Suit(Suit::Diamonds))), 36);

    // Schneider saves the bid.
    let saved = Contract::new(36, announcement).conclude(&GameConclusion::DefendersAreSchneider, Some(1));
    assert_eq!((saved.game_value, saved.is_won), (36, true));
    assert_eq!(GameResult::new(10, true).score_classical().delta(), 10);
    assert_eq!(GameResult::new(10, false).score_classical().delta(), -20);
}

#[test]
fn conclusions_and_their_least_yields() {
    let all = [
        GameConclusion::DeclarerIsSchwarz,
        GameConclusion::DeclarerIsSchneider,
        GameConclusion::DeclarerIsDominated,
        GameConclusion::DefendersAreDominated,
        GameConclusion::DefendersAreSchneider,
        GameConclusion::DefendersAreSchwarz,
    ];
    for (place, conclusion) in all.iter().enumerate() {
        assert_eq!(
            GameConclusion::from_final_declarer_yield(&conclusion.least_yield_necessary_to_be_in_here()),
            *conclusion
        );
        for (other_place, other) in all.iter().enumerate() {
            assert_eq!(conclusion.at_least(*other), place >= other_place);
        }
    }
    assert_eq!(GameConclusion::from_final_declarer_yield(&YieldSoFar::new(CardPoints(22), 0)), GameConclusion::DeclarerIsSchwarz);
    assert_eq!(GameConclusion::from_final_declarer_yield(&YieldSoFar::new(CardPoints(30), 3)), GameConclusion::DeclarerIsSchneider);
    assert_eq!(GameConclusion::from_final_declarer_yield(&YieldSoFar::new(CardPoints(31), 3)), GameConclusion::DeclarerIsDominated);
    assert_eq!(GameConclusion::from_final_declarer_yield(&YieldSoFar::new(CardPoints(89), 9)), GameConclusion::DefendersAreDominated);
    assert_eq!(GameConclusion::from_final_declarer_yield(&YieldSoFar::new(CardPoints(90), 9)), GameConclusion::DefendersAreSchneider);
    assert_eq!(GameConclusion::from_final_declarer_yield(&YieldSoFar::new(CardPoints(118), 9)), GameConclusion::DefendersAreSchneider);
    assert_eq!(GameConclusion::from_final_declarer_yield(&YieldSoFar::new(CardPoints(120), 10)), GameConclusion::DefendersAreSchwarz);
    assert!(GameConclusion::DeclarerIsSchwarz.someone_is_schneider());
    assert!(GameConclusion::DeclarerIsSchwarz.someone_is_schwarz());
    assert!(GameConclusion::DefendersAreSchneider.someone_is_schneider());
    assert!(!GameConclusion::DefendersAreSchneider.someone_is_schwarz());
    assert!(!GameConclusion::DeclarerIsDominated.someone_is_schneider());
}

#[test]
fn choices_are_counted_and_listed() {
    assert_eq!(number_of_choices(0, 0), 1);
    assert_eq!(number_of_choices(11, 5), 462);
    assert_eq!(number_of_choices(32, 16), 601_080_390);
    assert_eq!(number_of_choices(32, 10), 64_512_240);
    assert_eq!(all_choices(3, 0), vec![Vec::<usize>::new()]);
    assert_eq!(all_choices(3, 2), vec![vec![0, 1], vec![0, 2], vec![1, 2]]);
    assert_eq!(all_choices(4, 3), vec![vec![0, 1, 2], vec![0, 1, 3], vec![0, 2, 3], vec![1, 2, 3]]);
    assert!(all_choices(2, 3).is_empty());
    for total in 0..8u8 {
        for selected in 0..=total {
            assert_eq!(all_choices(total, selected).len(), number_of_choices(total, selected));
        }
    }
}

#[test]
fn schneider_is_announced_from_the_hand() {
    let clubs = GameType::Trump(CardType::Suit(Suit::Clubs));
    let schneider = Ok(Announcement(AnnouncementImpl::Trump {
        trump: CardType::Suit(Suit::Clubs),
        level: TrumpGameLevel::Schneider,
    }));
    assert_eq!(Announcement::new(clubs, true, true, false, false), schneider);
    assert_eq!(Announcement::new(clubs, true, true, false, true), schneider);
    assert_eq!(Announcement::new(clubs, false, true, false, false), Err(AnnouncementError::Invalid));

    let announcement = Announcement::new(clubs, true, true, false, false).expect("from the hand");
    assert!(announcement.hand());
    assert!(!announcement.ouvert());
    // With one: 1 + game + hand + schneider + schneider announced.
    assert_eq!(announcement.value(&GameConclusion::DefendersAreSchneider, Some(1)), 60);
    assert!(announcement.is_won(&GameConclusion::DefendersAreSchneider));
    assert!(announcement.is_won(&GameConclusion::DefendersAreSchwarz));
    assert!(!announcement.is_won(&GameConclusion::DefendersAreDominated));
    // Schneider counts also where it did not come about.
    assert_eq!(announcement.value(&GameConclusion::DefendersAreDominated, Some(1)), 60);
    let result = Contract::new(36, announcement).conclude(&GameConclusion::DefendersAreSchneider, Some(1));
    assert_eq!((result.game_value, result.is_won), (60, true));
    assert_eq!(result.score_classical().delta(), 60);
    let lost = Contract::new(36, announcement).conclude(&GameConclusion::DefendersAreDominated, Some(1));
    assert_eq!((lost.game_value, lost.is_won), (60, false));
    assert_eq!(lost.score_classical().delta(), -120);
}
