use muskat::card::{Card, CardType};
use muskat::card_points::CardPoints;
use muskat::cards::{quasi_equivalent_with_max_delta, Cards};
use muskat::game_type::GameType;

#[test]
fn quasi_equivalence_u() {
    let card = Card::EU;
    let in_hand_or_yielded = Cards::from(&[Card::EU, Card::SU, Card::GU]);
    let game_type = GameType::Trump(CardType::Trump);
    let max_delta = CardPoints(0);
    let still_considered = Cards::from(&[Card::SU, Card::HU, Card::GU]);

    let (banned, delta) = quasi_equivalent_with_max_delta(
        card,
        in_hand_or_yielded,
        game_type,
        max_delta,
        still_considered,
    );

    assert_eq!(banned, Cards::from(&[Card::GU]));
    assert_eq!(delta, CardPoints(0));
}
