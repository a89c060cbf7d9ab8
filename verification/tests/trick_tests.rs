use muskat::card::{Card, CardType, Suit};
use muskat::game_type::GameType;
use muskat::position::Position;
use muskat::trick::Trick;

#[test]
fn trick_winner_with_trump_lead_and_deactivated_rearhand() {
    let trick = Trick::new(Card::HA, Card::H7, Card::SZ);
    let winner = trick.winner_position(GameType::Trump(CardType::Suit(Suit::Hearts)));
    assert_eq!(winner, Position::Forehand);
}
