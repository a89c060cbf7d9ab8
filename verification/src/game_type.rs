use vstd::prelude::*;
use crate::card::CardType;

verus! {

/// The contract's kind: Null, or a game with trumps. `Trump(CardType::Trump)`
/// is Grand; `Trump(CardType::Suit(s))` is the suit game with trump suit `s`.
#[derive(Clone, Copy, PartialEq, Eq, Hash, Debug, Structural)]
pub enum GameType {
    Null,
    Trump(CardType),
}

} // verus!
