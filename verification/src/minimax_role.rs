use vstd::prelude::*;
use crate::game_type::GameType;
use crate::role::Role;

verus! {

/// Whether a player wants the declarer's yield to be small or large.
#[derive(Clone, Copy, Debug, PartialEq, Eq, Structural)]
pub enum MinimaxRole {
    Min,
    Max,
}

impl MinimaxRole {
    pub open spec fn spec_of(role: Role, game_type: GameType) -> MinimaxRole {
        if (role == Role::Declarer) != (game_type == GameType::Null) {
            MinimaxRole::Max
        } else {
            MinimaxRole::Min
        }
    }

    /// The declarer wants a large yield and the defenders a small one, but in
    /// a Null game, where it is the other way round.
    #[verifier::when_used_as_spec(spec_of)]
    pub fn of(role: Role, game_type: GameType) -> (r: MinimaxRole)
        ensures
            r == MinimaxRole::spec_of(role, game_type),
    {
        let is_declarer = matches!(role, Role::Declarer);
        let is_null = matches!(game_type, GameType::Null);

        match is_declarer != is_null {
            true => MinimaxRole::Max,
            false => MinimaxRole::Min,
        }
    }
}

} // verus!
