use vstd::prelude::*;
use crate::card_points::CardPoints;
use crate::minimax_role::MinimaxRole;
use crate::trick::Trick;

verus! {

/// What the declarer gets out of tricks: card points and the number of tricks.
///
/// Yields are ordered by their points first and by their tricks second
/// (`spec_le`, `spec_lt`), so 28 points in two tricks are more than 24 points in
/// three.
#[derive(Clone, Copy, PartialEq, Eq, PartialOrd, Ord, Debug, Hash, Structural)]
pub struct TrickYield {
    pub card_points: CardPoints,
    pub number_of_tricks: u8,
}

/// What the declarer has got so far, the points of the skat always included.
/// It is ordered as `TrickYield` is.
#[derive(Clone, Copy, PartialEq, Eq, PartialOrd, Ord, Debug, Hash, Structural)]
pub struct YieldSoFar {
    pub card_points: CardPoints,
    pub number_of_tricks: u8,
}

/// `a` plus `b`, but at most the greatest `u8`.
pub open spec fn saturating_sum(a: u8, b: u8) -> u8 {
    if a + b > u8::MAX {
        u8::MAX
    } else {
        (a + b) as u8
    }
}

/// `a` minus `b`, but at least zero.
pub open spec fn saturating_difference(a: u8, b: u8) -> u8 {
    if a < b {
        0
    } else {
        (a - b) as u8
    }
}

impl YieldSoFar {
    pub fn new(card_points: CardPoints, number_of_tricks: u8) -> (r: YieldSoFar)
        ensures
            r == (YieldSoFar { card_points, number_of_tricks }),
    {
        YieldSoFar { card_points, number_of_tricks }
    }

    pub open spec fn spec_max_yield() -> YieldSoFar {
        YieldSoFar { card_points: CardPoints(120), number_of_tricks: 10 }
    }

    /// All points and all tricks.
    #[verifier::when_used_as_spec(spec_max_yield)]
    pub fn max_yield() -> (r: YieldSoFar)
        ensures
            r == YieldSoFar::spec_max_yield(),
    {
        YieldSoFar { card_points: CardPoints(120), number_of_tricks: 10 }
    }

    pub open spec fn spec_le(self, other: YieldSoFar) -> bool {
        self.card_points.0 < other.card_points.0 || (self.card_points.0 == other.card_points.0
            && self.number_of_tricks <= other.number_of_tricks)
    }

    pub open spec fn spec_add(self, trick_yield: TrickYield) -> YieldSoFar {
        YieldSoFar {
            card_points: CardPoints(
                saturating_sum(self.card_points.0, trick_yield.card_points.0),
            ),
            number_of_tricks: saturating_sum(self.number_of_tricks, trick_yield.number_of_tricks),
        }
    }

    pub open spec fn spec_saturating_sub(self, other: YieldSoFar) -> TrickYield {
        TrickYield {
            card_points: CardPoints(
                saturating_difference(self.card_points.0, other.card_points.0),
            ),
            number_of_tricks: saturating_difference(self.number_of_tricks, other.number_of_tricks),
        }
    }

    /// Adds a trick yield to both parts, each stopping at the greatest `u8`.
    pub fn add_assign(&mut self, trick_yield: TrickYield)
        ensures
            *final(self) == old(self).spec_add(trick_yield),
    {
        self.card_points = CardPoints(
            self.card_points.0.saturating_add(trick_yield.card_points.0),
        );
        self.number_of_tricks = self.number_of_tricks.saturating_add(trick_yield.number_of_tricks);
    }

    /// What is still missing from `other` to reach `self`, part by part, and
    /// zero where `other` is already beyond.
    #[verifier::when_used_as_spec(spec_saturating_sub)]
    pub fn saturating_sub(self, other: YieldSoFar) -> (r: TrickYield)
        ensures
            r == self.spec_saturating_sub(other),
    {
        TrickYield {
            card_points: CardPoints(self.card_points.0.saturating_sub(other.card_points.0)),
            number_of_tricks: self.number_of_tricks.saturating_sub(other.number_of_tricks),
        }
    }

    pub fn card_points(self) -> (r: CardPoints)
        ensures
            r == self.card_points,
    {
        self.card_points
    }

    pub fn number_of_tricks(self) -> (r: u8)
        ensures
            r == self.number_of_tricks,
    {
        self.number_of_tricks
    }

    #[verifier::when_used_as_spec(spec_add)]
    pub fn add(self, trick_yield: TrickYield) -> (r: YieldSoFar)
        ensures
            r == self.spec_add(trick_yield),
    {
        let mut result = self;
        result.add_assign(trick_yield);
        result
    }
}

impl TrickYield {
    pub fn card_points(self) -> (r: CardPoints)
        ensures
            r == self.card_points,
    {
        self.card_points
    }

    pub fn number_of_tricks(self) -> (r: u8)
        ensures
            r == self.number_of_tricks,
    {
        self.number_of_tricks
    }

    pub open spec fn spec_zero_tricks() -> TrickYield {
        TrickYield { card_points: CardPoints(0), number_of_tricks: 0 }
    }

    /// No points and no trick.
    #[verifier::when_used_as_spec(spec_zero_tricks)]
    pub fn zero_tricks() -> (r: TrickYield)
        ensures
            r == TrickYield::spec_zero_tricks(),
    {
        TrickYield { card_points: CardPoints(0), number_of_tricks: 0 }
    }

    pub open spec fn spec_max_yield() -> TrickYield {
        TrickYield { card_points: CardPoints(120), number_of_tricks: 10 }
    }

    /// All points and all tricks.
    #[verifier::when_used_as_spec(spec_max_yield)]
    pub fn max_yield() -> (r: TrickYield)
        ensures
            r == TrickYield::spec_max_yield(),
    {
        TrickYield { card_points: CardPoints(120), number_of_tricks: 10 }
    }

    /// At most as much: fewer points, or the same points in no more tricks.
    pub open spec fn spec_le(self, other: TrickYield) -> bool {
        self.card_points.0 < other.card_points.0 || (self.card_points.0 == other.card_points.0
            && self.number_of_tricks <= other.number_of_tricks)
    }

    /// Less: fewer points, or the same points in fewer tricks.
    pub open spec fn spec_lt(self, other: TrickYield) -> bool {
        self.card_points.0 < other.card_points.0 || (self.card_points.0 == other.card_points.0
            && self.number_of_tricks < other.number_of_tricks)
    }

    pub open spec fn spec_min(self, other: TrickYield) -> TrickYield {
        if self.spec_le(other) {
            self
        } else {
            other
        }
    }

    pub open spec fn spec_max(self, other: TrickYield) -> TrickYield {
        if self.spec_le(other) {
            other
        } else {
            self
        }
    }

    #[verifier::when_used_as_spec(spec_le)]
    pub fn le(self, other: TrickYield) -> (r: bool)
        ensures
            r == self.spec_le(other),
    {
        self.card_points.0 < other.card_points.0 || (self.card_points.0 == other.card_points.0
            && self.number_of_tricks <= other.number_of_tricks)
    }

    #[verifier::when_used_as_spec(spec_lt)]
    pub fn lt(self, other: TrickYield) -> (r: bool)
        ensures
            r == self.spec_lt(other),
    {
        self.card_points.0 < other.card_points.0 || (self.card_points.0 == other.card_points.0
            && self.number_of_tricks < other.number_of_tricks)
    }

    /// The smaller of two yields.
    #[verifier::when_used_as_spec(spec_min)]
    pub fn min(self, other: TrickYield) -> (r: TrickYield)
        ensures
            r == self.spec_min(other),
    {
        if self.le(other) {
            self
        } else {
            other
        }
    }

    /// The larger of two yields.
    #[verifier::when_used_as_spec(spec_max)]
    pub fn max(self, other: TrickYield) -> (r: TrickYield)
        ensures
            r == self.spec_max(other),
    {
        if self.le(other) {
            other
        } else {
            self
        }
    }

    pub open spec fn spec_worst(minimax_role: MinimaxRole) -> TrickYield {
        match minimax_role {
            MinimaxRole::Min => TrickYield::spec_max_yield(),
            MinimaxRole::Max => TrickYield::spec_zero_tricks(),
        }
    }

    /// The yield that a player would like least: everything for the one who
    /// wants it small, nothing for the one who wants it large.
    #[verifier::when_used_as_spec(spec_worst)]
    pub fn worst(minimax_role: MinimaxRole) -> (r: TrickYield)
        ensures
            r == TrickYield::spec_worst(minimax_role),
    {
        match minimax_role {
            MinimaxRole::Min => TrickYield::max_yield(),
            MinimaxRole::Max => TrickYield::zero_tricks(),
        }
    }

    /// What a won trick yields: the points of its three cards, and one trick.
    pub fn from_trick(trick: Trick) -> (r: TrickYield)
        ensures
            r.card_points.0 == trick.spec_to_points(),
            r.number_of_tricks == 1,
    {
        TrickYield { card_points: trick.to_points(), number_of_tricks: 1 }
    }

    pub open spec fn spec_saturating_sub(self, other: TrickYield) -> TrickYield {
        TrickYield {
            card_points: CardPoints(
                saturating_difference(self.card_points.0, other.card_points.0),
            ),
            number_of_tricks: saturating_difference(self.number_of_tricks, other.number_of_tricks),
        }
    }

    /// Takes `other` away part by part, each part stopping at zero.
    #[verifier::when_used_as_spec(spec_saturating_sub)]
    pub fn saturating_sub(self, other: TrickYield) -> (r: TrickYield)
        ensures
            r == self.spec_saturating_sub(other),
    {
        TrickYield {
            card_points: CardPoints(self.card_points.0.saturating_sub(other.card_points.0)),
            number_of_tricks: self.number_of_tricks.saturating_sub(other.number_of_tricks),
        }
    }

    pub open spec fn spec_plus(self, other: TrickYield) -> TrickYield {
        TrickYield {
            card_points: CardPoints(saturating_sum(self.card_points.0, other.card_points.0)),
            number_of_tricks: saturating_sum(self.number_of_tricks, other.number_of_tricks),
        }
    }

    /// Adds `other` part by part, each part stopping at the greatest `u8`.
    pub fn add_assign(&mut self, other: TrickYield)
        ensures
            *final(self) == old(self).spec_plus(other),
    {
        self.card_points = CardPoints(self.card_points.0.saturating_add(other.card_points.0));
        self.number_of_tricks = self.number_of_tricks.saturating_add(other.number_of_tricks);
    }

    pub fn new(card_points: CardPoints, number_of_tricks: u8) -> (r: TrickYield)
        ensures
            r == (TrickYield { card_points, number_of_tricks }),
    {
        TrickYield { card_points, number_of_tricks }
    }

    pub open spec fn spec_sub(&self, delta: CardPoints) -> TrickYield {
        TrickYield {
            card_points: CardPoints(saturating_difference(self.card_points.0, delta.0)),
            number_of_tricks: self.number_of_tricks,
        }
    }

    /// The same tricks with `delta` points less, but not less than none.
    #[verifier::when_used_as_spec(spec_sub)]
    pub fn sub(&self, delta: CardPoints) -> (r: TrickYield)
        ensures
            r == self.spec_sub(delta),
    {
        TrickYield {
            card_points: CardPoints(self.card_points.0.saturating_sub(delta.0)),
            number_of_tricks: self.number_of_tricks,
        }
    }

    pub open spec fn spec_add(&self, delta: CardPoints) -> TrickYield {
        TrickYield {
            card_points: CardPoints(saturating_sum(self.card_points.0, delta.0)),
            number_of_tricks: self.number_of_tricks,
        }
    }

    /// The same tricks with `delta` points more, stopping at the greatest `u8`.
    #[verifier::when_used_as_spec(spec_add)]
    pub fn add(&self, delta: CardPoints) -> (r: TrickYield)
        ensures
            r == self.spec_add(delta),
    {
        TrickYield {
            card_points: CardPoints(self.card_points.0.saturating_add(delta.0)),
            number_of_tricks: self.number_of_tricks,
        }
    }

    /// The order of yields is total: of two different yields one is less.
    pub proof fn lemma_order_is_total(self, other: TrickYield)
        ensures
            self.spec_le(other) || other.spec_le(self),
            self.spec_le(other) && other.spec_le(self) ==> self == other,
            self.spec_lt(other) == !other.spec_le(self),
    {
    }

    /// The order of yields is transitive.
    pub proof fn lemma_order_is_transitive(self, middle: TrickYield, other: TrickYield)
        requires
            self.spec_le(middle),
            middle.spec_le(other),
        ensures
            self.spec_le(other),
    {
    }

    /// Adding the same to two yields keeps their order, as long as the points
    /// stay below the greatest `u8`.
    pub proof fn lemma_plus_keeps_order(self, other: TrickYield, gained: TrickYield)
        requires
            self.spec_le(other),
            self.card_points.0 + gained.card_points.0 <= u8::MAX,
            other.card_points.0 + gained.card_points.0 <= u8::MAX,
        ensures
            self.spec_plus(gained).spec_le(other.spec_plus(gained)),
    {
    }

    /// Taking anything that is at least the greatest yield away from the greatest
    /// yield leaves nothing.
    pub proof fn lemma_max_minus_more_is_zero(other: TrickYield)
        requires
            other.card_points.0 >= 120,
            other.number_of_tricks >= 10,
        ensures
            TrickYield::spec_max_yield().spec_saturating_sub(other)
                == TrickYield::spec_zero_tricks(),
    {
    }
}

} // verus!
