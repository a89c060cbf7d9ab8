use vstd::prelude::*;
use crate::card_points::CardPoints;
use crate::trick_yield::TrickYield;

verus! {

/// What is known of the declarer's future yield under best play of all three:
/// at least `lower`, at most `upper`. The bounds are meant to hold
/// `lower <= upper` (`is_interval`); no function checks it.
#[derive(Clone, Copy, Debug, PartialEq, Eq, Structural)]
pub struct Bounds {
    pub lower: TrickYield,
    pub upper: TrickYield,
}

impl Bounds {
    pub open spec fn is_interval(self) -> bool {
        self.lower.spec_le(self.upper)
    }

    /// These bounds say at least as much as the others: the lower bound is no
    /// lower and the upper bound no higher.
    pub open spec fn tightens(self, other: Bounds) -> bool {
        other.lower.spec_le(self.lower) && self.upper.spec_le(other.upper)
    }

    pub fn new(lower: TrickYield, upper: TrickYield) -> (r: Bounds)
        ensures
            r == (Bounds { lower, upper }),
    {
        Bounds { lower, upper }
    }

    /// The bounds say on which side of the threshold the yield is: at least
    /// the threshold, or below it.
    pub open spec fn spec_decides_threshold(self, threshold: TrickYield) -> bool {
        threshold.spec_le(self.lower) || self.upper.spec_lt(threshold)
    }

    #[verifier::when_used_as_spec(spec_decides_threshold)]
    pub fn decides_threshold(self, threshold: TrickYield) -> (r: bool)
        ensures
            r == self.spec_decides_threshold(threshold),
    {
        threshold.le(self.lower) || self.upper.lt(threshold)
    }

    /// The bounds made `delta` card points wider on both sides, with the tricks
    /// as they are.
    pub open spec fn widened(self, delta: CardPoints) -> Bounds {
        Bounds { lower: self.lower.spec_sub(delta), upper: self.upper.spec_add(delta) }
    }

    /// How far the lower bound can be moved down and stay at least the
    /// threshold, if it can at all.
    pub open spec fn slack_below(self, threshold: TrickYield) -> Option<u8> {
        let th = threshold.card_points.0;
        let lo = self.lower.card_points.0;
        if !threshold.spec_le(self.lower) {
            None
        } else if threshold.number_of_tricks <= self.lower.number_of_tricks {
            if th == 0 {
                Some(u8::MAX)
            } else {
                Some((lo - th) as u8)
            }
        } else {
            Some((lo - th - 1) as u8)
        }
    }

    /// How far the upper bound can be moved up and stay below the threshold, if
    /// it can at all.
    pub open spec fn slack_above(self, threshold: TrickYield) -> Option<u8> {
        let th = threshold.card_points.0;
        let up = self.upper.card_points.0;
        if !self.upper.spec_lt(threshold) {
            None
        } else if self.upper.number_of_tricks < threshold.number_of_tricks {
            if th == u8::MAX {
                Some(u8::MAX)
            } else {
                Some((th - up) as u8)
            }
        } else {
            Some((th - up - 1) as u8)
        }
    }

    /// The most card points by which the bounds can be widened and still decide
    /// the threshold; zero where they do not decide it as they are.
    pub open spec fn spec_distance_to_threshold(self, threshold: TrickYield) -> u8 {
        match (self.slack_below(threshold), self.slack_above(threshold)) {
            (Some(below), Some(above)) => if below < above {
                above
            } else {
                below
            },
            (Some(below), None) => below,
            (None, Some(above)) => above,
            (None, None) => 0,
        }
    }

    /// The most card points by which the bounds can be made wider on both sides,
    /// the tricks left as they are, and still decide the threshold. For bounds
    /// that do not decide the threshold the result is zero.
    pub fn distance_to_threshold(self, threshold: TrickYield) -> (r: CardPoints)
        ensures
            r.0 == self.spec_distance_to_threshold(threshold),
            self.spec_decides_threshold(threshold) ==> self.widened(r).spec_decides_threshold(
                threshold,
            ),
            forall|more: u8|
                r.0 < more ==> !(#[trigger] self.widened(CardPoints(more))).spec_decides_threshold(threshold),
            !self.spec_decides_threshold(threshold) ==> r.0 == 0,
    {
        let th = threshold.card_points().0;
        let lo = self.lower.card_points().0;
        let up = self.upper.card_points().0;

        let below: Option<u8> = if !threshold.le(self.lower) {
            None
        } else if threshold.number_of_tricks() <= self.lower.number_of_tricks() {
            if th == 0 {
                Some(u8::MAX)
            } else {
                Some(lo - th)
            }
        } else {
            Some(lo - th - 1)
        };

        let above: Option<u8> = if !self.upper.lt(threshold) {
            None
        } else if self.upper.number_of_tricks() < threshold.number_of_tricks() {
            if th == u8::MAX {
                Some(u8::MAX)
            } else {
                Some(th - up)
            }
        } else {
            Some(th - up - 1)
        };

        let result: u8 = match (below, above) {
            (Some(below), Some(above)) => if below < above {
                above
            } else {
                below
            },
            (Some(below), None) => below,
            (None, Some(above)) => above,
            (None, None) => 0,
        };
        CardPoints(result)
    }

    pub fn lower(self) -> (r: TrickYield)
        ensures
            r == self.lower,
    {
        self.lower
    }

    pub fn upper(self) -> (r: TrickYield)
        ensures
            r == self.upper,
    {
        self.upper
    }

    /// Lowers the upper bound to `upper_bound` if that is less.
    pub fn minimize_upper(&mut self, upper_bound: TrickYield)
        ensures
            final(self).lower == old(self).lower,
            final(self).upper == old(self).upper.spec_min(upper_bound),
    {
        self.upper = self.upper.min(upper_bound);
    }

    /// Raises the lower bound to `lower_bound` if that is more.
    pub fn maximize_lower(&mut self, lower_bound: TrickYield)
        ensures
            final(self).upper == old(self).upper,
            final(self).lower == old(self).lower.spec_max(lower_bound),
    {
        self.lower = self.lower.max(lower_bound);
    }

    /// Sets the lower bound.
    pub fn update_lower(&mut self, lower_bound: TrickYield)
        ensures
            final(self).upper == old(self).upper,
            final(self).lower == lower_bound,
    {
        self.lower = lower_bound;
    }

    /// Sets the upper bound.
    pub fn update_upper(&mut self, upper_bound: TrickYield)
        ensures
            final(self).lower == old(self).lower,
            final(self).upper == upper_bound,
    {
        self.upper = upper_bound;
    }

    /// Bounds that decide a threshold when widened decide it when widened less.
    pub proof fn lemma_widened_less(self, less: CardPoints, more: CardPoints, threshold: TrickYield)
        requires
            less.0 <= more.0,
            self.widened(more).spec_decides_threshold(threshold),
        ensures
            self.widened(less).spec_decides_threshold(threshold),
    {
    }

    /// What is known of a position after a card decides a threshold if what
    /// is known of the position that the card leads to decides what is left of
    /// the threshold, once the card's yield is taken off.
    pub proof fn lemma_decision_carries(self, gained: TrickYield, threshold: TrickYield)
        requires
            self.spec_decides_threshold(threshold.spec_saturating_sub(gained)),
            threshold.card_points.0 < u8::MAX,
        ensures
            (Bounds {
                lower: self.lower.spec_plus(gained),
                upper: self.upper.spec_plus(gained),
            }).spec_decides_threshold(threshold),
    {
    }
}

} // verus!
