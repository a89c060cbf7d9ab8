use vstd::prelude::*;
use vstd::std_specs::cmp::PartialEqSpec;
use crate::open_situation_analyzer::AnalyzedPossiblePlays;

verus! {

impl<R: PartialEq> AnalyzedPossiblePlays<R> {
    /// Whether what was found is the given value for every card, where the
    /// values are compared as their type says.
    pub fn are_all(&self, val: &R) -> (r: bool)
        ensures
            R::obeys_eq_spec() ==> r == forall|i: int|
                0 <= i < self@.len() ==> (#[trigger] self@[i]).1.eq_spec(val),
    {
        let mut i: usize = 0;
        while i < self.entries.len()
            invariant
                i <= self@.len(),
                R::obeys_eq_spec() ==> forall|k: int|
                    0 <= k < i ==> (#[trigger] self@[k]).1.eq_spec(val),
            decreases self@.len() - i,
        {
            if !(self.entries[i].1 == *val) {
                return false;
            }
            i += 1;
        }
        true
    }
}

} // verus!
