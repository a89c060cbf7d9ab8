use rand::distr::uniform::{UniformSampler, UniformUsize};
use rand::seq::{IteratorRandom, SliceRandom};
use rand::{Rng, SeedableRng};
use rand_xoshiro::Xoshiro256PlusPlus;
use vstd::prelude::*;
use crate::card::Card;

verus! {

/// The generator of random numbers that the library draws from. Nothing is
/// known of its state.
#[verifier::external_type_specification]
#[verifier::external_body]
pub struct ExXoshiro256PlusPlus(Xoshiro256PlusPlus);

/// `Xoshiro256PlusPlus::seed_from_u64`: a fast generator that is good enough
/// for sampling deals, seeded with `seed`. Nothing is claimed of it.
#[verifier::external_body]
pub fn cheap_rng(seed: u64) -> Xoshiro256PlusPlus {
    Xoshiro256PlusPlus::seed_from_u64(seed)
}

/// `SliceRandom::shuffle`: puts the cards of the list into a random order.
/// The crate swaps items of the slice and does nothing else to it, so the list
/// holds the same cards as before, each as often as before.
#[verifier::external_body]
pub(crate) fn shuffle_cards(cards: &mut Vec<Card>, rng: &mut Xoshiro256PlusPlus)
    ensures
        final(cards)@.to_multiset() == old(cards)@.to_multiset(),
{
    cards.shuffle(rng);
}

/// `Rng::random_range` on the range from zero up to, not including, `bound`:
/// a random number of that range. The crate panics on an empty range, so the
/// bound is not zero.
#[verifier::external_body]
pub(crate) fn random_below(rng: &mut Xoshiro256PlusPlus, bound: usize) -> (r: usize)
    requires
        bound > 0,
    ensures
        r < bound,
{
    rng.random_range(0..bound)
}

/// `UniformUsize::new` for the range from zero up to, not including, `bound`,
/// and `UniformSampler::sample` on it: a random number of that range, drawn
/// as from a range that was prepared once. The crate gives no range where
/// the bound is zero, so the bound is not zero; what it draws is the low end,
/// zero, and less than the range's size more.
#[verifier::external_body]
pub(crate) fn random_of_range(rng: &mut Xoshiro256PlusPlus, bound: usize) -> (r: usize)
    requires
        bound > 0,
    ensures
        r < bound,
{
    UniformUsize::new(0, bound).expect("the range holds a number").sample(rng)
}

/// `IteratorRandom::choose` on the cards of a list: one of them at random.
/// The crate hands out an item of the list, and nothing only where the list
/// is empty.
#[verifier::external_body]
pub(crate) fn random_card_of(cards: &Vec<Card>, rng: &mut Xoshiro256PlusPlus) -> (r: Option<Card>)
    ensures
        match r {
            Some(card) => cards@.contains(card),
            None => cards@.len() == 0,
        },
{
    cards.iter().copied().choose(rng)
}

} // verus!
