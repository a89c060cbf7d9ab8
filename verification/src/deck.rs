use rand_xoshiro::Xoshiro256PlusPlus;
use vstd::prelude::*;
use crate::card::Card;
use crate::cards::{group_cards, Cards};
use crate::rng::shuffle_cards;

verus! {

/// The 32 cards in the order in which they are dealt.
pub struct Deck {
    cards: Vec<Card>,
}

impl View for Deck {
    type V = Seq<Card>;

    closed spec fn view(&self) -> Seq<Card> {
        self.cards@
    }
}

impl Deck {
    /// The deck holds 32 cards, and no card twice.
    pub open spec fn wf(&self) -> bool {
        self@.len() == 32 && self@.no_duplicates()
    }

    /// The cards in the order of the list of all cards.
    pub fn unshuffled() -> (r: Deck)
        ensures
            r.wf(),
            forall|i: int| 0 <= i < 32 ==> (#[trigger] r@[i]).index() == i,
    {
        let mut cards: Vec<Card> = Vec::new();
        let mut i: u8 = 0;
        while i < 32
            invariant
                i <= 32,
                cards@.len() == i,
                forall|k: int| 0 <= k < i ==> (#[trigger] cards@[k]).index() == k,
            decreases 32 - i,
        {
            cards.push(Card::from_index(i));
            i += 1;
        }
        Deck { cards }
    }

    /// The deck of a list of cards, if the list holds 32 cards and no card twice.
    pub fn from_cards(cards: Vec<Card>) -> (r: Option<Deck>)
        ensures
            match r {
                Some(deck) => deck.wf() && deck@ == cards@,
                None => !(cards@.len() == 32 && cards@.no_duplicates()),
            },
    {
        if cards.len() != 32 {
            return None;
        }
        let mut seen = Cards::empty();
        let mut i: usize = 0;
        proof {
            broadcast use group_cards;

        }
        while i < 32
            invariant
                i <= 32,
                cards@.len() == 32,
                cards@.take(i as int).no_duplicates(),
                forall|card: Card| seen.spec_contains(card) == cards@.take(i as int).contains(card),
            decreases 32 - i,
        {
            proof {
                broadcast use group_cards;

            }
            let card = cards[i];
            if seen.contains(card) {
                proof {
                    let k = choose|k: int|
                        0 <= k < cards@.take(i as int).len() && cards@.take(i as int)[k] == card;
                    assert(cards@[k] == cards@[i as int]);
                }
                return None;
            }
            let ghost before = seen;
            seen.add_new(card);
            proof {
                let shorter = cards@.take(i as int);
                let longer = cards@.take(i + 1);
                assert(longer =~= shorter.push(card));
                assert forall|c: Card| seen.spec_contains(c) == longer.contains(c) by {
                    if shorter.contains(c) {
                        let k = choose|k: int| 0 <= k < shorter.len() && shorter[k] == c;
                        assert(longer[k] == c);
                    }
                    if c == card {
                        assert(longer[i as int] == c);
                    }
                    if longer.contains(c) && c != card {
                        let k = choose|k: int| 0 <= k < longer.len() && longer[k] == c;
                        assert(shorter[k] == c);
                    }
                }
                assert forall|a: int, b: int|
                    0 <= a < longer.len() && 0 <= b < longer.len() && a != b implies longer[a]
                    != longer[b] by {
                    if a < i && b < i {
                        assert(shorter[a] != shorter[b]);
                    } else if a < i {
                        assert(shorter.contains(shorter[a]));
                    } else if b < i {
                        assert(shorter.contains(shorter[b]));
                    }
                }
            }
            i += 1;
        }
        proof {
            assert(cards@.take(32) =~= cards@);
        }
        Some(Deck { cards })
    }

    /// A deck in a random order.
    pub fn shuffled(rng: &mut Xoshiro256PlusPlus) -> (r: Deck)
        ensures
            r.wf(),
    {
        let mut result = Deck::unshuffled();
        let ghost before = result@;
        shuffle_cards(&mut result.cards, rng);
        proof {
            before.to_multiset_ensures();
            result@.to_multiset_ensures();
            before.lemma_multiset_has_no_duplicates();
            result@.lemma_multiset_has_no_duplicates_conv();
        }
        result
    }

    /// The card at a place of the deck.
    pub fn card(&self, place: usize) -> (r: Card)
        requires
            self@.len() == 32,
            place < 32,
        ensures
            r == self@[place as int],
    {
        self.cards[place]
    }
}

} // verus!
