use std::collections::HashMap;
use vstd::prelude::*;
use crate::bounds::Bounds;
use crate::card::Card;
use crate::cards::{group_cards, Cards};
use crate::game_type::GameType;
use crate::open_situation_solver::bounds_and_preference::BoundsAndMaybePreference;
use crate::optimal_play::is_sound_for;
use crate::partial_trick::PartialTrick;
use crate::role::Role;
use crate::situation::OpenSituation;
use crate::trick_yield::TrickYield;

verus! {

/// How the positions that follow from one position get their keys: the cards
/// in the hands, and with them a card that marks which defender is to move.
/// The two marks are the two lowest cards of the first position's cellar, so
/// they are in no hand of a position that follows.
#[derive(Clone, Copy)]
pub struct SituationKey {
    first_defender_card: Card,
    second_defender_card: Card,
    root: Ghost<OpenSituation>,
}

impl SituationKey {
    pub closed spec fn spec_first_defender_card(self) -> Card {
        self.first_defender_card
    }

    pub closed spec fn spec_second_defender_card(self) -> Card {
        self.second_defender_card
    }

    /// The position that the keys were made for.
    pub closed spec fn root(self) -> OpenSituation {
        self.root@
    }

    /// The two marks differ, and the position that the keys were made for is
    /// one of a game.
    pub open spec fn wf(self) -> bool {
        self.spec_first_defender_card() != self.spec_second_defender_card() && self.root().wf()
    }

    /// The two marks as a set.
    pub open spec fn marks(self) -> Cards {
        Cards::spec_just(self.spec_first_defender_card()).spec_or(
            Cards::spec_just(self.spec_second_defender_card()),
        )
    }

    /// What is added to the cards in the hands for the player to move.
    pub open spec fn mark_of(self, role: Role) -> Cards {
        match role {
            Role::Declarer => Cards::spec_empty(),
            Role::FirstDefender => Cards::spec_just(self.spec_first_defender_card()),
            Role::SecondDefender => Cards::spec_just(self.spec_second_defender_card()),
        }
    }

    /// The position can be told by its key: no hand holds a mark, and each
    /// hand is a part of the same player's hand in the position that the keys
    /// were made for.
    pub open spec fn covers(self, situation: OpenSituation) -> bool {
        &&& situation.spec_remaining_cards_in_hands().disjoint(self.marks())
        &&& situation.spec_hand_cards_of(Role::Declarer).subset_of(
            self.root().spec_hand_cards_of(Role::Declarer),
        )
        &&& situation.spec_hand_cards_of(Role::FirstDefender).subset_of(
            self.root().spec_hand_cards_of(Role::FirstDefender),
        )
        &&& situation.spec_hand_cards_of(Role::SecondDefender).subset_of(
            self.root().spec_hand_cards_of(Role::SecondDefender),
        )
    }

    /// Among the positions of a game that the keys cover and that have no card
    /// on the table, the key tells the position.
    pub proof fn lemma_key_tells_position(self, a: OpenSituation, b: OpenSituation)
        requires
            self.wf(),
            self.covers(a),
            self.covers(b),
            a.wf(),
            b.wf(),
            !a.spec_is_trick_in_progress(),
            !b.spec_is_trick_in_progress(),
            self.spec_key(a) == self.spec_key(b),
        ensures
            a == b,
    {
        broadcast use group_cards;

        self.lemma_key_tells_hands_and_role(a, b);
        let root = self.root();
        assert forall|role: Role| a.spec_hand_cards_of(role) == b.spec_hand_cards_of(role) by {
            let of_a = a.spec_hand_cards_of(role);
            let of_b = b.spec_hand_cards_of(role);
            assert forall|card: Card| of_a.spec_contains(card) == of_b.spec_contains(card) by {
                if of_a.spec_contains(card) {
                    assert(a.spec_remaining_cards_in_hands().spec_contains(card));
                    assert(b.spec_remaining_cards_in_hands().spec_contains(card));
                    assert(root.spec_hand_cards_of(role).spec_contains(card));
                }
                if of_b.spec_contains(card) {
                    assert(b.spec_remaining_cards_in_hands().spec_contains(card));
                    assert(a.spec_remaining_cards_in_hands().spec_contains(card));
                    assert(root.spec_hand_cards_of(role).spec_contains(card));
                }
            }
            of_a.lemma_ext(of_b);
        }
        a.spec_partial_trick().lemma_len();
        b.spec_partial_trick().lemma_len();
        a.lemma_ext(b);
    }

    /// The positions without cards are covered.
    pub proof fn lemma_covers_leaf(self, role: Role)
        ensures
            self.covers(OpenSituation::spec_leaf(role)),
            OpenSituation::spec_leaf(role).wf(),
            !OpenSituation::spec_leaf(role).spec_is_trick_in_progress(),
    {
        broadcast use group_cards;
        broadcast use OpenSituation::lemma_new;
        broadcast use PartialTrick::lemma_cards;

        Cards::lemma_measure_constants();
        PartialTrick::spec_empty().lemma_len();
    }

    /// The key of a position: the bits of the cards in the hands, and the bit of
    /// the mark of the defender to move.
    pub open spec fn spec_key(self, situation: OpenSituation) -> u32 {
        situation.spec_remaining_cards_in_hands().spec_or(
            self.mark_of(situation.spec_active_role()),
        ).spec_detail_to_bits()
    }

    /// The cards in the hands of the positions with this key.
    pub open spec fn hands_of_key(self, key: u32) -> Cards {
        Cards::spec_from_bits(key).spec_without(self.marks())
    }

    /// Among the positions that the keys cover, the key gives the cards in
    /// the hands.
    pub proof fn lemma_hands_of_key(self, situation: OpenSituation)
        requires
            self.covers(situation),
        ensures
            self.hands_of_key(self.spec_key(situation)) == situation.spec_remaining_cards_in_hands(),
    {
        broadcast use group_cards;

        let hands = situation.spec_remaining_cards_in_hands();
        let with_mark = hands.spec_or(self.mark_of(situation.spec_active_role()));
        with_mark.lemma_bits();
        assert forall|card: Card|
            with_mark.spec_without(self.marks()).spec_contains(card) == hands.spec_contains(
                card,
            ) by {}
        with_mark.spec_without(self.marks()).lemma_ext(hands);
    }

    /// Among the positions that the keys cover, two with the same key have
    /// the same cards in the hands and the same player to move.
    pub proof fn lemma_key_tells_hands_and_role(self, a: OpenSituation, b: OpenSituation)
        requires
            self.wf(),
            self.covers(a),
            self.covers(b),
            self.spec_key(a) == self.spec_key(b),
        ensures
            a.spec_remaining_cards_in_hands() == b.spec_remaining_cards_in_hands(),
            a.spec_active_role() == b.spec_active_role(),
    {
        broadcast use group_cards;

        self.lemma_hands_of_key(a);
        self.lemma_hands_of_key(b);
        let hands = a.spec_remaining_cards_in_hands();
        let with_a = hands.spec_or(self.mark_of(a.spec_active_role()));
        let with_b = hands.spec_or(self.mark_of(b.spec_active_role()));
        with_a.lemma_bits();
        with_b.lemma_bits();
        assert(with_a == with_b);
        let first = self.spec_first_defender_card();
        let second = self.spec_second_defender_card();
        assert(with_a.spec_contains(first) == with_b.spec_contains(first));
        assert(with_a.spec_contains(second) == with_b.spec_contains(second));
    }

    /// The positions that follow from a position that the keys cover are
    /// covered too, and have fewer cards in the hands.
    pub proof fn lemma_covers_child(self, situation: OpenSituation, card: Card, game_type: GameType)
        requires
            self.covers(situation),
            situation.wf(),
            situation.spec_next_possible_plays(game_type).spec_contains(card),
        ensures
            self.covers(situation.spec_play_card(card, game_type)),
            situation.spec_play_card(card, game_type).spec_remaining_cards_in_hands().subset_of(
                situation.spec_remaining_cards_in_hands(),
            ),
            situation.spec_remaining_cards_in_hands().spec_contains(card),
            !situation.spec_play_card(card, game_type).spec_remaining_cards_in_hands().spec_contains(
                card,
            ),
    {
        broadcast use group_cards;

        situation.lemma_play_card_keeps_wf(card, game_type);
        situation.lemma_play_card(card, game_type);
        let child = situation.spec_play_card(card, game_type);
        assert(child.spec_hand_cards_of(Role::Declarer).subset_of(
            situation.spec_hand_cards_of(Role::Declarer),
        ));
        assert(child.spec_hand_cards_of(Role::FirstDefender).subset_of(
            situation.spec_hand_cards_of(Role::FirstDefender),
        ));
        assert(child.spec_hand_cards_of(Role::SecondDefender).subset_of(
            situation.spec_hand_cards_of(Role::SecondDefender),
        ));
    }

    /// The key of a position.
    #[verifier::when_used_as_spec(spec_key)]
    pub fn key(self, open_situation: OpenSituation) -> (r: u32)
        ensures
            r == self.spec_key(open_situation),
    {
        let mut key = open_situation.remaining_cards_in_hands();
        match open_situation.active_role() {
            Role::Declarer => {
                proof {
                    broadcast use group_cards;

                    key.spec_or(Cards::spec_empty()).lemma_ext(key);
                }
            },
            Role::FirstDefender => key.add_new(self.first_defender_card),
            Role::SecondDefender => key.add_new(self.second_defender_card),
        }

        key.detail_to_bits()
    }
}

/// The keys for the positions that follow from `reachable_from`: the marks are
/// the two lowest cards of its cellar.
pub fn open_situation_reachable_from_to_u32_key(reachable_from: OpenSituation) -> (r: SituationKey)
    requires
        reachable_from.wf(),
    ensures
        r.wf(),
        r.covers(reachable_from),
        r.root() == reachable_from,
        r.spec_first_defender_card() == reachable_from.spec_cellar().spec_lowest(),
        r.spec_second_defender_card() == reachable_from.spec_cellar().spec_without(
            Cards::spec_just(reachable_from.spec_cellar().spec_lowest()),
        ).spec_lowest(),
{
    proof {
        broadcast use group_cards;

        reachable_from.lemma_all_cards_accounted_for();
    }
    let mut cellar = reachable_from.cellar();
    let first_defender_card = cellar.remove_smallest_unchecked();
    proof {
        cellar.lemma_len_bounds();
    }
    let second_defender_card = cellar.remove_smallest_unchecked();
    SituationKey { first_defender_card, second_defender_card, root: Ghost(reachable_from) }
}

/// The upper bound is within what a game can give.
pub open spec fn is_within_game(bounds: Bounds) -> bool {
    bounds.upper.spec_le(TrickYield::spec_max_yield())
}

/// Every entry is still there, with bounds that say at least as much.
pub open spec fn only_tightened(
    before: Map<u32, BoundsAndMaybePreference>,
    after: Map<u32, BoundsAndMaybePreference>,
) -> bool {
    forall|key: u32| #[trigger]
        before.contains_key(key) ==> after.contains_key(key) && after[key].bounds.tightens(
            before[key].bounds,
        )
}

/// Only entries of positions whose hands are part of `hands` are new or
/// have changed.
pub open spec fn changed_only_within(
    before: Map<u32, BoundsAndMaybePreference>,
    after: Map<u32, BoundsAndMaybePreference>,
    keys: SituationKey,
    hands: Cards,
) -> bool {
    forall|key: u32|
        (#[trigger] after.contains_key(key)) && !(before.contains_key(key) && before[key]
            == after[key]) ==> keys.hands_of_key(key).subset_of(hands)
}

/// Tightening twice is tightening.
pub proof fn lemma_tightened_twice(
    first: Map<u32, BoundsAndMaybePreference>,
    second: Map<u32, BoundsAndMaybePreference>,
    third: Map<u32, BoundsAndMaybePreference>,
)
    requires
        only_tightened(first, second),
        only_tightened(second, third),
    ensures
        only_tightened(first, third),
{
    assert forall|key: u32| #[trigger] first.contains_key(key) implies third.contains_key(key)
        && third[key].bounds.tightens(first[key].bounds) by {
        assert(second.contains_key(key));
    }
}

/// What changes within a part of the hands, after changes within the hands,
/// are changes within the hands.
pub proof fn lemma_changed_twice(
    first: Map<u32, BoundsAndMaybePreference>,
    second: Map<u32, BoundsAndMaybePreference>,
    third: Map<u32, BoundsAndMaybePreference>,
    keys: SituationKey,
    part: Cards,
    hands: Cards,
)
    requires
        changed_only_within(first, second, keys, hands),
        changed_only_within(second, third, keys, part),
        only_tightened(second, third),
        part.subset_of(hands),
    ensures
        changed_only_within(first, third, keys, hands),
{
    assert forall|key: u32|
        (#[trigger] third.contains_key(key)) && !(first.contains_key(key) && first[key]
            == third[key]) implies keys.hands_of_key(key).subset_of(hands) by {
        if second.contains_key(key) && second[key] == third[key] {
            assert(keys.hands_of_key(key).subset_of(hands));
        } else {
            assert(keys.hands_of_key(key).subset_of(part));
        }
    }
}

/// What is known of a position is not touched by changes within hands that
/// lack one of the position's cards.
pub proof fn lemma_untouched(
    before: Map<u32, BoundsAndMaybePreference>,
    after: Map<u32, BoundsAndMaybePreference>,
    keys: SituationKey,
    part: Cards,
    situation: OpenSituation,
    card: Card,
)
    requires
        changed_only_within(before, after, keys, part),
        only_tightened(before, after),
        keys.covers(situation),
        situation.spec_remaining_cards_in_hands().spec_contains(card),
        !part.spec_contains(card),
    ensures
        after.contains_key(keys.spec_key(situation)) == before.contains_key(
            keys.spec_key(situation),
        ),
        before.contains_key(keys.spec_key(situation)) ==> after[keys.spec_key(situation)]
            == before[keys.spec_key(situation)],
{
    keys.lemma_hands_of_key(situation);
    let key = keys.spec_key(situation);
    if after.contains_key(key) && !(before.contains_key(key) && before[key] == after[key]) {
        assert(keys.hands_of_key(key).subset_of(part));
        assert(false);
    }
    if before.contains_key(key) {
        assert(after.contains_key(key));
    }
}

/// What is known is right: for every position of a game that the keys cover
/// and that has no card on the table, what is known of it is right for it.
#[verifier::opaque]
pub open spec fn knowledge_is_sound(
    knowledge: Map<u32, BoundsAndMaybePreference>,
    keys: SituationKey,
    game_type: GameType,
) -> bool {
    forall|situation: OpenSituation|
        {
            &&& keys.covers(situation)
            &&& situation.wf()
            &&& !situation.spec_is_trick_in_progress()
            &&& knowledge.contains_key(#[trigger] keys.spec_key(situation))
        } ==> is_sound_for(knowledge[keys.spec_key(situation)].bounds, situation, game_type)
}

/// What is known of a position is right for it if what is known is right.
pub proof fn lemma_sound_entry(
    knowledge: Map<u32, BoundsAndMaybePreference>,
    keys: SituationKey,
    game_type: GameType,
    situation: OpenSituation,
)
    requires
        knowledge_is_sound(knowledge, keys, game_type),
        keys.covers(situation),
        situation.wf(),
        !situation.spec_is_trick_in_progress(),
        knowledge.contains_key(keys.spec_key(situation)),
    ensures
        is_sound_for(knowledge[keys.spec_key(situation)].bounds, situation, game_type),
{
    reveal(knowledge_is_sound);
}

/// What is known stays right when something right is entered for a position.
pub proof fn lemma_sound_after_insert(
    knowledge: Map<u32, BoundsAndMaybePreference>,
    keys: SituationKey,
    game_type: GameType,
    situation: OpenSituation,
    entry: BoundsAndMaybePreference,
)
    requires
        knowledge_is_sound(knowledge, keys, game_type),
        keys.wf(),
        keys.covers(situation),
        situation.wf(),
        !situation.spec_is_trick_in_progress(),
        is_sound_for(entry.bounds, situation, game_type),
    ensures
        knowledge_is_sound(knowledge.insert(keys.spec_key(situation), entry), keys, game_type),
{
    reveal(knowledge_is_sound);
    let after = knowledge.insert(keys.spec_key(situation), entry);
    assert forall|other: OpenSituation|
        {
            &&& keys.covers(other)
            &&& other.wf()
            &&& !other.spec_is_trick_in_progress()
            &&& after.contains_key(#[trigger] keys.spec_key(other))
        } implies is_sound_for(after[keys.spec_key(other)].bounds, other, game_type) by {
        if keys.spec_key(other) == keys.spec_key(situation) {
            keys.lemma_key_tells_position(other, situation);
        }
    }
}

/// The keys are well formed, and every upper bound is within what a game
/// can give.
pub open spec fn entries_wf(
    knowledge: Map<u32, BoundsAndMaybePreference>,
    keys: SituationKey,
) -> bool {
    &&& keys.wf()
    &&& knowledge.dom().finite()
    &&& forall|key: u32| #[trigger]
        knowledge.contains_key(key) ==> is_within_game(knowledge[key].bounds)
}

/// What the solver has found out about the positions that follow from one
/// position, by their keys.
///
/// An implementation keeps the keys that it was made with (`keys`) and holds
/// only upper bounds within what a game can give (`entries_wf`).
pub trait OpenSituationSolverCache: Sized {
    /// The entries by their keys.
    spec fn knowledge(&self) -> Map<u32, BoundsAndMaybePreference>;

    /// How positions get their keys.
    spec fn keys(&self) -> SituationKey;

    /// What is known of a position. If nothing was, its quick bounds are
    /// entered and returned, with no preferred card.
    fn get_current_knowledge(&mut self, situation: OpenSituation, game_type: GameType) -> (r:
        BoundsAndMaybePreference)
        requires
            entries_wf(old(self).knowledge(), old(self).keys()),
            situation.wf(),
        ensures
            entries_wf(final(self).knowledge(), final(self).keys()),
            final(self).keys() == old(self).keys(),
            final(self).knowledge() == old(self).knowledge().insert(
                old(self).keys().spec_key(situation),
                r,
            ),
            old(self).knowledge().contains_key(old(self).keys().spec_key(situation)) ==> r == old(
                self,
            ).knowledge()[old(self).keys().spec_key(situation)],
            !old(self).knowledge().contains_key(old(self).keys().spec_key(situation)) ==> {
                &&& r.maybe_preference is None
                &&& situation.is_quick_bounds(game_type, r.bounds)
            },
    ;

    /// Replaces what is known of a position by something that says at least as
    /// much.
    fn update_existing(
        &mut self,
        situation: OpenSituation,
        updated: BoundsAndMaybePreference,
        game_type: GameType,
    )
        requires
            entries_wf(old(self).knowledge(), old(self).keys()),
            old(self).knowledge().contains_key(old(self).keys().spec_key(situation)),
            is_within_game(updated.bounds),
            updated.bounds.tightens(
                old(self).knowledge()[old(self).keys().spec_key(situation)].bounds,
            ),
        ensures
            entries_wf(final(self).knowledge(), final(self).keys()),
            final(self).keys() == old(self).keys(),
            final(self).knowledge() == old(self).knowledge().insert(
                old(self).keys().spec_key(situation),
                updated,
            ),
    ;

    /// The number of positions of which something is known.
    fn nodes_generated(&self) -> (r: usize)
        ensures
            r == self.knowledge().len(),
    ;
}


/// A cache with a hash map from the keys to what is known.
pub struct FastOpenSituationSolverCache {
    open_situation_to_key: SituationKey,
    key_to_bounds: HashMap<u32, BoundsAndMaybePreference>,
}

impl FastOpenSituationSolverCache {
    /// A cache that knows the positions without cards: nothing is to be had in them.
    pub fn new(open_situation_to_key: SituationKey, game_type: GameType) -> (r:
        FastOpenSituationSolverCache)
        requires
            open_situation_to_key.wf(),
        ensures
            entries_wf(r.knowledge(), r.keys()),
            r.keys() == open_situation_to_key,
            knowledge_is_sound(r.knowledge(), r.keys(), game_type),
            forall|role: Role|
                r.knowledge().contains_key(
                    #[trigger] open_situation_to_key.spec_key(OpenSituation::spec_leaf(role)),
                ),
            forall|key: u32| #[trigger]
                r.knowledge().contains_key(key) ==> r.knowledge()[key] == (
                BoundsAndMaybePreference {
                    bounds: Bounds {
                        lower: TrickYield::spec_zero_tricks(),
                        upper: TrickYield::spec_zero_tricks(),
                    },
                    maybe_preference: None,
                }),
    {
        broadcast use vstd::std_specs::hash::group_hash_axioms;

        let mut key_to_bounds: HashMap<u32, BoundsAndMaybePreference> = HashMap::new();

        let strict_bounds_leaf = Bounds::new(TrickYield::zero_tricks(), TrickYield::zero_tricks());
        let entry = BoundsAndMaybePreference::new(strict_bounds_leaf, None);

        key_to_bounds.insert(open_situation_to_key.key(OpenSituation::leaf(Role::Declarer)), entry);
        key_to_bounds.insert(
            open_situation_to_key.key(OpenSituation::leaf(Role::FirstDefender)),
            entry,
        );
        key_to_bounds.insert(
            open_situation_to_key.key(OpenSituation::leaf(Role::SecondDefender)),
            entry,
        );
        proof {
            let knowledge = key_to_bounds@;
            let keys = open_situation_to_key;
            reveal(knowledge_is_sound);
            assert forall|situation: OpenSituation|
                {
                    &&& keys.covers(situation)
                    &&& situation.wf()
                    &&& !situation.spec_is_trick_in_progress()
                    &&& knowledge.contains_key(#[trigger] keys.spec_key(situation))
                } implies is_sound_for(
                knowledge[keys.spec_key(situation)].bounds,
                situation,
                game_type,
            ) by {
                let key = keys.spec_key(situation);
                let role = if key == keys.spec_key(OpenSituation::spec_leaf(Role::Declarer)) {
                    Role::Declarer
                } else if key == keys.spec_key(OpenSituation::spec_leaf(Role::FirstDefender)) {
                    Role::FirstDefender
                } else {
                    Role::SecondDefender
                };
                keys.lemma_covers_leaf(role);
                keys.lemma_key_tells_position(situation, OpenSituation::spec_leaf(role));
                situation.lemma_optimal_yield(game_type);
                crate::cards::Cards::lemma_empty(situation.spec_next_possible_plays(
                    game_type,
                ).spec_lowest());
                OpenSituation::lemma_new(
                    Cards::spec_empty(),
                    Cards::spec_empty(),
                    Cards::spec_empty(),
                    PartialTrick::spec_empty(),
                    role,
                );
                situation.spec_next_possible_plays(game_type).lemma_is_empty();
            }
        }

        FastOpenSituationSolverCache { open_situation_to_key, key_to_bounds }
    }
}

impl OpenSituationSolverCache for FastOpenSituationSolverCache {
    closed spec fn knowledge(&self) -> Map<u32, BoundsAndMaybePreference> {
        self.key_to_bounds@
    }

    closed spec fn keys(&self) -> SituationKey {
        self.open_situation_to_key
    }

    fn get_current_knowledge(&mut self, situation: OpenSituation, game_type: GameType) -> (r:
        BoundsAndMaybePreference) {
        broadcast use vstd::std_specs::hash::group_hash_axioms;

        let key = self.open_situation_to_key.key(situation);
        match self.key_to_bounds.get(&key) {
            Some(entry) => {
                let entry = *entry;
                proof {
                    assert(self.knowledge().insert(key, entry) =~= self.knowledge());
                }
                entry
            },
            None => {
                let entry = BoundsAndMaybePreference::new(situation.quick_bounds(game_type), None);
                self.key_to_bounds.insert(key, entry);
                entry
            },
        }
    }

    fn update_existing(
        &mut self,
        situation: OpenSituation,
        updated: BoundsAndMaybePreference,
        game_type: GameType,
    ) {
        broadcast use vstd::std_specs::hash::group_hash_axioms;

        let key = self.open_situation_to_key.key(situation);
        self.key_to_bounds.insert(key, updated);
    }

    fn nodes_generated(&self) -> (r: usize) {
        broadcast use vstd::std_specs::hash::group_hash_axioms;

        self.key_to_bounds.len()
    }
}


/// A cache that keeps, beside what is known of a position, the position that it
/// was entered for.
pub struct DebugOpenSituationSolverCache {
    open_situation_to_key: SituationKey,
    key_to_bounds: HashMap<u32, (BoundsAndMaybePreference, OpenSituation)>,
}

impl DebugOpenSituationSolverCache {
    /// A cache that knows nothing yet.
    pub fn new(open_situation_to_key: SituationKey) -> (r: DebugOpenSituationSolverCache)
        requires
            open_situation_to_key.wf(),
        ensures
            entries_wf(r.knowledge(), r.keys()),
            r.keys() == open_situation_to_key,
            r.knowledge() == Map::<u32, BoundsAndMaybePreference>::empty(),
            r.positions() == Map::<u32, OpenSituation>::empty(),
            forall|game_type: GameType| #[trigger]
                knowledge_is_sound(r.knowledge(), r.keys(), game_type),
    {
        broadcast use vstd::std_specs::hash::group_hash_axioms;

        let result = DebugOpenSituationSolverCache {
            open_situation_to_key,
            key_to_bounds: HashMap::new(),
        };
        proof {
            assert(result.knowledge() =~= Map::<u32, BoundsAndMaybePreference>::empty());
            assert(result.positions() =~= Map::<u32, OpenSituation>::empty());
            reveal(knowledge_is_sound);
        }
        result
    }

    /// The positions that the entries were made for, by their keys.
    pub closed spec fn positions(&self) -> Map<u32, OpenSituation> {
        self.key_to_bounds@.map_values(
            |entry: (BoundsAndMaybePreference, OpenSituation)| entry.1,
        )
    }
}

impl OpenSituationSolverCache for DebugOpenSituationSolverCache {
    closed spec fn knowledge(&self) -> Map<u32, BoundsAndMaybePreference> {
        self.key_to_bounds@.map_values(
            |entry: (BoundsAndMaybePreference, OpenSituation)| entry.0,
        )
    }

    closed spec fn keys(&self) -> SituationKey {
        self.open_situation_to_key
    }

    fn get_current_knowledge(&mut self, situation: OpenSituation, game_type: GameType) -> (r:
        BoundsAndMaybePreference) {
        broadcast use vstd::std_specs::hash::group_hash_axioms;

        let key = self.open_situation_to_key.key(situation);
        match self.key_to_bounds.get(&key) {
            Some(entry) => {
                let entry = entry.0;
                proof {
                    assert(self.knowledge().insert(key, entry) =~= self.knowledge());
                }
                entry
            },
            None => {
                let entry = BoundsAndMaybePreference::new(situation.quick_bounds(game_type), None);
                self.key_to_bounds.insert(key, (entry, situation));
                proof {
                    assert(self.knowledge() =~= old(self).knowledge().insert(key, entry));
                }
                entry
            },
        }
    }

    fn update_existing(
        &mut self,
        situation: OpenSituation,
        updated: BoundsAndMaybePreference,
        game_type: GameType,
    ) {
        broadcast use vstd::std_specs::hash::group_hash_axioms;

        let key = self.open_situation_to_key.key(situation);
        self.key_to_bounds.insert(key, (updated, situation));
        proof {
            assert(self.knowledge() =~= old(self).knowledge().insert(key, updated));
        }
    }

    fn nodes_generated(&self) -> (r: usize) {
        broadcast use vstd::std_specs::hash::group_hash_axioms;

        proof {
            assert(self.knowledge().dom() =~= self.key_to_bounds@.dom());
        }
        self.key_to_bounds.len()
    }
}

} // verus!
