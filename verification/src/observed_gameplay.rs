use vstd::prelude::*;
use crate::bidding_role::BiddingRole;
use crate::card::{Card, CardType};
use crate::cards::Cards;
use crate::deal::Deal;
use crate::dist::UnknownCards;
use crate::game_type::GameType;
use crate::monte_carlo::Contract;
use crate::partial_trick::PartialTrick;
use crate::position::Position;
use crate::situation::OpenSituation;
use crate::trick::Trick;
use crate::trick_yield::YieldSoFar;

verus! {

/// The cards that were seen being played: the tricks that are done, and the
/// cards on the table.
pub struct ObservedPlayedCards {
    done_tricks: Vec<Trick>,
    current_trick: PartialTrick,
    // Follows from the other two, and is kept to be at hand.
    active_role: BiddingRole,
}

/// A position with what belongs to it in the game: what the declarer has got
/// so far, and with or without how many matadors he plays.
pub struct OpenGameState {
    pub open_situation: OpenSituation,
    pub yield_so_far: YieldSoFar,
    pub matadors: Option<u8>,
}

/// The position and the declarer's yield after the cards of the list have been
/// played from a position, one after the other; nothing if one of them may
/// not be played when its turn comes.
pub open spec fn replayed(
    open_situation: OpenSituation,
    yield_so_far: YieldSoFar,
    cards: Seq<Card>,
    game_type: GameType,
) -> Option<(OpenSituation, YieldSoFar)>
    decreases cards.len(),
{
    if cards.len() == 0 {
        Some((open_situation, yield_so_far))
    } else if !open_situation.spec_next_possible_plays(game_type).spec_contains(cards[0]) {
        None
    } else {
        replayed(
            open_situation.spec_play_card(cards[0], game_type),
            yield_so_far.spec_add(open_situation.yield_of(cards[0], game_type)),
            cards.subrange(1, cards.len() as int),
            game_type,
        )
    }
}

/// The cards of a list of tricks in the order in which they were played.
pub open spec fn cards_of_tricks(tricks: Seq<Trick>) -> Seq<Card>
    decreases tricks.len(),
{
    if tricks.len() == 0 {
        Seq::empty()
    } else {
        cards_of_tricks(tricks.drop_last()) + seq![
            tricks.last().spec_first(),
            tricks.last().spec_second(),
            tricks.last().spec_third(),
        ]
    }
}

/// Replaying a list of cards and then one more card is replaying the longer
/// list.
pub proof fn lemma_replayed_one_more(
    open_situation: OpenSituation,
    yield_so_far: YieldSoFar,
    cards: Seq<Card>,
    card: Card,
    game_type: GameType,
)
    ensures
        replayed(open_situation, yield_so_far, cards.push(card), game_type) == match replayed(
            open_situation,
            yield_so_far,
            cards,
            game_type,
        ) {
            None => None,
            Some((after, so_far)) => if after.spec_next_possible_plays(game_type).spec_contains(
                card,
            ) {
                Some(
                    (
                        after.spec_play_card(card, game_type),
                        so_far.spec_add(after.yield_of(card, game_type)),
                    ),
                )
            } else {
                None
            },
        },
    decreases cards.len(),
{
    if cards.len() == 0 {
        assert(cards.push(card).subrange(1, 1) =~= Seq::<Card>::empty());
        assert(cards.push(card)[0] == card);
    } else {
        assert(cards.push(card)[0] == cards[0]);
        assert(cards.push(card).subrange(1, cards.len() as int + 1) =~= cards.subrange(
            1,
            cards.len() as int,
        ).push(card));
        if open_situation.spec_next_possible_plays(game_type).spec_contains(cards[0]) {
            lemma_replayed_one_more(
                open_situation.spec_play_card(cards[0], game_type),
                yield_so_far.spec_add(open_situation.yield_of(cards[0], game_type)),
                cards.subrange(1, cards.len() as int),
                card,
                game_type,
            );
        }
    }
}

impl ObservedPlayedCards {
    /// The tricks that are done.
    pub closed spec fn spec_done_tricks(&self) -> Seq<Trick> {
        self.done_tricks@
    }

    /// The cards on the table.
    pub closed spec fn spec_current_trick(&self) -> PartialTrick {
        self.current_trick
    }

    pub closed spec fn spec_active_role(&self) -> BiddingRole {
        self.active_role
    }

    /// All cards that were played, in the order in which they were played.
    pub open spec fn played(&self) -> Seq<Card> {
        cards_of_tricks(self.spec_done_tricks()) + self.spec_current_trick()@
    }

    /// The tricks and the table hold no card twice within them.
    pub open spec fn wf(&self) -> bool {
        &&& self.spec_current_trick().wf()
        &&& forall|i: int|
            0 <= i < self.spec_done_tricks().len() ==> (#[trigger] self.spec_done_tricks()[i]).wf()
    }

    /// Nothing was played yet, and the first receiver leads.
    pub fn initial() -> (r: ObservedPlayedCards)
        ensures
            r.wf(),
            r.spec_done_tricks() == Seq::<Trick>::empty(),
            r.spec_current_trick() == PartialTrick::spec_empty(),
            r.spec_active_role() == BiddingRole::FirstReceiver,
    {
        ObservedPlayedCards {
            done_tricks: Vec::new(),
            current_trick: PartialTrick::empty(),
            active_role: BiddingRole::FIRST_ACTIVE_PLAYER,
        }
    }

    /// Whether the cards can have been played from the deal: each of them may
    /// be played when its turn comes.
    pub open spec fn fits(&self, deal: Deal, bidding_winner: BiddingRole, game_type: GameType) -> bool {
        replayed(
            OpenSituation::spec_initial(deal, bidding_winner),
            YieldSoFar {
                card_points: crate::card_points::CardPoints(
                    deal.spec_skat().spec_to_points() as u8,
                ),
                number_of_tricks: 0,
            },
            self.played(),
            game_type,
        ) is Some
    }

    /// The deal with the cards played from it, if they can have been played
    /// from it: the position, what the declarer has got so far, the skat
    /// counted, and his matadors.
    pub fn try_to_open_game_state(
        &self,
        deal: Deal,
        bidding_winner: BiddingRole,
        game_type: GameType,
    ) -> (r: Option<OpenGameState>)
        requires
            deal.wf(),
        ensures
            r is Some == self.fits(deal, bidding_winner, game_type),
            r matches Some(state) ==> {
                &&& Some((state.open_situation, state.yield_so_far)) == replayed(
                    OpenSituation::spec_initial(deal, bidding_winner),
                    YieldSoFar {
                        card_points: crate::card_points::CardPoints(
                            deal.spec_skat().spec_to_points() as u8,
                        ),
                        number_of_tricks: 0,
                    },
                    self.played(),
                    game_type,
                )
                &&& state.open_situation.wf()
            },
    {
        let matadors = deal.matadors(bidding_winner, game_type);

        let mut open_situation = OpenSituation::initial(deal, bidding_winner);
        let mut yield_so_far = deal.initial_yield();
        let ghost start = open_situation;
        let ghost start_yield = yield_so_far;
        let ghost mut so_far: Seq<Card> = Seq::empty();

        let mut i: usize = 0;
        while i < self.done_tricks.len()
            invariant
                i <= self.done_tricks@.len(),
                start == OpenSituation::spec_initial(deal, bidding_winner),
                start_yield == (YieldSoFar {
                    card_points: crate::card_points::CardPoints(
                        deal.spec_skat().spec_to_points() as u8,
                    ),
                    number_of_tricks: 0,
                }),
                so_far == cards_of_tricks(self.done_tricks@.take(i as int)),
                replayed(start, start_yield, so_far, game_type) == Some(
                    (open_situation, yield_so_far),
                ),
                open_situation.wf(),
            decreases self.done_tricks@.len() - i,
        {
            let trick = self.done_tricks[i];
            let ghost longer = so_far.push(trick.spec_first()).push(trick.spec_second()).push(
                trick.spec_third(),
            );
            proof {
                assert(self.done_tricks@.take(i + 1).drop_last() =~= self.done_tricks@.take(
                    i as int,
                ));
                assert(longer =~= so_far + seq![
                    trick.spec_first(),
                    trick.spec_second(),
                    trick.spec_third(),
                ]);
                lemma_replayed_one_more(start, start_yield, so_far, trick.spec_first(), game_type);
            }
            if !open_situation.next_possible_plays(game_type).contains(trick.first()) {
                proof {
                    lemma_replayed_one_more(
                        start,
                        start_yield,
                        so_far.push(trick.spec_first()),
                        trick.spec_second(),
                        game_type,
                    );
                    lemma_replayed_one_more(
                        start,
                        start_yield,
                        so_far.push(trick.spec_first()).push(trick.spec_second()),
                        trick.spec_third(),
                        game_type,
                    );
                    self.lemma_cut_short(i as int, start, start_yield, game_type);
                }
                return None;
            }
            yield_so_far.add_assign(open_situation.play_card(trick.first(), game_type));
            proof {
                lemma_replayed_one_more(
                    start,
                    start_yield,
                    so_far.push(trick.spec_first()),
                    trick.spec_second(),
                    game_type,
                );
            }
            if !open_situation.next_possible_plays(game_type).contains(trick.second()) {
                proof {
                    lemma_replayed_one_more(
                        start,
                        start_yield,
                        so_far.push(trick.spec_first()).push(trick.spec_second()),
                        trick.spec_third(),
                        game_type,
                    );
                    self.lemma_cut_short(i as int, start, start_yield, game_type);
                }
                return None;
            }
            yield_so_far.add_assign(open_situation.play_card(trick.second(), game_type));
            proof {
                lemma_replayed_one_more(
                    start,
                    start_yield,
                    so_far.push(trick.spec_first()).push(trick.spec_second()),
                    trick.spec_third(),
                    game_type,
                );
            }
            if !open_situation.next_possible_plays(game_type).contains(trick.third()) {
                proof {
                    self.lemma_cut_short(i as int, start, start_yield, game_type);
                }
                return None;
            }
            yield_so_far.add_assign(open_situation.play_card(trick.third(), game_type));
            proof {
                so_far = longer;
            }
            i += 1;
        }
        proof {
            assert(self.done_tricks@.take(i as int) =~= self.done_tricks@);
            self.current_trick.lemma_len();
        }

        if let Some(card) = self.current_trick.first() {
            proof {
                lemma_replayed_one_more(start, start_yield, so_far, card, game_type);
                if self.current_trick@.len() == 1 {
                    assert(self.played() =~= so_far.push(card));
                } else {
                    let second = self.current_trick@[1];
                    assert(self.played() =~= so_far.push(card).push(second));
                    lemma_replayed_one_more(
                        start,
                        start_yield,
                        so_far.push(card),
                        second,
                        game_type,
                    );
                }
            }
            if !open_situation.next_possible_plays(game_type).contains(card) {
                return None;
            }
            yield_so_far.add_assign(open_situation.play_card(card, game_type));
            if let Some(card) = self.current_trick.second() {
                if !open_situation.next_possible_plays(game_type).contains(card) {
                    return None;
                }
                yield_so_far.add_assign(open_situation.play_card(card, game_type));
            }
        } else {
            proof {
                assert(self.played() =~= so_far);
            }
        }

        Some(OpenGameState { open_situation, yield_so_far, matadors })
    }

    /// Cards that cannot be replayed up to a trick cannot be replayed at all.
    proof fn lemma_cut_short(
        &self,
        tricks: int,
        start: OpenSituation,
        start_yield: YieldSoFar,
        game_type: GameType,
    )
        requires
            0 <= tricks < self.done_tricks@.len(),
            replayed(
                start,
                start_yield,
                cards_of_tricks(self.done_tricks@.take(tricks + 1)),
                game_type,
            ) is None,
        ensures
            replayed(start, start_yield, self.played(), game_type) is None,
    {
        let head = cards_of_tricks(self.done_tricks@.take(tricks + 1));
        let all = self.played();
        ObservedPlayedCards::lemma_prefix_of_tricks(self.done_tricks@, tricks + 1);
        let tail = all.subrange(head.len() as int, all.len() as int);
        assert(all =~= head + tail);
        lemma_replayed_more(start, start_yield, head, tail, game_type);
    }

    proof fn lemma_prefix_of_tricks(tricks: Seq<Trick>, count: int)
        requires
            0 <= count <= tricks.len(),
        ensures
            cards_of_tricks(tricks.take(count)).is_prefix_of(cards_of_tricks(tricks)),
        decreases tricks.len() - count,
    {
        if count == tricks.len() {
            assert(tricks.take(count) =~= tricks);
        } else {
            ObservedPlayedCards::lemma_prefix_of_tricks(tricks, count + 1);
            assert(tricks.take(count + 1).drop_last() =~= tricks.take(count));
        }
    }

    /// The deal with the cards played from it, for a deal from which they can
    /// have been played.
    pub fn to_open_game_state(&self, deal: Deal, bidding_winner: BiddingRole, game_type: GameType) -> (r:
        OpenGameState)
        requires
            deal.wf(),
            self.fits(deal, bidding_winner, game_type),
        ensures
            Some((r.open_situation, r.yield_so_far)) == replayed(
                OpenSituation::spec_initial(deal, bidding_winner),
                YieldSoFar {
                    card_points: crate::card_points::CardPoints(
                        deal.spec_skat().spec_to_points() as u8,
                    ),
                    number_of_tricks: 0,
                },
                self.played(),
                game_type,
            ),
            r.open_situation.wf(),
    {
        match self.try_to_open_game_state(deal, bidding_winner, game_type) {
            Some(state) => state,
            None => vstd::pervasive::unreached(),
        }
    }

    #[verifier::when_used_as_spec(spec_active_role)]
    pub fn active_role(&self) -> (r: BiddingRole)
        ensures
            r == self.spec_active_role(),
    {
        self.active_role
    }

    /// The cards on the table.
    #[verifier::when_used_as_spec(spec_current_trick)]
    pub fn current_trick(&self) -> (r: PartialTrick)
        ensures
            r == self.spec_current_trick(),
    {
        self.current_trick
    }

    /// How many tricks are done.
    pub fn number_of_done_tricks(&self) -> (r: usize)
        ensures
            r == self.spec_done_tricks().len(),
    {
        self.done_tricks.len()
    }

    /// One more card was played: it goes on the table, and the turn passes on.
    /// The third card of a trick makes the trick done, and its winner leads.
    pub fn observe_play(&mut self, card: Card, game_type: GameType)
        requires
            old(self).wf(),
            !old(self).spec_current_trick()@.contains(card),
        ensures
            final(self).wf(),
            final(self).played() == old(self).played().push(card),
            final(self).spec_current_trick() == old(self).spec_current_trick().spec_with(card),
            old(self).spec_current_trick()@.len() < 2 ==> {
                &&& final(self).spec_done_tricks() == old(self).spec_done_tricks()
                &&& final(self).spec_active_role() == old(self).spec_active_role().spec_next()
            },
            old(self).spec_current_trick()@.len() == 2 ==> {
                let trick = Trick::spec_new(
                    old(self).spec_current_trick()@[0],
                    old(self).spec_current_trick()@[1],
                    card,
                );
                &&& final(self).spec_done_tricks() == old(self).spec_done_tricks().push(trick)
                &&& final(self).spec_active_role() == trick.spec_winner_position(
                    game_type,
                ).spec_role(old(self).spec_active_role().spec_next())
            },
    {
        self.active_role = self.active_role.next();
        let ghost table = self.current_trick@;

        if let Some(trick) = self.current_trick.add(card) {
            self.active_role = trick.winner_position(game_type).role(self.active_role);
            self.done_tricks.push(trick);
            proof {
                assert(self.done_tricks@.drop_last() =~= old(self).done_tricks@);
                assert(table =~= seq![table[0], table[1]]);
                assert(self.played() =~= old(self).played().push(card));
            }
        } else {
            proof {
                assert(self.played() =~= old(self).played().push(card));
            }
        }
    }
}

/// Cards that cannot be replayed cannot be replayed with more cards after
/// them.
pub proof fn lemma_replayed_more(
    open_situation: OpenSituation,
    yield_so_far: YieldSoFar,
    cards: Seq<Card>,
    more: Seq<Card>,
    game_type: GameType,
)
    requires
        replayed(open_situation, yield_so_far, cards, game_type) is None,
    ensures
        replayed(open_situation, yield_so_far, cards + more, game_type) is None,
    decreases cards.len(),
{
    if cards.len() > 0 {
        assert((cards + more)[0] == cards[0]);
        assert((cards + more).subrange(1, (cards + more).len() as int) =~= cards.subrange(
            1,
            cards.len() as int,
        ) + more);
        if open_situation.spec_next_possible_plays(game_type).spec_contains(cards[0]) {
            lemma_replayed_more(
                open_situation.spec_play_card(cards[0], game_type),
                yield_so_far.spec_add(open_situation.yield_of(cards[0], game_type)),
                cards.subrange(1, cards.len() as int),
                more,
                game_type,
            );
        }
    }
}


/// Where a card can have been when the game began.
#[derive(Clone, Copy, Debug, PartialEq, Eq, Structural)]
pub enum UnknownCardPosition {
    Hand(BiddingRole),
    Skat,
}

impl UnknownCardPosition {
    pub open spec fn spec_id(self) -> int {
        match self {
            UnknownCardPosition::Hand(BiddingRole::FirstReceiver) => 0,
            UnknownCardPosition::Hand(BiddingRole::FirstCaller) => 1,
            UnknownCardPosition::Hand(BiddingRole::SecondCaller) => 2,
            UnknownCardPosition::Skat => 3,
        }
    }

    /// The place of the position in the lists of what is known.
    pub fn id(self) -> (r: usize)
        ensures
            r == self.spec_id(),
            r < 4,
    {
        match self {
            UnknownCardPosition::Hand(BiddingRole::FirstReceiver) => 0,
            UnknownCardPosition::Hand(BiddingRole::FirstCaller) => 1,
            UnknownCardPosition::Hand(BiddingRole::SecondCaller) => 2,
            UnknownCardPosition::Skat => 3,
        }
    }
}

/// What is known of where the cards were when the game began: for the three
/// hands and the skat, in this order, the cards that are known to have been
/// there, and what is known of the others.
pub struct CardKnowledge {
    unknown_cards: Vec<UnknownCards>,
    observed_cards: Vec<Cards>,
}

/// What a `CardKnowledge` holds.
pub struct CardKnowledgeView {
    pub unknown_cards: Seq<UnknownCards>,
    pub observed_cards: Seq<Cards>,
}

impl CardKnowledgeView {
    /// Both lists have the four places.
    pub open spec fn wf(self) -> bool {
        self.unknown_cards.len() == 4 && self.observed_cards.len() == 4
    }

    /// Nothing is known.
    pub open spec fn no_knowledge() -> CardKnowledgeView {
        CardKnowledgeView {
            unknown_cards: seq![
                UnknownCards::spec_unrestricted(10),
                UnknownCards::spec_unrestricted(10),
                UnknownCards::spec_unrestricted(10),
                UnknownCards::spec_unrestricted(2),
            ],
            observed_cards: seq![
                Cards::spec_empty(),
                Cards::spec_empty(),
                Cards::spec_empty(),
                Cards::spec_empty(),
            ],
        }
    }

    /// The card is now known to have been at the position, and one card less
    /// is unknown there.
    pub open spec fn learn(self, card: Card, position: UnknownCardPosition) -> CardKnowledgeView {
        let id = position.spec_id();
        CardKnowledgeView {
            unknown_cards: self.unknown_cards.update(
                id,
                self.unknown_cards[id].spec_without(1),
            ),
            observed_cards: self.observed_cards.update(
                id,
                self.observed_cards[id].spec_or(Cards::spec_just(card)),
            ),
        }
    }

    /// A player has played a card into a trick of the given type. If cards of
    /// his are still unknown, the card is now known to have been his; and if
    /// it is not of the trick's type, none of his unknown cards is.
    pub open spec fn learn_from_play(
        self,
        card: Card,
        player: BiddingRole,
        trick_type: CardType,
        game_type: GameType,
    ) -> CardKnowledgeView {
        let position = UnknownCardPosition::Hand(player);
        let id = position.spec_id();
        if self.unknown_cards[id].spec_is_empty() {
            self
        } else {
            let learned = self.learn(card, position);
            if card.spec_card_type(game_type) != trick_type {
                CardKnowledgeView {
                    unknown_cards: learned.unknown_cards.update(
                        id,
                        learned.unknown_cards[id].spec_retrict(trick_type),
                    ),
                    ..learned
                }
            } else {
                learned
            }
        }
    }

    /// What is learned from a trick that the given player led.
    pub open spec fn learn_from_trick(
        self,
        trick: Trick,
        first_player: BiddingRole,
        game_type: GameType,
    ) -> CardKnowledgeView {
        let trick_type = trick.spec_first().spec_card_type(game_type);
        self.learn_from_play(trick.spec_first(), first_player, trick_type, game_type).learn_from_play(
            trick.spec_second(),
            first_player.spec_next(),
            trick_type,
            game_type,
        ).learn_from_play(
            trick.spec_third(),
            first_player.spec_next().spec_next(),
            trick_type,
            game_type,
        )
    }

    /// What is learned from the tricks of a game, from the first on.
    pub open spec fn learn_from_tricks(self, tricks: Seq<Trick>, game_type: GameType) -> CardKnowledgeView
        decreases tricks.len(),
    {
        if tricks.len() == 0 {
            self
        } else {
            self.learn_from_tricks(tricks.drop_last(), game_type).learn_from_trick(
                tricks.last(),
                leader_after(tricks.drop_last(), game_type),
                game_type,
            )
        }
    }

    /// What is learned from the cards on the table, which the given player led.
    pub open spec fn learn_from_table(
        self,
        table: Seq<Card>,
        first_player: BiddingRole,
        game_type: GameType,
    ) -> CardKnowledgeView {
        if table.len() == 0 {
            self
        } else {
            let trick_type = table[0].spec_card_type(game_type);
            let first = self.learn_from_play(table[0], first_player, trick_type, game_type);
            if table.len() == 1 {
                first
            } else {
                first.learn_from_play(table[1], first_player.spec_next(), trick_type, game_type)
            }
        }
    }

    /// What is learned from all cards that were seen being played.
    pub open spec fn apply(self, observed: &ObservedPlayedCards, game_type: GameType) -> CardKnowledgeView {
        self.learn_from_tricks(observed.spec_done_tricks(), game_type).learn_from_table(
            observed.spec_current_trick()@,
            leader_after(observed.spec_done_tricks(), game_type),
            game_type,
        )
    }

    /// The cards of the list are now known to have been at the position, from
    /// the first of the list on.
    pub open spec fn learn_all(self, cards: Seq<Card>, position: UnknownCardPosition) -> CardKnowledgeView
        decreases cards.len(),
    {
        if cards.len() == 0 {
            self
        } else {
            self.learn_all(cards.drop_last(), position).learn(cards.last(), position)
        }
    }
}

/// Who leads after the tricks of the list: the first receiver at first, then
/// the winner of the last trick.
pub open spec fn leader_after(tricks: Seq<Trick>, game_type: GameType) -> BiddingRole
    decreases tricks.len(),
{
    if tricks.len() == 0 {
        BiddingRole::FirstReceiver
    } else {
        tricks.last().spec_winner_position(game_type).spec_role(
            leader_after(tricks.drop_last(), game_type),
        )
    }
}

impl View for CardKnowledge {
    type V = CardKnowledgeView;

    closed spec fn view(&self) -> CardKnowledgeView {
        CardKnowledgeView {
            unknown_cards: self.unknown_cards@,
            observed_cards: self.observed_cards@,
        }
    }
}

impl CardKnowledge {
    pub open spec fn wf(&self) -> bool {
        self@.wf()
    }

    /// No card is known to have been at two places.
    pub open spec fn is_consistent(&self) -> bool {
        let observed = self@.observed_cards;
        &&& observed[0].disjoint(observed[1])
        &&& observed[0].spec_or(observed[1]).disjoint(observed[2])
        &&& observed[0].spec_or(observed[1]).spec_or(observed[2]).disjoint(observed[3])
    }

    /// Whether no card is known to have been at two places.
    pub fn check_consistent(&self) -> (r: bool)
        requires
            self.wf(),
        ensures
            r == self.is_consistent(),
    {
        !self.observed_cards[0].overlaps(self.observed_cards[1]) && !self.observed_cards[0].or(
            self.observed_cards[1],
        ).overlaps(self.observed_cards[2]) && !self.observed_cards[0].or(
            self.observed_cards[1],
        ).or(self.observed_cards[2]).overlaps(self.observed_cards[3])
    }

    /// Learns from the cards that were seen being played, trick by trick.
    pub fn apply(&mut self, observed: &ObservedPlayedCards, game_type: GameType)
        requires
            old(self).wf(),
            observed.wf(),
        ensures
            final(self).wf(),
            final(self)@ == old(self)@.apply(observed, game_type),
    {
        let mut first_player = BiddingRole::FIRST_ACTIVE_PLAYER;
        let mut i: usize = 0;
        while i < observed.done_tricks.len()
            invariant
                i <= observed.done_tricks@.len(),
                observed.wf(),
                self.wf(),
                first_player == leader_after(observed.done_tricks@.take(i as int), game_type),
                self@ == old(self)@.learn_from_tricks(
                    observed.done_tricks@.take(i as int),
                    game_type,
                ),
            decreases observed.done_tricks@.len() - i,
        {
            let trick = observed.done_tricks[i];
            let first_card = trick.first();
            let trick_type = first_card.card_type(game_type);
            proof {
                assert(observed.done_tricks@.take(i + 1).drop_last() =~= observed.done_tricks@.take(
                    i as int,
                ));
                assert(observed.spec_done_tricks()[i as int].wf());
            }

            self.learn_about_if_not_everything_of_that_player_already_known(
                first_card,
                first_player,
                trick_type,
                game_type,
            );

            self.learn_about_if_not_everything_of_that_player_already_known(
                trick.second(),
                first_player.next(),
                trick_type,
                game_type,
            );

            self.learn_about_if_not_everything_of_that_player_already_known(
                trick.third(),
                first_player.next().next(),
                trick_type,
                game_type,
            );

            match trick.winner_position(game_type) {
                Position::Forehand => {},
                Position::Middlehand => first_player = first_player.next(),
                Position::Rearhand => first_player = first_player.next().next(),
            }
            i += 1;
        }
        proof {
            assert(observed.done_tricks@.take(i as int) =~= observed.done_tricks@);
            observed.current_trick.lemma_len();
        }

        if let Some(first_card) = observed.current_trick.first() {
            let trick_type = first_card.card_type(game_type);

            self.learn_about_if_not_everything_of_that_player_already_known(
                first_card,
                first_player,
                trick_type,
                game_type,
            );

            if let Some(second_card) = observed.current_trick.second() {
                self.learn_about_if_not_everything_of_that_player_already_known(
                    second_card,
                    first_player.next(),
                    trick_type,
                    game_type,
                );
            }
        }
    }

    pub open spec fn spec_observed_cards(&self) -> Cards {
        self@.observed_cards[0].spec_or(self@.observed_cards[1]).spec_or(
            self@.observed_cards[2],
        ).spec_or(self@.observed_cards[3])
    }

    /// All cards of which it is known where they were.
    pub fn observed_cards(&self) -> (r: Cards)
        requires
            self.wf(),
            self.is_consistent(),
        ensures
            r == self.spec_observed_cards(),
    {
        self.observed_cards[0].combined_with_disjoint(
            self.observed_cards[1],
        ).combined_with_disjoint(self.observed_cards[2]).combined_with_disjoint(
            self.observed_cards[3],
        )
    }

    /// What is not known, for the three hands and the skat.
    pub fn unknown_cards_slice(&self) -> (r: &[UnknownCards])
        ensures
            r@ == self@.unknown_cards,
    {
        self.unknown_cards.as_slice()
    }

    /// What is known, for the three hands and the skat.
    pub fn observed_cards_array(&self) -> (r: [Cards; 4])
        requires
            self.wf(),
        ensures
            r@ == self@.observed_cards,
    {
        let result = [
            self.observed_cards[0],
            self.observed_cards[1],
            self.observed_cards[2],
            self.observed_cards[3],
        ];
        proof {
            assert(result@ =~= self@.observed_cards);
        }
        result
    }

    /// Nothing is known.
    pub fn no_knowledge() -> (r: CardKnowledge)
        ensures
            r.wf(),
            r@ == CardKnowledgeView::no_knowledge(),
    {
        let mut unknown_cards: Vec<UnknownCards> = Vec::new();
        unknown_cards.push(UnknownCards::unknown_hand());
        unknown_cards.push(UnknownCards::unknown_hand());
        unknown_cards.push(UnknownCards::unknown_hand());
        unknown_cards.push(UnknownCards::unknown_skat());
        let mut observed_cards: Vec<Cards> = Vec::new();
        observed_cards.push(Cards::empty());
        observed_cards.push(Cards::empty());
        observed_cards.push(Cards::empty());
        observed_cards.push(Cards::empty());
        let result = CardKnowledge { unknown_cards, observed_cards };
        proof {
            assert(result@.unknown_cards =~= CardKnowledgeView::no_knowledge().unknown_cards);
            assert(result@.observed_cards =~= CardKnowledgeView::no_knowledge().observed_cards);
        }
        result
    }

    /// The card is now known to have been at the position, of which a card
    /// was still unknown.
    pub fn learn_about_where_the_card_initially_was_without_any_further_inferences(
        &mut self,
        card: Card,
        position: UnknownCardPosition,
    )
        requires
            old(self).wf(),
            old(self)@.unknown_cards[position.spec_id()].number >= 1,
        ensures
            final(self).wf(),
            final(self)@ == old(self)@.learn(card, position),
    {
        let id = position.id();
        let mut observed = self.observed_cards[id];
        observed.add_new(card);
        self.observed_cards.set(id, observed);
        let mut unknown = self.unknown_cards[id];
        unknown.remove(1);
        self.unknown_cards.set(id, unknown);
    }

    /// A player has played a card into a trick of the given type. If cards of
    /// his are still unknown, the card is now known to have been his; and if
    /// it is not of the trick's type, none of his unknown cards is.
    pub fn learn_about_if_not_everything_of_that_player_already_known(
        &mut self,
        card: Card,
        bidding_role_of_player_with_this_card: BiddingRole,
        trick_type: CardType,
        game_type: GameType,
    )
        requires
            old(self).wf(),
        ensures
            final(self).wf(),
            final(self)@ == old(self)@.learn_from_play(
                card,
                bidding_role_of_player_with_this_card,
                trick_type,
                game_type,
            ),
    {
        let position = UnknownCardPosition::Hand(bidding_role_of_player_with_this_card);

        if self.unknown_cards[position.id()].is_empty() {
            return ;
        }
        self.learn_about_where_the_card_initially_was_without_any_further_inferences(
            card,
            position,
        );

        if card.card_type(game_type) != trick_type {
            let id = position.id();
            let mut unknown = self.unknown_cards[id];
            unknown.retrict(trick_type);
            self.unknown_cards.set(id, unknown);
        }
    }

    /// The cards of the set are now known to have been at the position.
    fn learn_all(&mut self, cards: Cards, position: UnknownCardPosition)
        requires
            old(self).wf(),
            cards.spec_len() <= old(self)@.unknown_cards[position.spec_id()].number,
        ensures
            final(self).wf(),
            final(self)@ == old(self)@.learn_all(cards.spec_to_seq(), position),
            final(self)@.unknown_cards[position.spec_id()].number + cards.spec_len() == old(
                self,
            )@.unknown_cards[position.spec_id()].number,
            forall|other: int|
                0 <= other < 4 && other != position.spec_id() ==> final(self)@.unknown_cards[other]
                    == old(self)@.unknown_cards[other],
    {
        let list = cards.to_vec();
        proof {
            cards.lemma_to_seq(list@);
        }
        let mut i: usize = 0;
        while i < list.len()
            invariant
                i <= list@.len(),
                list@.len() == cards.spec_len(),
                list@ == cards.spec_to_seq(),
                cards.spec_len() <= old(self)@.unknown_cards[position.spec_id()].number,
                self.wf(),
                self@ == old(self)@.learn_all(list@.take(i as int), position),
                self@.unknown_cards[position.spec_id()].number + i == old(
                    self,
                )@.unknown_cards[position.spec_id()].number,
                forall|other: int|
                    0 <= other < 4 && other != position.spec_id() ==> self@.unknown_cards[other]
                        == old(self)@.unknown_cards[other],
            decreases list@.len() - i,
        {
            proof {
                assert(list@.take(i + 1).drop_last() =~= list@.take(i as int));
            }
            self.learn_about_where_the_card_initially_was_without_any_further_inferences(
                list[i],
                position,
            );
            i += 1;
        }
        proof {
            assert(list@.take(i as int) =~= list@);
        }
    }

    /// What an observer knows before the first card: his own hand; the skat
    /// if he has seen it; and the declarer's hand if it lies open and is not
    /// his own.
    pub open spec fn spec_initial(
        hand: Cards,
        skat_if_known: Option<Cards>,
        revealed_if_known_and_not_own_hand: Option<Cards>,
        bidding_role: BiddingRole,
        bidding_winner: BiddingRole,
    ) -> CardKnowledgeView {
        let own = CardKnowledgeView::no_knowledge().learn_all(
            hand.spec_to_seq(),
            UnknownCardPosition::Hand(bidding_role),
        );
        let with_skat = match skat_if_known {
            Some(skat) => own.learn_all(skat.spec_to_seq(), UnknownCardPosition::Skat),
            None => own,
        };
        match revealed_if_known_and_not_own_hand {
            Some(revealed) => with_skat.learn_all(
                revealed.spec_to_seq(),
                UnknownCardPosition::Hand(bidding_winner),
            ),
            None => with_skat,
        }
    }

    pub fn initial(
        hand: Cards,
        skat_if_known: Option<Cards>,
        revealed_if_known_and_not_own_hand: Option<Cards>,
        bidding_role: BiddingRole,
        bidding_winner: BiddingRole,
    ) -> (r: CardKnowledge)
        requires
            hand.spec_len() <= 10,
            skat_if_known matches Some(skat) ==> skat.spec_len() <= 2,
            revealed_if_known_and_not_own_hand matches Some(revealed) ==> revealed.spec_len() <= 10
                && bidding_role != bidding_winner,
        ensures
            r.wf(),
            r@ == CardKnowledge::spec_initial(
                hand,
                skat_if_known,
                revealed_if_known_and_not_own_hand,
                bidding_role,
                bidding_winner,
            ),
    {
        let mut result = CardKnowledge::no_knowledge();

        result.learn_all(hand, UnknownCardPosition::Hand(bidding_role));

        if let Some(skat) = skat_if_known {
            result.learn_all(skat, UnknownCardPosition::Skat);
        }
        if let Some(revealed) = revealed_if_known_and_not_own_hand {
            result.learn_all(revealed, UnknownCardPosition::Hand(bidding_winner));
        }
        result
    }

    /// What an observer knows: what he knew before the first card, and what
    /// he has learned from the cards that he has seen being played.
    pub fn from_observation(initial: &ObservedInitialGameState, tricks: &ObservedPlayedCards) -> (r:
        CardKnowledge)
        requires
            initial.wf(),
            tricks.wf(),
        ensures
            r.wf(),
            r@ == CardKnowledge::spec_initial(
                initial.spec_start_hand(),
                initial.spec_skat_if_known(),
                initial.spec_revealed_if_known_and_not_own_hand(),
                initial.spec_bidding_role(),
                initial.spec_bidding_winner(),
            ).apply(tricks, initial.spec_game_type()),
    {
        let mut result = CardKnowledge::initial(
            initial.start_hand,
            initial.skat_if_known,
            initial.revealed_if_known_and_not_own_hand,
            initial.bidding_role,
            initial.bidding_winner,
        );
        result.apply(tricks, initial.game_type);
        result
    }
}

/// What an observer knows before the first card is played.
pub struct ObservedInitialGameState {
    start_hand: Cards,
    skat_if_known: Option<Cards>,
    revealed_if_known_and_not_own_hand: Option<Cards>,
    game_type: GameType,
    bidding_role: BiddingRole,
    bidding_winner: BiddingRole,
    contract: Contract,
}

impl ObservedInitialGameState {
    pub closed spec fn spec_start_hand(&self) -> Cards {
        self.start_hand
    }

    pub closed spec fn spec_skat_if_known(&self) -> Option<Cards> {
        self.skat_if_known
    }

    pub closed spec fn spec_revealed_if_known_and_not_own_hand(&self) -> Option<Cards> {
        self.revealed_if_known_and_not_own_hand
    }

    pub closed spec fn spec_game_type(&self) -> GameType {
        self.game_type
    }

    pub closed spec fn spec_bidding_role(&self) -> BiddingRole {
        self.bidding_role
    }

    pub closed spec fn spec_bidding_winner(&self) -> BiddingRole {
        self.bidding_winner
    }

    pub closed spec fn spec_contract(&self) -> Contract {
        self.contract
    }

    /// What an observer can know before the first card: ten cards of his own;
    /// the two cards of the skat exactly if he is the declarer and does not
    /// play from the hand; the declarer's ten cards, none of them his own,
    /// exactly if he is a defender and the declarer plays open.
    pub open spec fn is_valid(
        start_hand: Cards,
        skat_if_known: Option<Cards>,
        revealed_if_known_and_not_own_hand: Option<Cards>,
        bidding_role: BiddingRole,
        bidding_winner: BiddingRole,
        contract: Contract,
    ) -> bool {
        let is_declarer = bidding_role == bidding_winner;
        &&& start_hand.spec_len() == 10
        &&& skat_if_known matches Some(skat) ==> skat.spec_len() == 2
        &&& revealed_if_known_and_not_own_hand matches Some(revealed) ==> revealed.spec_len() == 10
            && revealed.disjoint(start_hand)
        &&& skat_if_known is Some == (is_declarer && !contract.announcement.spec_hand())
        &&& revealed_if_known_and_not_own_hand is Some == (!is_declarer
            && contract.announcement.spec_ouvert())
    }

    pub open spec fn wf(&self) -> bool {
        ObservedInitialGameState::is_valid(
            self.spec_start_hand(),
            self.spec_skat_if_known(),
            self.spec_revealed_if_known_and_not_own_hand(),
            self.spec_bidding_role(),
            self.spec_bidding_winner(),
            self.spec_contract(),
        )
    }

    /// Whether this is what an observer can know before the first card.
    pub fn check_valid(
        start_hand: Cards,
        skat_if_known: Option<Cards>,
        revealed_if_known_and_not_own_hand: Option<Cards>,
        bidding_role: BiddingRole,
        bidding_winner: BiddingRole,
        contract: Contract,
    ) -> (r: bool)
        ensures
            r == ObservedInitialGameState::is_valid(
                start_hand,
                skat_if_known,
                revealed_if_known_and_not_own_hand,
                bidding_role,
                bidding_winner,
                contract,
            ),
    {
        let is_declarer = bidding_role == bidding_winner;
        let skat_fits = match skat_if_known {
            Some(skat) => skat.len() == 2,
            None => true,
        };
        let revealed_fits = match revealed_if_known_and_not_own_hand {
            Some(revealed) => revealed.len() == 10 && !revealed.overlaps(start_hand),
            None => true,
        };
        start_hand.len() == 10 && skat_fits && revealed_fits && skat_if_known.is_some() == (
        is_declarer && !contract.announcement().hand()) && revealed_if_known_and_not_own_hand.is_some()
            == (!is_declarer && contract.announcement().ouvert())
    }

    #[verifier::when_used_as_spec(spec_bidding_role)]
    pub fn bidding_role(&self) -> (r: BiddingRole)
        ensures
            r == self.spec_bidding_role(),
    {
        self.bidding_role
    }

    pub fn new(
        start_hand: Cards,
        skat_if_known: Option<Cards>,
        revealed_if_known_and_not_own_hand: Option<Cards>,
        game_type: GameType,
        bidding_role: BiddingRole,
        bidding_winner: BiddingRole,
        contract: Contract,
    ) -> (r: ObservedInitialGameState)
        requires
            ObservedInitialGameState::is_valid(
                start_hand,
                skat_if_known,
                revealed_if_known_and_not_own_hand,
                bidding_role,
                bidding_winner,
                contract,
            ),
        ensures
            r.wf(),
            r.spec_start_hand() == start_hand,
            r.spec_skat_if_known() == skat_if_known,
            r.spec_revealed_if_known_and_not_own_hand() == revealed_if_known_and_not_own_hand,
            r.spec_game_type() == game_type,
            r.spec_bidding_role() == bidding_role,
            r.spec_bidding_winner() == bidding_winner,
            r.spec_contract() == contract,
    {
        ObservedInitialGameState {
            start_hand,
            skat_if_known,
            revealed_if_known_and_not_own_hand,
            game_type,
            bidding_role,
            bidding_winner,
            contract,
        }
    }

    #[verifier::when_used_as_spec(spec_game_type)]
    pub fn game_type(&self) -> (r: GameType)
        ensures
            r == self.spec_game_type(),
    {
        self.game_type
    }

    #[verifier::when_used_as_spec(spec_bidding_winner)]
    pub fn bidding_winner(&self) -> (r: BiddingRole)
        ensures
            r == self.spec_bidding_winner(),
    {
        self.bidding_winner
    }

    #[verifier::when_used_as_spec(spec_contract)]
    pub fn contract(&self) -> (r: Contract)
        ensures
            r == self.spec_contract(),
    {
        self.contract
    }
}

} // verus!
