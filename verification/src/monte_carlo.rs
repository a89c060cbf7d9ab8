use rand_xoshiro::Xoshiro256PlusPlus;
use vstd::prelude::*;
use crate::card::{Card, CardType};
use crate::card_points::CardPoints;
use crate::deal::Deal;
use crate::dist::UniformPossibleDealsFromObservedGameplay;
use crate::game_type::GameType;
use crate::observed_gameplay::{ObservedInitialGameState, ObservedPlayedCards};
use crate::open_situation_analyzer::score_for_possible_plays::final_declarer_yield_for_possible_plays;
use crate::open_situation_analyzer::AnalyzedPossiblePlays;
use crate::open_situation_solver::bounds_cache::{
    open_situation_reachable_from_to_u32_key, FastOpenSituationSolverCache,
};
use crate::open_situation_solver::OpenSituationSolver;
use crate::trick_yield::YieldSoFar;

verus! {

/// How a game ended for the declarer, from the worst to the best.
#[derive(PartialEq, Eq, PartialOrd, Ord, Clone, Copy, Debug, Hash, Structural)]
pub enum GameConclusion {
    DeclarerIsSchwarz,
    DeclarerIsSchneider,
    DeclarerIsDominated,
    DefendersAreDominated,
    DefendersAreSchneider,
    DefendersAreSchwarz,
}

impl GameConclusion {
    /// The conclusion's place in the order from the worst to the best.
    pub open spec fn order(self) -> int {
        match self {
            GameConclusion::DeclarerIsSchwarz => 0,
            GameConclusion::DeclarerIsSchneider => 1,
            GameConclusion::DeclarerIsDominated => 2,
            GameConclusion::DefendersAreDominated => 3,
            GameConclusion::DefendersAreSchneider => 4,
            GameConclusion::DefendersAreSchwarz => 5,
        }
    }

    /// Whether this conclusion is at least as good for the declarer as the other.
    pub fn at_least(self, other: GameConclusion) -> (r: bool)
        ensures
            r == (other.order() <= self.order()),
    {
        let mine: u8 = match self {
            GameConclusion::DeclarerIsSchwarz => 0,
            GameConclusion::DeclarerIsSchneider => 1,
            GameConclusion::DeclarerIsDominated => 2,
            GameConclusion::DefendersAreDominated => 3,
            GameConclusion::DefendersAreSchneider => 4,
            GameConclusion::DefendersAreSchwarz => 5,
        };
        let others: u8 = match other {
            GameConclusion::DeclarerIsSchwarz => 0,
            GameConclusion::DeclarerIsSchneider => 1,
            GameConclusion::DeclarerIsDominated => 2,
            GameConclusion::DefendersAreDominated => 3,
            GameConclusion::DefendersAreSchneider => 4,
            GameConclusion::DefendersAreSchwarz => 5,
        };
        others <= mine
    }

    /// A yield with which a game can end: no trick, all ten tricks, or one to
    /// nine tricks with at most 118 points.
    pub open spec fn is_final_yield(final_declarer_yield: YieldSoFar) -> bool {
        let points = final_declarer_yield.card_points.0;
        let tricks = final_declarer_yield.number_of_tricks;
        tricks == 0 || tricks == 10 || (1 <= tricks <= 9 && points <= 118)
    }

    pub open spec fn spec_from_final_declarer_yield(final_declarer_yield: YieldSoFar) -> GameConclusion {
        let points = final_declarer_yield.card_points.0;
        let tricks = final_declarer_yield.number_of_tricks;
        if tricks == 0 {
            GameConclusion::DeclarerIsSchwarz
        } else if tricks == 10 {
            GameConclusion::DefendersAreSchwarz
        } else if points <= 30 {
            GameConclusion::DeclarerIsSchneider
        } else if points <= 60 {
            GameConclusion::DeclarerIsDominated
        } else if points <= 89 {
            GameConclusion::DefendersAreDominated
        } else {
            GameConclusion::DefendersAreSchneider
        }
    }

    /// How the game ended, given what the declarer has got in the end: schwarz
    /// without a trick or with all ten; else by his points, up to 30, up to 60,
    /// up to 89, or more.
    pub fn from_final_declarer_yield(final_declarer_yield: &YieldSoFar) -> (r: GameConclusion)
        requires
            GameConclusion::is_final_yield(*final_declarer_yield),
        ensures
            r == GameConclusion::spec_from_final_declarer_yield(*final_declarer_yield),
    {
        let points = final_declarer_yield.card_points().0;
        let tricks = final_declarer_yield.number_of_tricks();
        if tricks == 0 {
            GameConclusion::DeclarerIsSchwarz
        } else if tricks == 10 {
            GameConclusion::DefendersAreSchwarz
        } else if points <= 30 {
            GameConclusion::DeclarerIsSchneider
        } else if points <= 60 {
            GameConclusion::DeclarerIsDominated
        } else if points <= 89 {
            GameConclusion::DefendersAreDominated
        } else {
            GameConclusion::DefendersAreSchneider
        }
    }

    pub open spec fn spec_least_yield_necessary_to_be_in_here(self) -> YieldSoFar {
        match self {
            GameConclusion::DeclarerIsSchwarz => YieldSoFar {
                card_points: CardPoints(0),
                number_of_tricks: 0,
            },
            GameConclusion::DeclarerIsSchneider => YieldSoFar {
                card_points: CardPoints(0),
                number_of_tricks: 1,
            },
            GameConclusion::DeclarerIsDominated => YieldSoFar {
                card_points: CardPoints(31),
                number_of_tricks: 1,
            },
            GameConclusion::DefendersAreDominated => YieldSoFar {
                card_points: CardPoints(61),
                number_of_tricks: 1,
            },
            GameConclusion::DefendersAreSchneider => YieldSoFar {
                card_points: CardPoints(90),
                number_of_tricks: 1,
            },
            GameConclusion::DefendersAreSchwarz => YieldSoFar {
                card_points: CardPoints(120),
                number_of_tricks: 10,
            },
        }
    }

    /// The least that the declarer must have got for this conclusion.
    #[verifier::when_used_as_spec(spec_least_yield_necessary_to_be_in_here)]
    pub fn least_yield_necessary_to_be_in_here(self) -> (r: YieldSoFar)
        ensures
            r == self.spec_least_yield_necessary_to_be_in_here(),
    {
        match self {
            GameConclusion::DeclarerIsSchwarz => YieldSoFar::new(CardPoints(0), 0),
            GameConclusion::DeclarerIsSchneider => YieldSoFar::new(CardPoints(0), 1),
            GameConclusion::DeclarerIsDominated => YieldSoFar::new(CardPoints(31), 1),
            GameConclusion::DefendersAreDominated => YieldSoFar::new(CardPoints(61), 1),
            GameConclusion::DefendersAreSchneider => YieldSoFar::new(CardPoints(90), 1),
            GameConclusion::DefendersAreSchwarz => YieldSoFar::new(CardPoints(120), 10),
        }
    }

    /// The least yield of a conclusion ends the game with that conclusion.
    pub proof fn lemma_least_yield(self)
        ensures
            GameConclusion::is_final_yield(self.spec_least_yield_necessary_to_be_in_here()),
            GameConclusion::spec_from_final_declarer_yield(
                self.spec_least_yield_necessary_to_be_in_here(),
            ) == self,
    {
    }

    pub open spec fn spec_someone_is_schneider(&self) -> bool {
        match self {
            GameConclusion::DeclarerIsDominated | GameConclusion::DefendersAreDominated => false,
            _ => true,
        }
    }

    /// Whether one side got 30 points or less: a side that is schwarz is
    /// schneider too.
    #[verifier::when_used_as_spec(spec_someone_is_schneider)]
    pub fn someone_is_schneider(&self) -> (r: bool)
        ensures
            r == self.spec_someone_is_schneider(),
    {
        match self {
            GameConclusion::DeclarerIsDominated | GameConclusion::DefendersAreDominated => false,
            GameConclusion::DefendersAreSchneider
            | GameConclusion::DeclarerIsSchwarz
            | GameConclusion::DeclarerIsSchneider
            | GameConclusion::DefendersAreSchwarz => true,
        }
    }

    pub open spec fn spec_someone_is_schwarz(&self) -> bool {
        match self {
            GameConclusion::DeclarerIsSchwarz | GameConclusion::DefendersAreSchwarz => true,
            _ => false,
        }
    }

    /// Whether one side got no trick.
    #[verifier::when_used_as_spec(spec_someone_is_schwarz)]
    pub fn someone_is_schwarz(&self) -> (r: bool)
        ensures
            r == self.spec_someone_is_schwarz(),
    {
        match self {
            GameConclusion::DeclarerIsSchneider
            | GameConclusion::DefendersAreSchneider
            | GameConclusion::DeclarerIsDominated
            | GameConclusion::DefendersAreDominated => false,
            GameConclusion::DeclarerIsSchwarz | GameConclusion::DefendersAreSchwarz => true,
        }
    }
}

/// What the declarer announced in a trump game, each level including the ones before it.
#[derive(Clone, Copy, PartialEq, Eq, PartialOrd, Ord, Debug, Structural)]
pub enum TrumpGameLevel {
    Normal,
    Hand,
    Schneider,
    Schwarz,
    Ouvert,
}

impl TrumpGameLevel {
    /// The level's place in the order of the levels.
    pub open spec fn order(self) -> int {
        match self {
            TrumpGameLevel::Normal => 0,
            TrumpGameLevel::Hand => 1,
            TrumpGameLevel::Schneider => 2,
            TrumpGameLevel::Schwarz => 3,
            TrumpGameLevel::Ouvert => 4,
        }
    }

    fn at_least(self, other: TrumpGameLevel) -> (r: bool)
        ensures
            r == (other.order() <= self.order()),
    {
        let mine: u8 = match self {
            TrumpGameLevel::Normal => 0,
            TrumpGameLevel::Hand => 1,
            TrumpGameLevel::Schneider => 2,
            TrumpGameLevel::Schwarz => 3,
            TrumpGameLevel::Ouvert => 4,
        };
        let others: u8 = match other {
            TrumpGameLevel::Normal => 0,
            TrumpGameLevel::Hand => 1,
            TrumpGameLevel::Schneider => 2,
            TrumpGameLevel::Schwarz => 3,
            TrumpGameLevel::Ouvert => 4,
        };
        others <= mine
    }

    pub open spec fn spec_conclusion_to_reach(&self) -> GameConclusion {
        match self {
            TrumpGameLevel::Normal | TrumpGameLevel::Hand => GameConclusion::DefendersAreDominated,
            TrumpGameLevel::Schneider => GameConclusion::DefendersAreSchneider,
            TrumpGameLevel::Schwarz | TrumpGameLevel::Ouvert => GameConclusion::DefendersAreSchwarz,
        }
    }

    /// The conclusion that the declarer has to reach at least to win.
    #[verifier::when_used_as_spec(spec_conclusion_to_reach)]
    pub fn conclusion_to_reach(&self) -> (r: GameConclusion)
        ensures
            r == self.spec_conclusion_to_reach(),
    {
        match self {
            TrumpGameLevel::Normal | TrumpGameLevel::Hand => GameConclusion::DefendersAreDominated,
            TrumpGameLevel::Schneider => GameConclusion::DefendersAreSchneider,
            TrumpGameLevel::Schwarz | TrumpGameLevel::Ouvert => GameConclusion::DefendersAreSchwarz,
        }
    }
}

/// What was announced: a Null game, from the hand or not, open or not; or a
/// trump game with its trump and its level.
#[derive(Clone, Copy, PartialEq, Eq, Debug, Structural)]
pub enum AnnouncementImpl {
    Null { hand: bool, ouvert: bool },
    Trump { trump: CardType, level: TrumpGameLevel },
}

/// An announcement, which `Announcement::new` has found valid.
#[derive(Clone, Copy, PartialEq, Eq, Debug, Structural)]
pub struct Announcement(pub AnnouncementImpl);

/// Why an announcement is none.
#[derive(Clone, Copy, PartialEq, Eq, Debug, Structural)]
pub enum AnnouncementError {
    Invalid,
}

impl AnnouncementError {
    /// The error in words.
    pub fn message(&self) -> (r: &'static str)
        ensures
            r@ == "invalid announcement"@,
    {
        "invalid announcement"
    }
}

impl Announcement {
    /// The level of a trump game with the given flags, if there is one: only
    /// from the hand can more be announced; schwarz needs schneider; an open
    /// game needs schneider, and counts as open only with schwarz.
    pub open spec fn level_of(hand: bool, schneider: bool, schwarz: bool, ouvert: bool) -> Option<
        TrumpGameLevel,
    > {
        if hand && schneider && schwarz && ouvert {
            Some(TrumpGameLevel::Ouvert)
        } else if hand && schneider && schwarz && !ouvert {
            Some(TrumpGameLevel::Schwarz)
        } else if hand && schneider && !schwarz {
            Some(TrumpGameLevel::Schneider)
        } else if hand && !schneider && !schwarz && !ouvert {
            Some(TrumpGameLevel::Hand)
        } else if !hand && !schneider && !schwarz && !ouvert {
            Some(TrumpGameLevel::Normal)
        } else {
            None
        }
    }

    /// The announcement with the given flags, if there is one: a Null game
    /// knows neither schneider nor schwarz; for a trump game see `level_of`.
    pub open spec fn spec_new(
        game_type: GameType,
        hand: bool,
        schneider: bool,
        schwarz: bool,
        ouvert: bool,
    ) -> Result<Announcement, AnnouncementError> {
        match game_type {
            GameType::Null => if schneider || schwarz {
                Err(AnnouncementError::Invalid)
            } else {
                Ok(Announcement(AnnouncementImpl::Null { hand, ouvert }))
            },
            GameType::Trump(card_type) => match Announcement::level_of(
                hand,
                schneider,
                schwarz,
                ouvert,
            ) {
                Some(level) => Ok(Announcement(AnnouncementImpl::Trump { trump: card_type, level })),
                None => Err(AnnouncementError::Invalid),
            },
        }
    }

    #[verifier::when_used_as_spec(spec_new)]
    pub fn new(game_type: GameType, hand: bool, schneider: bool, schwarz: bool, ouvert: bool) -> (r:
        Result<Announcement, AnnouncementError>)
        ensures
            r == Announcement::spec_new(game_type, hand, schneider, schwarz, ouvert),
    {
        let result = match game_type {
            GameType::Null => {
                if schneider || schwarz {
                    return Err(AnnouncementError::Invalid);
                }
                AnnouncementImpl::Null { hand, ouvert }
            },
            GameType::Trump(card_type) => {
                let level = match (hand, schneider, schwarz, ouvert) {
                    (true, true, true, true) => TrumpGameLevel::Ouvert,
                    (true, true, true, false) => TrumpGameLevel::Schwarz,
                    (true, true, false, _) => TrumpGameLevel::Schneider,
                    (true, false, false, false) => TrumpGameLevel::Hand,
                    (false, false, false, false) => TrumpGameLevel::Normal,
                    _ => return Err(AnnouncementError::Invalid),
                };

                AnnouncementImpl::Trump { trump: card_type, level }
            },
        };

        Ok(Announcement(result))
    }

    /// By how much the base value of a trump game is multiplied: the matadors,
    /// one for the game, one for playing from the hand, one each for schneider
    /// and schwarz if they came about or were announced, one more each if they
    /// were announced, and one for an open game.
    pub open spec fn multiplier(level: TrumpGameLevel, conclusion: GameConclusion, matadors: int) -> int {
        matadors + 1 + (if TrumpGameLevel::Hand.order() <= level.order() {
            1int
        } else {
            0int
        }) + (if conclusion.spec_someone_is_schneider() || TrumpGameLevel::Schneider.order()
            <= level.order() {
            1int
        } else {
            0int
        }) + (if TrumpGameLevel::Schneider.order() <= level.order() {
            1int
        } else {
            0int
        }) + (if conclusion.spec_someone_is_schwarz() || TrumpGameLevel::Schwarz.order()
            <= level.order() {
            1int
        } else {
            0int
        }) + (if TrumpGameLevel::Schwarz.order() <= level.order() {
            1int
        } else {
            0int
        }) + (if level == TrumpGameLevel::Ouvert {
            1int
        } else {
            0int
        })
    }

    /// What the announcement is worth with the given conclusion: for a Null game
    /// its fixed value, for a trump game the base value of the trump times
    /// the multiplier.
    pub open spec fn spec_value(&self, conclusion: GameConclusion, matadors: Option<u8>) -> int {
        match self.0 {
            AnnouncementImpl::Null { hand, ouvert } => if hand && ouvert {
                59
            } else if hand {
                35
            } else if ouvert {
                46
            } else {
                23
            },
            AnnouncementImpl::Trump { trump, level } => Announcement::multiplier(
                level,
                conclusion,
                match matadors {
                    Some(count) => count as int,
                    None => 0,
                },
            ) * trump.spec_base_value(),
        }
    }

    /// The matadors are given for a trump game and for no other.
    pub open spec fn fits(&self, matadors: Option<u8>) -> bool {
        (self.0 is Trump) == (matadors is Some)
    }

    /// What the announcement is worth, given how the game ended: what could be
    /// bid without overbidding. The value is positive. Of the conclusion only
    /// that someone is schneider or schwarz counts, not who.
    pub fn value(&self, conclusion: &GameConclusion, matadors: Option<u8>) -> (r: i16)
        requires
            self.fits(matadors),
        ensures
            r == self.spec_value(*conclusion, matadors),
            0 < r <= 24 * 262,
    {
        let (trump, level, matadors) = match (self.0, matadors) {
            (AnnouncementImpl::Null { hand, ouvert }, _) => {
                return match (hand, ouvert) {
                    (true, true) => 59,
                    (true, false) => 35,
                    (false, true) => 46,
                    (false, false) => 23,
                };
            },
            (AnnouncementImpl::Trump { trump, level }, Some(matadors)) => (
                trump,
                level,
                matadors as i16,
            ),
            (AnnouncementImpl::Trump { trump, level }, None) => (trump, level, 0i16),
        };

        let base_value = trump.base_value();

        // With or without n ...
        let mut multiplier: i16 = matadors;

        // ... game n + 1 ...
        multiplier += 1;

        if level.at_least(TrumpGameLevel::Hand) {
            // ... hand n + 2 ...
            multiplier += 1;
        }
        if conclusion.someone_is_schneider() || level.at_least(TrumpGameLevel::Schneider) {
            // ... schneider x ...
            multiplier += 1;
        }
        if level.at_least(TrumpGameLevel::Schneider) {
            // ... announced x + 1 ...
            multiplier += 1;
        }
        if conclusion.someone_is_schwarz() || level.at_least(TrumpGameLevel::Schwarz) {
            // ... schwarz y ...
            multiplier += 1;
        }
        if level.at_least(TrumpGameLevel::Schwarz) {
            // ... announced y + 1 ...
            multiplier += 1;
        }
        if matches!(level, TrumpGameLevel::Ouvert) {
            // ... ouvert y + 2 ...
            multiplier += 1;
        }
        assert(0 < multiplier * base_value <= 24 * 262) by (nonlinear_arith)
            requires
                1 <= multiplier <= 262,
                9 <= base_value <= 24,
        ;
        multiplier * base_value
    }

    pub open spec fn spec_game_type(&self) -> GameType {
        match self.0 {
            AnnouncementImpl::Null { hand: _, ouvert: _ } => GameType::Null,
            AnnouncementImpl::Trump { trump, level: _ } => GameType::Trump(trump),
        }
    }

    #[verifier::when_used_as_spec(spec_game_type)]
    pub fn game_type(&self) -> (r: GameType)
        ensures
            r == self.spec_game_type(),
    {
        match self.0 {
            AnnouncementImpl::Null { hand: _, ouvert: _ } => GameType::Null,
            AnnouncementImpl::Trump { trump, level: _ } => GameType::Trump(trump),
        }
    }

    pub open spec fn spec_hand(&self) -> bool {
        match self.0 {
            AnnouncementImpl::Null { hand, ouvert: _ } => hand,
            AnnouncementImpl::Trump { trump: _, level } => level != TrumpGameLevel::Normal,
        }
    }

    /// Whether the declarer plays from the hand, without the skat.
    #[verifier::when_used_as_spec(spec_hand)]
    pub fn hand(&self) -> (r: bool)
        ensures
            r == self.spec_hand(),
    {
        match self.0 {
            AnnouncementImpl::Null { hand, ouvert: _ } => hand,
            AnnouncementImpl::Trump { trump: _, level } => !matches!(level, TrumpGameLevel::Normal),
        }
    }

    pub open spec fn spec_ouvert(&self) -> bool {
        match self.0 {
            AnnouncementImpl::Null { hand: _, ouvert } => ouvert,
            AnnouncementImpl::Trump { trump: _, level } => level == TrumpGameLevel::Ouvert,
        }
    }

    /// Whether the declarer plays with his hand open.
    #[verifier::when_used_as_spec(spec_ouvert)]
    pub fn ouvert(&self) -> (r: bool)
        ensures
            r == self.spec_ouvert(),
    {
        match self.0 {
            AnnouncementImpl::Null { hand: _, ouvert } => ouvert,
            AnnouncementImpl::Trump { trump: _, level } => matches!(level, TrumpGameLevel::Ouvert),
        }
    }

    pub open spec fn spec_is_won(&self, conclusion: GameConclusion) -> bool {
        match self.0 {
            AnnouncementImpl::Null { hand: _, ouvert: _ } => conclusion
                == GameConclusion::DeclarerIsSchwarz,
            AnnouncementImpl::Trump { trump: _, level } => level.spec_conclusion_to_reach().order()
                <= conclusion.order(),
        }
    }

    /// Whether the conclusion is what was announced: no trick in a Null game, at
    /// least what the level asks for in a trump game.
    pub fn is_won(&self, conclusion: &GameConclusion) -> (r: bool)
        ensures
            r == self.spec_is_won(*conclusion),
    {
        match self.0 {
            AnnouncementImpl::Null { hand: _, ouvert: _ } => {
                matches!(conclusion, GameConclusion::DeclarerIsSchwarz)
            },
            AnnouncementImpl::Trump { trump: _, level } => {
                conclusion.at_least(level.conclusion_to_reach())
            },
        }
    }
}

/// What was bid, and what was announced.
#[derive(Clone, Copy, PartialEq, Eq, Debug, Structural)]
pub struct Contract {
    pub bidding_value: i16,
    pub announcement: Announcement,
}

/// The least multiple of the base value that is at least what was bid.
pub open spec fn spec_value_due_to_overbid(overbid: int, base_value: int) -> int {
    ((overbid + base_value - 1) / base_value) * base_value
}

/// What an overbid trump game is worth: the least multiple of the trump's base
/// value that is at least what was bid.
pub fn value_due_to_overbid(overbid: i16, game_type: GameType) -> (r: i16)
    requires
        0 < overbid <= Contract::HIGHEST_BID,
        game_type is Trump,
    ensures
        r == spec_value_due_to_overbid(overbid as int, game_type->Trump_0.spec_base_value()),
        overbid <= r < overbid + game_type->Trump_0.spec_base_value(),
{
    let base_value = match game_type {
        GameType::Trump(card_type) => card_type.base_value(),
        GameType::Null => vstd::pervasive::unreached(),
    };
    let steps = (overbid + base_value - 1) / base_value;
    assert(overbid <= steps * base_value < overbid + base_value) by (nonlinear_arith)
        requires
            steps == (overbid + base_value - 1) / (base_value as int),
            0 < overbid,
            9 <= base_value <= 24,
    ;
    steps * base_value
}

impl Contract {
    /// The highest bid that a contract is scored for.
    pub const HIGHEST_BID: i16 = 16_000;

    pub fn new(bidding_value: i16, announcement: Announcement) -> (r: Contract)
        ensures
            r == (Contract { bidding_value, announcement }),
    {
        Contract { bidding_value, announcement }
    }

    pub fn announcement(&self) -> (r: Announcement)
        ensures
            r == self.announcement,
    {
        self.announcement
    }

    /// Whether the game was overbid: what was announced is worth less than what
    /// was bid.
    pub open spec fn is_overbid(self, conclusion: GameConclusion, matadors: Option<u8>) -> bool {
        self.announcement.spec_value(conclusion, matadors) < self.bidding_value
    }

    /// The result of the game: the value of what was announced, and whether it was
    /// reached; but for an overbid game the value that is due to the overbid,
    /// and lost.
    pub open spec fn spec_conclude(self, conclusion: GameConclusion, matadors: Option<u8>) -> GameResult {
        if self.is_overbid(conclusion, matadors) {
            GameResult {
                game_value: spec_value_due_to_overbid(
                    self.bidding_value as int,
                    match self.announcement.0 {
                        AnnouncementImpl::Trump { trump, level: _ } => trump.spec_base_value(),
                        AnnouncementImpl::Null { hand: _, ouvert: _ } => 1,
                    },
                ) as i16,
                is_won: false,
            }
        } else {
            GameResult {
                game_value: self.announcement.spec_value(conclusion, matadors) as i16,
                is_won: self.announcement.spec_is_won(conclusion),
            }
        }
    }

    /// The result of the game for the declarer, given how it ended. An overbid
    /// Null game has no result here.
    pub fn conclude(self, conclusion: &GameConclusion, matadors: Option<u8>) -> (r: GameResult)
        requires
            self.announcement.fits(matadors),
            self.bidding_value <= Contract::HIGHEST_BID,
            !(self.announcement.0 is Null && self.is_overbid(*conclusion, matadors)),
        ensures
            r == self.spec_conclude(*conclusion, matadors),
            0 < r.game_value <= GameResult::HIGHEST_VALUE,
            (r.spec_score_classical().spec_delta() > 0) == r.is_won,
    {
        let announcement_value = self.announcement.value(conclusion, matadors);

        if announcement_value < self.bidding_value {
            // Overbid.
            let value_due_to_overbid = value_due_to_overbid(
                self.bidding_value,
                self.announcement.game_type(),
            );

            GameResult::new(value_due_to_overbid, false)
        } else {
            GameResult::new(announcement_value, self.announcement.is_won(conclusion))
        }
    }
}

/// What a game is worth, and whether the declarer has won it.
#[derive(Clone, Copy, PartialEq, Eq, Debug, Structural)]
pub struct GameResult {
    /// What the game is worth by the rules, which is positive. An overbid and
    /// schneider or schwarz, announced or not, are in it.
    pub game_value: i16,
    /// Whether the declarer has won: he has not if he did not reach what he
    /// announced, or overbid.
    pub is_won: bool,
}

/// What a game does to the scores of the players at the table.
#[derive(Clone, Copy, PartialEq, Eq, Debug, Structural)]
pub struct ScoreImpact {
    pub on_declarer: i16,
    /// On the defenders, and on who else sits at the table.
    pub on_others: i16,
}

impl ScoreImpact {
    pub open spec fn spec_delta(&self) -> int {
        self.on_declarer - self.on_others
    }

    /// By how much the declarer gains on the others.
    pub fn delta(&self) -> (r: i16)
        requires
            i16::MIN <= self.on_declarer - self.on_others <= i16::MAX,
        ensures
            r == self.spec_delta(),
    {
        self.on_declarer - self.on_others
    }
}

impl GameResult {
    /// The highest value that a result is scored for.
    pub const HIGHEST_VALUE: i16 = 16_383;

    pub open spec fn spec_score_classical(&self) -> ScoreImpact {
        if self.is_won {
            ScoreImpact { on_declarer: self.game_value, on_others: 0 }
        } else {
            ScoreImpact { on_declarer: (-2 * self.game_value) as i16, on_others: 0 }
        }
    }

    /// The classical score: the declarer gets the game's value if he has won, and
    /// loses twice the value if he has not.
    pub fn score_classical(&self) -> (r: ScoreImpact)
        requires
            -GameResult::HIGHEST_VALUE <= self.game_value <= GameResult::HIGHEST_VALUE,
        ensures
            r == self.spec_score_classical(),
            r.spec_delta() == if self.is_won {
                self.game_value as int
            } else {
                -2 * self.game_value
            },
    {
        if self.is_won {
            ScoreImpact { on_declarer: self.game_value, on_others: 0 }
        } else {
            ScoreImpact { on_declarer: -2 * self.game_value, on_others: 0 }
        }
    }

    pub fn new(game_value: i16, is_won: bool) -> (r: GameResult)
        ensures
            r == (GameResult { game_value, is_won }),
    {
        GameResult { game_value, is_won }
    }

    /// The declarer gains exactly if he has won: the score of a game with a
    /// positive value is positive for a game that was won and negative for one
    /// that was lost.
    pub proof fn lemma_score_sign(self)
        requires
            0 < self.game_value <= GameResult::HIGHEST_VALUE,
        ensures
            (self.spec_score_classical().spec_delta() > 0) == self.is_won,
            (self.spec_score_classical().spec_delta() < 0) == !self.is_won,
    {
    }
}


/// So many deals are always looked at one by one.
pub const ENUMERATED_DEALS: usize = 10_000;

/// Whether all deals that fit are looked at, and not a sample of them: there
/// are no more than the sample would have, and no more than are always looked
/// at one by one.
pub open spec fn looks_at_all_deals(number_of_possibilities: usize, sample_size: usize) -> bool {
    number_of_possibilities <= ENUMERATED_DEALS || number_of_possibilities <= sample_size
}

/// The deals to analyze: all deals that fit what is known, each once, if they
/// are few, else as many as the sample size says, drawn from them.
pub fn sampled_deals(
    dist: &UniformPossibleDealsFromObservedGameplay,
    sample_size: usize,
    rng: &mut Xoshiro256PlusPlus,
) -> (r: Vec<Deal>)
    requires
        dist.wf(),
    ensures
        forall|k: int| 0 <= k < r@.len() ==> dist.is_possible_deal(#[trigger] r@[k]),
        r@.len() == if looks_at_all_deals(dist.spec_number_of_possibilities(), sample_size) {
            dist.spec_number_of_possibilities()
        } else {
            sample_size
        },
        looks_at_all_deals(dist.spec_number_of_possibilities(), sample_size) ==> forall|
            k: int,
            j: int,
        | 0 <= k < j < r@.len() ==> #[trigger] r@[k] != #[trigger] r@[j],
        looks_at_all_deals(dist.spec_number_of_possibilities(), sample_size) ==> forall|
            deal: Deal,
        | #[trigger] dist.is_possible_deal(deal) ==> r@.contains(deal),
{
    let do_all_samples_threshold = if sample_size < ENUMERATED_DEALS {
        ENUMERATED_DEALS
    } else {
        sample_size
    };
    let do_all_samples = dist.number_of_possibilities() <= do_all_samples_threshold;

    if do_all_samples {
        dist.get_all_possibilities()
    } else {
        let mut result: Vec<Deal> = Vec::new();
        let mut taken: usize = 0;
        while taken < sample_size
            invariant
                taken <= sample_size,
                dist.wf(),
                dist.spec_number_of_possibilities() > 0,
                result@.len() == taken,
                forall|k: int|
                    0 <= k < result@.len() ==> dist.is_possible_deal(#[trigger] result@[k]),
            decreases sample_size - taken,
        {
            result.push(dist.sample(rng));
            taken += 1;
        }
        result
    }
}

/// What was found for a deal that fits what is known: what the declarer has
/// in the end after each card that the observer may play, and with or
/// without how many matadors the declarer plays.
pub struct PossibleWorld {
    pub plays: AnalyzedPossiblePlays<YieldSoFar>,
    pub matadors: Option<u8>,
}

/// Analyzes one deal: the cards that were seen are played from it, and the
/// position that they lead to is solved for each card that may be played
/// next. There is nothing to analyze if the deal is not whole or the cards
/// cannot have been played from it.
///
/// If what the solver takes for granted of the game holds, what is found for
/// a card is what follows from the declarer's yield under best play of all
/// three after it.
pub fn analyze_possible_world(
    initial_state: &ObservedInitialGameState,
    observed_tricks: &ObservedPlayedCards,
    possible_deal: Deal,
) -> (r: Option<PossibleWorld>)
    ensures
        r is Some == (possible_deal.wf() && observed_tricks.fits(
            possible_deal,
            initial_state.spec_bidding_winner(),
            initial_state.spec_game_type(),
        )),
        r matches Some(world) ==> {
            let replayed = crate::observed_gameplay::replayed(
                crate::situation::OpenSituation::spec_initial(
                    possible_deal,
                    initial_state.spec_bidding_winner(),
                ),
                YieldSoFar {
                    card_points: CardPoints(possible_deal.spec_skat().spec_to_points() as u8),
                    number_of_tricks: 0,
                },
                observed_tricks.played(),
                initial_state.spec_game_type(),
            );
            &&& world.plays.wf()
            &&& replayed matches Some((after, so_far)) && {
                &&& forall|card: Card|
                    world.plays.has(card) == after.spec_next_possible_plays(
                        initial_state.spec_game_type(),
                    ).spec_contains(card)
                &&& crate::optimal_play::heuristics_are_sound(initial_state.spec_game_type())
                    ==> forall|i: int|
                    0 <= i < world.plays@.len() ==> (#[trigger] world.plays@[i]).1
                        == crate::open_situation_analyzer::spec_analysis_after(
                        after,
                        initial_state.spec_game_type(),
                        so_far,
                        world.plays@[i].0,
                        crate::open_analysis_performance::Level::Yield,
                    )
            }
        },
{
    if !possible_deal.is_whole() {
        return None;
    }
    let game_type = initial_state.game_type();
    let Some(state) = observed_tricks.try_to_open_game_state(
        possible_deal,
        initial_state.bidding_winner(),
        game_type,
    ) else {
        return None;
    };
    let open_situation = state.open_situation;

    let mut solver = OpenSituationSolver::new(
        FastOpenSituationSolverCache::new(
            open_situation_reachable_from_to_u32_key(open_situation),
            game_type,
        ),
        game_type,
    );

    let plays = final_declarer_yield_for_possible_plays(
        open_situation,
        state.yield_so_far,
        &mut solver,
    );

    Some(PossibleWorld { plays, matadors: state.matadors })
}

} // verus!
