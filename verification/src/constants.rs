//! Dimensions of the network that plays from the belief features, and the names of
//! its inputs and outputs.
use vstd::prelude::*;

verus! {

pub const INPUT_START: usize = 0;
/// Number of belief features fed to the network.
pub const INPUT_COUNT: usize = 35;
/// The bias node comes right after the inputs.
pub const BIAS_ID: usize = INPUT_START + INPUT_COUNT;
pub const OUTPUT_START: usize = BIAS_ID + 1;
/// Number of card-utility features, one network output each.
pub const PHI_FEATURE_COUNT: usize = 6;
pub const OUTPUT_COUNT: usize = PHI_FEATURE_COUNT;
/// Hidden nodes are numbered after the outputs.
pub const FIRST_HIDDEN_ID: usize = OUTPUT_START + OUTPUT_COUNT;

/// Card-utility features, one per network output.
#[derive(Debug, Clone, Copy, PartialEq, Eq, Structural)]
pub enum PhiFeature {
    /// Normalized card rank (0 = lowest .. 1 = Ace).
    Rank,
    /// Normalized card point value.
    Points,
    /// Whether the card is a trump.
    Trump,
    /// Whether the card would beat the current trick winner.
    Wins,
    /// Points captured if the card wins.
    Captures,
    /// Whether this is the player's last card of its suit.
    Void,
}

/// The position of a card-utility feature.
pub open spec fn phi_position(f: PhiFeature) -> int {
    match f {
        PhiFeature::Rank => 0,
        PhiFeature::Points => 1,
        PhiFeature::Trump => 2,
        PhiFeature::Wins => 3,
        PhiFeature::Captures => 4,
        PhiFeature::Void => 5,
    }
}

impl PhiFeature {
    /// The feature's position among the network outputs.
    pub fn index(self) -> (i: usize)
        ensures
            i == phi_position(self),
            i < PHI_FEATURE_COUNT,
    {
        match self {
            PhiFeature::Rank => 0,
            PhiFeature::Points => 1,
            PhiFeature::Trump => 2,
            PhiFeature::Wins => 3,
            PhiFeature::Captures => 4,
            PhiFeature::Void => 5,
        }
    }
}

/// Names of the card-utility features, by position.
pub const PHI_FEATURE_NAMES: [&'static str; 6] = ["RANK", "POINTS", "TRUMP", "WINS", "CAPTURES", "VOID"];

/// The belief features, in input order.
#[derive(Debug, Clone, Copy, PartialEq, Eq, Structural)]
pub enum BeliefFeature {
    HasLedSuit,
    HasTrump,
    LedSuitCount,
    TrumpCount,
    HandPointDensity,
    AmILeading,
    AmILastToPlay,
    IsPartnerWinning,
    TrickPointValue,
    HasTrickBeenCut,
    PartnerVoidLed,
    PartnerVoidTrump,
    AnyOppVoidLed,
    AnyOppVoidTrump,
    LedSuitAcePlayed,
    LedSuit7Played,
    TrumpAcePlayed,
    HoldsBossLed,
    HoldsBossTrump,
    CanBeatWinner,
    MinWinningCost,
    MinSacrificeCost,
    GamePtsRemaining,
    TrickNumber,
    TrumpsRemaining,
    ScoreDelta,
    MyVoidCount,
    LongestSideSuit,
    ShortestSideSuit,
    Side0Depletion,
    Side1Depletion,
    Side2Depletion,
    PointsSecured,
    KnownVoidSuitsCount,
    DepletedSuitsCount,
}

/// The input position of a belief feature.
pub open spec fn belief_position(f: BeliefFeature) -> int {
    match f {
        BeliefFeature::HasLedSuit => 0,
        BeliefFeature::HasTrump => 1,
        BeliefFeature::LedSuitCount => 2,
        BeliefFeature::TrumpCount => 3,
        BeliefFeature::HandPointDensity => 4,
        BeliefFeature::AmILeading => 5,
        BeliefFeature::AmILastToPlay => 6,
        BeliefFeature::IsPartnerWinning => 7,
        BeliefFeature::TrickPointValue => 8,
        BeliefFeature::HasTrickBeenCut => 9,
        BeliefFeature::PartnerVoidLed => 10,
        BeliefFeature::PartnerVoidTrump => 11,
        BeliefFeature::AnyOppVoidLed => 12,
        BeliefFeature::AnyOppVoidTrump => 13,
        BeliefFeature::LedSuitAcePlayed => 14,
        BeliefFeature::LedSuit7Played => 15,
        BeliefFeature::TrumpAcePlayed => 16,
        BeliefFeature::HoldsBossLed => 17,
        BeliefFeature::HoldsBossTrump => 18,
        BeliefFeature::CanBeatWinner => 19,
        BeliefFeature::MinWinningCost => 20,
        BeliefFeature::MinSacrificeCost => 21,
        BeliefFeature::GamePtsRemaining => 22,
        BeliefFeature::TrickNumber => 23,
        BeliefFeature::TrumpsRemaining => 24,
        BeliefFeature::ScoreDelta => 25,
        BeliefFeature::MyVoidCount => 26,
        BeliefFeature::LongestSideSuit => 27,
        BeliefFeature::ShortestSideSuit => 28,
        BeliefFeature::Side0Depletion => 29,
        BeliefFeature::Side1Depletion => 30,
        BeliefFeature::Side2Depletion => 31,
        BeliefFeature::PointsSecured => 32,
        BeliefFeature::KnownVoidSuitsCount => 33,
        BeliefFeature::DepletedSuitsCount => 34,
    }
}

impl BeliefFeature {
    /// The feature's input position.
    pub fn index(self) -> (i: usize)
        ensures
            i == belief_position(self),
            i < INPUT_COUNT,
    {
        match self {
            BeliefFeature::HasLedSuit => 0,
            BeliefFeature::HasTrump => 1,
            BeliefFeature::LedSuitCount => 2,
            BeliefFeature::TrumpCount => 3,
            BeliefFeature::HandPointDensity => 4,
            BeliefFeature::AmILeading => 5,
            BeliefFeature::AmILastToPlay => 6,
            BeliefFeature::IsPartnerWinning => 7,
            BeliefFeature::TrickPointValue => 8,
            BeliefFeature::HasTrickBeenCut => 9,
            BeliefFeature::PartnerVoidLed => 10,
            BeliefFeature::PartnerVoidTrump => 11,
            BeliefFeature::AnyOppVoidLed => 12,
            BeliefFeature::AnyOppVoidTrump => 13,
            BeliefFeature::LedSuitAcePlayed => 14,
            BeliefFeature::LedSuit7Played => 15,
            BeliefFeature::TrumpAcePlayed => 16,
            BeliefFeature::HoldsBossLed => 17,
            BeliefFeature::HoldsBossTrump => 18,
            BeliefFeature::CanBeatWinner => 19,
            BeliefFeature::MinWinningCost => 20,
            BeliefFeature::MinSacrificeCost => 21,
            BeliefFeature::GamePtsRemaining => 22,
            BeliefFeature::TrickNumber => 23,
            BeliefFeature::TrumpsRemaining => 24,
            BeliefFeature::ScoreDelta => 25,
            BeliefFeature::MyVoidCount => 26,
            BeliefFeature::LongestSideSuit => 27,
            BeliefFeature::ShortestSideSuit => 28,
            BeliefFeature::Side0Depletion => 29,
            BeliefFeature::Side1Depletion => 30,
            BeliefFeature::Side2Depletion => 31,
            BeliefFeature::PointsSecured => 32,
            BeliefFeature::KnownVoidSuitsCount => 33,
            BeliefFeature::DepletedSuitsCount => 34,
        }
    }
}

/// Names of the belief features, by input position.
pub const FEATURE_NAMES: [&'static str; 35] = [
    "Has_Led_Suit",
    "Has_Trump",
    "Led_Suit_Count",
    "Trump_Count",
    "Hand_Point_Density",
    "Am_I_Leading",
    "Am_I_Last_To_Play",
    "Is_Partner_Winning",
    "Trick_Point_Value",
    "Has_Trick_Been_Cut",
    "Partner_Void_Led",
    "Partner_Void_Trump",
    "Any_Opp_Void_Led",
    "Any_Opp_Void_Trump",
    "Led_Suit_Ace_Played",
    "Led_Suit_7_Played",
    "Trump_Ace_Played",
    "Holds_Boss_Led",
    "Holds_Boss_Trump",
    "Can_Beat_Winner",
    "Min_Winning_Cost",
    "Min_Sacrifice_Cost",
    "Game_Pts_Remaining",
    "Trick_Number",
    "Trumps_Remaining",
    "Score_Delta",
    "My_Void_Count",
    "Longest_Side_Suit",
    "Shortest_Side_Suit",
    "Side0_Depletion",
    "Side1_Depletion",
    "Side2_Depletion",
    "Points_Secured_Us",
    "Known_Void_Suits_Count",
    "Depleted_Suits_Count",
];

} // verus!
