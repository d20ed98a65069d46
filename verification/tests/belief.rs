use sueca_solver::belief::{encode_belief_fractions, highest_unplayed_rank_in_suit, max_rank_in_suit, sum_points, Fraction};
use sueca_solver::constants::{BeliefFeature, PhiFeature, BIAS_ID, FEATURE_NAMES, FIRST_HIDDEN_ID, INPUT_COUNT, OUTPUT_COUNT, OUTPUT_START, PHI_FEATURE_NAMES};
use sueca_solver::simulator::SuecaSimulatorGame;

fn deterministic_deal() -> [u64; 4] {
    let mut hands = [0u64; 4];
    for p in 0..4 {
        for r in 0..10 {
            hands[p] |= 1u64 << (p as u64 * 10 + r);
        }
    }
    hands
}

fn value(f: Fraction) -> f64 {
    if f.den == 0 {
        0.0
    } else {
        f.num as f64 / f.den as f64
    }
}

#[test]
fn rank_helpers() {
    let hand = (1u64 << 3) | (1u64 << 7) | (1u64 << 12);
    assert_eq!(max_rank_in_suit(hand, 0), 7);
    assert_eq!(max_rank_in_suit(hand, 1), 2);
    assert_eq!(max_rank_in_suit(hand, 2), -1);
    assert_eq!(highest_unplayed_rank_in_suit(hand | (1u64 << 9), 0), 9);
    assert_eq!(highest_unplayed_rank_in_suit(0, 3), -1);
}

#[test]
fn sum_points_counts_card_values() {
    // Ace (11) and seven (10) of hearts, king of diamonds (4), two of clubs (0).
    let mask = (1u64 << 9) | (1u64 << 8) | (1u64 << 17) | (1u64 << 20);
    assert_eq!(sum_points(mask), 25);
    assert_eq!(sum_points(0), 0);
    assert_eq!(sum_points(0xFF_FFFF_FFFF), 120);
}

#[test]
fn belief_of_a_fresh_deal() {
    let game = SuecaSimulatorGame::new(deterministic_deal(), 0, 0);
    let f = encode_belief_fractions(&game, 0);
    assert_eq!(f.len(), INPUT_COUNT);
    assert_eq!(value(f[BeliefFeature::HasLedSuit.index()]), 0.0);
    assert_eq!(value(f[BeliefFeature::HasTrump.index()]), 1.0);
    assert_eq!(value(f[BeliefFeature::TrumpCount.index()]), 1.0);
    assert_eq!(f[BeliefFeature::HandPointDensity.index()], Fraction { num: 30, den: 120 });
    assert_eq!(value(f[BeliefFeature::AmILeading.index()]), 1.0);
    assert_eq!(value(f[BeliefFeature::AmILastToPlay.index()]), 0.0);
    assert_eq!(value(f[BeliefFeature::HoldsBossTrump.index()]), 1.0);
    assert_eq!(value(f[BeliefFeature::CanBeatWinner.index()]), 0.0);
    assert_eq!(f[BeliefFeature::MinSacrificeCost.index()], Fraction { num: 0, den: 11 });
    assert_eq!(value(f[BeliefFeature::GamePtsRemaining.index()]), 1.0);
    assert_eq!(value(f[BeliefFeature::TrumpsRemaining.index()]), 1.0);
    assert_eq!(value(f[BeliefFeature::ScoreDelta.index()]), 0.5);
    assert_eq!(value(f[BeliefFeature::MyVoidCount.index()]), 1.0);
    assert_eq!(value(f[BeliefFeature::LongestSideSuit.index()]), 0.0);
    assert_eq!(value(f[BeliefFeature::ShortestSideSuit.index()]), 0.0);
    assert_eq!(value(f[BeliefFeature::Side0Depletion.index()]), 0.0);
    assert_eq!(value(f[BeliefFeature::KnownVoidSuitsCount.index()]), 0.0);
    assert_eq!(value(f[BeliefFeature::DepletedSuitsCount.index()]), 0.0);
}

#[test]
fn belief_after_a_lead() {
    let mut game = SuecaSimulatorGame::new(deterministic_deal(), 3, 0);
    // Seat 0 leads the ace of hearts; seat 3 holds only spades (trump).
    game.play_card(9);
    assert_eq!(game.state.current_player, 3);
    let f = encode_belief_fractions(&game, 3);
    assert_eq!(value(f[BeliefFeature::HasLedSuit.index()]), 0.0);
    assert_eq!(value(f[BeliefFeature::HasTrump.index()]), 1.0);
    assert_eq!(value(f[BeliefFeature::AmILeading.index()]), 0.0);
    assert_eq!(value(f[BeliefFeature::IsPartnerWinning.index()]), 0.0);
    assert_eq!(f[BeliefFeature::TrickPointValue.index()], Fraction { num: 11, den: 44 });
    assert_eq!(value(f[BeliefFeature::HasTrickBeenCut.index()]), 0.0);
    assert_eq!(value(f[BeliefFeature::CanBeatWinner.index()]), 1.0);
    // The cheapest winning card is a two of spades, worth nothing.
    assert_eq!(f[BeliefFeature::MinWinningCost.index()], Fraction { num: 0, den: 11 });
    assert_eq!(f[BeliefFeature::GamePtsRemaining.index()], Fraction { num: 109, den: 120 });
    // The ace of hearts is on the table, not yet played in an earlier trick.
    assert_eq!(value(f[BeliefFeature::LedSuitAcePlayed.index()]), 0.0);
    // Seat 3 holds only spades: void in the other three suits.
    assert_eq!(f[BeliefFeature::MyVoidCount.index()], Fraction { num: 3, den: 3 });
}

#[test]
fn constants_line_up() {
    assert_eq!(BIAS_ID, 35);
    assert_eq!(OUTPUT_START, 36);
    assert_eq!(FIRST_HIDDEN_ID, OUTPUT_START + OUTPUT_COUNT);
    assert_eq!(FEATURE_NAMES[BeliefFeature::ScoreDelta.index()], "Score_Delta");
    assert_eq!(FEATURE_NAMES[BeliefFeature::DepletedSuitsCount.index()], "Depleted_Suits_Count");
    assert_eq!(PHI_FEATURE_NAMES[PhiFeature::Captures.index()], "CAPTURES");
    assert_eq!(PhiFeature::Void.index(), OUTPUT_COUNT - 1);
}

#[test]
fn belief_features_stay_in_unit_range_through_a_game() {
    let mut game = SuecaSimulatorGame::new(deterministic_deal(), 2, 1);
    while game.state.trick_number < 10 {
        for seat in 0..4u8 {
            if game.state.hands[seat as usize] != 0 {
                let f = encode_belief_fractions(&game, seat);
                for (i, x) in f.iter().enumerate() {
                    assert!(0 <= x.num && x.num <= x.den, "feature {} = {}/{}", i, x.num, x.den);
                }
            }
        }
        let s = game.state.current_player;
        let c = sueca_solver::heuristic::select_card_heuristic(&game, s);
        game.play_card(c);
    }
}
