use sueca_solver::evaluator::{compute_game_points, play_game_sim, rotate_hands, EvaluatorDeal, SimulatorBot};
use sueca_solver::matchup::{play_matchup_deal, play_snr_deal, PyDeal};

fn striped_deal(seed: u64) -> EvaluatorDeal {
    // Seat p holds the cards congruent to p modulo 4.
    let mut hands = [0u64; 4];
    for c in 0..40u64 {
        hands[(c % 4) as usize] |= 1u64 << c;
    }
    EvaluatorDeal { hands, trump: 2, seed }
}

#[test]
fn card_lists_become_card_sets() {
    let deal = PyDeal { hands: vec![vec![0, 5, 39], vec![], vec![63, 1], vec![7, 7]], trump: 3, seed: 9 };
    let d = deal.to_rust();
    assert_eq!(d.hands, [1 | (1 << 5) | (1 << 39), 0, (1 << 63) | 2, 1 << 7]);
    assert_eq!(d.trump, 3);
    assert_eq!(d.seed, 9);
}

#[test]
fn matchup_swaps_seats_between_the_two_games() {
    let deal = striped_deal(17);
    let (a, b) = (SimulatorBot::Heuristic, SimulatorBot::Random);
    let r = play_matchup_deal(&deal, a, b, 100);
    let g1 = play_game_sim(deal.hands, deal.trump, 0, &[a, b, a, b], 100 + 17 + 1000);
    let g2 = play_game_sim(deal.hands, deal.trump, 0, &[b, a, b, a], 100 + 17 + 2000);
    assert_eq!(
        r,
        (
            g1.team_02_score,
            g2.team_13_score,
            g1.team_02_game_points,
            g2.team_13_game_points,
            g1.team_13_game_points,
            g2.team_02_game_points
        )
    );
    assert_eq!(r.2, compute_game_points(r.0, 120 - r.0).0);
    assert_eq!(r.3, compute_game_points(r.1, 120 - r.1).0);
}

#[test]
fn snr_between_equal_bots_is_silent() {
    let deal = striped_deal(3);
    for bot in [SimulatorBot::Random, SimulatorBot::Heuristic] {
        let (gp, cp) = play_snr_deal(&deal, bot, bot, 55);
        assert_eq!(gp, vec![0, 0, 0, 0]);
        assert_eq!(cp, vec![0, 0, 0, 0]);
    }
}

#[test]
fn snr_compares_each_rotation() {
    let deal = striped_deal(4);
    let (a, b) = (SimulatorBot::Heuristic, SimulatorBot::Random);
    let (gp, cp) = play_snr_deal(&deal, a, b, 10);
    assert_eq!(gp.len(), 4);
    for rot in 0..4usize {
        let hands = rotate_hands(&deal.hands, rot);
        let seed = 10 + 4 + rot as u64 * 10000;
        let r = SimulatorBot::Random;
        let ga = play_game_sim(hands, deal.trump, rot as u8, &[a, r, r, r], seed);
        let gb = play_game_sim(hands, deal.trump, rot as u8, &[b, r, r, r], seed);
        assert_eq!(gp[rot], ga.team_02_game_points as i16 - gb.team_02_game_points as i16);
        assert_eq!(cp[rot], ga.team_02_score as i16 - gb.team_02_score as i16);
    }
}
