use sueca_solver::evaluator::{compute_game_points, play_game_sim, rotate_first_player, rotate_hands, SimulatorBot};
use sueca_solver::rng::LcgRng;
use sueca_solver::simulator::SuecaSimulatorGame;

fn deterministic_deal() -> [u64; 4] {
    let mut hands = [0u64; 4];
    for p in 0..4 {
        for r in 0..10 {
            hands[p] |= 1u64 << (p as u64 * 10 + r);
        }
    }
    hands
}

#[test]
fn rotation_moves_hands_and_leader() {
    let hands = [1u64, 2, 4, 8];
    assert_eq!(rotate_hands(&hands, 0), hands);
    assert_eq!(rotate_hands(&hands, 1), [8, 1, 2, 4]);
    assert_eq!(rotate_hands(&hands, 2), [4, 8, 1, 2]);
    assert_eq!(rotate_first_player(3, 1), 0);
    assert_eq!(rotate_first_player(1, 2), 3);
}

#[test]
fn game_point_tiers() {
    assert_eq!(compute_game_points(120, 0), (4, 0));
    assert_eq!(compute_game_points(91, 29), (2, 0));
    assert_eq!(compute_game_points(90, 30), (1, 0));
    assert_eq!(compute_game_points(61, 59), (1, 0));
    assert_eq!(compute_game_points(60, 60), (0, 0));
    assert_eq!(compute_game_points(0, 120), (0, 4));
}

#[test]
fn simulated_games_share_all_points() {
    let bots = [SimulatorBot::Heuristic, SimulatorBot::Random, SimulatorBot::Heuristic, SimulatorBot::Random];
    for seed in 0..5u64 {
        let res = play_game_sim(deterministic_deal(), (seed % 4) as u8, (seed % 4) as u8, &bots, seed);
        assert_eq!(res.team_02_score as u32 + res.team_13_score as u32, 120);
        assert_eq!(res.illegal_count, 0);
        let (a, b) = compute_game_points(res.team_02_score, res.team_13_score);
        assert_eq!((res.team_02_game_points, res.team_13_game_points), (a, b));
    }
}

#[test]
fn heuristic_bot_matches_elite_choice() {
    let game = SuecaSimulatorGame::new(deterministic_deal(), 0, 0);
    let mut rng = LcgRng::new(1);
    let card = SimulatorBot::Heuristic.select_card(&game, 0, &mut rng);
    assert_eq!(card, sueca_solver::heuristic::select_card_heuristic(&game, 0));
    assert!(game.state.legal_moves() & (1u64 << card) != 0);
}

#[test]
fn rotating_a_deal_gives_a_deal() {
    let hands = deterministic_deal();
    for r in 0..=4 {
        let rot = rotate_hands(&hands, r);
        let mut all = 0u64;
        for h in &rot {
            assert_eq!(h.count_ones(), 10);
            assert_eq!(all & h, 0);
            all |= h;
        }
        assert_eq!(all, 0xFF_FFFF_FFFF);
    }
    assert_eq!(rotate_hands(&hands, 4), hands);
}

#[test]
fn simulated_game_is_the_bots_own_play() {
    let bots = [SimulatorBot::Random, SimulatorBot::Heuristic, SimulatorBot::Random, SimulatorBot::Heuristic];
    let res = play_game_sim(deterministic_deal(), 1, 2, &bots, 77);
    // Replaying the same bots with the same generator reaches the same scores.
    let mut game = SuecaSimulatorGame::new(deterministic_deal(), 1, 2);
    let mut rng = LcgRng::new(77);
    while game.state.trick_number < 10 {
        let seat = game.state.current_player;
        let card = bots[seat as usize].select_card(&game, seat, &mut rng);
        game.play_card(card);
    }
    assert_eq!(res.team_02_score, game.state.team_02_score);
    assert_eq!(res.team_13_score, game.state.team_13_score);
}
