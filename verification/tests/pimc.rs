use sueca_solver::bits::cards_of;
use sueca_solver::heuristic::select_card_heuristic;
use sueca_solver::pimc::{
    constraints_feasible, hand_sizes, hidden_cards, pimc_moves, pimc_world_values, rollout_world, sample_world,
    sample_world_retrying, unknown_pool, world_seed,
};
use sueca_solver::search::TranspositionTable;
use sueca_solver::simulator::SuecaSimulatorGame;

fn unknown_cards_for(known_mask: u64) -> Vec<u8> {
    let mut unknown_cards = Vec::new();
    for c in 0..40u8 {
        if (known_mask & (1u64 << c)) == 0 {
            unknown_cards.push(c);
        }
    }
    unknown_cards
}

/// Per-move totals of the searched values over `n_worlds` sampled worlds, as the
/// search of a fresh deal with hearts led sees them. The `solve_pimc` tests below run on
/// these totals: `solve_pimc` itself, which turns them into floating-point averages on
/// threads, is not part of the library, so they check the sampling and search it is
/// built from.
fn fresh_deal_totals(my_hand: u64, n_worlds: u64, search_depth: u8, seed: u64) -> Vec<(u8, i64, u32)> {
    let voids = [0u8; 4];
    let target_sizes = [10, 10, 10, 10];
    let moves = pimc_moves(my_hand, 0);
    let unknown = unknown_pool(my_hand);
    let mut totals: Vec<(u8, i64, u32)> = moves.iter().map(|&m| (m, 0i64, 0u32)).collect();
    let mut tt = TranspositionTable::new(16);
    for world_idx in 0..n_worlds {
        let mut hands = [0u64; 4];
        if !sample_world_retrying(0, my_hand, &unknown, voids, target_sizes, seed, world_idx, &mut hands) {
            continue;
        }
        let vals = pimc_world_values(hands, 0, 0, &[], 0, 0, 40, [0, 0], 0, &moves, search_depth, &mut tt);
        assert_eq!(vals.len(), moves.len());
        for (i, v) in vals.iter().enumerate() {
            totals[i].1 += *v as i64;
            totals[i].2 += 1;
        }
    }
    totals
}

#[test]
fn pimc_test_sample_world_simple() {
    let mut my_hand = 0u64;
    for r in 0..10 {
        my_hand |= 1u64 << r;
    }
    let voids = [0u8; 4];
    let target_sizes = [10, 10, 10, 10];
    let unknown_cards = unknown_cards_for(my_hand);

    let mut hands_out = [0u64; 4];
    let mut seed = 42u64;
    let ok = sample_world(0, my_hand, &unknown_cards, voids, target_sizes, &mut hands_out, &mut seed);

    assert!(ok);
    assert_eq!(hands_out[0], my_hand);
    for i in 0..4 {
        assert_eq!(hands_out[i].count_ones(), 10);
    }
    let total = hands_out[0] | hands_out[1] | hands_out[2] | hands_out[3];
    assert_eq!(total.count_ones(), 40);
    assert_eq!(total, 0xFFFFFFFFFFu64);
}

#[test]
fn pimc_test_sample_world_void_constraint() {
    let mut my_hand = 0u64;
    for r in 0..10 {
        my_hand |= 1u64 << r;
    }
    let mut voids = [0u8; 4];
    voids[1] = 1 << 1;
    let target_sizes = [10, 10, 10, 10];
    let unknown_cards = unknown_cards_for(my_hand);

    let mut hands_out = [0u64; 4];
    let mut seed = 42u64;
    let ok = sample_world(0, my_hand, &unknown_cards, voids, target_sizes, &mut hands_out, &mut seed);
    assert!(ok);

    let diamonds_mask = 0x3FFu64 << 10;
    assert_eq!(hands_out[1] & diamonds_mask, 0);
}

// Runs on `fresh_deal_totals`, the library part of `solve_pimc`.
#[test]
fn pimc_test_solve_pimc_simple() {
    let mut my_hand = (1u64 << 9) | (1u64 << 8);
    for c in 10..18 {
        my_hand |= 1u64 << c;
    }
    let totals = fresh_deal_totals(my_hand, 5, 1, 123);
    assert!(!totals.is_empty());
    let heart_moves: Vec<u8> = totals.iter().map(|r| r.0).filter(|&m| m / 10 == 0).collect();
    assert!(heart_moves.contains(&9));
    assert!(heart_moves.contains(&8));
}

// Runs on `fresh_deal_totals`, the library part of `solve_pimc`.
#[test]
fn pimc_test_splitmix64_seed_determinism() {
    let my_hand = 0x3FFu64;
    let evs1 = fresh_deal_totals(my_hand, 10, 1, 42);
    let evs2 = fresh_deal_totals(my_hand, 10, 1, 42);
    assert_eq!(evs1.len(), evs2.len());
    for (r1, r2) in evs1.iter().zip(evs2.iter()) {
        assert_eq!(r1.0, r2.0, "Move mismatch at same seed");
        assert_eq!(r1.1, r2.1, "EV mismatch at same seed: {} vs {}", r1.1, r2.1);
    }
}

// Runs on `fresh_deal_totals`, the library part of `solve_pimc`.
#[test]
fn pimc_test_splitmix64_seed_diversity() {
    let my_hand = 0x3FFu64;
    let evs_a = fresh_deal_totals(my_hand, 50, 1, 100);
    let evs_b = fresh_deal_totals(my_hand, 50, 1, 999);
    assert!(!evs_a.is_empty());
    assert!(!evs_b.is_empty());
    let mut any_different = false;
    for (r_a, r_b) in evs_a.iter().zip(evs_b.iter()) {
        if r_a.1 * (r_b.2 as i64) != r_b.1 * (r_a.2 as i64) {
            any_different = true;
            break;
        }
    }
    assert!(any_different, "Different seeds should produce different EV estimates");
}

#[test]
fn pimc_test_invariant_base_state_is_not_mutated() {
    let my_hand = 0x3FFu64;
    let evs = fresh_deal_totals(my_hand, 10, 1, 42);
    assert!(!evs.is_empty());
    let mut seen = std::collections::HashSet::new();
    for r in &evs {
        assert!(seen.insert(r.0), "Move {} appears multiple times — base state was mutated between iterations", r.0);
    }
    assert_eq!(evs.len(), 10, "Should have 10 legal moves (all hearts)");
}

#[test]
fn pimc_test_mrv_constrained_cards_first() {
    let mut my_hand = 0u64;
    for r in 0..5 {
        my_hand |= 1u64 << r;
        my_hand |= 1u64 << (10 + r);
    }
    let mut voids = [0u8; 4];
    voids[1] = 1;
    voids[2] = 1 << 1;
    let target_sizes = [10, 10, 10, 10];
    let unknown_cards = unknown_cards_for(my_hand);

    let mut hands_out = [0u64; 4];
    let mut seed = 42u64;
    let ok = sample_world(0, my_hand, &unknown_cards, voids, target_sizes, &mut hands_out, &mut seed);
    assert!(ok, "MRV partitioning must not break world sampling");

    let hearts_mask = 0x3FFu64;
    assert_eq!(hands_out[1] & hearts_mask, 0, "Player 1 must have no hearts (void constraint)");
    let diamonds_mask = 0x3FFu64 << 10;
    assert_eq!(hands_out[2] & diamonds_mask, 0, "Player 2 must have no diamonds (void constraint)");
    for s in 0..4 {
        assert_eq!(hands_out[s].count_ones(), 10, "Player {} must have exactly 10 cards", s);
    }
}

#[test]
fn pimc_test_mrv_impossible_constraints_fail() {
    let mut my_hand = 0u64;
    for r in 0..5 {
        my_hand |= 1u64 << r;
        my_hand |= 1u64 << (10 + r);
    }
    let mut voids = [0u8; 4];
    voids[1] = 1;
    voids[2] = 1;
    voids[3] = 1;
    let target_sizes = [10, 10, 10, 10];
    let unknown_cards = unknown_cards_for(my_hand);

    let mut hands_out = [0u64; 4];
    let mut seed = 42u64;
    let mut any_success = false;
    for _ in 0..20 {
        let mut local_seed = seed;
        seed = seed.wrapping_add(1);
        if sample_world(0, my_hand, &unknown_cards, voids, target_sizes, &mut hands_out, &mut local_seed) {
            any_success = true;
            break;
        }
    }
    assert!(!any_success, "Impossible constraints (3 players void in same suit with cards remaining) must fail");
}

/// A valid 40-card deal: hands[i] = cards [10*i .. 10*i+10).
fn deterministic_deal() -> [u64; 4] {
    let mut hands = [0u64; 4];
    for p in 0..4 {
        for r in 0..10 {
            hands[p] |= 1u64 << (p as u64 * 10 + r);
        }
    }
    hands
}

/// Per-move (card, total score, worlds) of Elite rollouts over `n_worlds` worlds.
fn rollout_totals(game: &SuecaSimulatorGame, n_worlds: u64, seed: u64) -> Vec<(u8, u32, u32)> {
    let moves = cards_of(game.state.legal_moves());
    let unknown = hidden_cards(game);
    let sizes = hand_sizes(game);
    let mut totals: Vec<(u8, u32, u32)> = moves.iter().map(|&m| (m, 0u32, 0u32)).collect();
    for world_idx in 0..n_worlds {
        let scores = rollout_world(game, &moves, &unknown, sizes, seed, world_idx);
        assert_eq!(scores.len(), moves.len());
        for (i, s) in scores.iter().enumerate() {
            assert!(*s <= 120);
            totals[i].1 += *s as u32;
            totals[i].2 += 1;
        }
    }
    totals
}

#[test]
fn test_rollout_leading_scores_all_moves() {
    let game = SuecaSimulatorGame::new(deterministic_deal(), 0, 0);
    let res = rollout_totals(&game, 24, 42);
    assert_eq!(res.len(), 10, "leading -> every hand card is a legal move");
    let mut seen = [false; 40];
    for r in &res {
        let ev = if r.2 > 0 { r.1 as f64 / r.2 as f64 } else { 0.0 };
        assert!(ev >= 0.0 && ev <= 120.0, "team score EV out of range: {}", ev);
        assert!(!seen[r.0 as usize], "duplicate card {}", r.0);
        seen[r.0 as usize] = true;
        assert!(game.state.hands[0] & (1u64 << r.0) != 0);
    }
}

#[test]
fn test_rollout_following_respects_legal_set() {
    let mut game = SuecaSimulatorGame::new(deterministic_deal(), 0, 0);
    let lead = game.state.legal_moves().trailing_zeros() as u8;
    game.play_card(lead);
    let follower = game.state.current_player;
    let legal = game.state.legal_moves();
    let res = rollout_totals(&game, 24, 7);
    assert_eq!(res.len(), legal.count_ones() as usize);
    for r in &res {
        assert!(legal & (1u64 << r.0) != 0, "card {} not in follower's legal set", r.0);
        assert!(game.state.hands[follower as usize] & (1u64 << r.0) != 0);
        let ev = if r.2 > 0 { r.1 as f64 / r.2 as f64 } else { 0.0 };
        assert!(ev >= 0.0 && ev <= 120.0);
    }
}

#[test]
fn test_rollout_forced_single_move_in_endgame() {
    let mut game = SuecaSimulatorGame::new(deterministic_deal(), 0, 0);
    while !(game.state.trick_number == 9 && game.state.cards_played_in_trick == 0) {
        let s = game.state.current_player;
        let c = select_card_heuristic(&game, s);
        game.play_card(c);
    }
    assert_eq!(game.state.legal_moves().count_ones(), 1);
    let res = rollout_totals(&game, 8, 1);
    assert_eq!(res.len(), 1);
    assert_eq!(res[0].0, game.state.legal_moves().trailing_zeros() as u8);
}

#[test]
fn feasibility_detects_overfull_suit() {
    // Five hearts left and all three other seats void in hearts.
    let mut my_hand = 0u64;
    for r in 0..5 {
        my_hand |= 1u64 << r;
        my_hand |= 1u64 << (10 + r);
    }
    let unknown = unknown_cards_for(my_hand);
    assert!(!constraints_feasible(&unknown, [0, 1, 1, 1], [10, 10, 10, 10], 0));
    assert!(constraints_feasible(&unknown, [0, 1, 1, 0], [10, 10, 10, 10], 0));
    assert!(constraints_feasible(&unknown, [0, 0, 0, 0], [10, 10, 10, 10], 0));
    // A void in hearts for the sampling seat itself does not matter.
    assert!(constraints_feasible(&unknown, [1, 0, 0, 0], [10, 10, 10, 10], 0));
    // Room counts: five hearts for one seat with room for four is too many.
    assert!(!constraints_feasible(&unknown, [0, 1, 1, 0], [10, 10, 10, 4], 0));
}

#[test]
fn world_seed_spreads_indices() {
    assert_eq!(world_seed(0, 0), 0x9E3779B97F4A7C15);
    assert_eq!(world_seed(5, 1), 5u64.wrapping_add(2u64.wrapping_mul(0x9E3779B97F4A7C15)));
    assert_ne!(world_seed(42, 0), world_seed(42, 1));
}

#[test]
fn unknown_pool_lists_unseen_cards_in_order() {
    let known = 0x3FFu64 | (1u64 << 39);
    let pool = unknown_pool(known);
    assert_eq!(pool.len(), 29);
    assert_eq!(pool[0], 10);
    assert_eq!(*pool.last().unwrap(), 38);
    assert!(pool.windows(2).all(|w| w[0] < w[1]));
}

#[test]
fn pimc_moves_follow_led_suit_when_held() {
    let hand = (1u64 << 3) | (1u64 << 15) | (1u64 << 17) | (1u64 << 31);
    assert_eq!(pimc_moves(hand, 1), vec![15, 17]);
    assert_eq!(pimc_moves(hand, 2), vec![3, 15, 17, 31]);
    assert_eq!(pimc_moves(hand, 4), vec![3, 15, 17, 31]);
}

#[test]
fn zero_depth_search_scores_the_trick_so_far() {
    // Seat 0 leads with all hearts; depth 0 before the seventh trick returns the score of
    // team 0/2 right after the move, which is still 0.
    let my_hand = 0x3FFu64;
    let totals = fresh_deal_totals(my_hand, 3, 0, 9);
    for t in &totals {
        assert_eq!(t.1, 0);
        assert_eq!(t.2, 3);
    }
}

#[test]
fn sampling_succeeds_exactly_when_feasible_here() {
    // With one seat void in hearts the five remaining hearts still fit with the others.
    let mut my_hand = 0u64;
    for r in 0..5 {
        my_hand |= 1u64 << r;
        my_hand |= 1u64 << (10 + r);
    }
    let unknown = unknown_cards_for(my_hand);
    let mut hands = [0u64; 4];
    assert!(sample_world_retrying(0, my_hand, &unknown, [0, 1, 0, 0], [10, 10, 10, 10], 5, 0, &mut hands));
    assert!(constraints_feasible(&unknown, [0, 1, 0, 0], [10, 10, 10, 10], 0));
    assert!(!sample_world_retrying(0, my_hand, &unknown, [0, 1, 1, 1], [10, 10, 10, 10], 5, 0, &mut hands));
}

#[test]
fn a_sampled_world_keeps_the_game_consistent() {
    let mut game = SuecaSimulatorGame::new(deterministic_deal(), 1, 0);
    for _ in 0..6 {
        let s = game.state.current_player;
        let c = select_card_heuristic(&game, s);
        game.play_card(c);
    }
    assert!(game.is_well_formed());
    let me = game.state.current_player;
    let unknown = hidden_cards(&game);
    let sizes = hand_sizes(&game);
    let mut hands = [0u64; 4];
    assert!(sample_world_retrying(me, game.state.hands[me as usize], &unknown, game.voids, sizes, 3, 0, &mut hands));
    let mut determinized = game;
    determinized.state.hands = hands;
    assert!(determinized.is_well_formed());
    assert_eq!(hands[me as usize], game.state.hands[me as usize]);
    for p in 0..4 {
        assert_eq!(hands[p].count_ones(), game.state.hands[p].count_ones());
    }
}

#[test]
fn pimc_moves_are_the_legal_moves_in_play() {
    let mut game = SuecaSimulatorGame::new(deterministic_deal(), 0, 0);
    for _ in 0..9 {
        let hand = game.state.hands[game.state.current_player as usize];
        assert_eq!(pimc_moves(hand, game.state.led_suit), cards_of(game.state.legal_moves()));
        let s = game.state.current_player;
        let c = select_card_heuristic(&game, s);
        game.play_card(c);
    }
}
