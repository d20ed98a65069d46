use sueca_solver::heuristic::{
    resolve_intent, select_card_heuristic, select_card_heuristic_old, select_card_random,
};
use sueca_solver::rng::LcgRng;
use sueca_solver::simulator::SuecaSimulatorGame;

fn random_deal(rng: &mut LcgRng) -> [u64; 4] {
    let mut deck: Vec<u8> = (0..40).collect();
    for i in (1..40).rev() {
        let j = rng.gen_range(0..((i + 1) as usize));
        deck.swap(i as usize, j);
    }
    let mut hands = [0u64; 4];
    for player in 0..4 {
        for card_idx in 0..10 {
            hands[player] |= 1u64 << deck[player * 10 + card_idx];
        }
    }
    hands
}

#[test]
fn test_archetype_alignment() {
    let mut rng = LcgRng::new(12345);
    for _ in 0..1000 {
        let mut deck: Vec<u8> = (0..40).collect();
        for i in (1..40).rev() {
            let j = rng.gen_range(0..((i + 1) as usize));
            deck.swap(i as usize, j);
        }

        let mut hands = [0u64; 4];
        for player in 0..4 {
            for card_idx in 0..10 {
                hands[player] |= 1u64 << deck[player * 10 + card_idx];
            }
        }

        let trump = rng.gen_range(0..4) as u8;
        let mut game = SuecaSimulatorGame::new(hands, trump, 0);

        for _ in 0..rng.gen_range(0..15) {
            let legal_moves = game.state.legal_moves();
            if legal_moves.count_ones() <= 1 || game.state.trick_number >= 10 {
                break;
            }
            let mut temp = legal_moves;
            let mut moves = Vec::new();
            while temp != 0 {
                moves.push(temp.trailing_zeros() as u8);
                temp &= temp - 1;
            }
            let play = moves[rng.gen_range(0..moves.len()) as usize];
            game.play_card(play);
        }

        if game.state.trick_number >= 10 {
            continue;
        }

        let seat = game.state.current_player;
        let legal_moves = game.state.legal_moves();
        if legal_moves.count_ones() <= 1 {
            continue;
        }

        let mut temp = legal_moves;
        while temp != 0 {
            let expert_card = temp.trailing_zeros() as u8;

            let mut target_archetype = None;
            for &archetype in &[2, 0, 3, 1] {
                let resolved_card = resolve_intent(archetype, &game, seat);
                if resolved_card == expert_card {
                    target_archetype = Some(archetype);
                    break;
                }
            }

            if let Some(archetype) = target_archetype {
                let resolved_card = resolve_intent(archetype, &game, seat);
                assert_eq!(
                    resolved_card, expert_card,
                    "Divergence found: archetype {} resolved to {} instead of expert card {} at state trick_len={} led_suit={}",
                    archetype, resolved_card, expert_card, game.current_trick_len,
                    if game.current_trick_len > 0 { game.current_trick[0]/10 } else { 4 }
                );
            }

            temp &= temp - 1;
        }
    }
}

#[test]
fn heuristic_bots_always_play_legal_cards_to_the_end() {
    let mut rng = LcgRng::new(777);
    for deal in 0..200 {
        let hands = random_deal(&mut rng);
        let trump = (deal % 4) as u8;
        let mut game = SuecaSimulatorGame::new(hands, trump, (deal % 4) as u8);
        while game.state.trick_number < 10 {
            let seat = game.state.current_player;
            let legal = game.state.legal_moves();
            let c1 = select_card_heuristic(&game, seat);
            let c2 = select_card_heuristic_old(&game, seat);
            assert!(legal & (1u64 << c1) != 0);
            assert!(legal & (1u64 << c2) != 0);
            for intent in 0..5 {
                let c3 = resolve_intent(intent, &game, seat);
                assert!(legal & (1u64 << c3) != 0);
            }
            let card = if deal % 2 == 0 { c1 } else { c2 };
            game.play_card(card);
        }
        assert_eq!(game.state.team_02_score as u32 + game.state.team_13_score as u32, 120);
    }
}

#[test]
fn random_bot_picks_indexed_legal_card() {
    let mut rng = LcgRng::new(5);
    let mask = (1u64 << 3) | (1u64 << 17) | (1u64 << 30);
    let mut probe = LcgRng::new(5);
    let k = (probe.next_u64() as usize) % 3;
    let expected = [3u8, 17, 30][k];
    assert_eq!(select_card_random(mask, &mut rng), expected);
    let mut rng = LcgRng::new(9);
    assert_eq!(select_card_random(0, &mut rng), 64);
}

#[test]
fn heuristic_leads_master_card_first() {
    // Seat 0 holds the ace of diamonds (master), and low hearts; trump spades.
    let hands = [
        (1u64 << 19) | (1u64 << 0) | (1u64 << 1),
        (1u64 << 2) | (1u64 << 3) | (1u64 << 4),
        (1u64 << 10) | (1u64 << 11) | (1u64 << 12),
        (1u64 << 30) | (1u64 << 31) | (1u64 << 5),
    ];
    let game = SuecaSimulatorGame::new(hands, 3, 0);
    assert_eq!(select_card_heuristic(&game, 0), 19);
    // The old heuristic leads the highest card of its longest side suit (hearts).
    assert_eq!(select_card_heuristic_old(&game, 0), 1);
}

#[test]
fn heuristic_follows_cheapest_winner_against_opponent() {
    // Seat 0 leads the king of hearts; seat 3 holds the ace and seven of hearts.
    let hands = [
        (1u64 << 7) | (1u64 << 20),
        (1u64 << 0) | (1u64 << 21),
        (1u64 << 1) | (1u64 << 22),
        (1u64 << 8) | (1u64 << 9),
    ];
    let mut game = SuecaSimulatorGame::new(hands, 2, 0);
    game.play_card(7);
    // Both ace (9) and seven (8) beat the king; the cheapest index wins.
    assert_eq!(select_card_heuristic(&game, 3), 8);
}
