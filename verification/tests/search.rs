use sueca_solver::engine::GameState;
use sueca_solver::search::{
    alpha_beta, generate_led_zobrist, generate_player_zobrist, generate_zobrist_table, get_hash,
    TranspositionTable, LED_SUIT_ZOBRIST, PLAYER_ZOBRIST, ZOBRIST_TABLE,
};

#[test]
fn test_search_simple() {
    let p0_hand = (1u64 << 9) | (1u64 << 8);
    let p3_hand = (1u64 << 7) | (1u64 << 6);
    let p2_hand = (1u64 << 5) | (1u64 << 4);
    let p1_hand = (1u64 << 3) | (1u64 << 2);

    let hands = [p0_hand, p1_hand, p2_hand, p3_hand];
    let mut state = GameState::new(hands, 0, 0);

    let mut tt = TranspositionTable::new(10);
    let mut trick_points = 0;

    let val = alpha_beta(&mut state, -1000, 1000, 8, &mut tt, &mut trick_points);
    assert_eq!(val, 30);
}

#[test]
fn zobrist_tables_match_generator() {
    assert_eq!(generate_zobrist_table(), ZOBRIST_TABLE);
    assert_eq!(generate_player_zobrist(), PLAYER_ZOBRIST);
    assert_eq!(generate_led_zobrist(), LED_SUIT_ZOBRIST);
}

#[test]
fn hash_of_empty_state_is_seat_and_led_keys() {
    let state = GameState::new([0; 4], 0, 2);
    assert_eq!(get_hash(&state), PLAYER_ZOBRIST[2] ^ LED_SUIT_ZOBRIST[4]);
    let state = GameState::new([1 << 5, 0, 0, 1 << 39], 0, 1);
    assert_eq!(
        get_hash(&state),
        ZOBRIST_TABLE[5] ^ ZOBRIST_TABLE[3 * 40 + 39] ^ PLAYER_ZOBRIST[1] ^ LED_SUIT_ZOBRIST[4]
    );
}

#[test]
fn transposition_table_store_then_lookup() {
    let mut tt = TranspositionTable::new(4);
    assert_eq!(tt.table.len(), 16);
    assert_eq!(tt.lookup(0x1234, 0), None);
    tt.store(0x1234, 57, 0, 6, 12);
    assert_eq!(tt.lookup(0x1234, 6), Some((57, 0, 12)));
    assert_eq!(tt.lookup(0x1234, 3), Some((57, 0, 12)));
    assert_eq!(tt.lookup(0x1234, 7), None);
    assert_eq!(tt.lookup_best_move(0x1234), Some(12));
    assert_eq!(tt.lookup(0x1235, 0), None);
    tt.next_generation();
    assert_eq!(tt.lookup(0x1234, 0), None);
    assert_eq!(tt.lookup_best_move(0x1234), None);
}

#[test]
fn search_depth_zero_returns_current_score() {
    let mut state = GameState::new([1 << 9, 1 << 3, 1 << 5, 1 << 7], 0, 0);
    state.team_02_score = 40;
    let mut tt = TranspositionTable::new(6);
    let mut tp = 0u8;
    assert_eq!(alpha_beta(&mut state, -1000, 1000, 0, &mut tt, &mut tp), 40);
}

#[test]
fn search_leaves_state_unchanged() {
    let hands = [(1u64 << 9) | (1u64 << 0), (1u64 << 3) | (1u64 << 31), (1u64 << 5) | (1u64 << 12), (1u64 << 7) | (1u64 << 28)];
    let mut state = GameState::new(hands, 3, 0);
    let before = state;
    let mut tt = TranspositionTable::new(8);
    let mut tp = 0u8;
    let v = alpha_beta(&mut state, -1000, 1000, 8, &mut tt, &mut tp);
    assert!(v >= 0 && v <= 120);
    assert_eq!(state, before);
    assert_eq!(tp, 0);
}

fn plain_minimax(s: &GameState, tp: u8) -> i16 {
    if s.trick_number == 10 {
        return s.team_02_score as i16;
    }
    let legal = s.legal_moves();
    let maxing = s.current_player % 2 == 0;
    let mut best: i16 = if maxing { -1000 } else { 1000 };
    for c in 0..40u8 {
        if (legal >> c) & 1 == 1 {
            let mut n = *s;
            let mut ntp = tp;
            n.play_card_and_resolve(c, &mut ntp);
            let v = plain_minimax(&n, ntp);
            if (maxing && v > best) || (!maxing && v < best) {
                best = v;
            }
        }
    }
    best
}

#[test]
fn transposed_positions_do_not_share_table_answers() {
    // Three tricks left. Two lines reach the same hands with other scores; the table
    // answers only for the position it recorded, so the search finds the minimax value.
    let mut s = GameState::new([50333696, 4297064512, 71434240, 277872640], 1, 0);
    s.trick_number = 7;
    s.team_02_score = 34;
    s.team_13_score = 64;
    assert_eq!(plain_minimax(&s, 0), 43);
    let mut tt = TranspositionTable::new(16);
    let mut tp = 0u8;
    assert_eq!(alpha_beta(&mut s, -1000, 1000, 40, &mut tt, &mut tp), 43);
}

#[test]
fn one_ply_search_is_the_one_ply_minimax() {
    // Seat 3 closes the trick: its best reply for team 1/3 decides the value.
    let mut s = GameState::new([1 << 9, 1 << 8, 1 << 7, (1 << 6) | (1 << 19)], 0, 0);
    let mut tp = 0u8;
    for c in [9u8, 8, 7] {
        s.play_card_and_resolve(c, &mut tp);
    }
    let expected = plain_minimax_one_ply(&s, tp);
    let mut tt = TranspositionTable::new(8);
    assert_eq!(alpha_beta(&mut s, -1000, 1000, 1, &mut tt, &mut tp), expected);
}

fn plain_minimax_one_ply(s: &GameState, tp: u8) -> i16 {
    let legal = s.legal_moves();
    let maxing = s.current_player % 2 == 0;
    let mut best: i16 = if maxing { -1000 } else { 1000 };
    for c in 0..40u8 {
        if (legal >> c) & 1 == 1 {
            let mut n = *s;
            let mut ntp = tp;
            n.play_card_and_resolve(c, &mut ntp);
            let v = n.team_02_score as i16;
            if (maxing && v > best) || (!maxing && v < best) {
                best = v;
            }
        }
    }
    best
}

#[test]
fn fresh_table_entries_are_default() {
    let tt = TranspositionTable::new(4);
    assert_eq!(tt.table.len(), 16);
    assert_eq!(tt.mask, 15);
    assert_eq!(tt.lookup(0, 0), Some((0, 0, 0)));
    assert_eq!(tt.lookup(0, 1), None);
    assert_eq!(tt.lookup(5, 0), None);
}

#[test]
fn full_searches_match_plain_minimax() {
    let deals = sueca_solver::deals::generate_deals_rust_solver(0, 100, 7);
    for (d, deal) in deals.iter().enumerate() {
        let mut s = GameState::new(deal.hands, deal.trump, 0);
        let mut tp = 0u8;
        let mut x: u64 = d as u64 * 7919 + 1;
        while s.trick_number < 7 {
            let legal = s.legal_moves();
            x = x.wrapping_mul(6364136223846793005).wrapping_add(1442695040888963407);
            let mut k = (x >> 33) % legal.count_ones() as u64;
            let mut c = 0u8;
            for cc in 0..40u8 {
                if (legal >> cc) & 1 == 1 {
                    if k == 0 {
                        c = cc;
                        break;
                    }
                    k -= 1;
                }
            }
            s.play_card_and_resolve(c, &mut tp);
        }
        let exact = plain_minimax(&s, tp);
        let mut tt = TranspositionTable::new(16);
        let mut s2 = s;
        let mut tp2 = tp;
        assert_eq!(alpha_beta(&mut s2, -1000, 1000, 40, &mut tt, &mut tp2), exact, "deal {}", d);
        // A second search on the same table agrees.
        assert_eq!(alpha_beta(&mut s2, -1000, 1000, 40, &mut tt, &mut tp2), exact, "deal {} again", d);
    }
}

fn plain_minimax_depth(s: &GameState, tp: u8, k: u8) -> i16 {
    if s.trick_number == 10 || k == 0 {
        return s.team_02_score as i16;
    }
    let legal = s.legal_moves();
    let maxing = s.current_player % 2 == 0;
    let mut best: i16 = if maxing { -1000 } else { 1000 };
    for c in 0..40u8 {
        if (legal >> c) & 1 == 1 {
            let mut n = *s;
            let mut ntp = tp;
            n.play_card_and_resolve(c, &mut ntp);
            let v = plain_minimax_depth(&n, ntp, k - 1);
            if (maxing && v > best) || (!maxing && v < best) {
                best = v;
            }
        }
    }
    best
}

#[test]
fn depth_limited_searches_match_depth_limited_minimax() {
    let deals = sueca_solver::deals::generate_deals_rust_solver(1, 40, 11);
    for (d, deal) in deals.iter().enumerate() {
        let mut s = GameState::new(deal.hands, deal.trump, (d % 4) as u8);
        let mut tp = 0u8;
        // Play a few lowest legal cards to reach a position inside a trick.
        for _ in 0..(d % 7) {
            let legal = s.legal_moves();
            s.play_card_and_resolve(legal.trailing_zeros() as u8, &mut tp);
        }
        for plies in 1..=5u8 {
            let exact = plain_minimax_depth(&s, tp, plies);
            let mut tt = TranspositionTable::new(12);
            let mut s2 = s;
            let mut tp2 = tp;
            assert_eq!(alpha_beta(&mut s2, -1000, 1000, plies, &mut tt, &mut tp2), exact, "deal {} plies {}", d, plies);
        }
    }
}
