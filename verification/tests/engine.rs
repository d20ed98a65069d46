use sueca_solver::engine::{next_player_after, GameState, Suit, CARD_POINTS, CARD_RANK, CARD_SUIT, TURN_ORDER};

#[test]
fn test_beats() {
    let mut state = GameState::new([0; 4], 3, 0); // Spades is trump
    state.led_suit = 0; // Hearts led

    let ace_hearts = 9;
    let seven_hearts = 8;
    let king_hearts = 7;
    let two_hearts = 0;
    let two_spades = 30; // Trump

    assert!(state.beats(two_spades, ace_hearts));
    assert!(state.beats(seven_hearts, king_hearts));
    assert!(state.beats(ace_hearts, seven_hearts));

    let two_diamonds = 10;
    assert!(!state.beats(two_diamonds, two_hearts));
}

#[test]
fn test_deck_points() {
    let total: u8 = CARD_POINTS.iter().sum();
    assert_eq!(total, 120);

    for suit in 0..4 {
        let mut suit_pts = 0;
        for rank in 0..10 {
            suit_pts += CARD_POINTS[(suit * 10 + rank) as usize];
        }
        assert_eq!(suit_pts, 30);
    }
}

#[test]
fn test_turn_order() {
    assert_eq!(next_player_after(0), 3);
    assert_eq!(next_player_after(3), 2);
    assert_eq!(next_player_after(2), 1);
    assert_eq!(next_player_after(1), 0);
}

#[test]
fn test_play_card_logic() {
    let mut hands = [0u64; 4];
    for s in 0..4 {
        hands[s] = 0x3FFu64 << (s * 10);
    }

    let mut state = GameState::new(hands, 3, 0); // Spades is trump, Seat 0 leads

    let mut trick_pts = 0;
    state.play_card_and_resolve(0, &mut trick_pts);

    assert_eq!(state.led_suit, 0);
    assert_eq!(state.current_trick_best_card, 0);
    assert_eq!(state.current_trick_winner, 0);
    assert_eq!(state.current_player, 3); // 0 -> 3

    state.play_card_and_resolve(31, &mut trick_pts);
    assert_eq!(state.current_trick_best_card, 31);
    assert_eq!(state.current_trick_winner, 3);
    assert_eq!(state.current_player, 2); // 3 -> 2
}

#[test]
fn suit_from_index() {
    assert_eq!(Suit::from_u8(0), Suit::Hearts);
    assert_eq!(Suit::from_u8(1), Suit::Diamonds);
    assert_eq!(Suit::from_u8(2), Suit::Clubs);
    assert_eq!(Suit::from_u8(3), Suit::Spades);
}

#[test]
fn card_tables_agree_with_numbering() {
    for c in 0..40usize {
        assert_eq!(CARD_SUIT[c] as usize, c / 10);
        assert_eq!(CARD_RANK[c] as usize, c % 10);
    }
    assert_eq!(TURN_ORDER, [0, 3, 2, 1]);
}

#[test]
fn legal_moves_follow_suit_or_free() {
    // Seat 0 holds hearts 0..4 and spades 30..34.
    let hand = 0x1Fu64 | (0x1Fu64 << 30);
    let mut state = GameState::new([hand, 0, 0, 0], 1, 0);
    assert_eq!(state.legal_moves(), hand); // leading: whole hand
    state.cards_played_in_trick = 1;
    state.led_suit = 0;
    assert_eq!(state.legal_moves(), 0x1F); // must follow hearts
    state.led_suit = 2;
    assert_eq!(state.legal_moves(), hand); // void in clubs: anything
}

#[test]
fn full_trick_awards_points_to_winner() {
    let mut hands = [0u64; 4];
    hands[0] = 1 << 9; // ace of hearts
    hands[3] = 1 << 8; // seven of hearts
    hands[2] = 1 << 7; // king of hearts
    hands[1] = 1 << 35; // queen of spades (trump)
    let mut state = GameState::new(hands, 3, 0);
    let mut tp = 0u8;
    state.play_card_and_resolve(9, &mut tp);
    state.play_card_and_resolve(8, &mut tp);
    state.play_card_and_resolve(7, &mut tp);
    state.play_card_and_resolve(35, &mut tp);
    assert_eq!(tp, 0);
    assert_eq!(state.team_13_score, 11 + 10 + 4 + 2);
    assert_eq!(state.team_02_score, 0);
    assert_eq!(state.current_player, 1);
    assert_eq!(state.trick_number, 1);
    assert_eq!(state.led_suit, 4);
    assert_eq!(state.current_trick_best_card, 40);
    assert!(!state.is_terminal());
    assert!(state.hands.iter().all(|&h| h == 0));
}

#[test]
fn a_deal_lasts_forty_legal_plays() {
    let mut hands = [0u64; 4];
    for c in 0..40u64 {
        hands[((c * 7) % 4) as usize] |= 1 << c;
    }
    let mut s = GameState::new(hands, 1, 2);
    let mut tp = 0u8;
    let mut k = 0usize;
    while s.legal_moves() != 0 {
        assert!(!s.is_terminal());
        assert_eq!(s.trick_number as usize, k / 4);
        let legal = s.legal_moves();
        let c = (63 - legal.leading_zeros()) as u8;
        s.play_card_and_resolve(c, &mut tp);
        k += 1;
    }
    assert_eq!(k, 40);
    assert!(s.is_terminal());
    assert_eq!(s.team_02_score as u32 + s.team_13_score as u32, 120);
}
