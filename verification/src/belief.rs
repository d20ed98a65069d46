//! What a player can see of a game, summed up as numbers: ranks, points and counts
//! taken from the public record and the player's own hand.
use vstd::prelude::*;
use crate::bits::{count, count_below, highest, in_deck, lemma_has_and, lemma_has_zero, lemma_highest, lemma_nonzero_has_lowest, lemma_remove_decreases, lowest, lowest_card, mem, popcount, suit_mask, suit_mask_spec, DECK};
use crate::engine::{beats, card_points, card_suit, lemma_deck_points, lemma_points_le_deck, lemma_remove_card, mask_points, points_of, suit_of, GameState};
use crate::simulator::{trick_winner_seat, void_bit, SuecaSimulatorGame};

verus! {

/// The rank of the highest card of suit `suit` in `m`, or -1 when `m` has none.
pub open spec fn top_rank(m: u64, suit: int) -> int {
    let in_suit = m & suit_mask_spec(suit);
    if in_suit == 0 {
        -1
    } else {
        highest(in_suit) - 10 * suit
    }
}

fn top_rank_of_suit(m: u64, suit: u8) -> (r: i8)
    requires
        suit <= 6,
    ensures
        r == top_rank(m, suit as int),
        -1 <= r <= 9,
{
    let mask = suit_mask(suit);
    let in_suit = m & mask;
    if in_suit == 0 {
        -1
    } else {
        proof {
            lemma_highest(in_suit);
            lemma_has_and(m, mask, highest(in_suit));
        }
        let bit_idx = (63 - in_suit.leading_zeros()) as u8;
        (bit_idx - suit * 10) as i8
    }
}

/// The rank (0 = 2 .. 9 = A) of the highest card of `suit` in `hand`, -1 if none.
pub fn max_rank_in_suit(hand: u64, suit: u8) -> (r: i8)
    requires
        suit <= 6,
    ensures
        r == top_rank(hand, suit as int),
        -1 <= r <= 9,
{
    top_rank_of_suit(hand, suit)
}

/// The rank of the highest card of `suit` still held by anyone, -1 if none is left.
pub fn highest_unplayed_rank_in_suit(all_hands: u64, suit: u8) -> (r: i8)
    requires
        suit <= 6,
    ensures
        r == top_rank(all_hands, suit as int),
        -1 <= r <= 9,
{
    top_rank_of_suit(all_hands, suit)
}

/// The points of the cards in `mask`.
pub fn sum_points(mask: u64) -> (pts: usize)
    requires
        in_deck(mask),
    ensures
        pts == mask_points(mask),
        pts <= 120,
{
    let mut pts: usize = 0;
    let mut temp = mask;
    proof {
        lemma_points_le_deck(mask, 40);
        lemma_deck_points();
    }
    while temp != 0
        invariant
            in_deck(temp),
            pts + mask_points(temp) == mask_points(mask),
            mask_points(mask) <= 120,
        decreases temp,
    {
        proof {
            lemma_nonzero_has_lowest(temp);
            lemma_remove_decreases(temp, lowest(temp));
        }
        let card = lowest_card(temp);
        proof {
            lemma_remove_card(temp, card as int);
        }
        pts = pts + card_points(card) as usize;
        temp = temp & !(1u64 << card);
    }
    proof {
        crate::engine::lemma_points_zero(temp, 40);
    }
    pts
}


/// A feature value as a fraction `num / den`; a zero denominator stands for 0.
#[derive(Clone, Copy, Debug, PartialEq, Eq, Structural)]
pub struct Fraction {
    pub num: i32,
    pub den: i32,
}

/// The suit led in the current trick, -1 before its first card.
pub open spec fn led_of(g: SuecaSimulatorGame) -> int {
    if g.current_trick_len > 0 {
        suit_of(g.current_trick[0] as int)
    } else {
        -1
    }
}

/// The cards still held by anyone.
pub open spec fn held(g: SuecaSimulatorGame) -> u64 {
    let h = g.state.hands;
    h[0] | h[1] | h[2] | h[3]
}

/// The first `n` cards of a trick as a set.
pub open spec fn trick_set(t: [u8; 4], n: int) -> u64
    decreases n,
{
    if n <= 0 {
        0
    } else {
        trick_set(t, n - 1) | (1u64 << (t[n - 1] as u64))
    }
}

/// The cards played in earlier tricks: neither held nor on the table.
pub open spec fn prev_played(g: SuecaSimulatorGame) -> u64 {
    !held(g) & !trick_set(g.current_trick, g.current_trick_len as int) & DECK
}

/// The points of the first `n` cards of the trick.
pub open spec fn trick_points_below(t: [u8; 4], n: int) -> int
    decreases n,
{
    if n <= 0 {
        0
    } else {
        trick_points_below(t, n - 1) + points_of(t[n - 1] as int)
    }
}

/// A yes/no feature.
pub open spec fn flag(b: bool) -> (int, int) {
    if b {
        (1, 1)
    } else {
        (0, 1)
    }
}

/// The least points among the cards below `n` of `m` that beat `best`, 99 when none do.
pub open spec fn min_win_points(m: u64, best: int, trump: int, led: int, n: int) -> int
    decreases n,
{
    if n <= 0 {
        99
    } else {
        let prev = min_win_points(m, best, trump, led, n - 1);
        let c = n - 1;
        if mem(m, c) && beats(c, best, trump, led) && points_of(c) < prev {
            points_of(c)
        } else {
            prev
        }
    }
}

/// The least points among the cards of `m` below `n`, 99 when there are none.
pub open spec fn min_points(m: u64, n: int) -> int
    decreases n,
{
    if n <= 0 {
        99
    } else {
        let prev = min_points(m, n - 1);
        if mem(m, n - 1) && points_of(n - 1) < prev {
            points_of(n - 1)
        } else {
            prev
        }
    }
}

/// The number of suits below `n` that `hand` holds no card of.
pub open spec fn void_suits_below(hand: u64, n: int) -> int
    decreases n,
{
    if n <= 0 {
        0
    } else {
        void_suits_below(hand, n - 1) + if hand & suit_mask_spec(n - 1) == 0 {
            1int
        } else {
            0int
        }
    }
}

/// A side suit: neither trump nor the led suit.
pub open spec fn is_side(s: int, trump: int, led: int) -> bool {
    s != trump && s != led
}

/// The most cards `hand` holds in one side suit below `n`.
pub open spec fn longest_side_below(hand: u64, trump: int, led: int, n: int) -> int
    decreases n,
{
    if n <= 0 {
        0
    } else {
        let prev = longest_side_below(hand, trump, led, n - 1);
        let k = count(hand & suit_mask_spec(n - 1)) as int;
        if is_side(n - 1, trump, led) && k > prev {
            k
        } else {
            prev
        }
    }
}

/// The fewest cards `hand` holds in one side suit below `n` that it holds at all, 99
/// when there is none.
pub open spec fn shortest_side_below(hand: u64, trump: int, led: int, n: int) -> int
    decreases n,
{
    if n <= 0 {
        99
    } else {
        let prev = shortest_side_below(hand, trump, led, n - 1);
        let k = count(hand & suit_mask_spec(n - 1)) as int;
        if is_side(n - 1, trump, led) && k > 0 && k < prev {
            k
        } else {
            prev
        }
    }
}

/// The `j`-th non-trump suit in suit order.
pub open spec fn side_suit(j: int, trump: int) -> int {
    if j < trump {
        j
    } else {
        j + 1
    }
}

/// The number of suits below `n` that some player is known to be void in.
pub open spec fn known_void_suits_below(voids: [u8; 4], n: int) -> int
    decreases n,
{
    if n <= 0 {
        0
    } else {
        known_void_suits_below(voids, n - 1) + if exists|p: int| 0 <= p < 4 && #[trigger] void_bit(voids[p], n - 1) {
            1int
        } else {
            0int
        }
    }
}

/// The number of suits below `n` all of whose ten cards were played in earlier tricks.
pub open spec fn depleted_suits_below(prev: u64, n: int) -> int
    decreases n,
{
    if n <= 0 {
        0
    } else {
        depleted_suits_below(prev, n - 1) + if count(prev & suit_mask_spec(n - 1)) == 10 {
            1int
        } else {
            0int
        }
    }
}

/// The points of team `team`'s side (0 for seats 0 and 2).
pub open spec fn points_of_team(st: GameState, team: int) -> int {
    if team == 0 {
        st.team_02_score as int
    } else {
        st.team_13_score as int
    }
}

/// Feature `i` of what `seat` sees of `g`, as `(numerator, denominator)`.
pub open spec fn belief_fraction(g: SuecaSimulatorGame, seat: int, i: int) -> (int, int) {
    let st = g.state;
    let hand = st.hands[seat];
    let trump = st.trump as int;
    let led = led_of(g);
    let has_led = g.current_trick_len > 0;
    let all = held(g);
    let prev = prev_played(g);
    let len = g.current_trick_len as int;
    let partner = (seat + 2) % 4;
    let opp_voids = g.voids[(seat + 1) % 4] | g.voids[(seat + 3) % 4];
    let legal = st.legal_mask();
    let best = st.current_trick_best_card as int;
    let remaining = mask_points(all) as int;
    let our_team = seat % 2;
    if i == 0 {
        flag(has_led && hand & suit_mask_spec(led) != 0)
    } else if i == 1 {
        flag(hand & suit_mask_spec(trump) != 0)
    } else if i == 2 {
        (if has_led { count(hand & suit_mask_spec(led)) as int } else { 0 }, 10)
    } else if i == 3 {
        (count(hand & suit_mask_spec(trump)) as int, 10)
    } else if i == 4 {
        (mask_points(hand) as int, remaining)
    } else if i == 5 {
        flag(len == 0)
    } else if i == 6 {
        flag(len == 3)
    } else if i == 7 {
        flag(has_led && seat % 2 == (g.trick_winner() as u8) % 2)
    } else if i == 8 {
        (trick_points_below(g.current_trick, len), 44)
    } else if i == 9 {
        flag(has_led && led != trump && exists|k: int| 0 <= k < len && suit_of(#[trigger] g.current_trick[k] as int) == trump)
    } else if i == 10 {
        flag(has_led && void_bit(g.voids[partner], led))
    } else if i == 11 {
        flag(void_bit(g.voids[partner], trump))
    } else if i == 12 {
        flag(has_led && void_bit(opp_voids, led))
    } else if i == 13 {
        flag(void_bit(opp_voids, trump))
    } else if i == 14 {
        flag(has_led && mem(prev, led * 10 + 9))
    } else if i == 15 {
        flag(has_led && mem(prev, led * 10 + 8))
    } else if i == 16 {
        flag(mem(prev, trump * 10 + 9))
    } else if i == 17 {
        flag(has_led && top_rank(all, led) >= 0 && top_rank(hand, led) == top_rank(all, led))
    } else if i == 18 {
        flag(top_rank(all, trump) >= 0 && top_rank(hand, trump) == top_rank(all, trump))
    } else if i == 19 {
        flag(has_led && min_win_points(legal, best, trump, led, 40) < 99)
    } else if i == 20 {
        (if has_led && min_win_points(legal, best, trump, led, 40) < 99 {
            min_win_points(legal, best, trump, led, 40)
        } else {
            0
        }, 11)
    } else if i == 21 {
        (if min_points(legal, 40) < 99 { min_points(legal, 40) } else { 0 }, 11)
    } else if i == 22 {
        (remaining, 120)
    } else if i == 23 {
        (st.trick_number as int, 9)
    } else if i == 24 {
        (count(all & suit_mask_spec(trump)) as int, 10)
    } else if i == 25 {
        (points_of_team(st, our_team) - points_of_team(st, 1 - our_team) + 120, 240)
    } else if i == 26 {
        (void_suits_below(hand, 4), 3)
    } else if i == 27 {
        (longest_side_below(hand, trump, led, 4), 10)
    } else if i == 28 {
        (if shortest_side_below(hand, trump, led, 4) < 99 { shortest_side_below(hand, trump, led, 4) } else { 0 }, 10)
    } else if 29 <= i <= 31 {
        (count(prev & suit_mask_spec(side_suit(i - 29, trump))) as int, 10)
    } else if i == 32 {
        (points_of_team(st, our_team), 120)
    } else if i == 33 {
        (known_void_suits_below(g.voids, 4), 4)
    } else {
        (depleted_suits_below(prev, 4), 4)
    }
}

/// What the features read of a game is in range: the seat, the trump, the trick record
/// and the hands.
pub open spec fn belief_ready(g: SuecaSimulatorGame, seat: int) -> bool {
    &&& 0 <= seat < 4
    &&& g.state.trump < 4
    &&& g.state.current_player < 4
    &&& g.trick_ok()
    &&& (g.state.cards_played_in_trick != 0 ==> g.state.led_suit <= 6)
    &&& (g.current_trick_len > 0 ==> g.state.current_trick_best_card < 40)
    &&& forall|p: int| 0 <= p < 4 ==> in_deck(#[trigger] g.state.hands[p])
}

fn trick_mask_of(g: &SuecaSimulatorGame) -> (m: u64)
    requires
        g.trick_ok(),
    ensures
        m == trick_set(g.current_trick, g.current_trick_len as int),
{
    let mut m: u64 = 0;
    let mut i: usize = 0;
    while i < g.current_trick_len
        invariant
            g.trick_ok(),
            i <= g.current_trick_len,
            m == trick_set(g.current_trick, i as int),
        decreases g.current_trick_len - i,
    {
        m = m | (1u64 << g.current_trick[i]);
        i = i + 1;
    }
    m
}

fn trick_points_of(g: &SuecaSimulatorGame) -> (pts: usize)
    requires
        g.trick_ok(),
    ensures
        pts == trick_points_below(g.current_trick, g.current_trick_len as int),
        pts <= 44,
{
    let mut pts: usize = 0;
    let mut i: usize = 0;
    while i < g.current_trick_len
        invariant
            g.trick_ok(),
            i <= g.current_trick_len,
            pts == trick_points_below(g.current_trick, i as int),
            pts <= 11 * i,
        decreases g.current_trick_len - i,
    {
        pts = pts + card_points(g.current_trick[i]) as usize;
        i = i + 1;
    }
    pts
}

fn trick_has_trump(g: &SuecaSimulatorGame, trump: u8) -> (r: bool)
    requires
        g.trick_ok(),
    ensures
        r == exists|k: int| 0 <= k < g.current_trick_len && suit_of(#[trigger] g.current_trick[k] as int) == trump,
{
    let mut i: usize = 0;
    while i < g.current_trick_len
        invariant
            g.trick_ok(),
            i <= g.current_trick_len,
            forall|k: int| 0 <= k < i ==> suit_of(#[trigger] g.current_trick[k] as int) != trump,
        decreases g.current_trick_len - i,
    {
        if card_suit(g.current_trick[i]) == trump {
            return true;
        }
        i = i + 1;
    }
    false
}

fn min_winning_points(legal: u64, best: u8, trump: u8, led: u8) -> (r: u32)
    requires
        best < 40,
    ensures
        r == min_win_points(legal, best as int, trump as int, led as int, 40),
        r <= 99,
{
    let mut cheapest: u32 = 99;
    let mut c: u8 = 0;
    while c < 40
        invariant
            c <= 40,
            best < 40,
            cheapest == min_win_points(legal, best as int, trump as int, led as int, c as int),
            cheapest <= 99,
        decreases 40 - c,
    {
        if (legal >> c) & 1u64 == 1u64 && GameState::beats_card(c, best, trump, led) {
            let pts = card_points(c) as u32;
            if pts < cheapest {
                cheapest = pts;
            }
        }
        c = c + 1;
    }
    cheapest
}

fn min_card_points(legal: u64) -> (r: u32)
    ensures
        r == min_points(legal, 40),
        r <= 99,
{
    let mut cheapest: u32 = 99;
    let mut c: u8 = 0;
    while c < 40
        invariant
            c <= 40,
            cheapest == min_points(legal, c as int),
            cheapest <= 99,
        decreases 40 - c,
    {
        if (legal >> c) & 1u64 == 1u64 {
            let pts = card_points(c) as u32;
            if pts < cheapest {
                cheapest = pts;
            }
        }
        c = c + 1;
    }
    cheapest
}

fn void_suit_count(hand: u64) -> (r: u32)
    ensures
        r == void_suits_below(hand, 4),
        r <= 4,
{
    let mut r: u32 = 0;
    let mut s: u8 = 0;
    while s < 4
        invariant
            s <= 4,
            r == void_suits_below(hand, s as int),
            r <= s,
        decreases 4 - s,
    {
        if hand & suit_mask(s) == 0 {
            r = r + 1;
        }
        s = s + 1;
    }
    r
}

fn side_suit_lengths(hand: u64, trump: u8, led: i8) -> (r: (u32, u32))
    requires
        -1 <= led < 4,
    ensures
        r.0 == longest_side_below(hand, trump as int, led as int, 4),
        r.1 == shortest_side_below(hand, trump as int, led as int, 4),
        r.0 <= 64,
        r.1 <= 99,
{
    let mut max_len: u32 = 0;
    let mut min_len: u32 = 99;
    let mut s: u8 = 0;
    while s < 4
        invariant
            s <= 4,
            -1 <= led < 4,
            max_len == longest_side_below(hand, trump as int, led as int, s as int),
            min_len == shortest_side_below(hand, trump as int, led as int, s as int),
            max_len <= 64,
            min_len <= 99,
        decreases 4 - s,
    {
        let side = s != trump && (led < 0 || s != led as u8);
        let k = popcount(hand & suit_mask(s));
        proof {
            crate::bits::lemma_count_below_bound(hand & suit_mask_spec(s as int), 64);
        }
        if side {
            if k > max_len {
                max_len = k;
            }
            if k > 0 && k < min_len {
                min_len = k;
            }
        }
        s = s + 1;
    }
    (max_len, min_len)
}

fn known_void_suits(voids: [u8; 4]) -> (r: u32)
    ensures
        r == known_void_suits_below(voids, 4),
        r <= 4,
{
    let mut r: u32 = 0;
    let mut suit: u8 = 0;
    while suit < 4
        invariant
            suit <= 4,
            r == known_void_suits_below(voids, suit as int),
            r <= suit,
        decreases 4 - suit,
    {
        let mut any_void = false;
        let mut player: usize = 0;
        while player < 4
            invariant
                player <= 4,
                suit < 4,
                any_void == exists|p: int| 0 <= p < player && #[trigger] void_bit(voids[p], suit as int),
            decreases 4 - player,
        {
            let v = voids[player];
            proof {
                assert((v & (1u8 << suit)) != 0u8 <==> ((v >> suit) & 1u8 == 1u8)) by (bit_vector)
                    requires
                        suit < 4,
                ;
            }
            let ghost before = any_void;
            if (v & (1u8 << suit)) != 0 {
                any_void = true;
            }
            proof {
                if (v & (1u8 << suit)) != 0 {
                    assert(void_bit(voids[player as int], suit as int));
                } else if !before {
                    assert forall|p: int| 0 <= p < player + 1 implies !#[trigger] void_bit(voids[p], suit as int) by {
                        if p < player {
                            assert(!(exists|q: int| 0 <= q < player && #[trigger] void_bit(voids[q], suit as int)));
                        }
                    }
                }
            }
            player = player + 1;
        }
        if any_void {
            r = r + 1;
        }
        suit = suit + 1;
    }
    r
}

fn depleted_suits(prev: u64) -> (r: u32)
    ensures
        r == depleted_suits_below(prev, 4),
        r <= 4,
{
    let mut r: u32 = 0;
    let mut suit: u8 = 0;
    while suit < 4
        invariant
            suit <= 4,
            r == depleted_suits_below(prev, suit as int),
            r <= suit,
        decreases 4 - suit,
    {
        if popcount(prev & suit_mask(suit)) == 10 {
            r = r + 1;
        }
        suit = suit + 1;
    }
    r
}

fn void_flag(v: u8, s: u8) -> (r: bool)
    requires
        s < 8,
    ensures
        r == void_bit(v, s as int),
{
    proof {
        assert((v & (1u8 << s)) != 0u8 <==> ((v >> s) & 1u8 == 1u8)) by (bit_vector)
            requires
                s < 8,
        ;
    }
    (v & (1u8 << s)) != 0
}

fn flag_of(b: bool) -> (f: Fraction)
    ensures
        (f.num as int, f.den as int) == flag(b),
{
    if b {
        Fraction { num: 1, den: 1 }
    } else {
        Fraction { num: 0, den: 1 }
    }
}

fn held_cards(game: &SuecaSimulatorGame) -> (all: u64)
    requires
        forall|p: int| 0 <= p < 4 ==> in_deck(#[trigger] game.state.hands[p]),
    ensures
        all == held(*game),
        in_deck(all),
{
    let h = game.state.hands;
    let all_hands = h[0] | h[1] | h[2] | h[3];
    proof {
        assert forall|c: int| mem(all_hands, c) implies c < 40 by {
            crate::bits::lemma_has_or(h[0], h[1], c);
            crate::bits::lemma_has_or(h[0] | h[1], h[2], c);
            crate::bits::lemma_has_or(h[0] | h[1] | h[2], h[3], c);
            assert(in_deck(h[0]) && in_deck(h[1]) && in_deck(h[2]) && in_deck(h[3]));
        }
    }
    all_hands
}

fn led_suit_of(game: &SuecaSimulatorGame) -> (led: u8)
    requires
        game.trick_ok(),
    ensures
        game.current_trick_len > 0 ==> led == led_of(*game),
        led < 4,
{
    if game.current_trick_len > 0 {
        card_suit(game.current_trick[0])
    } else {
        0
    }
}

fn prev_played_of(game: &SuecaSimulatorGame) -> (prev: u64)
    requires
        belief_ready(*game, 0),
    ensures
        prev == prev_played(*game),
{
    let all_hands = held_cards(game);
    let trick_mask = trick_mask_of(game);
    (!all_hands) & (!trick_mask) & DECK
}

/// Features 0 to 9: hand presence and shape, and the trick state.
fn hand_and_trick_features(game: &SuecaSimulatorGame, seat: u8) -> (f: [Fraction; 10])
    requires
        belief_ready(*game, seat as int),
    ensures
        forall|i: int| 0 <= i < 10 ==> (#[trigger] f[i].num as int, f[i].den as int) == belief_fraction(*game, seat as int, i),
{
    let ghost g = *game;
    let hand = game.state.hands[seat as usize];
    let trump = game.state.trump;
    let position = game.current_trick_len;
    let has_led = position > 0;
    let led = led_suit_of(game);
    let all_hands = held_cards(game);
    proof {
        assert(in_deck(hand));
    }
    let trump_mask = suit_mask(trump);
    let led_mask = suit_mask(led);
    let remaining_pts = sum_points(all_hands);
    let hand_pts = sum_points(hand);
    let feat0 = flag_of(has_led && (hand & led_mask) != 0);
    let feat1 = flag_of((hand & trump_mask) != 0);
    let led_count: i32 = if has_led {
        popcount(hand & led_mask) as i32
    } else {
        0
    };
    let trump_count = popcount(hand & trump_mask) as i32;
    let feat5 = flag_of(position == 0);
    let feat6 = flag_of(position == 3);
    let winner = trick_winner_seat(game);
    let partner_winning = match winner {
        Some(w) => seat % 2 == w % 2,
        None => false,
    };
    let feat7 = flag_of(partner_winning);
    let trick_pts = trick_points_of(game) as i32;
    let cut = has_led && led != trump && trick_has_trump(game, trump);
    let feat9 = flag_of(cut);
    proof {
        crate::bits::lemma_count_below_bound(hand & led_mask, 64);
        crate::bits::lemma_count_below_bound(hand & trump_mask, 64);
    }
    let f: [Fraction; 10] = [
        feat0,
        feat1,
        Fraction { num: led_count, den: 10 },
        Fraction { num: trump_count, den: 10 },
        Fraction { num: hand_pts as i32, den: remaining_pts as i32 },
        feat5,
        feat6,
        feat7,
        Fraction { num: trick_pts, den: 44 },
        feat9,
    ];
    proof {
        assert((f[0].num as int, f[0].den as int) == belief_fraction(g, seat as int, 0));
        assert((f[1].num as int, f[1].den as int) == belief_fraction(g, seat as int, 1));
        assert((f[2].num as int, f[2].den as int) == belief_fraction(g, seat as int, 2));
        assert((f[3].num as int, f[3].den as int) == belief_fraction(g, seat as int, 3));
        assert((f[4].num as int, f[4].den as int) == belief_fraction(g, seat as int, 4));
        assert((f[5].num as int, f[5].den as int) == belief_fraction(g, seat as int, 5));
        assert((f[6].num as int, f[6].den as int) == belief_fraction(g, seat as int, 6));
        assert((f[7].num as int, f[7].den as int) == belief_fraction(g, seat as int, 7));
        assert((f[8].num as int, f[8].den as int) == belief_fraction(g, seat as int, 8));
        assert((f[9].num as int, f[9].den as int) == belief_fraction(g, seat as int, 9));
    }
    f
}

/// Features 10 to 18: public voids and card tracking.
fn void_and_tracking_features(game: &SuecaSimulatorGame, seat: u8) -> (f: [Fraction; 9])
    requires
        belief_ready(*game, seat as int),
    ensures
        forall|i: int| 0 <= i < 9 ==> (#[trigger] f[i].num as int, f[i].den as int) == belief_fraction(*game, seat as int, i + 10),
{
    let ghost g = *game;
    let hand = game.state.hands[seat as usize];
    let trump = game.state.trump;
    let has_led = game.current_trick_len > 0;
    let led = led_suit_of(game);
    let all_hands = held_cards(game);
    let prev = prev_played_of(game);
    let partner_seat = (seat + 2) % 4;
    let opp_voids = game.voids[((seat + 1) % 4) as usize] | game.voids[((seat + 3) % 4) as usize];
    let feat10 = flag_of(has_led && void_flag(game.voids[partner_seat as usize], led));
    let feat11 = flag_of(void_flag(game.voids[partner_seat as usize], trump));
    let feat12 = flag_of(has_led && void_flag(opp_voids, led));
    let feat13 = flag_of(void_flag(opp_voids, trump));
    let feat14 = flag_of(has_led && (prev >> (led * 10 + 9)) & 1u64 == 1u64);
    let feat15 = flag_of(has_led && (prev >> (led * 10 + 8)) & 1u64 == 1u64);
    let feat16 = flag_of((prev >> (trump * 10 + 9)) & 1u64 == 1u64);
    let boss_led = if has_led {
        let top = highest_unplayed_rank_in_suit(all_hands, led);
        top >= 0 && max_rank_in_suit(hand, led) == top
    } else {
        false
    };
    let feat17 = flag_of(boss_led);
    let top_trump = highest_unplayed_rank_in_suit(all_hands, trump);
    let feat18 = flag_of(top_trump >= 0 && max_rank_in_suit(hand, trump) == top_trump);
    let f: [Fraction; 9] = [feat10, feat11, feat12, feat13, feat14, feat15, feat16, feat17, feat18];
    proof {
        assert((f[0].num as int, f[0].den as int) == belief_fraction(g, seat as int, 10));
        assert((f[1].num as int, f[1].den as int) == belief_fraction(g, seat as int, 11));
        assert((f[2].num as int, f[2].den as int) == belief_fraction(g, seat as int, 12));
        assert((f[3].num as int, f[3].den as int) == belief_fraction(g, seat as int, 13));
        assert((f[4].num as int, f[4].den as int) == belief_fraction(g, seat as int, 14));
        assert((f[5].num as int, f[5].den as int) == belief_fraction(g, seat as int, 15));
        assert((f[6].num as int, f[6].den as int) == belief_fraction(g, seat as int, 16));
        assert((f[7].num as int, f[7].den as int) == belief_fraction(g, seat as int, 17));
        assert((f[8].num as int, f[8].den as int) == belief_fraction(g, seat as int, 18));
    }
    f
}

/// Features 19 to 25: what the hand can win and the game state.
fn tactical_and_game_features(game: &SuecaSimulatorGame, seat: u8) -> (f: [Fraction; 7])
    requires
        belief_ready(*game, seat as int),
    ensures
        forall|i: int| 0 <= i < 7 ==> (#[trigger] f[i].num as int, f[i].den as int) == belief_fraction(*game, seat as int, i + 19),
{
    let ghost g = *game;
    let trump = game.state.trump;
    let has_led = game.current_trick_len > 0;
    let led = led_suit_of(game);
    let all_hands = held_cards(game);
    let trump_mask = suit_mask(trump);
    let legal = game.state.legal_moves();
    let win_pts: u32 = if has_led {
        min_winning_points(legal, game.state.current_trick_best_card, trump, led)
    } else {
        99
    };
    let feat19 = flag_of(win_pts < 99);
    let win_cost: i32 = if win_pts < 99 {
        win_pts as i32
    } else {
        0
    };
    let sac = min_card_points(legal);
    let sac_cost: i32 = if sac < 99 {
        sac as i32
    } else {
        0
    };
    let remaining_pts = sum_points(all_hands);
    let trumps_remaining = popcount(all_hands & trump_mask) as i32;
    let our_pts = game.state.team_02_score as i32;
    let opp_pts = game.state.team_13_score as i32;
    let (our_team, opp_team) = if seat % 2 == 0 {
        (our_pts, opp_pts)
    } else {
        (opp_pts, our_pts)
    };
    let delta = our_team - opp_team;
    proof {
        crate::bits::lemma_count_below_bound(all_hands & trump_mask, 64);
    }
    let f: [Fraction; 7] = [
        feat19,
        Fraction { num: win_cost, den: 11 },
        Fraction { num: sac_cost, den: 11 },
        Fraction { num: remaining_pts as i32, den: 120 },
        Fraction { num: game.state.trick_number as i32, den: 9 },
        Fraction { num: trumps_remaining, den: 10 },
        Fraction { num: delta + 120, den: 240 },
    ];
    proof {
        assert((f[0].num as int, f[0].den as int) == belief_fraction(g, seat as int, 19));
        assert((f[1].num as int, f[1].den as int) == belief_fraction(g, seat as int, 20));
        assert((f[2].num as int, f[2].den as int) == belief_fraction(g, seat as int, 21));
        assert((f[3].num as int, f[3].den as int) == belief_fraction(g, seat as int, 22));
        assert((f[4].num as int, f[4].den as int) == belief_fraction(g, seat as int, 23));
        assert((f[5].num as int, f[5].den as int) == belief_fraction(g, seat as int, 24));
        assert((f[6].num as int, f[6].den as int) == belief_fraction(g, seat as int, 25));
    }
    f
}

/// Features 26 to 34: hand shape, side-suit depletion and meta counts.
fn shape_and_meta_features(game: &SuecaSimulatorGame, seat: u8) -> (f: [Fraction; 9])
    requires
        belief_ready(*game, seat as int),
    ensures
        forall|i: int| 0 <= i < 9 ==> (#[trigger] f[i].num as int, f[i].den as int) == belief_fraction(*game, seat as int, i + 26),
{
    let ghost g = *game;
    let hand = game.state.hands[seat as usize];
    let trump = game.state.trump;
    let has_led = game.current_trick_len > 0;
    let led = led_suit_of(game);
    let prev = prev_played_of(game);
    let my_voids = void_suit_count(hand) as i32;
    let led_for_sides: i8 = if has_led {
        led as i8
    } else {
        -1
    };
    let (max_len, min_len) = side_suit_lengths(hand, trump, led_for_sides);
    let short: i32 = if min_len < 99 {
        min_len as i32
    } else {
        0
    };
    let side0: u8 = if 0 < trump { 0 } else { 1 };
    let side1: u8 = if 1 < trump { 1 } else { 2 };
    let side2: u8 = if 2 < trump { 2 } else { 3 };
    let dep0 = popcount(prev & suit_mask(side0)) as i32;
    let dep1 = popcount(prev & suit_mask(side1)) as i32;
    let dep2 = popcount(prev & suit_mask(side2)) as i32;
    let our_score: i32 = if seat % 2 == 0 {
        game.state.team_02_score as i32
    } else {
        game.state.team_13_score as i32
    };
    let known_voids = known_void_suits(game.voids) as i32;
    let depleted = depleted_suits(prev) as i32;
    proof {
        crate::bits::lemma_count_below_bound(prev & suit_mask_spec(side0 as int), 64);
        crate::bits::lemma_count_below_bound(prev & suit_mask_spec(side1 as int), 64);
        crate::bits::lemma_count_below_bound(prev & suit_mask_spec(side2 as int), 64);
    }
    let f: [Fraction; 9] = [
        Fraction { num: my_voids, den: 3 },
        Fraction { num: max_len as i32, den: 10 },
        Fraction { num: short, den: 10 },
        Fraction { num: dep0, den: 10 },
        Fraction { num: dep1, den: 10 },
        Fraction { num: dep2, den: 10 },
        Fraction { num: our_score, den: 120 },
        Fraction { num: known_voids, den: 4 },
        Fraction { num: depleted, den: 4 },
    ];
    proof {
        assert((f[0].num as int, f[0].den as int) == belief_fraction(g, seat as int, 26));
        assert((f[1].num as int, f[1].den as int) == belief_fraction(g, seat as int, 27));
        assert((f[2].num as int, f[2].den as int) == belief_fraction(g, seat as int, 28));
        assert((f[3].num as int, f[3].den as int) == belief_fraction(g, seat as int, 29));
        assert((f[4].num as int, f[4].den as int) == belief_fraction(g, seat as int, 30));
        assert((f[5].num as int, f[5].den as int) == belief_fraction(g, seat as int, 31));
        assert((f[6].num as int, f[6].den as int) == belief_fraction(g, seat as int, 32));
        assert((f[7].num as int, f[7].den as int) == belief_fraction(g, seat as int, 33));
        assert((f[8].num as int, f[8].den as int) == belief_fraction(g, seat as int, 34));
    }
    f
}

/// The 35 features of what `seat` can see of the game, each as a fraction: hand shape,
/// trick state, public voids, card tracking, what the hand can win, game state, side
/// suits and their depletion.
pub fn encode_belief_fractions(game: &SuecaSimulatorGame, seat: u8) -> (f: [Fraction; 35])
    requires
        belief_ready(*game, seat as int),
    ensures
        forall|i: int| 0 <= i < 35 ==> (#[trigger] f[i].num as int, f[i].den as int) == belief_fraction(*game, seat as int, i),
{
    let a = hand_and_trick_features(game, seat);
    let b = void_and_tracking_features(game, seat);
    let c = tactical_and_game_features(game, seat);
    let d = shape_and_meta_features(game, seat);
    let mut f: [Fraction; 35] = [Fraction { num: 0, den: 1 }; 35];
    let mut i: usize = 0;
    while i < 35
        invariant
            i <= 35,
            forall|k: int| 0 <= k < 10 ==> (#[trigger] a[k].num as int, a[k].den as int) == belief_fraction(*game, seat as int, k),
            forall|k: int| 0 <= k < 9 ==> (#[trigger] b[k].num as int, b[k].den as int) == belief_fraction(*game, seat as int, k + 10),
            forall|k: int| 0 <= k < 7 ==> (#[trigger] c[k].num as int, c[k].den as int) == belief_fraction(*game, seat as int, k + 19),
            forall|k: int| 0 <= k < 9 ==> (#[trigger] d[k].num as int, d[k].den as int) == belief_fraction(*game, seat as int, k + 26),
            forall|k: int| 0 <= k < i ==> (#[trigger] f[k].num as int, f[k].den as int) == belief_fraction(*game, seat as int, k),
        decreases 35 - i,
    {
        if i < 10 {
            f[i] = a[i];
        } else if i < 19 {
            f[i] = b[i - 10];
        } else if i < 26 {
            f[i] = c[i - 19];
        } else {
            f[i] = d[i - 26];
        }
        i = i + 1;
    }
    f
}


/// A set whose members lie in `a .. a + 10` has at most as many members below `n` as
/// that run has.
proof fn lemma_count_in_run(m: u64, a: int, n: nat)
    requires
        forall|c: int| #[trigger] mem(m, c) ==> a <= c < a + 10,
    ensures
        count_below(m, n) <= (if n <= a { 0 } else if n >= a + 10 { 10 } else { n - a }),
    decreases n,
{
    if n > 0 {
        lemma_count_in_run(m, a, (n - 1) as nat);
    }
}

/// The cards of one suit in a set number at most ten.
proof fn lemma_suit_count_le_10(m: u64, s: int)
    requires
        0 <= s < 4,
    ensures
        count(m & suit_mask_spec(s)) <= 10,
{
    let x = m & suit_mask_spec(s);
    assert forall|c: int| #[trigger] mem(x, c) implies 10 * s <= c < 10 * s + 10 by {
        lemma_has_and(m, suit_mask_spec(s), c);
        crate::bits::lemma_suit_mask(s, c);
    }
    lemma_count_in_run(x, 10 * s, 64);
}

/// A subset holds no more points.
proof fn lemma_points_subset(a: u64, b: u64, n: nat)
    requires
        forall|c: int| #[trigger] mem(a, c) ==> mem(b, c),
    ensures
        crate::engine::points_below(a, n) <= crate::engine::points_below(b, n),
    decreases n,
{
    if n > 0 {
        lemma_points_subset(a, b, (n - 1) as nat);
    }
}

proof fn lemma_min_win_points_range(m: u64, best: int, trump: int, led: int, n: int)
    ensures
        min_win_points(m, best, trump, led, n) == 99 || 0 <= min_win_points(m, best, trump, led, n) <= 11,
    decreases n,
{
    if n > 0 {
        lemma_min_win_points_range(m, best, trump, led, n - 1);
    }
}

proof fn lemma_min_points_range(m: u64, n: int)
    ensures
        min_points(m, n) == 99 || 0 <= min_points(m, n) <= 11,
    decreases n,
{
    if n > 0 {
        lemma_min_points_range(m, n - 1);
    }
}

/// At most `n` suits below `n` are void, and fewer when one of them is held.
proof fn lemma_void_suits_bound(hand: u64, n: int, t: int)
    requires
        0 <= n <= 4,
    ensures
        0 <= void_suits_below(hand, n) <= n,
        0 <= t < n && hand & suit_mask_spec(t) != 0 ==> void_suits_below(hand, n) <= n - 1,
    decreases n,
{
    if n > 0 {
        lemma_void_suits_bound(hand, n - 1, t);
    }
}

proof fn lemma_longest_side_bound(hand: u64, trump: int, led: int, n: int)
    requires
        0 <= n <= 4,
    ensures
        0 <= longest_side_below(hand, trump, led, n) <= 10,
        shortest_side_below(hand, trump, led, n) == 99 || 0 <= shortest_side_below(hand, trump, led, n) <= 10,
    decreases n,
{
    if n > 0 {
        lemma_longest_side_bound(hand, trump, led, n - 1);
        lemma_suit_count_le_10(hand, n - 1);
    }
}

proof fn lemma_known_void_bound(voids: [u8; 4], n: int)
    requires
        0 <= n <= 4,
    ensures
        0 <= known_void_suits_below(voids, n) <= n,
    decreases n,
{
    if n > 0 {
        lemma_known_void_bound(voids, n - 1);
    }
}

proof fn lemma_depleted_bound(prev: u64, n: int)
    requires
        0 <= n <= 4,
    ensures
        0 <= depleted_suits_below(prev, n) <= n,
    decreases n,
{
    if n > 0 {
        lemma_depleted_bound(prev, n - 1);
    }
}

proof fn lemma_trick_points_bound(t: [u8; 4], n: int)
    requires
        0 <= n <= 4,
    ensures
        0 <= trick_points_below(t, n) <= 11 * n,
    decreases n,
{
    if n > 0 {
        lemma_trick_points_bound(t, n - 1);
    }
}

/// Every belief feature lies in `[0, 1]`: its numerator is between 0 and its
/// denominator. This holds in a consistent game before the last trick is over, for a
/// seat that still holds a card.
pub proof fn lemma_belief_in_unit_range(g: SuecaSimulatorGame, seat: int)
    requires
        g.wf(),
        belief_ready(g, seat),
        g.state.trick_number < 10,
        g.state.hands[seat] != 0,
    ensures
        forall|i: int| 0 <= i < 35 ==> 0 <= (#[trigger] belief_fraction(g, seat, i)).0 <= belief_fraction(g, seat, i).1,
{
    let st = g.state;
    let hand = st.hands[seat];
    let trump = st.trump as int;
    let led = led_of(g);
    let all = held(g);
    let prev = prev_played(g);
    let legal = st.legal_mask();
    let best = st.current_trick_best_card as int;
    assert forall|c: int| #[trigger] mem(hand, c) implies mem(all, c) by {
        crate::bits::lemma_has_or(st.hands[0], st.hands[1], c);
        crate::bits::lemma_has_or(st.hands[0] | st.hands[1], st.hands[2], c);
        crate::bits::lemma_has_or(st.hands[0] | st.hands[1] | st.hands[2], st.hands[3], c);
    }
    lemma_points_subset(hand, all, 40);
    lemma_points_le_deck(all, 40);
    lemma_deck_points();
    if g.current_trick_len > 0 {
        assert(0 <= led < 4);
        lemma_suit_count_le_10(hand, led);
    }
    lemma_suit_count_le_10(hand, trump);
    lemma_suit_count_le_10(all, trump);
    lemma_trick_points_bound(g.current_trick, g.current_trick_len as int);
    lemma_min_win_points_range(legal, best, trump, led, 40);
    lemma_min_points_range(legal, 40);
    crate::bits::lemma_nonzero_has_lowest(hand);
    let c0 = lowest(hand);
    assert(in_deck(hand));
    assert(hand & suit_mask_spec(c0 / 10) != 0) by {
        lemma_has_and(hand, suit_mask_spec(c0 / 10), c0);
        crate::bits::lemma_suit_mask(c0 / 10, c0);
        if hand & suit_mask_spec(c0 / 10) == 0 {
            lemma_has_zero(c0);
        }
    }
    lemma_void_suits_bound(hand, 4, c0 / 10);
    lemma_longest_side_bound(hand, trump, led, 4);
    lemma_suit_count_le_10(prev, side_suit(0, trump));
    lemma_suit_count_le_10(prev, side_suit(1, trump));
    lemma_suit_count_le_10(prev, side_suit(2, trump));
    lemma_known_void_bound(g.voids, 4);
    lemma_depleted_bound(prev, 4);
    assert forall|i: int| 0 <= i < 35 implies 0 <= (#[trigger] belief_fraction(g, seat, i)).0 <= belief_fraction(g, seat, i).1 by {
        if 29 <= i <= 31 {
            assert(0 <= side_suit(i - 29, trump) < 4);
            lemma_suit_count_le_10(prev, side_suit(i - 29, trump));
        }
    }
}
/// A suit is marked void for the opposing pair exactly when it is marked void for one of
/// the two opponents.
proof fn lemma_void_bit_or(a: u8, b: u8, s: int)
    ensures
        void_bit(a | b, s) == (void_bit(a, s) || void_bit(b, s)),
{
    if 0 <= s < 8 {
        let k = s as u8;
        assert(((a | b) >> k) & 1u8 == 1u8 <==> ((a >> k) & 1u8 == 1u8 || (b >> k) & 1u8 == 1u8)) by (bit_vector)
            requires
                k < 8,
        ;
    }
}

/// Features 12 and 13 speak of the two opponents of `seat` (the seats after and before
/// it), whatever the partner's voids: feature 12 is 1 exactly when a suit has been led
/// to the current trick and one of the opponents is known to be void in it, and 0
/// otherwise; feature 13 is 1 exactly when one of them is known to be void in trumps.
pub proof fn lemma_opponent_void_features(g: SuecaSimulatorGame, seat: int)
    requires
        0 <= seat < 4,
    ensures
        belief_fraction(g, seat, 12) == (if g.current_trick_len > 0 && (void_bit(g.voids[(seat + 1) % 4],
            suit_of(g.current_trick[0] as int)) || void_bit(g.voids[(seat + 3) % 4], suit_of(g.current_trick[0] as int))) {
            (1int, 1int)
        } else {
            (0int, 1int)
        }),
        belief_fraction(g, seat, 13) == (if void_bit(g.voids[(seat + 1) % 4], g.state.trump as int)
            || void_bit(g.voids[(seat + 3) % 4], g.state.trump as int) {
            (1int, 1int)
        } else {
            (0int, 1int)
        }),
{
    lemma_void_bit_or(g.voids[(seat + 1) % 4], g.voids[(seat + 3) % 4], led_of(g));
    lemma_void_bit_or(g.voids[(seat + 1) % 4], g.voids[(seat + 3) % 4], g.state.trump as int);
}

} // verus!
