//! Card selection policies: random, the Elite heuristic, the old heuristic and the
//! intent resolver.
use vstd::prelude::*;
use crate::bits::{
    count, highest, highest_card, lemma_count_below_bound, lemma_count_below_remove,
    lemma_count_below_zero, lemma_has_and, lemma_has_and_not, lemma_has_single, lemma_has_zero,
    lemma_lowest, lemma_remove_decreases, lowest, lowest_card, mem, popcount, single, single_spec,
};
use crate::bits::{first_min, in_deck, min_by_keys, suit_mask, suit_mask_spec};
use crate::engine::{beats, card_points, card_rank, card_suit, points_of, rank_of, suit_of, GameState};
use crate::simulator::{trick_winner_seat, SuecaSimulatorGame};
use crate::rng::{lcg_step, LcgRng};

verus! {

/// The member of `m` with exactly `k` members of `m` below it.
pub open spec fn nth_member(m: u64, k: nat) -> int
    decreases k,
{
    if k == 0 {
        lowest(m)
    } else {
        nth_member(m & !single_spec(lowest(m) as u8), (k - 1) as nat)
    }
}

/// Removing the lowest member of a non-empty set.
pub proof fn lemma_remove_lowest(m: u64)
    requires
        m != 0,
    ensures
        0 <= lowest(m) < 64,
        mem(m, lowest(m)),
        count(m & !single_spec(lowest(m) as u8)) + 1 == count(m),
        forall|j: int| #[trigger] mem(m & !single_spec(lowest(m) as u8), j) == (mem(m, j) && j
            != lowest(m)),
        m & !single_spec(lowest(m) as u8) < m,
{
    lemma_lowest(m);
    let c = lowest(m);
    let r = m & !single_spec(c as u8);
    assert forall|j: int| #[trigger] mem(r, j) == (mem(m, j) && j != c) by {
        lemma_has_and_not(m, single_spec(c as u8), j);
        lemma_has_single(c as u64, j);
    }
    lemma_count_below_remove(r, m, c, 64);
    lemma_remove_decreases(m, c);
}

/// The empty set has no members; a set with members is not empty.
pub proof fn lemma_count_zero(m: u64)
    ensures
        (m == 0) == (count(m) == 0),
{
    if m == 0 {
        assert forall|c: int| 0 <= c < 64 implies !mem(m, c) by {
            lemma_has_zero(c);
        }
    } else {
        lemma_lowest(m);
    }
    lemma_count_below_zero(m, 64);
}

/// A uniformly drawn legal card: the `k`-th lowest card of the mask, where `k` is the
/// next generator output reduced modulo the number of cards.
pub fn select_card_random(legal_mask: u64, rng: &mut LcgRng) -> (card: u8)
    ensures
        legal_mask == 0 ==> card == 64 && final(rng)@ == old(rng)@,
        legal_mask != 0 ==> final(rng)@ == lcg_step(old(rng)@) && card == nth_member(
            legal_mask,
            ((final(rng)@ as usize) % (count(legal_mask) as usize)) as nat,
        ),
        legal_mask != 0 ==> mem(legal_mask, card as int),
{
    let count = popcount(legal_mask) as usize;
    proof {
        lemma_count_below_bound(legal_mask, 64);
        lemma_count_zero(legal_mask);
    }
    let idx = rng.gen_range(0..count);
    let mut temp = legal_mask;
    let mut i: usize = 0;
    while i < idx
        invariant
            i <= idx,
            legal_mask != 0 ==> idx < count,
            legal_mask == 0 ==> idx == 0,
            count == crate::bits::count(legal_mask),
            crate::bits::count(temp) + i == count,
            nth_member(temp, (idx - i) as nat) == nth_member(legal_mask, idx as nat),
            forall|j: int| #[trigger] mem(temp, j) ==> mem(legal_mask, j),
        decreases idx - i,
    {
        proof {
            lemma_count_zero(temp);
            lemma_remove_lowest(temp);
        }
        let c = lowest_card(temp);
        temp = temp & !single(c);
        i = i + 1;
    }
    proof {
        lemma_lowest(temp);
        lemma_count_zero(temp);
    }
    temp.trailing_zeros() as u8
}


/// All cards still held by some player.
pub open spec fn in_play(s: GameState) -> u64 {
    s.hands[0] | s.hands[1] | s.hands[2] | s.hands[3]
}

/// The cards of suit `s` in `m`.
pub open spec fn of_suit(m: u64, s: int) -> u64 {
    m & suit_mask_spec(s)
}

/// The highest card of suit `s` still in play (-1 when none): its holder is its master.
pub open spec fn top_of_suit(ch: u64, s: int) -> int {
    highest(of_suit(ch, s))
}

/// Suit order used to break ties: Spades, Hearts, Diamonds, Clubs.
pub open spec fn suit_priority(s: int) -> int {
    if s == 3 {
        0
    } else if s == 0 {
        1
    } else if s == 1 {
        2
    } else if s == 2 {
        3
    } else {
        4
    }
}

/// `r` is the least card satisfying `p`.
pub open spec fn least_where(p: spec_fn(int) -> bool, r: int) -> bool {
    &&& p(r)
    &&& forall|c: int| #[trigger] p(c) ==> r <= c
}

/// `r` is the greatest card satisfying `p`.
pub open spec fn greatest_where(p: spec_fn(int) -> bool, r: int) -> bool {
    &&& p(r)
    &&& forall|c: int| #[trigger] p(c) ==> c <= r
}

/// `r` is the first card satisfying `p`, in card order, among those of least key.
pub open spec fn first_min_where(p: spec_fn(int) -> bool, key: spec_fn(int) -> int, r: int) -> bool {
    &&& p(r)
    &&& forall|c: int| #[trigger] p(c) ==> key(r) <= key(c)
    &&& forall|c: int| #[trigger] p(c) && c < r ==> key(r) < key(c)
}

fn get_suit_priority(suit: u8) -> (p: u8)
    ensures
        p == suit_priority(suit as int),
{
    match suit {
        3 => 0,
        0 => 1,
        1 => 2,
        2 => 3,
        _ => 4,
    }
}

/// The cards of suit `s` in `m`.
fn cards_of_suit(m: u64, s: u8) -> (r: u64)
    requires
        s < 4,
    ensures
        r == of_suit(m, s as int),
        forall|c: int| #[trigger] mem(r, c) == (mem(m, c) && c / 10 == s),
{
    let mask = suit_mask(s);
    proof {
        assert forall|c: int| #[trigger] mem(m & mask, c) == (mem(m, c) && c / 10 == s) by {
            lemma_has_and(m, mask, c);
        }
    }
    m & mask
}

/// The highest card of suit `s` in `ch`, when there is one.
fn top_card_of_suit(ch: u64, s: u8) -> (r: Option<u8>)
    requires
        s < 4,
    ensures
        of_suit(ch, s as int) == 0 ==> r.is_none(),
        of_suit(ch, s as int) != 0 ==> r == Some(top_of_suit(ch, s as int) as u8) && 0
            <= top_of_suit(ch, s as int) < 64 && mem(ch, top_of_suit(ch, s as int)) && top_of_suit(
            ch,
            s as int,
        ) / 10 == s,
{
    let m = cards_of_suit(ch, s);
    if m == 0 {
        None
    } else {
        let c = highest_card(m);
        Some(c)
    }
}


/// `p` has played to the current trick.
pub open spec fn seat_played(g: SuecaSimulatorGame, p: int) -> bool {
    exists|i: int| 0 <= i < g.current_trick_len && #[trigger] g.current_trick_seats[i] == p
}

/// An opponent of `seat` has not yet played to the current trick.
pub open spec fn opponent_to_play(g: SuecaSimulatorGame, seat: int) -> bool {
    exists|opp: int| 0 <= opp < 4 && opp % 2 != seat % 2 && !#[trigger] seat_played(g, opp)
}

/// The partner's winning card `wc` is safe: no opponent is left to play, or no card in
/// play outside `seat`'s hand beats it.
pub open spec fn partner_secure(g: SuecaSimulatorGame, seat: int, wc: int, ch: u64) -> bool {
    !opponent_to_play(g, seat) || forall|c: int|
        #[trigger] mem(ch & !g.state.hands[seat], c) ==> !beats(
            c,
            wc,
            g.state.trump as int,
            g.trick_led(),
        )
}

/// Has `p` played to the current trick?
fn seat_in_trick(game: &SuecaSimulatorGame, p: u8) -> (r: bool)
    requires
        game.trick_ok(),
    ensures
        r == seat_played(*game, p as int),
{
    let mut i: usize = 0;
    while i < game.current_trick_len
        invariant
            i <= game.current_trick_len,
            game.trick_ok(),
            forall|k: int| 0 <= k < i ==> #[trigger] game.current_trick_seats[k] != p,
        decreases game.current_trick_len - i,
    {
        if game.current_trick_seats[i] == p {
            return true;
        }
        i = i + 1;
    }
    false
}

/// Is an opponent of `seat` still to play to the current trick?
fn opponent_still_to_play(game: &SuecaSimulatorGame, seat: u8) -> (r: bool)
    requires
        game.trick_ok(),
    ensures
        r == opponent_to_play(*game, seat as int),
{
    let mut opp: u8 = 0;
    while opp < 4
        invariant
            opp <= 4,
            game.trick_ok(),
            forall|o: int| 0 <= o < opp && o % 2 != seat % 2 ==> #[trigger] seat_played(*game, o),
        decreases 4 - opp,
    {
        if opp % 2 != seat % 2 && !seat_in_trick(game, opp) {
            return true;
        }
        opp = opp + 1;
    }
    false
}

fn is_partner_secure(game: &SuecaSimulatorGame, seat: u8, winner_card: u8, current_hands: u64) -> (r: bool)
    requires
        game.trick_ok(),
        seat < 4,
        winner_card < 40,
        in_deck(current_hands),
    ensures
        r == partner_secure(*game, seat as int, winner_card as int, current_hands),
{
    let trump = game.state.trump;
    let led_suit = game.current_trick[0] / 10;
    if !opponent_still_to_play(game, seat) {
        return true;
    }
    let outstanding = current_hands & !game.state.hands[seat as usize];
    let mut c: u8 = 0;
    while c < 40
        invariant
            c <= 40,
            seat < 4,
            opponent_to_play(*game, seat as int),
            in_deck(current_hands),
            winner_card < 40,
            trump == game.state.trump,
            led_suit == game.trick_led(),
            outstanding == current_hands & !game.state.hands[seat as int],
            forall|d: int| 0 <= d < c && #[trigger] mem(outstanding, d) ==> !beats(
                d,
                winner_card as int,
                trump as int,
                led_suit as int,
            ),
        decreases 40 - c,
    {
        if (outstanding >> (c as u64)) & 1u64 == 1u64 {
            if GameState::beats_card(c, winner_card, trump, led_suit) {
                assert(mem(outstanding, c as int));
                assert(beats(c as int, winner_card as int, game.state.trump as int, game.trick_led()));
                assert(opponent_to_play(*game, seat as int));
                return false;
            }
        }
        c = c + 1;
    }
    proof {
        assert forall|d: int| #[trigger] mem(outstanding, d) implies !beats(
            d,
            winner_card as int,
            trump as int,
            led_suit as int,
        ) by {
            lemma_has_and_not(current_hands, game.state.hands[seat as int], d);
        }
    }
    true
}

/// Preference order when smearing points on a partner's secure trick (least first):
/// keep the master of the led suit when holding several cards, then the most points,
/// then the lowest rank.
pub open spec fn smear_key(c: int, m: u64, led: int, ch: u64) -> int {
    (if c == top_of_suit(ch, led) && count(m) > 1 {
        256int
    } else {
        0int
    }) + (11 - points_of(c)) * 16 + rank_of(c)
}

fn select_smear_card(suited_mask: u64, led_suit: u8, current_hands: u64) -> (card: u8)
    requires
        suited_mask != 0,
        in_deck(suited_mask),
        led_suit < 4,
    ensures
        first_min(suited_mask, |c: int| smear_key(c, suited_mask, led_suit as int, current_hands), card as int),
        card < 40,
{
    let master = top_card_of_suit(current_hands, led_suit);
    let has_multiple = popcount(suited_mask) > 1;
    let mut keys = [0u32; 40];
    let mut c: u8 = 0;
    while c < 40
        invariant
            c <= 40,
            has_multiple == (count(suited_mask) > 1),
            of_suit(current_hands, led_suit as int) == 0 ==> master.is_none(),
            of_suit(current_hands, led_suit as int) != 0 ==> master == Some(top_of_suit(current_hands, led_suit as int) as u8)
                && 0 <= top_of_suit(current_hands, led_suit as int) < 64,
            forall|d: int| 0 <= d < c ==> #[trigger] keys[d] == smear_key(d, suited_mask, led_suit as int, current_hands),
        decreases 40 - c,
    {
        let is_master = has_multiple && match master {
            Some(mc) => mc == c,
            None => false,
        };
        proof {
            crate::bits::lemma_highest(of_suit(current_hands, led_suit as int));
        }
        let k: u32 = (if is_master { 256u32 } else { 0u32 }) + (11 - card_points(c) as u32) * 16 + card_rank(c) as u32;
        keys[c as usize] = k;
        c = c + 1;
    }
    let r = min_by_keys(suited_mask, &keys);
    r
}

/// Preference order when bleeding an off-suit card onto a partner's secure trick
/// (least first): avoid masters, then the most points, then the shortest suit, then the
/// lowest rank.
pub open spec fn bleed_key(c: int, m: u64, ch: u64) -> int {
    (if c == top_of_suit(ch, suit_of(c)) {
        32768int
    } else {
        0int
    }) + (11 - points_of(c)) * 2048 + count(of_suit(m, suit_of(c))) * 16 + rank_of(c)
}

fn select_bleed_card(non_trump_mask: u64, current_hands: u64) -> (card: u8)
    requires
        non_trump_mask != 0,
        in_deck(non_trump_mask),
    ensures
        first_min(non_trump_mask, |c: int| bleed_key(c, non_trump_mask, current_hands), card as int),
        card < 40,
{
    let mut keys = [0u32; 40];
    let mut c: u8 = 0;
    while c < 40
        invariant
            c <= 40,
            in_deck(non_trump_mask),
            forall|d: int| 0 <= d < c ==> #[trigger] keys[d] == bleed_key(d, non_trump_mask, current_hands),
        decreases 40 - c,
    {
        let suit = card_suit(c);
        let len = popcount(cards_of_suit(non_trump_mask, suit));
        proof {
            lemma_count_below_bound(of_suit(non_trump_mask, suit as int), 64);
        }
        let is_master = match top_card_of_suit(current_hands, suit) {
            Some(mc) => mc == c,
            None => false,
        };
        proof {
            crate::bits::lemma_highest(of_suit(current_hands, suit as int));
        }
        let k: u32 = (if is_master { 32768u32 } else { 0u32 }) + (11 - card_points(c) as u32) * 2048 + len * 16 + card_rank(c) as u32;
        keys[c as usize] = k;
        c = c + 1;
    }
    min_by_keys(non_trump_mask, &keys)
}


/// A card of `seat`'s hand, outside trumps, that is the highest card of its suit still
/// in play: leading it wins the trick unless it is trumped.
pub open spec fn cash_candidate(st: GameState, seat: int, c: int) -> bool {
    &&& mem(st.hands[seat], c)
    &&& suit_of(c) != st.trump
    &&& c == top_of_suit(in_play(st), suit_of(c))
}

/// Order among cash candidates (least first): the shortest suit in hand, then suit
/// priority.
pub open spec fn cash_key(st: GameState, seat: int, c: int) -> int {
    count(of_suit(st.hands[seat], suit_of(c))) * 8 + suit_priority(suit_of(c))
}

/// The master card to cash when leading, if `seat` holds one.
fn get_deterministic_cash_master_card(game: &SuecaSimulatorGame, seat: u8) -> (r: Option<u8>)
    requires
        game.wf(),
        seat < 4,
    ensures
        r.is_none() == !(exists|c: int| #[trigger] cash_candidate(game.state, seat as int, c)),
        r matches Some(c) ==> c < 40 && first_min_where(
            |c: int| cash_candidate(game.state, seat as int, c),
            |c: int| cash_key(game.state, seat as int, c),
            c as int,
        ),
{
    let trump = game.state.trump;
    let hand = game.state.hands[seat as usize];
    let current_hands = game.state.hands[0] | game.state.hands[1] | game.state.hands[2]
        | game.state.hands[3];
    let ghost st = game.state;
    let mut best: Option<u8> = None;
    let mut best_key: u32 = 0;
    let mut s: u8 = 0;
    proof {
        assert(in_deck(st.hands[seat as int]));
    }
    while s < 4
        invariant
            s <= 4,
            seat < 4,
            trump == st.trump,
            trump < 4,
            hand == st.hands[seat as int],
            in_deck(hand),
            current_hands == in_play(st),
            best.is_none() == !(exists|c: int| #[trigger] cash_candidate(st, seat as int, c) && suit_of(c) < s),
            best matches Some(b) ==> b < 40 && cash_candidate(st, seat as int, b as int) && suit_of(b as int) < s
                && best_key == cash_key(st, seat as int, b as int)
                && forall|c: int| #[trigger] cash_candidate(st, seat as int, c) && suit_of(c) < s ==> cash_key(st, seat as int, b as int) <= cash_key(st, seat as int, c),
        decreases 4 - s,
    {
        if s != trump {
            match top_card_of_suit(current_hands, s) {
                Some(t) => {
                    if (hand >> (t as u64)) & 1u64 == 1u64 {
                        let len = popcount(cards_of_suit(hand, s));
                        proof {
                            lemma_count_below_bound(of_suit(hand, s as int), 64);
                            assert(cash_candidate(st, seat as int, t as int));
                        }
                        let key = len * 8 + get_suit_priority(s) as u32;
                        let better = match best {
                            None => true,
                            Some(_) => key < best_key,
                        };
                        if better {
                            best = Some(t);
                            best_key = key;
                        }
                    } else {
                        proof {
                            assert forall|c: int| #[trigger] cash_candidate(st, seat as int, c) && suit_of(c) == s implies false by {
                            }
                        }
                    }
                },
                None => {
                    proof {
                        assert forall|c: int| #[trigger] cash_candidate(st, seat as int, c) && suit_of(c) == s implies false by {
                            crate::bits::lemma_highest(of_suit(current_hands, s as int));
                        }
                    }
                },
            }
        }
        s = s + 1;
    }
    proof {
        assert forall|c: int| #[trigger] cash_candidate(st, seat as int, c) implies suit_of(c) < 4 by {
            assert(c < 40);
        }
        if let Some(b) = best {
            assert forall|c: int| #[trigger] cash_candidate(st, seat as int, c) && c < b implies cash_key(st, seat as int, b as int) < cash_key(st, seat as int, c) by {
                assert(suit_of(c) != suit_of(b as int));
            }
        }
    }
    best
}


/// The card played by the seat winning the trick.
fn winner_card_of(game: &SuecaSimulatorGame, winner_seat: u8) -> (wc: u8)
    requires
        game.wf(),
        game.current_trick_len > 0,
        winner_seat == game.trick_winner(),
    ensures
        wc == game.trick_best(),
        wc < 40,
{
    let ghost bi = game.trick_best_index();
    proof {
        crate::simulator::lemma_best_index_range(
            game.current_trick,
            game.current_trick_len as int,
            game.state.trump as int,
            game.trick_led(),
        );
    }
    let mut i: usize = 0;
    while i < game.current_trick_len
        invariant
            game.wf(),
            0 <= bi < game.current_trick_len,
            bi == game.trick_best_index(),
            winner_seat == game.current_trick_seats[bi],
            i <= game.current_trick_len,
            forall|k: int| 0 <= k < i ==> #[trigger] game.current_trick_seats[k] != winner_seat,
        decreases game.current_trick_len - i,
    {
        if game.current_trick_seats[i] == winner_seat {
            proof {
                let len = game.current_trick_len as int;
                let cur = game.state.current_player as int;
                assert(game.current_trick_seats[i as int] == (cur + len + 4 - i) % 4);
                assert(game.current_trick_seats[bi] == (cur + len + 4 - bi) % 4);
                assert(i == bi);
            }
            return game.current_trick[i];
        }
        i = i + 1;
    }
    proof {
        assert(game.current_trick_seats[bi] != winner_seat);
    }
    0
}

/// The cards of `m` ranked above `rank`.
fn cards_ranked_above(m: u64, rank: u8) -> (r: u64)
    requires
        in_deck(m),
    ensures
        in_deck(r),
        forall|c: int| #[trigger] mem(r, c) == (mem(m, c) && rank_of(c) > rank),
{
    let mut r: u64 = 0;
    let mut c: u8 = 0;
    proof {
        assert forall|j: int| #[trigger] mem(r, j) implies false by {
            lemma_has_zero(j);
        }
    }
    while c < 40
        invariant
            c <= 40,
            in_deck(m),
            forall|j: int| #[trigger] mem(r, j) == (mem(m, j) && rank_of(j) > rank && j < c),
        decreases 40 - c,
    {
        if (m >> (c as u64)) & 1u64 == 1u64 && card_rank(c) > rank {
            proof {
                assert forall|j: int| #[trigger] mem(r | single_spec(c), j) == (mem(r, j) || j == c) by {
                    crate::bits::lemma_has_or(r, single_spec(c), j);
                    lemma_has_single(c as u64, j);
                }
            }
            r = r | single(c);
        }
        c = c + 1;
    }
    r
}

/// Can card `c` take the trick from the winning card `wc` while following suit?
pub open spec fn beats_winner(c: int, wc: int, trump: int, led: int) -> bool {
    if suit_of(wc) == trump {
        led == trump && rank_of(c) > rank_of(wc)
    } else if suit_of(wc) == led {
        rank_of(c) > rank_of(wc)
    } else {
        true
    }
}

/// The cards of `m` that would take the trick from `wc`.
fn cards_beating_winner(m: u64, wc: u8, trump: u8, led: u8) -> (r: u64)
    requires
        in_deck(m),
        wc < 40,
    ensures
        in_deck(r),
        forall|c: int| #[trigger] mem(r, c) == (mem(m, c) && beats_winner(c, wc as int, trump as int, led as int)),
{
    let win_suit = card_suit(wc);
    let win_rank = card_rank(wc);
    let mut r: u64 = 0;
    let mut c: u8 = 0;
    proof {
        assert forall|j: int| #[trigger] mem(r, j) implies false by {
            lemma_has_zero(j);
        }
    }
    while c < 40
        invariant
            c <= 40,
            in_deck(m),
            win_suit == suit_of(wc as int),
            win_rank == rank_of(wc as int),
            forall|j: int| #[trigger] mem(r, j) == (mem(m, j) && beats_winner(j, wc as int, trump as int, led as int) && j < c),
        decreases 40 - c,
    {
        if (m >> (c as u64)) & 1u64 == 1u64 {
            let rank = card_rank(c);
            let beats_it = if win_suit == trump {
                led == trump && rank > win_rank
            } else if win_suit == led {
                rank > win_rank
            } else {
                true
            };
            if beats_it {
                proof {
                    assert forall|j: int| #[trigger] mem(r | single_spec(c), j) == (mem(r, j) || j == c) by {
                        crate::bits::lemma_has_or(r, single_spec(c), j);
                        lemma_has_single(c as u64, j);
                    }
                }
                r = r | single(c);
            }
        }
        c = c + 1;
    }
    r
}

/// Order for dumping an off-suit card (least first): the lowest rank, then the lowest
/// suit.
pub open spec fn dump_key(c: int) -> int {
    rank_of(c) * 4 + suit_of(c)
}

/// The off-suit card to throw away: the lowest-ranked non-trump card, or the lowest legal
/// card when only trumps are left.
pub open spec fn dump_choice(non_trump: u64, legal: u64, r: int) -> bool {
    if non_trump != 0 {
        first_min(non_trump, |c: int| dump_key(c), r)
    } else {
        r == lowest(legal)
    }
}

fn dump_lowest_off_suit(non_trump: u64, legal: u64) -> (card: u8)
    requires
        in_deck(non_trump),
    ensures
        dump_choice(non_trump, legal, card as int),
{
    if non_trump != 0 {
        let mut keys = [0u32; 40];
        let mut c: u8 = 0;
        while c < 40
            invariant
                c <= 40,
                forall|d: int| 0 <= d < c ==> #[trigger] keys[d] == dump_key(d),
            decreases 40 - c,
        {
            keys[c as usize] = card_rank(c) as u32 * 4 + card_suit(c) as u32;
            c = c + 1;
        }
        return min_by_keys(non_trump, &keys);
    }
    proof {
        lemma_lowest(legal);
    }
    legal.trailing_zeros() as u8
}


/// `s` is the longest non-trump suit among the legal cards (ties to the higher suit).
pub open spec fn probe_suit(legal: u64, trump: int, s: int) -> bool {
    let n = count(of_suit(legal, s));
    &&& 0 <= s < 4
    &&& s != trump
    &&& n > 0
    &&& forall|s2: int|
        0 <= s2 < 4 && s2 != trump && #[trigger] count(of_suit(legal, s2)) > 0 ==> count(
            of_suit(legal, s2),
        ) < n || (count(of_suit(legal, s2)) == n && s2 <= s)
}

/// The Elite heuristic's card for `seat`, as `r`.
///
/// Leading: cash a master card (shortest suit first); otherwise lead the lowest card of
/// the longest non-trump suit; otherwise the lowest trump.
/// Following with cards of the led suit: when the partner wins, smear points on a
/// secure trick, or else overtake with the highest card above the winner, or else play
/// the lowest; when an opponent wins, take the trick as cheaply as possible, or else
/// play the lowest.
/// Void in the led suit: when the partner wins, bleed an off-suit card on a secure trick
/// or else dump the lowest off-suit card (the lowest trump without one); when an
/// opponent wins, overtrump as cheaply as possible over a trump, or else cut with the
/// lowest trump, or else dump.
pub open spec fn elite_choice(g: SuecaSimulatorGame, seat: int, r: int) -> bool {
    let st = g.state;
    let legal = st.legal_mask();
    let trump = st.trump as int;
    let ch = in_play(st);
    if g.current_trick_len == 0 {
        if exists|c: int| #[trigger] cash_candidate(st, seat, c) {
            first_min_where(|c: int| cash_candidate(st, seat, c), |c: int| cash_key(st, seat, c), r)
        } else if exists|s: int| #[trigger] probe_suit(legal, trump, s) {
            exists|s: int| #[trigger] probe_suit(legal, trump, s) && r == lowest(of_suit(legal, s))
        } else {
            r == lowest(of_suit(legal, trump))
        }
    } else {
        let led = g.trick_led();
        let suited = of_suit(legal, led);
        let ws = g.trick_winner();
        let wc = g.trick_best();
        if suited != 0 {
            if seat % 2 == ws % 2 {
                if partner_secure(g, seat, wc, ch) {
                    first_min(suited, |c: int| smear_key(c, suited, led, ch), r)
                } else if exists|c: int| #[trigger] mem(suited, c) && rank_of(c) > rank_of(wc) {
                    greatest_where(|c: int| mem(suited, c) && rank_of(c) > rank_of(wc), r)
                } else {
                    r == lowest(suited)
                }
            } else if exists|c: int| #[trigger] mem(suited, c) && beats_winner(c, wc, trump, led) {
                least_where(|c: int| mem(suited, c) && beats_winner(c, wc, trump, led), r)
            } else {
                r == lowest(suited)
            }
        } else {
            let trumps = of_suit(legal, trump);
            let non_trump = legal & !suit_mask_spec(trump);
            if seat % 2 == ws % 2 {
                if non_trump != 0 {
                    if partner_secure(g, seat, wc, ch) {
                        first_min(non_trump, |c: int| bleed_key(c, non_trump, ch), r)
                    } else {
                        dump_choice(non_trump, legal, r)
                    }
                } else {
                    r == lowest(trumps)
                }
            } else if trumps != 0 {
                if suit_of(wc) == trump {
                    if exists|c: int| #[trigger] mem(trumps, c) && rank_of(c) > rank_of(wc) {
                        least_where(|c: int| mem(trumps, c) && rank_of(c) > rank_of(wc), r)
                    } else {
                        dump_choice(non_trump, legal, r)
                    }
                } else {
                    r == lowest(trumps)
                }
            } else {
                dump_choice(non_trump, legal, r)
            }
        }
    }
}

/// The first member of least key is unique.
proof fn lemma_first_min_unique(m: u64, key: spec_fn(int) -> int, r1: int, r2: int)
    requires
        first_min(m, key, r1),
        first_min(m, key, r2),
    ensures
        r1 == r2,
{
    assert(key(r1) <= key(r2) && key(r2) <= key(r1));
}

/// Smearing on a partner's secure trick gives the most points: when `seat` follows
/// suit and its partner holds a trick no card left in play can take, Elite plays a card
/// of the led suit worth at least as many points as any other led-suit card it may play,
/// other than the master of the suit (kept back when `seat` has other cards).
pub proof fn lemma_smear_gives_most_points(g: SuecaSimulatorGame, seat: int, r: int)
    requires
        elite_choice(g, seat, r),
        g.current_trick_len != 0,
        of_suit(g.state.legal_mask(), g.trick_led()) != 0,
        seat % 2 == g.trick_winner() % 2,
        partner_secure(g, seat, g.trick_best(), in_play(g.state)),
    ensures
        mem(of_suit(g.state.legal_mask(), g.trick_led()), r),
        forall|d: int| #[trigger] mem(of_suit(g.state.legal_mask(), g.trick_led()), d)
            && d != top_of_suit(in_play(g.state), g.trick_led()) ==> points_of(r) >= points_of(d),
        count(of_suit(g.state.legal_mask(), g.trick_led())) > 1 ==> r != top_of_suit(in_play(g.state), g.trick_led()),
        forall|d: int| #[trigger] mem(of_suit(g.state.legal_mask(), g.trick_led()), d)
            && d != top_of_suit(in_play(g.state), g.trick_led()) && points_of(d) == points_of(r) ==> rank_of(r)
            <= rank_of(d),
{
    let suited = of_suit(g.state.legal_mask(), g.trick_led());
    let led = g.trick_led();
    let ch = in_play(g.state);
    let key = |c: int| smear_key(c, suited, led, ch);
    assert(first_min(suited, key, r));
    assert forall|d: int| #[trigger] mem(suited, d) && d != top_of_suit(ch, led) implies points_of(r) >= points_of(d)
        && r != top_of_suit(ch, led) && (points_of(d) == points_of(r) ==> rank_of(r) <= rank_of(d)) by {
        assert(key(r) <= key(d));
        if r == top_of_suit(ch, led) && count(suited) > 1 {
            assert(key(d) < 256);
        } else if r == top_of_suit(ch, led) {
            crate::bits::lemma_two_members(suited, r, d);
        }
    }
    if count(suited) > 1 && r == top_of_suit(ch, led) {
        crate::bits::lemma_other_member(suited, r);
        let d = choose|d: int| #[trigger] mem(suited, d) && d != r;
        assert(mem(suited, d) && d != top_of_suit(ch, led));
    }
}

/// The Elite heuristic names one card at most.
pub proof fn lemma_elite_choice_unique(g: SuecaSimulatorGame, seat: int, r1: int, r2: int)
    requires
        elite_choice(g, seat, r1),
        elite_choice(g, seat, r2),
    ensures
        r1 == r2,
{
    let st = g.state;
    let legal = st.legal_mask();
    let trump = st.trump as int;
    let ch = in_play(st);
    if g.current_trick_len == 0 {
        if exists|c: int| #[trigger] cash_candidate(st, seat, c) {
            let p = |c: int| cash_candidate(st, seat, c);
            let k = |c: int| cash_key(st, seat, c);
            assert(p(r1) && p(r2));
            assert(k(r1) <= k(r2) && k(r2) <= k(r1));
        } else if exists|s: int| #[trigger] probe_suit(legal, trump, s) {
            let s1 = choose|s: int| #[trigger] probe_suit(legal, trump, s) && r1 == lowest(of_suit(legal, s));
            let s2 = choose|s: int| #[trigger] probe_suit(legal, trump, s) && r2 == lowest(of_suit(legal, s));
            assert(count(of_suit(legal, s1)) > 0 && count(of_suit(legal, s2)) > 0);
            assert(s1 == s2);
        }
    } else {
        let led = g.trick_led();
        let suited = of_suit(legal, led);
        let ws = g.trick_winner();
        let wc = g.trick_best();
        if suited != 0 {
            if seat % 2 == ws % 2 {
                if partner_secure(g, seat, wc, ch) {
                    lemma_first_min_unique(suited, |c: int| smear_key(c, suited, led, ch), r1, r2);
                }
            }
        } else {
            let trumps = of_suit(legal, trump);
            let non_trump = legal & !suit_mask_spec(trump);
            if seat % 2 == ws % 2 {
                if non_trump != 0 {
                    if partner_secure(g, seat, wc, ch) {
                        lemma_first_min_unique(non_trump, |c: int| bleed_key(c, non_trump, ch), r1, r2);
                    } else {
                        lemma_first_min_unique(non_trump, |c: int| dump_key(c), r1, r2);
                    }
                }
            } else if trumps != 0 {
                if suit_of(wc) == trump && !(exists|c: int| #[trigger] mem(trumps, c) && rank_of(c) > rank_of(wc))
                    && non_trump != 0 {
                    lemma_first_min_unique(non_trump, |c: int| dump_key(c), r1, r2);
                }
            } else if non_trump != 0 {
                lemma_first_min_unique(non_trump, |c: int| dump_key(c), r1, r2);
            }
        }
    }
}

/// The Elite heuristic bot: see `elite_choice`.
pub fn select_card_heuristic(game: &SuecaSimulatorGame, seat: u8) -> (card: u8)
    requires
        game.wf(),
        seat < 4,
    ensures
        elite_choice(*game, seat as int, card as int),
        seat == game.state.current_player && game.state.trick_number < 10
            ==> game.state.is_legal(card as int),
{
    let legal = game.state.legal_moves();
    proof {
        if game.state.trick_number < 10 {
            game.state.lemma_valid_has_legal(game.trick_points);
        }
    }
    let trump = game.state.trump;
    let current_hands = game.state.hands[0] | game.state.hands[1] | game.state.hands[2]
        | game.state.hands[3];
    let ghost st = game.state;
    proof {
        st.lemma_legal_mask();
        assert(in_deck(legal)) by {
            assert(in_deck(st.hands[st.current_player as int]));
        }
        assert(in_deck(current_hands)) by {
            assert forall|c: int| #[trigger] mem(current_hands, c) implies c < 40 by {
                crate::bits::lemma_has_or(st.hands[0] | st.hands[1] | st.hands[2], st.hands[3], c);
                crate::bits::lemma_has_or(st.hands[0] | st.hands[1], st.hands[2], c);
                crate::bits::lemma_has_or(st.hands[0], st.hands[1], c);
                assert(in_deck(st.hands[0]) && in_deck(st.hands[1]) && in_deck(st.hands[2]) && in_deck(st.hands[3]));
            }
        }
    }

    if game.current_trick_len == 0 {
        if let Some(master_card) = get_deterministic_cash_master_card(game, seat) {
            return master_card;
        }
        let mut best_suit: Option<u8> = None;
        let mut best_count: u32 = 0;
        let mut s: u8 = 0;
        while s < 4
            invariant
                s <= 4,
                trump == st.trump,
                trump < 4,
                legal == st.legal_mask(),
                best_suit.is_none() ==> forall|s2: int| 0 <= s2 < s && s2 != trump ==> #[trigger] count(of_suit(legal, s2)) == 0,
                best_suit matches Some(b) ==> b < s && b != trump && best_count == count(of_suit(legal, b as int))
                    && best_count > 0
                    && forall|s2: int| 0 <= s2 < s && s2 != trump && #[trigger] count(of_suit(legal, s2)) > 0
                        ==> count(of_suit(legal, s2)) < best_count || (count(of_suit(legal, s2)) == best_count && s2 <= b),
            decreases 4 - s,
        {
            if s != trump {
                let count = popcount(cards_of_suit(legal, s));
                if count > 0 && (best_suit.is_none() || count >= best_count) {
                    best_suit = Some(s);
                    best_count = count;
                }
            }
            s = s + 1;
        }
        if let Some(bs) = best_suit {
            let suited = cards_of_suit(legal, bs);
            proof {
                assert(probe_suit(legal, trump as int, bs as int));
                lemma_count_zero(suited);
                lemma_lowest(suited);
                assert forall|s2: int| #[trigger] probe_suit(legal, trump as int, s2) implies s2 == bs by {}
            }
            return suited.trailing_zeros() as u8;
        }
        proof {
            assert forall|s2: int| !#[trigger] probe_suit(legal, trump as int, s2) by {}
        }
        let trumps = cards_of_suit(legal, trump);
        proof {
            if game.state.trick_number < 10 {
                lemma_lowest(legal);
                let c = lowest(legal);
                let cs = c / 10;
                assert(mem(legal, c));
                if cs != trump {
                    assert(count(of_suit(legal, cs)) == 0);
                    lemma_count_zero(of_suit(legal, cs));
                    assert(c < 40);
                    lemma_has_and(legal, suit_mask_spec(cs), c);
                    crate::bits::lemma_suit_mask(cs, c);
                    assert(mem(of_suit(legal, cs), c));
                    lemma_has_zero(c);
                }
                assert(mem(trumps, c));
                lemma_lowest(trumps);
            }
        }
        return trumps.trailing_zeros() as u8;
    }

    let led_suit = card_suit(game.current_trick[0]);
    let suited = cards_of_suit(legal, led_suit);
    let winner_seat = match trick_winner_seat(game) {
        Some(w) => w,
        None => 0,
    };
    let ghost ws = game.trick_winner();
    let ghost wc = game.trick_best();
    proof {
        crate::simulator::lemma_best_index_range(
            game.current_trick,
            game.current_trick_len as int,
            game.state.trump as int,
            game.trick_led(),
        );
        assert(in_deck(suited)) by {
            assert forall|c: int| #[trigger] mem(suited, c) implies c < 40 by {
                assert(mem(legal, c));
            }
        }
    }

    if suited != 0 {
        let winner_card = winner_card_of(game, winner_seat);
        if (seat % 2) == (winner_seat % 2) {
            if is_partner_secure(game, seat, winner_card, current_hands) {
                return select_smear_card(suited, led_suit, current_hands);
            }
            let win_rank = card_rank(winner_card);
            let higher_protective_cards = cards_ranked_above(suited, win_rank);
            if higher_protective_cards != 0 {
                let h = highest_card(higher_protective_cards);
                proof {
                    assert(mem(higher_protective_cards, h as int));
                    assert(mem(suited, h as int) && rank_of(h as int) > rank_of(wc));
                    assert forall|c: int| #[trigger] mem(suited, c) && rank_of(c) > rank_of(wc) implies c <= h by {
                        assert(mem(higher_protective_cards, c));
                    }
                }
                return h;
            }
            proof {
                lemma_lowest(suited);
                assert forall|c: int| !(#[trigger] mem(suited, c) && rank_of(c) > rank_of(wc)) by {
                    if mem(suited, c) && rank_of(c) > rank_of(wc) {
                        assert(mem(higher_protective_cards, c));
                        lemma_has_zero(c);
                    }
                }
            }
            return suited.trailing_zeros() as u8;
        }
        let beating = cards_beating_winner(suited, winner_card, trump, led_suit);
        if beating != 0 {
            let l = lowest_card(beating);
            proof {
                assert(mem(beating, l as int));
                assert(mem(suited, l as int) && beats_winner(l as int, wc, trump as int, led_suit as int));
                assert forall|c: int| #[trigger] mem(suited, c) && beats_winner(c, wc, trump as int, led_suit as int) implies l <= c by {
                    assert(mem(beating, c));
                }
            }
            return l;
        }
        proof {
            lemma_lowest(suited);
            assert forall|c: int| !(#[trigger] mem(suited, c) && beats_winner(c, wc, trump as int, led_suit as int)) by {
                if mem(suited, c) && beats_winner(c, wc, trump as int, led_suit as int) {
                    assert(mem(beating, c));
                    lemma_has_zero(c);
                }
            }
        }
        return suited.trailing_zeros() as u8;
    }

    let trump_mask = suit_mask(trump);
    let trump_cards = legal & trump_mask;
    let non_trump = legal & !trump_mask;
    proof {
        assert forall|c: int| #[trigger] mem(non_trump, c) == (mem(legal, c) && !mem(trump_mask, c)) by {
            lemma_has_and_not(legal, trump_mask, c);
        }
        assert(in_deck(non_trump));
        assert forall|c: int| #[trigger] mem(trump_cards, c) == (mem(legal, c) && c / 10 == trump) by {
            lemma_has_and(legal, trump_mask, c);
        }
        assert(in_deck(trump_cards));
    }
    if (seat % 2) == (winner_seat % 2) {
        if non_trump != 0 {
            let winner_card = winner_card_of(game, winner_seat);
            if is_partner_secure(game, seat, winner_card, current_hands) {
                return select_bleed_card(non_trump, current_hands);
            } else {
                return dump_lowest_off_suit(non_trump, legal);
            }
        }
        proof {
            lemma_lowest(trump_cards);
            if game.state.trick_number < 10 {
                lemma_lowest(legal);
                let c = lowest(legal);
                assert(mem(legal, c));
                if !mem(trump_mask, c) {
                    assert(mem(non_trump, c));
                    lemma_has_zero(c);
                }
                assert(mem(trump_cards, c));
            }
        }
        return trump_cards.trailing_zeros() as u8;
    }
    if trump_cards != 0 {
        let winner_card = winner_card_of(game, winner_seat);
        if card_suit(winner_card) == trump {
            let win_rank = card_rank(winner_card);
            let shift: u8 = trump * 10 + win_rank + 1;
            let run = 0x3FFu64 << shift;
            let higher_trumps = trump_cards & run;
            proof {
                assert forall|c: int| #[trigger] mem(higher_trumps, c) == (mem(trump_cards, c) && rank_of(c) > rank_of(wc)) by {
                    lemma_has_and(trump_cards, run, c);
                    crate::bits::lemma_run_mask(shift as u64, c);
                }
            }
            if higher_trumps != 0 {
                let l = lowest_card(higher_trumps);
                proof {
                    assert(mem(higher_trumps, l as int));
                    assert forall|c: int| #[trigger] mem(trump_cards, c) && rank_of(c) > rank_of(wc) implies l <= c by {
                        assert(mem(higher_trumps, c));
                    }
                }
                return l;
            }
            proof {
                assert forall|c: int| !(#[trigger] mem(trump_cards, c) && rank_of(c) > rank_of(wc)) by {
                    if mem(trump_cards, c) && rank_of(c) > rank_of(wc) {
                        assert(mem(higher_trumps, c));
                        lemma_has_zero(c);
                    }
                }
            }
            return dump_lowest_off_suit(non_trump, legal);
        } else {
            proof {
                lemma_lowest(trump_cards);
            }
            return trump_cards.trailing_zeros() as u8;
        }
    }
    dump_lowest_off_suit(non_trump, legal)
}


/// Ducking: the lowest-ranked card of `legal` (lowest suit on ties); 40 when empty.
pub open spec fn duck_choice(legal: u64, r: int) -> bool {
    if legal != 0 {
        first_min(legal, |c: int| dump_key(c), r)
    } else {
        r == 40
    }
}

fn duck_or_dump(legal: u64) -> (card: u8)
    requires
        in_deck(legal),
    ensures
        duck_choice(legal, card as int),
{
    if legal == 0 {
        return 40;
    }
    dump_lowest_off_suit(legal, legal)
}

/// Order for the highest-ranking card (least first): the highest rank, then suit
/// priority.
pub open spec fn top_rank_key(c: int) -> int {
    (9 - rank_of(c)) * 8 + suit_priority(suit_of(c))
}

/// The highest-ranking card of `m` (40 when empty).
pub open spec fn top_rank_choice(m: u64, r: int) -> bool {
    if m != 0 {
        first_min(m, |c: int| top_rank_key(c), r)
    } else {
        r == 40
    }
}

fn get_highest_ranking_card(mask: u64) -> (card: u8)
    requires
        in_deck(mask),
    ensures
        top_rank_choice(mask, card as int),
{
    if mask == 0 {
        return 40;
    }
    let mut keys = [0u32; 40];
    let mut c: u8 = 0;
    while c < 40
        invariant
            c <= 40,
            forall|d: int| 0 <= d < c ==> #[trigger] keys[d] == top_rank_key(d),
        decreases 40 - c,
    {
        keys[c as usize] = (9 - card_rank(c) as u32) * 8 + get_suit_priority(card_suit(c)) as u32;
        c = c + 1;
    }
    min_by_keys(mask, &keys)
}

/// Would `card` take the current trick? Always, when leading.
pub open spec fn would_beat_spec(card: int, g: SuecaSimulatorGame) -> bool {
    g.current_trick_len == 0 || beats(card, g.trick_best(), g.state.trump as int, g.trick_led())
}

fn would_beat(card: u8, game: &SuecaSimulatorGame) -> (r: bool)
    requires
        card < 40,
        game.trick_ok(),
    ensures
        r == would_beat_spec(card as int, *game),
{
    if game.current_trick_len == 0 {
        return true;
    }
    let trump = game.state.trump;
    let led_suit = card_suit(game.current_trick[0]);
    let mut best_card = game.current_trick[0];
    let mut i: usize = 1;
    while i < game.current_trick_len
        invariant
            game.trick_ok(),
            1 <= i <= game.current_trick_len,
            trump == game.state.trump,
            led_suit == game.trick_led(),
            0 <= crate::simulator::best_index(game.current_trick, i as int, trump as int, led_suit as int) < i,
            best_card == game.current_trick[crate::simulator::best_index(
                game.current_trick,
                i as int,
                trump as int,
                led_suit as int,
            )],
        decreases game.current_trick_len - i,
    {
        let c = game.current_trick[i];
        proof {
            crate::simulator::lemma_best_index_range(game.current_trick, (i + 1) as int, trump as int, led_suit as int);
        }
        if GameState::beats_card(c, best_card, trump, led_suit) {
            best_card = c;
        }
        i = i + 1;
    }
    GameState::beats_card(card, best_card, trump, led_suit)
}

/// Order among point cards to load on a partner's trick (least first): the most points,
/// then non-trumps before trumps, then suit priority.
pub open spec fn load_key(c: int, trump: int) -> int {
    (11 - points_of(c)) * 64 + (if suit_of(c) == trump {
        8int
    } else {
        0int
    }) + suit_priority(suit_of(c))
}

/// A legal card worth points.
pub open spec fn point_card(st: GameState, c: int) -> bool {
    mem(st.legal_mask(), c) && points_of(c) > 0
}

/// The legal point card to give a partner who wins the trick, if there is one.
fn get_deterministic_load_points_card(game: &SuecaSimulatorGame, _seat: u8) -> (r: Option<u8>)
    requires
        game.wf(),
    ensures
        r.is_none() == !(exists|c: int| #[trigger] point_card(game.state, c)),
        r matches Some(c) ==> first_min_where(
            |c: int| point_card(game.state, c),
            |c: int| load_key(c, game.state.trump as int),
            c as int,
        ),
{
    let trump = game.state.trump;
    let legal = game.state.legal_moves();
    proof {
        game.state.lemma_legal_mask();
        assert(in_deck(game.state.hands[game.state.current_player as int]));
    }
    let mut point_cards: u64 = 0;
    let mut keys = [0u32; 40];
    let mut c: u8 = 0;
    proof {
        assert forall|j: int| #[trigger] mem(point_cards, j) implies false by {
            lemma_has_zero(j);
        }
    }
    while c < 40
        invariant
            c <= 40,
            trump == game.state.trump,
            legal == game.state.legal_mask(),
            in_deck(legal),
            forall|j: int| #[trigger] mem(point_cards, j) == (point_card(game.state, j) && j < c),
            forall|d: int| 0 <= d < c ==> #[trigger] keys[d] == load_key(d, trump as int),
        decreases 40 - c,
    {
        let pts = card_points(c);
        if (legal >> (c as u64)) & 1u64 == 1u64 && pts > 0 {
            proof {
                assert forall|j: int| #[trigger] mem(point_cards | single_spec(c), j) == (mem(point_cards, j) || j == c) by {
                    crate::bits::lemma_has_or(point_cards, single_spec(c), j);
                    lemma_has_single(c as u64, j);
                }
            }
            point_cards = point_cards | single(c);
        }
        let is_trump: u32 = if card_suit(c) == trump { 8 } else { 0 };
        keys[c as usize] = (11 - pts as u32) * 64 + is_trump + get_suit_priority(card_suit(c)) as u32;
        c = c + 1;
    }
    proof {
        assert forall|j: int| #[trigger] mem(point_cards, j) == point_card(game.state, j) by {
            if point_card(game.state, j) {
                assert(mem(legal, j));
            }
        }
    }
    if point_cards == 0 {
        proof {
            assert forall|j: int| !#[trigger] point_card(game.state, j) by {
                if point_card(game.state, j) {
                    assert(mem(point_cards, j));
                    lemma_has_zero(j);
                }
            }
        }
        return None;
    }
    proof {
        assert(in_deck(point_cards));
    }
    let best = min_by_keys(point_cards, &keys);
    proof {
        assert forall|j: int| #[trigger] point_card(game.state, j) implies load_key(best as int, trump as int) <= load_key(j, trump as int) by {
            assert(mem(point_cards, j));
        }
        assert forall|j: int| #[trigger] point_card(game.state, j) && j < best implies load_key(best as int, trump as int) < load_key(j, trump as int) by {
            assert(mem(point_cards, j));
        }
    }
    Some(best)
}

/// `s` is the shortest non-trump suit of `hand` that it holds (ties to the higher suit).
pub open spec fn short_suit(hand: u64, trump: int, s: int) -> bool {
    let n = count(of_suit(hand, s));
    &&& 0 <= s < 4
    &&& s != trump
    &&& n > 0
    &&& forall|s2: int|
        0 <= s2 < 4 && s2 != trump && #[trigger] count(of_suit(hand, s2)) > 0 ==> count(
            of_suit(hand, s2),
        ) > n || (count(of_suit(hand, s2)) == n && s2 <= s)
}

/// The longest non-trump suit of `m` (ties to the higher suit), if any.
fn longest_side_suit(m: u64, trump: u8) -> (r: Option<u8>)
    requires
        trump < 4,
    ensures
        r.is_none() == !(exists|s: int| #[trigger] probe_suit(m, trump as int, s)),
        r matches Some(s) ==> probe_suit(m, trump as int, s as int),
{
    let mut best_suit: Option<u8> = None;
    let mut best_count: u32 = 0;
    let mut s: u8 = 0;
    while s < 4
        invariant
            s <= 4,
            best_suit.is_none() ==> best_count == 0 && forall|s2: int| 0 <= s2 < s && s2 != trump ==> #[trigger] count(of_suit(m, s2)) == 0,
            best_suit matches Some(b) ==> b < s && b != trump && best_count == count(of_suit(m, b as int))
                && best_count > 0
                && forall|s2: int| 0 <= s2 < s && s2 != trump && #[trigger] count(of_suit(m, s2)) > 0
                    ==> count(of_suit(m, s2)) < best_count || (count(of_suit(m, s2)) == best_count && s2 <= b),
        decreases 4 - s,
    {
        if s != trump {
            let count = popcount(cards_of_suit(m, s));
            if count > 0 && count >= best_count {
                best_suit = Some(s);
                best_count = count;
            }
        }
        s = s + 1;
    }
    proof {
        if let Some(b) = best_suit {
            assert(probe_suit(m, trump as int, b as int));
        } else {
            assert forall|s2: int| !#[trigger] probe_suit(m, trump as int, s2) by {}
        }
    }
    best_suit
}

/// The shortest non-trump suit of `m` that it holds (ties to the higher suit), if any.
fn shortest_side_suit(m: u64, trump: u8) -> (r: Option<u8>)
    requires
        trump < 4,
    ensures
        r.is_none() == !(exists|s: int| #[trigger] short_suit(m, trump as int, s)),
        r matches Some(s) ==> short_suit(m, trump as int, s as int),
{
    let mut best_suit: Option<u8> = None;
    let mut min_count: u32 = u32::MAX;
    let mut s: u8 = 0;
    while s < 4
        invariant
            s <= 4,
            best_suit.is_none() ==> min_count == u32::MAX && forall|s2: int| 0 <= s2 < s && s2 != trump ==> #[trigger] count(of_suit(m, s2)) == 0,
            best_suit matches Some(b) ==> b < s && b != trump && min_count == count(of_suit(m, b as int))
                && min_count > 0
                && forall|s2: int| 0 <= s2 < s && s2 != trump && #[trigger] count(of_suit(m, s2)) > 0
                    ==> count(of_suit(m, s2)) > min_count || (count(of_suit(m, s2)) == min_count && s2 <= b),
        decreases 4 - s,
    {
        if s != trump {
            let count = popcount(cards_of_suit(m, s));
            proof {
                lemma_count_below_bound(of_suit(m, s as int), 64);
            }
            if count > 0 && count <= min_count {
                best_suit = Some(s);
                min_count = count;
            }
        }
        s = s + 1;
    }
    proof {
        if let Some(b) = best_suit {
            assert(short_suit(m, trump as int, b as int));
        } else {
            assert forall|s2: int| !#[trigger] short_suit(m, trump as int, s2) by {}
        }
    }
    best_suit
}

/// Order for the cheapest winning card: the lowest rank.
pub open spec fn rank_key(c: int) -> int {
    rank_of(c)
}

/// A card of `m` that would take the current trick.
pub open spec fn winning_card(m: u64, g: SuecaSimulatorGame, c: int) -> bool {
    mem(m, c) && would_beat_spec(c, g)
}

/// The cheapest card of `m` that would take the current trick, if any.
fn cheapest_winning_card(m: u64, game: &SuecaSimulatorGame) -> (r: Option<u8>)
    requires
        in_deck(m),
        game.trick_ok(),
    ensures
        r.is_none() == !(exists|c: int| #[trigger] winning_card(m, *game, c)),
        r matches Some(c) ==> first_min_where(|c: int| winning_card(m, *game, c), |c: int| rank_key(c), c as int),
{
    let mut best: Option<u8> = None;
    let mut best_rank: u8 = 10;
    let mut c: u8 = 0;
    while c < 40
        invariant
            c <= 40,
            in_deck(m),
            game.trick_ok(),
            best.is_none() ==> best_rank == 10 && forall|d: int| 0 <= d < c ==> !#[trigger] winning_card(m, *game, d),
            best matches Some(b) ==> b < c && winning_card(m, *game, b as int) && best_rank == rank_of(b as int)
                && (forall|d: int| 0 <= d < c && #[trigger] winning_card(m, *game, d) ==> rank_of(b as int) <= rank_of(d))
                && (forall|d: int| 0 <= d < b && #[trigger] winning_card(m, *game, d) ==> rank_of(b as int) < rank_of(d)),
        decreases 40 - c,
    {
        if (m >> (c as u64)) & 1u64 == 1u64 && would_beat(c, game) {
            let rank = card_rank(c);
            if rank < best_rank {
                best_rank = rank;
                best = Some(c);
            }
        }
        c = c + 1;
    }
    proof {
        assert forall|d: int| #[trigger] winning_card(m, *game, d) implies d < 40 by {}
    }
    best
}


/// Leading low from the longest non-trump suit of `hand`, or ducking without one.
pub open spec fn long_suit_lead(hand: u64, trump: int, legal: u64, r: int) -> bool {
    if exists|s: int| #[trigger] probe_suit(hand, trump, s) {
        exists|s: int| #[trigger] probe_suit(hand, trump, s) && r == lowest(of_suit(hand, s))
    } else {
        duck_choice(legal, r)
    }
}

/// The card the intent resolver plays for `intent`, as `r`.
///
/// 0, MAX_FORCE: lead the highest trump, else cash a master card, else duck; follow
/// with the highest card of the led suit, else the highest trump, else the highest card.
/// 1, MIN_FORCE: lead low from the longest side suit, else duck; follow with the lowest
/// card of the led suit, else duck.
/// 2, EFFICIENT_WIN: lead the lowest trump when holding two or more, else as MIN_FORCE;
/// follow with the cheapest card of the led suit that takes the trick, else its lowest
/// card; void, with the cheapest winning trump, else duck.
/// 3, EQUITY_BUILDER: lead low from the shortest side suit, else duck; follow by loading
/// the most valuable point card on a partner's trick, else the lowest card of the led
/// suit, else duck.
/// Any other intent ducks.
pub open spec fn intent_choice(intent: int, g: SuecaSimulatorGame, seat: int, r: int) -> bool {
    let st = g.state;
    let legal = st.legal_mask();
    let trump = st.trump as int;
    let hand = st.hands[seat];
    let leading = g.current_trick_len == 0;
    let suited = of_suit(legal, g.trick_led());
    let trumps = of_suit(legal, trump);
    if intent == 0 {
        if leading {
            if trumps != 0 {
                top_rank_choice(trumps, r)
            } else if exists|c: int| #[trigger] cash_candidate(st, seat, c) {
                first_min_where(|c: int| cash_candidate(st, seat, c), |c: int| cash_key(st, seat, c), r)
            } else {
                duck_choice(legal, r)
            }
        } else if suited != 0 {
            top_rank_choice(suited, r)
        } else if trumps != 0 {
            top_rank_choice(trumps, r)
        } else {
            top_rank_choice(legal, r)
        }
    } else if intent == 1 {
        if leading {
            long_suit_lead(hand, trump, legal, r)
        } else if suited != 0 {
            r == lowest(suited)
        } else {
            duck_choice(legal, r)
        }
    } else if intent == 2 {
        if leading {
            if count(trumps) > 1 {
                r == lowest(trumps)
            } else {
                long_suit_lead(hand, trump, legal, r)
            }
        } else if suited != 0 {
            if exists|c: int| #[trigger] winning_card(suited, g, c) {
                first_min_where(|c: int| winning_card(suited, g, c), |c: int| rank_key(c), r)
            } else {
                r == lowest(suited)
            }
        } else if exists|c: int| #[trigger] winning_card(trumps, g, c) {
            first_min_where(|c: int| winning_card(trumps, g, c), |c: int| rank_key(c), r)
        } else {
            duck_choice(legal, r)
        }
    } else if intent == 3 {
        if leading {
            if exists|s: int| #[trigger] short_suit(hand, trump, s) {
                exists|s: int| #[trigger] short_suit(hand, trump, s) && r == lowest(of_suit(hand, s))
            } else {
                duck_choice(legal, r)
            }
        } else if st.current_trick_winner == (seat + 2) % 4 && exists|c: int|
            #[trigger] point_card(st, c) {
            first_min_where(|c: int| point_card(st, c), |c: int| load_key(c, trump), r)
        } else if suited != 0 {
            r == lowest(suited)
        } else {
            duck_choice(legal, r)
        }
    } else {
        duck_choice(legal, r)
    }
}

/// Loading points on a partner's trick gives the most points: when `seat` follows a
/// trick its partner is winning and holds a legal card worth points, the `EQUITY_BUILDER`
/// intent plays a legal point card worth at least as many points as every other legal
/// point card.
pub proof fn lemma_load_gives_most_points(g: SuecaSimulatorGame, seat: int, r: int)
    requires
        intent_choice(3, g, seat, r),
        g.current_trick_len != 0,
        g.state.current_trick_winner == (seat + 2) % 4,
        exists|c: int| mem(g.state.legal_mask(), c) && points_of(c) > 0,
    ensures
        mem(g.state.legal_mask(), r),
        points_of(r) > 0,
        forall|d: int| #[trigger] mem(g.state.legal_mask(), d) && points_of(d) > 0 ==> points_of(r) >= points_of(d),
        forall|d: int| #[trigger] mem(g.state.legal_mask(), d) && points_of(d) == points_of(r) && suit_of(r)
            == g.state.trump ==> suit_of(d) == g.state.trump,
{
    let st = g.state;
    let trump = st.trump as int;
    let c0 = choose|c: int| mem(g.state.legal_mask(), c) && points_of(c) > 0;
    assert(point_card(st, c0));
    let key = |c: int| load_key(c, trump);
    let p = |c: int| point_card(st, c);
    assert(first_min_where(p, key, r));
    assert forall|d: int| #[trigger] mem(st.legal_mask(), d) && points_of(d) > 0 implies points_of(r) >= points_of(d)
        && (points_of(d) == points_of(r) && suit_of(r) == trump ==> suit_of(d) == trump) by {
        assert(p(d));
        assert(key(r) <= key(d));
    }
}

proof fn lemma_duck_unique(legal: u64, r1: int, r2: int)
    requires
        duck_choice(legal, r1),
        duck_choice(legal, r2),
    ensures
        r1 == r2,
{
    if legal != 0 {
        lemma_first_min_unique(legal, |c: int| dump_key(c), r1, r2);
    }
}

proof fn lemma_long_suit_lead_unique(hand: u64, trump: int, legal: u64, r1: int, r2: int)
    requires
        long_suit_lead(hand, trump, legal, r1),
        long_suit_lead(hand, trump, legal, r2),
    ensures
        r1 == r2,
{
    if exists|s: int| #[trigger] probe_suit(hand, trump, s) {
        let s1 = choose|s: int| #[trigger] probe_suit(hand, trump, s) && r1 == lowest(of_suit(hand, s));
        let s2 = choose|s: int| #[trigger] probe_suit(hand, trump, s) && r2 == lowest(of_suit(hand, s));
        assert(count(of_suit(hand, s1)) > 0 && count(of_suit(hand, s2)) > 0);
        assert(s1 == s2);
    } else {
        lemma_duck_unique(legal, r1, r2);
    }
}

proof fn lemma_top_rank_unique(m: u64, r1: int, r2: int)
    requires
        top_rank_choice(m, r1),
        top_rank_choice(m, r2),
    ensures
        r1 == r2,
{
    if m != 0 {
        lemma_first_min_unique(m, |c: int| top_rank_key(c), r1, r2);
    }
}

proof fn lemma_first_min_where_unique(p: spec_fn(int) -> bool, key: spec_fn(int) -> int, r1: int, r2: int)
    requires
        first_min_where(p, key, r1),
        first_min_where(p, key, r2),
    ensures
        r1 == r2,
{
    assert(key(r1) <= key(r2) && key(r2) <= key(r1));
}

/// Lead low from the longest side suit of `hand`, or duck.
fn lead_long_suit(hand: u64, trump: u8, legal: u64) -> (card: u8)
    requires
        trump < 4,
        in_deck(legal),
    ensures
        long_suit_lead(hand, trump as int, legal, card as int),
        (exists|s: int| #[trigger] probe_suit(hand, trump as int, s)) ==> mem(hand, card as int),
        !(exists|s: int| #[trigger] probe_suit(hand, trump as int, s)) ==> duck_choice(legal, card as int),
{
    match longest_side_suit(hand, trump) {
        Some(s) => {
            let suit_cards = cards_of_suit(hand, s);
            proof {
                lemma_count_zero(suit_cards);
                lemma_lowest(suit_cards);
                assert forall|s2: int| #[trigger] probe_suit(hand, trump as int, s2) implies s2 == s by {}
            }
            suit_cards.trailing_zeros() as u8
        },
        None => duck_or_dump(legal),
    }
}

/// The intent resolver names one card at most for each intent.
pub proof fn lemma_intent_choice_unique(intent: int, g: SuecaSimulatorGame, seat: int, r1: int, r2: int)
    requires
        intent_choice(intent, g, seat, r1),
        intent_choice(intent, g, seat, r2),
    ensures
        r1 == r2,
{
    let st = g.state;
    let legal = st.legal_mask();
    let trump = st.trump as int;
    let hand = st.hands[seat];
    let leading = g.current_trick_len == 0;
    let suited = of_suit(legal, g.trick_led());
    let trumps = of_suit(legal, trump);
    if intent == 0 {
        if leading {
            if trumps != 0 {
                lemma_top_rank_unique(trumps, r1, r2);
            } else if exists|c: int| #[trigger] cash_candidate(st, seat, c) {
                lemma_first_min_where_unique(|c: int| cash_candidate(st, seat, c), |c: int| cash_key(st, seat, c), r1, r2);
            } else {
                lemma_duck_unique(legal, r1, r2);
            }
        } else if suited != 0 {
            lemma_top_rank_unique(suited, r1, r2);
        } else if trumps != 0 {
            lemma_top_rank_unique(trumps, r1, r2);
        } else {
            lemma_top_rank_unique(legal, r1, r2);
        }
    } else if intent == 1 {
        if leading {
            lemma_long_suit_lead_unique(hand, trump, legal, r1, r2);
        } else if suited == 0 {
            lemma_duck_unique(legal, r1, r2);
        }
    } else if intent == 2 {
        if leading {
            if count(trumps) <= 1 {
                lemma_long_suit_lead_unique(hand, trump, legal, r1, r2);
            }
        } else if suited != 0 {
            if exists|c: int| #[trigger] winning_card(suited, g, c) {
                lemma_first_min_where_unique(|c: int| winning_card(suited, g, c), |c: int| rank_key(c), r1, r2);
            }
        } else if exists|c: int| #[trigger] winning_card(trumps, g, c) {
            lemma_first_min_where_unique(|c: int| winning_card(trumps, g, c), |c: int| rank_key(c), r1, r2);
        } else {
            lemma_duck_unique(legal, r1, r2);
        }
    } else if intent == 3 {
        if leading {
            if exists|s: int| #[trigger] short_suit(hand, trump, s) {
                let s1 = choose|s: int| #[trigger] short_suit(hand, trump, s) && r1 == lowest(of_suit(hand, s));
                let s2 = choose|s: int| #[trigger] short_suit(hand, trump, s) && r2 == lowest(of_suit(hand, s));
                assert(count(of_suit(hand, s1)) > 0 && count(of_suit(hand, s2)) > 0);
                assert(s1 == s2);
            } else {
                lemma_duck_unique(legal, r1, r2);
            }
        } else if st.current_trick_winner == (seat + 2) % 4 && exists|c: int| #[trigger] point_card(st, c) {
            lemma_first_min_where_unique(|c: int| point_card(st, c), |c: int| load_key(c, trump), r1, r2);
        } else if suited == 0 {
            lemma_duck_unique(legal, r1, r2);
        }
    } else {
        lemma_duck_unique(legal, r1, r2);
    }
}


/// The intent resolver: turns one of the four play intents into a legal card.
pub fn resolve_intent(intent: usize, game: &SuecaSimulatorGame, seat: u8) -> (card: u8)
    requires
        game.wf(),
        seat < 4,
    ensures
        intent_choice(intent as int, *game, seat as int, card as int),
        seat == game.state.current_player && game.state.trick_number < 10
            ==> game.state.is_legal(card as int),
{
    let legal = game.state.legal_moves();
    proof {
        if game.state.trick_number < 10 {
            game.state.lemma_valid_has_legal(game.trick_points);
        }
    }
    let trump = game.state.trump;
    let leading = game.current_trick_len == 0;
    let hand = game.state.hands[seat as usize];
    proof {
        game.state.lemma_legal_mask();
        assert(in_deck(game.state.hands[game.state.current_player as int]));
        assert(in_deck(legal));
        assert(in_deck(hand));
    }
    let suited = if leading {
        0
    } else {
        cards_of_suit(legal, card_suit(game.current_trick[0]))
    };
    let trump_cards = cards_of_suit(legal, trump);
    proof {
        if leading {
            assert forall|c: int| !#[trigger] mem(suited, c) by {
                lemma_has_zero(c);
            }
        }
        assert(in_deck(suited));
        assert(in_deck(trump_cards));
    }
    match intent {
        0 => {
            if leading {
                if trump_cards != 0 {
                    let c = get_highest_ranking_card(trump_cards);
                    assert(mem(trump_cards, c as int));
                    c
                } else if let Some(master_card) = get_deterministic_cash_master_card(game, seat) {
                    proof {
                        if seat == game.state.current_player && game.state.trick_number < 10 {
                            assert(mem(hand, master_card as int));
                            assert(game.state.is_legal(master_card as int));
                        }
                    }
                    master_card
                } else {
                    let c = duck_or_dump(legal);
                    proof {
                        if seat == game.state.current_player && game.state.trick_number < 10 {
                            assert(mem(legal, c as int));
                            assert(game.state.is_legal(c as int));
                        }
                    }
                    c
                }
            } else if suited != 0 {
                let c = get_highest_ranking_card(suited);
                assert(mem(suited, c as int));
                c
            } else if trump_cards != 0 {
                let c = get_highest_ranking_card(trump_cards);
                assert(mem(trump_cards, c as int));
                c
            } else {
                let c = get_highest_ranking_card(legal);
                proof {
                    if game.state.trick_number < 10 {
                        assert(mem(legal, c as int));
                    }
                }
                c
            }
        },
        1 => {
            if leading {
                lead_long_suit(hand, trump, legal)
            } else if suited != 0 {
                proof {
                    lemma_lowest(suited);
                }
                suited.trailing_zeros() as u8
            } else {
                let c = duck_or_dump(legal);
                proof {
                    if seat == game.state.current_player && game.state.trick_number < 10 {
                        assert(mem(legal, c as int));
                    }
                }
                c
            }
        },
        2 => {
            if leading {
                if popcount(trump_cards) > 1 {
                    proof {
                        lemma_count_zero(trump_cards);
                        lemma_lowest(trump_cards);
                    }
                    trump_cards.trailing_zeros() as u8
                } else {
                    lead_long_suit(hand, trump, legal)
                }
            } else if suited != 0 {
                match cheapest_winning_card(suited, game) {
                    Some(c) => {
                        assert(mem(suited, c as int));
                        c
                    },
                    None => {
                        proof {
                            lemma_lowest(suited);
                        }
                        suited.trailing_zeros() as u8
                    },
                }
            } else {
                match cheapest_winning_card(trump_cards, game) {
                    Some(c) => {
                        assert(mem(trump_cards, c as int));
                        c
                    },
                    None => {
                        let c = duck_or_dump(legal);
                        proof {
                            if seat == game.state.current_player && game.state.trick_number < 10 {
                                assert(mem(legal, c as int));
                            }
                        }
                        c
                    },
                }
            }
        },
        3 => {
            if leading {
                match shortest_side_suit(hand, trump) {
                    Some(s) => {
                        let suit_cards = cards_of_suit(hand, s);
                        proof {
                            lemma_count_zero(suit_cards);
                            lemma_lowest(suit_cards);
                            assert forall|s2: int| #[trigger] short_suit(hand, trump as int, s2) implies s2 == s by {}
                        }
                        suit_cards.trailing_zeros() as u8
                    },
                    None => duck_or_dump(legal),
                }
            } else {
                let partner_winning = game.state.current_trick_winner == (seat + 2) % 4;
                let mut load_card: Option<u8> = None;
                if partner_winning {
                    load_card = get_deterministic_load_points_card(game, seat);
                }
                if let Some(c) = load_card {
                    c
                } else if suited != 0 {
                    proof {
                        lemma_lowest(suited);
                    }
                    suited.trailing_zeros() as u8
                } else {
                    duck_or_dump(legal)
                }
            }
        },
        _ => duck_or_dump(legal),
    }
}


/// Order for throwing a card of the led suit (least first): the fewest points, then the
/// lowest rank.
pub open spec fn point_aware_key(c: int) -> int {
    points_of(c) * 256 + rank_of(c)
}

fn dump_suited_point_aware(suited_cards: u64) -> (card: u8)
    requires
        suited_cards != 0,
        in_deck(suited_cards),
    ensures
        first_min(suited_cards, |c: int| point_aware_key(c), card as int),
{
    let mut keys = [0u32; 40];
    let mut c: u8 = 0;
    while c < 40
        invariant
            c <= 40,
            forall|d: int| 0 <= d < c ==> #[trigger] keys[d] == point_aware_key(d),
        decreases 40 - c,
    {
        let p = card_points(c) as u32;
        proof {
            assert(p <= 11 ==> (p << 8u32) == p * 256) by (bit_vector);
        }
        keys[c as usize] = (p << 8u32) + card_rank(c) as u32;
        c = c + 1;
    }
    min_by_keys(suited_cards, &keys)
}

/// The earlier heuristic's card for `seat`, as `r`.
///
/// Leading: the highest card of the longest non-trump suit, else the lowest trump.
/// Following with cards of the led suit: throw the card worth least when the partner
/// wins; when an opponent wins, take the trick as cheaply as possible, or else throw the
/// card worth least. Void in the led suit: when the partner wins, dump the lowest
/// off-suit card (the lowest trump without one); when an opponent wins, overtrump as
/// cheaply as possible over a trump, or else cut with the lowest trump, or else dump.
pub open spec fn old_choice(g: SuecaSimulatorGame, seat: int, r: int) -> bool {
    let st = g.state;
    let legal = st.legal_mask();
    let trump = st.trump as int;
    if g.current_trick_len == 0 {
        if exists|s: int| #[trigger] probe_suit(legal, trump, s) {
            exists|s: int| #[trigger] probe_suit(legal, trump, s) && r == highest(of_suit(legal, s))
        } else {
            r == lowest(of_suit(legal, trump))
        }
    } else {
        let led = g.trick_led();
        let suited = of_suit(legal, led);
        let ws = g.trick_winner();
        let wc = g.trick_best();
        if suited != 0 {
            if seat % 2 == ws % 2 {
                first_min(suited, |c: int| point_aware_key(c), r)
            } else if exists|c: int| #[trigger] mem(suited, c) && beats_winner(c, wc, trump, led) {
                least_where(|c: int| mem(suited, c) && beats_winner(c, wc, trump, led), r)
            } else {
                first_min(suited, |c: int| point_aware_key(c), r)
            }
        } else {
            let trumps = of_suit(legal, trump);
            let non_trump = legal & !suit_mask_spec(trump);
            if seat % 2 == ws % 2 {
                if non_trump != 0 {
                    dump_choice(non_trump, legal, r)
                } else {
                    r == lowest(trumps)
                }
            } else if trumps != 0 {
                if suit_of(wc) == trump {
                    if exists|c: int| #[trigger] mem(trumps, c) && rank_of(c) > rank_of(wc) {
                        least_where(|c: int| mem(trumps, c) && rank_of(c) > rank_of(wc), r)
                    } else {
                        dump_choice(non_trump, legal, r)
                    }
                } else {
                    r == lowest(trumps)
                }
            } else {
                dump_choice(non_trump, legal, r)
            }
        }
    }
}

/// The earlier heuristic names one card at most.
pub proof fn lemma_old_choice_unique(g: SuecaSimulatorGame, seat: int, r1: int, r2: int)
    requires
        old_choice(g, seat, r1),
        old_choice(g, seat, r2),
    ensures
        r1 == r2,
{
    let st = g.state;
    let legal = st.legal_mask();
    let trump = st.trump as int;
    if g.current_trick_len == 0 {
        if exists|s: int| #[trigger] probe_suit(legal, trump, s) {
            let s1 = choose|s: int| #[trigger] probe_suit(legal, trump, s) && r1 == highest(of_suit(legal, s));
            let s2 = choose|s: int| #[trigger] probe_suit(legal, trump, s) && r2 == highest(of_suit(legal, s));
            assert(count(of_suit(legal, s1)) > 0 && count(of_suit(legal, s2)) > 0);
            assert(s1 == s2);
        }
    } else {
        let led = g.trick_led();
        let suited = of_suit(legal, led);
        let ws = g.trick_winner();
        let wc = g.trick_best();
        if suited != 0 {
            if seat % 2 == ws % 2 || !(exists|c: int| #[trigger] mem(suited, c) && beats_winner(c, wc, trump, led)) {
                lemma_first_min_unique(suited, |c: int| point_aware_key(c), r1, r2);
            }
        } else {
            let trumps = of_suit(legal, trump);
            let non_trump = legal & !suit_mask_spec(trump);
            if seat % 2 == ws % 2 {
                if non_trump != 0 {
                    lemma_first_min_unique(non_trump, |c: int| dump_key(c), r1, r2);
                }
            } else if trumps != 0 {
                if suit_of(wc) == trump && !(exists|c: int| #[trigger] mem(trumps, c) && rank_of(c) > rank_of(wc))
                    && non_trump != 0 {
                    lemma_first_min_unique(non_trump, |c: int| dump_key(c), r1, r2);
                }
            } else if non_trump != 0 {
                lemma_first_min_unique(non_trump, |c: int| dump_key(c), r1, r2);
            }
        }
    }
}

/// The earlier heuristic bot: see `old_choice`.
pub fn select_card_heuristic_old(game: &SuecaSimulatorGame, seat: u8) -> (card: u8)
    requires
        game.wf(),
        seat < 4,
    ensures
        old_choice(*game, seat as int, card as int),
        game.state.trick_number < 10 ==> game.state.is_legal(card as int),
{
    let legal = game.state.legal_moves();
    let trump = game.state.trump;
    let ghost st = game.state;
    proof {
        st.lemma_legal_mask();
        assert(in_deck(legal)) by {
            assert(in_deck(st.hands[st.current_player as int]));
        }
        if game.state.trick_number < 10 {
            game.state.lemma_valid_has_legal(game.trick_points);
        }
    }

    if game.current_trick_len == 0 {
        match longest_side_suit(legal, trump) {
            Some(bs) => {
                let suited = cards_of_suit(legal, bs);
                proof {
                    lemma_count_zero(suited);
                    crate::bits::lemma_highest(suited);
                    assert forall|s2: int| #[trigger] probe_suit(legal, trump as int, s2) implies s2 == bs by {}
                }
                return highest_card(suited);
            },
            None => {},
        }
        let trumps = cards_of_suit(legal, trump);
        proof {
            if game.state.trick_number < 10 {
                lemma_lowest(legal);
                let c = lowest(legal);
                let cs = c / 10;
                assert(mem(legal, c));
                if cs != trump {
                    assert(!probe_suit(legal, trump as int, cs));
                    assert(count(of_suit(legal, cs)) == 0) by {
                        if count(of_suit(legal, cs)) > 0 {
                            assert(false) by {
                                longest_exists(legal, trump as int, cs);
                            }
                        }
                    }
                    lemma_count_zero(of_suit(legal, cs));
                    assert(c < 40);
                    lemma_has_and(legal, suit_mask_spec(cs), c);
                    crate::bits::lemma_suit_mask(cs, c);
                    assert(mem(of_suit(legal, cs), c));
                    lemma_has_zero(c);
                }
                assert(mem(trumps, c));
                lemma_lowest(trumps);
            }
        }
        return trumps.trailing_zeros() as u8;
    }

    let led_suit = card_suit(game.current_trick[0]);
    let suited = cards_of_suit(legal, led_suit);
    let winner_seat = match trick_winner_seat(game) {
        Some(w) => w,
        None => 0,
    };
    let ghost wc = game.trick_best();
    proof {
        crate::simulator::lemma_best_index_range(
            game.current_trick,
            game.current_trick_len as int,
            game.state.trump as int,
            game.trick_led(),
        );
        assert(in_deck(suited));
    }

    if suited != 0 {
        let winner_card = winner_card_of(game, winner_seat);
        if (seat % 2) == (winner_seat % 2) {
            return dump_suited_point_aware(suited);
        }
        let beating = cards_beating_winner(suited, winner_card, trump, led_suit);
        if beating != 0 {
            let l = lowest_card(beating);
            proof {
                assert(mem(beating, l as int));
                assert(mem(suited, l as int) && beats_winner(l as int, wc, trump as int, led_suit as int));
                assert forall|c: int| #[trigger] mem(suited, c) && beats_winner(c, wc, trump as int, led_suit as int) implies l <= c by {
                    assert(mem(beating, c));
                }
            }
            return l;
        }
        proof {
            assert forall|c: int| !(#[trigger] mem(suited, c) && beats_winner(c, wc, trump as int, led_suit as int)) by {
                if mem(suited, c) && beats_winner(c, wc, trump as int, led_suit as int) {
                    assert(mem(beating, c));
                    lemma_has_zero(c);
                }
            }
        }
        return dump_suited_point_aware(suited);
    }

    let trump_mask = suit_mask(trump);
    let trump_cards = legal & trump_mask;
    let non_trump = legal & !trump_mask;
    proof {
        assert forall|c: int| #[trigger] mem(non_trump, c) == (mem(legal, c) && !mem(trump_mask, c)) by {
            lemma_has_and_not(legal, trump_mask, c);
        }
        assert(in_deck(non_trump));
        assert forall|c: int| #[trigger] mem(trump_cards, c) == (mem(legal, c) && c / 10 == trump) by {
            lemma_has_and(legal, trump_mask, c);
        }
        assert(in_deck(trump_cards));
    }
    if (seat % 2) == (winner_seat % 2) {
        if non_trump != 0 {
            return dump_lowest_off_suit(non_trump, legal);
        }
        proof {
            lemma_lowest(trump_cards);
            if game.state.trick_number < 10 {
                lemma_lowest(legal);
                let c = lowest(legal);
                assert(mem(legal, c));
                if !mem(trump_mask, c) {
                    assert(mem(non_trump, c));
                    lemma_has_zero(c);
                }
                assert(mem(trump_cards, c));
            }
        }
        return trump_cards.trailing_zeros() as u8;
    }
    if trump_cards != 0 {
        let winner_card = winner_card_of(game, winner_seat);
        if card_suit(winner_card) == trump {
            let win_rank = card_rank(winner_card);
            let shift: u8 = trump * 10 + win_rank + 1;
            let run = 0x3FFu64 << shift;
            let higher_trumps = trump_cards & run;
            proof {
                assert forall|c: int| #[trigger] mem(higher_trumps, c) == (mem(trump_cards, c) && rank_of(c) > rank_of(wc)) by {
                    lemma_has_and(trump_cards, run, c);
                    crate::bits::lemma_run_mask(shift as u64, c);
                }
            }
            if higher_trumps != 0 {
                let l = lowest_card(higher_trumps);
                proof {
                    assert(mem(higher_trumps, l as int));
                    assert forall|c: int| #[trigger] mem(trump_cards, c) && rank_of(c) > rank_of(wc) implies l <= c by {
                        assert(mem(higher_trumps, c));
                    }
                }
                return l;
            }
            proof {
                assert forall|c: int| !(#[trigger] mem(trump_cards, c) && rank_of(c) > rank_of(wc)) by {
                    if mem(trump_cards, c) && rank_of(c) > rank_of(wc) {
                        assert(mem(higher_trumps, c));
                        lemma_has_zero(c);
                    }
                }
            }
            return dump_lowest_off_suit(non_trump, legal);
        } else {
            proof {
                lemma_lowest(trump_cards);
            }
            return trump_cards.trailing_zeros() as u8;
        }
    }
    dump_lowest_off_suit(non_trump, legal)
}

/// A non-trump suit with cards makes some suit the longest one.
proof fn longest_exists(m: u64, trump: int, s: int)
    requires
        0 <= s < 4,
        s != trump,
        count(of_suit(m, s)) > 0,
    ensures
        exists|s2: int| #[trigger] probe_suit(m, trump, s2),
{
    let c0 = count(of_suit(m, 0));
    let c1 = count(of_suit(m, 1));
    let c2 = count(of_suit(m, 2));
    let c3 = count(of_suit(m, 3));
    let ok = |x: int| 0 <= x < 4 && x != trump && count(of_suit(m, x)) > 0;
    // The best suit: the largest count, ties to the higher suit.
    let mut best: int = s;
    if ok(0) && (count(of_suit(m, 0)) > count(of_suit(m, best)) || (count(of_suit(m, 0)) == count(of_suit(m, best)) && 0 > best)) {
        best = 0;
    }
    if ok(1) && (count(of_suit(m, 1)) > count(of_suit(m, best)) || (count(of_suit(m, 1)) == count(of_suit(m, best)) && 1 > best)) {
        best = 1;
    }
    if ok(2) && (count(of_suit(m, 2)) > count(of_suit(m, best)) || (count(of_suit(m, 2)) == count(of_suit(m, best)) && 2 > best)) {
        best = 2;
    }
    if ok(3) && (count(of_suit(m, 3)) > count(of_suit(m, best)) || (count(of_suit(m, 3)) == count(of_suit(m, best)) && 3 > best)) {
        best = 3;
    }
    assert(probe_suit(m, trump, best));
}

} // verus!
