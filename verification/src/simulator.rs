//! A game wrapper that also records the cards of the current trick and the suits each
//! player is known to be void in.
use vstd::prelude::*;
use crate::bits::{in_deck, mem};
use crate::engine::{beats, card_suit, holds_suit, lemma_remove_card, suit_of, GameState};

verus! {

#[derive(Clone, Copy, Debug)]
pub struct SuecaSimulatorGame {
    pub state: GameState,
    /// Cards of the current trick in play order (40 = empty slot).
    pub current_trick: [u8; 4],
    /// Seats that played them (4 = empty slot).
    pub current_trick_seats: [u8; 4],
    pub current_trick_len: usize,
    /// Suit bitmask per player: bit `s` set when the player failed to follow suit `s`.
    pub voids: [u8; 4],
    /// Points played to the current trick.
    pub trick_points: u8,
}

/// Bit `s` of a void mask is set.
pub open spec fn void_bit(v: u8, s: int) -> bool {
    0 <= s < 8 && (v >> (s as u8)) & 1u8 == 1u8
}

/// A byte is its eight bits.
proof fn lemma_void_bits_equal(a: u8, b: u8)
    requires
        forall|s: int| 0 <= s < 8 ==> void_bit(a, s) == void_bit(b, s),
    ensures
        a == b,
{
    assert(void_bit(a, 0) == void_bit(b, 0));
    assert(void_bit(a, 1) == void_bit(b, 1));
    assert(void_bit(a, 2) == void_bit(b, 2));
    assert(void_bit(a, 3) == void_bit(b, 3));
    assert(void_bit(a, 4) == void_bit(b, 4));
    assert(void_bit(a, 5) == void_bit(b, 5));
    assert(void_bit(a, 6) == void_bit(b, 6));
    assert(void_bit(a, 7) == void_bit(b, 7));
    assert(a == b) by (bit_vector)
        requires
            ((a >> 0u8) & 1u8 == 1u8) == ((b >> 0u8) & 1u8 == 1u8),
            ((a >> 1u8) & 1u8 == 1u8) == ((b >> 1u8) & 1u8 == 1u8),
            ((a >> 2u8) & 1u8 == 1u8) == ((b >> 2u8) & 1u8 == 1u8),
            ((a >> 3u8) & 1u8 == 1u8) == ((b >> 3u8) & 1u8 == 1u8),
            ((a >> 4u8) & 1u8 == 1u8) == ((b >> 4u8) & 1u8 == 1u8),
            ((a >> 5u8) & 1u8 == 1u8) == ((b >> 5u8) & 1u8 == 1u8),
            ((a >> 6u8) & 1u8 == 1u8) == ((b >> 6u8) & 1u8 == 1u8),
            ((a >> 7u8) & 1u8 == 1u8) == ((b >> 7u8) & 1u8 == 1u8),
    ;
}

pub proof fn lemma_void_bit_set(v: u8, k: u8, s: int)
    requires
        k < 4,
    ensures
        void_bit(v | (1u8 << k), s) == (void_bit(v, s) || s == k),
        v < 16 ==> (v | (1u8 << k)) < 16,
{
    if 0 <= s < 8 {
        let j = s as u8;
        assert(((v | (1u8 << k)) >> j) & 1u8 == 1u8 <==> ((v >> j) & 1u8 == 1u8 || j == k))
            by (bit_vector)
            requires
                k < 4,
                j < 8,
        ;
    }
    assert(v < 16 && k < 4 ==> (v | (1u8 << k)) < 16) by (bit_vector);
}

pub proof fn lemma_void_bit_zero(s: int)
    ensures
        !void_bit(0u8, s),
{
    if 0 <= s < 8 {
        let j = s as u8;
        assert((0u8 >> j) & 1u8 == 0u8) by (bit_vector);
    }
}

/// The position, among the first `len` cards of a trick, of the card winning it:
/// each card is compared, in play order, with the best card so far.
pub open spec fn best_index(trick: [u8; 4], len: int, trump: int, led: int) -> int
    decreases len,
{
    if len <= 1 {
        0
    } else {
        let prev = best_index(trick, len - 1, trump, led);
        if beats(trick[len - 1] as int, trick[prev] as int, trump, led) {
            len - 1
        } else {
            prev
        }
    }
}

pub proof fn lemma_best_index_range(trick: [u8; 4], len: int, trump: int, led: int)
    ensures
        len >= 1 ==> 0 <= best_index(trick, len, trump, led) < len,
    decreases len,
{
    if len > 1 {
        lemma_best_index_range(trick, len - 1, trump, led);
    }
}

pub proof fn lemma_best_index_prefix(a: [u8; 4], b: [u8; 4], len: int, trump: int, led: int)
    requires
        len <= 4,
        forall|i: int| 0 <= i < len ==> a[i] == b[i],
    ensures
        best_index(a, len, trump, led) == best_index(b, len, trump, led),
    decreases len,
{
    if len > 1 {
        lemma_best_index_prefix(a, b, len - 1, trump, led);
        lemma_best_index_range(a, len - 1, trump, led);
    }
}

impl SuecaSimulatorGame {
    /// The led suit according to the first card of the trick.
    pub open spec fn trick_led(self) -> int {
        suit_of(self.current_trick[0] as int)
    }

    /// Position of the card currently winning the trick.
    pub open spec fn trick_best_index(self) -> int {
        best_index(
            self.current_trick,
            self.current_trick_len as int,
            self.state.trump as int,
            self.trick_led(),
        )
    }

    /// The seat currently winning the trick according to its cards.
    pub open spec fn trick_winner(self) -> int {
        self.current_trick_seats[self.trick_best_index()] as int
    }

    /// The card currently winning the trick according to its cards.
    pub open spec fn trick_best(self) -> int {
        self.current_trick[self.trick_best_index()] as int
    }

    /// The trick record is well formed: at most four cards of the deck, the first
    /// card's suit known.
    pub open spec fn trick_ok(self) -> bool {
        &&& self.current_trick_len <= 4
        &&& forall|i: int| 0 <= i < self.current_trick_len ==> #[trigger] self.current_trick[i] < 40
    }

    /// The game is consistent: a valid state, the trick record agreeing with it, and
    /// every recorded void true of the hand.
    pub open spec fn wf(self) -> bool {
        let len = self.current_trick_len as int;
        let cur = self.state.current_player as int;
        &&& self.state.valid(self.trick_points)
        &&& self.trick_ok()
        &&& len == self.state.cards_played_in_trick
        &&& (forall|i: int| 0 <= i < len ==> #[trigger] self.current_trick_seats[i] == (cur + len
            + 4 - i) % 4)
        &&& (len > 0 ==> self.trick_led() == self.state.led_suit)
        &&& (len > 0 ==> self.trick_best() == self.state.current_trick_best_card)
        &&& (len > 0 ==> self.trick_winner() == self.state.current_trick_winner)
        &&& (forall|p: int, s: int|
            0 <= p < 4 && #[trigger] void_bit(self.voids[p], s) ==> !holds_suit(
                self.state.hands[p],
                s,
            ))
        &&& (forall|p: int| 0 <= p < 4 ==> #[trigger] self.voids[p] < 16)
    }

    /// Playing `card` cannot overflow or index out of range.
    pub open spec fn can_play(self, card: int) -> bool {
        &&& self.state.can_play(card, self.trick_points as int)
        &&& self.trick_ok()
        &&& self.current_trick_len < 4
    }

    /// `post` is this game after the seat to play plays `card`: the state advances,
    /// the card and seat are recorded (the record empties when the trick closes), and
    /// a player who does not follow the led suit is marked void in it.
    pub open spec fn plays_to(self, card: int, post: Self) -> bool {
        let len = self.current_trick_len as int;
        let seat = self.state.current_player as int;
        let closes = self.state.cards_played_in_trick + 1 == 4;
        &&& self.state.plays_to(
            self.trick_points as int,
            card,
            post.state,
            post.trick_points as int,
        )
        &&& post.current_trick[len] == card
        &&& post.current_trick_seats[len] == seat
        &&& (forall|i: int| 0 <= i < 4 && i != len ==> #[trigger] post.current_trick[i]
            == self.current_trick[i])
        &&& (forall|i: int| 0 <= i < 4 && i != len ==> #[trigger] post.current_trick_seats[i]
            == self.current_trick_seats[i])
        &&& post.current_trick_len == if closes {
            0
        } else {
            len + 1
        }
        &&& (forall|s: int| #[trigger] void_bit(post.voids[seat], s) == (void_bit(
            self.voids[seat],
            s,
        ) || (len > 0 && suit_of(card) != self.trick_led() && s == self.trick_led())))
        &&& (forall|p: int| 0 <= p < 4 && p != seat ==> #[trigger] post.voids[p] == self.voids[p])
        &&& (self.voids[seat] < 16 ==> post.voids[seat] < 16)
    }

    /// A new deal; nothing played and no voids known.
    pub fn new(hands: [u64; 4], trump: u8, first_player: u8) -> (g: Self)
        ensures
            g.state.hands == hands,
            g.state.trump == trump,
            g.state.led_suit == 4,
            g.state.current_player == first_player,
            g.state.current_trick_winner == first_player,
            g.state.current_trick_best_card == 40,
            g.state.cards_played_in_trick == 0,
            g.state.team_02_score == 0,
            g.state.team_13_score == 0,
            g.state.trick_number == 0,
            g.current_trick_len == 0,
            forall|i: int| 0 <= i < 4 ==> #[trigger] g.voids[i] == 0,
            forall|i: int| 0 <= i < 4 ==> #[trigger] g.current_trick[i] == 40,
            forall|i: int| 0 <= i < 4 ==> #[trigger] g.current_trick_seats[i] == 4,
            g.trick_points == 0,
            crate::engine::is_deal(hands) && trump < 4 && first_player < 4 ==> g.wf(),
    {
        let g = Self {
            state: GameState::new(hands, trump, first_player),
            current_trick: [40; 4],
            current_trick_seats: [4; 4],
            current_trick_len: 0,
            voids: [0; 4],
            trick_points: 0,
        };
        proof {
            assert forall|p: int, s: int| 0 <= p < 4 implies !#[trigger] void_bit(g.voids[p], s) by {
                lemma_void_bit_zero(s);
            }
        }
        g
    }

    /// The seat to play plays `card`.
    pub fn play_card(&mut self, card: u8)
        requires
            old(self).can_play(card as int),
        ensures
            old(self).plays_to(card as int, *final(self)),
    {
        let seat = self.state.current_player;
        let suit = card_suit(card);
        let ghost old_voids = self.voids;
        if self.current_trick_len > 0 {
            let led_suit = card_suit(self.current_trick[0]);
            if suit != led_suit {
                proof {
                    assert forall|s: int| #[trigger] void_bit(self.voids[seat as int] | (1u8 << led_suit), s)
                        == (void_bit(self.voids[seat as int], s) || s == led_suit) by {
                        lemma_void_bit_set(self.voids[seat as int], led_suit, s);
                    }
                    lemma_void_bit_set(self.voids[seat as int], led_suit, 0);
                }
                self.voids[seat as usize] = self.voids[seat as usize] | (1u8 << led_suit);
            }
        }
        let len = self.current_trick_len;
        self.current_trick[len] = card;
        self.current_trick_seats[len] = seat;
        self.current_trick_len = len + 1;

        self.state.play_card_and_resolve(card, &mut self.trick_points);

        if self.state.cards_played_in_trick == 0 {
            self.current_trick_len = 0;
        }
    }
}

/// The seat winning the current trick, `None` before its first card.
pub fn trick_winner_seat(game: &SuecaSimulatorGame) -> (r: Option<u8>)
    requires
        game.trick_ok(),
    ensures
        game.current_trick_len == 0 ==> r.is_none(),
        game.current_trick_len > 0 ==> r == Some(game.trick_winner() as u8),
{
    if game.current_trick_len == 0 {
        return None;
    }
    let trump = game.state.trump;
    let led_suit = card_suit(game.current_trick[0]);
    let mut best_seat = game.current_trick_seats[0];
    let mut best_card = game.current_trick[0];
    let mut i: usize = 1;
    while i < game.current_trick_len
        invariant
            game.trick_ok(),
            1 <= i <= game.current_trick_len,
            trump == game.state.trump,
            led_suit == game.trick_led(),
            0 <= best_index(game.current_trick, i as int, trump as int, led_suit as int) < i,
            best_card == game.current_trick[best_index(
                game.current_trick,
                i as int,
                trump as int,
                led_suit as int,
            )],
            best_seat == game.current_trick_seats[best_index(
                game.current_trick,
                i as int,
                trump as int,
                led_suit as int,
            )],
        decreases game.current_trick_len - i,
    {
        let card = game.current_trick[i];
        let seat = game.current_trick_seats[i];
        proof {
            lemma_best_index_range(game.current_trick, (i + 1) as int, trump as int, led_suit as int);
        }
        if GameState::beats_card(card, best_card, trump, led_suit) {
            best_seat = seat;
            best_card = card;
        }
        i = i + 1;
    }
    Some(best_seat)
}


impl SuecaSimulatorGame {
    /// In a consistent game, any legal card can be played.
    pub proof fn lemma_legal_can_play(self, card: int)
        requires
            self.wf(),
            self.state.is_legal(card),
        ensures
            self.can_play(card),
            0 <= card < 40,
    {
        self.state.lemma_legal_can_play(self.trick_points, card);
    }

    /// A play leads to one game only.
    pub proof fn lemma_plays_to_unique(self, card: int, p1: Self, p2: Self)
        requires
            self.plays_to(card, p1),
            self.plays_to(card, p2),
        ensures
            p1 == p2,
    {
        let seat = self.state.current_player as int;
        assert(p1.state.hands =~= p2.state.hands);
        assert(p1.state == p2.state);
        assert(p1.current_trick =~= p2.current_trick);
        assert(p1.current_trick_seats =~= p2.current_trick_seats);
        assert forall|p: int| 0 <= p < 4 implies p1.voids[p] == p2.voids[p] by {
            if p == seat {
                assert forall|s: int| 0 <= s < 8 implies void_bit(p1.voids[p], s) == void_bit(p2.voids[p], s) by {}
                lemma_void_bits_equal(p1.voids[p], p2.voids[p]);
            }
        }
        assert(p1.voids =~= p2.voids);
    }

    /// Playing a legal card keeps the game consistent; in particular every recorded
    /// void stays true.
    pub proof fn lemma_play_keeps_wf(self, card: int, post: Self)
        requires
            self.wf(),
            self.state.trick_number < 10,
            self.state.is_legal(card),
            self.plays_to(card, post),
        ensures
            post.wf(),
    {
        let len = self.current_trick_len as int;
        let seat = self.state.current_player as int;
        let closes = self.state.cards_played_in_trick + 1 == 4;
        self.state.lemma_play_keeps_valid(self.trick_points, card, post.state, post.trick_points);
        let h = self.state.hands[seat];
        assert(in_deck(h));
        lemma_remove_card(h, card);
        assert(0 <= card < 40);
        // The record.
        if !closes {
            assert forall|i: int| 0 <= i < len + 1 implies #[trigger] post.current_trick[i] < 40 by {
                if i < len {
                    assert(self.current_trick[i] < 40);
                }
            }
            let cur2 = post.state.current_player as int;
            assert forall|i: int| 0 <= i < len + 1 implies #[trigger] post.current_trick_seats[i]
                == (cur2 + len + 1 + 4 - i) % 4 by {
                if i < len {
                    assert(self.current_trick_seats[i] == (seat + len + 4 - i) % 4);
                }
            }
            let trump = self.state.trump as int;
            if len > 0 {
                assert(post.trick_led() == self.trick_led());
                let led = self.trick_led();
                lemma_best_index_prefix(self.current_trick, post.current_trick, len, trump, led);
                lemma_best_index_range(self.current_trick, len, trump, led);
                let bi = best_index(self.current_trick, len, trump, led);
                assert(post.current_trick[bi] == self.current_trick[bi]);
                assert(post.current_trick_seats[bi] == self.current_trick_seats[bi]);
                assert(best_index(post.current_trick, len + 1, trump, led) == if beats(
                    card,
                    self.current_trick[bi] as int,
                    trump,
                    led,
                ) {
                    len
                } else {
                    bi
                });
            } else {
                assert(post.trick_led() == suit_of(card));
            }
        }
        // The voids.
        assert forall|p: int, s: int|
            0 <= p < 4 && #[trigger] void_bit(post.voids[p], s) implies !holds_suit(
                post.state.hands[p],
                s,
            ) by {
            if p != seat {
                assert(post.voids[p] == self.voids[p]);
                assert(post.state.hands[p] == self.state.hands[p]);
            } else {
                if void_bit(self.voids[seat], s) {
                    assert(!holds_suit(self.state.hands[seat], s));
                } else {
                    assert(len > 0 && suit_of(card) != self.trick_led() && s == self.trick_led());
                    assert(!holds_suit(self.state.hands[seat], s));
                }
                if holds_suit(post.state.hands[p], s) {
                    let c = choose|c: int| mem(post.state.hands[p], c) && c / 10 == s;
                    assert(mem(h, c));
                }
            }
        }
        assert forall|p: int| 0 <= p < 4 implies #[trigger] post.voids[p] < 16 by {
            assert(self.voids[p] < 16);
        }
    }
}


impl SuecaSimulatorGame {
    /// The position of the card winning the current trick.
    fn trick_best_position(&self) -> (r: usize)
        requires
            self.trick_ok(),
            self.current_trick_len > 0,
        ensures
            r == self.trick_best_index(),
            r < self.current_trick_len,
    {
        let trump = self.state.trump;
        let led_suit = card_suit(self.current_trick[0]);
        let mut best: usize = 0;
        let mut i: usize = 1;
        while i < self.current_trick_len
            invariant
                self.trick_ok(),
                1 <= i <= self.current_trick_len,
                trump == self.state.trump,
                led_suit == self.trick_led(),
                best == best_index(self.current_trick, i as int, trump as int, led_suit as int),
                best < i,
            decreases self.current_trick_len - i,
        {
            proof {
                lemma_best_index_range(self.current_trick, i as int, trump as int, led_suit as int);
            }
            if GameState::beats_card(self.current_trick[i], self.current_trick[best], trump, led_suit) {
                best = i;
            }
            i = i + 1;
        }
        best
    }

    /// Is the game consistent?
    pub fn is_well_formed(&self) -> (r: bool)
        ensures
            r == self.wf(),
    {
        if !self.state.is_valid(self.trick_points) {
            return false;
        }
        let len = self.current_trick_len;
        if len > 4 {
            return false;
        }
        let mut i: usize = 0;
        while i < len
            invariant
                len == self.current_trick_len,
                len <= 4,
                i <= len,
                forall|k: int| 0 <= k < i ==> #[trigger] self.current_trick[k] < 40,
            decreases len - i,
        {
            if self.current_trick[i] >= 40 {
                return false;
            }
            i = i + 1;
        }
        if len != self.state.cards_played_in_trick as usize {
            return false;
        }
        let cur = self.state.current_player as usize;
        let mut i: usize = 0;
        while i < len
            invariant
                len == self.current_trick_len,
                len <= 4,
                cur == self.state.current_player,
                cur < 4,
                i <= len,
                forall|k: int| 0 <= k < i ==> #[trigger] self.current_trick_seats[k] == (cur + len + 4 - k) % 4,
            decreases len - i,
        {
            if self.current_trick_seats[i] as usize != (cur + len + 4 - i) % 4 {
                return false;
            }
            i = i + 1;
        }
        if len > 0 {
            if card_suit(self.current_trick[0]) != self.state.led_suit {
                return false;
            }
            let b = self.trick_best_position();
            if self.current_trick[b] != self.state.current_trick_best_card
                || self.current_trick_seats[b] != self.state.current_trick_winner {
                return false;
            }
        }
        let mut p: usize = 0;
        while p < 4
            invariant
                p <= 4,
                forall|q: int| 0 <= q < 4 ==> in_deck(#[trigger] self.state.hands[q]),
                forall|q: int| 0 <= q < p ==> #[trigger] self.voids[q] < 16,
                forall|q: int, t: int| 0 <= q < p && #[trigger] void_bit(self.voids[q], t)
                    ==> !holds_suit(self.state.hands[q], t),
            decreases 4 - p,
        {
            let v = self.voids[p];
            if v >= 16 {
                return false;
            }
            let hand = self.state.hands[p];
            let mut t: u8 = 0;
            while t < 4
                invariant
                    p < 4,
                    t <= 4,
                    v == self.voids[p as int],
                    v < 16,
                    hand == self.state.hands[p as int],
                    in_deck(hand),
                    forall|u: int| 0 <= u < t && #[trigger] void_bit(v, u) ==> !holds_suit(hand, u),
                decreases 4 - t,
            {
                let mask = crate::bits::suit_mask(t);
                let in_suit = hand & mask;
                proof {
                    assert((v & (1u8 << t)) != 0u8 <==> ((v >> t) & 1u8 == 1u8)) by (bit_vector)
                        requires
                            t < 4,
                    ;
                    assert forall|c: int| #[trigger] mem(in_suit, c) == (mem(hand, c) && c / 10 == t) by {
                        crate::bits::lemma_has_and(hand, mask, c);
                    }
                    if in_suit != 0 {
                        crate::bits::lemma_nonzero_has_lowest(in_suit);
                        assert(holds_suit(hand, t as int));
                    } else {
                        assert forall|c: int| mem(hand, c) implies c / 10 != t by {
                            if c / 10 == t {
                                assert(mem(in_suit, c));
                                crate::bits::lemma_has_zero(c);
                            }
                        }
                    }
                }
                if (v & (1u8 << t)) != 0 && in_suit != 0 {
                    proof {
                        assert(void_bit(self.voids[p as int], t as int));
                        assert(holds_suit(self.state.hands[p as int], t as int));
                    }
                    return false;
                }
                t = t + 1;
            }
            proof {
                assert forall|u: int| #[trigger] void_bit(v, u) implies !holds_suit(hand, u) by {
                    if u >= 4 {
                        let j = u as u8;
                        assert(v < 16 && 4 <= j < 8 ==> (v >> j) & 1u8 == 0u8) by (bit_vector);
                        if holds_suit(hand, u) {
                            let c = choose|c: int| mem(hand, c) && c / 10 == u;
                            assert(c < 40);
                        }
                    }
                }
            }
            p = p + 1;
        }
        true
    }
}
} // verus!
