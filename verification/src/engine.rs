//! Bitboard game engine for Sueca.
//!
//! Cards are numbered `0..40` as `suit * 10 + rank`. Ranks (`0..10`) are ordered
//! by trick-taking power: 2, 3, 4, 5, 6, Q, J, K, 7, A. Suits: Hearts = 0,
//! Diamonds = 1, Clubs = 2, Spades = 3. Seats play counter-clockwise
//! (0 -> 3 -> 2 -> 1 -> 0); seats 0 and 2 form one team, seats 1 and 3 the other.
use vstd::prelude::*;
use crate::bits::{
    count, in_deck, lemma_count_below_remove, lemma_count_below_zero, lemma_empty_is_zero,
    lemma_count_below_bound, lemma_count_deck, lemma_has_and, lemma_has_and_not, lemma_has_or,
    lemma_has_single, lemma_has_zero, lemma_nonzero_has_lowest, lemma_suit_mask, lowest, mem,
    single, suit_mask, suit_mask_spec, count_below,
};

verus! {

#[derive(Debug, Clone, Copy, PartialEq, Eq, Structural)]
pub enum Suit {
    Hearts,
    Diamonds,
    Clubs,
    Spades,
}

/// The index of a suit (Hearts = 0 .. Spades = 3).
pub open spec fn suit_index(s: Suit) -> int {
    match s {
        Suit::Hearts => 0,
        Suit::Diamonds => 1,
        Suit::Clubs => 2,
        Suit::Spades => 3,
    }
}

impl Suit {
    /// The suit with the given index; indices above 3 are not suits.
    pub fn from_u8(val: u8) -> (s: Self)
        requires
            val < 4,
        ensures
            suit_index(s) == val,
    {
        match val {
            0 => Suit::Hearts,
            1 => Suit::Diamonds,
            2 => Suit::Clubs,
            _ => Suit::Spades,
        }
    }
}

/// Points of each card.
pub const CARD_POINTS: [u8; 40] = [
    0, 0, 0, 0, 0, 2, 3, 4, 10, 11,
    0, 0, 0, 0, 0, 2, 3, 4, 10, 11,
    0, 0, 0, 0, 0, 2, 3, 4, 10, 11,
    0, 0, 0, 0, 0, 2, 3, 4, 10, 11,
];

/// Suit of each card.
pub const CARD_SUIT: [u8; 40] = [
    0, 0, 0, 0, 0, 0, 0, 0, 0, 0,
    1, 1, 1, 1, 1, 1, 1, 1, 1, 1,
    2, 2, 2, 2, 2, 2, 2, 2, 2, 2,
    3, 3, 3, 3, 3, 3, 3, 3, 3, 3,
];

/// Rank of each card.
pub const CARD_RANK: [u8; 40] = [
    0, 1, 2, 3, 4, 5, 6, 7, 8, 9,
    0, 1, 2, 3, 4, 5, 6, 7, 8, 9,
    0, 1, 2, 3, 4, 5, 6, 7, 8, 9,
    0, 1, 2, 3, 4, 5, 6, 7, 8, 9,
];

/// Counter-clockwise seat order.
pub const TURN_ORDER: [u8; 4] = [0, 3, 2, 1];

/// Points of a card of the given rank: Q = 2, J = 3, K = 4, 7 = 10, A = 11.
pub open spec fn rank_points(rank: int) -> int {
    if rank == 5 {
        2
    } else if rank == 6 {
        3
    } else if rank == 7 {
        4
    } else if rank == 8 {
        10
    } else if rank == 9 {
        11
    } else {
        0
    }
}

pub open spec fn suit_of(c: int) -> int {
    c / 10
}

pub open spec fn rank_of(c: int) -> int {
    c % 10
}

pub open spec fn points_of(c: int) -> int {
    rank_points(c % 10)
}

pub fn card_points(card: u8) -> (p: u8)
    requires
        card < 40,
    ensures
        p == points_of(card as int),
        p <= 11,
{
    CARD_POINTS[card as usize]
}

pub fn card_suit(card: u8) -> (s: u8)
    requires
        card < 40,
    ensures
        s == suit_of(card as int),
        s < 4,
{
    CARD_SUIT[card as usize]
}

pub fn card_rank(card: u8) -> (r: u8)
    requires
        card < 40,
    ensures
        r == rank_of(card as int),
        r < 10,
{
    CARD_RANK[card as usize]
}

/// Points of the members of `m` among the cards below `n`.
pub open spec fn points_below(m: u64, n: nat) -> nat
    decreases n,
{
    if n == 0 {
        0
    } else {
        points_below(m, (n - 1) as nat) + if mem(m, n - 1) {
            points_of(n - 1) as nat
        } else {
            0nat
        }
    }
}

/// Points of the cards of the deck in `m`.
pub open spec fn mask_points(m: u64) -> nat {
    points_below(m, 40)
}

/// `holds_suit(m, s)`: the set `m` has a card of suit `s`.
pub open spec fn holds_suit(m: u64, s: int) -> bool {
    exists|c: int| mem(m, c) && c / 10 == s
}

/// Does `challenger` outrank `current`, given the trump suit and the led suit?
/// A trump beats any non-trump; between two trumps or two cards of the led suit the
/// higher rank wins; a card of the led suit beats an off-suit card; an off-suit card
/// never wins.
pub open spec fn beats(challenger: int, current: int, trump: int, led_suit: int) -> bool {
    let cs = suit_of(challenger);
    let us = suit_of(current);
    if cs == trump && us != trump {
        true
    } else if cs != trump && us == trump {
        false
    } else if cs == trump {
        rank_of(challenger) > rank_of(current)
    } else if cs == led_suit && us == led_suit {
        rank_of(challenger) > rank_of(current)
    } else {
        cs == led_suit
    }
}

/// The seat that plays after `seat` (counter-clockwise order).
pub open spec fn next_seat(seat: int) -> int {
    (seat + 3) % 4
}

#[derive(Debug, Clone, Copy, PartialEq, Eq)]
pub struct GameState {
    /// The four hands as card masks.
    pub hands: [u64; 4],
    /// Trump suit, 0..3.
    pub trump: u8,
    /// Suit led in the current trick, 4 when no card has been played.
    pub led_suit: u8,
    /// Seat to play, 0..3.
    pub current_player: u8,
    /// Seat currently winning the trick.
    pub current_trick_winner: u8,
    /// Card currently winning the trick, 40 when none.
    pub current_trick_best_card: u8,
    /// Cards played in the current trick, 0..3.
    pub cards_played_in_trick: u8,
    /// Points won by seats 0 and 2.
    pub team_02_score: u8,
    /// Points won by seats 1 and 3.
    pub team_13_score: u8,
    /// Tricks completed, 0..10.
    pub trick_number: u8,
}

impl GameState {
    /// The hand of the seat to play.
    pub open spec fn to_play_hand(self) -> u64 {
        self.hands[self.current_player as int]
    }

    /// Card `c` may be played now: it is in the hand of the seat to play, and when a
    /// suit has been led and that hand holds the led suit, it is of the led suit.
    pub open spec fn is_legal(self, c: int) -> bool {
        let hand = self.to_play_hand();
        &&& mem(hand, c)
        &&& (self.cards_played_in_trick == 0 || !holds_suit(hand, self.led_suit as int) || c / 10
            == self.led_suit)
    }

    /// The legal cards as a mask: the whole hand, or only its cards of the led suit
    /// when a suit has been led and the hand holds it.
    pub open spec fn legal_mask(self) -> u64 {
        let hand = self.to_play_hand();
        let suited = hand & suit_mask_spec(self.led_suit as int);
        if self.cards_played_in_trick == 0 {
            hand
        } else if suited != 0 {
            suited
        } else {
            hand
        }
    }

    /// The legal mask holds exactly the legal cards; it is empty only with an empty hand.
    pub proof fn lemma_legal_mask(self)
        requires
            self.current_player < 4,
            self.cards_played_in_trick != 0 ==> self.led_suit <= 6,
        ensures
            forall|c: int| #![trigger mem(self.legal_mask(), c)] mem(self.legal_mask(), c)
                == self.is_legal(c),
            self.legal_mask() == 0 <==> self.to_play_hand() == 0,
    {
        let hand = self.to_play_hand();
        if self.cards_played_in_trick != 0 {
            let mask = suit_mask_spec(self.led_suit as int);
            let suited = hand & mask;
            assert forall|c: int| #![trigger mem(suited, c)] mem(suited, c) == (mem(hand, c) && c
                / 10 == self.led_suit) by {
                lemma_has_and(hand, mask, c);
                lemma_suit_mask(self.led_suit as int, c);
            }
            if suited != 0 {
                lemma_nonzero_has_lowest(suited);
                assert(holds_suit(hand, self.led_suit as int));
                if hand == 0 {
                    lemma_has_zero(lowest(suited));
                }
            } else {
                assert forall|c: int| mem(hand, c) implies c / 10 != self.led_suit by {
                    lemma_has_zero(c);
                }
            }
        }
    }

    /// `seat` has already played a card in the current trick.
    pub open spec fn has_played(self, seat: int) -> bool {
        let d = (seat - self.current_player + 4) % 4;
        1 <= d <= self.cards_played_in_trick
    }

    /// The number of cards `seat` must hold at this point of the deal.
    pub open spec fn expected_hand_size(self, seat: int) -> int {
        10 - self.trick_number - if self.has_played(seat) {
            1int
        } else {
            0int
        }
    }

    /// Points still in the four hands.
    pub open spec fn hand_points(self) -> nat {
        mask_points(self.hands[0]) + mask_points(self.hands[1]) + mask_points(self.hands[2])
            + mask_points(self.hands[3])
    }

    /// A state reached by legal play from a deal of the 40 cards, ten to a hand, with
    /// `trick_points` the points already played to the current trick.
    pub open spec fn valid(self, trick_points: u8) -> bool {
        &&& self.trump < 4
        &&& self.current_player < 4
        &&& self.trick_number <= 10
        &&& self.cards_played_in_trick < 4
        &&& self.led_suit <= 4
        &&& (self.cards_played_in_trick == 0 <==> self.led_suit == 4)
        &&& (self.cards_played_in_trick > 0 ==> self.current_trick_best_card < 40
            && self.current_trick_winner < 4)
        &&& (self.cards_played_in_trick == 0 ==> trick_points == 0)
        &&& (forall|i: int| 0 <= i < 4 ==> in_deck(#[trigger] self.hands[i]))
        &&& (forall|i: int| 0 <= i < 4 ==> count(#[trigger] self.hands[i])
            == self.expected_hand_size(i))
        &&& (forall|i: int, j: int, c: int|
            0 <= i < 4 && 0 <= j < 4 && i != j && #[trigger] mem(self.hands[i], c) ==> !#[trigger] mem(
                self.hands[j],
                c,
            ))
        &&& self.team_02_score + self.team_13_score + trick_points + self.hand_points() == 120
    }

    /// The seat that wins the trick once `card` is played by the seat to play.
    pub open spec fn winner_after(self, card: int) -> int {
        if self.cards_played_in_trick == 0 || beats(
            card,
            self.current_trick_best_card as int,
            self.trump as int,
            self.led_suit as int,
        ) {
            self.current_player as int
        } else {
            self.current_trick_winner as int
        }
    }

    /// The card that wins the trick once `card` is played by the seat to play.
    pub open spec fn best_after(self, card: int) -> int {
        if self.cards_played_in_trick == 0 || beats(
            card,
            self.current_trick_best_card as int,
            self.trump as int,
            self.led_suit as int,
        ) {
            card
        } else {
            self.current_trick_best_card as int
        }
    }

    /// Playing `card` cannot overflow a counter or index out of range.
    pub open spec fn can_play(self, card: int, trick_points: int) -> bool {
        let tp = trick_points + points_of(card);
        let winner = self.winner_after(card);
        &&& self.current_player < 4
        &&& 0 <= card < 40
        &&& tp <= 255
        &&& (self.cards_played_in_trick != 0 ==> self.current_trick_best_card < 40)
        &&& self.cards_played_in_trick < 255
        &&& (self.cards_played_in_trick + 1 == 4 ==> {
            &&& self.trick_number < 255
            &&& (winner % 2 == 0 ==> self.team_02_score + tp <= 255)
            &&& (winner % 2 == 1 ==> self.team_13_score + tp <= 255)
        })
    }

    /// `post` (with `post_tp` trick points) is the state after the seat to play in
    /// `self` (with `tp` trick points) plays `card`: the card leaves the hand and its
    /// points join the trick; the first card of a trick sets the led suit; a card that
    /// beats the best card takes the trick over; the fourth card closes the trick, its
    /// points go to the winning team and the winner leads the next trick.
    pub open spec fn plays_to(self, tp: int, card: int, post: GameState, post_tp: int) -> bool {
        let seat = self.current_player as int;
        let new_tp = tp + points_of(card);
        let winner = self.winner_after(card);
        let closes = self.cards_played_in_trick + 1 == 4;
        &&& post.hands[seat] == self.hands[seat] & !(1u64 << (card as u64))
        &&& (forall|i: int| 0 <= i < 4 && i != seat ==> #[trigger] post.hands[i] == self.hands[i])
        &&& post.trump == self.trump
        &&& if closes {
            &&& post.team_02_score == self.team_02_score + if winner % 2 == 0 {
                new_tp
            } else {
                0
            }
            &&& post.team_13_score == self.team_13_score + if winner % 2 == 1 {
                new_tp
            } else {
                0
            }
            &&& post_tp == 0
            &&& post.cards_played_in_trick == 0
            &&& post.led_suit == 4
            &&& post.current_trick_best_card == 40
            &&& post.current_player == winner
            &&& post.current_trick_winner == winner
            &&& post.trick_number == self.trick_number + 1
        } else {
            &&& post.team_02_score == self.team_02_score
            &&& post.team_13_score == self.team_13_score
            &&& post_tp == new_tp
            &&& post.cards_played_in_trick == self.cards_played_in_trick + 1
            &&& post.led_suit == if self.cards_played_in_trick == 0 {
                suit_of(card)
            } else {
                self.led_suit as int
            }
            &&& post.current_trick_best_card == self.best_after(card)
            &&& post.current_player == next_seat(seat)
            &&& post.current_trick_winner == winner
            &&& post.trick_number == self.trick_number
        }
    }

    /// A new deal: `first_player` leads the first trick.
    pub fn new(hands: [u64; 4], trump: u8, first_player: u8) -> (s: Self)
        ensures
            s.hands == hands,
            s.trump == trump,
            s.led_suit == 4,
            s.current_player == first_player,
            s.current_trick_winner == first_player,
            s.current_trick_best_card == 40,
            s.cards_played_in_trick == 0,
            s.team_02_score == 0,
            s.team_13_score == 0,
            s.trick_number == 0,
            is_deal(hands) && trump < 4 && first_player < 4 ==> s.valid(0),
    {
        let s = GameState {
            hands,
            trump,
            led_suit: 4,
            current_player: first_player,
            current_trick_winner: first_player,
            current_trick_best_card: 40,
            cards_played_in_trick: 0,
            team_02_score: 0,
            team_13_score: 0,
            trick_number: 0,
        };
        proof {
            if is_deal(hands) && trump < 4 && first_player < 4 {
                lemma_deal_valid(s);
            }
        }
        s
    }

    /// The game is over once all ten tricks have been played.
    pub fn is_terminal(&self) -> (r: bool)
        ensures
            r == (self.trick_number == 10),
    {
        self.trick_number == 10
    }

    /// The cards the seat to play may play, as a mask.
    pub fn legal_moves(&self) -> (r: u64)
        requires
            self.current_player < 4,
            self.cards_played_in_trick != 0 ==> self.led_suit <= 6,
        ensures
            r == self.legal_mask(),
            forall|c: int| #![trigger mem(r, c)] mem(r, c) == self.is_legal(c),
    {
        proof {
            self.lemma_legal_mask();
        }
        let hand = self.hands[self.current_player as usize];
        if self.cards_played_in_trick == 0 {
            return hand;
        }
        let mask = suit_mask(self.led_suit);
        let suited = hand & mask;
        proof {
            assert forall|c: int| #![trigger mem(suited, c)] mem(suited, c) == (mem(hand, c) && c / 10
                == self.led_suit) by {
                lemma_has_and(hand, mask, c);
            }
        }
        if suited != 0 {
            proof {
                lemma_nonzero_has_lowest(suited);
                assert(holds_suit(hand, self.led_suit as int));
            }
            suited
        } else {
            proof {
                lemma_has_zero(0);
                assert forall|c: int| mem(hand, c) implies c / 10 != self.led_suit by {
                    lemma_has_zero(c);
                }
            }
            hand
        }
    }

    /// Does `challenger` outrank `current`, given the trump suit and the led suit?
    pub fn beats_card(challenger: u8, current: u8, trump: u8, led_suit: u8) -> (r: bool)
        requires
            challenger < 40,
            current < 40,
        ensures
            r == beats(challenger as int, current as int, trump as int, led_suit as int),
    {
        let ch_suit = card_suit(challenger);
        let ch_rank = card_rank(challenger);
        let cur_suit = card_suit(current);
        let cur_rank = card_rank(current);

        let ch_is_trump = ch_suit == trump;
        let cur_is_trump = cur_suit == trump;

        if ch_is_trump && !cur_is_trump {
            return true;
        }
        if !ch_is_trump && cur_is_trump {
            return false;
        }
        if ch_is_trump && cur_is_trump {
            return ch_rank > cur_rank;
        }
        if ch_suit == led_suit && cur_suit == led_suit {
            return ch_rank > cur_rank;
        }
        if ch_suit == led_suit {
            return true;
        }
        false
    }

    /// Does `challenger` outrank `current` in this state's trick?
    pub fn beats(&self, challenger: u8, current: u8) -> (r: bool)
        requires
            challenger < 40,
            current < 40,
        ensures
            r == beats(challenger as int, current as int, self.trump as int, self.led_suit as int),
    {
        Self::beats_card(challenger, current, self.trump, self.led_suit)
    }
}

/// The seat that plays after `seat`: 0 -> 3 -> 2 -> 1 -> 0.
pub fn next_player_after(seat: u8) -> (r: u8)
    requires
        seat < 4,
    ensures
        r == next_seat(seat as int),
{
    match seat {
        0 => 3,
        3 => 2,
        2 => 1,
        _ => 0,
    }
}

impl GameState {
    /// A play leads to one state only.
    pub proof fn lemma_plays_to_unique(self, tp: int, card: int, p1: GameState, tp1: int, p2: GameState, tp2: int)
        requires
            self.plays_to(tp, card, p1, tp1),
            self.plays_to(tp, card, p2, tp2),
        ensures
            p1 == p2,
            tp1 == tp2,
    {
        assert(p1.hands =~= p2.hands);
    }

    /// The seat to play plays `card`; `trick_points` carries the points already played
    /// to the current trick.
    pub fn play_card_and_resolve(&mut self, card: u8, trick_points: &mut u8)
        requires
            old(self).can_play(card as int, *old(trick_points) as int),
        ensures
            old(self).plays_to(
                *old(trick_points) as int,
                card as int,
                *final(self),
                *final(trick_points) as int,
            ),
    {
        let seat = self.current_player;
        let card_mask = single(card);

        self.hands[seat as usize] = self.hands[seat as usize] & !card_mask;
        *trick_points = *trick_points + card_points(card);

        let card_suit = card_suit(card);

        if self.cards_played_in_trick == 0 {
            self.led_suit = card_suit;
            self.current_trick_winner = seat;
            self.current_trick_best_card = card;
        } else {
            if self.beats(card, self.current_trick_best_card) {
                self.current_trick_winner = seat;
                self.current_trick_best_card = card;
            }
        }

        self.cards_played_in_trick = self.cards_played_in_trick + 1;

        if self.cards_played_in_trick == 4 {
            let winner = self.current_trick_winner;
            if (winner & 1) == 0 {
                proof {
                    assert(winner & 1 == 0 ==> winner % 2 == 0) by (bit_vector);
                }
                self.team_02_score = self.team_02_score + *trick_points;
            } else {
                proof {
                    assert(winner & 1 != 0 ==> winner % 2 == 1) by (bit_vector);
                }
                self.team_13_score = self.team_13_score + *trick_points;
            }
            *trick_points = 0;
            self.cards_played_in_trick = 0;
            self.led_suit = 4;
            self.current_trick_best_card = 40;
            self.current_player = winner;
            self.trick_number = self.trick_number + 1;
        } else {
            self.current_player = next_player_after(seat);
        }
    }
}


/// Points agree for masks that agree below `n`.
pub proof fn lemma_points_below_same(a: u64, b: u64, n: nat)
    requires
        forall|c: int| 0 <= c < n ==> mem(a, c) == mem(b, c),
    ensures
        points_below(a, n) == points_below(b, n),
    decreases n,
{
    if n > 0 {
        lemma_points_below_same(a, b, (n - 1) as nat);
    }
}

/// Removing one member lowers the points by that card's points.
pub proof fn lemma_points_below_remove(a: u64, b: u64, k: int, n: nat)
    requires
        0 <= k < n,
        mem(b, k),
        forall|c: int| 0 <= c < n ==> mem(a, c) == (mem(b, c) && c != k),
    ensures
        points_below(a, n) + points_of(k) == points_below(b, n),
    decreases n,
{
    if n - 1 == k {
        lemma_points_below_same(a, b, (n - 1) as nat);
    } else {
        lemma_points_below_remove(a, b, k, (n - 1) as nat);
    }
}

/// Removing card `c` from a set that holds it.
pub proof fn lemma_remove_card(h: u64, c: int)
    requires
        mem(h, c),
        in_deck(h),
    ensures
        count(h & !(1u64 << (c as u64))) + 1 == count(h),
        mask_points(h & !(1u64 << (c as u64))) + points_of(c) == mask_points(h),
        in_deck(h & !(1u64 << (c as u64))),
        forall|j: int| #[trigger] mem(h & !(1u64 << (c as u64)), j) == (mem(h, j) && j != c),
{
    let r = h & !(1u64 << (c as u64));
    assert forall|j: int| #[trigger] mem(r, j) == (mem(h, j) && j != c) by {
        lemma_has_and_not(h, 1u64 << (c as u64), j);
        lemma_has_single(c as u64, j);
    }
    lemma_count_below_remove(r, h, c, 64);
    lemma_points_below_remove(r, h, c, 40);
}

impl GameState {
    /// In a valid state, a legal card can be played without overflow.
    pub proof fn lemma_legal_can_play(self, tp: u8, card: int)
        requires
            self.valid(tp),
            self.is_legal(card),
        ensures
            self.can_play(card, tp as int),
            0 <= card < 40,
    {
        let seat = self.current_player as int;
        let h = self.hands[seat];
        assert(in_deck(h));
        lemma_remove_card(h, card);
    }

    /// Playing a legal card keeps a valid state valid.
    pub proof fn lemma_play_keeps_valid(self, tp: u8, card: int, post: GameState, post_tp: u8)
        requires
            self.valid(tp),
            self.trick_number < 10,
            self.is_legal(card),
            self.plays_to(tp as int, card, post, post_tp as int),
        ensures
            post.valid(post_tp),
    {
        let seat = self.current_player as int;
        let h = self.hands[seat];
        assert(in_deck(h));
        lemma_remove_card(h, card);
        assert(0 <= card < 40);
        assert forall|i: int| 0 <= i < 4 implies in_deck(#[trigger] post.hands[i]) by {
            assert(in_deck(self.hands[i]));
        }
        assert forall|i: int, j: int, c: int|
            0 <= i < 4 && 0 <= j < 4 && i != j && #[trigger] mem(post.hands[i], c) implies !#[trigger] mem(
                post.hands[j],
                c,
            ) by {
            assert(mem(self.hands[i], c));
            if mem(post.hands[j], c) {
                assert(mem(self.hands[j], c));
            }
        }
        assert(post.hand_points() + points_of(card) == self.hand_points());
        if self.cards_played_in_trick + 1 == 4 {
            assert forall|i: int| 0 <= i < 4 implies count(#[trigger] post.hands[i])
                == post.expected_hand_size(i) by {
                assert(count(self.hands[i]) == self.expected_hand_size(i));
                assert(!post.has_played(i));
                if i != seat {
                    assert(self.has_played(i));
                } else {
                    assert(!self.has_played(i));
                }
            }
        } else {
            assert forall|i: int| 0 <= i < 4 implies count(#[trigger] post.hands[i])
                == post.expected_hand_size(i) by {
                assert(count(self.hands[i]) == self.expected_hand_size(i));
                if i != seat {
                    assert(post.has_played(i) == self.has_played(i));
                } else {
                    assert(post.has_played(i));
                    assert(!self.has_played(i));
                }
            }
            if self.cards_played_in_trick == 0 {
                assert(post.led_suit < 4);
            }
        }
    }

    /// Every play moves the card's points from a hand to the trick or to a team's
    /// score: the points in play stay the same.
    pub proof fn lemma_play_keeps_points(self, tp: u8, card: int, post: GameState, post_tp: u8)
        requires
            self.valid(tp),
            self.is_legal(card),
            self.plays_to(tp as int, card, post, post_tp as int),
        ensures
            post.team_02_score + post.team_13_score + post_tp + post.hand_points()
                == self.team_02_score + self.team_13_score + tp + self.hand_points(),
            post.team_02_score >= self.team_02_score,
            post.team_13_score >= self.team_13_score,
    {
        let seat = self.current_player as int;
        let h = self.hands[seat];
        assert(in_deck(h));
        lemma_remove_card(h, card);
        assert(post.hand_points() + points_of(card) == self.hand_points());
    }

    /// Before the last trick is over the seat to play holds a card, so it has a legal
    /// card.
    pub proof fn lemma_valid_has_legal(self, tp: u8)
        requires
            self.valid(tp),
            self.trick_number < 10,
        ensures
            self.to_play_hand() != 0,
            self.is_legal(lowest(self.legal_mask())),
    {
        let seat = self.current_player as int;
        let h = self.hands[seat];
        assert(count(h) == self.expected_hand_size(seat));
        assert(!self.has_played(seat));
        assert(count(h) >= 1);
        if h == 0 {
            assert forall|c: int| 0 <= c < 64 implies !mem(h, c) by {
                lemma_has_zero(c);
            }
            lemma_count_below_zero(h, 64);
        }
        self.lemma_legal_mask();
        lemma_nonzero_has_lowest(self.legal_mask());
    }

    /// Once all ten tricks are played the hands are empty and the 120 points are all
    /// won.
    pub proof fn lemma_valid_terminal(self, tp: u8)
        requires
            self.valid(tp),
            self.trick_number == 10,
        ensures
            self.cards_played_in_trick == 0,
            tp == 0,
            forall|i: int| 0 <= i < 4 ==> #[trigger] self.hands[i] == 0,
            self.team_02_score + self.team_13_score == 120,
    {
        if self.cards_played_in_trick > 0 {
            let s = (self.current_player + 1) % 4;
            assert(self.has_played(s));
            assert(count(self.hands[s]) == self.expected_hand_size(s));
        }
        assert forall|i: int| 0 <= i < 4 implies #[trigger] self.hands[i] == 0 by {
            assert(count(self.hands[i]) == self.expected_hand_size(i));
            assert(!self.has_played(i));
            lemma_count_below_zero(self.hands[i], 64);
            lemma_empty_is_zero(self.hands[i]);
        }
        lemma_points_zero(self.hands[0], 40);
        lemma_points_zero(self.hands[1], 40);
        lemma_points_zero(self.hands[2], 40);
        lemma_points_zero(self.hands[3], 40);
    }
}

/// An empty set holds no points.
pub proof fn lemma_points_zero(a: u64, n: nat)
    requires
        a == 0,
    ensures
        points_below(a, n) == 0,
    decreases n,
{
    lemma_has_zero(n - 1);
    if n > 0 {
        lemma_points_zero(a, (n - 1) as nat);
    }
}


/// Four disjoint hands of ten cards of the 40-card deck.
pub open spec fn is_deal(hands: [u64; 4]) -> bool {
    &&& forall|i: int| 0 <= i < 4 ==> in_deck(#[trigger] hands[i]) && count(hands[i]) == 10
    &&& forall|i: int, j: int, c: int|
        0 <= i < 4 && 0 <= j < 4 && i != j && #[trigger] mem(hands[i], c) ==> !#[trigger] mem(
            hands[j],
            c,
        )
}

/// Points of the whole deck below card `n`.
pub open spec fn deck_points(n: nat) -> nat
    decreases n,
{
    if n == 0 {
        0
    } else {
        deck_points((n - 1) as nat) + points_of(n - 1) as nat
    }
}

proof fn lemma_deck_points_suit(k: nat)
    ensures
        deck_points(10 * k + 10) == deck_points(10 * k) + 30,
{
    let b: int = (10 * k) as int;
    assert(points_of(b) == 0);
    assert(points_of(b + 1) == 0);
    assert(points_of(b + 2) == 0);
    assert(points_of(b + 3) == 0);
    assert(points_of(b + 4) == 0);
    assert(points_of(b + 5) == 2);
    assert(points_of(b + 6) == 3);
    assert(points_of(b + 7) == 4);
    assert(points_of(b + 8) == 10);
    assert(points_of(b + 9) == 11);
    assert(deck_points((b + 1) as nat) == deck_points(b as nat));
    assert(deck_points((b + 2) as nat) == deck_points((b + 1) as nat));
    assert(deck_points((b + 3) as nat) == deck_points((b + 2) as nat));
    assert(deck_points((b + 4) as nat) == deck_points((b + 3) as nat));
    assert(deck_points((b + 5) as nat) == deck_points((b + 4) as nat));
    assert(deck_points((b + 6) as nat) == deck_points((b + 5) as nat) + 2);
    assert(deck_points((b + 7) as nat) == deck_points((b + 6) as nat) + 3);
    assert(deck_points((b + 8) as nat) == deck_points((b + 7) as nat) + 4);
    assert(deck_points((b + 9) as nat) == deck_points((b + 8) as nat) + 10);
    assert(deck_points((b + 10) as nat) == deck_points((b + 9) as nat) + 11);
}

/// The deck holds 120 points.
pub proof fn lemma_deck_points()
    ensures
        deck_points(40) == 120,
{
    lemma_deck_points_suit(0);
    lemma_deck_points_suit(1);
    lemma_deck_points_suit(2);
    lemma_deck_points_suit(3);
}

proof fn lemma_full_points(m: u64, n: nat)
    requires
        forall|c: int| 0 <= c < n ==> mem(m, c),
    ensures
        points_below(m, n) == deck_points(n),
    decreases n,
{
    if n > 0 {
        lemma_full_points(m, (n - 1) as nat);
    }
}

/// A set of cards holds no more points than the whole deck below the same bound.
pub proof fn lemma_points_le_deck(m: u64, n: nat)
    ensures
        points_below(m, n) <= deck_points(n),
    decreases n,
{
    if n > 0 {
        lemma_points_le_deck(m, (n - 1) as nat);
    }
}

proof fn lemma_count_full(m: u64, n: nat)
    requires
        count_below(m, n) == n,
    ensures
        forall|c: int| 0 <= c < n ==> mem(m, c),
    decreases n,
{
    if n > 0 {
        lemma_count_below_bound(m, (n - 1) as nat);
        lemma_count_full(m, (n - 1) as nat);
    }
}

/// Counting and scoring the union of two disjoint sets.
pub proof fn lemma_disjoint_union(a: u64, b: u64, n: nat)
    requires
        forall|c: int| 0 <= c < n ==> !(mem(a, c) && mem(b, c)),
    ensures
        count_below(a | b, n) == count_below(a, n) + count_below(b, n),
        points_below(a | b, n) == points_below(a, n) + points_below(b, n),
    decreases n,
{
    lemma_has_or(a, b, n - 1);
    if n > 0 {
        lemma_disjoint_union(a, b, (n - 1) as nat);
    }
}

/// A fresh deal from four disjoint ten-card hands is a valid state with all 120
/// points still in the hands.
pub proof fn lemma_deal_valid(s: GameState)
    requires
        is_deal(s.hands),
        s.trump < 4,
        s.current_player < 4,
        s.led_suit == 4,
        s.cards_played_in_trick == 0,
        s.team_02_score == 0,
        s.team_13_score == 0,
        s.trick_number == 0,
    ensures
        s.valid(0),
        s.hand_points() == 120,
{
    let h = s.hands;
    let u01 = h[0] | h[1];
    let u23 = h[2] | h[3];
    let u = u01 | u23;
    assert forall|i: int| 0 <= i < 4 implies count(#[trigger] h[i]) == s.expected_hand_size(i) by {
        assert(!s.has_played(i));
    }
    assert(in_deck(h[0]) && in_deck(h[1]) && in_deck(h[2]) && in_deck(h[3]));
    lemma_count_deck(h[0], 64);
    lemma_count_deck(h[1], 64);
    lemma_count_deck(h[2], 64);
    lemma_count_deck(h[3], 64);
    assert forall|c: int| 0 <= c < 40 implies !(mem(h[0], c) && mem(h[1], c)) by {}
    assert forall|c: int| 0 <= c < 40 implies !(mem(h[2], c) && mem(h[3], c)) by {}
    assert forall|c: int| 0 <= c < 40 implies !(mem(u01, c) && mem(u23, c)) by {
        lemma_has_or(h[0], h[1], c);
        lemma_has_or(h[2], h[3], c);
    }
    lemma_disjoint_union(h[0], h[1], 40);
    lemma_disjoint_union(h[2], h[3], 40);
    lemma_disjoint_union(u01, u23, 40);
    lemma_count_full(u, 40);
    lemma_full_points(u, 40);
    lemma_deck_points();
}


impl GameState {
    /// A state in which play cannot overflow a counter or index out of range: the seat
    /// to play and the trick record in range, hands within the deck, and no more than
    /// 120 points among the scores, the current trick and the hands.
    pub open spec fn safe(self, trick_points: u8) -> bool {
        &&& self.current_player < 4
        &&& self.trick_number <= 10
        &&& self.cards_played_in_trick < 4
        &&& self.led_suit <= 4
        &&& (self.cards_played_in_trick > 0 ==> self.current_trick_best_card < 40
            && self.current_trick_winner < 4)
        &&& (forall|i: int| 0 <= i < 4 ==> in_deck(#[trigger] self.hands[i]))
        &&& self.team_02_score + self.team_13_score + trick_points + self.hand_points() <= 120
    }

    /// Is this state safe, with `trick_points` played to the current trick?
    pub fn is_safe(&self, trick_points: u8) -> (r: bool)
        ensures
            r == self.safe(trick_points),
    {
        if self.current_player >= 4 || self.trick_number > 10 || self.cards_played_in_trick >= 4
            || self.led_suit > 4 {
            return false;
        }
        if self.cards_played_in_trick > 0 && (self.current_trick_best_card >= 40
            || self.current_trick_winner >= 4) {
            return false;
        }
        let mut i: usize = 0;
        while i < 4
            invariant
                i <= 4,
                forall|j: int| 0 <= j < i ==> in_deck(#[trigger] self.hands[j]),
            decreases 4 - i,
        {
            if !crate::bits::is_in_deck(self.hands[i]) {
                return false;
            }
            i = i + 1;
        }
        let held = crate::belief::sum_points(self.hands[0]) + crate::belief::sum_points(self.hands[1])
            + crate::belief::sum_points(self.hands[2]) + crate::belief::sum_points(self.hands[3]);
        let total = self.team_02_score as usize + self.team_13_score as usize + trick_points as usize + held;
        total <= 120
    }

    /// Is this state valid, with `trick_points` played to the current trick?
    pub fn is_valid(&self, trick_points: u8) -> (r: bool)
        ensures
            r == self.valid(trick_points),
    {
        if self.trump >= 4 || self.current_player >= 4 || self.trick_number > 10
            || self.cards_played_in_trick >= 4 || self.led_suit > 4 {
            return false;
        }
        if (self.cards_played_in_trick == 0) != (self.led_suit == 4) {
            return false;
        }
        if self.cards_played_in_trick > 0 && (self.current_trick_best_card >= 40
            || self.current_trick_winner >= 4) {
            return false;
        }
        if self.cards_played_in_trick == 0 && trick_points != 0 {
            return false;
        }
        let mut i: usize = 0;
        while i < 4
            invariant
                i <= 4,
                self.current_player < 4,
                self.trick_number <= 10,
                self.cards_played_in_trick < 4,
                forall|j: int| 0 <= j < i ==> in_deck(#[trigger] self.hands[j]),
                forall|j: int| 0 <= j < i ==> count(#[trigger] self.hands[j]) == self.expected_hand_size(j),
            decreases 4 - i,
        {
            if !crate::bits::is_in_deck(self.hands[i]) {
                return false;
            }
            let d = ((i as u8) + 4 - self.current_player) % 4;
            let played = 1 <= d && d <= self.cards_played_in_trick;
            proof {
                assert(played == self.has_played(i as int));
                lemma_count_below_bound(self.hands[i as int], 64);
            }
            let expected: i32 = 10 - self.trick_number as i32 - if played {
                1i32
            } else {
                0i32
            };
            if crate::bits::popcount(self.hands[i]) as i32 != expected {
                return false;
            }
            i = i + 1;
        }
        let mut a: usize = 0;
        while a < 4
            invariant
                a <= 4,
                forall|x: int, y: int, c: int| 0 <= x < a && 0 <= y < 4 && x != y && #[trigger] mem(self.hands[x], c)
                    ==> !#[trigger] mem(self.hands[y], c),
            decreases 4 - a,
        {
            let mut b: usize = 0;
            while b < 4
                invariant
                    a < 4,
                    b <= 4,
                    forall|x: int, y: int, c: int| 0 <= x < a && 0 <= y < 4 && x != y && #[trigger] mem(self.hands[x], c)
                        ==> !#[trigger] mem(self.hands[y], c),
                    forall|y: int, c: int| 0 <= y < b && y != a && #[trigger] mem(self.hands[a as int], c)
                        ==> !#[trigger] mem(self.hands[y], c),
                decreases 4 - b,
            {
                if a != b {
                    let common = self.hands[a] & self.hands[b];
                    proof {
                        assert forall|c: int| #[trigger] mem(common, c) == (mem(self.hands[a as int], c) && mem(self.hands[b as int], c)) by {
                            lemma_has_and(self.hands[a as int], self.hands[b as int], c);
                        }
                        if common != 0 {
                            lemma_nonzero_has_lowest(common);
                        } else {
                            assert forall|c: int| mem(self.hands[a as int], c) implies !mem(self.hands[b as int], c) by {
                                lemma_has_zero(c);
                            }
                        }
                    }
                    if common != 0 {
                        return false;
                    }
                }
                b = b + 1;
            }
            a = a + 1;
        }
        let held = crate::belief::sum_points(self.hands[0]) + crate::belief::sum_points(self.hands[1])
            + crate::belief::sum_points(self.hands[2]) + crate::belief::sum_points(self.hands[3]);
        let total = self.team_02_score as usize + self.team_13_score as usize + trick_points as usize + held;
        total == 120
    }

    /// Every valid state is safe.
    pub proof fn lemma_valid_is_safe(self, tp: u8)
        requires
            self.valid(tp),
        ensures
            self.safe(tp),
    {
    }

    /// In a safe state, any card of the hand to play can be played; afterwards the
    /// state is still safe, and the points in play are unchanged.
    pub proof fn lemma_play_keeps_safe(self, tp: u8, card: int, post: GameState, post_tp: u8)
        requires
            self.safe(tp),
            self.trick_number < 10,
            mem(self.to_play_hand(), card),
            self.plays_to(tp as int, card, post, post_tp as int),
        ensures
            self.can_play(card, tp as int),
            post.safe(post_tp),
            post.team_02_score + post.team_13_score + post_tp + post.hand_points()
                == self.team_02_score + self.team_13_score + tp + self.hand_points(),
    {
        let seat = self.current_player as int;
        let h = self.hands[seat];
        assert(in_deck(h));
        lemma_remove_card(h, card);
        assert(post.hand_points() + points_of(card) == self.hand_points());
        assert forall|i: int| 0 <= i < 4 implies in_deck(#[trigger] post.hands[i]) by {
            assert(in_deck(self.hands[i]));
        }
        if self.cards_played_in_trick == 0 {
            assert(post.led_suit < 4);
        }
    }

    /// In a safe state, any card of the hand to play can be played.
    pub proof fn lemma_safe_can_play(self, tp: u8, card: int)
        requires
            self.safe(tp),
            mem(self.to_play_hand(), card),
        ensures
            self.can_play(card, tp as int),
    {
        let seat = self.current_player as int;
        let h = self.hands[seat];
        assert(in_deck(h));
        lemma_remove_card(h, card);
    }
}

/// `s` (with `tp` points on the table) is reached from `s0` (with `tp0`) by `k` plays,
/// each of a card legal at that moment.
pub open spec fn legal_plays(s0: GameState, tp0: u8, s: GameState, tp: u8, k: nat) -> bool
    decreases k,
{
    if k == 0 {
        s == s0 && tp == tp0
    } else {
        exists|mid: GameState, mtp: u8, c: int| {
            &&& legal_plays(s0, tp0, mid, mtp, (k - 1) as nat)
            &&& #[trigger] mid.plays_to(mtp as int, c, s, tp as int)
            &&& mid.is_legal(c)
        }
    }
}

/// A deal lasts forty legal plays: after `k` legal plays from a fresh deal the state is
/// consistent, `k / 4` tricks are complete, the game is over exactly when `k` is 40, and
/// the seat to play has a legal card exactly while it is not.
pub proof fn lemma_game_length(s0: GameState, s: GameState, tp: u8, k: nat)
    requires
        is_deal(s0.hands),
        s0.trump < 4,
        s0.current_player < 4,
        s0.led_suit == 4,
        s0.cards_played_in_trick == 0,
        s0.team_02_score == 0,
        s0.team_13_score == 0,
        s0.trick_number == 0,
        legal_plays(s0, 0, s, tp, k),
    ensures
        s.valid(tp),
        k <= 40,
        s.trick_number == k / 4,
        (s.trick_number == 10) == (k == 40),
        (s.legal_mask() != 0) == (s.trick_number != 10),
    decreases k,
{
    lemma_plays_count(s0, s, tp, k);
    if s.trick_number == 10 {
        s.lemma_valid_terminal(tp);
        assert(s.to_play_hand() == 0);
    } else {
        s.lemma_valid_has_legal(tp);
        s.lemma_legal_mask();
        lemma_has_zero(lowest(s.legal_mask()));
    }
}

proof fn lemma_plays_count(s0: GameState, s: GameState, tp: u8, k: nat)
    requires
        is_deal(s0.hands),
        s0.trump < 4,
        s0.current_player < 4,
        s0.led_suit == 4,
        s0.cards_played_in_trick == 0,
        s0.team_02_score == 0,
        s0.team_13_score == 0,
        s0.trick_number == 0,
        legal_plays(s0, 0, s, tp, k),
    ensures
        s.valid(tp),
        4 * s.trick_number + s.cards_played_in_trick == k,
        k <= 40,
    decreases k,
{
    if k == 0 {
        lemma_deal_valid(s0);
    } else {
        let (mid, mtp, c) = choose|mid: GameState, mtp: u8, c: int| {
            &&& legal_plays(s0, 0, mid, mtp, (k - 1) as nat)
            &&& #[trigger] mid.plays_to(mtp as int, c, s, tp as int)
            &&& mid.is_legal(c)
        };
        lemma_plays_count(s0, mid, mtp, (k - 1) as nat);
        if mid.trick_number == 10 {
            mid.lemma_valid_terminal(mtp);
            lemma_has_zero(c);
            assert(false);
        }
        mid.lemma_play_keeps_valid(mtp, c, s, tp);
        if s.trick_number == 10 {
            s.lemma_valid_terminal(tp);
        }
    }
}

} // verus!
