//! Perfect Information Monte Carlo: sampling hidden hands consistent with what is known,
//! and scoring each legal move in a sampled world.
use vstd::prelude::*;
use crate::bits::{cards_of, count, in_deck, lemma_count_below_remove, lemma_deck, lemma_ext, lemma_has_and, lemma_has_and_not, lemma_has_or, lemma_has_single, lists, mem, single, single_spec, suit_mask, suit_mask_spec, DECK};
use crate::engine::{card_points, card_suit, points_of, suit_of, GameState};
use crate::search::{alpha_beta, hand_cards, minimax, TranspositionTable};
use crate::heuristic::{elite_choice, select_card_heuristic};
use crate::simulator::{void_bit, SuecaSimulatorGame};

verus! {

/// Card `c` is one of `cards[from..]`.
pub open spec fn among(cards: Seq<u8>, from: int, c: int) -> bool {
    exists|k: int| from <= k < cards.len() && #[trigger] cards[k] == c
}

/// The cards are distinct cards of the deck.
pub open spec fn distinct_cards(cards: Seq<u8>) -> bool {
    &&& forall|k: int| 0 <= k < cards.len() ==> #[trigger] cards[k] < 40
    &&& forall|j: int, k: int| 0 <= j < k < cards.len() ==> #[trigger] cards[j] != #[trigger] cards[k]
}

/// Card `c` is in one of the hands.
pub open spec fn dealt(hands: [u64; 4], c: int) -> bool {
    exists|s: int| 0 <= s < 4 && #[trigger] mem(hands[s], c)
}

/// `after` deals the cards `cards[from..]` on top of `before`: each goes to exactly one
/// player who is not void in its suit, and nothing else is added.
pub open spec fn deals_cards(cards: Seq<u8>, from: int, voids: [u8; 4], before: [u64; 4], after: [u64; 4]) -> bool {
    &&& forall|s: int, c: int| 0 <= s < 4 && #[trigger] mem(before[s], c) ==> mem(after[s], c)
    &&& forall|s: int, c: int| 0 <= s < 4 && #[trigger] mem(after[s], c) && !mem(before[s], c)
        ==> among(cards, from, c) && !void_bit(voids[s], suit_of(c))
    &&& forall|k: int| from <= k < cards.len() ==> dealt(after, #[trigger] cards[k] as int)
    &&& forall|s1: int, s2: int, c: int| 0 <= s1 < 4 && 0 <= s2 < 4 && s1 != s2 && among(cards, from, c)
        && #[trigger] mem(after[s1], c) ==> !#[trigger] mem(after[s2], c)
}

/// The room of each seat, as integers.
pub open spec fn room_of(t: [u8; 4]) -> Seq<int> {
    Seq::new(4, |i: int| t[i] as int)
}

/// Card `card` can go to seat `s`: the seat has room left and is not void in its suit.
pub open spec fn placeable(voids: [u8; 4], room: Seq<int>, s: int, card: u8) -> bool {
    room[s] > 0 && !void_bit(voids[s], suit_of(card as int))
}

/// The cards `cards[idx..]` can be dealt, in order, each to a seat with room left that is
/// not void in its suit, taking one unit of that seat's room.
pub open spec fn completable(cards: Seq<u8>, idx: int, voids: [u8; 4], room: Seq<int>) -> bool
    decreases cards.len() - idx,
{
    if idx >= cards.len() || idx < 0 {
        true
    } else {
        let c = cards[idx];
        ||| placeable(voids, room, 0, c) && completable(cards, idx + 1, voids, room.update(0, room[0] - 1))
        ||| placeable(voids, room, 1, c) && completable(cards, idx + 1, voids, room.update(1, room[1] - 1))
        ||| placeable(voids, room, 2, c) && completable(cards, idx + 1, voids, room.update(2, room[2] - 1))
        ||| placeable(voids, room, 3, c) && completable(cards, idx + 1, voids, room.update(3, room[3] - 1))
    }
}

/// One step of `completable`: the next card goes to some seat.
proof fn lemma_completable_unfold(cards: Seq<u8>, idx: int, voids: [u8; 4], room: Seq<int>)
    requires
        0 <= idx < cards.len(),
    ensures
        completable(cards, idx, voids, room) <==> exists|s: int| 0 <= s < 4 && placeable(voids, room, s, cards[idx])
            && #[trigger] completable(cards, idx + 1, voids, room.update(s, room[s] - 1)),
{
    if completable(cards, idx, voids, room) {
        let c = cards[idx];
        if placeable(voids, room, 0, c) && completable(cards, idx + 1, voids, room.update(0, room[0] - 1)) {
            assert(completable(cards, idx + 1, voids, room.update(0, room[0] - 1)));
        } else if placeable(voids, room, 1, c) && completable(cards, idx + 1, voids, room.update(1, room[1] - 1)) {
            assert(completable(cards, idx + 1, voids, room.update(1, room[1] - 1)));
        } else if placeable(voids, room, 2, c) && completable(cards, idx + 1, voids, room.update(2, room[2] - 1)) {
            assert(completable(cards, idx + 1, voids, room.update(2, room[2] - 1)));
        } else {
            assert(completable(cards, idx + 1, voids, room.update(3, room[3] - 1)));
        }
    }
}

/// The hands `h` with card `c` added to seat `s`.
pub open spec fn add_card(h: [u64; 4], s: int, c: int) -> [u64; 4] {
    [
        if s == 0 { h[0] | single_spec(c as u8) } else { h[0] },
        if s == 1 { h[1] | single_spec(c as u8) } else { h[1] },
        if s == 2 { h[2] | single_spec(c as u8) } else { h[2] },
        if s == 3 { h[3] | single_spec(c as u8) } else { h[3] },
    ]
}

/// The first deal found by backtracking: `cards[from..]` dealt in order, each card to
/// the first seat, in seat order, that can take it and from which the rest can still be
/// dealt; `None` when there is none.
pub open spec fn first_fill(cards: Seq<u8>, from: int, voids: [u8; 4], room: Seq<int>, h: [u64; 4]) -> Option<[u64; 4]>
    decreases cards.len() - from, 5int,
{
    if from >= cards.len() || from < 0 {
        Some(h)
    } else {
        fill_from_seat(cards, from, voids, room, h, 0)
    }
}

/// `first_fill` for `cards[from]` trying the seats from `s` on.
pub open spec fn fill_from_seat(cards: Seq<u8>, from: int, voids: [u8; 4], room: Seq<int>, h: [u64; 4], s: int) -> Option<[u64; 4]>
    decreases cards.len() - from, 4 - s,
{
    if s >= 4 || s < 0 || from >= cards.len() || from < 0 {
        None
    } else if placeable(voids, room, s, cards[from]) {
        match first_fill(cards, from + 1, voids, room.update(s, room[s] - 1), add_card(h, s, cards[from] as int)) {
            Some(x) => Some(x),
            None => fill_from_seat(cards, from, voids, room, h, s + 1),
        }
    } else {
        fill_from_seat(cards, from, voids, room, h, s + 1)
    }
}

/// Backtracking search that deals `unknown_cards[unknown_idx..]` to players with room
/// left (`target_sizes`) who are not void in the card's suit, trying players in seat
/// order. On success every room used is one card more in that hand; on failure the hands
/// and room are as they were.
fn sample_constraints(
    unknown_cards: &[u8],
    unknown_idx: usize,
    voids: [u8; 4],
    target_sizes: &mut [u8; 4],
    hands_out: &mut [u64; 4],
) -> (ok: bool)
    requires
        unknown_idx <= unknown_cards@.len(),
        distinct_cards(unknown_cards@),
        forall|k: int| unknown_idx <= k < unknown_cards@.len() ==> !dealt(*old(hands_out), #[trigger] unknown_cards@[k] as int),
    ensures
        !ok ==> *final(hands_out) == *old(hands_out) && *final(target_sizes) == *old(target_sizes),
        ok ==> deals_cards(unknown_cards@, unknown_idx as int, voids, *old(hands_out), *final(hands_out)),
        ok ==> forall|s: int| 0 <= s < 4 ==> #[trigger] final(target_sizes)[s] <= old(target_sizes)[s]
            && count(final(hands_out)[s]) + final(target_sizes)[s] == count(old(hands_out)[s]) + old(target_sizes)[s],
        ok == completable(unknown_cards@, unknown_idx as int, voids, room_of(*old(target_sizes))),
        ok ==> first_fill(unknown_cards@, unknown_idx as int, voids, room_of(*old(target_sizes)), *old(hands_out))
            == Some(*final(hands_out)),
        !ok ==> first_fill(unknown_cards@, unknown_idx as int, voids, room_of(*old(target_sizes)), *old(hands_out))
            is None,
    decreases unknown_cards@.len() - unknown_idx,
{
    if unknown_idx == unknown_cards.len() {
        return true;
    }
    let card = unknown_cards[unknown_idx];
    let suit = card_suit(card);
    let suit_mask: u8 = 1u8 << suit;
    let ghost h0 = *hands_out;
    let ghost t0 = *target_sizes;
    let mut s: usize = 0;
    while s < 4
        invariant
            s <= 4,
            *hands_out == h0,
            *target_sizes == t0,
            h0 == *old(hands_out),
            t0 == *old(target_sizes),
            card == unknown_cards@[unknown_idx as int],
            card < 40,
            suit == suit_of(card as int),
            suit < 4,
            suit_mask == 1u8 << suit,
            unknown_idx < unknown_cards@.len(),
            distinct_cards(unknown_cards@),
            forall|k: int| unknown_idx <= k < unknown_cards@.len() ==> !dealt(h0, #[trigger] unknown_cards@[k] as int),
            forall|s2: int| 0 <= s2 < s ==> !(placeable(voids, room_of(t0), s2, card)
                && #[trigger] completable(unknown_cards@, unknown_idx + 1, voids, room_of(t0).update(s2, room_of(t0)[s2] - 1))),
            fill_from_seat(unknown_cards@, unknown_idx as int, voids, room_of(t0), h0, 0)
                == fill_from_seat(unknown_cards@, unknown_idx as int, voids, room_of(t0), h0, s as int),
        decreases 4 - s,
    {
        let v = voids[s];
        proof {
            assert((v & suit_mask) == 0u8 <==> !((v >> suit) & 1u8 == 1u8)) by (bit_vector)
                requires
                    suit < 4,
                    suit_mask == 1u8 << suit,
            ;
        }
        if target_sizes[s] > 0 && (v & suit_mask) == 0 {
            target_sizes[s] = target_sizes[s] - 1;
            let bit = single(card);
            hands_out[s] = hands_out[s] | bit;
            let ghost h1 = *hands_out;
            let ghost t1 = *target_sizes;
            proof {
                assert forall|j: int| #[trigger] mem(h1[s as int], j) == (mem(h0[s as int], j) || j == card) by {
                    lemma_has_or(h0[s as int], bit, j);
                }
                assert(!dealt(h0, card as int));
                assert(!mem(h0[s as int], card as int));
                lemma_count_below_remove(h0[s as int], h1[s as int], card as int, 64);
                assert forall|k: int| unknown_idx + 1 <= k < unknown_cards@.len() implies !dealt(h1, #[trigger] unknown_cards@[k] as int) by {
                    assert(unknown_cards@[unknown_idx as int] != unknown_cards@[k]);
                    assert(!dealt(h0, unknown_cards@[k] as int));
                    if dealt(h1, unknown_cards@[k] as int) {
                        let s2 = choose|s2: int| 0 <= s2 < 4 && #[trigger] mem(h1[s2], unknown_cards@[k] as int);
                        assert(mem(h0[s2], unknown_cards@[k] as int));
                    }
                }
            }
            assert(unknown_idx < unknown_cards.len());
            proof {
                assert(room_of(t1) =~= room_of(t0).update(s as int, room_of(t0)[s as int] - 1));
                assert(h1 =~= add_card(h0, s as int, card as int));
                assert(placeable(voids, room_of(t0), s as int, card));
            }
            if sample_constraints(unknown_cards, unknown_idx + 1, voids, target_sizes, hands_out) {
                proof {
                    let h2 = *hands_out;
                    let from = unknown_idx as int;
                    assert(fill_from_seat(unknown_cards@, from, voids, room_of(t0), h0, s as int) == Some(h2));
                    assert(deals_cards(unknown_cards@, from + 1, voids, h1, h2));
                    assert(!void_bit(voids[s as int], suit_of(card as int)));
                    assert forall|s2: int, c: int| 0 <= s2 < 4 && #[trigger] mem(h0[s2], c) implies mem(h2[s2], c) by {
                        if s2 != s {
                            assert(h1[s2] == h0[s2]);
                        }
                        assert(mem(h1[s2], c));
                    }
                    assert forall|s2: int, c: int| 0 <= s2 < 4 && #[trigger] mem(h2[s2], c) && !mem(h0[s2], c)
                        implies among(unknown_cards@, from, c) && !void_bit(voids[s2], suit_of(c)) by {
                        if mem(h1[s2], c) {
                            if s2 != s {
                                assert(h1[s2] == h0[s2]);
                            }
                            assert(s2 == s && c == card);
                            assert(unknown_cards@[from] == c);
                        } else {
                            let k = choose|k: int| from + 1 <= k < unknown_cards@.len() && #[trigger] unknown_cards@[k] == c;
                            assert(unknown_cards@[k] == c);
                        }
                    }
                    assert forall|k: int| from <= k < unknown_cards@.len() implies dealt(h2, #[trigger] unknown_cards@[k] as int) by {
                        if k == from {
                            assert(mem(h1[s as int], card as int));
                            assert(mem(h2[s as int], card as int));
                        }
                    }
                    assert forall|s1: int, s2: int, c: int| 0 <= s1 < 4 && 0 <= s2 < 4 && s1 != s2 && among(unknown_cards@, from, c)
                        && #[trigger] mem(h2[s1], c) implies !#[trigger] mem(h2[s2], c) by {
                        let k = choose|k: int| from <= k < unknown_cards@.len() && #[trigger] unknown_cards@[k] == c;
                        if k == from {
                            // `card` went to seat `s` only.
                            if mem(h2[s1], c) && mem(h2[s2], c) {
                                if s1 != s {
                                    assert(!mem(h1[s1], c));
                                    let k2 = choose|k2: int| from + 1 <= k2 < unknown_cards@.len() && #[trigger] unknown_cards@[k2] == c;
                                    assert(unknown_cards@[from] != unknown_cards@[k2]);
                                } else {
                                    assert(!mem(h1[s2], c));
                                    let k2 = choose|k2: int| from + 1 <= k2 < unknown_cards@.len() && #[trigger] unknown_cards@[k2] == c;
                                    assert(unknown_cards@[from] != unknown_cards@[k2]);
                                }
                            }
                        } else {
                            assert(among(unknown_cards@, from + 1, c));
                        }
                    }
                    assert(deals_cards(unknown_cards@, from, voids, h0, h2));
                    let t2 = *target_sizes;
                    assert forall|s2: int| 0 <= s2 < 4 implies #[trigger] t2[s2] <= t0[s2]
                        && count(h2[s2]) + t2[s2] == count(h0[s2]) + t0[s2] by {
                        if s2 != s {
                            assert(h1[s2] == h0[s2]);
                            assert(t1[s2] == t0[s2]);
                        }
                    }
                    assert(completable(unknown_cards@, from + 1, voids, room_of(t0).update(s as int, room_of(t0)[s as int] - 1)));
                    assert(placeable(voids, room_of(t0), s as int, unknown_cards@[from]));
                    assert(from < unknown_cards@.len());
                    lemma_completable_unfold(unknown_cards@, from, voids, room_of(t0));
                    assert(completable(unknown_cards@, from, voids, room_of(t0)));
                }
                return true;
            }
            target_sizes[s] = target_sizes[s] + 1;
            hands_out[s] = hands_out[s] & !bit;
            proof {
                assert forall|j: int| 0 <= j < 64 implies mem(hands_out[s as int], j) == mem(h0[s as int], j) by {
                    lemma_has_and_not(h1[s as int], bit, j);
                    lemma_has_single(card as u64, j);
                }
                lemma_ext(hands_out[s as int], h0[s as int]);
                assert(*hands_out =~= h0);
                assert(*target_sizes =~= t0);
            }
        }
        proof {
            assert(v == voids[s as int]);
            if !(target_sizes[s as int] > 0 && (v & suit_mask) == 0) {
                assert(!placeable(voids, room_of(t0), s as int, card));
            }
            assert(fill_from_seat(unknown_cards@, unknown_idx as int, voids, room_of(t0), h0, s as int)
                == fill_from_seat(unknown_cards@, unknown_idx as int, voids, room_of(t0), h0, s as int + 1));
        }
        s = s + 1;
    }
    proof {
        lemma_completable_unfold(unknown_cards@, unknown_idx as int, voids, room_of(t0));
        assert(!completable(unknown_cards@, unknown_idx as int, voids, room_of(t0)));
    }
    false
}


/// Some player other than `me` is known to be void in suit `suit`.
pub open spec fn constrained(voids: [u8; 4], me: int, suit: int) -> bool {
    exists|p: int| 0 <= p < 4 && p != me && #[trigger] void_bit(voids[p], suit)
}

/// The number of cards among the first `n` whose suit some other player is void in.
pub open spec fn n_constrained(cards: Seq<u8>, voids: [u8; 4], me: int, n: int) -> nat
    decreases n,
{
    if n <= 0 {
        0
    } else {
        n_constrained(cards, voids, me, n - 1) + if constrained(voids, me, suit_of(cards[n - 1] as int)) {
            1nat
        } else {
            0nat
        }
    }
}

/// Generator outputs drawn by a Fisher-Yates shuffle of `n` items.
pub open spec fn shuffle_draws(n: int) -> nat {
    if n > 1 {
        (n - 1) as nat
    } else {
        0
    }
}

/// A sampled world: `my_hand` stays with `me`; every unknown card goes to exactly one
/// other player, who is not known to be void in its suit; the other players get nothing
/// else and no more cards than their target size.
pub open spec fn consistent_world(
    me: int,
    my_hand: u64,
    unknown: Seq<u8>,
    voids: [u8; 4],
    target_sizes: [u8; 4],
    hands: [u64; 4],
) -> bool {
    &&& hands[me] == my_hand
    &&& forall|p: int, c: int| 0 <= p < 4 && p != me && #[trigger] mem(hands[p], c) ==> among(unknown, 0, c)
        && !void_bit(voids[p], suit_of(c))
    &&& forall|k: int| 0 <= k < unknown.len() ==> dealt(hands, #[trigger] unknown[k] as int)
    &&& forall|p1: int, p2: int, c: int| 0 <= p1 < 4 && 0 <= p2 < 4 && p1 != p2 && #[trigger] mem(hands[p1], c)
        ==> !#[trigger] mem(hands[p2], c)
    &&& forall|p: int| 0 <= p < 4 && p != me ==> count(#[trigger] hands[p]) <= target_sizes[p]
}

/// A subset with as many members as its superset is the same set.
proof fn lemma_subset_same_count(a: u64, b: u64)
    requires
        forall|c: int| #[trigger] mem(a, c) ==> mem(b, c),
        count(a) == count(b),
    ensures
        a == b,
{
    assert forall|c: int| 0 <= c < 64 implies mem(a, c) == mem(b, c) by {
        if mem(b, c) && !mem(a, c) {
            let r = b & !single_spec(c as u8);
            assert forall|j: int| #[trigger] mem(r, j) == (mem(b, j) && j != c) by {
                lemma_has_and_not(b, single_spec(c as u8), j);
                lemma_has_single(c as u64, j);
            }
            lemma_count_below_remove(r, b, c, 64);
            crate::bits::lemma_count_below_subset(a, r, 64);
        }
    }
    lemma_ext(a, b);
}

/// Is some player other than `me` known to be void in `suit`?
fn constrained_suit(voids: [u8; 4], me: u8, suit: u8) -> (r: bool)
    requires
        me < 4,
        suit < 4,
    ensures
        r == constrained(voids, me as int, suit as int),
{
    let suit_flag: u8 = 1u8 << suit;
    let mut s: usize = 0;
    while s < 4
        invariant
            s <= 4,
            me < 4,
            suit < 4,
            suit_flag == 1u8 << suit,
            forall|p: int| 0 <= p < s && p != me ==> !#[trigger] void_bit(voids[p], suit as int),
        decreases 4 - s,
    {
        let v = voids[s];
        proof {
            assert((v & suit_flag) != 0u8 <==> ((v >> suit) & 1u8 == 1u8)) by (bit_vector)
                requires
                    suit < 4,
                    suit_flag == 1u8 << suit,
            ;
        }
        if s != me as usize && (v & suit_flag) != 0 {
            assert(void_bit(voids[s as int], suit as int));
            return true;
        }
        s = s + 1;
    }
    false
}

/// The unknown cards among the first `n` whose suit some other player is void in, in
/// their order.
pub open spec fn constrained_part(unk: Seq<u8>, voids: [u8; 4], me: int, n: int) -> Seq<u8>
    decreases n,
{
    if n <= 0 {
        Seq::empty()
    } else {
        let p = constrained_part(unk, voids, me, n - 1);
        if constrained(voids, me, suit_of(unk[n - 1] as int)) {
            p.push(unk[n - 1])
        } else {
            p
        }
    }
}

/// The other unknown cards among the first `n`, in reverse order.
pub open spec fn free_part_rev(unk: Seq<u8>, voids: [u8; 4], me: int, n: int) -> Seq<u8>
    decreases n,
{
    if n <= 0 {
        Seq::empty()
    } else {
        let p = free_part_rev(unk, voids, me, n - 1);
        if constrained(voids, me, suit_of(unk[n - 1] as int)) {
            p
        } else {
            seq![unk[n - 1]] + p
        }
    }
}

/// A Fisher-Yates pass over `d[lo..lo + i]` driven by the crate's generator from state
/// `r`: each step draws the next state, takes it modulo the length left as `j`, and
/// exchanges the last position left with position `j`. The deck and the final state.
pub open spec fn fy_shuffle(d: Seq<u8>, lo: int, i: int, r: u64) -> (Seq<u8>, u64)
    decreases i,
{
    if i <= 1 {
        (d, r)
    } else {
        let r2 = crate::rng::lcg_step(r);
        let j = ((r2 as usize) % (i as usize)) as int;
        let k = i - 1;
        fy_shuffle(d.update(lo + k, d[lo + j]).update(lo + j, d[lo + k]), lo, i - 1, r2)
    }
}

/// The order in which `sample_world` deals the unknown cards: the constrained cards in
/// their order, then the others in reverse order, each group shuffled in turn by
/// `fy_shuffle` from the generator state `seed`.
pub open spec fn world_order(unk: Seq<u8>, voids: [u8; 4], me: int, seed: u64) -> Seq<u8> {
    let n = unk.len() as int;
    let nc = n_constrained(unk, voids, me, n) as int;
    let p0 = constrained_part(unk, voids, me, n) + free_part_rev(unk, voids, me, n);
    let t1 = fy_shuffle(p0, 0, nc, seed);
    fy_shuffle(t1.0, nc, n - nc, t1.1).0
}

/// `my_hand` for seat `me`, nothing for the others.
pub open spec fn only_my_hand(me: int, my_hand: u64) -> [u64; 4] {
    [
        if me == 0 { my_hand } else { 0 },
        if me == 1 { my_hand } else { 0 },
        if me == 2 { my_hand } else { 0 },
        if me == 3 { my_hand } else { 0 },
    ]
}

/// Samples the hidden hands: unknown cards whose suit some other player is void in are
/// placed first (so a dead end shows early), each group is shuffled with the generator
/// seeded by `rng_state`, and the cards are dealt in that order by backtracking. The
/// search is complete: it succeeds exactly when some world consistent with what is known
/// exists. On success `hands_out` is the first deal the backtracking finds over
/// `world_order` (see `first_fill`); on failure it holds only `my_hand`. The generator
/// state advances past the draws.
pub fn sample_world(
    my_seat: u8,
    my_hand: u64,
    unknown_cards: &[u8],
    voids: [u8; 4],
    target_sizes: [u8; 4],
    hands_out: &mut [u64; 4],
    rng_state: &mut u64,
) -> (ok: bool)
    requires
        my_seat < 4,
        unknown_cards@.len() <= 40,
        distinct_cards(unknown_cards@),
        forall|k: int| 0 <= k < unknown_cards@.len() ==> !mem(my_hand, #[trigger] unknown_cards@[k] as int),
    ensures
        ok ==> consistent_world(my_seat as int, my_hand, unknown_cards@, voids, target_sizes, *final(hands_out)),
        !ok ==> final(hands_out)[my_seat as int] == my_hand && forall|p: int| 0 <= p < 4 && p != my_seat ==> #[trigger] final(hands_out)[p] == 0,
        ok == exists|h: [u64; 4]| #[trigger] consistent_world(my_seat as int, my_hand, unknown_cards@, voids, target_sizes, h),
        ok ==> first_fill(world_order(unknown_cards@, voids, my_seat as int, *old(rng_state)), 0, voids,
            room_of(target_sizes).update(my_seat as int, 0), only_my_hand(my_seat as int, my_hand)) == Some(*final(hands_out)),
        !ok ==> first_fill(world_order(unknown_cards@, voids, my_seat as int, *old(rng_state)), 0, voids,
            room_of(target_sizes).update(my_seat as int, 0), only_my_hand(my_seat as int, my_hand)) is None,
        ({
            let n = unknown_cards@.len() as int;
            let nc = n_constrained(unknown_cards@, voids, my_seat as int, n) as int;
            *final(rng_state) == crate::rng::lcg_steps(*old(rng_state), shuffle_draws(nc) + shuffle_draws(n - nc) + 1)
        }),
{
    *hands_out = [0; 4];
    hands_out[my_seat as usize] = my_hand;
    let ghost me = my_seat as int;
    let ghost unk = unknown_cards@;

    let num_unknowns = unknown_cards.len();
    let mut shuffled = [0u8; 40];
    let mut constrained_end: usize = 0;
    let mut free_start: usize = num_unknowns;
    let ghost mut perm: Seq<int> = Seq::new(40, |j: int| 0int);
    let ghost mut inv: Seq<int> = Seq::new(num_unknowns as nat, |k: int| 0int);

    let mut i: usize = 0;
    while i < num_unknowns
        invariant
            num_unknowns == unk.len(),
            num_unknowns <= 40,
            unk == unknown_cards@,
            distinct_cards(unk),
            i <= num_unknowns,
            constrained_end <= free_start <= num_unknowns,
            constrained_end + (num_unknowns - free_start) == i,
            constrained_end == n_constrained(unk, voids, me, i as int),
            me == my_seat,
            my_seat < 4,
            perm.len() == 40,
            inv.len() == num_unknowns,
            forall|j: int| (0 <= j < constrained_end || free_start <= j < num_unknowns) ==> 0 <= #[trigger] perm[j] < i
                && shuffled[j] == unk[perm[j]] && inv[perm[j]] == j,
            forall|k: int| 0 <= k < i ==> (0 <= #[trigger] inv[k] < constrained_end || free_start <= inv[k] < num_unknowns)
                && perm[inv[k]] == k,
            shuffled@.subrange(0, constrained_end as int) == constrained_part(unk, voids, me, i as int),
            shuffled@.subrange(free_start as int, num_unknowns as int) == free_part_rev(unk, voids, me, i as int),
        decreases num_unknowns - i,
    {
        let card = unknown_cards[i];
        let suit = card_suit(card);
        let is_constrained = constrained_suit(voids, my_seat, suit);
        let ghost sh0 = shuffled@;
        if is_constrained {
            shuffled[constrained_end] = card;
            proof {
                perm = perm.update(constrained_end as int, i as int);
                inv = inv.update(i as int, constrained_end as int);
            }
            constrained_end = constrained_end + 1;
            proof {
                assert(shuffled@.subrange(0, constrained_end as int) =~= sh0.subrange(0, constrained_end - 1).push(card));
                assert(shuffled@.subrange(free_start as int, num_unknowns as int) =~= sh0.subrange(free_start as int, num_unknowns as int));
            }
        } else {
            free_start = free_start - 1;
            shuffled[free_start] = card;
            proof {
                perm = perm.update(free_start as int, i as int);
                inv = inv.update(i as int, free_start as int);
                assert(shuffled@.subrange(free_start as int, num_unknowns as int) =~= seq![card] + sh0.subrange(free_start + 1, num_unknowns as int));
                assert(shuffled@.subrange(0, constrained_end as int) =~= sh0.subrange(0, constrained_end as int));
            }
        }
        proof {
            assert(unk[i as int] == card);
        }
        i = i + 1;
    }
    proof {
        assert(constrained_end == free_start);
    }

    let mut r = crate::rng::LcgRng::new(*rng_state);
    let ghost seed0 = *rng_state;
    let ghost p0 = shuffled@.subrange(0, num_unknowns as int);
    proof {
        assert(p0 =~= constrained_part(unk, voids, me, num_unknowns as int) + free_part_rev(unk, voids, me, num_unknowns as int));
    }
    let ghost t1 = fy_shuffle(p0, 0, constrained_end as int, seed0);
    let mut i: usize = constrained_end;
    let ghost mut draws: nat = 0;
    while i > 1
        invariant
            fy_shuffle(shuffled@.subrange(0, num_unknowns as int), 0, i as int, r@) == t1,
            i <= constrained_end,
            constrained_end <= num_unknowns,
            num_unknowns <= 40,
            num_unknowns == unk.len(),
            perm.len() == 40,
            inv.len() == num_unknowns,
            r@ == crate::rng::lcg_steps(seed0, draws),
            draws + (if i > 1 { i - 1 } else { 0 }) == shuffle_draws(constrained_end as int),
            forall|j: int| 0 <= j < num_unknowns ==> 0 <= #[trigger] perm[j] < num_unknowns
                && shuffled[j] == unk[perm[j]] && inv[perm[j]] == j,
            forall|k: int| 0 <= k < num_unknowns ==> 0 <= #[trigger] inv[k] < num_unknowns && perm[inv[k]] == k,
        decreases i,
    {
        let ghost cur = shuffled@.subrange(0, num_unknowns as int);
        let ghost r_old = r@;
        let rand_idx = (r.next_u64() as usize) % i;
        proof {
            draws = draws + 1;
        }
        i = i - 1;
        let a = shuffled[i];
        shuffled[i] = shuffled[rand_idx];
        shuffled[rand_idx] = a;
        proof {
            assert(shuffled@.subrange(0, num_unknowns as int) =~= cur.update(i as int, cur[rand_idx as int]).update(rand_idx as int, cur[i as int]));
            assert(fy_shuffle(cur, 0, i + 1, r_old) == fy_shuffle(shuffled@.subrange(0, num_unknowns as int), 0, i as int, r@));
            let pi = perm[i as int];
            let pr = perm[rand_idx as int];
            perm = perm.update(i as int, pr).update(rand_idx as int, pi);
            inv = inv.update(pi, rand_idx as int).update(pr, i as int);
        }
    }
    let ghost draws1 = draws;
    let ghost t2 = fy_shuffle(t1.0, constrained_end as int, (num_unknowns - constrained_end) as int, t1.1);
    i = num_unknowns - free_start;
    while i > 1
        invariant
            fy_shuffle(shuffled@.subrange(0, num_unknowns as int), free_start as int, i as int, r@) == t2,
            i <= num_unknowns - free_start,
            free_start <= num_unknowns,
            num_unknowns <= 40,
            num_unknowns == unk.len(),
            perm.len() == 40,
            inv.len() == num_unknowns,
            r@ == crate::rng::lcg_steps(seed0, draws),
            draws + (if i > 1 { i - 1 } else { 0 }) == draws1 + shuffle_draws(num_unknowns - free_start),
            forall|j: int| 0 <= j < num_unknowns ==> 0 <= #[trigger] perm[j] < num_unknowns
                && shuffled[j] == unk[perm[j]] && inv[perm[j]] == j,
            forall|k: int| 0 <= k < num_unknowns ==> 0 <= #[trigger] inv[k] < num_unknowns && perm[inv[k]] == k,
        decreases i,
    {
        let ghost cur = shuffled@.subrange(0, num_unknowns as int);
        let ghost r_old = r@;
        let rand_idx = (r.next_u64() as usize) % i;
        proof {
            draws = draws + 1;
        }
        i = i - 1;
        let a = shuffled[free_start + i];
        shuffled[free_start + i] = shuffled[free_start + rand_idx];
        shuffled[free_start + rand_idx] = a;
        proof {
            assert(shuffled@.subrange(0, num_unknowns as int) =~= cur.update(free_start + i, cur[free_start + rand_idx]).update(free_start + rand_idx, cur[free_start + i]));
            assert(fy_shuffle(cur, free_start as int, i + 1, r_old) == fy_shuffle(shuffled@.subrange(0, num_unknowns as int), free_start as int, i as int, r@));
            let x = (free_start + i) as int;
            let y = (free_start + rand_idx) as int;
            let px = perm[x];
            let py = perm[y];
            perm = perm.update(x, py).update(y, px);
            inv = inv.update(px, y).update(py, x);
        }
    }
    *rng_state = r.next_u64();

    let mut temp_targets = target_sizes;
    temp_targets[my_seat as usize] = 0;
    let mut order: Vec<u8> = Vec::new();
    let mut j: usize = 0;
    while j < num_unknowns
        invariant
            j <= num_unknowns,
            num_unknowns <= 40,
            order@.len() == j,
            forall|q: int| 0 <= q < j ==> #[trigger] order@[q] == shuffled[q],
        decreases num_unknowns - j,
    {
        order.push(shuffled[j]);
        j = j + 1;
    }
    let ghost init = *hands_out;
    proof {
        let o = order@;
        assert forall|q: int| 0 <= q < o.len() implies #[trigger] o[q] < 40 by {
            assert(o[q] == unk[perm[q]]);
        }
        assert forall|q1: int, q2: int| 0 <= q1 < q2 < o.len() implies #[trigger] o[q1] != #[trigger] o[q2] by {
            assert(o[q1] == unk[perm[q1]]);
            assert(o[q2] == unk[perm[q2]]);
            assert(inv[perm[q1]] == q1);
            assert(inv[perm[q2]] == q2);
            if perm[q1] < perm[q2] {
                assert(unk[perm[q1]] != unk[perm[q2]]);
            } else {
                assert(unk[perm[q2]] != unk[perm[q1]]);
            }
        }
        assert forall|q: int| 0 <= q < o.len() implies !dealt(init, #[trigger] o[q] as int) by {
            assert(o[q] == unk[perm[q]]);
            assert(!mem(my_hand, unk[perm[q]] as int));
            if dealt(init, o[q] as int) {
                let p = choose|p: int| 0 <= p < 4 && #[trigger] mem(init[p], o[q] as int);
                if p != me {
                    assert(init[p] == 0);
                    crate::bits::lemma_has_zero(o[q] as int);
                }
            }
        }
    }
    let ghost t_before = temp_targets;
    proof {
        assert(order@ =~= shuffled@.subrange(0, num_unknowns as int));
        assert(order@ == world_order(unk, voids, me, seed0));
        assert(init =~= only_my_hand(me, my_hand));
        assert(room_of(t_before) =~= room_of(target_sizes).update(me, 0));
    }
    let ok = sample_constraints(order.as_slice(), 0, voids, &mut temp_targets, hands_out);
    proof {
        if ok {
            lemma_sampled_world(me, my_hand, unk, voids, target_sizes, order@, perm, inv, init, *hands_out, temp_targets);
            assert(consistent_world(me, my_hand, unk, voids, target_sizes, *hands_out));
        } else {
            let o = order@;
            assert(room_of(t_before) =~= room_of(target_sizes).update(me, 0));
            assert(o.no_duplicates()) by {
                assert forall|q1: int, q2: int| 0 <= q1 < o.len() && 0 <= q2 < o.len() && q1 != q2 implies o[q1] != o[q2] by {
                    if q1 < q2 {
                        assert(o[q1] != o[q2]);
                    } else {
                        assert(o[q2] != o[q1]);
                    }
                }
            }
            assert forall|q: int| 0 <= q < o.len() implies among(unk, 0, #[trigger] o[q] as int) by {
                assert(o[q] == unk[perm[q]]);
            }
            assert forall|k: int| 0 <= k < unk.len() implies o.contains(#[trigger] unk[k]) by {
                let q = inv[k];
                assert(o[q] == unk[perm[q]]);
            }
            assert forall|h: [u64; 4]| !#[trigger] consistent_world(me, my_hand, unk, voids, target_sizes, h) by {
                if consistent_world(me, my_hand, unk, voids, target_sizes, h) {
                    lemma_consistent_completable(me, my_hand, unk, voids, target_sizes, h, o);
                }
            }
        }
    }
    ok
}


/// The dealt order is a permutation of the unknown cards; a successful deal of it is a
/// consistent world.
proof fn lemma_sampled_world(
    me: int,
    my_hand: u64,
    unk: Seq<u8>,
    voids: [u8; 4],
    target_sizes: [u8; 4],
    o: Seq<u8>,
    perm: Seq<int>,
    inv: Seq<int>,
    init: [u64; 4],
    h: [u64; 4],
    final_targets: [u8; 4],
)
    requires
        0 <= me < 4,
        o.len() == unk.len(),
        inv.len() == unk.len(),
        perm.len() >= unk.len(),
        distinct_cards(unk),
        forall|k: int| 0 <= k < unk.len() ==> !mem(my_hand, #[trigger] unk[k] as int),
        forall|j: int| 0 <= j < unk.len() ==> 0 <= #[trigger] perm[j] < unk.len() && o[j] == unk[perm[j]]
            && inv[perm[j]] == j,
        forall|k: int| 0 <= k < unk.len() ==> 0 <= #[trigger] inv[k] < unk.len() && perm[inv[k]] == k,
        init[me] == my_hand,
        forall|p: int| 0 <= p < 4 && p != me ==> #[trigger] init[p] == 0,
        deals_cards(o, 0, voids, init, h),
        forall|p: int| 0 <= p < 4 ==> #[trigger] final_targets[p] <= (if p == me { 0 } else { target_sizes[p] as int })
            && count(h[p]) + final_targets[p] == count(init[p]) + (if p == me { 0 } else { target_sizes[p] as int }),
    ensures
        consistent_world(me, my_hand, unk, voids, target_sizes, h),
{
    assert forall|c: int| #[trigger] mem(init[me], c) implies mem(h[me], c) by {}
    assert(final_targets[me] == 0);
    lemma_subset_same_count(init[me], h[me]);
    assert forall|p: int, c: int| 0 <= p < 4 && p != me && #[trigger] mem(h[p], c) implies among(unk, 0, c)
        && !void_bit(voids[p], suit_of(c)) by {
        assert(init[p] == 0);
        crate::bits::lemma_has_zero(c);
        let q = choose|q: int| 0 <= q < o.len() && #[trigger] o[q] == c;
        assert(o[q] == unk[perm[q]]);
    }
    assert forall|k: int| 0 <= k < unk.len() implies dealt(h, #[trigger] unk[k] as int) by {
        let q = inv[k];
        assert(perm[q] == k);
        assert(o[q] == unk[k]);
    }
    assert forall|p1: int, p2: int, c: int| 0 <= p1 < 4 && 0 <= p2 < 4 && p1 != p2 && #[trigger] mem(h[p1], c)
        implies !#[trigger] mem(h[p2], c) by {
        if mem(h[p2], c) {
            if p1 == me {
                assert(init[p2] == 0);
                crate::bits::lemma_has_zero(c);
                let q = choose|q: int| 0 <= q < o.len() && #[trigger] o[q] == c;
                assert(o[q] == unk[perm[q]]);
            } else if p2 == me {
                assert(init[p1] == 0);
                crate::bits::lemma_has_zero(c);
                let q = choose|q: int| 0 <= q < o.len() && #[trigger] o[q] == c;
                assert(o[q] == unk[perm[q]]);
            } else {
                assert(init[p1] == 0);
                crate::bits::lemma_has_zero(c);
            }
        }
    }
    assert forall|p: int| 0 <= p < 4 && p != me implies count(#[trigger] h[p]) <= target_sizes[p] by {
        assert(init[p] == 0);
        assert forall|c: int| 0 <= c < 64 implies !mem(init[p], c) by {
            crate::bits::lemma_has_zero(c);
        }
        crate::bits::lemma_count_below_zero(init[p], 64);
        assert(count(init[p]) == 0);
        assert(final_targets[p] <= target_sizes[p]);
        assert(count(h[p]) + final_targets[p] == count(init[p]) + target_sizes[p]);
    }
}


/// The cards PIMC lets the seat to play choose from: those of the led suit when a suit
/// is led and the hand holds it, otherwise the whole hand.
pub open spec fn pimc_legal_mask(hand: u64, led_suit: u8) -> u64 {
    let suited = if led_suit < 4 {
        hand & suit_mask_spec(led_suit as int)
    } else {
        0
    };
    if suited != 0 {
        suited
    } else {
        hand
    }
}

/// The moves PIMC evaluates, lowest card first.
pub fn pimc_moves(hand: u64, led_suit: u8) -> (moves: Vec<u8>)
    requires
        led_suit <= 6,
    ensures
        lists(moves@, pimc_legal_mask(hand, led_suit)),
{
    let mask = suit_mask(led_suit);
    let suited = if led_suit < 4 {
        hand & mask
    } else {
        0
    };
    let legal = if suited != 0 {
        suited
    } else {
        hand
    };
    cards_of(legal)
}

/// In a valid state, the moves PIMC evaluates for the seat to play are exactly its legal
/// cards.
pub proof fn lemma_pimc_moves_are_legal(st: GameState, tp: u8)
    requires
        st.valid(tp),
    ensures
        pimc_legal_mask(st.to_play_hand(), st.led_suit) == st.legal_mask(),
{
}

/// The cards of the deck outside `known`.
pub open spec fn unseen(known: u64) -> u64 {
    !known & DECK
}

/// The cards of the deck outside `known`, in card order: the pool the hidden hands are
/// drawn from.
pub fn unknown_pool(known: u64) -> (pool: Vec<u8>)
    ensures
        lists(pool@, unseen(known)),
        distinct_cards(pool@),
        forall|c: int| #[trigger] mem(unseen(known), c) == (0 <= c < 40 && !mem(known, c)),
{
    let pool = cards_of(!known & DECK);
    proof {
        assert forall|c: int| #[trigger] mem(unseen(known), c) == (0 <= c < 40 && !mem(known, c)) by {
            lemma_has_and_not(DECK, known, c);
            lemma_has_and(!known, DECK, c);
            crate::bits::lemma_has_not(known, c);
            lemma_deck(c);
        }
        assert forall|k: int| 0 <= k < pool@.len() implies #[trigger] pool@[k] < 40 by {
            assert(mem(unseen(known), pool@[k] as int));
        }
    }
    pool
}

/// The number of the first `n` cards that are of suit `s`.
pub open spec fn suit_count(cards: Seq<u8>, s: int, n: int) -> nat
    decreases n,
{
    if n <= 0 {
        0
    } else {
        suit_count(cards, s, n - 1) + if suit_of(cards[n - 1] as int) == s {
            1nat
        } else {
            0nat
        }
    }
}

/// The room seat `p` offers for cards of suit `s`: its target size, unless it is the
/// seat sampling or is known to be void in `s`.
pub open spec fn room_for(voids: [u8; 4], target_sizes: [u8; 4], me: int, p: int, s: int) -> int {
    if p != me && !void_bit(voids[p], s) {
        target_sizes[p] as int
    } else {
        0
    }
}

/// The room the other seats offer for cards of suit `s`.
pub open spec fn suit_capacity(voids: [u8; 4], target_sizes: [u8; 4], me: int, s: int) -> int {
    room_for(voids, target_sizes, me, 0, s) + room_for(voids, target_sizes, me, 1, s)
        + room_for(voids, target_sizes, me, 2, s) + room_for(voids, target_sizes, me, 3, s)
}

/// No suit has more unknown cards than the other seats not void in it can take.
pub open spec fn feasible(cards: Seq<u8>, voids: [u8; 4], target_sizes: [u8; 4], me: int) -> bool {
    forall|s: int| 0 <= s < 4 ==> suit_count(cards, s, cards.len() as int) <= #[trigger] suit_capacity(voids, target_sizes, me, s)
}

/// A quick necessary check on the void constraints: for each suit, the unknown cards
/// of that suit fit in the hands of the other players who may hold it.
pub fn constraints_feasible(unknown_cards: &[u8], voids: [u8; 4], target_sizes: [u8; 4], my_seat: u8) -> (r: bool)
    requires
        forall|k: int| 0 <= k < unknown_cards@.len() ==> #[trigger] unknown_cards@[k] < 40,
    ensures
        r == feasible(unknown_cards@, voids, target_sizes, my_seat as int),
{
    let mut suit_remaining: [usize; 4] = [0; 4];
    let n = unknown_cards.len();
    let mut i: usize = 0;
    while i < n
        invariant
            i <= n,
            n == unknown_cards@.len(),
            forall|k: int| 0 <= k < unknown_cards@.len() ==> #[trigger] unknown_cards@[k] < 40,
            forall|s: int| 0 <= s < 4 ==> #[trigger] suit_remaining[s] == suit_count(unknown_cards@, s, i as int),
            forall|s: int| 0 <= s < 4 ==> #[trigger] suit_remaining[s] <= i,
        decreases n - i,
    {
        let suit = card_suit(unknown_cards[i]);
        suit_remaining[suit as usize] = suit_remaining[suit as usize] + 1;
        i = i + 1;
    }
    let mut capacity: [u32; 4] = [0; 4];
    let mut p: usize = 0;
    while p < 4
        invariant
            p <= 4,
            forall|s: int| 0 <= s < 4 ==> #[trigger] capacity[s] == (if p > 0 { room_for(voids, target_sizes, my_seat as int, 0, s) } else { 0 })
                + (if p > 1 { room_for(voids, target_sizes, my_seat as int, 1, s) } else { 0 })
                + (if p > 2 { room_for(voids, target_sizes, my_seat as int, 2, s) } else { 0 })
                + (if p > 3 { room_for(voids, target_sizes, my_seat as int, 3, s) } else { 0 }),
            forall|s: int| 0 <= s < 4 ==> #[trigger] capacity[s] <= 255 * p,
        decreases 4 - p,
    {
        if p != my_seat as usize {
            let mut s: u8 = 0;
            while s < 4
                invariant
                    s <= 4,
                    p < 4,
                    p != my_seat,
                    forall|t: int| 0 <= t < 4 ==> #[trigger] capacity[t] == (if p > 0 { room_for(voids, target_sizes, my_seat as int, 0, t) } else { 0 })
                        + (if p > 1 { room_for(voids, target_sizes, my_seat as int, 1, t) } else { 0 })
                        + (if p > 2 { room_for(voids, target_sizes, my_seat as int, 2, t) } else { 0 })
                        + (if p > 3 { room_for(voids, target_sizes, my_seat as int, 3, t) } else { 0 })
                        + (if t < s { room_for(voids, target_sizes, my_seat as int, p as int, t) } else { 0 }),
                    forall|t: int| 0 <= t < 4 ==> #[trigger] capacity[t] <= 255 * p + (if t < s { 255int } else { 0 }),
                decreases 4 - s,
            {
                let void_mask: u8 = 1u8 << s;
                let v = voids[p];
                proof {
                    assert((v & void_mask) != 0u8 <==> ((v >> s) & 1u8 == 1u8)) by (bit_vector)
                        requires
                            s < 4,
                            void_mask == 1u8 << s,
                    ;
                }
                if (v & void_mask) == 0 {
                    capacity[s as usize] = capacity[s as usize] + target_sizes[p] as u32;
                }
                s = s + 1;
            }
        }
        p = p + 1;
    }
    let mut s: usize = 0;
    while s < 4
        invariant
            s <= 4,
            forall|t: int| 0 <= t < 4 ==> #[trigger] suit_remaining[t] == suit_count(unknown_cards@, t, unknown_cards@.len() as int),
            forall|t: int| 0 <= t < 4 ==> #[trigger] capacity[t] == suit_capacity(voids, target_sizes, my_seat as int, t),
            forall|t: int| 0 <= t < s ==> suit_count(unknown_cards@, t, unknown_cards@.len() as int) <= #[trigger] suit_capacity(voids, target_sizes, my_seat as int, t),
        decreases 4 - s,
    {
        if suit_remaining[s] > capacity[s] as usize {
            return false;
        }
        s = s + 1;
    }
    true
}

/// The generator seed of world `world_idx`: `seed + (world_idx + 1) * 0x9E3779B97F4A7C15`,
/// wrapping at 2^64.
pub open spec fn world_seed_spec(seed: u64, world_idx: u64) -> u64 {
    vstd::wrapping::u64_specs::wrapping_add(
        seed,
        vstd::wrapping::u64_specs::wrapping_mul((world_idx + 1) as u64, 0x9E3779B97F4A7C15u64),
    )
}

/// The generator seed of world `world_idx`, spread over the 64 bits.
pub fn world_seed(seed: u64, world_idx: u64) -> (r: u64)
    requires
        world_idx < u64::MAX,
    ensures
        r == world_seed_spec(seed, world_idx),
{
    seed.wrapping_add((world_idx + 1).wrapping_mul(0x9E3779B97F4A7C15))
}

/// Samples a world for world `world_idx`, trying up to ten times with the generator
/// seeded by `world_seed`; on success `hands_out` is a consistent world, and it
/// succeeds exactly when such a world exists. The sampler being complete, only the
/// first try can succeed, so the world is the one `sample_world` draws from that seed.
pub fn sample_world_retrying(
    my_seat: u8,
    my_hand: u64,
    unknown_cards: &[u8],
    voids: [u8; 4],
    target_sizes: [u8; 4],
    seed: u64,
    world_idx: u64,
    hands_out: &mut [u64; 4],
) -> (ok: bool)
    requires
        my_seat < 4,
        world_idx < u64::MAX,
        unknown_cards@.len() <= 40,
        distinct_cards(unknown_cards@),
        forall|k: int| 0 <= k < unknown_cards@.len() ==> !mem(my_hand, #[trigger] unknown_cards@[k] as int),
    ensures
        ok ==> consistent_world(my_seat as int, my_hand, unknown_cards@, voids, target_sizes, *final(hands_out)),
        ok == exists|h: [u64; 4]| #[trigger] consistent_world(my_seat as int, my_hand, unknown_cards@, voids, target_sizes, h),
        ok ==> first_fill(world_order(unknown_cards@, voids, my_seat as int, world_seed_spec(seed, world_idx)), 0, voids,
            room_of(target_sizes).update(my_seat as int, 0), only_my_hand(my_seat as int, my_hand)) == Some(*final(hands_out)),
        !ok ==> *final(hands_out) == only_my_hand(my_seat as int, my_hand),
{
    let mut local_seed = world_seed(seed, world_idx);
    let mut attempt: usize = 0;
    while attempt < 10
        invariant
            attempt <= 10,
            my_seat < 4,
            unknown_cards@.len() <= 40,
            distinct_cards(unknown_cards@),
            forall|k: int| 0 <= k < unknown_cards@.len() ==> !mem(my_hand, #[trigger] unknown_cards@[k] as int),
            attempt > 0 ==> !exists|h: [u64; 4]| #[trigger] consistent_world(my_seat as int, my_hand, unknown_cards@, voids, target_sizes, h),
            attempt == 0 ==> local_seed == world_seed_spec(seed, world_idx),
            attempt > 0 ==> *hands_out == only_my_hand(my_seat as int, my_hand),
        decreases 10 - attempt,
    {
        if sample_world(my_seat, my_hand, unknown_cards, voids, target_sizes, hands_out, &mut local_seed) {
            return true;
        }
        proof {
            assert(*hands_out =~= only_my_hand(my_seat as int, my_hand));
        }
        attempt = attempt + 1;
    }
    false
}

/// The points of the first `n` cards.
pub open spec fn cards_points(cards: Seq<u8>, n: int) -> int
    decreases n,
{
    if n <= 0 {
        0
    } else {
        cards_points(cards, n - 1) + points_of(cards[n - 1] as int)
    }
}

/// The position searched in a sampled world: the sampled hands with the public trick
/// state and scores.
pub open spec fn world_state(
    hands: [u64; 4],
    trump: u8,
    led_suit: u8,
    current_player: u8,
    current_trick_winner: u8,
    current_trick_best_card: u8,
    cards_in_trick: u8,
    team_scores: [u8; 2],
    trick_number: u8,
) -> GameState {
    GameState {
        hands,
        trump,
        led_suit,
        current_player,
        current_trick_winner,
        current_trick_best_card,
        cards_played_in_trick: cards_in_trick,
        team_02_score: team_scores[0],
        team_13_score: team_scores[1],
        trick_number,
    }
}

/// Plies searched after a move: the rest of the game from the seventh trick on,
/// otherwise `search_depth` tricks.
pub open spec fn search_plies(trick_number: u8, search_depth: u8) -> int {
    if trick_number >= 6 {
        40
    } else {
        search_depth * 4
    }
}

/// Scores each move in one sampled world: the move is played and the rest is searched
/// by alpha-beta (a new table generation per world). Each value is the score of team
/// 0/2 the search returns: when the new generation starts with no searched entry, the
/// minimax value of the position after the move over the plies searched.
pub fn pimc_world_values(
    hands: [u64; 4],
    trump: u8,
    led_suit: u8,
    current_trick_cards: &[u8],
    current_player: u8,
    current_trick_winner: u8,
    current_trick_best_card: u8,
    team_scores: [u8; 2],
    trick_number: u8,
    moves: &[u8],
    search_depth: u8,
    tt: &mut TranspositionTable,
) -> (vals: Vec<i16>)
    requires
        current_trick_cards@.len() < 4,
        forall|k: int| 0 <= k < current_trick_cards@.len() ==> #[trigger] current_trick_cards@[k] < 40,
        world_state(hands, trump, led_suit, current_player, current_trick_winner, current_trick_best_card,
            current_trick_cards@.len() as u8, team_scores, trick_number).safe(
            cards_points(current_trick_cards@, current_trick_cards@.len() as int) as u8),
        trick_number < 10,
        forall|k: int| 0 <= k < moves@.len() ==> mem(hands[current_player as int], #[trigger] moves@[k] as int),
        trick_number >= 6 || search_depth < 64,
        old(tt).wf(),
        old(tt).values_bounded(),
    ensures
        vals@.len() == moves@.len(),
        final(tt).wf(),
        final(tt).values_bounded(),
        final(tt).mask == old(tt).mask,
        forall|k: int| 0 <= k < vals@.len() ==> -1000 <= #[trigger] vals@[k] <= 1000,
        ({
            let base = world_state(hands, trump, led_suit, current_player, current_trick_winner,
                current_trick_best_card, current_trick_cards@.len() as u8, team_scores, trick_number);
            let tp = cards_points(current_trick_cards@, current_trick_cards@.len() as int);
            &&& forall|k: int, post: GameState, post_tp: int| 0 <= k < moves@.len()
                && #[trigger] base.plays_to(tp, moves@[k] as int, post, post_tp)
                && (search_plies(trick_number, search_depth) == 0 || post.trick_number == 10)
                ==> vals@[k] == post.team_02_score
            &&& base.valid(tp as u8) && old(tt).scores_ok()
                && (forall|k: int| 0 <= k < moves@.len() ==> base.is_legal(#[trigger] moves@[k] as int))
                ==> final(tt).scores_ok() && forall|k: int| 0 <= k < vals@.len() ==> 0 <= #[trigger] vals@[k] <= 120
            &&& old(tt).holds_no_entries_of(vstd::wrapping::u16_specs::wrapping_add(old(tt).generation, 1u16))
                ==> forall|k: int, post: GameState, post_tp: int| 0 <= k < moves@.len()
                    && #[trigger] base.plays_to(tp, moves@[k] as int, post, post_tp)
                    ==> vals@[k] == minimax(post, post_tp, search_plies(trick_number, search_depth) as nat)
        }),
{
    let ghost tp_spec = cards_points(current_trick_cards@, current_trick_cards@.len() as int);
    let mut base_trick_points: u8 = 0;
    let mut j: usize = 0;
    while j < current_trick_cards.len()
        invariant
            j <= current_trick_cards@.len(),
            current_trick_cards@.len() < 4,
            forall|k: int| 0 <= k < current_trick_cards@.len() ==> #[trigger] current_trick_cards@[k] < 40,
            base_trick_points == cards_points(current_trick_cards@, j as int),
            base_trick_points <= 11 * j,
        decreases current_trick_cards@.len() - j,
    {
        base_trick_points = base_trick_points + card_points(current_trick_cards[j]);
        j = j + 1;
    }
    let mut base_game = GameState::new(hands, trump, current_player);
    base_game.led_suit = led_suit;
    base_game.current_trick_winner = current_trick_winner;
    base_game.current_trick_best_card = current_trick_best_card;
    base_game.cards_played_in_trick = current_trick_cards.len() as u8;
    base_game.team_02_score = team_scores[0];
    base_game.team_13_score = team_scores[1];
    base_game.trick_number = trick_number;
    let ghost base = base_game;
    assert(base == world_state(hands, trump, led_suit, current_player, current_trick_winner,
        current_trick_best_card, current_trick_cards@.len() as u8, team_scores, trick_number));
    let ghost good = base.valid(base_trick_points) && tt.scores_ok()
        && (forall|k: int| 0 <= k < moves@.len() ==> base.is_legal(#[trigger] moves@[k] as int));
    let ghost fresh = tt.holds_no_entries_of(vstd::wrapping::u16_specs::wrapping_add(tt.generation, 1u16));

    tt.next_generation();
    let plies_left: u8 = if trick_number >= 6 {
        40
    } else {
        search_depth * 4
    };
    let mut vals: Vec<i16> = Vec::new();
    let mut i: usize = 0;
    while i < moves.len()
        invariant
            i <= moves@.len(),
            vals@.len() == i,
            base == base_game,
            base.safe(base_trick_points),
            base.trick_number < 10,
            base_trick_points == tp_spec,
            plies_left == search_plies(trick_number, search_depth),
            base.trick_number == trick_number,
            forall|k: int| 0 <= k < moves@.len() ==> mem(base.hands[base.current_player as int], #[trigger] moves@[k] as int),
            tt.wf(),
            tt.values_bounded(),
            tt.mask == old(tt).mask,
            good ==> tt.scores_ok() && base.valid(base_trick_points),
            good ==> forall|k: int| 0 <= k < moves@.len() ==> base.is_legal(#[trigger] moves@[k] as int),
            forall|k: int| 0 <= k < i ==> -1000 <= #[trigger] vals@[k] <= 1000,
            good ==> forall|k: int| 0 <= k < i ==> 0 <= #[trigger] vals@[k] <= 120,
            forall|k: int, post: GameState, post_tp: int| 0 <= k < i
                && #[trigger] base.plays_to(tp_spec, moves@[k] as int, post, post_tp)
                && (plies_left == 0 || post.trick_number == 10)
                ==> vals@[k] == post.team_02_score,
            fresh ==> tt.sound_at(hand_cards(base) - 1 - plies_left),
            fresh ==> forall|k: int, post: GameState, post_tp: int| 0 <= k < i
                && #[trigger] base.plays_to(tp_spec, moves@[k] as int, post, post_tp)
                ==> vals@[k] == minimax(post, post_tp, plies_left as nat),
        decreases moves@.len() - i,
    {
        let m = moves[i];
        let mut sim_game = base_game;
        let mut trick_points = base_trick_points;
        proof {
            assert(mem(base.to_play_hand(), m as int));
            base.lemma_safe_can_play(base_trick_points, m as int);
        }
        sim_game.play_card_and_resolve(m, &mut trick_points);
        proof {
            base.lemma_play_keeps_safe(base_trick_points, m as int, sim_game, trick_points);
            if good {
                assert(base.is_legal(m as int));
                base.lemma_play_keeps_valid(base_trick_points, m as int, sim_game, trick_points);
            }
        }
        let ghost post = sim_game;
        let ghost post_tp = trick_points;
        proof {
            crate::search::lemma_hand_cards_step(base, base_trick_points as int, m as int, post, post_tp as int);
        }
        let val = alpha_beta(&mut sim_game, -1000, 1000, plies_left, tt, &mut trick_points);
        proof {
            assert forall|p2: GameState, p2_tp: int| #[trigger] base.plays_to(tp_spec, m as int, p2, p2_tp)
                implies p2 == post && p2_tp == post_tp as int by {
                assert(p2.hands =~= post.hands);
            }
        }
        vals.push(val);
        i = i + 1;
    }
    vals
}


/// The game `g` with the hands replaced by `h`.
pub open spec fn with_hands(g: SuecaSimulatorGame, h: [u64; 4]) -> SuecaSimulatorGame {
    SuecaSimulatorGame { state: GameState { hands: h, ..g.state }, ..g }
}

/// The cards held by the players other than the seat to play.
pub open spec fn hidden_mask(g: SuecaSimulatorGame) -> u64 {
    let h = g.state.hands;
    (h[0] | h[1] | h[2] | h[3]) & !h[g.state.current_player as int]
}

/// The members of the union of four hands.
proof fn lemma_union4(h: [u64; 4], c: int)
    ensures
        mem(h[0] | h[1] | h[2] | h[3], c) == (mem(h[0], c) || mem(h[1], c) || mem(h[2], c) || mem(h[3], c)),
{
    lemma_has_or(h[0], h[1], c);
    lemma_has_or(h[0] | h[1], h[2], c);
    lemma_has_or(h[0] | h[1] | h[2], h[3], c);
}

/// Counting and scoring four pairwise disjoint hands through their union.
proof fn lemma_union4_sums(h: [u64; 4])
    requires
        forall|i: int, j: int, c: int| 0 <= i < 4 && 0 <= j < 4 && i != j && #[trigger] mem(h[i], c)
            ==> !#[trigger] mem(h[j], c),
    ensures
        count(h[0] | h[1] | h[2] | h[3]) == count(h[0]) + count(h[1]) + count(h[2]) + count(h[3]),
        crate::engine::mask_points(h[0] | h[1] | h[2] | h[3]) == crate::engine::mask_points(h[0])
            + crate::engine::mask_points(h[1]) + crate::engine::mask_points(h[2]) + crate::engine::mask_points(h[3]),
{
    let a = h[0] | h[1];
    let b = a | h[2];
    assert forall|c: int| 0 <= c < 64 implies !(mem(h[0], c) && mem(h[1], c)) by {}
    assert forall|c: int| 0 <= c < 64 implies !(mem(a, c) && mem(h[2], c)) by {
        lemma_has_or(h[0], h[1], c);
    }
    assert forall|c: int| 0 <= c < 64 implies !(mem(b, c) && mem(h[3], c)) by {
        lemma_has_or(h[0], h[1], c);
        lemma_has_or(a, h[2], c);
    }
    crate::engine::lemma_disjoint_union(h[0], h[1], 64);
    crate::engine::lemma_disjoint_union(a, h[2], 64);
    crate::engine::lemma_disjoint_union(b, h[3], 64);
    crate::engine::lemma_disjoint_union(h[0], h[1], 40);
    crate::engine::lemma_disjoint_union(a, h[2], 40);
    crate::engine::lemma_disjoint_union(b, h[3], 40);
}

/// Determinizing keeps a game consistent: replacing the hidden hands of a consistent
/// game by a world sampled from its hidden cards, each other hand sized as before,
/// gives a consistent game again.
pub proof fn lemma_determinized_wf(g: SuecaSimulatorGame, unknown: Seq<u8>, target_sizes: [u8; 4], h: [u64; 4])
    requires
        g.wf(),
        lists(unknown, hidden_mask(g)),
        forall|p: int| 0 <= p < 4 ==> #[trigger] target_sizes[p] == count(g.state.hands[p]),
        consistent_world(g.state.current_player as int, g.state.hands[g.state.current_player as int],
            unknown, g.voids, target_sizes, h),
    ensures
        with_hands(g, h).wf(),
{
    let me = g.state.current_player as int;
    let old_h = g.state.hands;
    let st = g.state;
    let nst = with_hands(g, h).state;
    let v = old_h[0] | old_h[1] | old_h[2] | old_h[3];
    let w = h[0] | h[1] | h[2] | h[3];
    // The hidden cards are the cards of the other hands.
    assert forall|c: int| #[trigger] mem(hidden_mask(g), c) == (mem(v, c) && !mem(old_h[me], c)) by {
        lemma_has_and_not(v, old_h[me], c);
    }
    // Both deals hold the same cards.
    assert forall|c: int| 0 <= c < 64 implies mem(w, c) == mem(v, c) by {
        lemma_union4(h, c);
        lemma_union4(old_h, c);
        if mem(v, c) && !mem(old_h[me], c) {
            assert(mem(hidden_mask(g), c));
            let k = choose|k: int| 0 <= k < unknown.len() && unknown[k] == c;
            assert(dealt(h, unknown[k] as int));
        }
        if exists|p: int| 0 <= p < 4 && p != me && #[trigger] mem(h[p], c) {
            let p = choose|p: int| 0 <= p < 4 && p != me && #[trigger] mem(h[p], c);
            assert(among(unknown, 0, c));
            let k = choose|k: int| 0 <= k < unknown.len() && #[trigger] unknown[k] == c;
            assert(mem(hidden_mask(g), unknown[k] as int));
        }
    }
    crate::bits::lemma_ext(w, v);
    lemma_union4_sums(old_h);
    lemma_union4_sums(h);
    // Every hand keeps its size.
    assert forall|p: int| 0 <= p < 4 implies count(#[trigger] h[p]) == count(old_h[p]) by {
        assert(count(h[0]) <= count(old_h[0]) || me == 0);
        assert(count(h[1]) <= count(old_h[1]) || me == 1);
        assert(count(h[2]) <= count(old_h[2]) || me == 2);
        assert(count(h[3]) <= count(old_h[3]) || me == 3);
    }
    // Every new hand lies in the deck.
    assert forall|p: int| 0 <= p < 4 implies in_deck(#[trigger] h[p]) by {
        assert forall|c: int| mem(h[p], c) implies c < 40 by {
            lemma_union4(h, c);
            lemma_union4(old_h, c);
            assert(mem(w, c));
            assert(mem(v, c));
            assert(in_deck(old_h[0]) && in_deck(old_h[1]) && in_deck(old_h[2]) && in_deck(old_h[3]));
        }
    }
    assert(nst.hand_points() == st.hand_points());
    assert forall|i: int| 0 <= i < 4 implies count(#[trigger] nst.hands[i]) == nst.expected_hand_size(i) by {
        assert(count(st.hands[i]) == st.expected_hand_size(i));
    }
    assert(nst.valid(g.trick_points));
    // Recorded voids stay true.
    assert forall|p: int, s: int| 0 <= p < 4 && #[trigger] void_bit(g.voids[p], s)
        implies !crate::engine::holds_suit(h[p], s) by {
        if p == me {
            assert(!crate::engine::holds_suit(old_h[p], s));
        } else if crate::engine::holds_suit(h[p], s) {
            let c = choose|c: int| mem(h[p], c) && c / 10 == s;
            assert(!void_bit(g.voids[p], suit_of(c)));
        }
    }
}

/// The live deal is itself a world consistent with what the seat to play knows.
pub proof fn lemma_live_world_consistent(g: SuecaSimulatorGame, unknown: Seq<u8>, target_sizes: [u8; 4])
    requires
        g.wf(),
        lists(unknown, hidden_mask(g)),
        forall|p: int| 0 <= p < 4 ==> #[trigger] target_sizes[p] == count(g.state.hands[p]),
    ensures
        consistent_world(g.state.current_player as int, g.state.hands[g.state.current_player as int],
            unknown, g.voids, target_sizes, g.state.hands),
{
    let me = g.state.current_player as int;
    let h = g.state.hands;
    let v = h[0] | h[1] | h[2] | h[3];
    assert forall|c: int| #[trigger] mem(hidden_mask(g), c) == (mem(v, c) && !mem(h[me], c)) by {
        lemma_has_and_not(v, h[me], c);
    }
    assert forall|p: int, c: int| 0 <= p < 4 && p != me && #[trigger] mem(h[p], c) implies among(unknown, 0, c)
        && !void_bit(g.voids[p], suit_of(c)) by {
        lemma_union4(h, c);
        assert(mem(hidden_mask(g), c));
        let k = choose|k: int| 0 <= k < unknown.len() && unknown[k] == c;
        assert(unknown[k] == c);
        if void_bit(g.voids[p], suit_of(c)) {
            assert(crate::engine::holds_suit(h[p], suit_of(c)));
        }
    }
    assert forall|k: int| 0 <= k < unknown.len() implies dealt(h, #[trigger] unknown[k] as int) by {
        assert(mem(hidden_mask(g), unknown[k] as int));
        lemma_union4(h, unknown[k] as int);
    }
}

/// The list of cards of a game not held by the seat to play.
pub fn hidden_cards(game: &SuecaSimulatorGame) -> (pool: Vec<u8>)
    requires
        game.state.current_player < 4,
    ensures
        lists(pool@, hidden_mask(*game)),
{
    let h = game.state.hands;
    let all_hands = h[0] | h[1] | h[2] | h[3];
    cards_of(all_hands & !h[game.state.current_player as usize])
}

/// The number of cards in each hand.
pub fn hand_sizes(game: &SuecaSimulatorGame) -> (sizes: [u8; 4])
    requires
        game.wf(),
    ensures
        forall|p: int| 0 <= p < 4 ==> #[trigger] sizes[p] == count(game.state.hands[p]),
{
    let mut sizes: [u8; 4] = [0; 4];
    let mut i: usize = 0;
    while i < 4
        invariant
            i <= 4,
            game.wf(),
            forall|p: int| 0 <= p < i ==> #[trigger] sizes[p] == count(game.state.hands[p]),
        decreases 4 - i,
    {
        proof {
            assert(count(game.state.hands[i as int]) == game.state.expected_hand_size(i as int));
        }
        sizes[i] = crate::bits::popcount(game.state.hands[i]) as u8;
        i = i + 1;
    }
    sizes
}

/// `post` is reached from `g` by `n` plays, each the Elite choice of the seat to play.
pub open spec fn elite_reaches(g: SuecaSimulatorGame, post: SuecaSimulatorGame, n: nat) -> bool
    decreases n,
{
    if n == 0 {
        post == g
    } else {
        exists|c: int, mid: SuecaSimulatorGame| #[trigger] mid.plays_to(c, post) && elite_reaches(g, mid, (n - 1) as nat)
            && elite_choice(mid, mid.state.current_player as int, c)
    }
}

/// The points team `team` (0 for seats 0 and 2, 1 for seats 1 and 3) has won.
pub open spec fn team_score(st: GameState, team: int) -> int {
    if team == 0 {
        st.team_02_score as int
    } else {
        st.team_13_score as int
    }
}

/// `score` is what team `team` ends with when, in `g`, the seat to play plays `card`
/// and Elite then plays every seat to the end of the deal.
pub open spec fn elite_rollout_score(g: SuecaSimulatorGame, card: int, team: int, score: int) -> bool {
    exists|first: SuecaSimulatorGame, post: SuecaSimulatorGame, n: nat|
        #[trigger] g.plays_to(card, first) && #[trigger] elite_reaches(first, post, n)
            && post.state.trick_number >= 10 && post.wf() && score == team_score(post.state, team)
}

/// A rollout scores the card points won by the seats of parity `team` at the end of the
/// deal: for team 0 the points of seats 0 and 2, for team 1 those of seats 1 and 3. The
/// deal is over and its 120 points are shared by the two sides, so the score of one side
/// is 120 less the score of the other.
pub proof fn lemma_rollout_score_is_team_points(g: SuecaSimulatorGame, card: int, team: int, score: int)
    requires
        elite_rollout_score(g, card, team, score),
    ensures
        exists|first: SuecaSimulatorGame, post: SuecaSimulatorGame, n: nat| {
            &&& #[trigger] g.plays_to(card, first)
            &&& #[trigger] elite_reaches(first, post, n)
            &&& post.state.trick_number == 10
            &&& post.state.team_02_score + post.state.team_13_score == 120
            &&& team == 0 ==> score == post.state.team_02_score
            &&& team != 0 ==> score == post.state.team_13_score
            &&& team != 0 ==> score == 120 - post.state.team_02_score
        },
{
    let (first, post, n) = choose|first: SuecaSimulatorGame, post: SuecaSimulatorGame, n: nat|
        #[trigger] g.plays_to(card, first) && #[trigger] elite_reaches(first, post, n)
            && post.state.trick_number >= 10 && post.wf() && score == team_score(post.state, team);
    post.state.lemma_valid_terminal(post.trick_points);
    assert(g.plays_to(card, first) && elite_reaches(first, post, n));
}

/// Plays `card` for the seat to play, then Elite for every seat to the end; the final
/// score of team `team`.
pub fn elite_rollout(game: &SuecaSimulatorGame, card: u8, team: u8) -> (score: u8)
    requires
        game.wf(),
        game.state.trick_number < 10,
        game.state.is_legal(card as int),
    ensures
        elite_rollout_score(*game, card as int, team as int, score as int),
{
    let mut g = *game;
    proof {
        game.lemma_legal_can_play(card as int);
    }
    g.play_card(card);
    proof {
        game.lemma_play_keeps_wf(card as int, g);
    }
    let ghost first = g;
    let ghost mut n: nat = 0;
    while g.state.trick_number < 10
        invariant
            g.wf(),
            elite_reaches(first, g, n),
        decreases 40 - 4 * g.state.trick_number - g.state.cards_played_in_trick,
    {
        let s = g.state.current_player;
        let c = select_card_heuristic(&g, s);
        let ghost mid = g;
        proof {
            g.lemma_legal_can_play(c as int);
        }
        g.play_card(c);
        proof {
            mid.lemma_play_keeps_wf(c as int, g);
            n = n + 1;
            assert(mid.plays_to(c as int, g));
            assert(elite_reaches(first, g, n));
        }
    }
    if team == 0 {
        g.state.team_02_score
    } else {
        g.state.team_13_score
    }
}

/// One world of a rollout evaluation: samples the hidden hands for world `world_idx`
/// (up to ten tries; the live deal shows a world exists, so sampling succeeds, and the
/// world is the one `sample_world` draws from the world's seed) and, for
/// each move, plays it and lets Elite finish the deal in that world, scoring the team of
/// the seat to play.
pub fn rollout_world(
    game: &SuecaSimulatorGame,
    moves: &[u8],
    unknown: &[u8],
    target_sizes: [u8; 4],
    seed: u64,
    world_idx: u64,
) -> (scores: Vec<u8>)
    requires
        game.wf(),
        game.state.trick_number < 10,
        forall|k: int| 0 <= k < moves@.len() ==> game.state.is_legal(#[trigger] moves@[k] as int),
        lists(unknown@, hidden_mask(*game)),
        forall|p: int| 0 <= p < 4 ==> #[trigger] target_sizes[p] == count(game.state.hands[p]),
        world_idx < u64::MAX,
    ensures
        scores@.len() == moves@.len(),
        exists|h: [u64; 4]| {
            &&& #[trigger] consistent_world(game.state.current_player as int,
                game.state.hands[game.state.current_player as int], unknown@, game.voids, target_sizes, h)
            &&& first_fill(world_order(unknown@, game.voids, game.state.current_player as int, world_seed_spec(seed, world_idx)),
                0, game.voids, room_of(target_sizes).update(game.state.current_player as int, 0),
                only_my_hand(game.state.current_player as int, game.state.hands[game.state.current_player as int])) == Some(h)
            &&& forall|k: int| 0 <= k < moves@.len() ==> elite_rollout_score(with_hands(*game, h),
                #[trigger] moves@[k] as int, (game.state.current_player % 2) as int, scores@[k] as int)
        },
{
    let my_seat = game.state.current_player;
    let my_hand = game.state.hands[my_seat as usize];
    let ego_team = my_seat % 2;
    proof {
        let u = unknown@;
        assert forall|k: int| 0 <= k < u.len() implies #[trigger] u[k] < 40 && !mem(my_hand, u[k] as int) by {
            assert(mem(hidden_mask(*game), u[k] as int));
            let hh = game.state.hands;
            lemma_has_and_not(hh[0] | hh[1] | hh[2] | hh[3], my_hand, u[k] as int);
            lemma_union4(hh, u[k] as int);
            assert(in_deck(hh[0]) && in_deck(hh[1]) && in_deck(hh[2]) && in_deck(hh[3]));
        }
        assert(u.len() <= 40) by {
            if u.len() > 40 {
                // Forty-one increasing cards below 40 cannot exist.
                lemma_increasing_bound(u);
            }
        }
    }
    let mut local_hands: [u64; 4] = [0; 4];
    let found = sample_world_retrying(my_seat, my_hand, unknown, game.voids, target_sizes, seed, world_idx, &mut local_hands);
    proof {
        lemma_live_world_consistent(*game, unknown@, target_sizes);
        assert(found);
    }
    let mut g = *game;
    g.state.hands = local_hands;
    proof {
        assert(g == with_hands(*game, local_hands));
        lemma_determinized_wf(*game, unknown@, target_sizes, local_hands);
    }
    let mut scores: Vec<u8> = Vec::new();
    let mut i: usize = 0;
    while i < moves.len()
        invariant
            i <= moves@.len(),
            scores@.len() == i,
            g == with_hands(*game, local_hands),
            g.wf(),
            g.state.trick_number < 10,
            my_seat == game.state.current_player,
            ego_team == my_seat % 2,
            local_hands[my_seat as int] == game.state.hands[my_seat as int],
            forall|k: int| 0 <= k < moves@.len() ==> game.state.is_legal(#[trigger] moves@[k] as int),
            forall|k: int| 0 <= k < i ==> elite_rollout_score(g, #[trigger] moves@[k] as int, ego_team as int, scores@[k] as int),
        decreases moves@.len() - i,
    {
        let m = moves[i];
        proof {
            assert(game.state.is_legal(m as int));
            assert(g.state.to_play_hand() == game.state.to_play_hand());
        }
        let score = elite_rollout(&g, m, ego_team);
        scores.push(score);
        i = i + 1;
    }
    scores
}

/// A strictly increasing list of cards below 40 has at most 40 entries.
proof fn lemma_increasing_bound(u: Seq<u8>)
    requires
        forall|k: int| 0 <= k < u.len() ==> #[trigger] u[k] < 40,
        forall|j: int, k: int| 0 <= j < k < u.len() ==> #[trigger] u[j] < #[trigger] u[k],
    ensures
        u.len() <= 40,
{
    if u.len() > 40 {
        assert forall|k: int| 0 <= k < u.len() implies #[trigger] u[k] >= k by {
            lemma_increasing_at_least(u, k);
        }
        assert(u[40] >= 40);
    }
}

proof fn lemma_increasing_at_least(u: Seq<u8>, k: int)
    requires
        0 <= k < u.len(),
        forall|j: int, k: int| 0 <= j < k < u.len() ==> #[trigger] u[j] < #[trigger] u[k],
    ensures
        u[k] >= k,
    decreases k,
{
    if k > 0 {
        lemma_increasing_at_least(u, k - 1);
        assert(u[k - 1] < u[k]);
    }
}


/// The number of entries of `s` that are members of `m`.
pub open spec fn held(s: Seq<u8>, m: u64) -> nat
    decreases s.len(),
{
    if s.len() == 0 {
        0
    } else {
        (if mem(m, s[0] as int) { 1nat } else { 0nat }) + held(s.drop_first(), m)
    }
}

/// Masks agreeing on the entries of `s` hold as many of them.
proof fn lemma_held_agree(s: Seq<u8>, m1: u64, m2: u64)
    requires
        forall|k: int| 0 <= k < s.len() ==> mem(m1, #[trigger] s[k] as int) == mem(m2, s[k] as int),
    ensures
        held(s, m1) == held(s, m2),
    decreases s.len(),
{
    if s.len() > 0 {
        assert forall|k: int| 0 <= k < s.drop_first().len() implies mem(m1, #[trigger] s.drop_first()[k] as int)
            == mem(m2, s.drop_first()[k] as int) by {
            assert(s.drop_first()[k] == s[k + 1]);
        }
        lemma_held_agree(s.drop_first(), m1, m2);
    }
}

/// A list of distinct cards that contains every member of `m` holds `count(m)` of them.
proof fn lemma_held_count(s: Seq<u8>, m: u64)
    requires
        s.no_duplicates(),
        forall|c: int| #[trigger] mem(m, c) ==> s.contains(c as u8),
    ensures
        held(s, m) == count(m),
    decreases s.len(),
{
    if s.len() == 0 {
        assert forall|c: int| 0 <= c < 64 implies !mem(m, c) by {
            if mem(m, c) {
                assert(s.contains(c as u8));
            }
        }
        crate::bits::lemma_count_below_zero(m, 64);
    } else {
        let x = s[0];
        let t = s.drop_first();
        assert(t.no_duplicates()) by {
            assert forall|i: int, j: int| 0 <= i < t.len() && 0 <= j < t.len() && i != j implies t[i] != t[j] by {
                assert(t[i] == s[i + 1] && t[j] == s[j + 1]);
            }
        }
        assert(!t.contains(x)) by {
            if t.contains(x) {
                let j = choose|j: int| 0 <= j < t.len() && t[j] == x;
                assert(s[j + 1] == s[0]);
            }
        }
        if mem(m, x as int) {
            let m2 = m & !single_spec(x);
            assert forall|c: int| #[trigger] mem(m2, c) == (mem(m, c) && c != x) by {
                lemma_has_and_not(m, single_spec(x), c);
                lemma_has_single(x as u64, c);
            }
            assert forall|c: int| #[trigger] mem(m2, c) implies t.contains(c as u8) by {
                assert(s.contains(c as u8));
                let k = choose|k: int| 0 <= k < s.len() && s[k] == c as u8;
                assert(k != 0);
                assert(t[k - 1] == s[k]);
            }
            lemma_held_count(t, m2);
            assert forall|k: int| 0 <= k < t.len() implies mem(m, #[trigger] t[k] as int) == mem(m2, t[k] as int) by {
                assert(t[k] != x) by {
                    assert(t.contains(t[k]));
                }
            }
            lemma_held_agree(t, m, m2);
            lemma_count_below_remove(m2, m, x as int, 64);
        } else {
            assert forall|c: int| #[trigger] mem(m, c) implies t.contains(c as u8) by {
                assert(s.contains(c as u8));
                let k = choose|k: int| 0 <= k < s.len() && s[k] == c as u8;
                assert(k != 0);
                assert(t[k - 1] == s[k]);
            }
            lemma_held_count(t, m);
        }
    }
}

/// Card `c` is held by a seat other than `me` that is not void in its suit.
pub open spec fn held_elsewhere(h: [u64; 4], voids: [u8; 4], me: int, c: int) -> bool {
    exists|p: int| 0 <= p < 4 && p != me && #[trigger] mem(h[p], c) && !void_bit(voids[p], suit_of(c))
}

/// If every card of `order[idx..]` is held by a seat other than `me` that is not void
/// in its suit, and no seat holds more of them than its room, the cards can be dealt.
proof fn lemma_world_completable(order: Seq<u8>, idx: int, voids: [u8; 4], room: Seq<int>, h: [u64; 4], me: int)
    requires
        0 <= idx <= order.len(),
        0 <= me < 4,
        room.len() == 4,
        forall|k: int| idx <= k < order.len() ==> held_elsewhere(h, voids, me, #[trigger] order[k] as int),
        forall|p: int| 0 <= p < 4 && p != me ==> held(order.subrange(idx, order.len() as int), h[p]) <= #[trigger] room[p],
    ensures
        completable(order, idx, voids, room),
    decreases order.len() - idx,
{
    if idx < order.len() {
        let c = order[idx];
        let p = choose|p: int| 0 <= p < 4 && p != me && #[trigger] mem(h[p], c as int) && !void_bit(voids[p], suit_of(c as int));
        let sub = order.subrange(idx, order.len() as int);
        let next = order.subrange(idx + 1, order.len() as int);
        assert(sub.drop_first() =~= next);
        assert(sub[0] == c);
        let room2 = room.update(p, room[p] - 1);
        assert forall|q: int| 0 <= q < 4 && q != me implies held(next, h[q]) <= #[trigger] room2[q] by {
            assert(held(sub, h[q]) == (if mem(h[q], c as int) { 1nat } else { 0nat }) + held(next, h[q]));
            assert(held(sub, h[q]) <= room[q]);
        }
        assert(held(sub, h[p]) == 1 + held(next, h[p]));
        assert(held(sub, h[p]) <= room[p]);
        assert(placeable(voids, room, p, c));
        lemma_world_completable(order, idx + 1, voids, room2, h, me);
        lemma_completable_unfold(order, idx, voids, room);
    }
}

/// Any world consistent with what is known can be dealt from the unknown cards in any
/// order: the order's cards can be placed one by one with seats that have room.
proof fn lemma_consistent_completable(
    me: int,
    my_hand: u64,
    unk: Seq<u8>,
    voids: [u8; 4],
    target_sizes: [u8; 4],
    h: [u64; 4],
    order: Seq<u8>,
)
    requires
        0 <= me < 4,
        forall|k: int| 0 <= k < unk.len() ==> !mem(my_hand, #[trigger] unk[k] as int),
        consistent_world(me, my_hand, unk, voids, target_sizes, h),
        order.no_duplicates(),
        forall|k: int| 0 <= k < order.len() ==> among(unk, 0, #[trigger] order[k] as int),
        forall|k: int| 0 <= k < unk.len() ==> order.contains(#[trigger] unk[k]),
    ensures
        completable(order, 0, voids, room_of(target_sizes).update(me, 0)),
{
    let room = room_of(target_sizes).update(me, 0);
    assert forall|k: int| 0 <= k < order.len() implies held_elsewhere(h, voids, me, #[trigger] order[k] as int) by {
        let c = order[k] as int;
        let j = choose|j: int| 0 <= j < unk.len() && #[trigger] unk[j] == c;
        assert(dealt(h, unk[j] as int));
        let p = choose|p: int| 0 <= p < 4 && #[trigger] mem(h[p], unk[j] as int);
        assert(p != me) by {
            if p == me {
                assert(!mem(my_hand, unk[j] as int));
            }
        }
    }
    assert(order.subrange(0, order.len() as int) =~= order);
    assert forall|p: int| 0 <= p < 4 && p != me implies held(order.subrange(0, order.len() as int), h[p]) <= #[trigger] room[p] by {
        assert forall|c: int| #[trigger] mem(h[p], c) implies order.contains(c as u8) by {
            assert(among(unk, 0, c));
            let j = choose|j: int| 0 <= j < unk.len() && #[trigger] unk[j] == c;
            assert(order.contains(unk[j]));
        }
        lemma_held_count(order, h[p]);
    }
    lemma_world_completable(order, 0, voids, room, h, me);
}

/// The number of cards of suit `s` among `cards[idx..]`.
pub open spec fn suit_count_from(cards: Seq<u8>, s: int, idx: int) -> nat
    decreases cards.len() - idx,
{
    if idx >= cards.len() || idx < 0 {
        0
    } else {
        (if suit_of(cards[idx] as int) == s { 1nat } else { 0nat }) + suit_count_from(cards, s, idx + 1)
    }
}

/// The room the seats not void in `s` have.
pub open spec fn room_capacity(voids: [u8; 4], room: Seq<int>, s: int) -> int {
    (if !void_bit(voids[0], s) { room[0] } else { 0 }) + (if !void_bit(voids[1], s) { room[1] } else { 0 })
        + (if !void_bit(voids[2], s) { room[2] } else { 0 }) + (if !void_bit(voids[3], s) { room[3] } else { 0 })
}

/// Cards that can be dealt fit, suit by suit, in the room of the seats not void in it.
proof fn lemma_completable_capacity(cards: Seq<u8>, idx: int, voids: [u8; 4], room: Seq<int>, s: int)
    requires
        0 <= idx <= cards.len(),
        room.len() == 4,
        forall|p: int| 0 <= p < 4 ==> #[trigger] room[p] >= 0,
        completable(cards, idx, voids, room),
    ensures
        suit_count_from(cards, s, idx) <= room_capacity(voids, room, s),
    decreases cards.len() - idx,
{
    if idx < cards.len() {
        lemma_completable_unfold(cards, idx, voids, room);
        let p = choose|p: int| 0 <= p < 4 && placeable(voids, room, p, cards[idx])
            && #[trigger] completable(cards, idx + 1, voids, room.update(p, room[p] - 1));
        let room2 = room.update(p, room[p] - 1);
        lemma_completable_capacity(cards, idx + 1, voids, room2, s);
    }
}

/// The count of a suit over the whole list splits at any point.
proof fn lemma_suit_count_split(cards: Seq<u8>, s: int, n: int)
    requires
        0 <= n <= cards.len(),
    ensures
        suit_count(cards, s, n) + suit_count_from(cards, s, n) == suit_count(cards, s, cards.len() as int),
    decreases cards.len() - n,
{
    if n < cards.len() {
        lemma_suit_count_split(cards, s, n + 1);
    }
}

/// When the quick check fails, no world is consistent with what is known: some suit has
/// more unknown cards than the other seats not void in it have room for.
pub proof fn lemma_infeasible_no_world(
    me: int,
    my_hand: u64,
    unk: Seq<u8>,
    voids: [u8; 4],
    target_sizes: [u8; 4],
    h: [u64; 4],
)
    requires
        0 <= me < 4,
        distinct_cards(unk),
        forall|k: int| 0 <= k < unk.len() ==> !mem(my_hand, #[trigger] unk[k] as int),
        !feasible(unk, voids, target_sizes, me),
    ensures
        !consistent_world(me, my_hand, unk, voids, target_sizes, h),
{
    if consistent_world(me, my_hand, unk, voids, target_sizes, h) {
        assert forall|k: int| 0 <= k < unk.len() implies among(unk, 0, #[trigger] unk[k] as int) by {}
        assert forall|k: int| 0 <= k < unk.len() implies unk.contains(#[trigger] unk[k]) by {}
        assert(unk.no_duplicates());
        lemma_consistent_completable(me, my_hand, unk, voids, target_sizes, h, unk);
        let room = room_of(target_sizes).update(me, 0);
        let s = choose|s: int| 0 <= s < 4 && !(suit_count(unk, s, unk.len() as int) <= #[trigger] suit_capacity(voids, target_sizes, me, s));
        lemma_completable_capacity(unk, 0, voids, room, s);
        lemma_suit_count_split(unk, s, 0);
        assert(room_capacity(voids, room, s) == suit_capacity(voids, target_sizes, me, s));
    }
}
} // verus!
