//! Random deals: a shuffled 40-card deck dealt ten cards to each seat, and a trump suit.
use rand::seq::SliceRandom;
use rand::{Rng, SeedableRng};
use vstd::prelude::*;
use crate::bits::{count, in_deck, lemma_count_below_remove, lemma_has_or, lemma_has_zero, mem, single};
use crate::engine::is_deal;
use crate::evaluator::EvaluatorDeal;
use crate::rng::{lcg_steps, LcgRng};

verus! {

/// The deck and the draw that `rand_pcg::Pcg64` seeded with `seed` gives: `deck`
/// shuffled by `SliceRandom::shuffle`, then a number drawn by `Rng::gen_range(0..4)`.
pub uninterp spec fn pcg_shuffle_and_draw(seed: u64, deck: Seq<u8>) -> (Seq<u8>, i32);

/// `Pcg64::seed_from_u64(seed)`, then `SliceRandom::shuffle` of `deck` and
/// `Rng::gen_range(0..4)` on `i32`, both on that one generator. A generator seeded this
/// way is a function of the seed, so what comes out is a function of the seed and the
/// deck (`pcg_shuffle_and_draw`). The shuffle only swaps cards, so the same cards come
/// out, each as often as it went in; the draw lies in `0..4`. Which order and which
/// number are left to the name.
#[verifier::external_body]
fn pcg_shuffled_with_trump(seed: u64, deck: Vec<u8>) -> (r: (Vec<u8>, i32))
    ensures
        (r.0@, r.1) == pcg_shuffle_and_draw(seed, deck@),
        r.0@.to_multiset() == deck@.to_multiset(),
        0 <= r.1 < 4,
{
    let mut rng = rand_pcg::Pcg64::seed_from_u64(seed);
    let mut shuffled = deck;
    shuffled.shuffle(&mut rng);
    let draw = rng.gen_range(0i32..4i32);
    (shuffled, draw)
}

/// The deck in card order.
pub open spec fn ordered_deck() -> Seq<u8> {
    Seq::new(40, |i: int| i as u8)
}

/// `deck` holds each of the 40 cards once.
pub open spec fn is_full_deck(deck: Seq<u8>) -> bool {
    deck.to_multiset() == ordered_deck().to_multiset()
}

/// A reordered deck has 40 distinct cards of the deck, and every card.
proof fn lemma_full_deck(deck: Seq<u8>)
    requires
        is_full_deck(deck),
    ensures
        deck.len() == 40,
        deck.no_duplicates(),
        forall|k: int| 0 <= k < 40 ==> #[trigger] deck[k] < 40,
        forall|c: u8| c < 40 ==> deck.contains(c),
{
    broadcast use {vstd::seq_lib::group_to_multiset_ensures, vstd::multiset::group_multiset_axioms};

    let o = ordered_deck();
    assert(o.no_duplicates());
    o.lemma_multiset_has_no_duplicates();
    deck.lemma_multiset_has_no_duplicates_conv();
    assert(o.len() == o.to_multiset().len());
    assert(deck.len() == deck.to_multiset().len());
    assert forall|k: int| 0 <= k < 40 implies #[trigger] deck[k] < 40 by {
        assert(deck.contains(deck[k]));
        assert(deck.to_multiset().count(deck[k]) > 0);
        assert(o.to_multiset().count(deck[k]) > 0);
        assert(o.contains(deck[k]));
    }
    assert forall|c: u8| c < 40 implies deck.contains(c) by {
        assert(o[c as int] == c);
        assert(o.contains(c));
        assert(o.to_multiset().count(c) > 0);
    }
}

/// Swapping two positions keeps every card.
proof fn lemma_swap_keeps_cards(d: Seq<u8>, i: int, j: int)
    requires
        0 <= i < d.len(),
        0 <= j < d.len(),
    ensures
        d.update(i, d[j]).update(j, d[i]).to_multiset() == d.to_multiset(),
{
    broadcast use vstd::multiset::group_multiset_axioms;

    let d1 = d.update(i, d[j]);
    let d2 = d1.update(j, d[i]);
    let m = d.to_multiset();
    vstd::seq_lib::to_multiset_update(d, i, d[j]);
    vstd::seq_lib::to_multiset_update(d1, j, d[i]);
    vstd::seq_lib::to_multiset_contains(d, d[i]);
    assert(d.contains(d[i])) by {
        assert(d[i] == d[i]);
    }
    if i == j {
        assert(d2 =~= d);
    } else {
        assert(d1[j] == d[j]);
        assert(d2.to_multiset() == m.insert(d[j]).remove(d[i]).insert(d[i]).remove(d[j]));
        assert(m.count(d[i]) > 0);
        assert(m.insert(d[j]).remove(d[i]).insert(d[i]).remove(d[j]) =~= m);
    }
}

/// Seat `p` holds exactly the cards at positions `10 * p .. 10 * p + 10` of `deck`.
pub open spec fn dealt_from(deck: Seq<u8>, hands: [u64; 4]) -> bool {
    forall|p: int, c: int| 0 <= p < 4 ==> (#[trigger] mem(hands[p], c) <==> exists|k: int|
        10 * p <= k < 10 * p + 10 && deck[k] == c)
}

/// Deals `deck` ten cards to a seat, in seat order.
fn deal_from_deck(deck: &Vec<u8>) -> (hands: [u64; 4])
    requires
        is_full_deck(deck@),
    ensures
        dealt_from(deck@, hands),
        is_deal(hands),
{
    let ghost d = deck@;
    proof {
        lemma_full_deck(d);
    }
    let mut hands = [0u64; 4];
    let mut player: usize = 0;
    while player < 4
        invariant
            player <= 4,
            d == deck@,
            d.len() == 40,
            d.no_duplicates(),
            forall|k: int| 0 <= k < 40 ==> #[trigger] d[k] < 40,
            forall|p: int, c: int| 0 <= p < player ==> (#[trigger] mem(hands[p], c) <==> exists|k: int|
                10 * p <= k < 10 * p + 10 && d[k] == c),
            forall|p: int| 0 <= p < player ==> count(#[trigger] hands[p]) == 10,
            forall|p: int| player <= p < 4 ==> #[trigger] hands[p] == 0,
        decreases 4 - player,
    {
        let mut card_idx: usize = 0;
        proof {
            crate::bits::lemma_count_below_zero(hands[player as int], 64);
            assert forall|c: int| 0 <= c < 64 implies !mem(hands[player as int], c) by {
                lemma_has_zero(c);
            }
        }
        while card_idx < 10
            invariant
                player < 4,
                card_idx <= 10,
                d == deck@,
                d.len() == 40,
                d.no_duplicates(),
                forall|k: int| 0 <= k < 40 ==> #[trigger] d[k] < 40,
                forall|p: int, c: int| 0 <= p < player ==> (#[trigger] mem(hands[p], c) <==> exists|k: int|
                    10 * p <= k < 10 * p + 10 && d[k] == c),
                forall|p: int| 0 <= p < player ==> count(#[trigger] hands[p]) == 10,
                forall|p: int| player < p < 4 ==> #[trigger] hands[p] == 0,
                forall|c: int| #[trigger] mem(hands[player as int], c) <==> exists|k: int|
                    10 * player <= k < 10 * player + card_idx && d[k] == c,
                count(hands[player as int]) == card_idx,
            decreases 10 - card_idx,
        {
            let card = deck[player * 10 + card_idx];
            let ghost before = hands[player as int];
            let bit = single(card);
            hands[player] = hands[player] | bit;
            proof {
                let kk = (player * 10 + card_idx) as int;
                assert forall|c: int| #[trigger] mem(hands[player as int], c) == (mem(before, c) || c == card) by {
                    lemma_has_or(before, bit, c);
                }
                assert(!mem(before, card as int)) by {
                    if mem(before, card as int) {
                        let k = choose|k: int| 10 * player <= k < 10 * player + card_idx && d[k] == card;
                        assert(d[k] == d[kk]);
                    }
                }
                lemma_count_below_remove(before, hands[player as int], card as int, 64);
                assert forall|c: int| #[trigger] mem(hands[player as int], c) <==> exists|k: int|
                    10 * player <= k < 10 * player + card_idx + 1 && d[k] == c by {
                    if c == card {
                        assert(d[kk] == c);
                    }
                    if exists|k: int| 10 * player <= k < 10 * player + card_idx + 1 && d[k] == c {
                        let k = choose|k: int| 10 * player <= k < 10 * player + card_idx + 1 && d[k] == c;
                        if k < kk {
                            assert(mem(before, c));
                        }
                    }
                }
            }
            card_idx = card_idx + 1;
        }
        player = player + 1;
    }
    proof {
        assert forall|p: int| 0 <= p < 4 implies in_deck(#[trigger] hands[p]) && count(hands[p]) == 10 by {
            assert forall|c: int| mem(hands[p], c) implies c < 40 by {
                let k = choose|k: int| 10 * p <= k < 10 * p + 10 && d[k] == c;
            }
        }
        assert forall|i: int, j: int, c: int| 0 <= i < 4 && 0 <= j < 4 && i != j && #[trigger] mem(hands[i], c)
            implies !#[trigger] mem(hands[j], c) by {
            let ki = choose|k: int| 10 * i <= k < 10 * i + 10 && d[k] == c;
            if mem(hands[j], c) {
                let kj = choose|k: int| 10 * j <= k < 10 * j + 10 && d[k] == c;
                assert(ki != kj);
            }
        }
    }
    hands
}

/// Exchanges the cards at positions `i` and `j`.
fn swap_cards(deck: &mut Vec<u8>, i: usize, j: usize)
    requires
        i < old(deck)@.len(),
        j < old(deck)@.len(),
    ensures
        final(deck)@ == old(deck)@.update(i as int, old(deck)@[j as int]).update(j as int, old(deck)@[i as int]),
        final(deck)@.to_multiset() == old(deck)@.to_multiset(),
{
    let ghost d = deck@;
    let a = deck[i];
    let b = deck[j];
    deck.set(i, b);
    deck.set(j, a);
    proof {
        lemma_swap_keeps_cards(d, i as int, j as int);
        assert(deck@ =~= d.update(i as int, d[j as int]).update(j as int, d[i as int]));
    }
}

/// The deck in card order, as a vector.
fn new_deck() -> (deck: Vec<u8>)
    ensures
        deck@ == ordered_deck(),
{
    let mut deck: Vec<u8> = Vec::new();
    let mut c: u8 = 0;
    while c < 40
        invariant
            c <= 40,
            deck@ == Seq::new(c as nat, |i: int| i as u8),
        decreases 40 - c,
    {
        deck.push(c);
        c = c + 1;
        proof {
            assert(deck@ =~= Seq::new(c as nat, |i: int| i as u8));
        }
    }
    deck
}

/// The deal a PCG generator seeded with `seed` gives: the ordered deck shuffled and dealt
/// ten cards to a seat, and the trump drawn after the shuffle.
pub open spec fn pcg_deal_of(seed: u64, deal: EvaluatorDeal) -> bool {
    &&& dealt_from(pcg_shuffle_and_draw(seed, ordered_deck()).0, deal.hands)
    &&& deal.trump == pcg_shuffle_and_draw(seed, ordered_deck()).1
    &&& deal.seed == seed
}

/// One deal from a generator seeded with `deal_seed`: the shuffled deck dealt ten cards
/// to a seat, then a trump suit drawn from the same generator.
fn pcg_deal(deal_seed: u64) -> (deal: EvaluatorDeal)
    ensures
        is_deal(deal.hands),
        deal.trump < 4,
        pcg_deal_of(deal_seed, deal),
{
    let deck = new_deck();
    let (shuffled, draw) = pcg_shuffled_with_trump(deal_seed, deck);
    let hands = deal_from_deck(&shuffled);
    EvaluatorDeal { hands, trump: draw as u8, seed: deal_seed }
}

/// `n_deals` deals for generation `gen`: deal `i` is drawn from a PCG generator seeded
/// with `(base_seed + gen) * 1000 + i`.
pub fn generate_deals_rust(gen: usize, n_deals: usize, base_seed: u64) -> (deals: Vec<EvaluatorDeal>)
    requires
        (base_seed + gen) * 1000 + n_deals <= u64::MAX,
    ensures
        deals@.len() == n_deals,
        forall|i: int| 0 <= i < n_deals ==> #[trigger] deals@[i].seed == (base_seed + gen) * 1000 + i
            && is_deal(deals@[i].hands) && deals@[i].trump < 4
            && pcg_deal_of(((base_seed + gen) * 1000 + i) as u64, deals@[i]),
{
    let seed = base_seed + gen as u64;
    let mut deals: Vec<EvaluatorDeal> = Vec::new();
    let mut i: usize = 0;
    while i < n_deals
        invariant
            i <= n_deals,
            seed == base_seed + gen,
            seed * 1000 + n_deals <= u64::MAX,
            deals@.len() == i,
            forall|k: int| 0 <= k < i ==> #[trigger] deals@[k].seed == seed * 1000 + k
                && is_deal(deals@[k].hands) && deals@[k].trump < 4 && pcg_deal_of((seed * 1000 + k) as u64, deals@[k]),
        decreases n_deals - i,
    {
        let deal_seed = seed * 1000 + i as u64;
        deals.push(pcg_deal(deal_seed));
        i = i + 1;
    }
    deals
}

/// The frozen probe deals: 64 deals, deal `i` from a PCG generator seeded with
/// `base_seed * 1000 + i`, wrapping at 2^64.
pub fn generate_frozen_probe_deals(base_seed: u64) -> (deals: Vec<EvaluatorDeal>)
    ensures
        deals@.len() == 64,
        forall|i: int| 0 <= i < 64 ==> #[trigger] deals@[i].seed == vstd::wrapping::u64_specs::wrapping_add(
            vstd::wrapping::u64_specs::wrapping_mul(base_seed, 1000), i as u64)
            && is_deal(deals@[i].hands) && deals@[i].trump < 4 && pcg_deal_of(deals@[i].seed, deals@[i]),
{
    let n_deals: usize = 64;
    let mut deals: Vec<EvaluatorDeal> = Vec::new();
    let mut i: usize = 0;
    while i < n_deals
        invariant
            i <= n_deals,
            n_deals == 64,
            deals@.len() == i,
            forall|k: int| 0 <= k < i ==> #[trigger] deals@[k].seed == vstd::wrapping::u64_specs::wrapping_add(
                vstd::wrapping::u64_specs::wrapping_mul(base_seed, 1000), k as u64)
                && is_deal(deals@[k].hands) && deals@[k].trump < 4 && pcg_deal_of(deals@[k].seed, deals@[k]),
        decreases n_deals - i,
    {
        let deal_seed = base_seed.wrapping_mul(1000).wrapping_add(i as u64);
        deals.push(pcg_deal(deal_seed));
        i = i + 1;
    }
    deals
}

/// The deck after the first `n` swaps of a Fisher-Yates shuffle driven by the crate's
/// generator seeded with `seed`: swap `n` exchanges position `40 - n` with a position
/// drawn below it or equal to it.
pub open spec fn lcg_deck(seed: u64, n: nat) -> Seq<u8>
    decreases n,
{
    if n == 0 {
        ordered_deck()
    } else {
        let d = lcg_deck(seed, (n - 1) as nat);
        let idx = 40 - n;
        let j = ((lcg_steps(seed, n) as usize) % ((idx + 1) as usize)) as int;
        d.update(idx, d[j]).update(j, d[idx])
    }
}

/// The swap after `n - 1` swaps is swap `n` of the shuffle.
proof fn lemma_lcg_deck_step(seed: u64, n: nat, j: int)
    requires
        1 <= n <= 39,
        j == ((lcg_steps(seed, n) as usize) % ((40 - n + 1) as usize)) as int,
    ensures
        lcg_deck(seed, n) == lcg_deck(seed, (n - 1) as nat).update(40 - n, lcg_deck(seed, (n - 1) as nat)[j]).update(
            j, lcg_deck(seed, (n - 1) as nat)[40 - n]),
{
}

/// The deck shuffled by the crate's generator seeded with `seed`, which `rng` holds on
/// entry; `rng` ends 39 draws later.
fn lcg_shuffled_deck(seed: u64, rng: &mut LcgRng) -> (deck: Vec<u8>)
    requires
        old(rng)@ == seed,
    ensures
        deck@ == lcg_deck(seed, 39),
        is_full_deck(deck@),
        final(rng)@ == lcg_steps(seed, 39),
{
    let mut deck = new_deck();
    let mut idx: usize = 39;
    while idx >= 1
        invariant
            idx <= 39,
            deck@ == lcg_deck(seed, (39 - idx) as nat),
            deck@.len() == 40,
            is_full_deck(deck@),
            rng@ == lcg_steps(seed, (39 - idx) as nat),
        decreases idx,
    {
        let j = rng.gen_range(0..idx + 1);
        proof {
            lemma_lcg_deck_step(seed, (39 - idx + 1) as nat, j as int);
        }
        swap_cards(&mut deck, idx, j);
        idx = idx - 1;
    }
    deck
}

/// `n_deals` deals for generation `gen` from the crate's own generator: deal `i` is
/// seeded with `(base_seed + gen) * 1000 + i`, its deck shuffled by 39 draws and its
/// trump suit the 40th draw modulo 4.
pub fn generate_deals_rust_solver(gen: u64, n_deals: usize, base_seed: u64) -> (deals: Vec<EvaluatorDeal>)
    requires
        (base_seed + gen) * 1000 + n_deals <= u64::MAX,
    ensures
        deals@.len() == n_deals,
        forall|i: int| 0 <= i < n_deals ==> {
            let s = ((base_seed + gen) * 1000 + i) as u64;
            &&& #[trigger] deals@[i].seed == s
            &&& dealt_from(lcg_deck(s, 39), deals@[i].hands)
            &&& is_deal(deals@[i].hands)
            &&& deals@[i].trump == (lcg_steps(s, 40) as usize % 4) as u8
        },
{
    let seed = base_seed + gen;
    let mut deals: Vec<EvaluatorDeal> = Vec::new();
    let mut i: usize = 0;
    while i < n_deals
        invariant
            i <= n_deals,
            seed == base_seed + gen,
            seed * 1000 + n_deals <= u64::MAX,
            deals@.len() == i,
            forall|k: int| 0 <= k < i ==> {
                let s = (seed * 1000 + k) as u64;
                &&& #[trigger] deals@[k].seed == s
                &&& dealt_from(lcg_deck(s, 39), deals@[k].hands)
                &&& is_deal(deals@[k].hands)
                &&& deals@[k].trump == (lcg_steps(s, 40) as usize % 4) as u8
            },
        decreases n_deals - i,
    {
        let deal_seed = seed * 1000 + i as u64;
        let mut deal_rng = LcgRng::new(deal_seed);
        let deck = lcg_shuffled_deck(deal_seed, &mut deal_rng);
        let hands = deal_from_deck(&deck);
        let trump = deal_rng.gen_range(0..4) as u8;
        deals.push(EvaluatorDeal { hands, trump, seed: deal_seed });
        i = i + 1;
    }
    deals
}

/// The set of cards of the deck among `v`; cards outside the deck are ignored.
pub fn vec_to_mask(v: &[u8]) -> (mask: u64)
    ensures
        forall|c: int| #[trigger] mem(mask, c) <==> 0 <= c < 40 && exists|k: int| 0 <= k < v@.len() && v@[k] == c,
{
    let mut mask: u64 = 0;
    proof {
        assert forall|c: int| !#[trigger] mem(mask, c) by {
            lemma_has_zero(c);
        }
    }
    let mut i: usize = 0;
    while i < v.len()
        invariant
            i <= v@.len(),
            forall|c: int| #[trigger] mem(mask, c) <==> 0 <= c < 40 && exists|k: int| 0 <= k < i && v@[k] == c,
        decreases v@.len() - i,
    {
        let card = v[i];
        let ghost before = mask;
        if card < 40 {
            let bit = single(card);
            mask = mask | bit;
            proof {
                assert forall|c: int| #[trigger] mem(mask, c) == (mem(before, c) || c == card) by {
                    lemma_has_or(before, bit, c);
                }
            }
        }
        proof {
            assert forall|c: int| #[trigger] mem(mask, c) <==> 0 <= c < 40 && exists|k: int| 0 <= k < i + 1 && v@[k] == c by {
                if 0 <= c < 40 && exists|k: int| 0 <= k < i + 1 && v@[k] == c {
                    let k = choose|k: int| 0 <= k < i + 1 && v@[k] == c;
                    if k < i {
                        assert(mem(before, c));
                    }
                }
                if mem(mask, c) && c != card {
                    assert(mem(before, c));
                }
                if c == card && c < 40 {
                    assert(v@[i as int] == c);
                }
            }
        }
        i = i + 1;
    }
    mask
}

} // verus!
