use rand::seq::SliceRandom;
use rand::{Rng, SeedableRng};
use rand_pcg::Pcg64;
use sueca_solver::deals::{generate_deals_rust, generate_deals_rust_solver, generate_frozen_probe_deals, vec_to_mask};
use sueca_solver::rng::LcgRng;

fn assert_valid_deal(hands: &[u64; 4]) {
    let mut all = 0u64;
    for h in hands {
        assert_eq!(h.count_ones(), 10);
        assert_eq!(all & h, 0);
        all |= h;
    }
    assert_eq!(all, 0xFF_FFFF_FFFF);
}

fn pcg_reference(deal_seed: u64) -> ([u64; 4], u8) {
    let mut rng = Pcg64::seed_from_u64(deal_seed);
    let mut deck: Vec<u8> = (0..40).collect();
    deck.shuffle(&mut rng);
    let mut hands = [0u64; 4];
    for p in 0..4 {
        for c in 0..10 {
            hands[p] |= 1u64 << deck[p * 10 + c];
        }
    }
    let trump = rng.gen_range(0..4) as u8;
    (hands, trump)
}

#[test]
fn pcg_deals_are_valid_and_seeded_per_deal() {
    let deals = generate_deals_rust(2, 5, 7);
    assert_eq!(deals.len(), 5);
    for (i, d) in deals.iter().enumerate() {
        assert_eq!(d.seed, 9 * 1000 + i as u64);
        assert!(d.trump < 4);
        assert_valid_deal(&d.hands);
        let (hands, trump) = pcg_reference(d.seed);
        assert_eq!(d.hands, hands);
        assert_eq!(d.trump, trump);
    }
    // A shuffled deck is not dealt in card order.
    let ordered = [0x3FFu64, 0x3FF << 10, 0x3FF << 20, 0x3FF << 30];
    assert!(deals.iter().any(|d| d.hands != ordered));
}

#[test]
fn frozen_probe_deals_are_fixed() {
    let a = generate_frozen_probe_deals(11);
    let b = generate_frozen_probe_deals(11);
    assert_eq!(a.len(), 64);
    for (i, (x, y)) in a.iter().zip(b.iter()).enumerate() {
        assert_eq!(x.seed, 11000 + i as u64);
        assert_eq!(x.hands, y.hands);
        assert_eq!(x.trump, y.trump);
        assert_valid_deal(&x.hands);
    }
    let wrapped = generate_frozen_probe_deals(u64::MAX);
    assert_eq!(wrapped[0].seed, u64::MAX.wrapping_mul(1000));
}

#[test]
fn solver_deals_follow_the_crate_generator() {
    let deals = generate_deals_rust_solver(1, 3, 2);
    assert_eq!(deals.len(), 3);
    for (i, d) in deals.iter().enumerate() {
        let deal_seed = 3 * 1000 + i as u64;
        assert_eq!(d.seed, deal_seed);
        assert_valid_deal(&d.hands);
        // The same shuffle written out by hand.
        let mut rng = LcgRng::new(deal_seed);
        let mut deck: Vec<u8> = (0..40).collect();
        for idx in (1..40).rev() {
            let j = rng.gen_range(0..idx + 1);
            deck.swap(idx, j);
        }
        let mut hands = [0u64; 4];
        for p in 0..4 {
            for c in 0..10 {
                hands[p] |= 1u64 << deck[p * 10 + c];
            }
        }
        assert_eq!(d.hands, hands);
        assert_eq!(d.trump, rng.gen_range(0..4) as u8);
    }
}

#[test]
fn vec_to_mask_keeps_deck_cards() {
    assert_eq!(vec_to_mask(&[0, 5, 39, 40, 63, 5]), 1 | (1 << 5) | (1 << 39));
    assert_eq!(vec_to_mask(&[]), 0);
}
