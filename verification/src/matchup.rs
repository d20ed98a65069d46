//! Head-to-head matchups: each deal is played with the bots' seats swapped, or, for the
//! signal-to-noise test, each bot alone against random players from all four rotations.
use vstd::prelude::*;
use crate::bits::{lemma_has_or, lemma_has_zero, mem, single};
use crate::engine::is_deal;
use crate::evaluator::{
    bots_play, fresh_game, lemma_bots_play_unique, game_points_tier, play_game_sim, rotate_hands, EvaluatorDeal,
    SimulatorBot,
};
use crate::simulator::SuecaSimulatorGame;

verus! {

/// A deal given as four lists of cards.
pub struct PyDeal {
    pub hands: Vec<Vec<u8>>,
    pub trump: u8,
    pub seed: u64,
}

/// The set of the cards listed in `v`.
fn card_list_mask(v: &Vec<u8>) -> (mask: u64)
    requires
        forall|k: int| 0 <= k < v@.len() ==> v@[k] < 64,
    ensures
        forall|c: int| #[trigger] mem(mask, c) <==> exists|k: int| 0 <= k < v@.len() && v@[k] == c,
{
    let mut mask: u64 = 0;
    proof {
        assert forall|c: int| !#[trigger] mem(mask, c) by {
            lemma_has_zero(c);
        }
    }
    let mut i: usize = 0;
    while i < v.len()
        invariant
            i <= v@.len(),
            forall|k: int| 0 <= k < v@.len() ==> v@[k] < 64,
            forall|c: int| #[trigger] mem(mask, c) <==> exists|k: int| 0 <= k < i && v@[k] == c,
        decreases v@.len() - i,
    {
        let card = v[i];
        let ghost before = mask;
        let bit = single(card);
        mask = mask | bit;
        proof {
            assert forall|c: int| #[trigger] mem(mask, c) <==> exists|k: int| 0 <= k < i + 1 && v@[k] == c by {
                lemma_has_or(before, bit, c);
                if c == card as int {
                    assert(v@[i as int] == c);
                }
                if exists|k: int| 0 <= k < i + 1 && v@[k] == c {
                    let k = choose|k: int| 0 <= k < i + 1 && v@[k] == c;
                    if k < i {
                        assert(mem(before, c));
                    }
                }
            }
        }
        i += 1;
    }
    mask
}

impl PyDeal {
    /// The deal as card sets: seat `s` holds exactly the cards listed for it.
    pub fn to_rust(&self) -> (deal: EvaluatorDeal)
        requires
            self.hands@.len() >= 4,
            forall|s: int, k: int| 0 <= s < 4 && 0 <= k < self.hands@[s]@.len() ==> #[trigger] self.hands@[s]@[k] < 64,
        ensures
            deal.trump == self.trump,
            deal.seed == self.seed,
            forall|s: int, c: int| 0 <= s < 4 ==> (#[trigger] mem(deal.hands[s], c) <==> exists|k: int|
                0 <= k < self.hands@[s]@.len() && self.hands@[s]@[k] == c),
    {
        let mut hands = [0u64; 4];
        let mut s: usize = 0;
        while s < 4
            invariant
                s <= 4,
                self.hands@.len() >= 4,
                forall|q: int, k: int| 0 <= q < 4 && 0 <= k < self.hands@[q]@.len() ==> #[trigger] self.hands@[q]@[k] < 64,
                forall|q: int, c: int| 0 <= q < s ==> (#[trigger] mem(hands[q], c) <==> exists|k: int|
                    0 <= k < self.hands@[q]@.len() && self.hands@[q]@[k] == c),
            decreases 4 - s,
        {
            let list = &self.hands[s];
            proof {
                assert forall|k: int| 0 <= k < list@.len() implies list@[k] < 64 by {
                    assert(self.hands@[s as int]@[k] < 64);
                }
            }
            hands[s] = card_list_mask(list);
            s += 1;
        }
        EvaluatorDeal { hands, trump: self.trump, seed: self.seed }
    }
}

/// A game from the fresh deal, with the generator seeded at `seed` and each seat played by
/// its bot, ends in `post` after its forty cards.
pub open spec fn plays_out(
    hands: [u64; 4],
    trump: u8,
    first_player: u8,
    bots: [SimulatorBot; 4],
    seed: u64,
    post: SuecaSimulatorGame,
) -> bool {
    &&& exists|r_post: u64| #[trigger] bots_play(fresh_game(hands, trump, first_player), seed, post, r_post, 40, bots)
    &&& post.state.trick_number == 10
}

/// `a` on seats 0 and 2, `b` on seats 1 and 3.
pub open spec fn alternating(a: SimulatorBot, b: SimulatorBot) -> [SimulatorBot; 4] {
    [a, b, a, b]
}

/// The deal rotated by `r` seats: seat `i` gets the hand of seat `(i - r) mod 4`.
pub open spec fn rotated(hands: [u64; 4], r: int) -> [u64; 4] {
    [hands[(4 - r) % 4], hands[(5 - r) % 4], hands[(6 - r) % 4], hands[(7 - r) % 4]]
}

/// One deal played twice from seat 0: first with `bot_a` on seats 0 and 2 (seed
/// `base_seed + deal.seed + 1000`), then with `bot_b` there (seed `... + 2000`). The result
/// is `bot_a`'s card points in each game, `bot_a`'s game points in each game, and
/// `bot_b`'s game points in each game.
pub fn play_matchup_deal(deal: &EvaluatorDeal, bot_a: SimulatorBot, bot_b: SimulatorBot, base_seed: u64) -> (r: (
    u8,
    u8,
    u8,
    u8,
    u8,
    u8,
))
    requires
        is_deal(deal.hands),
        deal.trump < 4,
        base_seed + deal.seed + 2000 <= u64::MAX,
    ensures
        exists|g1: SuecaSimulatorGame, g2: SuecaSimulatorGame| {
            &&& #[trigger] plays_out(deal.hands, deal.trump, 0, alternating(bot_a, bot_b),
                (base_seed + deal.seed + 1000) as u64, g1)
            &&& #[trigger] plays_out(deal.hands, deal.trump, 0, alternating(bot_b, bot_a),
                (base_seed + deal.seed + 2000) as u64, g2)
            &&& r.0 == g1.state.team_02_score
            &&& r.1 == g2.state.team_13_score
            &&& r.2 == game_points_tier(g1.state.team_02_score as int)
            &&& r.3 == game_points_tier(g2.state.team_13_score as int)
            &&& r.4 == game_points_tier(g1.state.team_13_score as int)
            &&& r.5 == game_points_tier(g2.state.team_02_score as int)
        },
{
    let bots1 = [bot_a, bot_b, bot_a, bot_b];
    let seed1 = base_seed + deal.seed + 1000;
    let res1 = play_game_sim(deal.hands, deal.trump, 0, &bots1, seed1);
    let bots2 = [bot_b, bot_a, bot_b, bot_a];
    let seed2 = base_seed + deal.seed + 2000;
    let res2 = play_game_sim(deal.hands, deal.trump, 0, &bots2, seed2);
    proof {
        let (g1, rp1) = choose|post: SuecaSimulatorGame, r_post: u64| {
            &&& #[trigger] bots_play(fresh_game(deal.hands, deal.trump, 0), seed1, post, r_post, 40, bots1)
            &&& post.state.trick_number == 10
            &&& res1.team_02_score == post.state.team_02_score
            &&& res1.team_13_score == post.state.team_13_score
        };
        let (g2, rp2) = choose|post: SuecaSimulatorGame, r_post: u64| {
            &&& #[trigger] bots_play(fresh_game(deal.hands, deal.trump, 0), seed2, post, r_post, 40, bots2)
            &&& post.state.trick_number == 10
            &&& res2.team_02_score == post.state.team_02_score
            &&& res2.team_13_score == post.state.team_13_score
        };
        assert(bots1 =~= alternating(bot_a, bot_b));
        assert(bots2 =~= alternating(bot_b, bot_a));
        assert(plays_out(deal.hands, deal.trump, 0, bots1, seed1, g1));
        assert(plays_out(deal.hands, deal.trump, 0, bots2, seed2, g2));
    }
    (
        res1.team_02_score,
        res2.team_13_score,
        res1.team_02_game_points,
        res2.team_13_game_points,
        res1.team_13_game_points,
        res2.team_02_game_points,
    )
}

/// `bot` on seat 0 and random players on the other seats.
pub open spec fn against_random(bot: SimulatorBot) -> [SimulatorBot; 4] {
    [bot, SimulatorBot::Random, SimulatorBot::Random, SimulatorBot::Random]
}

/// The `k`-th comparison of the signal-to-noise test: the deal rotated by `k` seats,
/// started by seat `k`, seeded with `base_seed + deal_seed + 10000 k`, played once by
/// `bot_a` and once by `bot_b` against three random players; `gp` and `cp` are `bot_a`'s
/// team's game points and card points less `bot_b`'s team's.
pub open spec fn snr_comparison(
    deal: EvaluatorDeal,
    bot_a: SimulatorBot,
    bot_b: SimulatorBot,
    base_seed: u64,
    k: int,
    gp: i16,
    cp: i16,
) -> bool {
    exists|ga: SuecaSimulatorGame, gb: SuecaSimulatorGame| {
        &&& #[trigger] plays_out(rotated(deal.hands, k), deal.trump, k as u8, against_random(bot_a),
            (base_seed + deal.seed + 10000 * k) as u64, ga)
        &&& #[trigger] plays_out(rotated(deal.hands, k), deal.trump, k as u8, against_random(bot_b),
            (base_seed + deal.seed + 10000 * k) as u64, gb)
        &&& gp == game_points_tier(ga.state.team_02_score as int) - game_points_tier(gb.state.team_02_score as int)
        &&& cp == ga.state.team_02_score - gb.state.team_02_score
    }
}

/// The `rot`-th comparison of the signal-to-noise test.
fn snr_compare(deal: &EvaluatorDeal, bot_a: SimulatorBot, bot_b: SimulatorBot, base_seed: u64, rot: usize) -> (r: (i16, i16))
    requires
        is_deal(deal.hands),
        deal.trump < 4,
        rot < 4,
        base_seed + deal.seed + 30000 <= u64::MAX,
    ensures
        snr_comparison(*deal, bot_a, bot_b, base_seed, rot as int, r.0, r.1),
{
    let rotated_hands = rotate_hands(&deal.hands, rot);
    let adj_first = (rot as u8) % 4;
    let game_seed = base_seed + deal.seed + (rot as u64) * 10000;
    let bots_a = [bot_a, SimulatorBot::Random, SimulatorBot::Random, SimulatorBot::Random];
    let res_a = play_game_sim(rotated_hands, deal.trump, adj_first, &bots_a, game_seed);
    let bots_b = [bot_b, SimulatorBot::Random, SimulatorBot::Random, SimulatorBot::Random];
    let res_b = play_game_sim(rotated_hands, deal.trump, adj_first, &bots_b, game_seed);
    let gp_delta = (res_a.team_02_game_points as i16) - (res_b.team_02_game_points as i16);
    let cp_delta = (res_a.team_02_score as i16) - (res_b.team_02_score as i16);
    proof {
        assert(rotated_hands =~= rotated(deal.hands, rot as int));
        assert(bots_a =~= against_random(bot_a));
        assert(bots_b =~= against_random(bot_b));
        assert(adj_first == rot as u8);
        let (ga, rpa) = choose|post: SuecaSimulatorGame, r_post: u64| {
            &&& #[trigger] bots_play(fresh_game(rotated_hands, deal.trump, adj_first), game_seed, post, r_post, 40, bots_a)
            &&& post.state.trick_number == 10
            &&& res_a.team_02_score == post.state.team_02_score
            &&& res_a.team_13_score == post.state.team_13_score
        };
        let (gb, rpb) = choose|post: SuecaSimulatorGame, r_post: u64| {
            &&& #[trigger] bots_play(fresh_game(rotated_hands, deal.trump, adj_first), game_seed, post, r_post, 40, bots_b)
            &&& post.state.trick_number == 10
            &&& res_b.team_02_score == post.state.team_02_score
            &&& res_b.team_13_score == post.state.team_13_score
        };
        assert(plays_out(rotated(deal.hands, rot as int), deal.trump, rot as u8, against_random(bot_a),
            (base_seed + deal.seed + 10000 * rot) as u64, ga));
        assert(plays_out(rotated(deal.hands, rot as int), deal.trump, rot as u8, against_random(bot_b),
            (base_seed + deal.seed + 10000 * rot) as u64, gb));
    }
    (gp_delta, cp_delta)
}

/// The four comparisons of the signal-to-noise test on one deal, one per rotation.
pub fn play_snr_deal(deal: &EvaluatorDeal, bot_a: SimulatorBot, bot_b: SimulatorBot, base_seed: u64) -> (r: (
    Vec<i16>,
    Vec<i16>,
))
    requires
        is_deal(deal.hands),
        deal.trump < 4,
        base_seed + deal.seed + 30000 <= u64::MAX,
    ensures
        r.0.len() == 4,
        r.1.len() == 4,
        forall|k: int| 0 <= k < 4 ==> snr_comparison(*deal, bot_a, bot_b, base_seed, k, #[trigger] r.0[k], r.1[k]),
{
    let mut gp_deltas: Vec<i16> = Vec::new();
    let mut cp_deltas: Vec<i16> = Vec::new();
    let mut rot: usize = 0;
    while rot < 4
        invariant
            rot <= 4,
            is_deal(deal.hands),
            deal.trump < 4,
            base_seed + deal.seed + 30000 <= u64::MAX,
            gp_deltas.len() == rot,
            cp_deltas.len() == rot,
            forall|k: int| 0 <= k < rot ==> snr_comparison(*deal, bot_a, bot_b, base_seed, k, #[trigger] gp_deltas[k],
                cp_deltas[k]),
        decreases 4 - rot,
    {
        let (gp, cp) = snr_compare(deal, bot_a, bot_b, base_seed, rot);
        gp_deltas.push(gp);
        cp_deltas.push(cp);
        rot += 1;
    }
    (gp_deltas, cp_deltas)
}

/// A simulated game ends in one way only: the deal, the trump, the first player, the bots
/// and the seed fix it.
pub proof fn lemma_game_determined(
    hands: [u64; 4],
    trump: u8,
    first_player: u8,
    bots: [SimulatorBot; 4],
    seed: u64,
    g1: SuecaSimulatorGame,
    g2: SuecaSimulatorGame,
)
    requires
        plays_out(hands, trump, first_player, bots, seed, g1),
        plays_out(hands, trump, first_player, bots, seed, g2),
    ensures
        g1 == g2,
{
    let r1 = choose|r_post: u64| #[trigger] bots_play(fresh_game(hands, trump, first_player), seed, g1, r_post, 40, bots);
    let r2 = choose|r_post: u64| #[trigger] bots_play(fresh_game(hands, trump, first_player), seed, g2, r_post, 40, bots);
    lemma_bots_play_unique(fresh_game(hands, trump, first_player), seed, bots, 40, g1, r1, g2, r2);
}

/// The signal-to-noise test of a bot against itself shows no difference in any rotation.
pub proof fn lemma_snr_same_bot_silent(deal: EvaluatorDeal, bot: SimulatorBot, base_seed: u64, k: int, gp: i16, cp: i16)
    requires
        snr_comparison(deal, bot, bot, base_seed, k, gp, cp),
    ensures
        gp == 0,
        cp == 0,
{
    let (ga, gb) = choose|ga: SuecaSimulatorGame, gb: SuecaSimulatorGame| {
        &&& #[trigger] plays_out(rotated(deal.hands, k), deal.trump, k as u8, against_random(bot),
            (base_seed + deal.seed + 10000 * k) as u64, ga)
        &&& #[trigger] plays_out(rotated(deal.hands, k), deal.trump, k as u8, against_random(bot),
            (base_seed + deal.seed + 10000 * k) as u64, gb)
        &&& gp == game_points_tier(ga.state.team_02_score as int) - game_points_tier(gb.state.team_02_score as int)
        &&& cp == ga.state.team_02_score - gb.state.team_02_score
    };
    lemma_game_determined(rotated(deal.hands, k), deal.trump, k as u8, against_random(bot),
        (base_seed + deal.seed + 10000 * k) as u64, ga, gb);
}

} // verus!
