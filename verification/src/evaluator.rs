//! Bots and game simulation with seat rotation.
use vstd::prelude::*;
use crate::bits::count;
use crate::engine::{is_deal, GameState};
use crate::heuristic::{elite_choice, lemma_elite_choice_unique, nth_member, select_card_heuristic, select_card_random};
use crate::rng::{lcg_step, LcgRng};
use crate::simulator::SuecaSimulatorGame;

verus! {

/// A card-playing strategy for one seat.
#[derive(Clone, Copy, Debug)]
pub enum SimulatorBot {
    /// A uniformly drawn legal card.
    Random,
    /// The Elite heuristic.
    Heuristic,
}

/// `bot`, playing for `seat` in `g` with the generator at `r0`, picks `card` and
/// leaves the generator at `r1`: Random draws once and takes the legal card at that
/// draw modulo their number (64 and no draw when there is none); Heuristic takes the
/// Elite choice and draws nothing.
pub open spec fn bot_choice(bot: SimulatorBot, g: SuecaSimulatorGame, seat: int, r0: u64, card: int, r1: u64) -> bool {
    match bot {
        SimulatorBot::Random => {
            let legal = g.state.legal_mask();
            if legal == 0 {
                card == 64 && r1 == r0
            } else {
                r1 == lcg_step(r0) && card == nth_member(legal, ((r1 as usize) % (count(legal) as usize)) as nat)
            }
        },
        SimulatorBot::Heuristic => elite_choice(g, seat, card) && r1 == r0,
    }
}

impl SimulatorBot {
    /// The card this bot plays for `seat`, the seat to play.
    pub fn select_card(&self, game: &SuecaSimulatorGame, seat: u8, rng: &mut LcgRng) -> (card: u8)
        requires
            game.wf(),
            seat == game.state.current_player,
        ensures
            game.state.trick_number < 10 ==> game.state.is_legal(card as int),
            bot_choice(*self, *game, seat as int, old(rng)@, card as int, final(rng)@),
    {
        match self {
            SimulatorBot::Random => {
                let legal = game.state.legal_moves();
                proof {
                    game.state.lemma_legal_mask();
                    if game.state.trick_number < 10 {
                        game.state.lemma_valid_has_legal(game.trick_points);
                    }
                }
                select_card_random(legal, rng)
            },
            SimulatorBot::Heuristic => select_card_heuristic(game, seat),
        }
    }
}

/// The hand dealt to seat `i` after rotating the deal by `rotation` seats.
pub fn rotate_hands(hands: &[u64; 4], rotation: usize) -> (rot: [u64; 4])
    requires
        rotation <= 4,
    ensures
        forall|i: int| 0 <= i < 4 ==> #[trigger] rot[i] == hands[(i + 4 - rotation) % 4],
        is_deal(*hands) ==> is_deal(rot),
{
    let mut rot_hands = [0u64; 4];
    let mut i: usize = 0;
    while i < 4
        invariant
            i <= 4,
            rotation <= 4,
            forall|j: int| 0 <= j < i ==> #[trigger] rot_hands[j] == hands[(j + 4 - rotation) % 4],
        decreases 4 - i,
    {
        rot_hands[i] = hands[(i + 4 - rotation) % 4];
        i = i + 1;
    }
    proof {
        if is_deal(*hands) {
            assert forall|a: int, b: int, c: int| 0 <= a < 4 && 0 <= b < 4 && a != b && #[trigger] crate::bits::mem(rot_hands[a], c)
                implies !#[trigger] crate::bits::mem(rot_hands[b], c) by {
                let x = (a + 4 - rotation) % 4;
                let y = (b + 4 - rotation) % 4;
                assert(x != y);
                assert(rot_hands[a] == hands[x] && rot_hands[b] == hands[y]);
            }
            assert forall|a: int| 0 <= a < 4 implies crate::bits::in_deck(#[trigger] rot_hands[a]) && count(rot_hands[a]) == 10 by {
                let x = (a + 4 - rotation) % 4;
                assert(rot_hands[a] == hands[x]);
            }
        }
    }
    rot_hands
}

/// The first player after rotating the deal by `rotation` seats.
pub fn rotate_first_player(first_player: u8, rotation: usize) -> (r: u8)
    requires
        first_player + (rotation as u8) < 256,
    ensures
        r == (first_player + (rotation as u8)) % 4,
{
    (first_player + rotation as u8) % 4
}

pub struct GameResultSim {
    pub team_02_score: u8,
    pub team_13_score: u8,
    pub team_02_game_points: u8,
    pub team_13_game_points: u8,
    pub illegal_count: usize,
}

/// Game points earned by a team with `pts` card points: 4 for all 120, 2 from 91, 1
/// from 61, otherwise 0.
pub open spec fn game_points_tier(pts: int) -> int {
    if pts == 120 {
        4
    } else if pts >= 91 {
        2
    } else if pts >= 61 {
        1
    } else {
        0
    }
}

fn tier(pts: u8) -> (r: u8)
    ensures
        r == game_points_tier(pts as int),
{
    if pts == 120 {
        4
    } else if pts >= 91 {
        2
    } else if pts >= 61 {
        1
    } else {
        0
    }
}

/// The game points of both teams.
pub fn compute_game_points(team_02: u8, team_13: u8) -> (r: (u8, u8))
    ensures
        r.0 == game_points_tier(team_02 as int),
        r.1 == game_points_tier(team_13 as int),
{
    (tier(team_02), tier(team_13))
}

/// A fresh game: the deal, the trump and the first player, nothing played.
pub open spec fn fresh_game(hands: [u64; 4], trump: u8, first_player: u8) -> SuecaSimulatorGame {
    SuecaSimulatorGame {
        state: GameState {
            hands,
            trump,
            led_suit: 4,
            current_player: first_player,
            current_trick_winner: first_player,
            current_trick_best_card: 40,
            cards_played_in_trick: 0,
            team_02_score: 0,
            team_13_score: 0,
            trick_number: 0,
        },
        current_trick: [40u8, 40u8, 40u8, 40u8],
        current_trick_seats: [4u8, 4u8, 4u8, 4u8],
        current_trick_len: 0,
        voids: [0u8, 0u8, 0u8, 0u8],
        trick_points: 0,
    }
}

/// `post` (generator at `r_post`) is reached from `g` (generator at `r`) by `n` plays,
/// each the card the bot of the seat to play picks.
pub open spec fn bots_play(
    g: SuecaSimulatorGame,
    r: u64,
    post: SuecaSimulatorGame,
    r_post: u64,
    n: nat,
    bots: [SimulatorBot; 4],
) -> bool
    decreases n,
{
    if n == 0 {
        post == g && r_post == r
    } else {
        exists|mid: SuecaSimulatorGame, r_mid: u64, c: int| #[trigger] mid.plays_to(c, post)
            && bots_play(g, r, mid, r_mid, (n - 1) as nat, bots)
            && #[trigger] bot_choice(bots[mid.state.current_player as int], mid, mid.state.current_player as int, r_mid, c, r_post)
    }
}

/// A bot's card, and the generator it leaves behind, are fixed by the game and the
/// generator it starts from.
proof fn lemma_bot_choice_unique(
    bot: SimulatorBot,
    g: SuecaSimulatorGame,
    seat: int,
    r0: u64,
    c1: int,
    r1: u64,
    c2: int,
    r2: u64,
)
    requires
        bot_choice(bot, g, seat, r0, c1, r1),
        bot_choice(bot, g, seat, r0, c2, r2),
    ensures
        c1 == c2,
        r1 == r2,
{
    if bot is Heuristic {
        lemma_elite_choice_unique(g, seat, c1, c2);
    }
}

/// Bots that play `n` cards from one game and one generator reach one game and leave one
/// generator: a simulated game is determined by where it starts, the bots and the seed.
pub proof fn lemma_bots_play_unique(
    g: SuecaSimulatorGame,
    r: u64,
    bots: [SimulatorBot; 4],
    n: nat,
    p1: SuecaSimulatorGame,
    r1: u64,
    p2: SuecaSimulatorGame,
    r2: u64,
)
    requires
        bots_play(g, r, p1, r1, n, bots),
        bots_play(g, r, p2, r2, n, bots),
    ensures
        p1 == p2,
        r1 == r2,
    decreases n,
{
    if n > 0 {
        let (m1, rm1, c1) = choose|mid: SuecaSimulatorGame, r_mid: u64, c: int| #[trigger] mid.plays_to(c, p1)
            && bots_play(g, r, mid, r_mid, (n - 1) as nat, bots)
            && #[trigger] bot_choice(bots[mid.state.current_player as int], mid, mid.state.current_player as int, r_mid, c, r1);
        let (m2, rm2, c2) = choose|mid: SuecaSimulatorGame, r_mid: u64, c: int| #[trigger] mid.plays_to(c, p2)
            && bots_play(g, r, mid, r_mid, (n - 1) as nat, bots)
            && #[trigger] bot_choice(bots[mid.state.current_player as int], mid, mid.state.current_player as int, r_mid, c, r2);
        lemma_bots_play_unique(g, r, bots, (n - 1) as nat, m1, rm1, m2, rm2);
        lemma_bot_choice_unique(bots[m1.state.current_player as int], m1, m1.state.current_player as int, rm1, c1, r1, c2, r2);
        m1.lemma_plays_to_unique(c1, p1, p2);
    }
}

/// Plays a whole deal with one bot per seat; `seed` drives the random choices.
pub fn play_game_sim(
    hands: [u64; 4],
    trump: u8,
    first_player: u8,
    bots: &[SimulatorBot; 4],
    seed: u64,
) -> (res: GameResultSim)
    requires
        is_deal(hands),
        trump < 4,
        first_player < 4,
    ensures
        res.team_02_score + res.team_13_score == 120,
        exists|post: SuecaSimulatorGame, r_post: u64| {
            &&& #[trigger] bots_play(fresh_game(hands, trump, first_player), seed, post, r_post, 40, *bots)
            &&& post.state.trick_number == 10
            &&& res.team_02_score == post.state.team_02_score
            &&& res.team_13_score == post.state.team_13_score
        },
        res.team_02_game_points == game_points_tier(res.team_02_score as int),
        res.team_13_game_points == game_points_tier(res.team_13_score as int),
        res.illegal_count == 0,
{
    let mut rng = LcgRng::new(seed);
    let mut game = SuecaSimulatorGame::new(hands, trump, first_player);
    let ghost start = game;
    let ghost mut n: nat = 0;
    proof {
        assert(game.current_trick =~= [40u8, 40u8, 40u8, 40u8]);
        assert(game.current_trick_seats =~= [4u8, 4u8, 4u8, 4u8]);
        assert(game.voids =~= [0u8, 0u8, 0u8, 0u8]);
        assert(start == fresh_game(hands, trump, first_player));
    }
    while game.state.trick_number < 10
        invariant
            game.wf(),
            bots_play(start, seed, game, rng@, n, *bots),
            n == 4 * game.state.trick_number + game.state.cards_played_in_trick,
        decreases (10 - game.state.trick_number) * 4 - game.state.cards_played_in_trick,
    {
        let seat = game.state.current_player;
        let ghost r_mid = rng@;
        let card = bots[seat as usize].select_card(&game, seat, &mut rng);
        proof {
            game.lemma_legal_can_play(card as int);
        }
        let ghost pre = game;
        game.play_card(card);
        proof {
            pre.lemma_play_keeps_wf(card as int, game);
            assert(pre.plays_to(card as int, game));
            n = n + 1;
            assert(bots_play(start, seed, game, rng@, n, *bots));
        }
    }
    proof {
        game.state.lemma_valid_terminal(game.trick_points);
        assert(bots_play(start, seed, game, rng@, 40, *bots));
    }
    let team_02 = game.state.team_02_score;
    let team_13 = game.state.team_13_score;
    let (gp_02, gp_13) = compute_game_points(team_02, team_13);
    GameResultSim {
        team_02_score: team_02,
        team_13_score: team_13,
        team_02_game_points: gp_02,
        team_13_game_points: gp_13,
        illegal_count: 0,
    }
}

pub struct EvaluatorDeal {
    pub hands: [u64; 4],
    pub trump: u8,
    pub seed: u64,
}

} // verus!
