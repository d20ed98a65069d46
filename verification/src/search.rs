//! Alpha-beta search with Zobrist hashing and a transposition table.
use vstd::prelude::*;
use crate::bits::{count, highest_card, lemma_has_and_not, lemma_has_or, lemma_has_single, lemma_remove_decreases, mem, single, single_spec};
use crate::engine::GameState;
use crate::rng::{lcg_next, lcg_steps};

verus! {

/// Seed of the generator that fills the Zobrist tables.
pub const ZOBRIST_SEED: u64 = 0x123456789abcdef0;

/// Key of card `c` in the hand of seat `p`, at index `40 * p + c`: the generator's
/// outputs 1..=160 from `ZOBRIST_SEED`.
pub const ZOBRIST_TABLE: [u64; 160] = [
    0xa1e095c2dee3c17f, 0x1b07e2a7755985a2, 0x4c842c66e0b95cc9, 0x1c7e09d41a0187a4,
    0x9faa2daaee6ab523, 0xda55f3daa164b576, 0x45430238f1cef10d, 0x2e130fc24aee5398,
    0x832e9312263c9b07, 0x2cb6822f100a3a8a, 0xc018e850e6904191, 0x0bea340344aef6cc,
    0xa6d0fc1b0b54172b, 0x1765d43fecb4e8de, 0x40b0829cc3f09255, 0xd4e969a928c26540,
    0x7ff334e7800e0d8f, 0x176a030ecad4d472, 0xdef798b3b28f6759, 0xb0c4f77511aed2f4,
    0x01cae51e05cda233, 0x2e6d32748bb35146, 0x9fafb81690fc849d, 0x42df575484f5b3e8,
    0xc856d782d0e03917, 0x0b745b9bf986f35a, 0xdcecd150223bee21, 0xd73c0ef11c47bc1c,
    0x787b3b6d52a1763b, 0x8b103526ebc78eae, 0xa90388661c89e7e5, 0xcaefb1f759f8df90,
    0xef8346251ddf3d9f, 0x54a6440408c23742, 0x0ca0d0989c5ef5e9, 0xb0d15e20dcb45244,
    0xa2ca9817497db343, 0x1c9c3b34786d4116, 0x1b58db3dbfb3dc2d, 0x29f7386966708838,
    0xd68e099fb55b3b27, 0x3a509d0e1c7c402a, 0x180fdddb6d859eb1, 0x1cd859656aa3356c,
    0xf2dd5b0fd574794b, 0xfa80f72821b4087e, 0x60467cb98d998175, 0x07b6b7b417b54de0,
    0x1419edeee74851af, 0x78441054fe7eae12, 0x76fc014334810879, 0x2fb0ba3e0fb70594,
    0xcd958865b57be853, 0x0586471632bf84e6, 0x33fbf6ed87ddf7bd, 0x4057639d4453d088,
    0x0923f1a24dbea137, 0x9d5414135ce720fa, 0xdfc5623f5ee65341, 0x39eb63e9aa0662bc,
    0x65275cfe4cee205b, 0x0369e08f7847564e, 0xc0b9d43ce3285f05, 0xf118a979b68cb030,
    0xe5506414a57a49bf, 0x4829f1dc58a738e2, 0x6910f526b58e9f09, 0x668c532cde9bece4,
    0x867d2bfa04094163, 0xe2d431a5b7171cb6, 0x2bc55c6c5ba3d74d, 0x8135b2d186d48cd8,
    0xd01911b5365b6b47, 0x3c9accda640495ca, 0x60264525f9170bd1, 0xd18b93671bf6440c,
    0xd9f05423386f6b6b, 0xed15893b728e781e, 0x3484c6a1997f8095, 0x2ca360a046540680,
    0x4d4dffe4cbe625cf, 0x8b5de96e7118d7b2, 0xcf7613cc8e60b999, 0xe93c7a606c880834,
    0x22e36309bda6be73, 0x9b50b21903210886, 0x4a600ac1a56e7add, 0xc582c33af967bd28,
    0x1f6864283dc29957, 0x62b3a54970519e9a, 0x35ed3bc93b10c861, 0xe8aadb7a1937d95c,
    0xca95c9aced995a7b, 0x8eb3ad80fcd66dee, 0xfe96f4e06d27e625, 0xa024f625e22050d0,
    0xb25434b2883ce5df, 0x40aea45a1ef08a82, 0xb752c0a8f2105829, 0xc3367a2c1be05784,
    0x69c4dcd649155f83, 0xf3d7233de5ca4856, 0x3347ddb357e6e26d, 0xa600d2641ac26178,
    0xe6c8ea8874c52b67, 0xed64b429258b3b6a, 0x61d639a9b00c88f1, 0x8e4ac2f961d022ac,
    0x5d213986a84ced8b, 0x3ca66e633cac37be, 0xc6547338eaea8fb5, 0x585e1d0b00468f20,
    0x0e66cfbfd26f89ef, 0x93f8cc7d868b5152, 0x2825d1f367f67ab9, 0xfb30b944de49dad4,
    0x43340c17fb562493, 0x4241e73bcf3fdc26, 0xc6bc4d077df60dfd, 0x8ab9b3236cd979c8,
    0x110c7e9c3e742177, 0x827861635cae6c3a, 0xa201ecc8ff834d81, 0xed7017b16d041ffc,
    0xba0e26f59aab249b, 0x90b82c1f60dcd58e, 0xc5989ff4ffd07d45, 0x669fb722c25bc170,
    0x95d1088b7caf11ff, 0xa0d0efeee9862c22, 0x289118835bac2149, 0x416fd7f684a99224,
    0x812c4c0d27aa0da3, 0x546eb429a0eec3f6, 0x7c724509cac4fd8d, 0xd328ef85c4e20618,
    0xd77b964360207b87, 0x13344c55f3f8310a, 0xbe125f687d2e1611, 0xe912b653b958d14c,
    0xe3a98a59fd14ffab, 0x9f72e80c7175475e, 0x7ba46ff08922aed5, 0xa64c59574534e7c0,
    0x030a3483436c7e0f, 0x823fbd3976be1af2, 0x917731b0ad0a4bd9, 0xf996cc0d0f247d74,
    0x698b172d2f921ab3, 0x222856777d83ffc6, 0xc273e15529bcb11d, 0x5f4a6cac9b510668,
    0x8cd7eb3b115b3997, 0x86e85d399ee589da, 0xb28a184bb905e2a1, 0xc6550b9a1c93369c,
    0xe03199141e2b7ebb, 0x4cf35acf1fc28d2e, 0x2c2519e4e46a2465, 0xd1b9b461f0e70210,
];

pub const PLAYER_ZOBRIST: [u64; 4] = [
    0xd04f2f19dd58ce1f, 0x7ef3912e1a501dc2, 0x80551c384029fa69, 0x990b4071fd1f9cc4,
];

pub const LED_SUIT_ZOBRIST: [u64; 5] = [
    0x8373707f92cf4bc3, 0x314eb62c98ec8f96, 0x697d12e14e8628ad, 0x8ee925a05bdb7ab8,
    0xc90a37c60bf55ba7,
];

/// Fills the 160 card keys: output `k + 1` of the generator goes to index `k`.
pub fn generate_zobrist_table() -> (table: [u64; 160])
    ensures
        forall|k: int| 0 <= k < 160 ==> #[trigger] table[k] == lcg_steps(ZOBRIST_SEED, (k + 1) as nat),
{
    let mut table = [0u64; 160];
    let mut rng = ZOBRIST_SEED;
    let mut k: usize = 0;
    while k < 160
        invariant
            k <= 160,
            rng == lcg_steps(ZOBRIST_SEED, k as nat),
            forall|j: int| 0 <= j < k ==> #[trigger] table[j] == lcg_steps(ZOBRIST_SEED, (j + 1) as nat),
        decreases 160 - k,
    {
        rng = lcg_next(rng);
        table[k] = rng;
        k = k + 1;
    }
    table
}

/// The four seat keys: outputs 161..=164 of the generator.
pub fn generate_player_zobrist() -> (players: [u64; 4])
    ensures
        forall|p: int| 0 <= p < 4 ==> #[trigger] players[p] == lcg_steps(ZOBRIST_SEED, (161 + p) as nat),
{
    let mut rng = ZOBRIST_SEED;
    let mut i: usize = 0;
    while i < 160
        invariant
            i <= 160,
            rng == lcg_steps(ZOBRIST_SEED, i as nat),
        decreases 160 - i,
    {
        rng = lcg_next(rng);
        i = i + 1;
    }
    let mut players = [0u64; 4];
    let mut p: usize = 0;
    while p < 4
        invariant
            p <= 4,
            rng == lcg_steps(ZOBRIST_SEED, (160 + p) as nat),
            forall|j: int| 0 <= j < p ==> #[trigger] players[j] == lcg_steps(ZOBRIST_SEED, (161 + j) as nat),
        decreases 4 - p,
    {
        rng = lcg_next(rng);
        players[p] = rng;
        p = p + 1;
    }
    players
}

/// The five led-suit keys (index 4: no suit led): outputs 165..=169 of the generator.
pub fn generate_led_zobrist() -> (led: [u64; 5])
    ensures
        forall|l: int| 0 <= l < 5 ==> #[trigger] led[l] == lcg_steps(ZOBRIST_SEED, (165 + l) as nat),
{
    let mut rng = ZOBRIST_SEED;
    let mut i: usize = 0;
    while i < 164
        invariant
            i <= 164,
            rng == lcg_steps(ZOBRIST_SEED, i as nat),
        decreases 164 - i,
    {
        rng = lcg_next(rng);
        i = i + 1;
    }
    let mut led = [0u64; 5];
    let mut l: usize = 0;
    while l < 5
        invariant
            l <= 5,
            rng == lcg_steps(ZOBRIST_SEED, (164 + l) as nat),
            forall|j: int| 0 <= j < l ==> #[trigger] led[j] == lcg_steps(ZOBRIST_SEED, (165 + j) as nat),
        decreases 5 - l,
    {
        rng = lcg_next(rng);
        led[l] = rng;
        l = l + 1;
    }
    led
}

/// Exclusive-or of the keys of the cards of `hand` below `n` for seat `p`.
pub open spec fn hand_hash(hand: u64, p: int, n: nat) -> u64
    decreases n,
{
    if n == 0 {
        0
    } else if mem(hand, n - 1) {
        hand_hash(hand, p, (n - 1) as nat) ^ ZOBRIST_TABLE[40 * p + n - 1]
    } else {
        hand_hash(hand, p, (n - 1) as nat)
    }
}

/// The Zobrist hash of a state: the keys of every card in every hand, of the seat to
/// play and of the led suit, combined by exclusive-or.
pub open spec fn zobrist_hash(s: GameState) -> u64 {
    hand_hash(s.hands[0], 0, 40) ^ hand_hash(s.hands[1], 1, 40) ^ hand_hash(s.hands[2], 2, 40)
        ^ hand_hash(s.hands[3], 3, 40) ^ PLAYER_ZOBRIST[s.current_player as int]
        ^ LED_SUIT_ZOBRIST[s.led_suit as int]
}

/// The Zobrist hash of `state`.
pub fn get_hash(state: &GameState) -> (h: u64)
    requires
        state.current_player < 4,
        state.led_suit < 5,
    ensures
        h == zobrist_hash(*state),
{
    let mut hs = [0u64; 4];
    let mut p: usize = 0;
    while p < 4
        invariant
            p <= 4,
            forall|q: int| 0 <= q < p ==> #[trigger] hs[q] == hand_hash(state.hands[q], q, 40),
        decreases 4 - p,
    {
        let hand = state.hands[p];
        let mut acc: u64 = 0;
        let mut c: usize = 0;
        while c < 40
            invariant
                p < 4,
                c <= 40,
                hand == state.hands[p as int],
                acc == hand_hash(hand, p as int, c as nat),
            decreases 40 - c,
        {
            if (hand >> (c as u64)) & 1u64 == 1u64 {
                acc = acc ^ ZOBRIST_TABLE[40 * p + c];
            }
            c = c + 1;
        }
        hs[p] = acc;
        p = p + 1;
    }
    hs[0] ^ hs[1] ^ hs[2] ^ hs[3] ^ PLAYER_ZOBRIST[state.current_player as usize]
        ^ LED_SUIT_ZOBRIST[state.led_suit as usize]
}

#[derive(Clone, Copy)]
pub struct TTEntry {
    pub key: u64,
    pub value: i16,
    /// 0 = exact, 1 = lower bound (beta cut), 2 = upper bound (alpha cut).
    pub flag: u8,
    pub depth: u8,
    pub generation: u16,
    pub best_move: u8,
    /// The position the value was searched from, so that a lookup can tell it from
    /// another position with the same key.
    pub pos: GameState,
    /// The points on the table in that position.
    pub pos_tp: u8,
}

/// The position recorded in an entry that holds no searched position: it has no valid
/// trump, so it matches no position of a game.
pub open spec fn no_position() -> GameState {
    GameState {
        hands: [0u64, 0u64, 0u64, 0u64],
        trump: 4,
        led_suit: 4,
        current_player: 0,
        current_trick_winner: 0,
        current_trick_best_card: 40,
        cards_played_in_trick: 0,
        team_02_score: 0,
        team_13_score: 0,
        trick_number: 10,
    }
}

fn make_no_position() -> (p: GameState)
    ensures
        p == no_position(),
{
    let p = GameState {
        hands: [0u64; 4],
        trump: 4,
        led_suit: 4,
        current_player: 0,
        current_trick_winner: 0,
        current_trick_best_card: 40,
        cards_played_in_trick: 0,
        team_02_score: 0,
        team_13_score: 0,
        trick_number: 10,
    };
    assert(p.hands =~= [0u64, 0u64, 0u64, 0u64]);
    p
}

impl Default for TTEntry {
    fn default() -> (e: Self)
        ensures
            e.key == 0 && e.value == 0 && e.flag == 0 && e.depth == 0 && e.generation == 0
                && e.best_move == 0 && e.pos == no_position() && e.pos_tp == 0,
    {
        TTEntry { key: 0, value: 0, flag: 0, depth: 0, generation: 0, best_move: 0, pos: make_no_position(), pos_tp: 0 }
    }
}

pub struct TranspositionTable {
    pub table: Vec<TTEntry>,
    pub mask: usize,
    pub generation: u16,
}

impl TranspositionTable {
    /// The table has `mask + 1` slots.
    pub open spec fn wf(self) -> bool {
        self.table@.len() == self.mask + 1
    }

    /// Every stored score is a score of the game, 0..120.
    pub open spec fn scores_ok(self) -> bool {
        forall|i: int| 0 <= i < self.table@.len() ==> 0 <= #[trigger] self.table@[i].value <= 120
    }

    /// The slot of a key.
    pub open spec fn slot(self, key: u64) -> int {
        ((key as usize) & self.mask) as int
    }

    pub proof fn lemma_slot(self, key: u64)
        requires
            self.wf(),
        ensures
            0 <= self.slot(key) < self.table@.len(),
    {
        let m = self.mask;
        let k = key as usize;
        assert((k & m) <= m) by (bit_vector);
    }

    /// A table of `2^size_power_of_two` empty slots.
    pub fn new(size_power_of_two: usize) -> (t: Self)
        requires
            size_power_of_two < usize::BITS,
        ensures
            t.wf(),
            t.scores_ok(),
            t.values_bounded(),
            t.table@.len() == (1usize << size_power_of_two),
            t.generation == 0,
            t.mask == (1usize << size_power_of_two) - 1,
            forall|k: int| #[trigger] t.sound_at(k),
            forall|i: int| 0 <= i < t.table@.len() ==> #[trigger] t.table@[i].key == 0
                && t.table@[i].depth == 0 && t.table@[i].generation == 0 && t.table@[i].value == 0
                && t.table@[i].flag == 0 && t.table@[i].best_move == 0 && t.table@[i].pos == no_position()
                && t.table@[i].pos_tp == 0,
    {
        let size: usize = 1usize << size_power_of_two;
        assert(size_power_of_two < usize::BITS ==> (1usize << size_power_of_two) >= 1usize)
            by (bit_vector);
        let table = vec![TTEntry::default(); size];
        Self { table, mask: size - 1, generation: 0 }
    }

    /// Starts a new generation: older entries no longer match.
    pub fn next_generation(&mut self)
        ensures
            final(self).generation == vstd::wrapping::u16_specs::wrapping_add(old(self).generation, 1u16),
            final(self).table@ == old(self).table@,
            final(self).mask == old(self).mask,
            old(self).holds_no_entries_of(vstd::wrapping::u16_specs::wrapping_add(old(self).generation, 1u16))
                ==> forall|k: int| #[trigger] final(self).sound_at(k),
    {
        self.generation = self.generation.wrapping_add(1);
    }

    /// The stored `(value, flag, best_move)` for `key` when its slot holds `key` from
    /// this generation searched at least `depth` plies.
    pub open spec fn probe(self, key: u64, depth: u8) -> Option<(i16, u8, u8)> {
        let e = self.table@[self.slot(key)];
        if e.key == key && e.generation == self.generation && e.depth >= depth {
            Some((e.value, e.flag, e.best_move))
        } else {
            None
        }
    }

    /// The stored best move for `key` from this generation, at any depth.
    pub open spec fn probe_best_move(self, key: u64) -> Option<u8> {
        let e = self.table@[self.slot(key)];
        if e.key == key && e.generation == self.generation && e.best_move < 40 {
            Some(e.best_move)
        } else {
            None
        }
    }

    pub fn lookup(&self, key: u64, depth: u8) -> (r: Option<(i16, u8, u8)>)
        requires
            self.wf(),
        ensures
            r == self.probe(key, depth),
    {
        proof {
            self.lemma_slot(key);
        }
        let idx = (key as usize) & self.mask;
        let entry = &self.table[idx];
        if entry.key == key && entry.generation == self.generation && entry.depth >= depth {
            Some((entry.value, entry.flag, entry.best_move))
        } else {
            None
        }
    }

    pub fn lookup_best_move(&self, key: u64) -> (r: Option<u8>)
        requires
            self.wf(),
        ensures
            r == self.probe_best_move(key),
    {
        proof {
            self.lemma_slot(key);
        }
        let idx = (key as usize) & self.mask;
        let entry = &self.table[idx];
        if entry.key == key && entry.generation == self.generation && entry.best_move < 40 {
            Some(entry.best_move)
        } else {
            None
        }
    }

    /// Overwrites the slot of `key`.
    pub fn store(&mut self, key: u64, value: i16, flag: u8, depth: u8, best_move: u8)
        requires
            old(self).wf(),
        ensures
            final(self).wf(),
            old(self).stores_to(key, value, flag, depth, best_move, *final(self)),
    {
        proof {
            self.lemma_slot(key);
        }
        let idx = (key as usize) & self.mask;
        self.table[idx] = TTEntry {
            key,
            value,
            flag,
            depth,
            generation: self.generation,
            best_move,
            pos: make_no_position(),
            pos_tp: 0,
        };
    }

    /// Overwrites the slot of `key`, recording the position searched.
    pub fn store_position(
        &mut self,
        key: u64,
        value: i16,
        flag: u8,
        depth: u8,
        best_move: u8,
        pos: GameState,
        pos_tp: u8,
    )
        requires
            old(self).wf(),
        ensures
            final(self).mask == old(self).mask,
            final(self).generation == old(self).generation,
            final(self).table@ == old(self).table@.update(
                old(self).slot(key),
                TTEntry { key, value, flag, depth, generation: old(self).generation, best_move, pos, pos_tp },
            ),
    {
        proof {
            self.lemma_slot(key);
        }
        let idx = (key as usize) & self.mask;
        self.table[idx] = TTEntry { key, value, flag, depth, generation: self.generation, best_move, pos, pos_tp };
    }

    /// Does the slot of `key` record position `pos` with `pos_tp` points on the table?
    pub fn holds_position(&self, key: u64, pos: &GameState, pos_tp: u8) -> (r: bool)
        requires
            self.wf(),
        ensures
            r == (self.table@[self.slot(key)].pos == *pos && self.table@[self.slot(key)].pos_tp == pos_tp),
    {
        proof {
            self.lemma_slot(key);
        }
        let idx = (key as usize) & self.mask;
        let e = &self.table[idx];
        let same = e.pos_tp == pos_tp && e.pos.hands[0] == pos.hands[0] && e.pos.hands[1] == pos.hands[1]
            && e.pos.hands[2] == pos.hands[2] && e.pos.hands[3] == pos.hands[3] && e.pos.trump == pos.trump
            && e.pos.led_suit == pos.led_suit && e.pos.current_player == pos.current_player
            && e.pos.current_trick_winner == pos.current_trick_winner
            && e.pos.current_trick_best_card == pos.current_trick_best_card
            && e.pos.cards_played_in_trick == pos.cards_played_in_trick
            && e.pos.team_02_score == pos.team_02_score && e.pos.team_13_score == pos.team_13_score
            && e.pos.trick_number == pos.trick_number;
        proof {
            if same {
                assert(e.pos.hands =~= pos.hands);
            }
        }
        same
    }
}


impl TranspositionTable {
    /// `post` is this table after `store(key, value, flag, depth, best_move)`.
    pub open spec fn stores_to(self, key: u64, value: i16, flag: u8, depth: u8, best_move: u8, post: Self) -> bool {
        &&& post.mask == self.mask
        &&& post.generation == self.generation
        &&& post.table@ == self.table@.update(
            self.slot(key),
            TTEntry { key, value, flag, depth, generation: self.generation, best_move, pos: no_position(), pos_tp: 0 },
        )
    }

    /// A lookup of a key just stored, at a depth no greater than the stored one, gives
    /// back what was stored; the stored best move is found whenever it is a card.
    pub proof fn lemma_store_then_lookup(
        self,
        key: u64,
        value: i16,
        flag: u8,
        depth: u8,
        best_move: u8,
        post: Self,
        d: u8,
    )
        requires
            self.wf(),
            self.stores_to(key, value, flag, depth, best_move, post),
            d <= depth,
        ensures
            post.wf(),
            post.probe(key, d) == Some((value, flag, best_move)),
            best_move < 40 ==> post.probe_best_move(key) == Some(best_move),
    {
        self.lemma_slot(key);
    }

    /// A store leaves every other slot as it was: lookups of keys in other slots give
    /// what they gave before.
    pub proof fn lemma_store_keeps_other_slots(
        self,
        key: u64,
        value: i16,
        flag: u8,
        depth: u8,
        best_move: u8,
        post: Self,
        other: u64,
        d: u8,
    )
        requires
            self.wf(),
            self.stores_to(key, value, flag, depth, best_move, post),
            self.slot(other) != self.slot(key),
        ensures
            post.probe(other, d) == self.probe(other, d),
            post.probe_best_move(other) == self.probe_best_move(other),
    {
        self.lemma_slot(key);
        self.lemma_slot(other);
    }

    /// After a new generation, nothing stored before is found (until the 16-bit
    /// generation counter wraps around).
    pub proof fn lemma_new_generation_forgets(self, post: Self, key: u64, d: u8)
        requires
            self.wf(),
            post.table@ == self.table@,
            post.mask == self.mask,
            post.generation == vstd::wrapping::u16_specs::wrapping_add(self.generation, 1u16),
            forall|i: int| 0 <= i < self.table@.len() ==> #[trigger] self.table@[i].generation
                == self.generation,
        ensures
            post.probe(key, d).is_none(),
            post.probe_best_move(key).is_none(),
    {
        self.lemma_slot(key);
    }
}


impl TranspositionTable {
    /// Every stored score lies in -1000..=1000, the search's window.
    pub open spec fn values_bounded(self) -> bool {
        forall|i: int| 0 <= i < self.table@.len() ==> -1000 <= #[trigger] self.table@[i].value
            <= 1000
    }
}

/// The state and trick points after the seat to play plays `card` (a play leads to one
/// state only: see `GameState::lemma_plays_to_unique`).
pub open spec fn next_of(s: GameState, tp: int, card: int) -> (GameState, int) {
    choose|x: (GameState, int)| s.plays_to(tp, card, x.0, x.1)
}

/// Seats 0 and 2 maximize the score of their team; seats 1 and 3 minimize it.
pub open spec fn maximizing(s: GameState) -> bool {
    s.current_player == 0 || s.current_player == 2
}

/// The search's starting value: -1000 for a maximizing seat, 1000 otherwise.
pub open spec fn worst_for(s: GameState) -> int {
    if maximizing(s) {
        -1000
    } else {
        1000
    }
}

/// The better of two values for the seat to play.
pub open spec fn better(s: GameState, a: int, b: int) -> int {
    if maximizing(s) {
        if b > a {
            b
        } else {
            a
        }
    } else {
        if b < a {
            b
        } else {
            a
        }
    }
}

/// Minimax value for team 0/2 over `k` more plays: the team's score when the game is
/// over or no plays are left, otherwise the best, for the seat to play, of the values
/// after each legal card.
pub open spec fn minimax(s: GameState, tp: int, k: nat) -> int
    decreases k, 65int,
{
    if s.trick_number == 10 || k == 0 {
        s.team_02_score as int
    } else {
        best_among(s, tp, k, s.legal_mask(), 64)
    }
}

/// The best, for the seat to play, of the minimax values over `k - 1` plays after each
/// card of `m` below `i`; `worst_for(s)` when there is none.
pub open spec fn best_among(s: GameState, tp: int, k: nat, m: u64, i: int) -> int
    decreases k, i,
{
    if k == 0 || i <= 0 {
        worst_for(s)
    } else {
        let prev = best_among(s, tp, k, m, i - 1);
        if mem(m, i - 1) {
            let n = next_of(s, tp, i - 1);
            better(s, prev, minimax(n.0, n.1, (k - 1) as nat))
        } else {
            prev
        }
    }
}

/// The minimax value over any number of plays lies in -1000..=1000, the search's
/// widest window.
pub proof fn lemma_minimax_range(s: GameState, tp: int, k: nat)
    ensures
        -1000 <= minimax(s, tp, k) <= 1000,
    decreases k, 65int,
{
    if s.trick_number != 10 && k > 0 {
        lemma_best_among_range(s, tp, k, s.legal_mask(), 64);
    }
}

/// The fold of minimax values over the cards of `m` below `i` lies in -1000..=1000.
proof fn lemma_best_among_range(s: GameState, tp: int, k: nat, m: u64, i: int)
    requires
        i <= 64,
    ensures
        -1000 <= best_among(s, tp, k, m, i) <= 1000,
    decreases k, i,
{
    if k > 0 && i > 0 {
        lemma_best_among_range(s, tp, k, m, i - 1);
        if mem(m, i - 1) {
            let n = next_of(s, tp, i - 1);
            lemma_minimax_range(n.0, n.1, (k - 1) as nat);
        }
    }
}

/// Adding a card `c` to the set folds its value in.
proof fn lemma_best_among_insert(s: GameState, tp: int, k: nat, m1: u64, m2: u64, c: int, i: int)
    requires
        k > 0,
        0 <= c < 64,
        !mem(m1, c),
        forall|x: int| #[trigger] mem(m2, x) == (mem(m1, x) || x == c),
    ensures
        best_among(s, tp, k, m2, i) == if c < i {
            better(s, best_among(s, tp, k, m1, i), minimax(next_of(s, tp, c).0, next_of(s, tp, c).1, (k - 1) as nat))
        } else {
            best_among(s, tp, k, m1, i)
        },
    decreases i,
{
    if i > 0 {
        lemma_best_among_insert(s, tp, k, m1, m2, c, i - 1);
        assert(mem(m2, i - 1) == (mem(m1, i - 1) || i - 1 == c));
    }
}

/// Over no card, the fold is the starting value.
proof fn lemma_best_among_empty(s: GameState, tp: int, k: nat, m: u64, i: int)
    requires
        forall|x: int| !#[trigger] mem(m, x),
    ensures
        best_among(s, tp, k, m, i) == worst_for(s),
    decreases i,
{
    if i > 0 && k > 0 {
        lemma_best_among_empty(s, tp, k, m, i - 1);
    }
}

/// Over more cards, the fold is no worse for the seat to play.
proof fn lemma_best_among_mono(s: GameState, tp: int, k: nat, m1: u64, m2: u64, i: int)
    requires
        forall|x: int| #[trigger] mem(m1, x) ==> mem(m2, x),
    ensures
        maximizing(s) ==> best_among(s, tp, k, m1, i) <= best_among(s, tp, k, m2, i),
        !maximizing(s) ==> best_among(s, tp, k, m1, i) >= best_among(s, tp, k, m2, i),
    decreases i,
{
    if i > 0 && k > 0 {
        lemma_best_among_mono(s, tp, k, m1, m2, i - 1);
    }
}

/// `r` is what an alpha-beta search with window `(alpha, beta)` may return for a
/// position of value `v`: `v` itself inside the window, at most `alpha` when `v` is at
/// most `alpha`, at least `beta` when `v` is at least `beta`.
pub open spec fn window_bound(r: int, v: int, alpha: int, beta: int) -> bool {
    &&& (alpha < v < beta ==> r == v)
    &&& (v <= alpha ==> r <= alpha)
    &&& (v >= beta ==> r >= beta)
}

/// The number of cards left in the four hands.
pub open spec fn hand_cards(s: GameState) -> int {
    (count(s.hands[0]) + count(s.hands[1]) + count(s.hands[2]) + count(s.hands[3])) as int
}

/// What a table entry's flag claims of the true value `v`: 0 that the stored value is
/// `v`, 1 that `v` is at least the stored value, 2 that `v` is at most the stored value.
pub open spec fn bound_holds(flag: u8, value: i16, v: int) -> bool {
    &&& (flag == 0 ==> value == v)
    &&& (flag == 1 ==> v >= value)
    &&& (flag == 2 ==> v <= value)
}

impl TranspositionTable {
    /// Every entry of the current generation that was searched (depth above 0) records a
    /// position whose cards left less its depth is `k`, and holds a true bound of that
    /// position's minimax value at that depth. A search from a position with `n` cards
    /// left to `d` plies keeps this with `k = n - d`: a position met again in the search
    /// is met with the same plies left, so the depth it was stored at is the depth asked.
    pub open spec fn sound_at(self, k: int) -> bool {
        forall|i: int| 0 <= i < self.table@.len() && (#[trigger] self.table@[i]).generation == self.generation
            && self.table@[i].depth > 0 ==> hand_cards(self.table@[i].pos) - self.table@[i].depth == k
            && bound_holds(self.table@[i].flag, self.table@[i].value, minimax(self.table@[i].pos,
            self.table@[i].pos_tp as int, self.table@[i].depth as nat))
    }

    /// No entry of generation `g` has been searched.
    pub open spec fn holds_no_entries_of(self, g: u16) -> bool {
        forall|i: int| 0 <= i < self.table@.len() && (#[trigger] self.table@[i]).generation == g
            ==> self.table@[i].depth == 0
    }
}

/// `r` is what a fail-soft alpha-beta search with window `(alpha, beta)` returns for a
/// position of value `v`: `v` itself inside the window; below it, a value between `v` and
/// `alpha`; above it, a value between `beta` and `v`.
pub open spec fn strong_bound(r: int, v: int, alpha: int, beta: int) -> bool {
    &&& (alpha < v < beta ==> r == v)
    &&& (v <= alpha ==> v <= r <= alpha)
    &&& (v >= beta ==> beta <= r <= v)
}

/// Writing an entry of the current generation that keeps the anchor and holds a true
/// bound keeps the table sound.
proof fn lemma_store_keeps_sound(pre: TranspositionTable, post: TranspositionTable, i: int, e: TTEntry, k: int)
    requires
        pre.sound_at(k),
        post.generation == pre.generation,
        0 <= i < pre.table@.len(),
        post.table@ == pre.table@.update(i, e),
        e.generation == pre.generation && e.depth > 0 ==> hand_cards(e.pos) - e.depth == k
            && bound_holds(e.flag, e.value, minimax(e.pos, e.pos_tp as int, e.depth as nat)),
    ensures
        post.sound_at(k),
{
    assert forall|j: int| 0 <= j < post.table@.len() && (#[trigger] post.table@[j]).generation == post.generation
        && post.table@[j].depth > 0 implies hand_cards(post.table@[j].pos) - post.table@[j].depth == k
        && bound_holds(post.table@[j].flag, post.table@[j].value, minimax(post.table@[j].pos,
        post.table@[j].pos_tp as int, post.table@[j].depth as nat)) by {
        if j != i {
            assert(post.table@[j] == pre.table@[j]);
        }
    }
}

/// A play of a card from the hand of the seat to play leaves one card fewer.
pub proof fn lemma_hand_cards_step(s: GameState, tp: int, card: int, post: GameState, post_tp: int)
    requires
        s.current_player < 4,
        mem(s.to_play_hand(), card),
        s.plays_to(tp, card, post, post_tp),
    ensures
        hand_cards(post) + 1 == hand_cards(s),
{
    let seat = s.current_player as int;
    let h = s.hands[seat];
    let h2 = post.hands[seat];
    assert forall|c: int| 0 <= c < 64 implies mem(h2, c) == (mem(h, c) && c != card) by {
        lemma_has_and_not(h, single_spec(card as u8), c);
        lemma_has_single(card as u64, c);
    }
    crate::bits::lemma_count_below_remove(h2, h, card, 64);
    assert(post.hands[0] == s.hands[0] || seat == 0);
}

/// Plays `card`, searches the position after it, and takes the card back.
fn search_after(
    state: &mut GameState,
    card: u8,
    alpha: i16,
    beta: i16,
    plies_left: u8,
    tt: &mut TranspositionTable,
    trick_points: &mut u8,
) -> (r: i16)
    requires
        old(state).safe(*old(trick_points)),
        old(state).trick_number < 10,
        mem(old(state).to_play_hand(), card as int),
        old(tt).wf(),
        plies_left >= 1,
    ensures
        *final(state) == *old(state),
        *final(trick_points) == *old(trick_points),
        final(tt).wf(),
        old(tt).values_bounded() ==> final(tt).values_bounded() && -1000 <= r <= 1000,
        final(tt).mask == old(tt).mask,
        alpha < beta && old(state).valid(*old(trick_points)) && old(state).trick_number < 10 && old(state).is_legal(card as int)
            && old(tt).scores_ok() ==> final(tt).scores_ok() && 0 <= r <= 120,
        forall|post: GameState, post_tp: int| #[trigger] old(state).plays_to(*old(trick_points) as int, card as int, post, post_tp)
            && (post.trick_number == 10 || plies_left == 1) ==> r == post.team_02_score,
        plies_left == 1 ==> r == next_of(*old(state), *old(trick_points) as int, card as int).0.team_02_score,
        final(tt).generation == old(tt).generation,
        alpha < beta && old(tt).sound_at(hand_cards(*old(state)) - plies_left) ==> final(tt).sound_at(
            hand_cards(*old(state)) - plies_left) && strong_bound(r as int, minimax(
            next_of(*old(state), *old(trick_points) as int, card as int).0,
            next_of(*old(state), *old(trick_points) as int, card as int).1, (plies_left - 1) as nat), alpha as int,
            beta as int),
    decreases plies_left, 0nat,
{
    let snap = *state;
    let pre_points = *trick_points;
    proof {
        snap.lemma_safe_can_play(pre_points, card as int);
    }
    state.play_card_and_resolve(card, trick_points);
    proof {
        snap.lemma_play_keeps_safe(pre_points, card as int, *state, *trick_points);
        if snap.valid(pre_points) && snap.trick_number < 10 && snap.is_legal(card as int) {
            snap.lemma_play_keeps_valid(pre_points, card as int, *state, *trick_points);
        }
    }
    let ghost after = *state;
    let ghost after_tp = *trick_points as int;
    let val = alpha_beta(state, alpha, beta, plies_left - 1, tt, trick_points);
    proof {
        assert forall|post: GameState, post_tp: int| #[trigger] snap.plays_to(pre_points as int, card as int, post, post_tp)
            implies post == after by {
            snap.lemma_plays_to_unique(pre_points as int, card as int, post, post_tp, after, after_tp);
        }
        let w = (after, after_tp);
        assert(snap.plays_to(pre_points as int, card as int, w.0, w.1));
        assert(exists|x: (GameState, int)| snap.plays_to(pre_points as int, card as int, x.0, x.1));
        let n = next_of(snap, pre_points as int, card as int);
        assert(snap.plays_to(pre_points as int, card as int, n.0, n.1));
        assert(n.0 == after);
        lemma_hand_cards_step(snap, pre_points as int, card as int, after, after_tp);
    }
    *state = snap;
    *trick_points = pre_points;
    val
}

/// Alpha-beta minimax over the remaining play, seats 0 and 2 maximizing the score of
/// their team, with a transposition table keyed by the Zobrist hash. A finished game,
/// or a search with no plies left, scores the team's points so far. From a valid state,
/// with a table of game scores and a non-empty window, the result is a game score.
/// With a non-empty window and a table whose current entries come from searches anchored
/// like this one (in particular one holding no searched entry of the current
/// generation), the result is the minimax value over `plies_left` plays when that value
/// lies inside the window, and otherwise a bound between the value and the window: the
/// table answers only for the very position (hands, scores, trick and points on the
/// table) it recorded, at the depth it was searched to, and records the window it
/// searched with; with the full window -1000..1000 the result is then exactly that
/// minimax value, for any position the search may start from, not only ones reached
/// from a full deal. A one-ply search whose position the table does not answer returns the
/// one-ply minimax value in the same way. The state and the trick points always come
/// back as they were.
#[verifier::rlimit(80)]
#[verifier::spinoff_prover]
pub fn alpha_beta(
    state: &mut GameState,
    alpha: i16,
    beta: i16,
    plies_left: u8,
    tt: &mut TranspositionTable,
    trick_points: &mut u8,
) -> (r: i16)
    requires
        old(state).safe(*old(trick_points)),
        old(tt).wf(),
    ensures
        *final(state) == *old(state),
        *final(trick_points) == *old(trick_points),
        final(tt).wf(),
        old(tt).values_bounded() ==> final(tt).values_bounded() && -1000 <= r <= 1000,
        final(tt).mask == old(tt).mask,
        alpha < beta && old(state).valid(*old(trick_points)) && old(tt).scores_ok() ==> final(tt).scores_ok()
            && 0 <= r <= 120,
        old(state).trick_number == 10 || plies_left == 0 ==> r == old(state).team_02_score,
        alpha < beta && plies_left == 1 && old(state).trick_number < 10 && old(tt).probe(zobrist_hash(*old(state)), 1) is None
            ==> window_bound(r as int, minimax(*old(state), *old(trick_points) as int, 1), alpha as int, beta as int),
        final(tt).generation == old(tt).generation,
        alpha < beta && old(tt).sound_at(hand_cards(*old(state)) - plies_left) ==> final(tt).sound_at(
            hand_cards(*old(state)) - plies_left) && strong_bound(r as int, minimax(*old(state),
            *old(trick_points) as int, plies_left as nat), alpha as int, beta as int),
        alpha <= -1000 && 1000 <= beta && old(tt).sound_at(hand_cards(*old(state)) - plies_left) ==> r
            == minimax(*old(state), *old(trick_points) as int, plies_left as nat),
    decreases plies_left, 1nat,
{
    proof {
        lemma_minimax_range(*state, *trick_points as int, plies_left as nat);
    }
    let ghost a0 = alpha;
    let ghost b0 = beta;
    let mut alpha = alpha;
    let mut beta = beta;
    let ghost bounded = tt.values_bounded();
    let ghost good = a0 < b0 && state.valid(*trick_points) && tt.scores_ok();
    if state.is_terminal() {
        return state.team_02_score as i16;
    }
    if plies_left == 0 {
        return state.team_02_score as i16;
    }
    let hash = get_hash(state);
    let probed = tt.lookup(hash, plies_left);
    let same_pos = tt.holds_position(hash, state, *trick_points);
    let hit = if same_pos { probed } else { None };
    let ghost kk = hand_cards(*state) - plies_left;
    let ghost gen0 = tt.generation;
    let ghost full = a0 < b0 && tt.sound_at(kk);
    let ghost sound0 = full;
    let ghost gv = minimax(*state, *trick_points as int, plies_left as nat);
    proof {
        tt.lemma_slot(hash);
        if full && hit is Some {
            let e = tt.table@[tt.slot(hash)];
            assert(e.pos == *state && e.pos_tp == *trick_points);
            assert(bound_holds(e.flag, e.value, gv));
        }
    }
    match hit {
        Some((val, flag, _best)) => {
            if flag == 0 {
                return val;
            } else if flag == 1 {
                if val > alpha {
                    alpha = val;
                }
            } else if flag == 2 {
                if val < beta {
                    beta = val;
                }
            }
            if alpha >= beta {
                return val;
            }
        },
        None => {},
    }
    let alpha_entry = alpha;
    let beta_entry = beta;
    let ghost a1 = alpha as int;
    let ghost b1 = beta as int;
    proof {
        if full {
            assert forall|r: int| #[trigger] strong_bound(r, gv, a1, b1) implies strong_bound(r, gv, a0 as int, b0 as int) by {}
        }
    }

    let curr_player = state.current_player;
    let is_maximizing = curr_player == 0 || curr_player == 2;
    let legal = state.legal_moves();
    proof {
        if good {
            state.lemma_valid_has_legal(*trick_points);
        }
        state.lemma_legal_mask();
        assert forall|c: int| #![trigger mem(legal, c)] mem(legal, c) ==> mem(state.to_play_hand(), c) by {}
    }
    let init: i16 = if is_maximizing { -1000 } else { 1000 };
    let mut best_val: i16 = init;
    let mut best_move_card: u8 = 40;
    let ghost mut done_one = false;
    let ghost exact1 = a0 < b0 && plies_left == 1 && hit is None;
    let ghost mut done: u64 = 0;
    proof {
        assert forall|x: int| !#[trigger] mem(done, x) by {
            crate::bits::lemma_has_zero(x);
        }
        lemma_best_among_empty(*state, *trick_points as int, 1, done, 64);
    }

    let tt_best_raw = tt.lookup_best_move(hash);
    let tt_best: Option<u8> = match tt_best_raw {
        Some(m) => if (legal >> (m as u64)) & 1u64 == 1u64 { Some(m) } else { None },
        None => None,
    };
    let ghost snap = *state;
    let ghost snap_tp = *trick_points;
    let ghost mask0 = tt.mask;
    let ghost pl: nat = plies_left as nat;
    proof {
        if full {
            assert(pl >= 1);
            lemma_best_among_empty(snap, snap_tp as int, pl, done, 64);
        }
    }

    let remaining = match tt_best {
        Some(best) => {
            assert(mem(legal, best as int));
            let val = search_after(state, best, alpha, beta, plies_left, tt, trick_points);
            let ghost prev_best = best_val;
            if is_maximizing {
                if val > best_val {
                    best_val = val;
                    best_move_card = best;
                }
                if best_val > alpha {
                    alpha = best_val;
                }
            } else {
                if val < best_val {
                    best_val = val;
                    best_move_card = best;
                }
                if best_val < beta {
                    beta = best_val;
                }
            }
            proof {
                done_one = true;
                assert forall|c: int| #[trigger] mem(legal & !single_spec(best), c) implies mem(legal, c) by {
                    lemma_has_and_not(legal, single_spec(best), c);
                }
                let d0 = done;
                done = d0 | single_spec(best);
                assert forall|x: int| #[trigger] mem(done, x) == (mem(d0, x) || x == best) by {
                    lemma_has_or(d0, single_spec(best), x);
                    lemma_has_single(best as u64, x);
                }
                assert forall|x: int| #[trigger] mem(legal & !single_spec(best), x) == (mem(legal, x) && x != best) by {
                    lemma_has_and_not(legal, single_spec(best), x);
                    lemma_has_single(best as u64, x);
                }
                lemma_best_among_insert(snap, snap_tp as int, 1, d0, done, best as int, 64);
                if full {
                    lemma_best_among_insert(snap, snap_tp as int, pl, d0, done, best as int, 64);
                }
            }
            legal & !single(best)
        },
        None => legal,
    };

    if alpha < beta {
        let mut bitboard = remaining;
        while bitboard != 0
            invariant_except_break
                alpha < beta,
                forall|x: int| !(#[trigger] mem(done, x) && mem(bitboard, x)),
                full && is_maximizing && done_one ==> best_among(snap, snap_tp as int, pl, done, 64) < b1,
                full && !is_maximizing && done_one ==> best_among(snap, snap_tp as int, pl, done, 64) > a1,
                full && is_maximizing ==> (best_among(snap, snap_tp as int, pl, done, 64) <= a1 ==> best_among(snap, snap_tp as int, pl, done, 64) <= best_val <= a1),
                full && is_maximizing ==> (best_among(snap, snap_tp as int, pl, done, 64) > a1 ==> best_val == best_among(snap, snap_tp as int, pl, done, 64)),
                full && !is_maximizing ==> (best_among(snap, snap_tp as int, pl, done, 64) >= b1 ==> b1 <= best_val <= best_among(snap, snap_tp as int, pl, done, 64)),
                full && !is_maximizing ==> (best_among(snap, snap_tp as int, pl, done, 64) < b1 ==> best_val == best_among(snap, snap_tp as int, pl, done, 64)),
            invariant
                *state == snap,
                *trick_points == snap_tp,
                snap.safe(snap_tp),
                snap.trick_number < 10,
                good == (snap.valid(snap_tp) && old(tt).scores_ok()),
                good ==> snap.trick_number < 10,
                legal == snap.legal_mask(),
                forall|c: int| #![trigger mem(legal, c)] mem(legal, c) == snap.is_legal(c),
                forall|c: int| #![trigger mem(legal, c)] mem(legal, c) ==> mem(snap.to_play_hand(), c),
                forall|c: int| #![trigger mem(bitboard, c)] mem(bitboard, c) ==> mem(legal, c),
                tt.wf(),
                bounded ==> tt.values_bounded(),
                good ==> tt.scores_ok(),
                tt.mask == mask0,
                plies_left >= 1,
                is_maximizing ==> init == -1000,
                !is_maximizing ==> init == 1000,
                bounded ==> -1000 <= best_val <= 1000,
                done_one && good ==> 0 <= best_val <= 120,
                !done_one ==> bitboard == legal && best_val == init,
                good && !done_one ==> legal != 0,
                exact1 ==> plies_left == 1,
                init == worst_for(snap),
                is_maximizing == maximizing(snap),
                forall|x: int| #[trigger] mem(legal, x) == (mem(done, x) || mem(bitboard, x)),
                exact1 ==> best_val == best_among(snap, snap_tp as int, 1, done, 64),
                exact1 ==> a1 == a0 && b1 == b0,
                is_maximizing ==> alpha == (if done_one && best_val > a1 { best_val as int } else { a1 }) && beta == b1,
                !is_maximizing ==> beta == (if done_one && best_val < b1 { best_val as int } else { b1 }) && alpha == a1,
                done_one || forall|x: int| !#[trigger] mem(done, x),
                tt.generation == gen0,
                kk == hand_cards(snap) - plies_left,
                pl == plies_left,
                full ==> tt.sound_at(kk) && a1 < b1,
            ensures
                *state == snap,
                *trick_points == snap_tp,
                tt.wf(),
                bounded ==> tt.values_bounded(),
                good ==> tt.scores_ok(),
                tt.mask == mask0,
                bounded ==> -1000 <= best_val <= 1000,
                done_one && good ==> 0 <= best_val <= 120,
                done_one || bitboard == 0,
                !done_one ==> bitboard == legal,
                good && !done_one ==> legal != 0,
                forall|x: int| #[trigger] mem(legal, x) == (mem(done, x) || mem(bitboard, x)),
                exact1 ==> best_val == best_among(snap, snap_tp as int, 1, done, 64),
                bitboard == 0 || alpha >= beta,
                is_maximizing ==> alpha == (if done_one && best_val > a1 { best_val as int } else { a1 }) && beta == b1,
                !is_maximizing ==> beta == (if done_one && best_val < b1 { best_val as int } else { b1 }) && alpha == a1,
                done_one || forall|x: int| !#[trigger] mem(done, x),
                tt.generation == gen0,
                full ==> tt.sound_at(kk),
                full && is_maximizing && bitboard == 0 ==> (best_among(snap, snap_tp as int, pl, done, 64) <= a1 ==> best_among(snap, snap_tp as int, pl, done, 64) <= best_val <= a1),
                full && is_maximizing && bitboard == 0 ==> (best_among(snap, snap_tp as int, pl, done, 64) > a1 ==> best_val == best_among(snap, snap_tp as int, pl, done, 64)),
                full && !is_maximizing && bitboard == 0 ==> (best_among(snap, snap_tp as int, pl, done, 64) >= b1 ==> b1 <= best_val <= best_among(snap, snap_tp as int, pl, done, 64)),
                full && !is_maximizing && bitboard == 0 ==> (best_among(snap, snap_tp as int, pl, done, 64) < b1 ==> best_val == best_among(snap, snap_tp as int, pl, done, 64)),
                full && is_maximizing && done_one && bitboard == 0 ==> best_among(snap, snap_tp as int, pl, done, 64) < b1,
                full && !is_maximizing && done_one && bitboard == 0 ==> best_among(snap, snap_tp as int, pl, done, 64) > a1,
                full && is_maximizing && alpha >= beta ==> b1 <= best_val <= best_among(snap, snap_tp as int, pl, done, 64),
                full && !is_maximizing && alpha >= beta ==> best_among(snap, snap_tp as int, pl, done, 64) <= best_val <= a1,
            decreases bitboard,
        {
            let m = highest_card(bitboard);
            let val = search_after(state, m, alpha, beta, plies_left, tt, trick_points);
            proof {
                let d0 = done;
                done = d0 | single_spec(m);
                assert forall|x: int| #[trigger] mem(done, x) == (mem(d0, x) || x == m) by {
                    lemma_has_or(d0, single_spec(m), x);
                    lemma_has_single(m as u64, x);
                }
                assert(!mem(d0, m as int));
                lemma_best_among_insert(snap, snap_tp as int, 1, d0, done, m as int, 64);
                if full {
                    lemma_best_among_insert(snap, snap_tp as int, pl, d0, done, m as int, 64);
                }
            }
            if is_maximizing {
                if val > best_val {
                    best_val = val;
                    best_move_card = m;
                }
                if best_val > alpha {
                    alpha = best_val;
                }
            } else {
                if val < best_val {
                    best_val = val;
                    best_move_card = m;
                }
                if best_val < beta {
                    beta = best_val;
                }
            }
            proof {
                done_one = true;
            }
            if alpha >= beta {
                break;
            }
            proof {
                lemma_remove_decreases(bitboard, m as int);
                assert forall|c: int| #![trigger mem(bitboard & !single_spec(m), c)] mem(bitboard & !single_spec(m), c) implies mem(legal, c) by {
                    lemma_has_and_not(bitboard, single_spec(m), c);
                }
                assert forall|x: int| #[trigger] mem(bitboard & !single_spec(m), x) == (mem(bitboard, x) && x != m) by {
                    lemma_has_and_not(bitboard, single_spec(m), x);
                    lemma_has_single(m as u64, x);
                }
            }
            bitboard = bitboard & !single(m);
        }
    }

    let flag: u8 = if best_val <= alpha_entry {
        2
    } else if best_val >= beta_entry {
        1
    } else {
        0
    };
    proof {
        if exact1 {
            let mm = minimax(snap, snap_tp as int, 1);
            assert(mm == best_among(snap, snap_tp as int, 1, legal, 64));
            lemma_best_among_mono(snap, snap_tp as int, 1, done, legal, 64);
            if !(alpha >= beta) {
                assert forall|x: int| #[trigger] mem(legal, x) implies mem(done, x) by {}
                lemma_best_among_mono(snap, snap_tp as int, 1, legal, done, 64);
            }
            assert(window_bound(best_val as int, mm, a0 as int, b0 as int));
        }
        if full {
            let vv = best_among(snap, snap_tp as int, pl, legal, 64);
            assert(gv == vv);
            lemma_best_among_mono(snap, snap_tp as int, pl, done, legal, 64);
            if !(alpha >= beta) {
                assert forall|x: int| #[trigger] mem(legal, x) implies mem(done, x) by {}
                lemma_best_among_mono(snap, snap_tp as int, pl, legal, done, 64);
            }
            assert(strong_bound(best_val as int, gv, a1, b1));
            assert(bound_holds(flag, best_val, gv));
        }
    }
    let ghost pre_tt = *tt;
    tt.store_position(hash, best_val, flag, plies_left, best_move_card, *state, *trick_points);
    proof {
        pre_tt.lemma_slot(hash);
        if bounded {
            assert forall|i: int| 0 <= i < tt.table@.len() implies -1000 <= #[trigger] tt.table@[i].value <= 1000 by {
                if i != pre_tt.slot(hash) {
                    assert(tt.table@[i] == pre_tt.table@[i]);
                }
            }
        }
        if full {
            lemma_store_keeps_sound(pre_tt, *tt, pre_tt.slot(hash), tt.table@[pre_tt.slot(hash)], kk);
        }
        if good {
            if !done_one {
                assert(tt_best.is_none());
            }
            assert forall|i: int| 0 <= i < tt.table@.len() implies 0 <= #[trigger] tt.table@[i].value <= 120 by {
                if i != pre_tt.slot(hash) {
                    assert(tt.table@[i] == pre_tt.table@[i]);
                }
            }
        }
    }
    best_val
}

} // verus!
