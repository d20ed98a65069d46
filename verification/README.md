# sueca_solver

A game engine and solver for Sueca, the Portuguese four-player partnership
trick-taking game, with its rules and algorithms proved correct in Verus.

- `src/` — the library, verified:
  - `bits`: card sets as 64-bit masks, their counts and members in order.
  - `engine`: the bitboard game state, legal moves, trick resolution, and the
    invariants every legal play keeps (points conserved, 120 in all).
  - `simulator`: a game that also records the trick and the suits each player
    has shown to be void in.
  - `rng`: the linear congruential generator the crate draws from.
  - `search`: Zobrist hashing, the transposition table and alpha-beta search.
  - `heuristic`: the Elite and older rule-based players and the intent
    resolver, each choice stated exactly.
  - `pimc`: sampling hidden hands consistent with what is known (it succeeds
    exactly when such a world exists), and scoring moves in sampled worlds by
    search or by Elite playouts.
  - `belief`: the 35 features of what a player can see, as exact fractions.
  - `deals`: random deals, shuffled by the `rand` crate or by the crate's own
    generator.
  - `evaluator`: bots and whole simulated games.
  - `matchup`: one deal played with the bots' seats swapped, and the
    signal-to-noise comparison of two bots over the four rotations of a deal.
  - `ranking`: sorting a population into Pareto fronts, each item placed
    after everything that dominates it.
  - `compile_rules`, `compatibility`, `constants`: the structure of evolved
    networks (reachable nodes, depths), the genome distance counts, and the
    network's dimensions and feature names.
- `app/` — what works in floating point or across threads: Monte-Carlo
  statistics over sampled worlds (`solve_pimc`, `solve_pimc_rollout`), the
  `f64` belief vector, the PIMC bot, genome distances and population ranks,
  and matchups run over many deals in parallel.
- `tests/` — tests run against the compiled library.
