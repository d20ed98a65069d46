pub mod belief;
pub mod bits;
pub mod compatibility;
pub mod compile_rules;
pub mod constants;
pub mod deals;
pub mod engine;
pub mod evaluator;
pub mod heuristic;
pub mod matchup;
pub mod pimc;
pub mod ranking;
pub mod rng;
pub mod search;
pub mod simulator;
