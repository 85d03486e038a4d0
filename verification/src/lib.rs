//! Turn-by-turn solvers for a two-team territory game on a grid: the board
//! model, the rules that resolve a turn, candidate generation and valuation,
//! a min-cost-flow assignment of agents to tiles, regret matching, beam
//! search over move sequences and the bookkeeping of simulated annealing.
//!
//! All scores are integers. Every executable function carries a contract
//! that the verifier checks.
pub mod algorithms;
pub mod api;
pub mod field;
pub mod random;
pub mod region;
pub mod simulator;
