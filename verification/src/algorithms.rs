//! The solvers and the parts they share.
pub mod annealing;
pub mod assignment;
pub mod base;
pub mod flow;
pub mod greedy_select;
pub mod matching;
pub mod objective;
pub mod regret;
pub mod simple_dp;
pub mod simple_regret;
pub mod social_distance;

pub use base::Solver;
pub use greedy_select::GreedySelect;
pub use simple_dp::SimpleDp;
pub use simple_regret::SimpleRegret;
pub use social_distance::SocialDistance;
