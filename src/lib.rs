pub mod gomoku;
pub mod interface;
pub mod mcts;

pub use gomoku::{Gomoku, Move, State, Stone, CELLS};
pub use mcts::algorithm::{MCTSOptions, MonteCarloTreeSearchContinue};
pub use mcts::node::{
    new_expansion, Node, NodeExpansion, Proven, Tree, LOSS, SCALE, SCORE_PROVEN_WIN,
    SCORE_UNVISITED, WIN,
};
pub use mcts::rollout_policy::{centre_weight, RolloutPolicy};
pub use mcts::utils::{ilog2, isqrt, random_best, AtomicBox};
