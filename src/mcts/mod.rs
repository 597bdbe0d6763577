pub mod algorithm;
pub mod node;
pub mod rollout_policy;
pub mod utils;
