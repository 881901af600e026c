pub mod constraints;
pub mod counts;
pub mod feedback;
pub mod ranker;
pub mod solver;
pub mod word;

pub use solver::{WordleResult, WordleSolver};
