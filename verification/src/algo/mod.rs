pub mod new_heuristic;

pub use new_heuristic::{compute, NewHeuristic};
