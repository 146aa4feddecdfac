pub mod days;
pub mod etc;

pub use etc::grid::{Grid, Point, Position};
pub use etc::solution::{Solution, SolutionPair};
