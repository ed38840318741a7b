//! Solver for the numbers round of a televised arithmetic game: combine a
//! selection of numbers, two at a time, into a target with as few steps as
//! possible.

pub mod operation;
pub mod step;
pub mod search;
pub mod round;
pub mod generate;
pub mod laws;
pub mod render;
pub mod timer;

pub use operation::Operation;
pub use round::{Round, Solution};
pub use step::Step;
