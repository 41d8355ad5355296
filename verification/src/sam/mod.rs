//! Turning recorded conversations ("Share and Multiply" chat data) into the
//! empirical distributions the simulation samples from.

pub mod extract;
pub mod lens;
pub mod weights;
pub mod process;
