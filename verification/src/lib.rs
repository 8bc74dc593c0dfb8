//! Builds chains of two-dice outcome sets whose cumulative probabilities
//! approximate a caller-supplied sequence of targets, by randomized search
//! over orderings of the 11 possible sums.

pub mod probability;
pub mod random;
pub mod coverage;
pub mod deviation;
pub mod search;
