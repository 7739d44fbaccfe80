//! A solver for Kuhn poker: counterfactual regret minimization (CFR) over the
//! three-card, single-bet-round game tree, with regret-matching strategies.
//!
//! All quantities that the learning loop accumulates (regrets, strategy
//! weights, probabilities, expected values) are fixed-point numbers: an `i64`
//! counting millionths, so that a probability of one is `SCALE`.

pub mod cfr;
pub mod kuhn;
