//! A coin-selection engine for wallet software: given a list of spendable
//! coins and the parameters of a payment, it picks which coins to consume so
//! that their value covers the target amount plus the fee, while keeping the
//! long-run cost ("waste") of the selection low.
//!
//! Five independent strategies are provided - an exact branch-and-bound
//! search, an approximate subset-sum search, a largest-input heuristic, an
//! oldest-first heuristic, and a randomized fallback - together with an
//! arbitration function that runs them all and returns the lowest-waste
//! success, or a classified failure when none succeeds.

pub mod types;
pub mod sums;
pub mod waste;
pub mod order;
pub mod accum;
pub mod bnb;
pub mod fifo;
pub mod knapsack;
pub mod lowestlarger;
pub mod srd;
pub mod selectcoin;
