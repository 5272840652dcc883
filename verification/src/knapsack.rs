//! The approximate subset-sum strategy: a bounded number of scrambled greedy
//! passes over the coins, keeping the lowest-waste feasible subset seen. A
//! heuristic by design: it samples the solution space broadly instead of
//! promising global optimality.
use vstd::prelude::*;

use crate::accum::{accumulate_in_order, prefix_selection};
use crate::order::{scrambled_keys, sort_indices};
use crate::sums::is_perm;
use crate::types::{CoinSelectionOpt, OutputGroup, SelectionError, SelectionOutput};
use crate::waste::{arith_ok, iseq, total_covers, valid_options, valid_selection};

verus! {

/// How many scrambled greedy passes one selection request makes.
pub const KNAPSACK_PASSES: u64 = 16;

/// Runs `KNAPSACK_PASSES` scrambled accumulation passes and returns the
/// lowest-waste success among them - every success is the shortest covering
/// prefix of some permutation of the candidates; fails only when a pass
/// shows that even the whole candidate list cannot cover the target plus
/// its fee.
#[verifier::loop_isolation(false)]
pub fn select_coin_knapsack(inputs: &Vec<OutputGroup>, options: &CoinSelectionOpt) -> (r: Result<
    SelectionOutput,
    SelectionError,
>)
    requires
        valid_options(*options),
        arith_ok(inputs@, *options),
    ensures
        r matches Ok(out) ==> valid_selection(inputs@, *options, out),
        total_covers(inputs@, *options) ==> r is Ok,
        r is Err ==> r == Err::<SelectionOutput, SelectionError>(SelectionError::InsufficientFunds)
            && !total_covers(inputs@, *options),
        r matches Ok(out) ==> exists|order: Seq<usize>|
            is_perm(inputs@.len() as int, iseq(order)) && #[trigger] prefix_selection(
                inputs@,
                *options,
                order,
                Ok::<SelectionOutput, SelectionError>(out),
            ),
{
    let keys0 = scrambled_keys(0x9E3779B9, inputs.len());
    let order0 = sort_indices(&keys0);
    let r0 = accumulate_in_order(inputs, options, &order0);
    proof {
        assert(prefix_selection(inputs@, *options, order0@, r0));
    }
    let mut best: SelectionOutput = match r0 {
        Ok(out) => out,
        Err(_) => {
            return Err(SelectionError::InsufficientFunds);
        },
    };
    let mut pass: u64 = 1;
    while pass < KNAPSACK_PASSES
        invariant
            valid_selection(inputs@, *options, best),
            exists|order: Seq<usize>|
                is_perm(inputs@.len() as int, iseq(order)) && #[trigger] prefix_selection(
                    inputs@,
                    *options,
                    order,
                    Ok::<SelectionOutput, SelectionError>(best),
                ),
        decreases KNAPSACK_PASSES - pass,
    {
        let keys = scrambled_keys(
            pass.wrapping_mul(0x2545F4914F6CDD1D).wrapping_add(0x9E3779B9),
            inputs.len(),
        );
        let order = sort_indices(&keys);
        let rp = accumulate_in_order(inputs, options, &order);
        proof {
            assert(prefix_selection(inputs@, *options, order@, rp));
        }
        match rp {
            Ok(out) => {
                if out.waste.0 < best.waste.0 {
                    best = out;
                }
            },
            Err(_) => {
                return Err(SelectionError::InsufficientFunds);
            },
        }
        pass = pass + 1;
    }
    Ok(best)
}

} // verus!
