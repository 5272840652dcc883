//! The randomized fallback: accumulate coins in a scrambled order until the
//! target is met. It rarely wins on waste but, whenever total funds suffice,
//! it is guaranteed to produce a usable answer.
use vstd::prelude::*;

use crate::accum::{accumulate_in_order, prefix_selection};
use crate::order::{scrambled_keys, sort_indices};
use crate::sums::is_perm;
use crate::types::{CoinSelectionOpt, OutputGroup, SelectionError, SelectionOutput};
use crate::waste::{arith_ok, iseq, total_covers, valid_options, valid_selection};

verus! {

/// Selects coins in a single scrambled draw order, accumulating until the
/// running value covers the target plus the running fee: the outcome is the
/// shortest covering prefix of one permutation of the candidates.
pub fn select_coin_srd(inputs: &Vec<OutputGroup>, options: &CoinSelectionOpt) -> (r: Result<
    SelectionOutput,
    SelectionError,
>)
    requires
        valid_options(*options),
        arith_ok(inputs@, *options),
    ensures
        r matches Ok(out) ==> valid_selection(inputs@, *options, out),
        total_covers(inputs@, *options) ==> r is Ok,
        r is Err ==> r == Err::<SelectionOutput, SelectionError>(SelectionError::InsufficientFunds)
            && !total_covers(inputs@, *options),
        exists|order: Seq<usize>|
            is_perm(inputs@.len() as int, iseq(order)) && #[trigger] prefix_selection(
                inputs@,
                *options,
                order,
                r,
            ),
{
    let keys = scrambled_keys(0x5DEECE66D, inputs.len());
    let order = sort_indices(&keys);
    let r = accumulate_in_order(inputs, options, &order);
    proof {
        assert(prefix_selection(inputs@, *options, order@, r));
    }
    r
}

} // verus!
