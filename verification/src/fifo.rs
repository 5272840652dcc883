//! The oldest-first strategy: consume coins in arrival order, recomputing
//! the fee as the accumulated weight grows. Coins without a recorded arrival
//! index come after every coin with one, in their given list order.
use vstd::prelude::*;

use crate::accum::{accumulate_in_order, prefix_selection};
use crate::order::sort_indices;
use crate::sums::is_perm;
use crate::types::{CoinSelectionOpt, OutputGroup, SelectionError, SelectionOutput};
use crate::waste::{arith_ok, iseq, total_covers, valid_options, valid_selection};

verus! {

/// The arrival rank of a coin: its recorded arrival index, or - for a coin
/// without one - a rank above every recorded index, so unsequenced coins
/// come after all sequenced ones.
pub open spec fn arrival_key(c: OutputGroup) -> int {
    match c.creation_sequence {
        Some(s) => s as int,
        None => 0x10000000000000000,
    }
}

/// Positions `a` and `b` of `order` stand in arrival order: ascending by
/// arrival rank, ties by position in the candidate list.
pub open spec fn arrival_ok(coins: Seq<OutputGroup>, order: Seq<usize>, a: int, b: int) -> bool {
    arrival_key(coins[order[a] as int]) < arrival_key(coins[order[b] as int]) || (arrival_key(
        coins[order[a] as int],
    ) == arrival_key(coins[order[b] as int]) && order[a] < order[b])
}

/// `order` walks the coins oldest first: ascending by arrival rank, coins
/// without a rank after all others in list order. Together with being a
/// permutation this determines `order` uniquely.
pub open spec fn arrival_ordered(coins: Seq<OutputGroup>, order: Seq<usize>) -> bool {
    forall|a: int, b: int| 0 <= a < b < order.len() ==> #[trigger] arrival_ok(coins, order, a, b)
}

/// Selects coins oldest first: ascending by `creation_sequence`, coins
/// without one after all others in list order. Succeeds with exactly the
/// shortest covering prefix of that arrival order - the last ensures clause
/// exhibits the order and pins the outcome to it; reports insufficient
/// funds when even the whole list cannot cover the target plus its fee.
#[verifier::loop_isolation(false)]
pub fn select_coin_fifo(inputs: &Vec<OutputGroup>, options: &CoinSelectionOpt) -> (r: Result<
    SelectionOutput,
    SelectionError,
>)
    requires
        valid_options(*options),
        arith_ok(inputs@, *options),
    ensures
        r matches Ok(out) ==> valid_selection(inputs@, *options, out),
        total_covers(inputs@, *options) ==> r is Ok,
        r is Err ==> r == Err::<SelectionOutput, SelectionError>(SelectionError::InsufficientFunds)
            && !total_covers(inputs@, *options),
        exists|order: Seq<usize>|
            is_perm(inputs@.len() as int, iseq(order)) && #[trigger] arrival_ordered(
                inputs@,
                order,
            ) && prefix_selection(inputs@, *options, order, r),
{
    let n = inputs.len();
    let mut keys: Vec<u128> = Vec::new();
    let mut i: usize = 0;
    while i < n
        invariant
            i <= n,
            keys@.len() == i,
            forall|q: int| 0 <= q < i ==> (#[trigger] keys@[q]) as int == arrival_key(inputs@[q]),
        decreases n - i,
    {
        let key: u128 = match inputs[i].creation_sequence {
            Some(s) => s as u128,
            None => 0x10000000000000000u128,
        };
        keys.push(key);
        i = i + 1;
    }
    let order = sort_indices(&keys);
    let r = accumulate_in_order(inputs, options, &order);
    proof {
        assert(arrival_ordered(inputs@, order@)) by {
            assert forall|a: int, b: int| 0 <= a < b < order@.len() implies #[trigger] arrival_ok(
                inputs@,
                order@,
                a,
                b,
            ) by {
                assert(crate::order::lex_ok(keys@, order@, a, b));
                assert(iseq(order@)[a] == order@[a] as int);
                assert(iseq(order@)[b] == order@[b] as int);
                assert(0 <= iseq(order@)[a] < inputs@.len());
                assert(0 <= iseq(order@)[b] < inputs@.len());
                assert(keys@[order@[a] as int] as int == arrival_key(inputs@[order@[a] as int]));
                assert(keys@[order@[b] as int] as int == arrival_key(inputs@[order@[b] as int]));
            }
        }
    }
    r
}

} // verus!
