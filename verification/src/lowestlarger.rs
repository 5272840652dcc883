//! The largest-input heuristic: prefer the smallest single coin that covers
//! the target on its own (least weight, least fragmentation); otherwise
//! accumulate from the largest coin downward.
use vstd::prelude::*;

use crate::accum::{accumulate_in_order, lemma_iseq_push, prefix_selection};
use crate::order::sort_indices;
use crate::sums::{is_perm, lemma_perm_contains_all, lemma_sum_at_push, valid_indices};
use crate::types::{CoinSelectionOpt, OutputGroup, SelectionError, SelectionOutput, WasteMetric};
use crate::waste::{
    arith_ok, coverage_check, covers_amounts, iseq, lemma_sel_within_totals, long_term_rate,
    total_covers, total_weight, valid_options, valid_selection, values_of, waste_exec, weights_of,
};

verus! {

/// The coin at position `q` alone covers the target plus the fee its own
/// weight incurs.
pub open spec fn single_covers(coins: Seq<OutputGroup>, opt: CoinSelectionOpt, q: int) -> bool {
    covers_amounts(opt, coins[q].value as int, coins[q].weight as int)
}

/// No single coin covers the target on its own.
pub open spec fn no_single_cover(coins: Seq<OutputGroup>, opt: CoinSelectionOpt) -> bool {
    forall|q: int| 0 <= q < coins.len() ==> !#[trigger] single_covers(coins, opt, q)
}

/// The coin at position `c` covers on its own, and no coin of smaller value
/// (ties by position) does: `c` is the smallest sufficient single coin.
pub open spec fn single_minimal(coins: Seq<OutputGroup>, opt: CoinSelectionOpt, c: int) -> bool {
    &&& single_covers(coins, opt, c)
    &&& forall|q: int|
        0 <= q < coins.len() && (coins[q].value < coins[c].value || (coins[q].value
            == coins[c].value && q < c)) ==> !#[trigger] single_covers(coins, opt, q)
}

/// Selects the smallest single coin whose value covers the target plus a
/// one-input fee; when no single coin suffices, accumulates coins from
/// largest to smallest until the running value covers the target plus the
/// running fee. The phase clauses pin which of the two happened: a
/// one-coin success is the smallest sufficient coin, and any other outcome
/// means no single coin suffices.
#[verifier::loop_isolation(false)]
pub fn select_coin_lowestlarger(inputs: &Vec<OutputGroup>, options: &CoinSelectionOpt) -> (r:
    Result<SelectionOutput, SelectionError>)
    requires
        valid_options(*options),
        arith_ok(inputs@, *options),
    ensures
        r matches Ok(out) ==> valid_selection(inputs@, *options, out),
        total_covers(inputs@, *options) ==> r is Ok,
        r is Err ==> r == Err::<SelectionOutput, SelectionError>(SelectionError::InsufficientFunds)
            && !total_covers(inputs@, *options),
        r matches Ok(out) ==> (out.selected_inputs@.len() == 1 && single_minimal(
            inputs@,
            *options,
            out.selected_inputs@[0] as int,
        )) || (no_single_cover(inputs@, *options) && exists|order: Seq<usize>|
            is_perm(inputs@.len() as int, iseq(order)) && #[trigger] prefix_selection(
                inputs@,
                *options,
                order,
                r,
            )),
        r is Err ==> no_single_cover(inputs@, *options),
{
    let n = inputs.len();
    let mut value_keys: Vec<u128> = Vec::new();
    let mut desc_keys: Vec<u128> = Vec::new();
    let mut i: usize = 0;
    while i < n
        invariant
            i <= n,
            value_keys@.len() == i,
            desc_keys@.len() == i,
            forall|q: int|
                0 <= q < i ==> (#[trigger] value_keys@[q]) == inputs@[q].value as u128,
        decreases n - i,
    {
        let v = inputs[i].value;
        value_keys.push(v as u128);
        desc_keys.push((u64::MAX - v) as u128);
        i = i + 1;
    }
    let ascending = sort_indices(&value_keys);
    let mut j: usize = 0;
    while j < n
        invariant
            j <= n,
            forall|p: int|
                0 <= p < j ==> !single_covers(inputs@, *options, (#[trigger] ascending@[p]) as int),
        decreases n - j,
    {
        let idx = ascending[j];
        proof {
            assert(iseq(ascending@)[j as int] == ascending@[j as int] as int);
            assert(0 <= idx < n);
            let single = Seq::<int>::empty().push(idx as int);
            assert(valid_indices(n as int, single));
            lemma_sum_at_push(values_of(inputs@), Seq::<int>::empty(), idx as int);
            lemma_sum_at_push(weights_of(inputs@), Seq::<int>::empty(), idx as int);
            lemma_sel_within_totals(inputs@, single);
        }
        let c = inputs[idx];
        proof {
            vstd::arithmetic::mul::lemma_mul_inequality(
                options.base_weight + c.weight + options.change_weight,
                options.base_weight + total_weight(inputs@) + options.change_weight,
                options.target_feerate as int,
            );
        }
        let (covered, excess) = coverage_check(options, c.value, c.weight);
        if covered {
            let mut sel: Vec<usize> = Vec::new();
            sel.push(idx);
            proof {
                lemma_iseq_push(Seq::<usize>::empty(), idx);
                assert(iseq(sel@) =~= Seq::<int>::empty().push(idx as int));
                vstd::arithmetic::mul::lemma_mul_inequality(
                    c.weight as int,
                    options.base_weight + total_weight(inputs@) + options.change_weight,
                    options.target_feerate as int,
                );
                vstd::arithmetic::mul::lemma_mul_inequality(
                    c.weight as int,
                    options.base_weight + total_weight(inputs@) + options.change_weight,
                    long_term_rate(*options),
                );
            }
            let w = waste_exec(options, c.weight, excess);
            proof {
                lemma_perm_contains_all(n as int, iseq(ascending@));
                assert forall|q: int|
                    0 <= q < n && (inputs@[q].value < inputs@[idx as int].value || (
                    inputs@[q].value == inputs@[idx as int].value && q
                        < idx as int)) implies !single_covers(inputs@, *options, q) by {
                    assert(iseq(ascending@).contains(q));
                    let p = choose|p: int|
                        0 <= p < iseq(ascending@).len() && iseq(ascending@)[p] == q;
                    assert(iseq(ascending@)[p] == ascending@[p] as int);
                    if p > j {
                        assert(crate::order::lex_ok(value_keys@, ascending@, j as int, p));
                        assert(value_keys@[q] == inputs@[q].value as u128);
                        assert(value_keys@[idx as int] == inputs@[idx as int].value as u128);
                        assert(false);
                    } else if p < j {
                        assert(!single_covers(inputs@, *options, ascending@[p] as int));
                    } else {
                        assert(q == idx as int);
                        assert(false);
                    }
                }
            }
            return Ok(SelectionOutput { selected_inputs: sel, waste: WasteMetric(w) });
        }
        j = j + 1;
    }
    proof {
        assert(no_single_cover(inputs@, *options)) by {
            lemma_perm_contains_all(n as int, iseq(ascending@));
            assert forall|q: int| 0 <= q < n implies !single_covers(inputs@, *options, q) by {
                assert(iseq(ascending@).contains(q));
                let p = choose|p: int| 0 <= p < iseq(ascending@).len() && iseq(ascending@)[p] == q;
                assert(iseq(ascending@)[p] == ascending@[p] as int);
                assert(!single_covers(inputs@, *options, ascending@[p] as int));
            }
        }
    }
    let descending = sort_indices(&desc_keys);
    let r = accumulate_in_order(inputs, options, &descending);
    proof {
        assert(prefix_selection(inputs@, *options, descending@, r));
    }
    r
}

} // verus!
