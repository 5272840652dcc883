//! The exact-match strategy: a pruned depth-first search over the binary
//! include/exclude tree of the coins, sorted descending by value. A branch is
//! cut when its remaining coins cannot reach the target or once it covers the
//! target, and the whole search is bounded so it terminates on any input.
use vstd::prelude::*;

use crate::accum::{copy_indices, lemma_iseq_push};
use crate::order::sort_indices;
use crate::sums::{
    in_range, is_perm, lemma_sum_at_front, lemma_sum_at_le_total, lemma_sum_at_perm,
    lemma_sum_at_push, lemma_sum_prefix_le, sum_at, sum_prefix, valid_indices,
};
use crate::types::{CoinSelectionOpt, OutputGroup, SelectionError, SelectionOutput, WasteMetric};
use crate::waste::{
    arith_ok, change_weight_of, coverage_check, covers_amounts, excess_amounts, excess_of, iseq,
    lemma_amts_nonneg, lemma_fee_nonneg, lemma_sel_within_totals, long_term_rate, sel_value,
    sel_weight, total_covers, total_value, total_weight, valid_options, valid_selection,
    values_of, waste_exec, weights_of,
};

verus! {

/// How many search steps one branch-and-bound call may take before it gives
/// up with "no solution found".
pub const BNB_MAX_TRIES: u64 = 100000;

/// The last `t` positions of the search order.
spec fn tail_idxs(order: Seq<usize>, t: int) -> Seq<int> {
    iseq(order).subrange(order.len() - t, order.len() as int)
}

/// The value of the coins at the last `t` positions of the search order.
spec fn tail_value(inputs: Seq<OutputGroup>, order: Seq<usize>, t: int) -> int {
    sum_at(values_of(inputs), tail_idxs(order, t))
}

/// The weight of the coins at the last `t` positions of the search order.
spec fn tail_weight(inputs: Seq<OutputGroup>, order: Seq<usize>, t: int) -> int {
    sum_at(weights_of(inputs), tail_idxs(order, t))
}

/// A tail of the search order is a set of distinct valid positions, so its
/// value and weight stay within the totals.
proof fn lemma_tail_valid(inputs: Seq<OutputGroup>, order: Seq<usize>, t: int)
    requires
        is_perm(inputs.len() as int, iseq(order)),
        0 <= t <= order.len(),
    ensures
        valid_indices(inputs.len() as int, tail_idxs(order, t)),
        0 <= tail_value(inputs, order, t) <= total_value(inputs),
        0 <= tail_weight(inputs, order, t) <= total_weight(inputs),
{
    let s = tail_idxs(order, t);
    let off = order.len() - t;
    assert(s.no_duplicates()) by {
        assert forall|a: int, b: int| 0 <= a < b < s.len() implies s[a] != s[b] by {
            assert(s[a] == iseq(order)[a + off]);
            assert(s[b] == iseq(order)[b + off]);
        }
    }
    assert(in_range(inputs.len() as int, s)) by {
        assert forall|a: int| 0 <= a < s.len() implies 0 <= #[trigger] s[a] < inputs.len() by {
            assert(s[a] == iseq(order)[a + off]);
            assert(0 <= iseq(order)[a + off] < inputs.len());
        }
    }
    lemma_amts_nonneg(inputs);
    lemma_sum_at_le_total(values_of(inputs), s);
    lemma_sum_at_le_total(weights_of(inputs), s);
}

/// One step of the tail sums: the tail of `t` positions is the coin at the
/// order's position `len - t` plus the tail of `t - 1` positions.
proof fn lemma_tail_step(inputs: Seq<OutputGroup>, order: Seq<usize>, t: int)
    requires
        is_perm(inputs.len() as int, iseq(order)),
        0 < t <= order.len(),
    ensures
        tail_value(inputs, order, t) == values_of(inputs)[iseq(order)[order.len() - t]]
            + tail_value(inputs, order, t - 1),
        tail_weight(inputs, order, t) == weights_of(inputs)[iseq(order)[order.len() - t]]
            + tail_weight(inputs, order, t - 1),
{
    let s = tail_idxs(order, t);
    assert(s[0] == iseq(order)[order.len() - t]);
    assert(s.subrange(1, s.len() as int) =~= tail_idxs(order, t - 1));
    lemma_sum_at_front(values_of(inputs), s);
    lemma_sum_at_front(weights_of(inputs), s);
}

/// One node of the search: decide the coin at `order[pos]`. `rsuffix[t]` is
/// the value of the last `t` coins of the order, used to cut branches that
/// can no longer reach the target. The best feasible selection seen so far
/// is kept in `best`, lowest waste winning; the completeness clause owes a
/// recorded solution whenever including every remaining coin would cover
/// and the budget suffices for that all-include path.
#[verifier::loop_isolation(false)]
fn bnb_rec(
    inputs: &Vec<OutputGroup>,
    opt: &CoinSelectionOpt,
    order: &Vec<usize>,
    rsuffix: &Vec<u128>,
    pos: usize,
    sel: &mut Vec<usize>,
    sum_v: u64,
    sum_w: u64,
    best: &mut Option<SelectionOutput>,
    tries: &mut u64,
)
    requires
        valid_options(*opt),
        arith_ok(inputs@, *opt),
        is_perm(inputs@.len() as int, iseq(order@)),
        pos <= inputs@.len(),
        rsuffix@.len() == inputs@.len() + 1,
        forall|q: int|
            0 <= q < rsuffix@.len() ==> (#[trigger] rsuffix@[q]) as int == tail_value(
                inputs@,
                order@,
                q,
            ),
        valid_indices(inputs@.len() as int, iseq(old(sel)@)),
        sum_v == sel_value(inputs@, iseq(old(sel)@)),
        sum_w == sel_weight(inputs@, iseq(old(sel)@)),
        forall|j: int|
            pos <= j < inputs@.len() ==> !iseq(old(sel)@).contains(#[trigger] iseq(order@)[j]),
        (*old(best)) matches Some(b) ==> valid_selection(inputs@, *opt, b),
        !covers_amounts(*opt, sum_v as int, sum_w as int) || (*old(best)) is Some,
    ensures
        final(sel)@ == old(sel)@,
        (*final(best)) matches Some(b) ==> valid_selection(inputs@, *opt, b),
        (*old(best)) matches Some(b0) ==> ((*final(best)) matches Some(b1) && b1.waste.0
            <= b0.waste.0),
        covers_amounts(
            *opt,
            sum_v + tail_value(inputs@, order@, inputs@.len() - pos),
            sum_w + tail_weight(inputs@, order@, inputs@.len() - pos),
        ) && (*old(tries)) > inputs@.len() - pos ==> (*final(best)) is Some,
    decreases inputs@.len() - pos,
{
    let n = inputs.len();
    let ghost tv = tail_value(inputs@, order@, n - pos);
    let ghost tw = tail_weight(inputs@, order@, n - pos);
    if *tries == 0 {
        return ;
    }
    *tries = *tries - 1;
    if pos >= n {
        proof {
            assert(tail_idxs(order@, 0) =~= Seq::<int>::empty());
        }
        return ;
    }
    proof {
        lemma_tail_valid(inputs@, order@, (n - pos) as int);
    }
    let rem = rsuffix[n - pos];
    if (sum_v as u128) + rem < (opt.target_value as u128) {
        proof {
            if covers_amounts(*opt, sum_v + tv, sum_w + tw) {
                lemma_fee_nonneg(
                    *opt,
                    opt.base_weight + (sum_w + tw) + change_weight_of(
                        *opt,
                        excess_amounts(*opt, sum_v + tv, sum_w + tw),
                    ),
                );
                assert(change_weight_of(*opt, excess_amounts(*opt, sum_v + tv, sum_w + tw)) >= 0);
                assert(sum_v + tv >= opt.target_value);
                assert(false);
            }
        }
        return ;
    }
    let idx = order[pos];
    proof {
        assert(iseq(order@)[pos as int] == order@[pos as int] as int);
        assert(0 <= idx < n);
        lemma_iseq_push(sel@, idx);
        assert(!iseq(sel@).contains(idx as int));
        assert(iseq(sel@.push(idx)).no_duplicates());
        assert(in_range(n as int, iseq(sel@.push(idx)))) by {
            assert forall|i: int| 0 <= i < iseq(sel@.push(idx)).len() implies 0 <= #[trigger] iseq(
                sel@.push(idx),
            )[i] < n by {
                assert(iseq(sel@.push(idx))[i] == iseq(sel@).push(idx as int)[i]);
            }
        }
        lemma_amts_nonneg(inputs@);
        lemma_sel_within_totals(inputs@, iseq(sel@.push(idx)));
        lemma_sum_at_push(values_of(inputs@), iseq(sel@), idx as int);
        lemma_sum_at_push(weights_of(inputs@), iseq(sel@), idx as int);
        assert(values_of(inputs@)[idx as int] == inputs@[idx as int].value as int);
        assert(weights_of(inputs@)[idx as int] == inputs@[idx as int].weight as int);
        lemma_tail_step(inputs@, order@, (n - pos) as int);
        assert(tv == inputs@[idx as int].value + tail_value(inputs@, order@, n - pos - 1));
        assert(tw == inputs@[idx as int].weight + tail_weight(inputs@, order@, n - pos - 1));
    }
    let c = inputs[idx];
    let nv = sum_v + c.value;
    let nw = sum_w + c.weight;
    let ghost pre_sel = sel@;
    sel.push(idx);
    proof {
        vstd::arithmetic::mul::lemma_mul_inequality(
            opt.base_weight + nw + opt.change_weight,
            opt.base_weight + total_weight(inputs@) + opt.change_weight,
            opt.target_feerate as int,
        );
    }
    let (covered, excess) = coverage_check(opt, nv, nw);
    if covered {
        proof {
            assert(excess as int == excess_of(inputs@, *opt, iseq(sel@)));
            vstd::arithmetic::mul::lemma_mul_inequality(
                nw as int,
                opt.base_weight + total_weight(inputs@) + opt.change_weight,
                opt.target_feerate as int,
            );
            vstd::arithmetic::mul::lemma_mul_inequality(
                nw as int,
                opt.base_weight + total_weight(inputs@) + opt.change_weight,
                long_term_rate(*opt),
            );
        }
        let w = waste_exec(opt, nw, excess);
        let replace = match best {
            None => true,
            Some(b) => w < b.waste.0,
        };
        if replace {
            let chosen = copy_indices(sel);
            *best = Some(SelectionOutput { selected_inputs: chosen, waste: WasteMetric(w) });
        }
        proof {
            assert((*best) is Some);
        }
    } else {
        proof {
            assert forall|j: int| pos + 1 <= j < n implies !iseq(sel@).contains(
                #[trigger] iseq(order@)[j],
            ) by {
                assert(iseq(sel@) =~= iseq(pre_sel).push(idx as int));
                if iseq(sel@).contains(iseq(order@)[j]) {
                    if iseq(order@)[j] == idx as int {
                        assert(iseq(order@)[j] == iseq(order@)[pos as int]);
                    } else {
                        let t = choose|t: int|
                            0 <= t < iseq(sel@).len() && iseq(sel@)[t] == iseq(order@)[j];
                        assert(iseq(pre_sel)[t] == iseq(order@)[j]);
                    }
                }
            }
        }
        bnb_rec(inputs, opt, order, rsuffix, pos + 1, sel, nv, nw, best, tries);
    }
    sel.pop();
    proof {
        assert(sel@ =~= pre_sel);
        if covers_amounts(*opt, sum_v as int, sum_w as int) {
            assert((*best) is Some);
        }
    }
    bnb_rec(inputs, opt, order, rsuffix, pos + 1, sel, sum_v, sum_w, best, tries);
}

/// The exact-match search: sorts the coins descending by value, walks the
/// include/exclude tree with pruning, and returns the lowest-waste feasible
/// subset it visited. Success is owed whenever spending every coin covers
/// the target and the step budget exceeds the candidate count, since the
/// all-include path then records a solution; when the search finds nothing,
/// the failure is insufficient funds exactly when even the whole list
/// cannot cover the target plus the fee, else no solution found.
#[verifier::loop_isolation(false)]
pub fn select_coin_bnb(inputs: &Vec<OutputGroup>, options: &CoinSelectionOpt) -> (r: Result<
    SelectionOutput,
    SelectionError,
>)
    requires
        valid_options(*options),
        arith_ok(inputs@, *options),
    ensures
        r matches Ok(out) ==> valid_selection(inputs@, *options, out),
        r is Err ==> (r == Err::<SelectionOutput, SelectionError>(SelectionError::InsufficientFunds)
            <==> !total_covers(inputs@, *options)),
        total_covers(inputs@, *options) && inputs@.len() < BNB_MAX_TRIES ==> r is Ok,
{
    let n = inputs.len();
    proof {
        lemma_amts_nonneg(inputs@);
    }
    let mut total_v: u64 = 0;
    let mut total_w: u64 = 0;
    let mut i: usize = 0;
    while i < n
        invariant
            i <= n,
            total_v == sum_prefix(values_of(inputs@), i as int),
            total_w == sum_prefix(weights_of(inputs@), i as int),
        decreases n - i,
    {
        proof {
            lemma_sum_prefix_le(values_of(inputs@), i + 1, n as int);
            lemma_sum_prefix_le(weights_of(inputs@), i + 1, n as int);
        }
        let c = inputs[i];
        total_v = total_v + c.value;
        total_w = total_w + c.weight;
        i = i + 1;
    }
    let (total_covered, _) = coverage_check(options, total_v, total_w);
    let mut desc_keys: Vec<u128> = Vec::new();
    let mut j: usize = 0;
    while j < n
        invariant
            j <= n,
            desc_keys@.len() == j,
        decreases n - j,
    {
        desc_keys.push((u64::MAX - inputs[j].value) as u128);
        j = j + 1;
    }
    let order = sort_indices(&desc_keys);
    let mut rsuffix: Vec<u128> = Vec::new();
    rsuffix.push(0);
    proof {
        assert(tail_idxs(order@, 0) =~= Seq::<int>::empty());
    }
    let mut t: usize = 0;
    while t < n
        invariant
            t <= n,
            rsuffix@.len() == t + 1,
            forall|q: int|
                0 <= q < rsuffix@.len() ==> (#[trigger] rsuffix@[q]) as int == tail_value(
                    inputs@,
                    order@,
                    q,
                ),
        decreases n - t,
    {
        let idx = order[n - 1 - t];
        proof {
            assert(iseq(order@)[(n - 1 - t) as int] == order@[(n - 1 - t) as int] as int);
            assert(0 <= idx < n);
            lemma_tail_valid(inputs@, order@, t as int);
            lemma_tail_valid(inputs@, order@, t + 1);
            lemma_tail_step(inputs@, order@, t + 1);
            assert(values_of(inputs@)[idx as int] == inputs@[idx as int].value as int);
        }
        let last = rsuffix[t];
        rsuffix.push(last + (inputs[idx].value as u128));
        t = t + 1;
    }
    let mut sel: Vec<usize> = Vec::new();
    let mut best: Option<SelectionOutput> = None;
    let mut tries: u64 = BNB_MAX_TRIES;
    proof {
        lemma_fee_nonneg(*options, options.base_weight as int);
        lemma_fee_nonneg(*options, options.base_weight + options.change_weight);
        assert(tail_idxs(order@, n as int) =~= iseq(order@));
        lemma_sum_at_perm(values_of(inputs@), iseq(order@));
        lemma_sum_at_perm(weights_of(inputs@), iseq(order@));
        assert(iseq(sel@).len() == 0);
    }
    bnb_rec(inputs, options, &order, &rsuffix, 0, &mut sel, 0, 0, &mut best, &mut tries);
    match best {
        Some(out) => Ok(out),
        None => {
            if total_covered {
                Err(SelectionError::NoSolutionFound)
            } else {
                Err(SelectionError::InsufficientFunds)
            }
        },
    }
}

} // verus!
