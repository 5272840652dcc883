//! The accumulation core shared by the greedy and randomized strategies:
//! walk the candidate positions in a given order, keep a running value and
//! weight, and stop at the first prefix whose value covers the target plus
//! the fee the prefix must pay - the change output's weight included when
//! one is created.
use vstd::prelude::*;

use crate::sums::{in_range, is_perm, lemma_sum_at_perm, lemma_sum_at_push, valid_indices};
use crate::types::{CoinSelectionOpt, OutputGroup, SelectionError, SelectionOutput, WasteMetric};
use crate::waste::{
    arith_ok, coverage_check, covers, excess_of, iseq, lemma_amts_nonneg, lemma_fee_nonneg,
    lemma_sel_within_totals, long_term_rate, sel_value, sel_weight, total_covers, total_weight,
    valid_options, valid_selection, values_of, waste_exec, weights_of,
};

verus! {

/// Mapping positions to mathematical integers commutes with appending one.
pub proof fn lemma_iseq_push(s: Seq<usize>, x: usize)
    ensures
        iseq(s.push(x)) =~= iseq(s).push(x as int),
{
    assert forall|i: int| 0 <= i < s.len() + 1 implies iseq(s.push(x))[i] == iseq(s).push(
        x as int,
    )[i] by {
        if i < s.len() {
            assert(s.push(x)[i] == s[i]);
        } else {
            assert(s.push(x)[i] == x);
        }
    }
}

/// A fresh copy of a list of positions.
pub fn copy_indices(v: &Vec<usize>) -> (r: Vec<usize>)
    ensures
        r@ == v@,
{
    let mut r: Vec<usize> = Vec::new();
    let mut i: usize = 0;
    while i < v.len()
        invariant
            i <= v@.len(),
            r@ == v@.subrange(0, i as int),
        decreases v@.len() - i,
    {
        r.push(v[i]);
        proof {
            assert(r@ =~= v@.subrange(0, i + 1));
        }
        i = i + 1;
    }
    proof {
        assert(r@ =~= v@);
    }
    r
}

/// `r` is the outcome of accumulating along `order`: a success is exactly
/// the shortest covering prefix of `order` (no strictly shorter prefix
/// covers), and a failure means no prefix of `order` covers at all - in
/// particular the whole list does not. With the validity clauses of the
/// accumulating strategies this pins their result completely, given the
/// order they walk.
pub open spec fn prefix_selection(
    inputs: Seq<OutputGroup>,
    opt: CoinSelectionOpt,
    order: Seq<usize>,
    r: Result<SelectionOutput, SelectionError>,
) -> bool {
    &&& (r matches Ok(out) ==> out.selected_inputs@.len() <= order.len()
        && out.selected_inputs@ == order.subrange(0, out.selected_inputs@.len() as int) && (
    forall|j: int|
        0 <= j < out.selected_inputs@.len() ==> !covers(
            inputs,
            opt,
            iseq(#[trigger] order.subrange(0, j)),
        )))
    &&& (r is Err ==> !total_covers(inputs, opt) && (forall|j: int|
        0 <= j <= order.len() ==> !covers(inputs, opt, iseq(#[trigger] order.subrange(0, j)))))
}

/// Walks the positions of `order` in turn, accumulating coins until the
/// running value covers the target plus the running fee. Succeeds with
/// exactly the shortest covering prefix of `order`; when even the whole
/// list cannot cover, reports insufficient funds.
#[verifier::loop_isolation(false)]
pub fn accumulate_in_order(
    inputs: &Vec<OutputGroup>,
    opt: &CoinSelectionOpt,
    order: &Vec<usize>,
) -> (r: Result<SelectionOutput, SelectionError>)
    requires
        valid_options(*opt),
        arith_ok(inputs@, *opt),
        is_perm(inputs@.len() as int, iseq(order@)),
    ensures
        r matches Ok(out) ==> valid_selection(inputs@, *opt, out),
        total_covers(inputs@, *opt) ==> r is Ok,
        r is Err ==> r == Err::<SelectionOutput, SelectionError>(SelectionError::InsufficientFunds)
            && !total_covers(inputs@, *opt),
        prefix_selection(inputs@, *opt, order@, r),
{
    let n = inputs.len();
    let mut sel: Vec<usize> = Vec::new();
    let mut sum_v: u64 = 0;
    let mut sum_w: u64 = 0;
    let mut k: usize = 0;
    proof {
        lemma_amts_nonneg(inputs@);
        lemma_fee_nonneg(*opt, opt.base_weight as int);
        lemma_fee_nonneg(*opt, opt.base_weight + opt.change_weight);
    }
    proof {
        assert(order@.subrange(0, 0) =~= Seq::<usize>::empty());
        assert(iseq(Seq::<usize>::empty()) =~= Seq::<int>::empty());
    }
    while k < n
        invariant
            k <= n,
            sel@ == order@.subrange(0, k as int),
            valid_indices(n as int, iseq(sel@)),
            sum_v == sel_value(inputs@, iseq(sel@)),
            sum_w == sel_weight(inputs@, iseq(sel@)),
            forall|j: int|
                0 <= j <= k ==> !covers(inputs@, *opt, iseq(#[trigger] order@.subrange(0, j))),
        decreases n - k,
    {
        let idx = order[k];
        proof {
            assert(iseq(order@)[k as int] == order@[k as int] as int);
            assert(0 <= idx < n);
            lemma_iseq_push(sel@, idx);
            assert(!iseq(sel@).contains(idx as int)) by {
                if iseq(sel@).contains(idx as int) {
                    let w = choose|w: int|
                        0 <= w < iseq(sel@).len() && iseq(sel@)[w] == idx as int;
                    assert(iseq(sel@)[w] == sel@[w] as int);
                    assert(order@.subrange(0, k as int)[w] == order@[w]);
                    assert(iseq(order@)[w] == iseq(order@)[k as int]);
                }
            }
            assert(iseq(sel@.push(idx)).no_duplicates());
            assert(in_range(n as int, iseq(sel@.push(idx)))) by {
                assert forall|i: int| 0 <= i < iseq(sel@.push(idx)).len() implies 0 <= #[trigger]
                iseq(sel@.push(idx))[i] < n by {
                    assert(iseq(sel@.push(idx))[i] == iseq(sel@).push(idx as int)[i]);
                }
            }
            lemma_sel_within_totals(inputs@, iseq(sel@.push(idx)));
            lemma_sum_at_push(values_of(inputs@), iseq(sel@), idx as int);
            lemma_sum_at_push(weights_of(inputs@), iseq(sel@), idx as int);
            assert(values_of(inputs@)[idx as int] == inputs@[idx as int].value as int);
            assert(weights_of(inputs@)[idx as int] == inputs@[idx as int].weight as int);
        }
        let c = inputs[idx];
        sum_v = sum_v + c.value;
        sum_w = sum_w + c.weight;
        sel.push(idx);
        k = k + 1;
        proof {
            assert(sel@ =~= order@.subrange(0, k as int));
        }
        proof {
            vstd::arithmetic::mul::lemma_mul_inequality(
                opt.base_weight + sum_w + opt.change_weight,
                opt.base_weight + total_weight(inputs@) + opt.change_weight,
                opt.target_feerate as int,
            );
        }
        let (covered, excess) = coverage_check(opt, sum_v, sum_w);
        if covered {
            proof {
                assert(excess as int == excess_of(inputs@, *opt, iseq(sel@)));
                vstd::arithmetic::mul::lemma_mul_inequality(
                    sum_w as int,
                    opt.base_weight + total_weight(inputs@) + opt.change_weight,
                    opt.target_feerate as int,
                );
                vstd::arithmetic::mul::lemma_mul_inequality(
                    sum_w as int,
                    opt.base_weight + total_weight(inputs@) + opt.change_weight,
                    long_term_rate(*opt),
                );
            }
            let w = waste_exec(opt, sum_w, excess);
            return Ok(SelectionOutput { selected_inputs: sel, waste: WasteMetric(w) });
        }
        proof {
            assert(!covers(inputs@, *opt, iseq(order@.subrange(0, k as int))));
        }
    }
    proof {
        assert(sel@ =~= order@);
        lemma_sum_at_perm(values_of(inputs@), iseq(sel@));
        lemma_sum_at_perm(weights_of(inputs@), iseq(sel@));
    }
    Err(SelectionError::InsufficientFunds)
}

} // verus!
