//! The waste metric and the feasibility predicate for a selection: the fee a
//! selection pays, the excess it leaves, whether a change output is created,
//! and the scalar cost used to rank competing selections.
use vstd::prelude::*;

use crate::sums::{lemma_sum_at_le_total, sum_all, sum_at, valid_indices};
use crate::types::{CoinSelectionOpt, ExcessStrategy, OutputGroup, SelectionOutput};

verus! {

/// The values of the coins, as mathematical integers.
pub open spec fn values_of(coins: Seq<OutputGroup>) -> Seq<int> {
    coins.map_values(|c: OutputGroup| c.value as int)
}

/// The weights of the coins, as mathematical integers.
pub open spec fn weights_of(coins: Seq<OutputGroup>) -> Seq<int> {
    coins.map_values(|c: OutputGroup| c.weight as int)
}

/// Positions held as machine integers, seen as mathematical ones.
pub open spec fn iseq(s: Seq<usize>) -> Seq<int> {
    s.map_values(|i: usize| i as int)
}

/// The long-term feerate used by the waste metric: the caller's estimate, or
/// the current feerate when none was given.
pub open spec fn long_term_rate(opt: CoinSelectionOpt) -> int {
    match opt.long_term_feerate {
        Some(r) => r as int,
        None => opt.target_feerate as int,
    }
}

/// The fee for spending `weight` weight units: `ceil(weight * feerate / 100)`,
/// floored at the absolute minimum fee.
pub open spec fn fee_of(opt: CoinSelectionOpt, weight: int) -> int {
    let scaled = (weight * opt.target_feerate + 99) / 100;
    if scaled >= opt.min_absolute_fee as int {
        scaled
    } else {
        opt.min_absolute_fee as int
    }
}

/// The total value of the coins at the selected positions.
pub open spec fn sel_value(coins: Seq<OutputGroup>, idxs: Seq<int>) -> int {
    sum_at(values_of(coins), idxs)
}

/// The total weight of the coins at the selected positions.
pub open spec fn sel_weight(coins: Seq<OutputGroup>, idxs: Seq<int>) -> int {
    sum_at(weights_of(coins), idxs)
}

/// The total value of all candidate coins.
pub open spec fn total_value(coins: Seq<OutputGroup>) -> int {
    sum_all(values_of(coins))
}

/// The total weight of all candidate coins.
pub open spec fn total_weight(coins: Seq<OutputGroup>) -> int {
    sum_all(weights_of(coins))
}

/// Whether a change output is created: the excess clears the dust floor plus
/// the cost of the output, or the excess strategy forces change regardless.
/// The decision is made on the excess left after the change-free fee; once
/// change is created, its weight raises the fee the selection must cover.
pub open spec fn change_created(excess: int, opt: CoinSelectionOpt) -> bool {
    excess >= opt.min_change_value + opt.change_cost || opt.excess_strategy
        == ExcessStrategy::ToChange
}

/// The value a selection of this `value` and `weight` leaves once the target
/// and the change-free fee are paid. This is the excess the change decision
/// is made on, and the excess disposed of when no change is created.
pub open spec fn excess_amounts(opt: CoinSelectionOpt, value: int, weight: int) -> int {
    value - opt.target_value - fee_of(opt, opt.base_weight + weight)
}

/// The change output's contribution to the fee-bearing weight: its weight
/// when one is created for this excess, nothing otherwise.
pub open spec fn change_weight_of(opt: CoinSelectionOpt, excess: int) -> int {
    if change_created(excess, opt) {
        opt.change_weight as int
    } else {
        0
    }
}

/// A selection of this `value` and `weight` raises the target plus the fee it
/// must pay: the fee on the base weight, its own weight, and - when a change
/// output is created - the change output's weight.
pub open spec fn covers_amounts(opt: CoinSelectionOpt, value: int, weight: int) -> bool {
    value >= opt.target_value + fee_of(
        opt,
        opt.base_weight + weight + change_weight_of(opt, excess_amounts(opt, value, weight)),
    )
}

/// The selection at `idxs` raises the target plus the fee it must pay,
/// change output included when one is created.
pub open spec fn covers(coins: Seq<OutputGroup>, opt: CoinSelectionOpt, idxs: Seq<int>) -> bool {
    covers_amounts(opt, sel_value(coins, idxs), sel_weight(coins, idxs))
}

/// Spending every candidate coin would raise the target plus the fee.
pub open spec fn total_covers(coins: Seq<OutputGroup>, opt: CoinSelectionOpt) -> bool {
    covers_amounts(opt, total_value(coins), total_weight(coins))
}

/// The change-deciding excess of the selection at `idxs`.
pub open spec fn excess_of(coins: Seq<OutputGroup>, opt: CoinSelectionOpt, idxs: Seq<int>) -> int {
    excess_amounts(opt, sel_value(coins, idxs), sel_weight(coins, idxs))
}

/// The waste of a selection of weight `sel_w` leaving `excess`: the
/// opportunity-cost term `sel_w * (target_feerate - long_term_feerate)` plus
/// the disposal-cost term, which is the cost of the change output when one is
/// created and the raw excess otherwise. The disposal term is scaled by 100
/// so that both terms are in hundredths of a value unit.
pub open spec fn waste_raw(opt: CoinSelectionOpt, sel_w: int, excess: int) -> int {
    sel_w * (opt.target_feerate - long_term_rate(opt)) + 100 * (if change_created(excess, opt) {
        opt.change_cost as int
    } else {
        excess
    })
}

/// The waste of the selection at `idxs`.
pub open spec fn waste_of(coins: Seq<OutputGroup>, opt: CoinSelectionOpt, idxs: Seq<int>) -> int {
    waste_raw(opt, sel_weight(coins, idxs), excess_of(coins, opt, idxs))
}

/// What every successful selection promises: the selected positions are
/// distinct and valid, their value covers the target plus the fee, and the
/// reported waste is the waste of exactly that selection.
pub open spec fn valid_selection(
    coins: Seq<OutputGroup>,
    opt: CoinSelectionOpt,
    out: SelectionOutput,
) -> bool {
    &&& valid_indices(coins.len() as int, iseq(out.selected_inputs@))
    &&& covers(coins, opt, iseq(out.selected_inputs@))
    &&& out.waste.0 == waste_of(coins, opt, iseq(out.selected_inputs@))
}

/// The request is well formed: the target is positive.
pub open spec fn valid_options(opt: CoinSelectionOpt) -> bool {
    opt.target_value > 0
}

/// The machine limits a caller must respect: the total candidate value, the
/// total spend weight, and the fee products for spending everything must fit
/// the 64-bit arithmetic the engine uses.
pub open spec fn arith_ok(coins: Seq<OutputGroup>, opt: CoinSelectionOpt) -> bool {
    &&& total_value(coins) <= u64::MAX
    &&& opt.base_weight + total_weight(coins) + opt.change_weight <= u64::MAX
    &&& (opt.base_weight + total_weight(coins) + opt.change_weight) * opt.target_feerate
        <= u64::MAX
    &&& (opt.base_weight + total_weight(coins) + opt.change_weight) * long_term_rate(opt)
        <= u64::MAX
}

/// Coin values and weights are non-negative.
pub proof fn lemma_amts_nonneg(coins: Seq<OutputGroup>)
    ensures
        forall|j: int| 0 <= j < values_of(coins).len() ==> #[trigger] values_of(coins)[j] >= 0,
        forall|j: int| 0 <= j < weights_of(coins).len() ==> #[trigger] weights_of(coins)[j] >= 0,
        values_of(coins).len() == coins.len(),
        weights_of(coins).len() == coins.len(),
{
}

/// A selection at distinct valid positions stays within the totals.
pub proof fn lemma_sel_within_totals(coins: Seq<OutputGroup>, idxs: Seq<int>)
    requires
        valid_indices(coins.len() as int, idxs),
    ensures
        0 <= sel_value(coins, idxs) <= total_value(coins),
        0 <= sel_weight(coins, idxs) <= total_weight(coins),
{
    lemma_amts_nonneg(coins);
    lemma_sum_at_le_total(values_of(coins), idxs);
    lemma_sum_at_le_total(weights_of(coins), idxs);
}

/// The fee never shrinks as weight grows.
pub proof fn lemma_fee_monotone(opt: CoinSelectionOpt, w1: int, w2: int)
    requires
        0 <= w1 <= w2,
    ensures
        fee_of(opt, w1) <= fee_of(opt, w2),
{
    vstd::arithmetic::mul::lemma_mul_inequality(w1, w2, opt.target_feerate as int);
    vstd::arithmetic::div_mod::lemma_div_is_ordered(
        w1 * opt.target_feerate + 99,
        w2 * opt.target_feerate + 99,
        100,
    );
}

/// The fee is never negative.
pub proof fn lemma_fee_nonneg(opt: CoinSelectionOpt, w: int)
    requires
        w >= 0,
    ensures
        fee_of(opt, w) >= 0,
{
    vstd::arithmetic::mul::lemma_mul_nonnegative(w, opt.target_feerate as int);
    vstd::arithmetic::div_mod::lemma_div_is_ordered(0, w * opt.target_feerate + 99, 100);
}

/// No selection can be feasible when the total candidate value is below the
/// target plus the smallest fee any selection pays. This is the ground for
/// the insufficient-funds verdict.
pub proof fn lemma_no_selection_possible(
    coins: Seq<OutputGroup>,
    opt: CoinSelectionOpt,
    idxs: Seq<int>,
)
    requires
        total_value(coins) < opt.target_value + fee_of(opt, opt.base_weight as int),
        valid_indices(coins.len() as int, idxs),
    ensures
        !covers(coins, opt, idxs),
{
    lemma_sel_within_totals(coins, idxs);
    let w = sel_weight(coins, idxs);
    let cw = change_weight_of(opt, excess_amounts(opt, sel_value(coins, idxs), w));
    assert(cw >= 0);
    lemma_fee_monotone(opt, opt.base_weight as int, opt.base_weight + w + cw);
}

/// A valid selection for a positive target always selects at least one coin:
/// an empty selection raises nothing, and the target plus a non-negative fee
/// is positive.
pub proof fn lemma_valid_selection_nonempty(
    coins: Seq<OutputGroup>,
    opt: CoinSelectionOpt,
    out: SelectionOutput,
)
    requires
        valid_options(opt),
        valid_selection(coins, opt, out),
    ensures
        out.selected_inputs@.len() > 0,
{
    if out.selected_inputs@.len() == 0 {
        assert(sel_value(coins, iseq(out.selected_inputs@)) == 0);
        assert(sel_weight(coins, iseq(out.selected_inputs@)) == 0);
        lemma_fee_nonneg(opt, opt.base_weight as int);
        lemma_fee_nonneg(opt, opt.base_weight + opt.change_weight);
    }
}

/// The fee fits a 64-bit word whenever the weight-feerate product does.
pub proof fn lemma_fee_bounded(opt: CoinSelectionOpt, w: int)
    requires
        w >= 0,
        w * opt.target_feerate <= u64::MAX,
    ensures
        fee_of(opt, w) <= u64::MAX,
{
    vstd::arithmetic::mul::lemma_mul_nonnegative(w, opt.target_feerate as int);
    vstd::arithmetic::div_mod::lemma_div_is_ordered(
        w * opt.target_feerate + 99,
        100 * (u64::MAX as int),
        100,
    );
    vstd::arithmetic::div_mod::lemma_div_multiples_vanish(u64::MAX as int, 100);
}

/// The fee for spending `weight` weight units, exactly as `fee_of` states it.
pub fn fee_exec(opt: &CoinSelectionOpt, weight: u64) -> (f: u128)
    ensures
        f == fee_of(*opt, weight as int),
        f <= (u64::MAX as u128) * (u64::MAX as u128),
{
    proof {
        assert((weight as int) * (opt.target_feerate as int) <= (u64::MAX as int) * (
        u64::MAX as int)) by (nonlinear_arith)
            requires
                0 <= weight <= u64::MAX,
                0 <= opt.target_feerate <= u64::MAX,
        ;
    }
    let prod: u128 = (weight as u128) * (opt.target_feerate as u128);
    let scaled: u128 = (prod + 99) / 100;
    proof {
        if prod == 0 {
            assert(scaled == 0);
        } else {
            vstd::arithmetic::mul::lemma_mul_inequality(1, prod as int, 99);
            vstd::arithmetic::div_mod::lemma_div_is_ordered(
                prod as int + 99,
                100 * (prod as int),
                100,
            );
            vstd::arithmetic::div_mod::lemma_div_multiples_vanish(prod as int, 100);
        }
    }
    if scaled >= opt.min_absolute_fee as u128 {
        scaled
    } else {
        opt.min_absolute_fee as u128
    }
}

/// Decides whether a selection of this `value` and `weight` covers the
/// target plus the fee it must pay - change output's weight included when
/// one is created - exactly as `covers_amounts` states it. On coverage the
/// second component is the change-deciding excess of `excess_amounts`.
pub fn coverage_check(opt: &CoinSelectionOpt, value: u64, weight: u64) -> (r: (bool, u64))
    requires
        opt.base_weight + weight + opt.change_weight <= u64::MAX,
        (opt.base_weight + weight + opt.change_weight) * opt.target_feerate <= u64::MAX,
    ensures
        r.0 == covers_amounts(*opt, value as int, weight as int),
        r.0 ==> r.1 == excess_amounts(*opt, value as int, weight as int),
{
    let w0: u64 = opt.base_weight + weight;
    let fee0 = fee_exec(opt, w0);
    proof {
        vstd::arithmetic::mul::lemma_mul_inequality(
            w0 as int,
            opt.base_weight + weight + opt.change_weight,
            opt.target_feerate as int,
        );
        lemma_fee_bounded(*opt, w0 as int);
    }
    let excess0: i128 = (value as i128) - (opt.target_value as i128) - ((fee0 as u64) as i128);
    let change: bool = excess0 >= (opt.min_change_value as i128) + (opt.change_cost as i128) || (
    match opt.excess_strategy {
        ExcessStrategy::ToChange => true,
        _ => false,
    });
    proof {
        assert(excess0 == excess_amounts(*opt, value as int, weight as int));
        assert(change == change_created(excess_amounts(*opt, value as int, weight as int), *opt));
    }
    let fee_w: u64 = if change {
        opt.base_weight + weight + opt.change_weight
    } else {
        w0
    };
    let fee = fee_exec(opt, fee_w);
    let covered = (value as u128) >= (opt.target_value as u128) + fee;
    if covered {
        proof {
            lemma_fee_monotone(*opt, w0 as int, fee_w as int);
        }
        let ex: u64 = ((value as u128) - (opt.target_value as u128) - (fee0 as u64 as u128)) as u64;
        (true, ex)
    } else {
        (false, 0)
    }
}

/// The waste of a selection of weight `sel_w` leaving `excess`, exactly as
/// `waste_raw` states it.
pub fn waste_exec(opt: &CoinSelectionOpt, sel_w: u64, excess: u64) -> (w: i128)
    requires
        (sel_w as int) * (opt.target_feerate as int) <= u64::MAX,
        (sel_w as int) * long_term_rate(*opt) <= u64::MAX,
    ensures
        w == waste_raw(*opt, sel_w as int, excess as int),
{
    let lt: u64 = match opt.long_term_feerate {
        Some(r) => r,
        None => opt.target_feerate,
    };
    proof {
        vstd::arithmetic::mul::lemma_mul_nonnegative(sel_w as int, opt.target_feerate as int);
        vstd::arithmetic::mul::lemma_mul_nonnegative(sel_w as int, lt as int);
        assert((sel_w as int) * (opt.target_feerate as int) - (sel_w as int) * (lt as int) == (
        sel_w as int) * (opt.target_feerate as int - lt as int)) by (nonlinear_arith);
    }
    let now_cost: i128 = (sel_w as i128) * (opt.target_feerate as i128);
    let later_cost: i128 = (sel_w as i128) * (lt as i128);
    let change: bool = (excess as u128) >= (opt.min_change_value as u128) + (
    opt.change_cost as u128) || (match opt.excess_strategy {
        ExcessStrategy::ToChange => true,
        _ => false,
    });
    let disposal: i128 = if change {
        opt.change_cost as i128
    } else {
        excess as i128
    };
    now_cost - later_cost + 100 * disposal
}

} // verus!
