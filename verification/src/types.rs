//! The data model: candidate coins, selection options, results and errors.
use vstd::prelude::*;

verus! {

/// One spendable input (or a pre-grouped cluster of inputs). `value` is in the
/// smallest monetary unit, `weight` is the size/cost unit consumed when the
/// coin is spent, and `creation_sequence`, when present, is a monotonically
/// increasing arrival index.
#[derive(Clone, Copy, Debug)]
pub struct OutputGroup {
    pub value: u64,
    pub weight: u64,
    pub input_count: u64,
    pub creation_sequence: Option<u64>,
}

/// Policy for leftover value when no change output is created: burn it to
/// fee, give it to the recipient, or force a change output regardless of the
/// dust floor.
#[derive(Clone, Copy, Debug, PartialEq, Eq)]
pub enum ExcessStrategy {
    ToFee,
    ToRecipient,
    ToChange,
}

/// Parameters of one selection request. The feerates are expressed in
/// hundredths of a value unit per weight unit, so the fee for spending
/// `w` weight units at `target_feerate` is `ceil(w * target_feerate / 100)`,
/// floored at `min_absolute_fee`. A missing `long_term_feerate` means the
/// current feerate is the best long-run estimate available.
#[derive(Clone, Copy, Debug)]
pub struct CoinSelectionOpt {
    pub target_value: u64,
    pub target_feerate: u64,
    pub long_term_feerate: Option<u64>,
    pub min_absolute_fee: u64,
    pub base_weight: u64,
    pub change_weight: u64,
    pub change_cost: u64,
    pub avg_input_weight: u64,
    pub avg_output_weight: u64,
    pub min_change_value: u64,
    pub excess_strategy: ExcessStrategy,
}

/// The waste of a selection, in hundredths of a value unit (the same scale as
/// the feerates): the opportunity-cost term plus the disposal-cost term.
/// Lower is strictly better.
#[derive(Clone, Copy, Debug, PartialEq, Eq)]
pub struct WasteMetric(pub i128);

/// A successful selection: the chosen positions in the candidate list, in
/// selection order and free of duplicates, and the waste of that choice.
#[derive(Clone, Debug)]
pub struct SelectionOutput {
    pub selected_inputs: Vec<usize>,
    pub waste: WasteMetric,
}

/// The closed set of failure kinds: the candidates can never raise the target
/// plus the required fee, or a bounded search exhausted its budget without
/// finding a feasible subset.
#[derive(Clone, Copy, Debug, PartialEq, Eq)]
pub enum SelectionError {
    InsufficientFunds,
    NoSolutionFound,
}

} // verus!
