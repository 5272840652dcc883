use coinselect::bnb::select_coin_bnb;
use coinselect::fifo::select_coin_fifo;
use coinselect::knapsack::select_coin_knapsack;
use coinselect::lowestlarger::select_coin_lowestlarger;
use coinselect::selectcoin::{merge_results, select_coin};
use coinselect::srd::select_coin_srd;
use coinselect::types::{
    CoinSelectionOpt, ExcessStrategy, OutputGroup, SelectionError, SelectionOutput, WasteMetric,
};

fn coin(value: u64, weight: u64, creation_sequence: Option<u64>) -> OutputGroup {
    OutputGroup {
        value,
        weight,
        input_count: 1,
        creation_sequence,
    }
}

fn options(target_value: u64) -> CoinSelectionOpt {
    CoinSelectionOpt {
        target_value,
        target_feerate: 40,
        long_term_feerate: Some(40),
        min_absolute_fee: 0,
        base_weight: 10,
        change_weight: 50,
        change_cost: 10,
        avg_input_weight: 20,
        avg_output_weight: 10,
        min_change_value: 500,
        excess_strategy: ExcessStrategy::ToChange,
    }
}

// A fee larger than the coin's own value makes the funds insufficient even
// though the raw value exceeds the target.
#[test]
fn insufficient_when_fee_eats_the_value() {
    let inputs = vec![coin(1000, 1000, None)];
    let mut opt = options(900);
    opt.target_feerate = 100;
    opt.base_weight = 0;
    let result = select_coin(&inputs, &opt);
    assert!(matches!(result, Err(SelectionError::InsufficientFunds)));
}

// A successful selection lists distinct valid positions and its value covers
// the target plus the fee it must pay, the change output's weight included
// when one is created.
#[test]
fn success_covers_target_plus_fee() {
    let inputs = vec![
        coin(1000, 100, None),
        coin(2000, 200, None),
        coin(3000, 300, None),
    ];
    let opt = options(1500);
    let out = select_coin(&inputs, &opt).unwrap();
    let mut seen = vec![false; inputs.len()];
    let mut value: u64 = 0;
    let mut weight: u64 = opt.base_weight;
    for &i in &out.selected_inputs {
        assert!(i < inputs.len());
        assert!(!seen[i]);
        seen[i] = true;
        value += inputs[i].value;
        weight += inputs[i].weight;
    }
    let fee_without_change = (weight * opt.target_feerate + 99) / 100;
    let change_created = value >= opt.target_value + fee_without_change
        && (value - opt.target_value - fee_without_change
            >= opt.min_change_value + opt.change_cost
            || opt.excess_strategy == ExcessStrategy::ToChange);
    if change_created {
        weight += opt.change_weight;
    }
    let fee = ((weight * opt.target_feerate + 99) / 100).max(opt.min_absolute_fee);
    assert!(value >= opt.target_value + fee);
}

// The orchestrator's waste never exceeds the waste of any single strategy's
// own success on the same input.
#[test]
fn orchestrator_waste_is_minimal() {
    let inputs = vec![
        coin(80000, 100, Some(0)),
        coin(70000, 100, Some(1)),
        coin(60000, 100, Some(2)),
        coin(50000, 100, Some(3)),
        coin(40000, 100, Some(4)),
        coin(30000, 100, Some(5)),
    ];
    let mut opt = options(250000);
    opt.target_feerate = 100;
    opt.long_term_feerate = Some(50);
    opt.base_weight = 100;
    opt.min_change_value = 400;
    opt.change_cost = 20;
    let best = select_coin(&inputs, &opt).unwrap();
    let singles = [
        select_coin_bnb(&inputs, &opt),
        select_coin_fifo(&inputs, &opt),
        select_coin_lowestlarger(&inputs, &opt),
        select_coin_srd(&inputs, &opt),
        select_coin_knapsack(&inputs, &opt),
    ];
    for r in singles {
        if let Ok(out) = r {
            assert!(best.waste.0 <= out.waste.0);
        }
    }
}

// Two runs on identical inputs and options give selections of identical
// waste (and, the engine being deterministic, identical index lists).
#[test]
fn engine_is_idempotent() {
    let inputs = vec![
        coin(1000, 100, None),
        coin(2000, 200, None),
        coin(3000, 300, None),
    ];
    let opt = options(1500);
    let a = select_coin(&inputs, &opt).unwrap();
    let b = select_coin(&inputs, &opt).unwrap();
    assert_eq!(a.waste.0, b.waste.0);
    assert_eq!(a.selected_inputs, b.selected_inputs);
}

// The oldest-first strategy follows the recorded arrival order, not the list
// order or the values.
#[test]
fn fifo_follows_creation_sequence() {
    let inputs = vec![coin(1000, 10, Some(5)), coin(1000, 10, Some(1))];
    let mut opt = options(900);
    opt.target_feerate = 0;
    let out = select_coin_fifo(&inputs, &opt).unwrap();
    assert_eq!(out.selected_inputs, vec![1]);
}

// Coins without an arrival index come after every coin with one.
#[test]
fn fifo_puts_unsequenced_coins_last() {
    let inputs = vec![coin(1000, 10, None), coin(1000, 10, Some(7))];
    let mut opt = options(900);
    opt.target_feerate = 0;
    let out = select_coin_fifo(&inputs, &opt).unwrap();
    assert_eq!(out.selected_inputs, vec![1]);
}

// The largest-input heuristic prefers the smallest single coin that covers
// the target on its own.
#[test]
fn lowest_larger_picks_smallest_sufficient_coin() {
    let inputs = vec![
        coin(500, 50, None),
        coin(1500, 100, None),
        coin(2000, 200, None),
    ];
    let mut opt = options(1000);
    opt.target_feerate = 0;
    let out = select_coin_lowestlarger(&inputs, &opt).unwrap();
    assert_eq!(out.selected_inputs, vec![1]);
}

// Without a single sufficient coin it accumulates from the largest downward.
#[test]
fn lowest_larger_accumulates_descending() {
    let inputs = vec![
        coin(500, 50, None),
        coin(1500, 100, None),
        coin(2000, 200, None),
    ];
    let mut opt = options(3500);
    opt.target_feerate = 0;
    let out = select_coin_lowestlarger(&inputs, &opt).unwrap();
    assert_eq!(out.selected_inputs, vec![2, 1]);
}

// The waste of the winning selection is exactly the opportunity-cost term
// plus the disposal term, in hundredths of a value unit: here the winner is
// coins 0..3 (weight 400), waste = 400 * (100 - 50) + 100 * 20 = 22000.
#[test]
fn waste_has_the_stated_value() {
    let inputs = vec![
        coin(80000, 100, None),
        coin(70000, 100, None),
        coin(60000, 100, None),
        coin(50000, 100, None),
        coin(40000, 100, None),
        coin(30000, 100, None),
    ];
    let mut opt = options(250000);
    opt.target_feerate = 100;
    opt.long_term_feerate = Some(50);
    opt.base_weight = 100;
    opt.min_change_value = 400;
    opt.change_cost = 20;
    let out = select_coin(&inputs, &opt).unwrap();
    assert_eq!(out.selected_inputs, vec![0, 1, 2, 3]);
    assert_eq!(out.waste.0, 22000);
}

// When no change output is created the raw excess is the disposal cost:
// one coin of 2000 against a target of 1500 leaves 456 after a fee of 44,
// below the dust floor, so waste = 100 * (40 - 40) + 100 * 456 = 45600.
#[test]
fn waste_counts_excess_when_no_change() {
    let inputs = vec![coin(2000, 100, None)];
    let mut opt = options(1500);
    opt.excess_strategy = ExcessStrategy::ToFee;
    let out = select_coin(&inputs, &opt).unwrap();
    assert_eq!(out.selected_inputs, vec![0]);
    assert_eq!(out.waste.0, 45600);
}

// The arbitration rule alone: a success always beats failures, the lowest
// waste wins, and a failure is insufficient funds exactly when some outcome
// reported it.
#[test]
fn merge_prefers_lowest_waste_success() {
    let a = SelectionOutput {
        selected_inputs: vec![0],
        waste: WasteMetric(500),
    };
    let b = SelectionOutput {
        selected_inputs: vec![1, 2],
        waste: WasteMetric(200),
    };
    let merged = merge_results(vec![
        Ok(a),
        Err(SelectionError::InsufficientFunds),
        Ok(b),
        Err(SelectionError::NoSolutionFound),
    ])
    .unwrap();
    assert_eq!(merged.waste.0, 200);
    assert_eq!(merged.selected_inputs, vec![1, 2]);
}

#[test]
fn merge_classifies_failures() {
    let none_found = merge_results(vec![
        Err(SelectionError::NoSolutionFound),
        Err(SelectionError::NoSolutionFound),
    ]);
    assert!(matches!(none_found, Err(SelectionError::NoSolutionFound)));
    let insufficient = merge_results(vec![
        Err(SelectionError::NoSolutionFound),
        Err(SelectionError::InsufficientFunds),
    ]);
    assert!(matches!(
        insufficient,
        Err(SelectionError::InsufficientFunds)
    ));
}

// The randomized fallback is reproducible and succeeds whenever the total
// funds suffice.
#[test]
fn srd_is_reproducible_and_succeeds() {
    let inputs = vec![
        coin(1000, 100, None),
        coin(2000, 200, None),
        coin(3000, 300, None),
    ];
    let opt = options(4500);
    let a = select_coin_srd(&inputs, &opt).unwrap();
    let b = select_coin_srd(&inputs, &opt).unwrap();
    assert_eq!(a.selected_inputs, b.selected_inputs);
    assert_eq!(a.waste.0, b.waste.0);
}

// An empty candidate list can never cover a positive target.
#[test]
fn empty_candidate_list_is_insufficient() {
    let inputs: Vec<OutputGroup> = Vec::new();
    let result = select_coin(&inputs, &options(1));
    assert!(matches!(result, Err(SelectionError::InsufficientFunds)));
}

// The exact-match search classifies only after searching: it succeeds with
// a light covering subset even when spending every coin would not cover,
// because one huge-weight coin ruins the full set's fee.
#[test]
fn bnb_succeeds_when_only_a_subset_covers() {
    let inputs = vec![coin(1000, 10, None), coin(200, 100000, None)];
    let mut opt = options(900);
    opt.target_feerate = 100;
    opt.base_weight = 0;
    opt.change_weight = 0;
    opt.excess_strategy = ExcessStrategy::ToFee;
    let out = select_coin_bnb(&inputs, &opt).unwrap();
    assert_eq!(out.selected_inputs, vec![0]);
}

// The exact-match search returns the globally minimal-waste subset when the
// tree is small enough to explore fully.
#[test]
fn bnb_finds_the_exact_pair() {
    let inputs = vec![
        coin(150000, 100, None),
        coin(250000, 100, None),
        coin(300000, 100, None),
        coin(100000, 100, None),
        coin(50000, 100, None),
    ];
    let mut opt = options(500000);
    opt.target_feerate = 100;
    opt.long_term_feerate = Some(50);
    opt.base_weight = 100;
    opt.min_change_value = 400;
    opt.change_cost = 20;
    let out = select_coin_bnb(&inputs, &opt).unwrap();
    let mut got = out.selected_inputs.clone();
    got.sort();
    assert_eq!(got, vec![1, 2]);
}
