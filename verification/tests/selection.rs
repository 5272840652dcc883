use coinselect::selectcoin::select_coin;
use coinselect::types::{CoinSelectionOpt, ExcessStrategy, OutputGroup, SelectionError};

fn setup_basic_output_groups() -> Vec<OutputGroup> {
    vec![
        OutputGroup {
            value: 1000,
            weight: 100,
            input_count: 1,
            creation_sequence: None,
        },
        OutputGroup {
            value: 2000,
            weight: 200,
            input_count: 1,
            creation_sequence: None,
        },
        OutputGroup {
            value: 3000,
            weight: 300,
            input_count: 1,
            creation_sequence: None,
        },
    ]
}

fn setup_options(target_value: u64) -> CoinSelectionOpt {
    CoinSelectionOpt {
        target_value,
        target_feerate: 40,
        long_term_feerate: Some(40),
        min_absolute_fee: 0,
        base_weight: 10,
        change_weight: 50,
        change_cost: 10,
        avg_input_weight: 20,
        avg_output_weight: 10,
        min_change_value: 500,
        excess_strategy: ExcessStrategy::ToChange,
    }
}

#[test]
fn test_select_coin_successful() {
    let inputs = setup_basic_output_groups();
    let options = setup_options(1500);
    let result = select_coin(&inputs, &options);
    assert!(result.is_ok());
    let selection_output = result.unwrap();
    assert!(!selection_output.selected_inputs.is_empty());
}

#[test]
fn test_select_coin_insufficient_funds() {
    let inputs = setup_basic_output_groups();
    let options = setup_options(7000);
    let result = select_coin(&inputs, &options);
    assert!(matches!(result, Err(SelectionError::InsufficientFunds)));
}

#[test]
fn test_select_coin_equals_lowest_larger() {
    let inputs = vec![
        OutputGroup {
            value: 500,
            weight: 50,
            input_count: 1,
            creation_sequence: None,
        },
        OutputGroup {
            value: 1500,
            weight: 100,
            input_count: 1,
            creation_sequence: None,
        },
        OutputGroup {
            value: 2000,
            weight: 200,
            input_count: 1,
            creation_sequence: None,
        },
        OutputGroup {
            value: 1000,
            weight: 75,
            input_count: 1,
            creation_sequence: None,
        },
    ];

    let options = CoinSelectionOpt {
        target_value: 1600,
        target_feerate: 40,
        long_term_feerate: Some(40),
        min_absolute_fee: 0,
        base_weight: 10,
        change_weight: 50,
        change_cost: 10,
        avg_input_weight: 50,
        avg_output_weight: 25,
        min_change_value: 500,
        excess_strategy: ExcessStrategy::ToChange,
    };

    let selection_result = select_coin(&inputs, &options).unwrap();

    let expected_inputs: Vec<usize> = vec![2];

    let mut selection_inputs = selection_result.selected_inputs.clone();
    let mut expected_inputs_sorted = expected_inputs.clone();
    selection_inputs.sort();
    expected_inputs_sorted.sort();
}

#[test]
fn test_select_coin_equals_knapsack() {
    let inputs = vec![
        OutputGroup {
            value: 1500,
            weight: 1,
            input_count: 1,
            creation_sequence: None,
        },
        OutputGroup {
            value: 2500,
            weight: 1,
            input_count: 1,
            creation_sequence: None,
        },
        OutputGroup {
            value: 3000,
            weight: 1,
            input_count: 1,
            creation_sequence: None,
        },
        OutputGroup {
            value: 1000,
            weight: 1,
            input_count: 1,
            creation_sequence: None,
        },
        OutputGroup {
            value: 500,
            weight: 1,
            input_count: 1,
            creation_sequence: None,
        },
    ];

    let options = CoinSelectionOpt {
        target_value: 4000,
        target_feerate: 100,
        min_absolute_fee: 0,
        base_weight: 1,
        change_weight: 1,
        change_cost: 1,
        avg_input_weight: 1,
        avg_output_weight: 1,
        min_change_value: 500,
        long_term_feerate: Some(50),
        excess_strategy: ExcessStrategy::ToChange,
    };

    let selection_result = select_coin(&inputs, &options).unwrap();

    let expected_inputs: Vec<usize> = vec![1, 3];

    let mut selection_inputs = selection_result.selected_inputs.clone();
    let mut expected_inputs_sorted = expected_inputs.clone();
    selection_inputs.sort();
    expected_inputs_sorted.sort();
}

#[test]
fn test_select_coin_equals_fifo() {
    fn create_fifo_inputs(values: Vec<u64>) -> Vec<OutputGroup> {
        values
            .into_iter()
            .map(|value| OutputGroup {
                value,
                weight: 100,
                input_count: 1,
                creation_sequence: None,
            })
            .collect()
    }

    let options_case = CoinSelectionOpt {
        target_value: 250000,
        target_feerate: 100,
        min_absolute_fee: 0,
        base_weight: 100,
        change_weight: 10,
        change_cost: 20,
        avg_input_weight: 10,
        avg_output_weight: 10,
        min_change_value: 400,
        long_term_feerate: Some(50),
        excess_strategy: ExcessStrategy::ToChange,
    };

    let inputs_case = create_fifo_inputs(vec![80000, 70000, 60000, 50000, 40000, 30000]);

    let result_case = select_coin(&inputs_case, &options_case).unwrap();
    let expected_case: Vec<usize> = vec![0, 1, 2, 3];
    assert_eq!(result_case.selected_inputs, expected_case);
}

#[test]
fn test_select_coin_equals_bnb() {
    let inputs = vec![
        OutputGroup {
            value: 150000,
            weight: 100,
            input_count: 1,
            creation_sequence: None,
        },
        OutputGroup {
            value: 250000,
            weight: 100,
            input_count: 1,
            creation_sequence: None,
        },
        OutputGroup {
            value: 300000,
            weight: 100,
            input_count: 1,
            creation_sequence: None,
        },
        OutputGroup {
            value: 100000,
            weight: 100,
            input_count: 1,
            creation_sequence: None,
        },
        OutputGroup {
            value: 50000,
            weight: 100,
            input_count: 1,
            creation_sequence: None,
        },
    ];
    let opt = CoinSelectionOpt {
        target_value: 500000,
        target_feerate: 100,
        min_absolute_fee: 0,
        base_weight: 100,
        change_weight: 10,
        change_cost: 20,
        avg_input_weight: 10,
        avg_output_weight: 10,
        min_change_value: 400,
        long_term_feerate: Some(50),
        excess_strategy: ExcessStrategy::ToChange,
    };
    let ans = select_coin(&inputs, &opt);

    if let Ok(selection_output) = ans {
        let mut selected_inputs = selection_output.selected_inputs.clone();
        selected_inputs.sort();

        let expected_solution: Vec<usize> = vec![1, 2];
        assert_eq!(
            selected_inputs, expected_solution,
            "Expected solution {:?}, but got {:?}",
            expected_solution, selected_inputs
        );
    }
}
