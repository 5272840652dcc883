//! The selection orchestrator: run every strategy on the same immutable coin
//! list and options, and adjudicate their outcomes by the waste metric - the
//! lowest-waste success wins, and a failure is reported as insufficient funds
//! exactly when a strategy showed the funds to be insufficient and none
//! succeeded.
use vstd::prelude::*;

use crate::bnb::select_coin_bnb;
use crate::fifo::select_coin_fifo;
use crate::knapsack::select_coin_knapsack;
use crate::lowestlarger::select_coin_lowestlarger;
use crate::srd::select_coin_srd;
use crate::types::{CoinSelectionOpt, OutputGroup, SelectionError, SelectionOutput};
use crate::waste::{arith_ok, fee_of, iseq, lemma_no_selection_possible, total_covers, total_value, valid_options, valid_selection};

verus! {

/// The waste a successful outcome reports; irrelevant for failures.
pub open spec fn success_waste(r: Result<SelectionOutput, SelectionError>) -> int {
    match r {
        Ok(o) => o.waste.0 as int,
        Err(_) => 0,
    }
}

/// `r` is the arbitration of the outcome list `outs`: a success is one of
/// the successes in `outs` and its waste is minimal among them; a failure
/// means no outcome in `outs` succeeded, and it is insufficient funds
/// exactly when some outcome in `outs` reported insufficient funds, else no
/// solution found.
pub open spec fn is_arbitrated(
    outs: Seq<Result<SelectionOutput, SelectionError>>,
    r: Result<SelectionOutput, SelectionError>,
) -> bool {
    &&& (r matches Ok(out) ==> outs.contains(Ok::<SelectionOutput, SelectionError>(out)))
    &&& (forall|i: int|
        0 <= i < outs.len() && (#[trigger] outs[i]) is Ok ==> r is Ok && success_waste(r)
            <= success_waste(outs[i]))
    &&& (r is Err ==> (r == Err::<SelectionOutput, SelectionError>(
        SelectionError::InsufficientFunds,
    ) <==> outs.contains(
        Err::<SelectionOutput, SelectionError>(SelectionError::InsufficientFunds),
    )))
    &&& (r is Err ==> r == Err::<SelectionOutput, SelectionError>(
        SelectionError::InsufficientFunds,
    ) || r == Err::<SelectionOutput, SelectionError>(SelectionError::NoSolutionFound))
}

/// The arbitration rule over a list of strategy outcomes: the returned
/// success has the least waste of all successes in the list (the returned
/// value being one of them), and a failure is insufficient funds exactly
/// when some outcome in the list reported insufficient funds.
pub fn merge_results(results: Vec<Result<SelectionOutput, SelectionError>>) -> (r: Result<
    SelectionOutput,
    SelectionError,
>)
    ensures
        is_arbitrated(results@, r),
{
    let mut rest = results;
    let ghost orig = rest@;
    let mut best: Option<SelectionOutput> = None;
    let mut saw_insufficient: bool = false;
    while rest.len() > 0
        invariant
            rest@.len() <= orig.len(),
            rest@ == orig.subrange(0, rest@.len() as int),
            best matches Some(b) ==> orig.contains(Ok::<SelectionOutput, SelectionError>(b)),
            forall|i: int|
                rest@.len() <= i < orig.len() && (#[trigger] orig[i]) is Ok ==> best is Some,
            forall|i: int|
                rest@.len() <= i < orig.len() && (#[trigger] orig[i]) is Ok ==> (best matches Some(
                    b,
                ) && b.waste.0 <= success_waste(orig[i])),
            saw_insufficient <==> exists|i: int|
                rest@.len() <= i < orig.len() && orig[i] == Err::<SelectionOutput, SelectionError>(
                    SelectionError::InsufficientFunds,
                ),
        decreases rest@.len(),
    {
        let ghost pre = rest@;
        proof {
            assert(pre == orig.subrange(0, pre.len() as int));
            assert forall|i: int| 0 <= i < pre.len() implies pre[i] == orig[i] by {
                assert(orig.subrange(0, pre.len() as int)[i] == orig[i]);
            }
        }
        let cur = rest.pop().unwrap();
        proof {
            assert(pre[pre.len() - 1] == orig[pre.len() - 1]);
            assert(rest@ =~= orig.subrange(0, rest@.len() as int));
        }
        match cur {
            Ok(out) => {
                proof {
                    assert(orig.contains(Ok::<SelectionOutput, SelectionError>(out))) by {
                        assert(orig[rest@.len() as int] == Ok::<SelectionOutput, SelectionError>(
                            out,
                        ));
                    }
                }
                let take = match &best {
                    None => true,
                    Some(b) => out.waste.0 < b.waste.0,
                };
                if take {
                    best = Some(out);
                }
            },
            Err(e) => {
                match e {
                    SelectionError::InsufficientFunds => {
                        saw_insufficient = true;
                        proof {
                            assert(orig[rest@.len() as int] == Err::<
                                SelectionOutput,
                                SelectionError,
                            >(SelectionError::InsufficientFunds));
                        }
                    },
                    SelectionError::NoSolutionFound => {},
                }
            },
        }
    }
    proof {
        assert(orig.subrange(0, 0) =~= Seq::<Result<SelectionOutput, SelectionError>>::empty());
    }
    match best {
        Some(out) => Ok(out),
        None => {
            if saw_insufficient {
                Err(SelectionError::InsufficientFunds)
            } else {
                Err(SelectionError::NoSolutionFound)
            }
        },
    }
}

/// The one operation this engine exposes: run all five strategies on the
/// same coin list and options and return the lowest-waste success; when no
/// strategy succeeds, fail with insufficient funds exactly when the whole
/// candidate list cannot cover the target plus the fee its weight incurs. In
/// particular, when the total candidate value is below the target plus the
/// least fee any selection pays, the result is insufficient funds.
///
/// The last clause exports the arbitration promise: there are five
/// outcomes, one satisfying each strategy's own contract on exactly these
/// arguments, of which the result is the arbitrated merge - contained in
/// them when a success, and of minimal waste among their successes.
pub fn select_coin(inputs: &Vec<OutputGroup>, options: &CoinSelectionOpt) -> (r: Result<
    SelectionOutput,
    SelectionError,
>)
    requires
        valid_options(*options),
        arith_ok(inputs@, *options),
    ensures
        r matches Ok(out) ==> valid_selection(inputs@, *options, out),
        total_covers(inputs@, *options) ==> r is Ok,
        r is Err ==> r == Err::<SelectionOutput, SelectionError>(SelectionError::InsufficientFunds)
            && !total_covers(inputs@, *options),
        total_value(inputs@) < options.target_value + fee_of(
            *options,
            options.base_weight as int,
        ) ==> r == Err::<SelectionOutput, SelectionError>(SelectionError::InsufficientFunds),
        exists|outs: Seq<Result<SelectionOutput, SelectionError>>|
            outs.len() == 5 && #[trigger] call_ensures(select_coin_bnb, (inputs, options), outs[0])
                && call_ensures(select_coin_fifo, (inputs, options), outs[1]) && call_ensures(
                select_coin_lowestlarger,
                (inputs, options),
                outs[2],
            ) && call_ensures(select_coin_srd, (inputs, options), outs[3]) && call_ensures(
                select_coin_knapsack,
                (inputs, options),
                outs[4],
            ) && is_arbitrated(outs, r),
{
    let r_bnb = select_coin_bnb(inputs, options);
    let r_fifo = select_coin_fifo(inputs, options);
    let r_lowest = select_coin_lowestlarger(inputs, options);
    let r_srd = select_coin_srd(inputs, options);
    let r_knapsack = select_coin_knapsack(inputs, options);
    let mut results: Vec<Result<SelectionOutput, SelectionError>> = Vec::new();
    results.push(r_bnb);
    results.push(r_fifo);
    results.push(r_lowest);
    results.push(r_srd);
    results.push(r_knapsack);
    let ghost all = results@;
    let r = merge_results(results);
    proof {
        assert(all.len() == 5);
        assert(all[0] == r_bnb && all[1] == r_fifo && all[2] == r_lowest && all[3] == r_srd
            && all[4] == r_knapsack);
        if r is Err {
            assert(!(all[1] is Ok));
            assert(r_fifo is Err);
        }
        if r is Ok {
            let out = r->Ok_0;
            let i = choose|i: int| 0 <= i < all.len() && all[i] == Ok::<
                SelectionOutput,
                SelectionError,
            >(out);
            assert(valid_selection(inputs@, *options, out)) by {
                if i == 0 {
                    assert(all[0] == Ok::<SelectionOutput, SelectionError>(out));
                } else if i == 1 {
                    assert(all[1] == Ok::<SelectionOutput, SelectionError>(out));
                } else if i == 2 {
                    assert(all[2] == Ok::<SelectionOutput, SelectionError>(out));
                } else if i == 3 {
                    assert(all[3] == Ok::<SelectionOutput, SelectionError>(out));
                } else {
                    assert(all[4] == Ok::<SelectionOutput, SelectionError>(out));
                }
            }
        }
        if total_value(inputs@) < options.target_value + fee_of(
            *options,
            options.base_weight as int,
        ) {
            if r is Ok {
                lemma_no_selection_possible(inputs@, *options, iseq(r->Ok_0.selected_inputs@));
            }
        }
        assert(call_ensures(select_coin_bnb, (inputs, options), all[0]));
        assert(call_ensures(select_coin_fifo, (inputs, options), all[1]));
        assert(call_ensures(select_coin_lowestlarger, (inputs, options), all[2]));
        assert(call_ensures(select_coin_srd, (inputs, options), all[3]));
        assert(call_ensures(select_coin_knapsack, (inputs, options), all[4]));
        assert(is_arbitrated(all, r));
    }
    r
}

} // verus!
