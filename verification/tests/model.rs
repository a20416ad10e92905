use std::collections::HashMap;

use psp::bound::bound_value;
use psp::bound::copy_state;
use psp::bound::same_state;
use psp::bound::value_of;
use psp::bound::Bound;
use psp::error::Defect;
use psp::error::PspError;
use psp::instance::PspInstance;
use psp::model::Decision;
use psp::model::Predecessor;
use psp::model::Psp;
use psp::model::PspState;

fn two_items_three_periods() -> PspInstance {
    PspInstance {
        nb_types: 2,
        nb_periods: 3,
        stocking: vec![1, 1],
        changeover: vec![vec![0, 5], vec![5, 0]],
        demands: vec![vec![1, 0, 0], vec![0, 0, 1]],
    }
}

fn three_items_five_periods() -> PspInstance {
    PspInstance {
        nb_types: 3,
        nb_periods: 5,
        stocking: vec![2, 3, 7],
        changeover: vec![vec![0, 4, 9], vec![6, 0, 1], vec![8, 2, 0]],
        demands: vec![vec![0, 1, 0, 0, 1], vec![0, 0, 1, 0, 0], vec![0, 0, 0, 1, 0]],
    }
}

#[test]
fn scenario_cheapest_plan_costs_nothing() {
    let psp = Psp::new(two_items_three_periods()).unwrap();
    assert_eq!(psp.check_feasible(), Ok(()));
    let start = psp.initial_state();
    assert_eq!(start.time, 0);
    assert_eq!(start.pred, Predecessor::Idle);
    assert_eq!(start.prev_demands, vec![Some(0), Some(2)]);
    assert_eq!(psp.best_completion(&start), Bound::Cost(0));

    // The last period is planned first: item 1 there, nothing in the
    // middle, item 0 in the first period.
    let plan = [Decision::Produce(1), Decision::Idle, Decision::Produce(0)];
    let mut state = start;
    let mut total: u128 = 0;
    for d in plan {
        assert!(psp.domain(&state).contains(&d));
        total += psp.transition_cost(&state, d);
        state = psp.transition(&state, d);
    }
    assert_eq!(total, 0);
    assert!(psp.is_terminal(&state));
    assert!(psp.is_complete(&state));
    assert_eq!(state.prev_demands, vec![None, None]);
}

#[test]
fn scenario_two_units_one_period_is_infeasible() {
    let instance = PspInstance {
        nb_types: 2,
        nb_periods: 1,
        stocking: vec![1, 1],
        changeover: vec![vec![0, 5], vec![5, 0]],
        demands: vec![vec![1], vec![1]],
    };
    let psp = Psp::new(instance).unwrap();
    assert_eq!(psp.check_feasible(), Err(PspError::InfeasibleInstance { period: 0, units: 2 }));
    let start = psp.initial_state();
    assert!(psp.domain(&start).is_empty());
    assert_eq!(psp.best_completion(&start), Bound::NoCompletion);
}

#[test]
fn infeasible_by_an_early_deadline() {
    let instance = PspInstance {
        nb_types: 2,
        nb_periods: 4,
        stocking: vec![1, 1],
        changeover: vec![vec![0, 1], vec![1, 0]],
        demands: vec![vec![1, 1, 0, 0], vec![0, 1, 0, 0]],
    };
    let psp = Psp::new(instance).unwrap();
    assert_eq!(psp.check_feasible(), Err(PspError::InfeasibleInstance { period: 1, units: 3 }));
    assert_eq!(psp.best_completion(&psp.initial_state()), Bound::NoCompletion);
}

#[test]
fn demand_index_of_an_instance() {
    let psp = Psp::new(three_items_five_periods()).unwrap();
    assert_eq!(psp.n_items, 3);
    assert_eq!(psp.horizon, 5);
    assert_eq!(psp.prev_demands[0], vec![None, Some(1), Some(1), Some(1), Some(4)]);
    assert_eq!(psp.prev_demands[1], vec![None, None, Some(2), Some(2), Some(2)]);
    assert_eq!(psp.rem_demands[0], vec![0, 1, 1, 1, 2]);
    assert_eq!(psp.rem_demands[2], vec![0, 0, 0, 1, 1]);
}

#[test]
fn malformed_no_items() {
    let instance = PspInstance {
        nb_types: 0,
        nb_periods: 3,
        stocking: vec![],
        changeover: vec![],
        demands: vec![],
    };
    assert_eq!(instance.check(), Err(PspError::MalformedInstance(Defect::NoItems)));
    assert!(Psp::new(instance).is_err());
}

#[test]
fn malformed_no_periods() {
    let instance = PspInstance {
        nb_types: 1,
        nb_periods: 0,
        stocking: vec![1],
        changeover: vec![vec![0]],
        demands: vec![vec![]],
    };
    assert_eq!(instance.check(), Err(PspError::MalformedInstance(Defect::NoPeriods)));
}

#[test]
fn malformed_stocking_length() {
    let mut instance = two_items_three_periods();
    instance.stocking = vec![1, 1, 1];
    assert_eq!(
        instance.check(),
        Err(PspError::MalformedInstance(Defect::StockingLength { found: 3 }))
    );
}

#[test]
fn malformed_changeover_rows() {
    let mut instance = two_items_three_periods();
    instance.changeover = vec![vec![0, 5]];
    assert_eq!(
        instance.check(),
        Err(PspError::MalformedInstance(Defect::ChangeoverRows { found: 1 }))
    );
}

#[test]
fn malformed_changeover_row_length() {
    let mut instance = two_items_three_periods();
    instance.changeover = vec![vec![0, 5], vec![5]];
    assert_eq!(
        instance.check(),
        Err(PspError::MalformedInstance(Defect::ChangeoverRowLength { row: 1, found: 1 }))
    );
}

#[test]
fn malformed_changeover_diagonal() {
    let mut instance = two_items_three_periods();
    instance.changeover = vec![vec![0, 5], vec![5, 2]];
    assert_eq!(
        instance.check(),
        Err(PspError::MalformedInstance(Defect::ChangeoverDiagonal { item: 1, value: 2 }))
    );
}

#[test]
fn malformed_demand_rows() {
    let mut instance = two_items_three_periods();
    instance.demands = vec![vec![1, 0, 0]];
    assert_eq!(instance.check(), Err(PspError::MalformedInstance(Defect::DemandRows { found: 1 })));
}

#[test]
fn malformed_demand_row_length() {
    let mut instance = two_items_three_periods();
    instance.demands = vec![vec![1, 0, 0], vec![0, 1]];
    assert_eq!(
        instance.check(),
        Err(PspError::MalformedInstance(Defect::DemandRowLength { row: 1, found: 2 }))
    );
}

#[test]
fn malformed_demand_value() {
    let mut instance = two_items_three_periods();
    instance.demands = vec![vec![1, 0, 0], vec![0, 3, 1]];
    assert_eq!(
        instance.check(),
        Err(PspError::MalformedInstance(Defect::DemandValue { item: 1, period: 1, value: 3 }))
    );
}

#[test]
fn well_formed_instance_passes() {
    assert_eq!(two_items_three_periods().check(), Ok(()));
    assert!(Psp::new(three_items_five_periods()).is_ok());
}

#[test]
fn domain_lists_items_then_idle() {
    let psp = Psp::new(three_items_five_periods()).unwrap();
    let start = psp.initial_state();
    // Four units are open and five periods are left: idling is allowed, and
    // only item 0 has a demand as late as the last period.
    assert_eq!(psp.remaining_units(&start), 4);
    assert_eq!(psp.domain(&start), vec![Decision::Produce(0), Decision::Idle]);
}

#[test]
fn domain_includes_item_due_in_the_period_decided() {
    let psp = Psp::new(three_items_five_periods()).unwrap();
    let state = PspState { time: 2, pred: Predecessor::Item(0), prev_demands: vec![Some(1), Some(2), Some(3)] };
    // Period 2 is decided; item 1 is due exactly there, and item 2 a period
    // later. As many units are open as periods are left, so idling is not
    // allowed.
    assert_eq!(psp.remaining_units(&state), 3);
    assert_eq!(psp.domain(&state), vec![Decision::Produce(1), Decision::Produce(2)]);
}

#[test]
fn domain_is_empty_when_units_outnumber_periods() {
    let psp = Psp::new(three_items_five_periods()).unwrap();
    let state = PspState { time: 3, pred: Predecessor::Idle, prev_demands: vec![Some(1), Some(2), Some(3)] };
    assert!(psp.domain(&state).is_empty());
}

#[test]
fn domain_is_empty_at_the_end() {
    let psp = Psp::new(three_items_five_periods()).unwrap();
    let state = PspState { time: 5, pred: Predecessor::Idle, prev_demands: vec![None, None, None] };
    assert!(psp.is_terminal(&state));
    assert!(psp.domain(&state).is_empty());
    assert_eq!(psp.best_completion(&state), Bound::Cost(0));
}

#[test]
fn domain_never_empty_while_completable() {
    // Walks every state that can be reached and checks that it has a
    // decision unless it is terminal.
    let psp = Psp::new(three_items_five_periods()).unwrap();
    assert_eq!(psp.check_feasible(), Ok(()));
    let mut frontier = vec![psp.initial_state()];
    let mut seen = 0;
    while let Some(state) = frontier.pop() {
        seen += 1;
        if psp.is_terminal(&state) {
            assert!(psp.is_complete(&state));
            continue;
        }
        let decisions = psp.domain(&state);
        assert!(!decisions.is_empty());
        for d in decisions {
            frontier.push(psp.transition(&state, d));
        }
    }
    assert!(seen > 5);
}

#[test]
fn transition_advances_and_moves_one_pointer() {
    let psp = Psp::new(three_items_five_periods()).unwrap();
    let start = psp.initial_state();
    assert_eq!(start.prev_demands, vec![Some(4), Some(2), Some(3)]);
    let next = psp.transition(&start, Decision::Produce(0));
    assert_eq!(next.time, 1);
    assert_eq!(next.pred, Predecessor::Item(0));
    assert_eq!(next.prev_demands, vec![Some(1), Some(2), Some(3)]);
    let idle = psp.transition(&start, Decision::Idle);
    assert_eq!(idle.time, 1);
    assert_eq!(idle.pred, Predecessor::Idle);
    assert_eq!(idle.prev_demands, start.prev_demands);
}

#[test]
fn transition_closes_the_last_demand() {
    let psp = Psp::new(two_items_three_periods()).unwrap();
    let state = PspState { time: 2, pred: Predecessor::Idle, prev_demands: vec![Some(0), None] };
    let next = psp.transition(&state, Decision::Produce(0));
    assert_eq!(next.prev_demands, vec![None, None]);
    assert!(psp.is_terminal(&next));
}

#[test]
fn cost_is_changeover_plus_stocking_per_period_held() {
    let psp = Psp::new(three_items_five_periods()).unwrap();
    // Period 2 is decided. Item 2 is due in period 3, so it is held for one
    // period at 7; item 1 is made in period 3, and changing over from 2 to
    // 1 costs 2.
    let state = PspState { time: 2, pred: Predecessor::Item(1), prev_demands: vec![Some(1), None, Some(3)] };
    assert_eq!(psp.transition_cost(&state, Decision::Produce(2)), 2 + 7);
    // Item 0 is due in period 1, before the period decided: not admissible.
    assert_eq!(psp.domain(&state), vec![Decision::Produce(2), Decision::Idle]);
    assert_eq!(psp.transition_cost(&state, Decision::Idle), 0);
}

#[test]
fn cost_without_changeover() {
    let psp = Psp::new(three_items_five_periods()).unwrap();
    let held_two = PspState { time: 3, pred: Predecessor::Item(2), prev_demands: vec![Some(1), None, Some(3)] };
    // Period 1 is decided, item 2 waits from period 1 to period 3.
    assert_eq!(psp.transition_cost(&held_two, Decision::Produce(2)), 14);
    let after_idle = PspState { time: 3, pred: Predecessor::Idle, prev_demands: vec![Some(1), None, Some(3)] };
    assert_eq!(psp.transition_cost(&after_idle, Decision::Produce(0)), 0);
    let unknown = PspState { time: 3, pred: Predecessor::Unknown, prev_demands: vec![Some(1), None, Some(3)] };
    assert_eq!(psp.transition_cost(&unknown, Decision::Produce(0)), 0);
    // Item 0 in period 1, item 2 in period 2: the change from 0 to 2.
    let changed = PspState { time: 3, pred: Predecessor::Item(2), prev_demands: vec![Some(1), None, Some(3)] };
    assert_eq!(psp.transition_cost(&changed, Decision::Produce(0)), 9);
}

#[test]
fn cost_of_large_numbers_does_not_wrap() {
    let instance = PspInstance {
        nb_types: 2,
        nb_periods: 3,
        stocking: vec![usize::MAX, 1],
        changeover: vec![vec![0, usize::MAX], vec![1, 0]],
        demands: vec![vec![0, 0, 1], vec![0, 0, 0]],
    };
    let psp = Psp::new(instance).unwrap();
    let state = PspState { time: 2, pred: Predecessor::Item(1), prev_demands: vec![Some(2), None] };
    let expected = usize::MAX as u128 + usize::MAX as u128 * 2;
    assert_eq!(psp.transition_cost(&state, Decision::Produce(0)), expected);
}

#[test]
fn best_completion_weighs_stocking_against_changeover() {
    let instance = PspInstance {
        nb_types: 2,
        nb_periods: 3,
        stocking: vec![1, 1],
        changeover: vec![vec![0, 5], vec![5, 0]],
        demands: vec![vec![0, 0, 1], vec![0, 0, 1]],
    };
    let psp = Psp::new(instance).unwrap();
    assert_eq!(psp.check_feasible(), Ok(()));
    // One of the two units is made a period early. Made back to back they
    // pay the changeover of 5 and one period of stocking; with an idle
    // period between them they pay two periods of stocking and no
    // changeover.
    assert_eq!(psp.best_completion(&psp.initial_state()), Bound::Cost(2));
}

fn small_instances() -> Vec<PspInstance> {
    // Every 0/1 demand matrix of two items over three periods.
    let mut all = Vec::new();
    for bits in 0..64u32 {
        let cell = |k: u32| ((bits >> k) & 1) as usize;
        all.push(PspInstance {
            nb_types: 2,
            nb_periods: 3,
            stocking: vec![3, 1],
            changeover: vec![vec![0, 4], vec![2, 0]],
            demands: vec![vec![cell(0), cell(1), cell(2)], vec![cell(3), cell(4), cell(5)]],
        });
    }
    all
}

#[test]
fn an_instance_has_a_plan_exactly_when_it_is_feasible() {
    let mut feasible = 0;
    for instance in small_instances() {
        let psp = Psp::new(instance).unwrap();
        let start = psp.initial_state();
        match psp.check_feasible() {
            Ok(()) => {
                feasible += 1;
                assert!(matches!(psp.best_completion(&start), Bound::Cost(_)));
            }
            Err(PspError::InfeasibleInstance { period, units }) => {
                assert!(units > period as u128 + 1);
                assert_eq!(psp.best_completion(&start), Bound::NoCompletion);
            }
            Err(other) => panic!("{other:?}"),
        }
    }
    // At most one unit by period 0, two by period 1, three in all: 15
    // matrices with no unit in period 0 and 20 with one.
    assert_eq!(feasible, 35);
}

#[test]
fn no_reachable_state_is_stuck_in_a_feasible_instance() {
    for instance in small_instances() {
        let psp = Psp::new(instance).unwrap();
        if psp.check_feasible().is_err() {
            continue;
        }
        let mut frontier = vec![psp.initial_state()];
        while let Some(state) = frontier.pop() {
            if psp.is_terminal(&state) {
                assert!(psp.is_complete(&state));
                continue;
            }
            let decisions = psp.domain(&state);
            assert!(!decisions.is_empty());
            for d in decisions {
                frontier.push(psp.transition(&state, d));
            }
        }
    }
}

#[test]
fn changeover_is_read_in_the_order_of_time() {
    let psp = Psp::new(PspInstance {
        nb_types: 2,
        nb_periods: 2,
        stocking: vec![0, 0],
        changeover: vec![vec![0, 5], vec![7, 0]],
        demands: vec![vec![1, 0], vec![0, 1]],
    })
    .unwrap();
    // The only plan makes item 0 in period 0 and item 1 in period 1: one
    // change from 0 to 1.
    let start = psp.initial_state();
    assert_eq!(psp.domain(&start), vec![Decision::Produce(1)]);
    assert_eq!(psp.transition_cost(&start, Decision::Produce(1)), 0);
    let next = psp.transition(&start, Decision::Produce(1));
    assert_eq!(psp.domain(&next), vec![Decision::Produce(0)]);
    assert_eq!(psp.transition_cost(&next, Decision::Produce(0)), 5);
    assert_eq!(psp.best_completion(&start), Bound::Cost(5));

    let turned = Psp::new(PspInstance {
        nb_types: 2,
        nb_periods: 2,
        stocking: vec![0, 0],
        changeover: vec![vec![0, 5], vec![7, 0]],
        demands: vec![vec![0, 1], vec![1, 0]],
    })
    .unwrap();
    // Item 1 first, then item 0: the change from 1 to 0.
    assert_eq!(turned.best_completion(&turned.initial_state()), Bound::Cost(7));
}

#[test]
fn belongs_tells_the_states_of_a_problem() {
    let psp = Psp::new(three_items_five_periods()).unwrap();
    assert!(psp.belongs(&psp.initial_state()));
    let good = PspState { time: 5, pred: Predecessor::Item(2), prev_demands: vec![Some(1), None, Some(3)] };
    assert!(psp.belongs(&good));
    let late = PspState { time: 6, pred: Predecessor::Idle, prev_demands: vec![None, None, None] };
    assert!(!psp.belongs(&late));
    let short = PspState { time: 1, pred: Predecessor::Idle, prev_demands: vec![None, None] };
    assert!(!psp.belongs(&short));
    let no_demand = PspState { time: 1, pred: Predecessor::Idle, prev_demands: vec![Some(2), None, None] };
    assert!(!psp.belongs(&no_demand));
    let beyond = PspState { time: 1, pred: Predecessor::Idle, prev_demands: vec![Some(5), None, None] };
    assert!(!psp.belongs(&beyond));
    let stranger = PspState { time: 1, pred: Predecessor::Item(3), prev_demands: vec![None, None, None] };
    assert!(!psp.belongs(&stranger));
    let unknown = PspState { time: 1, pred: Predecessor::Unknown, prev_demands: vec![Some(4), Some(2), None] };
    assert!(psp.belongs(&unknown));
}

#[test]
fn values_are_costs_negated() {
    assert_eq!(value_of(0), 0);
    assert_eq!(value_of(17), -17);
    assert_eq!(value_of(isize::MAX as u128), -isize::MAX);
    assert_eq!(value_of(isize::MAX as u128 + 1), -isize::MAX);
    assert_eq!(value_of(u128::MAX), -isize::MAX);
    assert_eq!(bound_value(Bound::Cost(5)), -5);
    assert_eq!(bound_value(Bound::Beyond), isize::MIN);
    assert_eq!(bound_value(Bound::NoCompletion), isize::MIN);
}

#[test]
fn no_record_is_unreadable() {
    // The defect is for what could not be read; a record never has it.
    assert_ne!(two_items_three_periods().check(), Err(PspError::MalformedInstance(Defect::Unreadable)));
    let mut instance = two_items_three_periods();
    instance.stocking = vec![];
    assert_ne!(instance.check(), Err(PspError::MalformedInstance(Defect::Unreadable)));
}

#[test]
fn same_state_compares_every_part() {
    let a = PspState { time: 2, pred: Predecessor::Item(1), prev_demands: vec![Some(1), None, Some(3)] };
    assert!(same_state(&a, &a.clone()));
    assert!(same_state(&a, &copy_state(&a)));
    assert_eq!(copy_state(&a), a);
    let later = PspState { time: 3, ..a.clone() };
    assert!(!same_state(&a, &later));
    let other_pred = PspState { pred: Predecessor::Unknown, ..a.clone() };
    assert!(!same_state(&a, &other_pred));
    let other_pointer = PspState { prev_demands: vec![Some(1), None, Some(2)], ..a.clone() };
    assert!(!same_state(&a, &other_pointer));
    let closed = PspState { prev_demands: vec![Some(1), None, None], ..a.clone() };
    assert!(!same_state(&a, &closed));
    let shorter = PspState { prev_demands: vec![Some(1), None], ..a.clone() };
    assert!(!same_state(&a, &shorter));
}

#[test]
fn best_completion_solves_each_state_once() {
    // Twelve units over twenty periods: far too many plans to try one by
    // one, and few enough states to solve each once.
    let mut demands = vec![vec![0; 20]; 3];
    for (item, periods) in [(0, [3, 8, 13, 19]), (1, [5, 9, 14, 18]), (2, [6, 11, 16, 19])] {
        for p in periods {
            demands[item][p] = 1;
        }
    }
    let psp = Psp::new(PspInstance {
        nb_types: 3,
        nb_periods: 20,
        stocking: vec![2, 3, 1],
        changeover: vec![vec![0, 4, 9], vec![6, 0, 5], vec![8, 7, 0]],
        demands,
    })
    .unwrap();
    assert_eq!(psp.check_feasible(), Ok(()));
    let start = psp.initial_state();
    let mut seen = HashMap::new();
    let expected = cheapest(&psp, &start, &mut seen);
    assert!(seen.len() > 1000);
    assert!(expected.is_some());
    assert_eq!(psp.best_completion(&start), Bound::Cost(expected.unwrap()));
}

fn cheapest(psp: &Psp, state: &PspState, seen: &mut HashMap<PspState, Option<u128>>) -> Option<u128> {
    if psp.is_terminal(state) {
        return if psp.is_complete(state) { Some(0) } else { None };
    }
    if let Some(known) = seen.get(state) {
        return *known;
    }
    let mut best = None;
    for d in psp.domain(state) {
        let next = psp.transition(state, d);
        if let Some(rest) = cheapest(psp, &next, seen) {
            let total = psp.transition_cost(state, d) + rest;
            best = Some(best.map_or(total, |b: u128| b.min(total)));
        }
    }
    seen.insert(state.clone(), best);
    best
}
