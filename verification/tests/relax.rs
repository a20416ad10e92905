use psp::bound::Bound;
use psp::compression::PspCompression;
use psp::heuristic::PspHeuristic;
use psp::instance::PspInstance;
use psp::model::Decision;
use psp::model::Predecessor;
use psp::model::Psp;
use psp::model::PspState;
use psp::ranking::PspRanking;
use psp::relax::PspRelax;
use std::cmp::Ordering;

fn problem() -> Psp {
    Psp::new(PspInstance {
        nb_types: 3,
        nb_periods: 5,
        stocking: vec![2, 3, 7],
        changeover: vec![vec![0, 4, 9], vec![6, 0, 1], vec![8, 2, 0]],
        demands: vec![vec![0, 1, 0, 0, 1], vec![0, 0, 1, 0, 0], vec![0, 0, 0, 1, 0]],
    })
    .unwrap()
}

fn cost(b: Bound) -> u128 {
    match b {
        Bound::Cost(c) => c,
        Bound::NoCompletion => u128::MAX,
        Bound::Beyond => u128::MAX,
    }
}

#[test]
fn merge_takes_the_least_pointer_of_each_item() {
    let psp = problem();
    let relax = PspRelax::new(&psp, None);
    let a = PspState { time: 2, pred: Predecessor::Item(0), prev_demands: vec![Some(1), Some(2), None] };
    let b = PspState { time: 2, pred: Predecessor::Item(2), prev_demands: vec![Some(4), None, Some(3)] };
    let merged = relax.merge(&vec![a, b]);
    assert_eq!(merged.time, 2);
    assert_eq!(merged.pred, Predecessor::Unknown);
    assert_eq!(merged.prev_demands, vec![Some(1), None, None]);
}

#[test]
fn merge_of_one_state_forgets_the_predecessor_only() {
    let psp = problem();
    let relax = PspRelax::new(&psp, None);
    let a = PspState { time: 1, pred: Predecessor::Item(0), prev_demands: vec![Some(1), Some(2), Some(3)] };
    let merged = relax.merge(&vec![a.clone()]);
    assert_eq!(merged.time, 1);
    assert_eq!(merged.pred, Predecessor::Unknown);
    assert_eq!(merged.prev_demands, a.prev_demands);
}

fn states_at(psp: &Psp, depth: usize) -> Vec<PspState> {
    let mut layer = vec![psp.initial_state()];
    for _ in 0..depth {
        let mut next = Vec::new();
        for s in &layer {
            for d in psp.domain(s) {
                let t = psp.transition(s, d);
                if !next.contains(&t) {
                    next.push(t);
                }
            }
        }
        layer = next;
    }
    layer
}

#[test]
fn merged_state_is_no_dearer_than_any_input() {
    let psp = problem();
    let relax = PspRelax::new(&psp, None);
    for depth in 0..5 {
        let layer = states_at(&psp, depth);
        assert!(!layer.is_empty());
        for i in 0..layer.len() {
            for j in i..layer.len() {
                let pair = vec![layer[i].clone(), layer[j].clone()];
                let merged = relax.merge(&pair);
                let bound = cost(psp.best_completion(&merged));
                assert!(bound <= cost(psp.best_completion(&layer[i])));
                assert!(bound <= cost(psp.best_completion(&layer[j])));
            }
        }
        let merged = relax.merge(&layer);
        let least = layer.iter().map(|s| cost(psp.best_completion(s))).min().unwrap();
        assert!(cost(psp.best_completion(&merged)) <= least);
    }
}

#[test]
fn relaxed_edge_costs_what_the_decision_costs() {
    let psp = problem();
    let relax = PspRelax::new(&psp, None);
    let source = PspState { time: 2, pred: Predecessor::Item(1), prev_demands: vec![Some(1), None, Some(3)] };
    let other = PspState { time: 3, pred: Predecessor::Idle, prev_demands: vec![None, None, None] };
    let target = psp.transition(&source, Decision::Produce(2));
    let merged = relax.merge(&vec![target, other]);
    assert_eq!(relax.relax(&source, Decision::Produce(2), &merged), 9);
    assert_eq!(relax.relax(&source, Decision::Idle, &merged), 0);
}

#[test]
fn bound_without_compression_is_zero() {
    let psp = problem();
    let relax = PspRelax::new(&psp, None);
    assert_eq!(relax.fast_upper_bound(&psp.initial_state()), Ok(Bound::Cost(0)));
}

#[test]
fn bound_with_compression_is_the_meta_problems_cost() {
    let psp = problem();
    let compression = PspCompression::from_membership(&psp, vec![0, 1, 1], 2);
    let relax = PspRelax::new(&psp, Some(&compression));
    let start = psp.initial_state();
    let projected = compression.compress(&start).unwrap();
    let expected = compression.meta_problem.best_completion(&projected);
    assert_eq!(relax.fast_upper_bound(&start), Ok(expected));
    // The meta-problem never costs more than the problem itself.
    assert!(cost(expected) <= cost(psp.best_completion(&start)));
}

#[test]
fn ranking_prefers_the_higher_value() {
    let a = PspState { time: 1, pred: Predecessor::Idle, prev_demands: vec![Some(1), None] };
    let b = PspState { time: 3, pred: Predecessor::Idle, prev_demands: vec![None, None] };
    assert_eq!(PspRanking.compare(-3, &a, -7, &b), Ordering::Greater);
    assert_eq!(PspRanking.compare(-7, &b, -3, &a), Ordering::Less);
}

#[test]
fn ranking_breaks_ties_by_periods_left_then_pointers() {
    let early = PspState { time: 1, pred: Predecessor::Idle, prev_demands: vec![Some(1), None] };
    let late = PspState { time: 2, pred: Predecessor::Idle, prev_demands: vec![None, None] };
    assert_eq!(PspRanking.compare(0, &early, 0, &late), Ordering::Less);
    assert_eq!(PspRanking.compare(0, &late, 0, &early), Ordering::Greater);
    let x = PspState { time: 2, pred: Predecessor::Item(0), prev_demands: vec![Some(1), Some(4)] };
    let y = PspState { time: 2, pred: Predecessor::Item(1), prev_demands: vec![Some(1), None] };
    assert_eq!(PspRanking.compare(5, &x, 5, &y), Ordering::Greater);
    assert_eq!(PspRanking.compare(5, &y, 5, &x), Ordering::Less);
    let z = PspState { time: 2, pred: Predecessor::Idle, prev_demands: vec![Some(0), Some(9)] };
    assert_eq!(PspRanking.compare(5, &z, 5, &x), Ordering::Less);
}

#[test]
fn ranking_is_a_strict_order() {
    let states = vec![
        (-1isize, PspState { time: 1, pred: Predecessor::Idle, prev_demands: vec![Some(1), None] }),
        (-1, PspState { time: 1, pred: Predecessor::Item(0), prev_demands: vec![Some(1), None] }),
        (-1, PspState { time: 2, pred: Predecessor::Idle, prev_demands: vec![None, None] }),
        (-4, PspState { time: 2, pred: Predecessor::Idle, prev_demands: vec![None, Some(3)] }),
        (-4, PspState { time: 2, pred: Predecessor::Idle, prev_demands: vec![Some(0), Some(3)] }),
        (0, PspState { time: 0, pred: Predecessor::Unknown, prev_demands: vec![Some(2), Some(3)] }),
    ];
    for (va, a) in &states {
        assert_eq!(PspRanking.compare(*va, a, *va, a), Ordering::Equal);
        for (vb, b) in &states {
            let ab = PspRanking.compare(*va, a, *vb, b);
            let ba = PspRanking.compare(*vb, b, *va, a);
            assert_eq!(ab, ba.reverse());
            for (vc, c) in &states {
                let bc = PspRanking.compare(*vb, b, *vc, c);
                let ac = PspRanking.compare(*va, a, *vc, c);
                if ab == Ordering::Less && bc == Ordering::Less {
                    assert_eq!(ac, Ordering::Less);
                }
                if ab == Ordering::Equal && bc == Ordering::Equal {
                    assert_eq!(ac, Ordering::Equal);
                }
            }
        }
    }
    // States that differ in the predecessor only are ranked alike.
    assert_eq!(PspRanking.compare(-1, &states[0].1, -1, &states[1].1), Ordering::Equal);
}

#[test]
fn heuristic_orders_decisions_by_score_and_keeps_them_all() {
    let psp = problem();
    let compression = PspCompression::from_membership(&psp, vec![0, 1, 1], 2);
    let heuristic = PspHeuristic::new(&compression);
    let mut frontier = vec![psp.initial_state()];
    while let Some(state) = frontier.pop() {
        let decisions = psp.domain(&state);
        let ordered = heuristic.order(&state, &decisions).unwrap();
        assert_eq!(ordered.len(), decisions.len());
        for d in &decisions {
            assert!(ordered.contains(d));
        }
        let scores: Vec<u128> = ordered.iter().map(|d| cost(heuristic.score(&state, *d).unwrap())).collect();
        for pair in scores.windows(2) {
            assert!(pair[0] <= pair[1]);
        }
        for d in decisions {
            frontier.push(psp.transition(&state, d));
        }
    }
}

#[test]
fn heuristic_score_is_step_cost_plus_meta_completion() {
    let psp = problem();
    let compression = PspCompression::from_membership(&psp, vec![0, 1, 1], 2);
    let heuristic = PspHeuristic::new(&compression);
    let state = PspState { time: 2, pred: Predecessor::Item(1), prev_demands: vec![Some(1), None, Some(3)] };
    let d = Decision::Produce(2);
    let next = psp.transition(&state, d);
    let projected = compression.compress(&next).unwrap();
    let rest = cost(compression.meta_problem.best_completion(&projected));
    assert_eq!(heuristic.score(&state, d), Ok(Bound::Cost(9 + rest)));
    let after_idle = compression.compress(&psp.transition(&state, Decision::Idle)).unwrap();
    let idle = cost(compression.meta_problem.best_completion(&after_idle));
    assert_eq!(heuristic.score(&state, Decision::Idle), Ok(Bound::Cost(idle)));
    let ordered = heuristic.order(&state, &vec![d, Decision::Idle]).unwrap();
    if idle < 9 + rest {
        assert_eq!(ordered, vec![Decision::Idle, d]);
    } else {
        assert_eq!(ordered, vec![d, Decision::Idle]);
    }
}

#[test]
fn heuristic_keeps_repeated_decisions() {
    let psp = problem();
    let compression = PspCompression::from_membership(&psp, vec![0, 1, 1], 2);
    let heuristic = PspHeuristic::new(&compression);
    let start = psp.initial_state();
    let given = vec![Decision::Idle, Decision::Produce(0), Decision::Idle];
    let ordered = heuristic.order(&start, &given).unwrap();
    assert_eq!(ordered.len(), 3);
    assert_eq!(ordered.iter().filter(|d| **d == Decision::Idle).count(), 2);
    assert_eq!(ordered.iter().filter(|d| **d == Decision::Produce(0)).count(), 1);
}

#[test]
fn merged_bound_holds_on_every_small_instance() {
    for bits in 0..64u32 {
        let cell = |k: u32| ((bits >> k) & 1) as usize;
        let psp = Psp::new(PspInstance {
            nb_types: 2,
            nb_periods: 3,
            stocking: vec![3, 1],
            changeover: vec![vec![0, 4], vec![2, 0]],
            demands: vec![vec![cell(0), cell(1), cell(2)], vec![cell(3), cell(4), cell(5)]],
        })
        .unwrap();
        let relax = PspRelax::new(&psp, None);
        for depth in 0..4 {
            let layer = states_at(&psp, depth);
            if layer.is_empty() {
                break;
            }
            let merged = relax.merge(&layer);
            for s in &layer {
                assert!(cost(psp.best_completion(&merged)) <= cost(psp.best_completion(s)));
            }
        }
    }
}

#[test]
fn compressed_bound_holds_on_every_state_reached_by_decisions() {
    let mut worst: Vec<String> = Vec::new();
    for bits in 0..4096u32 {
        let cell = |k: u32| ((bits >> k) & 1) as usize;
        let demands = vec![
            vec![cell(0), cell(1), cell(2), cell(3)],
            vec![cell(4), cell(5), cell(6), cell(7)],
            vec![cell(8), cell(9), cell(10), cell(11)],
        ];
        let psp = Psp::new(PspInstance {
            nb_types: 3,
            nb_periods: 4,
            stocking: vec![3, 1, 2],
            changeover: vec![vec![0, 4, 1], vec![2, 0, 6], vec![5, 3, 0]],
            demands,
        })
        .unwrap();
        if psp.check_feasible().is_err() {
            continue;
        }
        for membership in [vec![0, 0, 1], vec![0, 1, 0], vec![0, 1, 1], vec![0, 0, 0]] {
            let k = membership.iter().max().unwrap() + 1;
            let compression = PspCompression::from_membership(&psp, membership.clone(), k);
            let mut frontier = vec![psp.initial_state()];
            while let Some(state) = frontier.pop() {
                let projected = compression.compress(&state).unwrap();
                let bound = cost(compression.meta_problem.best_completion(&projected));
                let truth = cost(psp.best_completion(&state));
                if bound > truth && worst.len() < 3 {
                    worst.push(format!("{bits} {membership:?} {state:?} {bound} {truth}"));
                }
                for d in psp.domain(&state) {
                    frontier.push(psp.transition(&state, d));
                }
            }
        }
    }
    assert!(worst.is_empty(), "{worst:?}");
}

#[test]
fn compressed_bound_can_exceed_the_cost_of_a_merged_state() {
    let psp = Psp::new(PspInstance {
        nb_types: 3,
        nb_periods: 4,
        stocking: vec![3, 1, 2],
        changeover: vec![vec![0, 4, 1], vec![2, 0, 6], vec![5, 3, 0]],
        demands: vec![vec![0, 0, 1, 1], vec![0, 0, 0, 1], vec![1, 0, 0, 0]],
    })
    .unwrap();
    assert_eq!(psp.check_feasible(), Ok(()));
    let relax = PspRelax::new(&psp, None);
    let start = psp.initial_state();
    // One state has made item 0 in the last period, the other item 1: the
    // merged state has closed a unit of each, which no plan can.
    let a = psp.transition(&start, Decision::Produce(0));
    let b = psp.transition(&start, Decision::Produce(1));
    let merged = relax.merge(&vec![a, b]);
    assert_eq!(merged.prev_demands, vec![Some(2), None, Some(0)]);
    assert_eq!(psp.best_completion(&merged), Bound::Cost(0));
    // Items 0 and 1 share a meta-item, whose demands lie in the periods 1,
    // 2 and 3. One unit open is the one of period 1, which the meta-problem
    // makes next to the other meta-item's unit of period 0.
    let compression = PspCompression::from_membership(&psp, vec![0, 0, 1], 2);
    assert_eq!(compression.meta_problem.demands, vec![vec![0, 1, 1, 1], vec![1, 0, 0, 0]]);
    let projected = compression.compress(&merged).unwrap();
    assert_eq!(projected.prev_demands, vec![Some(1), Some(0)]);
    assert_eq!(compression.meta_problem.best_completion(&projected), Bound::Cost(3));
    // The merged state is not on track, and the checked bound falls back
    // to zero.
    assert!(!compression.on_track(&merged));
    let bounded = PspRelax::new(&psp, Some(&compression));
    assert_eq!(bounded.fast_upper_bound(&merged), Ok(Bound::Cost(3)));
    assert_eq!(bounded.checked_upper_bound(&merged), Bound::Cost(0));
}

#[test]
fn states_reached_by_decisions_are_on_track() {
    let psp = problem();
    for membership in [vec![0, 1, 1], vec![0, 0, 1], vec![0, 0, 0], vec![0, 1, 2]] {
        let k = membership.iter().max().unwrap() + 1;
        let compression = PspCompression::from_membership(&psp, membership, k);
        let relax = PspRelax::new(&psp, Some(&compression));
        let mut frontier = vec![psp.initial_state()];
        while let Some(state) = frontier.pop() {
            assert!(compression.on_track(&state));
            let bound = relax.checked_upper_bound(&state);
            assert_eq!(relax.fast_upper_bound(&state), Ok(bound));
            assert!(cost(bound) <= cost(psp.best_completion(&state)));
            for d in psp.domain(&state) {
                frontier.push(psp.transition(&state, d));
            }
        }
    }
}

#[test]
fn a_state_that_has_closed_an_early_demand_is_not_on_track() {
    let psp = problem();
    let compression = PspCompression::from_membership(&psp, vec![0, 1, 1], 2);
    // Period 4 is decided first, and item 1 is due in period 2: it cannot
    // be closed yet.
    let state = PspState { time: 0, pred: Predecessor::Idle, prev_demands: vec![Some(4), None, Some(3)] };
    assert!(!compression.on_track(&state));
    assert_eq!(PspRelax::new(&psp, Some(&compression)).checked_upper_bound(&state), Bound::Cost(0));
    assert_eq!(PspRelax::new(&psp, None).checked_upper_bound(&state), Bound::Cost(0));
}

#[test]
fn open_counts_sum_the_members() {
    let psp = problem();
    let compression = PspCompression::from_membership(&psp, vec![0, 1, 1], 2);
    assert_eq!(compression.open_counts(&psp.initial_state()), vec![2, 2]);
    let state = PspState { time: 2, pred: Predecessor::Item(1), prev_demands: vec![Some(1), None, Some(3)] };
    assert_eq!(compression.open_counts(&state), vec![1, 1]);
}
