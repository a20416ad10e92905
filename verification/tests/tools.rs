use psp::feasibility::DemandPlacement;
use psp::feasibility::PspFeasibility;
use psp::instance::PspInstance;
use psp::model::Psp;
use psp::solve::Solve;
use psp::solve::SolverType;
use psp::solve::UNKNOWN_SOLVER;

#[test]
fn all_periods_start_free() {
    let free = PspFeasibility::new(4);
    assert_eq!(free.min(), 0);
}

#[test]
fn remove_takes_the_latest_free_period_up_to_the_demand() {
    let mut free = PspFeasibility::new(4);
    free.remove(0);
    assert_eq!(free.min(), 1);
    free.remove(2);
    free.remove(2);
    // Periods 0, 1 and 2 are taken.
    assert_eq!(free.min(), 3);
    free.remove(3);
    let mut other = PspFeasibility::new(3);
    other.remove(2);
    other.remove(2);
    assert_eq!(other.min(), 0);
    other.remove(2);
}

#[test]
fn place_demand_fills_an_empty_cell_once() {
    let mut free = PspFeasibility::new(3);
    let mut demands = vec![vec![0, 0, 0], vec![0, 0, 0]];
    assert!(free.place_demand(&mut demands, 1, 2));
    assert_eq!(demands, vec![vec![0, 0, 0], vec![0, 0, 1]]);
    assert!(!free.place_demand(&mut demands, 1, 2));
    assert_eq!(demands, vec![vec![0, 0, 0], vec![0, 0, 1]]);
    assert!(free.place_demand(&mut demands, 0, 2));
    assert!(free.place_demand(&mut demands, 0, 1));
    assert_eq!(demands, vec![vec![0, 1, 1], vec![0, 0, 1]]);
    // Periods 2, 1 and 0 are taken, in that order: none is left.
}

#[test]
fn placed_demands_can_all_be_met() {
    let mut free = PspFeasibility::new(5);
    let mut demands = vec![vec![0; 5]; 2];
    let wishes = [(0, 4), (1, 4), (0, 2), (1, 2), (0, 3)];
    let mut placed = 0;
    for (item, period) in wishes {
        if period >= free.min() && free.place_demand(&mut demands, item, period) {
            placed += 1;
        }
    }
    assert_eq!(placed, 5);
    let psp = Psp::new(PspInstance {
        nb_types: 2,
        nb_periods: 5,
        stocking: vec![1, 1],
        changeover: vec![vec![0, 1], vec![1, 0]],
        demands,
    })
    .unwrap();
    assert_eq!(psp.check_feasible(), Ok(()));
}

#[test]
fn solver_type_from_its_name() {
    assert_eq!(SolverType::from_str("classic"), Ok(SolverType::Classic));
    assert_eq!(SolverType::from_str("hybrid"), Ok(SolverType::Hybrid));
    assert_eq!(SolverType::from_str("Classic"), Err(UNKNOWN_SOLVER));
    assert_eq!(SolverType::from_str(""), Err(UNKNOWN_SOLVER));
    assert_eq!(
        SolverType::from_str("fast"),
        Err("The only supported frontier types are 'classic' and 'hybrid'")
    );
}

#[test]
fn solver_type_name_reads_back() {
    assert_eq!(SolverType::Classic.name(), "classic");
    assert_eq!(SolverType::Hybrid.name(), "hybrid");
    for solver in [SolverType::Classic, SolverType::Hybrid] {
        assert_eq!(SolverType::from_str(&solver.name()), Ok(solver));
    }
}

#[test]
fn solve_holds_its_configuration() {
    let solve = Solve {
        instance: "instance.json".to_string(),
        width: 100,
        timeout: 60,
        threads: 1,
        n_meta_items: 5,
        compression_bound: true,
        compression_heuristic: false,
        solver: SolverType::Classic,
    };
    let copy = solve.clone();
    assert_eq!(copy.instance, "instance.json");
    assert_eq!(copy.width, 100);
    assert_eq!(copy.timeout, 60);
    assert_eq!(copy.threads, 1);
    assert_eq!(copy.n_meta_items, 5);
    assert!(copy.compression_bound);
    assert!(!copy.compression_heuristic);
    assert_eq!(copy.solver, SolverType::Classic);
}

#[test]
fn every_placed_demand_leaves_the_deadlines_kept() {
    // Whatever is asked for, what is placed can be met: up to every period
    // no more units are due than there are periods.
    let horizon = 6;
    let mut seed: u64 = 12345;
    let mut draw = |bound: usize| {
        seed = seed.wrapping_mul(6364136223846793005).wrapping_add(1442695040888963407);
        ((seed >> 33) as usize) % bound
    };
    for _ in 0..50 {
        let mut free = PspFeasibility::new(horizon);
        let mut demands = vec![vec![0; horizon]; 3];
        let mut placed = 0;
        let wanted = 1 + draw(horizon);
        let mut tries = 0;
        while placed < wanted && tries < 1000 {
            tries += 1;
            let first = free.min();
            let period = first + draw(horizon - first);
            let item = draw(3);
            if free.place_demand(&mut demands, item, period) {
                placed += 1;
            }
        }
        assert_eq!(placed, wanted);
        for t in 0..horizon {
            let due: usize = demands.iter().map(|row| row[..=t].iter().sum::<usize>()).sum();
            assert!(due <= t + 1);
        }
        let psp = Psp::new(PspInstance {
            nb_types: 3,
            nb_periods: horizon,
            stocking: vec![1, 2, 3],
            changeover: vec![vec![0, 1, 2], vec![3, 0, 4], vec![5, 6, 0]],
            demands,
        })
        .unwrap();
        assert_eq!(psp.check_feasible(), Ok(()));
    }
}

#[test]
fn placement_starts_empty() {
    let placement = DemandPlacement::new(2, 3);
    assert_eq!(placement.horizon, 3);
    assert_eq!(placement.first_free(), Some(0));
    assert!(placement.free.is_free(2));
    assert!(!placement.free.is_free(3));
    assert_eq!(placement.finish(), vec![vec![0, 0, 0], vec![0, 0, 0]]);
    assert_eq!(DemandPlacement::new(0, 3).finish(), Vec::<Vec<usize>>::new());
    assert_eq!(DemandPlacement::new(2, 0).first_free(), None);
}

#[test]
fn placement_takes_what_can_be_met() {
    let mut placement = DemandPlacement::new(2, 3);
    assert!(placement.offer(1, 2));
    assert!(!placement.offer(1, 2));
    assert!(placement.offer(0, 2));
    assert_eq!(placement.first_free(), Some(0));
    assert!(placement.offer(0, 0));
    // Periods 2, 1 and 0 are taken: nothing more can be met.
    assert_eq!(placement.first_free(), None);
    assert!(!placement.offer(1, 1));
    assert!(!placement.offer(0, 1));
    assert_eq!(placement.finish(), vec![vec![1, 0, 1], vec![0, 0, 1]]);
}

#[test]
fn placement_refuses_a_demand_before_the_first_free_period() {
    let mut placement = DemandPlacement::new(1, 4);
    assert!(placement.offer(0, 0));
    assert_eq!(placement.first_free(), Some(1));
    let mut other = DemandPlacement::new(2, 4);
    assert!(other.offer(0, 1));
    assert!(other.offer(1, 1));
    // Periods 1 and 0 are taken: a demand in period 0 or 1 has no period.
    assert!(!other.offer(1, 0));
    assert_eq!(other.first_free(), Some(2));
    assert_eq!(other.finish(), vec![vec![0, 1, 0, 0], vec![0, 1, 0, 0]]);
}

#[test]
fn whatever_is_offered_the_finished_demands_can_be_met() {
    let horizon = 7;
    let mut seed: u64 = 987654321;
    let mut draw = |bound: usize| {
        seed = seed.wrapping_mul(6364136223846793005).wrapping_add(1442695040888963407);
        ((seed >> 33) as usize) % bound
    };
    for _ in 0..100 {
        let mut placement = DemandPlacement::new(3, horizon);
        for _ in 0..40 {
            placement.offer(draw(3), draw(horizon));
        }
        let demands = placement.finish();
        for t in 0..horizon {
            let due: usize = demands.iter().map(|row| row[..=t].iter().sum::<usize>()).sum();
            assert!(due <= t + 1);
        }
        let psp = Psp::new(PspInstance {
            nb_types: 3,
            nb_periods: horizon,
            stocking: vec![1, 2, 3],
            changeover: vec![vec![0, 1, 2], vec![3, 0, 4], vec![5, 6, 0]],
            demands,
        })
        .unwrap();
        assert_eq!(psp.check_feasible(), Ok(()));
    }
}
