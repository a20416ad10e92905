use psp::compression::PspCompression;
use psp::compression::IDLE;
use psp::compression::MAX_ITERATIONS;
use psp::error::PspError;
use psp::instance::PspInstance;
use psp::model::Decision;
use psp::model::Predecessor;
use psp::model::Psp;
use psp::model::PspState;

fn problem() -> Psp {
    Psp::new(PspInstance {
        nb_types: 4,
        nb_periods: 6,
        stocking: vec![5, 2, 9, 4],
        changeover: vec![
            vec![0, 3, 8, 7],
            vec![4, 0, 6, 9],
            vec![5, 1, 0, 2],
            vec![9, 8, 3, 0],
        ],
        demands: vec![
            vec![0, 0, 1, 0, 0, 1],
            vec![0, 0, 0, 0, 0, 1],
            vec![0, 1, 0, 0, 0, 0],
            vec![0, 0, 0, 0, 1, 1],
        ],
    })
    .unwrap()
}

#[test]
fn meta_stocking_is_the_least_of_the_members() {
    let psp = problem();
    assert_eq!(PspCompression::compute_meta_stocking(&psp, &vec![0, 0, 1, 1], 2), vec![2, 4]);
    assert_eq!(PspCompression::compute_meta_stocking(&psp, &vec![1, 0, 0, 0], 2), vec![2, 5]);
}

#[test]
fn meta_stocking_of_an_empty_cluster() {
    let psp = problem();
    assert_eq!(
        PspCompression::compute_meta_stocking(&psp, &vec![0, 0, 2, 2], 3),
        vec![2, usize::MAX, 4]
    );
}

#[test]
fn meta_changeover_is_the_least_pair() {
    let psp = problem();
    let meta = PspCompression::compute_meta_changeover(&psp, &vec![0, 0, 1, 1], 2);
    // From {0, 1} to {2, 3}: the least of 8, 7, 6, 9. Back: the least of 5,
    // 1, 9, 8.
    assert_eq!(meta, vec![vec![0, 6], vec![1, 0]]);
}

#[test]
fn meta_changeover_of_an_empty_cluster() {
    let psp = problem();
    let meta = PspCompression::compute_meta_changeover(&psp, &vec![0, 0, 2, 2], 3);
    assert_eq!(
        meta,
        vec![vec![0, usize::MAX, 6], vec![usize::MAX, 0, usize::MAX], vec![1, usize::MAX, 0]]
    );
}

#[test]
fn meta_demands_move_to_earlier_periods() {
    let psp = problem();
    let meta = PspCompression::compute_meta_demands(&psp, &vec![0, 0, 1, 1], 2);
    // Items 0 and 1 both ask for a unit in the last period: one of the two
    // waits for the period before. Item 3 asks in the last two periods and
    // item 2 in period 1.
    assert_eq!(meta, vec![vec![0, 0, 1, 0, 1, 1], vec![0, 1, 0, 0, 1, 1]]);
}

#[test]
fn meta_demands_of_one_cluster_fill_the_latest_periods() {
    let psp = problem();
    let meta = PspCompression::compute_meta_demands(&psp, &vec![0, 0, 0, 0], 1);
    // Six units in all, three of them in the last period: every period
    // takes one.
    assert_eq!(meta, vec![vec![1, 1, 1, 1, 1, 1]]);
    let fewer = PspCompression::compute_meta_demands(&psp, &vec![0, 1, 0, 0], 2);
    // Without item 1: two units in the last period, one in each of the
    // periods 4, 2 and 1. The unit that waits is taken by period 3.
    assert_eq!(fewer, vec![vec![0, 1, 1, 1, 1, 1], vec![0, 0, 0, 0, 0, 1]]);
}

#[test]
fn meta_demands_drop_what_no_period_can_take() {
    let psp = Psp::new(PspInstance {
        nb_types: 3,
        nb_periods: 2,
        stocking: vec![1, 1, 1],
        changeover: vec![vec![0, 1, 1], vec![1, 0, 1], vec![1, 1, 0]],
        demands: vec![vec![1, 0], vec![1, 0], vec![0, 1]],
    })
    .unwrap();
    let meta = PspCompression::compute_meta_demands(&psp, &vec![0, 0, 0], 1);
    assert_eq!(meta, vec![vec![1, 1]]);
}

#[test]
fn reverse_index_finds_the_period_of_each_count() {
    let psp = problem();
    let compression = PspCompression::from_membership(&psp, vec![0, 0, 1, 1], 2);
    let index = PspCompression::compute_rem_demand_to_prev_demand(&compression.meta_problem);
    assert_eq!(index[0], vec![Some(2), Some(4), Some(5), None, None, None]);
    assert_eq!(index[1], vec![Some(1), Some(4), Some(5), None, None, None]);
    assert_eq!(index, compression.rem_demand_to_prev_demand);
}

#[test]
fn from_membership_builds_the_meta_problem() {
    let psp = problem();
    let compression = PspCompression::from_membership(&psp, vec![0, 0, 1, 1], 2);
    let meta = compression.get_compressed_problem();
    assert_eq!(meta.n_items, 2);
    assert_eq!(meta.horizon, 6);
    assert_eq!(meta.stocking, vec![2, 4]);
    assert_eq!(meta.changeover, vec![vec![0, 6], vec![1, 0]]);
    assert_eq!(meta.demands, vec![vec![0, 0, 1, 0, 1, 1], vec![0, 1, 0, 0, 1, 1]]);
    assert_eq!(meta.rem_demands[0], vec![0, 0, 1, 1, 2, 3]);
    assert_eq!(meta.prev_demands[1], vec![None, Some(1), Some(1), Some(1), Some(4), Some(5)]);
    assert_eq!(compression.cluster_list(), vec![0, 0, 1, 1]);
    assert_eq!(meta.check_feasible(), Ok(()));
}

#[test]
fn compress_sums_the_members_open_units() {
    let psp = problem();
    let compression = PspCompression::from_membership(&psp, vec![0, 0, 1, 1], 2);
    let start = psp.initial_state();
    assert_eq!(start.prev_demands, vec![Some(5), Some(5), Some(1), Some(5)]);
    let projected = compression.compress(&start).unwrap();
    assert_eq!(projected.time, 0);
    assert_eq!(projected.pred, Predecessor::Idle);
    // Three units are open in each cluster: the third unit of either
    // meta-item is due in period 5.
    assert_eq!(projected.prev_demands, vec![Some(5), Some(5)]);

    let state = PspState { time: 2, pred: Predecessor::Item(3), prev_demands: vec![Some(2), Some(5), None, Some(4)] };
    let projected = compression.compress(&state).unwrap();
    assert_eq!(projected.time, 2);
    assert_eq!(projected.pred, Predecessor::Item(1));
    // Two units open among items 0 and 1, one for items 2 and 3.
    assert_eq!(projected.prev_demands, vec![Some(4), Some(1)]);

    let done = PspState { time: 6, pred: Predecessor::Unknown, prev_demands: vec![None, None, None, None] };
    let projected = compression.compress(&done).unwrap();
    assert_eq!(projected.pred, Predecessor::Unknown);
    assert_eq!(projected.prev_demands, vec![None, None]);
}

#[test]
fn compress_reports_a_gap() {
    let psp = Psp::new(PspInstance {
        nb_types: 3,
        nb_periods: 2,
        stocking: vec![1, 1, 1],
        changeover: vec![vec![0, 1, 1], vec![1, 0, 1], vec![1, 1, 0]],
        demands: vec![vec![1, 0], vec![1, 0], vec![0, 1]],
    })
    .unwrap();
    assert!(psp.check_feasible().is_err());
    let compression = PspCompression::from_membership(&psp, vec![0, 0, 0], 1);
    // Three units are open, and the meta-item has room for two only.
    assert_eq!(
        compression.compress(&psp.initial_state()),
        Err(PspError::ProjectionGap { meta_item: 0, count: 3 })
    );
}

#[test]
fn one_item_per_meta_item_changes_labels_only() {
    let psp = problem();
    let membership = vec![2, 0, 3, 1];
    let compression = PspCompression::from_membership(&psp, membership.clone(), 4);
    let meta = &compression.meta_problem;
    for i in 0..4 {
        assert_eq!(meta.stocking[membership[i]], psp.stocking[i]);
        assert_eq!(meta.demands[membership[i]], psp.demands[i]);
        for j in 0..4 {
            assert_eq!(meta.changeover[membership[i]][membership[j]], psp.changeover[i][j]);
        }
    }
    let mut frontier = vec![psp.initial_state()];
    while let Some(state) = frontier.pop() {
        let projected = compression.compress(&state).unwrap();
        assert_eq!(projected.time, state.time);
        for i in 0..4 {
            assert_eq!(projected.prev_demands[membership[i]], state.prev_demands[i]);
        }
        match state.pred {
            Predecessor::Item(i) => assert_eq!(projected.pred, Predecessor::Item(membership[i])),
            other => assert_eq!(projected.pred, other),
        }
        assert_eq!(meta.best_completion(&projected), psp.best_completion(&state));
        if state.time < 3 {
            for d in psp.domain(&state) {
                frontier.push(psp.transition(&state, d));
            }
        }
    }
}

#[test]
fn identity_membership_reproduces_the_problem() {
    let psp = problem();
    let compression = PspCompression::from_membership(&psp, vec![0, 1, 2, 3], 4);
    let meta = &compression.meta_problem;
    assert_eq!(meta.stocking, psp.stocking);
    assert_eq!(meta.changeover, psp.changeover);
    assert_eq!(meta.demands, psp.demands);
    assert_eq!(meta.prev_demands, psp.prev_demands);
    assert_eq!(meta.rem_demands, psp.rem_demands);
    let start = psp.initial_state();
    assert_eq!(compression.compress(&start), Ok(start));
}

#[test]
fn feature_vector_is_changeover_row_then_stocking() {
    let psp = problem();
    assert_eq!(
        PspCompression::feature_vectors(&psp),
        vec![vec![0, 3, 8, 7, 5], vec![4, 0, 6, 9, 2], vec![5, 1, 0, 2, 9], vec![9, 8, 3, 0, 4]]
    );
}

#[test]
fn iteration_cap() {
    assert_eq!(MAX_ITERATIONS, 1000);
}

#[test]
fn clustering_rejects_no_meta_item() {
    let psp = problem();
    assert_eq!(
        PspCompression::new(&psp, 0).err(),
        Some(PspError::ClusteringDegenerate { n_meta_items: 0, n_items: 4 })
    );
}

#[test]
fn clustering_rejects_more_meta_items_than_items() {
    let psp = problem();
    assert_eq!(
        PspCompression::new(&psp, 5).err(),
        Some(PspError::ClusteringDegenerate { n_meta_items: 5, n_items: 4 })
    );
    assert_eq!(
        PspCompression::new(&psp, 9).err(),
        Some(PspError::ClusteringDegenerate { n_meta_items: 9, n_items: 4 })
    );
}

#[test]
fn clustering_takes_as_many_meta_items_as_items() {
    let psp = problem();
    let compression = PspCompression::new(&psp, 4).unwrap();
    let m = &compression.cluster_list();
    let meta = &compression.meta_problem;
    assert_eq!(m.len(), 4);
    assert!(m.iter().all(|a| *a < 4));
    assert_eq!(meta.n_items, 4);
    assert_eq!(meta.horizon, psp.horizon);
    for i in 0..4 {
        assert!(meta.stocking[m[i]] <= psp.stocking[i]);
        for j in 0..4 {
            assert!(meta.changeover[m[i]][m[j]] <= psp.changeover[i][j]);
        }
    }
    let one_to_one = (0..4).all(|i| (0..4).all(|j| i == j || m[i] != m[j]));
    if one_to_one {
        for i in 0..4 {
            assert_eq!(meta.stocking[m[i]], psp.stocking[i]);
            assert_eq!(meta.demands[m[i]], psp.demands[i]);
            for j in 0..4 {
                assert_eq!(meta.changeover[m[i]][m[j]], psp.changeover[i][j]);
            }
        }
        let start = psp.initial_state();
        let projected = compression.compress(&start).unwrap();
        for i in 0..4 {
            assert_eq!(projected.prev_demands[m[i]], start.prev_demands[i]);
        }
    }
}

#[test]
fn clustering_of_one_item() {
    let psp = Psp::new(PspInstance {
        nb_types: 1,
        nb_periods: 2,
        stocking: vec![3],
        changeover: vec![vec![0]],
        demands: vec![vec![0, 1]],
    })
    .unwrap();
    let compression = PspCompression::new(&psp, 1).unwrap();
    assert_eq!(compression.cluster_list(), vec![0]);
    assert_eq!(compression.meta_problem.stocking, vec![3]);
    assert_eq!(compression.meta_problem.demands, vec![vec![0, 1]]);
    assert!(PspCompression::new(&psp, 2).is_err());
    assert!(PspCompression::new(&psp, 0).is_err());
}

#[test]
fn clustering_puts_every_item_in_a_meta_item() {
    let psp = problem();
    for k in 1..5 {
        let compression = PspCompression::new(&psp, k).unwrap();
        assert_eq!(compression.cluster_list().len(), 4);
        assert!(compression.cluster_list().iter().all(|a| *a < k));
        assert_eq!(compression.membership.len(), 5);
        assert_eq!(compression.membership[&IDLE], IDLE);
        for i in 0..4isize {
            assert!(0 <= compression.membership[&i] && compression.membership[&i] < k as isize);
        }
        assert_eq!(compression.meta_problem.n_items, k);
        assert_eq!(compression.meta_problem.horizon, 6);
        let again = PspCompression::from_membership(&psp, compression.cluster_list(), k);
        assert_eq!(again.meta_problem.stocking, compression.meta_problem.stocking);
        assert_eq!(again.meta_problem.changeover, compression.meta_problem.changeover);
        assert_eq!(again.meta_problem.demands, compression.meta_problem.demands);
        assert!(compression.compress(&psp.initial_state()).is_ok());
    }
}

#[test]
fn clustering_separates_items_that_lie_apart() {
    // Items 0 and 1 are alike, and so are items 2 and 3; the two pairs lie
    // far apart.
    let psp = Psp::new(PspInstance {
        nb_types: 4,
        nb_periods: 4,
        stocking: vec![10, 11, 9000, 9001],
        changeover: vec![
            vec![0, 1, 5000, 5001],
            vec![1, 0, 5001, 5000],
            vec![5000, 5001, 0, 1],
            vec![5001, 5000, 1, 0],
        ],
        demands: vec![vec![1, 0, 0, 0], vec![0, 1, 0, 0], vec![0, 0, 1, 0], vec![0, 0, 0, 1]],
    })
    .unwrap();
    let compression = PspCompression::new(&psp, 2).unwrap();
    let m = &compression.cluster_list();
    assert_eq!(m[0], m[1]);
    assert_eq!(m[2], m[3]);
    assert_ne!(m[0], m[2]);
    assert_eq!(compression.meta_problem.stocking[m[0]], 10);
    assert_eq!(compression.meta_problem.stocking[m[2]], 9000);
    assert_eq!(compression.meta_problem.changeover[m[0]][m[2]], 5000);
}

#[test]
fn decompress_keeps_the_decisions() {
    let psp = problem();
    let compression = PspCompression::from_membership(&psp, vec![0, 0, 1, 1], 2);
    let solution = vec![Decision::Produce(1), Decision::Idle, Decision::Produce(0)];
    assert_eq!(compression.decompress(&solution), solution);
    assert_eq!(compression.decompress(&Vec::new()), Vec::new());
}

#[test]
fn membership_holds_every_item_and_idle() {
    let psp = problem();
    let compression = PspCompression::from_membership(&psp, vec![1, 0, 1, 2], 3);
    let mut keys: Vec<isize> = compression.membership.keys().copied().collect();
    keys.sort();
    assert_eq!(keys, vec![-1, 0, 1, 2, 3]);
    assert_eq!(compression.membership[&IDLE], IDLE);
    assert_eq!(compression.membership[&0], 1);
    assert_eq!(compression.membership[&1], 0);
    assert_eq!(compression.membership[&2], 1);
    assert_eq!(compression.membership[&3], 2);
    assert_eq!(compression.cluster_of(3), 2);
    assert_eq!(compression.cluster_list(), vec![1, 0, 1, 2]);
    let map = PspCompression::membership_map(&vec![2, 2]);
    assert_eq!(map.len(), 3);
    assert_eq!(map[&IDLE], IDLE);
    assert_eq!(map[&0], 2);
    assert_eq!(map[&1], 2);
}
