//! Why a projection leaves no gap: in a problem whose deadlines can all be
//! kept, every cluster hands each of its units to a period of its
//! meta-item, so that a meta-item has a demand for every number of units
//! that its members can have open.

use vstd::prelude::*;
use crate::compression::backlog;
use crate::compression::cluster_open;
use crate::compression::cluster_units;
use crate::compression::meta_demand;
use crate::compression::meta_model;
use crate::compression::period_of_count;
use crate::compression::projection_gap;
use crate::compression::valid_membership;
use crate::demand::lemma_units_upto_monotone;
use crate::demand::unit_row;
use crate::demand::units_upto;
use crate::model::PspModel;
use crate::model::StateModel;

verus! {

/// The units that the members of `cluster` below `upto` demand in the
/// periods `0..=t`.
pub open spec fn cluster_due(
    demands: Seq<Seq<usize>>,
    membership: Seq<usize>,
    cluster: usize,
    t: int,
    upto: int,
) -> nat
    decreases upto,
{
    if upto <= 0 {
        0
    } else {
        cluster_due(demands, membership, cluster, t, upto - 1) + if membership[upto - 1] == cluster {
            units_upto(demands[upto - 1], t)
        } else {
            0
        }
    }
}

/// What a cluster demands up to a period is what it demands up to the
/// period before and in the period itself; it is no more than what all
/// items demand up to the period; and nothing is demanded before the first
/// period.
pub proof fn lemma_cluster_due(problem: PspModel, membership: Seq<usize>, cluster: usize, t: int, upto: int)
    requires
        0 <= upto <= problem.n_items,
        membership.len() == problem.n_items,
        -1 <= t,
    ensures
        t >= 0 ==> cluster_due(problem.demands, membership, cluster, t, upto) == cluster_due(
            problem.demands,
            membership,
            cluster,
            t - 1,
            upto,
        ) + cluster_units(problem.demands, membership, cluster, t, upto),
        cluster_due(problem.demands, membership, cluster, t, upto) <= problem.due_below(upto, t),
        t == -1 ==> cluster_due(problem.demands, membership, cluster, t, upto) == 0,
    decreases upto,
{
    if upto > 0 {
        lemma_cluster_due(problem, membership, cluster, t, upto - 1);
    }
}

/// A cluster has no more units open than it demands over the whole
/// horizon.
pub proof fn lemma_cluster_open_bound(
    problem: PspModel,
    s: StateModel,
    membership: Seq<usize>,
    cluster: usize,
    upto: int,
)
    requires
        problem.wf(),
        problem.valid_state(s),
        membership.len() == problem.n_items,
        0 <= upto <= problem.n_items,
    ensures
        cluster_open(problem, s, membership, cluster, upto) <= cluster_due(
            problem.demands,
            membership,
            cluster,
            problem.horizon - 1,
            upto,
        ),
    decreases upto,
{
    if upto > 0 {
        lemma_cluster_open_bound(problem, s, membership, cluster, upto - 1);
        if s.pointers[upto - 1] is Some {
            lemma_units_upto_monotone(
                problem.demands[upto - 1],
                s.pointers[upto - 1]->Some_0 as int,
                problem.horizon - 1,
            );
        }
    }
}

/// The units that wait once the periods from `t` on are swept are the
/// units of some stretch of periods from `t` on, less one for each period
/// of the stretch. The stretch ends before the period handed back.
pub proof fn lemma_backlog_stretch(problem: PspModel, membership: Seq<usize>, cluster: usize, t: int) -> (e: int)
    requires
        problem.wf(),
        membership.len() == problem.n_items,
        0 <= t <= problem.horizon,
    ensures
        t <= e <= problem.horizon,
        backlog(problem.demands, membership, cluster, problem.horizon as int, t) == cluster_due(
            problem.demands,
            membership,
            cluster,
            e - 1,
            problem.n_items as int,
        ) - cluster_due(problem.demands, membership, cluster, t - 1, problem.n_items as int) - (e
            - t),
    decreases problem.horizon - t,
{
    let n = problem.n_items as int;
    if t >= problem.horizon {
        t
    } else {
        let e = lemma_backlog_stretch(problem, membership, cluster, t + 1);
        lemma_cluster_due(problem, membership, cluster, t, n);
        let waiting = backlog(problem.demands, membership, cluster, problem.horizon as int, t + 1)
            + cluster_units(problem.demands, membership, cluster, t, n);
        if waiting > 0 {
            e
        } else {
            t
        }
    }
}

/// Where every deadline can be kept, no unit of a cluster is left waiting
/// when the first period has been swept.
pub proof fn lemma_nothing_left(problem: PspModel, membership: Seq<usize>, cluster: usize)
    requires
        problem.wf(),
        problem.feasible(),
        membership.len() == problem.n_items,
    ensures
        backlog(problem.demands, membership, cluster, problem.horizon as int, 0) == 0,
{
    let n = problem.n_items as int;
    let e = lemma_backlog_stretch(problem, membership, cluster, 0);
    lemma_cluster_due(problem, membership, cluster, e - 1, n);
    lemma_cluster_due(problem, membership, cluster, -1, n);
    if e > 0 {
        assert(problem.due_by(e - 1) <= e);
    }
}

/// What a meta-item demands from period `t` on, and what still waits
/// there, is what its cluster demands from `t` on.
pub proof fn lemma_units_kept(problem: PspModel, membership: Seq<usize>, n_clusters: nat, cluster: usize, t: int)
    requires
        problem.wf(),
        membership.len() == problem.n_items,
        cluster < n_clusters,
        0 <= t <= problem.horizon,
    ensures
        units_upto(
            meta_model(problem, membership, n_clusters).demands[cluster as int],
            problem.horizon - 1,
        ) - units_upto(meta_model(problem, membership, n_clusters).demands[cluster as int], t - 1)
            + backlog(problem.demands, membership, cluster, problem.horizon as int, t)
            == cluster_due(
            problem.demands,
            membership,
            cluster,
            problem.horizon - 1,
            problem.n_items as int,
        ) - cluster_due(problem.demands, membership, cluster, t - 1, problem.n_items as int),
    decreases problem.horizon - t,
{
    if t < problem.horizon {
        let row = meta_model(problem, membership, n_clusters).demands[cluster as int];
        lemma_units_kept(problem, membership, n_clusters, cluster, t + 1);
        lemma_cluster_due(problem, membership, cluster, t, problem.n_items as int);
        assert(row[t] == meta_demand(
            problem.demands,
            membership,
            cluster,
            problem.horizon as int,
            t,
        ));
    }
}

/// A row of 0/1 demands has a demand for every count from one to the
/// number of its units.
pub proof fn lemma_count_attained(row: Seq<usize>, count: nat, t: int)
    requires
        unit_row(row),
        -1 <= t < row.len(),
        1 <= count <= units_upto(row, t),
    ensures
        period_of_count(row, count, t) is Some,
    decreases t + 1,
{
    if t >= 0 {
        if !(row[t] > 0 && units_upto(row, t) == count) {
            lemma_count_attained(row, count, t - 1);
        }
    }
}

/// In a problem whose deadlines can all be kept, the projection of a state
/// of the problem leaves no gap, whatever the membership.
pub proof fn lemma_no_projection_gap(
    problem: PspModel,
    membership: Seq<usize>,
    n_clusters: nat,
    s: StateModel,
    a: int,
)
    requires
        problem.wf(),
        problem.feasible(),
        valid_membership(membership, problem.n_items, n_clusters),
        n_clusters <= usize::MAX,
        problem.valid_state(s),
        0 <= a < n_clusters,
    ensures
        !projection_gap(problem, meta_model(problem, membership, n_clusters), membership, s, a),
{
    let meta = meta_model(problem, membership, n_clusters);
    let cluster = a as usize;
    let n = problem.n_items as int;
    let count = cluster_open(problem, s, membership, cluster, n);
    if count > 0 {
        lemma_cluster_open_bound(problem, s, membership, cluster, n);
        lemma_nothing_left(problem, membership, cluster);
        lemma_units_kept(problem, membership, n_clusters, cluster, 0);
        lemma_cluster_due(problem, membership, cluster, -1, n);
        let row = meta.demands[a];
        assert(units_upto(row, -1) == 0);
        assert forall|t: int| 0 <= t < row.len() implies #[trigger] row[t] <= 1 by {}
        lemma_count_attained(row, count, problem.horizon - 1);
    }
}

} // verus!
