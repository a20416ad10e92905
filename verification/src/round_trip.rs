//! Compression without loss: where no two items share a meta-item, the
//! meta-problem is the problem itself under other labels, and so is every
//! projected state.

use vstd::prelude::*;
use crate::compression::backlog;
use crate::compression::cluster_min;
use crate::compression::cluster_open;
use crate::compression::cluster_pair_min;
use crate::compression::cluster_units;
use crate::compression::lemma_cluster_min;
use crate::compression::lemma_period_of_count;
use crate::compression::meta_model;
use crate::compression::period_of_count;
use crate::compression::project;
use crate::compression::project_pred;
use crate::compression::projection_gap;
use crate::compression::valid_membership;
use crate::demand::lemma_units_upto_monotone;
use crate::demand::units_upto;
use crate::model::PspModel;
use crate::model::StateModel;

verus! {

/// No two items share a cluster.
pub open spec fn one_to_one(membership: Seq<usize>) -> bool {
    forall|i: int, j: int|
        0 <= i < membership.len() && 0 <= j < membership.len() && i != j ==> #[trigger] membership[i]
            != #[trigger] membership[j]
}

/// `meta` is `problem` under other labels: every item finds its own costs
/// and its own demands under the label of its meta-item, over the same
/// horizon.
pub open spec fn relabels(problem: PspModel, meta: PspModel, membership: Seq<usize>) -> bool {
    &&& meta.horizon == problem.horizon
    &&& forall|i: int|
        0 <= i < problem.n_items ==> meta.stocking[#[trigger] membership[i] as int]
            == problem.stocking[i]
    &&& forall|i: int, j: int|
        0 <= i < problem.n_items && 0 <= j < problem.n_items ==> meta.changeover[
            #[trigger] membership[i] as int][#[trigger] membership[j] as int]
            == problem.changeover[i][j]
    &&& forall|i: int|
        0 <= i < problem.n_items ==> meta.demands[#[trigger] membership[i] as int]
            == problem.demands[i]
}

/// The least value over a cluster of one is that one's value.
proof fn lemma_single_min(values: Seq<usize>, membership: Seq<usize>, i: int)
    requires
        one_to_one(membership),
        0 <= i < membership.len(),
        membership.len() <= values.len(),
    ensures
        cluster_min(values, membership, membership[i], membership.len() as int) == values[i],
{
    lemma_cluster_min(values, membership, membership[i], membership.len() as int);
}

/// The least entry between two clusters of one is the entry between the
/// two items.
proof fn lemma_single_pair_min(table: Seq<Seq<usize>>, membership: Seq<usize>, i: int, j: int, upto: int)
    requires
        one_to_one(membership),
        0 <= i < membership.len(),
        0 <= j < membership.len(),
        0 <= upto <= membership.len(),
        table.len() == membership.len(),
        forall|c: int| 0 <= c < table.len() ==> (#[trigger] table[c]).len() == membership.len(),
    ensures
        cluster_pair_min(table, membership, membership[i], membership[j], upto) == if i < upto {
            table[i][j]
        } else {
            usize::MAX
        },
    decreases upto,
{
    if upto > 0 {
        lemma_single_pair_min(table, membership, i, j, upto - 1);
        if upto - 1 == i {
            lemma_single_min(table[i], membership, j);
        }
    }
}

/// The units of a cluster of one are that one's units.
proof fn lemma_single_units(demands: Seq<Seq<usize>>, membership: Seq<usize>, i: int, t: int, upto: int)
    requires
        one_to_one(membership),
        0 <= i < membership.len(),
        0 <= upto <= membership.len(),
    ensures
        cluster_units(demands, membership, membership[i], t, upto) == if i < upto {
            demands[i][t] as nat
        } else {
            0
        },
    decreases upto,
{
    if upto > 0 {
        lemma_single_units(demands, membership, i, t, upto - 1);
    }
}

/// A cluster without a member below `upto` demands nothing.
proof fn lemma_empty_open(problem: PspModel, s: StateModel, membership: Seq<usize>, cluster: usize, upto: int)
    requires
        0 <= upto <= membership.len(),
        forall|i: int| 0 <= i < upto ==> #[trigger] membership[i] != cluster,
    ensures
        cluster_open(problem, s, membership, cluster, upto) == 0,
    decreases upto,
{
    if upto > 0 {
        lemma_empty_open(problem, s, membership, cluster, upto - 1);
    }
}

/// The open units of a cluster of one are that one's open units.
proof fn lemma_single_open(problem: PspModel, s: StateModel, membership: Seq<usize>, i: int, upto: int)
    requires
        one_to_one(membership),
        0 <= i < membership.len(),
        0 <= upto <= membership.len(),
    ensures
        cluster_open(problem, s, membership, membership[i], upto) == if i < upto {
            problem.open_units(s, i)
        } else {
            0
        },
    decreases upto,
{
    if upto > 0 {
        lemma_single_open(problem, s, membership, i, upto - 1);
    }
}

/// A cluster of one never has a unit waiting: each of its units is taken by
/// the period that demands it.
proof fn lemma_single_backlog(problem: PspModel, membership: Seq<usize>, i: int, t: int)
    requires
        problem.wf(),
        one_to_one(membership),
        membership.len() == problem.n_items,
        0 <= i < problem.n_items,
        0 <= t <= problem.horizon,
    ensures
        backlog(problem.demands, membership, membership[i], problem.horizon as int, t) == 0,
    decreases problem.horizon - t,
{
    if t < problem.horizon {
        lemma_single_backlog(problem, membership, i, t + 1);
        lemma_single_units(problem.demands, membership, i, t, membership.len() as int);
        assert(problem.demands[i][t] <= 1);
    }
}

/// The period of a demand is found again from the number of units due up
/// to it.
pub proof fn lemma_period_found(row: Seq<usize>, p: int)
    requires
        0 <= p < row.len(),
        row.len() <= usize::MAX,
        row[p] > 0,
    ensures
        period_of_count(row, units_upto(row, p), row.len() - 1) == Some(p as usize),
{
    let count = units_upto(row, p);
    lemma_period_of_count(row, count, row.len() - 1);
    let found = period_of_count(row, count, row.len() - 1);
    assert(found is Some);
    let q = found->Some_0 as int;
    if q < p {
        lemma_units_upto_monotone(row, q, p - 1);
    } else if p < q {
        lemma_units_upto_monotone(row, p, q - 1);
    }
}

/// Where no two items share a meta-item, every item finds its own costs and
/// its own demands under the label of its meta-item.
pub proof fn lemma_round_trip(problem: PspModel, membership: Seq<usize>, n_clusters: nat)
    requires
        problem.wf(),
        valid_membership(membership, problem.n_items, n_clusters),
        one_to_one(membership),
    ensures
        forall|i: int|
            0 <= i < problem.n_items ==> meta_model(problem, membership, n_clusters).stocking[
                #[trigger] membership[i] as int] == problem.stocking[i],
        forall|i: int, j: int|
            0 <= i < problem.n_items && 0 <= j < problem.n_items ==> meta_model(
                problem,
                membership,
                n_clusters,
            ).changeover[#[trigger] membership[i] as int][#[trigger] membership[j] as int]
                == problem.changeover[i][j],
        forall|i: int|
            0 <= i < problem.n_items ==> meta_model(problem, membership, n_clusters).demands[
                #[trigger] membership[i] as int] == problem.demands[i],
{
    let meta = meta_model(problem, membership, n_clusters);
    let n = problem.n_items as int;
    assert forall|i: int| 0 <= i < n implies meta.stocking[#[trigger] membership[i] as int]
        == problem.stocking[i] by {
        lemma_single_min(problem.stocking, membership, i);
    }
    assert forall|i: int, j: int| 0 <= i < n && 0 <= j < n implies meta.changeover[
        #[trigger] membership[i] as int][#[trigger] membership[j] as int]
        == problem.changeover[i][j] by {
        lemma_single_pair_min(problem.changeover, membership, i, j, n);
        if i == j {
            assert(problem.changeover[i][i] == 0);
        }
    }
    assert forall|i: int| 0 <= i < n implies meta.demands[#[trigger] membership[i] as int]
        == problem.demands[i] by {
        let a = membership[i];
        assert forall|t: int| 0 <= t < problem.horizon implies meta.demands[a as int][t]
            == problem.demands[i][t] by {
            lemma_single_backlog(problem, membership, i, t + 1);
            lemma_single_units(problem.demands, membership, i, t, n);
            assert(problem.demands[i][t] <= 1);
        }
        assert(meta.demands[a as int] =~= problem.demands[i]);
    }
}

/// Where no two items share a meta-item, the projection of a state is the
/// state itself under the meta-items' labels, and leaves no gap.
pub proof fn lemma_round_trip_state(problem: PspModel, membership: Seq<usize>, n_clusters: nat, s: StateModel)
    requires
        problem.wf(),
        valid_membership(membership, problem.n_items, n_clusters),
        one_to_one(membership),
        n_clusters <= usize::MAX,
        problem.valid_state(s),
    ensures
        ({
            let meta = meta_model(problem, membership, n_clusters);
            let p = project(problem, meta, membership, s);
            &&& p.time == s.time
            &&& p.pred == project_pred(s.pred, membership)
            &&& forall|i: int|
                0 <= i < problem.n_items ==> p.pointers[#[trigger] membership[i] as int]
                    == s.pointers[i]
            &&& forall|a: int|
                0 <= a < n_clusters ==> !#[trigger] projection_gap(problem, meta, membership, s, a)
        }),
{
    let meta = meta_model(problem, membership, n_clusters);
    let p = project(problem, meta, membership, s);
    let n = problem.n_items as int;
    lemma_round_trip(problem, membership, n_clusters);
    assert forall|i: int| 0 <= i < n implies p.pointers[#[trigger] membership[i] as int]
        == s.pointers[i] && !projection_gap(problem, meta, membership, s, membership[i] as int) by {
        let a = membership[i];
        lemma_single_open(problem, s, membership, i, n);
        assert(meta.demands[a as int] == problem.demands[i]);
        if s.pointers[i] is Some {
            let q = s.pointers[i]->Some_0 as int;
            lemma_period_found(problem.demands[i], q);
            assert(problem.demands[i][q] <= 1);
            assert(units_upto(problem.demands[i], q) > 0);
        }
    }
    assert forall|a: int| 0 <= a < n_clusters implies !#[trigger] projection_gap(
        problem,
        meta,
        membership,
        s,
        a,
    ) by {
        if exists|i: int| 0 <= i < n && membership[i] == a as usize {
            let i = choose|i: int| 0 <= i < n && membership[i] == a as usize;
            assert(!projection_gap(problem, meta, membership, s, membership[i] as int));
        } else {
            lemma_empty_open(problem, s, membership, a as usize, n);
        }
    }
}

} // verus!
