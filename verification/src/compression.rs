//! Compression of a problem into a smaller one over clusters of items.
//!
//! Every item belongs to one cluster, and every cluster becomes one
//! meta-item. The meta-problem never costs more than the problem it stands
//! for: a meta-item is stocked at the cheapest rate among its members, two
//! meta-items change over at the cheapest rate among their members' pairs,
//! and a meta-item's demands are its members' demands, moved to earlier
//! periods where several fall on one.

use vstd::prelude::*;
use std::collections::HashMap;
use crate::demand::lemma_units_upto_bound;
use crate::demand::unit_row;
use crate::demand::units_upto;
use crate::model::Psp;
use crate::demand::compute_prev_demands;
use crate::demand::compute_rem_demands;
use crate::demand::latest_upto;
use crate::error::PspError;
use crate::model::Decision;
use crate::projection::lemma_no_projection_gap;
use crate::round_trip::lemma_round_trip;
use crate::round_trip::one_to_one;
use crate::round_trip::relabels;
use crate::relax::pointer_le;
use crate::validity::on_track;
use crate::model::Predecessor;
use crate::model::PspModel;
use crate::model::PspState;
use crate::model::StateModel;
use crate::model::rows;

verus! {

/// `membership` puts each of `n_items` items in one of `n_clusters` clusters.
pub open spec fn valid_membership(membership: Seq<usize>, n_items: nat, n_clusters: nat) -> bool {
    &&& membership.len() == n_items
    &&& forall|i: int| 0 <= i < n_items ==> #[trigger] membership[i] < n_clusters
}

/// The least of `values` over the members of `cluster` below `upto`, and
/// `usize::MAX` where there is none.
pub open spec fn cluster_min(values: Seq<usize>, membership: Seq<usize>, cluster: usize, upto: int) -> usize
    decreases upto,
{
    if upto <= 0 {
        usize::MAX
    } else {
        let rest = cluster_min(values, membership, cluster, upto - 1);
        if membership[upto - 1] == cluster && values[upto - 1] < rest {
            values[upto - 1]
        } else {
            rest
        }
    }
}

/// The least entry of `table` over the rows of the members of `from` below
/// `upto` and the columns of all members of `to`, and `usize::MAX` where
/// there is none.
pub open spec fn cluster_pair_min(
    table: Seq<Seq<usize>>,
    membership: Seq<usize>,
    from: usize,
    to: usize,
    upto: int,
) -> usize
    decreases upto,
{
    if upto <= 0 {
        usize::MAX
    } else {
        let rest = cluster_pair_min(table, membership, from, to, upto - 1);
        let here = cluster_min(table[upto - 1], membership, to, membership.len() as int);
        if membership[upto - 1] == from && here < rest {
            here
        } else {
            rest
        }
    }
}

/// The units that the members of `cluster` below `upto` demand in period `t`.
pub open spec fn cluster_units(
    demands: Seq<Seq<usize>>,
    membership: Seq<usize>,
    cluster: usize,
    t: int,
    upto: int,
) -> nat
    decreases upto,
{
    if upto <= 0 {
        0
    } else {
        cluster_units(demands, membership, cluster, t, upto - 1) + if membership[upto - 1]
            == cluster {
            demands[upto - 1][t] as nat
        } else {
            0
        }
    }
}

/// The units of `cluster` that wait for an earlier period once the periods
/// from `t` on have been swept, last period first: whatever a period
/// receives beyond the one unit that it can take is handed to the period
/// before it.
pub open spec fn backlog(
    demands: Seq<Seq<usize>>,
    membership: Seq<usize>,
    cluster: usize,
    horizon: int,
    t: int,
) -> nat
    decreases horizon - t,
{
    if t >= horizon {
        0
    } else {
        let waiting = backlog(demands, membership, cluster, horizon, t + 1) + cluster_units(
            demands,
            membership,
            cluster,
            t,
            membership.len() as int,
        );
        if waiting > 0 {
            (waiting - 1) as nat
        } else {
            0
        }
    }
}

/// The demand of `cluster` in period `t` of the meta-problem: one unit if
/// its members demand one there or one waits from a later period.
pub open spec fn meta_demand(
    demands: Seq<Seq<usize>>,
    membership: Seq<usize>,
    cluster: usize,
    horizon: int,
    t: int,
) -> usize {
    if backlog(demands, membership, cluster, horizon, t + 1) + cluster_units(
        demands,
        membership,
        cluster,
        t,
        membership.len() as int,
    ) > 0 {
        1
    } else {
        0
    }
}

/// The meta-problem of `problem` under `membership`.
pub open spec fn meta_model(problem: PspModel, membership: Seq<usize>, n_clusters: nat) -> PspModel {
    PspModel {
        n_items: n_clusters,
        horizon: problem.horizon,
        stocking: Seq::new(
            n_clusters,
            |a: int| cluster_min(problem.stocking, membership, a as usize, problem.n_items as int),
        ),
        changeover: Seq::new(
            n_clusters,
            |a: int|
                Seq::new(
                    n_clusters,
                    |b: int|
                        if a == b {
                            0usize
                        } else {
                            cluster_pair_min(
                                problem.changeover,
                                membership,
                                a as usize,
                                b as usize,
                                problem.n_items as int,
                            )
                        },
                ),
        ),
        demands: Seq::new(
            n_clusters,
            |a: int|
                Seq::new(
                    problem.horizon,
                    |t: int|
                        meta_demand(
                            problem.demands,
                            membership,
                            a as usize,
                            problem.horizon as int,
                            t,
                        ),
                ),
        ),
    }
}

/// What `cluster_min` yields is below every member's value, and is one
/// member's value unless the cluster has no member.
pub proof fn lemma_cluster_min(values: Seq<usize>, membership: Seq<usize>, cluster: usize, upto: int)
    requires
        0 <= upto <= membership.len(),
        upto <= values.len(),
    ensures
        forall|i: int|
            0 <= i < upto && membership[i] == cluster ==> cluster_min(
                values,
                membership,
                cluster,
                upto,
            ) <= #[trigger] values[i],
        (exists|i: int|
            0 <= i < upto && membership[i] == cluster && cluster_min(
                values,
                membership,
                cluster,
                upto,
            ) == #[trigger] values[i]) || (cluster_min(values, membership, cluster, upto)
            == usize::MAX && forall|i: int| 0 <= i < upto ==> #[trigger] membership[i] != cluster),
    decreases upto,
{
    if upto > 0 {
        lemma_cluster_min(values, membership, cluster, upto - 1);
        let rest = cluster_min(values, membership, cluster, upto - 1);
        if membership[upto - 1] == cluster && values[upto - 1] < rest {
            assert(cluster_min(values, membership, cluster, upto) == values[upto - 1]);
        } else if exists|i: int|
            0 <= i < upto - 1 && membership[i] == cluster && rest == #[trigger] values[i] {
            let i = choose|i: int|
                0 <= i < upto - 1 && membership[i] == cluster && rest == #[trigger] values[i];
            assert(0 <= i < upto && membership[i] == cluster && cluster_min(
                values,
                membership,
                cluster,
                upto,
            ) == values[i]);
        } else if membership[upto - 1] == cluster {
            assert(values[upto - 1] == usize::MAX);
        }
    }
}

/// What `cluster_pair_min` yields is below every entry from a member of
/// `from` below `upto` to a member of `to`.
pub proof fn lemma_cluster_pair_min(
    table: Seq<Seq<usize>>,
    membership: Seq<usize>,
    from: usize,
    to: usize,
    upto: int,
)
    requires
        0 <= upto <= membership.len(),
        upto <= table.len(),
        forall|i: int| 0 <= i < upto ==> membership.len() <= (#[trigger] table[i]).len(),
    ensures
        forall|i: int, j: int|
            0 <= i < upto && 0 <= j < membership.len() && membership[i] == from && membership[j]
                == to ==> cluster_pair_min(table, membership, from, to, upto) <= #[trigger] table[i][j],
    decreases upto,
{
    if upto > 0 {
        lemma_cluster_pair_min(table, membership, from, to, upto - 1);
        lemma_cluster_min(table[upto - 1], membership, to, membership.len() as int);
    }
}

/// Every item is stocked at no less than its meta-item in `meta`, and every
/// two items change over at no less than their meta-items do.
pub open spec fn below_members(problem: PspModel, meta: PspModel, membership: Seq<usize>) -> bool {
    &&& forall|i: int|
        0 <= i < problem.n_items ==> meta.stocking[#[trigger] membership[i] as int]
            <= problem.stocking[i]
    &&& forall|i: int, j: int|
        0 <= i < problem.n_items && 0 <= j < problem.n_items ==> meta.changeover[
            #[trigger] membership[i] as int][#[trigger] membership[j] as int]
            <= problem.changeover[i][j]
}

/// The meta-problem never costs more than the problem: an item is stocked
/// at no less than its meta-item, and two items of different meta-items
/// change over at no less than their meta-items do.
pub proof fn lemma_meta_costs_optimistic(problem: PspModel, membership: Seq<usize>, n_clusters: nat)
    requires
        problem.wf(),
        valid_membership(membership, problem.n_items, n_clusters),
    ensures
        forall|i: int|
            0 <= i < problem.n_items ==> meta_model(problem, membership, n_clusters).stocking[
                #[trigger] membership[i] as int] <= problem.stocking[i],
        forall|i: int, j: int|
            0 <= i < problem.n_items && 0 <= j < problem.n_items ==> meta_model(
                problem,
                membership,
                n_clusters,
            ).changeover[#[trigger] membership[i] as int][#[trigger] membership[j] as int]
                <= problem.changeover[i][j],
{
    let n = problem.n_items as int;
    assert forall|i: int| 0 <= i < n implies meta_model(problem, membership, n_clusters).stocking[
        #[trigger] membership[i] as int] <= problem.stocking[i] by {
        lemma_cluster_min(problem.stocking, membership, membership[i], n);
    }
    assert forall|i: int, j: int| 0 <= i < n && 0 <= j < n implies meta_model(
        problem,
        membership,
        n_clusters,
    ).changeover[#[trigger] membership[i] as int][#[trigger] membership[j] as int]
        <= problem.changeover[i][j] by {
        lemma_cluster_pair_min(problem.changeover, membership, membership[i], membership[j], n);
    }
}

/// The latest period in `0..=t` in which `row` demands a unit that is the
/// `count`-th of its units, counted from the first period, if there is one.
pub open spec fn period_of_count(row: Seq<usize>, count: nat, t: int) -> Option<usize>
    decreases t + 1,
{
    if t < 0 {
        None
    } else if row[t] > 0 && units_upto(row, t) == count {
        Some(t as usize)
    } else {
        period_of_count(row, count, t - 1)
    }
}

/// What `period_of_count` finds is a period with a demand, no later than
/// `t`, up to which `count` units are due.
pub proof fn lemma_period_of_count(row: Seq<usize>, count: nat, t: int)
    requires
        -1 <= t < row.len(),
        row.len() <= usize::MAX,
    ensures
        period_of_count(row, count, t) matches Some(p) ==> p <= t && row[p as int] > 0
            && units_upto(row, p as int) == count,
        period_of_count(row, count, t) is None ==> forall|p: int|
            0 <= p <= t ==> !(#[trigger] row[p] > 0 && units_upto(row, p) == count),
    decreases t + 1,
{
    if t >= 0 {
        lemma_period_of_count(row, count, t - 1);
    }
}

/// The open units of the members of `cluster` below `upto`.
pub open spec fn cluster_open(
    problem: PspModel,
    s: StateModel,
    membership: Seq<usize>,
    cluster: usize,
    upto: int,
) -> nat
    decreases upto,
{
    if upto <= 0 {
        0
    } else {
        cluster_open(problem, s, membership, cluster, upto - 1) + if membership[upto - 1]
            == cluster {
            problem.open_units(s, upto - 1)
        } else {
            0
        }
    }
}

/// The predecessor as the meta-problem sees it: an item becomes its
/// meta-item.
pub open spec fn project_pred(pred: Predecessor, membership: Seq<usize>) -> Predecessor {
    match pred {
        Predecessor::Item(i) => Predecessor::Item(membership[i as int]),
        other => other,
    }
}

/// The pointer of meta-item `a` for state `s`: none if its members have no
/// open unit, else the period of the meta-demand up to which as many units
/// are due as its members have open.
pub open spec fn project_pointer(
    problem: PspModel,
    meta: PspModel,
    membership: Seq<usize>,
    s: StateModel,
    a: int,
) -> Option<usize> {
    let count = cluster_open(problem, s, membership, a as usize, problem.n_items as int);
    if count == 0 {
        None
    } else {
        period_of_count(meta.demands[a], count, meta.horizon - 1)
    }
}

/// The members of meta-item `a` have open units in `s`, and no demand of
/// the meta-item answers to their number.
pub open spec fn projection_gap(
    problem: PspModel,
    meta: PspModel,
    membership: Seq<usize>,
    s: StateModel,
    a: int,
) -> bool {
    let count = cluster_open(problem, s, membership, a as usize, problem.n_items as int);
    count > 0 && period_of_count(meta.demands[a], count, meta.horizon - 1) is None
}

/// The state `s` as the meta-problem sees it.
pub open spec fn project(
    problem: PspModel,
    meta: PspModel,
    membership: Seq<usize>,
    s: StateModel,
) -> StateModel {
    StateModel {
        time: s.time,
        pred: project_pred(s.pred, membership),
        pointers: Seq::new(
            meta.n_items,
            |a: int| project_pointer(problem, meta, membership, s, a),
        ),
    }
}

/// The meta-problem of a problem is a problem.
pub proof fn lemma_meta_model_wf(problem: PspModel, membership: Seq<usize>, n_clusters: nat)
    requires
        problem.wf(),
        1 <= n_clusters <= usize::MAX,
    ensures
        meta_model(problem, membership, n_clusters).wf(),
{
    let meta = meta_model(problem, membership, n_clusters);
    assert forall|a: int| 0 <= a < meta.n_items implies unit_row(#[trigger] meta.demands[a]) by {
        assert forall|t: int| 0 <= t < meta.demands[a].len() implies #[trigger] meta.demands[a][t]
            <= 1 by {}
    }
}

/// The feature vectors by which items are clustered: for each item, its row
/// of the changeover table, then its stocking cost.
pub open spec fn feature_rows(problem: PspModel) -> Seq<Seq<usize>> {
    Seq::new(problem.n_items, |i: int| problem.changeover[i].push(problem.stocking[i]))
}

/// The key and the value of idle in a membership.
pub const IDLE: isize = -1;

/// The most rounds of relocation that the clustering may take.
pub const MAX_ITERATIONS: usize = 1000;

/// Calls `clustering::kmeans` on the feature vectors and hands back the
/// membership that it found. The outcome depends on a random first
/// centroid, so all that is claimed is its shape: one entry per vector, each
/// the index of one of the `k` clusters. The call is kept away from an empty
/// list of vectors, from `k == 0` and from vectors of unequal length, on
/// which it would panic.
#[verifier::external_body]
fn kmeans_membership(k: usize, features: &Vec<Vec<usize>>, max_iterations: usize) -> (membership: Vec<usize>)
    requires
        k >= 1,
        features@.len() >= 1,
        forall|i: int|
            0 <= i < features@.len() ==> (#[trigger] features@[i])@.len() == features@[0]@.len(),
    ensures
        valid_membership(membership@, features@.len(), k as nat),
{
    clustering::kmeans(k, features.as_slice(), max_iterations).membership
}

/// A problem, its meta-problem, and the maps between the two.
pub struct PspCompression<'a> {
    pub problem: &'a Psp,
    pub meta_problem: Psp,
    /// For each item, the meta-item that it belongs to, and idle for idle.
    pub membership: HashMap<isize, isize>,
    /// For each meta-item and each count of open units from 1 on, the period
    /// of the demand up to which that many units are due. The entry for a
    /// count stands at the index one below it.
    pub rem_demand_to_prev_demand: Vec<Vec<Option<usize>>>,
}

impl<'a> PspCompression<'a> {
    /// For each item, the meta-item that the membership gives it.
    pub open spec fn clusters(&self) -> Seq<usize> {
        Seq::new(self.problem.n_items as nat, |i: int| self.membership@[i as isize] as usize)
    }

    /// The compression is sound in itself: both problems are problems, the
    /// membership holds every item and idle and nothing else, it puts every
    /// item in a meta-item and idle on idle, and the meta-problem and the
    /// reverse-count index are the ones that the membership gives.
    pub open spec fn wf(&self) -> bool {
        &&& self.problem.wf()
        &&& self.meta_problem.wf()
        &&& self.problem.n_items <= isize::MAX
        &&& forall|key: isize|
            self.membership@.contains_key(key) <==> (key == IDLE || 0 <= key < self.problem.n_items)
        &&& self.membership@[IDLE] == IDLE
        &&& forall|key: isize|
            0 <= key < self.problem.n_items ==> 0 <= #[trigger] self.membership@[key]
                < self.meta_problem.n_items
        &&& valid_membership(
            self.clusters(),
            self.problem.n_items as nat,
            self.meta_problem.n_items as nat,
        )
        &&& self.meta_problem@ == meta_model(
            self.problem@,
            self.clusters(),
            self.meta_problem.n_items as nat,
        )
        &&& reverse_index_of(self.rem_demand_to_prev_demand, self.meta_problem@)
    }

    /// The feature vector of each item: its row of the changeover table,
    /// then its stocking cost.
    pub fn feature_vectors(psp: &Psp) -> (features: Vec<Vec<usize>>)
        requires
            psp.wf(),
        ensures
            rows(features) == feature_rows(psp@),
    {
        let mut features: Vec<Vec<usize>> = Vec::new();
        let mut i: usize = 0;
        while i < psp.n_items
            invariant
                psp.wf(),
                i <= psp.n_items,
                features@.len() == i,
                forall|j: int| 0 <= j < i ==> (#[trigger] features@[j])@ == feature_rows(psp@)[j],
            decreases psp.n_items - i,
        {
            let costs = &psp.changeover[i];
            assert(costs@ == psp@.changeover[i as int]);
            let mut row: Vec<usize> = Vec::new();
            let mut j: usize = 0;
            while j < costs.len()
                invariant
                    j <= costs@.len(),
                    row@ == costs@.subrange(0, j as int),
                decreases costs@.len() - j,
            {
                row.push(costs[j]);
                assert(row@ =~= costs@.subrange(0, j + 1));
                j += 1;
            }
            assert(row@ =~= costs@);
            row.push(psp.stocking[i]);
            features.push(row);
            i += 1;
        }
        assert(rows(features) =~= feature_rows(psp@));
        features
    }

    /// Compresses `problem` into `n_meta_items` meta-items, which it finds by
    /// clustering the items on their feature vectors. There has to be a
    /// meta-item, and no more meta-items than items. The clustering draws
    /// its first centroid at random: two calls may group the items
    /// differently, and each result is the compression under the membership
    /// that it holds.
    pub fn new(problem: &'a Psp, n_meta_items: usize) -> (res: Result<Self, PspError>)
        requires
            problem.wf(),
            problem.n_items <= isize::MAX,
        ensures
            res is Ok <==> 1 <= n_meta_items <= problem.n_items,
            res matches Ok(c) ==> {
                &&& c.wf()
                &&& *c.problem == *problem
                &&& c.meta_problem.n_items == n_meta_items
                &&& c.meta_problem.horizon == problem.horizon
                &&& valid_membership(c.clusters(), problem.n_items as nat, n_meta_items as nat)
                &&& c.meta_problem@ == meta_model(problem@, c.clusters(), n_meta_items as nat)
                &&& below_members(problem@, c.meta_problem@, c.clusters())
                &&& one_to_one(c.clusters()) ==> relabels(problem@, c.meta_problem@, c.clusters())
            },
            res matches Err(e) ==> e == (PspError::ClusteringDegenerate {
                n_meta_items,
                n_items: problem.n_items,
            }),
    {
        if n_meta_items == 0 || n_meta_items > problem.n_items {
            return Err(
                PspError::ClusteringDegenerate { n_meta_items, n_items: problem.n_items },
            );
        }
        let features = Self::feature_vectors(problem);
        proof {
            assert(rows(features).len() == problem.n_items);
            assert forall|i: int| 0 <= i < features@.len() implies (#[trigger] features@[i])@.len()
                == problem.n_items + 1 by {
                assert(features@[i]@ == rows(features)[i]);
                assert(rows(features)[i] == feature_rows(problem@)[i]);
                assert(problem@.changeover[i].len() == problem.n_items);
            }
        }
        let membership = kmeans_membership(n_meta_items, &features, MAX_ITERATIONS);
        Ok(Self::from_membership(problem, membership, n_meta_items))
    }

    /// Compresses `problem` under a given membership.
    pub fn from_membership(problem: &'a Psp, membership: Vec<usize>, n_meta_items: usize) -> (c: Self)
        requires
            problem.wf(),
            problem.n_items <= isize::MAX,
            1 <= n_meta_items <= isize::MAX,
            valid_membership(membership@, problem.n_items as nat, n_meta_items as nat),
        ensures
            c.wf(),
            *c.problem == *problem,
            c.clusters() == membership@,
            c.meta_problem.n_items == n_meta_items,
            c.meta_problem.horizon == problem.horizon,
            c.meta_problem@ == meta_model(problem@, membership@, n_meta_items as nat),
            below_members(problem@, c.meta_problem@, membership@),
            one_to_one(membership@) ==> relabels(problem@, c.meta_problem@, membership@),
    {
        proof {
            lemma_meta_costs_optimistic(problem@, membership@, n_meta_items as nat);
            if one_to_one(membership@) {
                lemma_round_trip(problem@, membership@, n_meta_items as nat);
            }
        }
        let stocking = Self::compute_meta_stocking(problem, &membership, n_meta_items);
        let changeover = Self::compute_meta_changeover(problem, &membership, n_meta_items);
        let demands = Self::compute_meta_demands(problem, &membership, n_meta_items);
        proof {
            lemma_meta_model_wf(problem@, membership@, n_meta_items as nat);
            let meta = meta_model(problem@, membership@, n_meta_items as nat);
            assert forall|a: int| 0 <= a < demands@.len() implies unit_row(
                #[trigger] demands@[a]@,
            ) by {
                assert(demands@[a]@ == rows(demands)[a]);
                assert(unit_row(meta.demands[a]));
            }
        }
        let prev_demands = compute_prev_demands(&demands);
        let rem_demands = compute_rem_demands(&demands);
        let meta_problem = Psp {
            n_items: n_meta_items,
            horizon: problem.horizon,
            stocking,
            changeover,
            demands,
            prev_demands,
            rem_demands,
        };
        proof {
            let meta = meta_model(problem@, membership@, n_meta_items as nat);
            assert(meta_problem@ == meta);
            assert(rows(meta_problem.demands).len() == n_meta_items);
            assert forall|i: int| 0 <= i < n_meta_items implies (
            #[trigger] meta_problem.prev_demands@[i])@.len() == problem.horizon by {
                assert(rows(meta_problem.demands)[i].len() == problem.horizon);
            }
            assert forall|i: int| 0 <= i < n_meta_items implies (
            #[trigger] meta_problem.rem_demands@[i])@.len() == problem.horizon by {
                assert(rows(meta_problem.demands)[i].len() == problem.horizon);
            }
            assert forall|i: int, t: int|
                0 <= i < n_meta_items && 0 <= t < problem.horizon implies
                #[trigger] meta_problem.prev_demands@[i]@[t] == latest_upto(
                meta_problem@.demands[i],
                t,
            ) by {
                assert(rows(meta_problem.demands)[i].len() == problem.horizon);
            }
            assert forall|i: int, t: int|
                0 <= i < n_meta_items && 0 <= t < problem.horizon implies
                #[trigger] meta_problem.rem_demands@[i]@[t] == units_upto(
                meta_problem@.demands[i],
                t,
            ) by {
                assert(rows(meta_problem.demands)[i].len() == problem.horizon);
            }
        }
        let rem_demand_to_prev_demand = Self::compute_rem_demand_to_prev_demand(&meta_problem);
        let map = Self::membership_map(&membership);
        let c = PspCompression { problem, meta_problem, membership: map, rem_demand_to_prev_demand };
        proof {
            assert forall|key: isize| 0 <= key < problem.n_items implies 0
                <= #[trigger] c.membership@[key] < n_meta_items by {
                let i = key as int;
                assert(c.membership@[i as isize] == membership@[i]);
            }
            assert(c.clusters() =~= membership@);
        }
        c
    }

    /// The membership as a map: every item on its meta-item, and idle on
    /// idle.
    pub fn membership_map(membership: &Vec<usize>) -> (map: HashMap<isize, isize>)
        requires
            membership@.len() <= isize::MAX,
            forall|i: int| 0 <= i < membership@.len() ==> #[trigger] membership@[i] <= isize::MAX,
        ensures
            forall|key: isize|
                map@.contains_key(key) <==> (key == IDLE || 0 <= key < membership@.len()),
            map@[IDLE] == IDLE,
            forall|i: int| 0 <= i < membership@.len() ==> #[trigger] map@[i as isize] == membership@[i],
    {
        broadcast use vstd::std_specs::hash::group_hash_axioms;

        let mut map: HashMap<isize, isize> = HashMap::new();
        let mut i: usize = 0;
        while i < membership.len()
            invariant
                membership@.len() <= isize::MAX,
                forall|j: int|
                    0 <= j < membership@.len() ==> #[trigger] membership@[j] <= isize::MAX,
                i <= membership@.len(),
                forall|key: isize| map@.contains_key(key) <==> 0 <= key < i,
                forall|j: int| 0 <= j < i ==> #[trigger] map@[j as isize] == membership@[j],
            decreases membership@.len() - i,
        {
            map.insert(i as isize, membership[i] as isize);
            i += 1;
        }
        map.insert(IDLE, IDLE);
        map
    }

    /// The meta-item of `item`.
    pub fn cluster_of(&self, item: usize) -> (a: usize)
        requires
            self.wf(),
            item < self.problem.n_items,
        ensures
            a == self.clusters()[item as int],
            a < self.meta_problem.n_items,
    {
        broadcast use vstd::std_specs::hash::group_hash_axioms;

        let key = item as isize;
        assert(self.membership@.contains_key(key));
        match self.membership.get(&key) {
            Some(a) => *a as usize,
            None => 0,
        }
    }

    /// For each item, its meta-item.
    pub fn cluster_list(&self) -> (list: Vec<usize>)
        requires
            self.wf(),
        ensures
            list@ == self.clusters(),
    {
        let mut list: Vec<usize> = Vec::new();
        let mut i: usize = 0;
        while i < self.problem.n_items
            invariant
                self.wf(),
                i <= self.problem.n_items,
                list@.len() == i,
                forall|j: int| 0 <= j < i ==> #[trigger] list@[j] == self.clusters()[j],
            decreases self.problem.n_items - i,
        {
            let a = self.cluster_of(i);
            list.push(a);
            i += 1;
        }
        assert(list@ =~= self.clusters());
        list
    }

    /// The meta-problem.
    pub fn get_compressed_problem(&self) -> (meta: &Psp)
        ensures
            *meta == self.meta_problem,
    {
        &self.meta_problem
    }

    /// For each meta-item, the units that its members have open in `state`.
    pub fn open_counts(&self, state: &PspState) -> (counts: Vec<u128>)
        requires
            self.wf(),
            self.problem@.valid_state(state@),
        ensures
            counts@.len() == self.meta_problem.n_items,
            forall|c: int|
                0 <= c < self.meta_problem.n_items ==> #[trigger] counts@[c] == cluster_open(
                    self.problem@,
                    state@,
                    self.clusters(),
                    c as usize,
                    self.problem.n_items as int,
                ),
    {
        let n = self.problem.n_items;
        let k = self.meta_problem.n_items;
        let mut counts: Vec<u128> = Vec::new();
        let mut a: usize = 0;
        while a < k
            invariant
                a <= k,
                counts@.len() == a,
                forall|c: int| 0 <= c < a ==> #[trigger] counts@[c] == 0,
            decreases k - a,
        {
            counts.push(0);
            a += 1;
        }
        let mut i: usize = 0;
        while i < n
            invariant
                self.wf(),
                self.problem@.valid_state(state@),
                n == self.problem.n_items,
                k == self.meta_problem.n_items,
                i <= n,
                counts@.len() == k,
                forall|c: int|
                    0 <= c < k ==> #[trigger] counts@[c] == cluster_open(
                        self.problem@,
                        state@,
                        self.clusters(),
                        c as usize,
                        i as int,
                    ),
                forall|c: int| 0 <= c < k ==> #[trigger] counts@[c] <= i * self.problem.horizon,
            decreases n - i,
        {
            proof {
                self.problem@.lemma_open_units_bound(state@, i as int);
                assert(i * self.problem.horizon + self.problem.horizon == (i + 1)
                    * self.problem.horizon) by (nonlinear_arith);
                assert((i + 1) * self.problem.horizon <= usize::MAX * usize::MAX)
                    by (nonlinear_arith)
                    requires
                        i + 1 <= usize::MAX,
                        self.problem.horizon <= usize::MAX,
                ;
            }
            match state.prev_demands[i] {
                Some(p) => {
                    let j = self.cluster_of(i);
                    let units = self.problem.rem_demands[i][p] as u128;
                    let sum = counts[j] + units;
                    counts.set(j, sum);
                },
                None => {},
            }
            i += 1;
        }
        counts
    }

    /// Tells whether `state` is on track: whether every demand up to the
    /// period that it decides is open, and every meta-item's members have
    /// at least as many units open as the meta-item has due up to that
    /// period.
    pub fn on_track(&self, state: &PspState) -> (b: bool)
        requires
            self.wf(),
            self.problem@.valid_state(state@),
        ensures
            b == on_track(
                self.problem@,
                self.clusters(),
                self.meta_problem.n_items as nat,
                state@,
            ),
    {
        let n = self.problem.n_items;
        let k = self.meta_problem.n_items;
        let horizon = self.problem.horizon;
        let ghost meta = self.meta_problem@;
        if state.time >= horizon {
            proof {
                assert forall|i: int| 0 <= i < n implies pointer_le(
                    latest_upto(self.problem@.demands[i], self.problem@.slot(state@)),
                    #[trigger] state@.pointers[i],
                ) by {}
            }
            return true;
        }
        let slot: usize = horizon - 1 - state.time;
        let mut i: usize = 0;
        while i < n
            invariant
                self.wf(),
                self.problem@.valid_state(state@),
                n == self.problem.n_items,
                slot == self.problem@.slot(state@),
                slot < self.problem.horizon,
                i <= n,
                forall|j: int|
                    0 <= j < i ==> pointer_le(
                        latest_upto(self.problem@.demands[j], slot as int),
                        #[trigger] state@.pointers[j],
                    ),
            decreases n - i,
        {
            let open = match (self.problem.prev_demands[i][slot], state.prev_demands[i]) {
                (None, _) => true,
                (Some(_), None) => false,
                (Some(p), Some(q)) => p <= q,
            };
            if !open {
                assert(!pointer_le(
                    latest_upto(self.problem@.demands[i as int], self.problem@.slot(state@)),
                    state@.pointers[i as int],
                ));
                return false;
            }
            i += 1;
        }
        let counts = self.open_counts(state);
        let mut a: usize = 0;
        while a < k
            invariant
                self.wf(),
                meta == self.meta_problem@,
                n == self.problem.n_items,
                k == self.meta_problem.n_items,
                slot == self.problem@.slot(state@),
                slot < self.meta_problem.horizon,
                a <= k,
                counts@.len() == k,
                forall|c: int|
                    0 <= c < k ==> #[trigger] counts@[c] == cluster_open(
                        self.problem@,
                        state@,
                        self.clusters(),
                        c as usize,
                        n as int,
                    ),
                forall|c: usize|
                    c < a ==> #[trigger] cluster_open(
                        self.problem@,
                        state@,
                        self.clusters(),
                        c,
                        n as int,
                    ) >= units_upto(meta.demands[c as int], slot as int),
            decreases k - a,
        {
            assert(counts@[a as int] == cluster_open(
                self.problem@,
                state@,
                self.clusters(),
                a,
                n as int,
            ));
            if counts[a] < self.meta_problem.rem_demands[a][slot] as u128 {
                return false;
            }
            a += 1;
        }
        true
    }

    /// The state `state` of the problem as the meta-problem sees it: the
    /// predecessor becomes its meta-item, and each meta-item stands on the
    /// demand up to which as many units are due as its members have open. A
    /// meta-item whose members have more units open than it has demands
    /// leaves a gap, which is reported.
    pub fn compress(&self, state: &PspState) -> (res: Result<PspState, PspError>)
        requires
            self.wf(),
            self.problem@.valid_state(state@),
        ensures
            res is Ok <==> forall|a: int|
                0 <= a < self.meta_problem.n_items ==> !projection_gap(
                    self.problem@,
                    self.meta_problem@,
                    self.clusters(),
                    state@,
                    a,
                ),
            self.problem@.feasible() ==> res is Ok,
            res matches Ok(p) ==> p@ == project(
                self.problem@,
                self.meta_problem@,
                self.clusters(),
                state@,
            ) && self.meta_problem@.valid_state(p@),
            res matches Err(e) ==> (e matches PspError::ProjectionGap { meta_item, count }
                && meta_item < self.meta_problem.n_items && count == cluster_open(
                self.problem@,
                state@,
                self.clusters(),
                meta_item,
                self.problem.n_items as int,
            ) && projection_gap(
                self.problem@,
                self.meta_problem@,
                self.clusters(),
                state@,
                meta_item as int,
            )),
    {
        let n = self.problem.n_items;
        let k = self.meta_problem.n_items;
        let horizon = self.meta_problem.horizon;
        let counts = self.open_counts(state);
        let mut pointers: Vec<Option<usize>> = Vec::new();
        let mut a: usize = 0;
        while a < k
            invariant
                self.wf(),
                self.problem@.valid_state(state@),
                n == self.problem.n_items,
                k == self.meta_problem.n_items,
                horizon == self.meta_problem.horizon,
                a <= k,
                counts@.len() == k,
                forall|c: int|
                    0 <= c < k ==> #[trigger] counts@[c] == cluster_open(
                        self.problem@,
                        state@,
                        self.clusters(),
                        c as usize,
                        n as int,
                    ),
                pointers@.len() == a,
                forall|c: int|
                    0 <= c < a ==> !projection_gap(
                        self.problem@,
                        self.meta_problem@,
                        self.clusters(),
                        state@,
                        c,
                    ),
                forall|c: int|
                    0 <= c < a ==> #[trigger] pointers@[c] == project_pointer(
                        self.problem@,
                        self.meta_problem@,
                        self.clusters(),
                        state@,
                        c,
                    ),
            decreases k - a,
        {
            let count = counts[a];
            proof {
                lemma_period_of_count(self.meta_problem@.demands[a as int], count as nat, horizon - 1);
                if period_of_count(self.meta_problem@.demands[a as int], count as nat, horizon - 1)
                    is Some {
                    let p = period_of_count(
                        self.meta_problem@.demands[a as int],
                        count as nat,
                        horizon - 1,
                    )->Some_0;
                    lemma_units_upto_bound(self.meta_problem@.demands[a as int], p as int);
                }
            }
            let pointer = if count == 0 {
                None
            } else if count > horizon as u128 {
                assert(projection_gap(
                    self.problem@,
                    self.meta_problem@,
                    self.clusters(),
                    state@,
                    a as int,
                ));
                proof {
                    if self.problem@.feasible() {
                        lemma_no_projection_gap(self.problem@, self.clusters(), k as nat, state@, a as int);
                    }
                }
                return Err(PspError::ProjectionGap { meta_item: a, count });
            } else {
                let found = self.rem_demand_to_prev_demand[a][count as usize - 1];
                if found.is_none() {
                    assert(projection_gap(
                        self.problem@,
                        self.meta_problem@,
                        self.clusters(),
                        state@,
                        a as int,
                    ));
                    proof {
                        if self.problem@.feasible() {
                            lemma_no_projection_gap(
                                self.problem@,
                                self.clusters(),
                                k as nat,
                                state@,
                                a as int,
                            );
                        }
                    }
                    return Err(PspError::ProjectionGap { meta_item: a, count });
                }
                found
            };
            pointers.push(pointer);
            a += 1;
        }
        let pred = match state.pred {
            Predecessor::Item(item) => Predecessor::Item(self.cluster_of(item)),
            Predecessor::Idle => Predecessor::Idle,
            Predecessor::Unknown => Predecessor::Unknown,
        };
        let projected = PspState { time: state.time, pred, prev_demands: pointers };
        proof {
            let target = project(self.problem@, self.meta_problem@, self.clusters(), state@);
            assert(projected@.pointers =~= target.pointers);
            assert forall|c: int| 0 <= c < k implies match #[trigger] projected@.pointers[c] {
                Some(p) => p < horizon && self.meta_problem@.demands[c][p as int] > 0,
                None => true,
            } by {
                let count = cluster_open(
                    self.problem@,
                    state@,
                    self.clusters(),
                    c as usize,
                    n as int,
                );
                lemma_period_of_count(self.meta_problem@.demands[c], count, horizon - 1);
            }
        }
        Ok(projected)
    }

    /// The decisions of the meta-problem as decisions of the problem. A
    /// solution of the meta-problem is handed on as it is.
    pub fn decompress(&self, solution: &Vec<Decision>) -> (decisions: Vec<Decision>)
        ensures
            decisions@ == solution@,
    {
        let mut decisions: Vec<Decision> = Vec::new();
        let mut i: usize = 0;
        while i < solution.len()
            invariant
                i <= solution@.len(),
                decisions@ == solution@.subrange(0, i as int),
            decreases solution@.len() - i,
        {
            decisions.push(solution[i]);
            assert(decisions@ =~= solution@.subrange(0, i + 1));
            i += 1;
        }
        assert(decisions@ =~= solution@);
        decisions
    }

    /// The stocking cost of each meta-item: the least among its members.
    pub fn compute_meta_stocking(psp: &Psp, membership: &Vec<usize>, n_meta_items: usize) -> (meta: Vec<usize>)
        requires
            psp.wf(),
            valid_membership(membership@, psp.n_items as nat, n_meta_items as nat),
        ensures
            meta@ == meta_model(psp@, membership@, n_meta_items as nat).stocking,
    {
        let mut meta: Vec<usize> = Vec::new();
        let mut a: usize = 0;
        while a < n_meta_items
            invariant
                a <= n_meta_items,
                meta@.len() == a,
                forall|b: int| 0 <= b < a ==> #[trigger] meta@[b] == usize::MAX,
            decreases n_meta_items - a,
        {
            meta.push(usize::MAX);
            a += 1;
        }
        let mut i: usize = 0;
        while i < psp.n_items
            invariant
                psp.wf(),
                valid_membership(membership@, psp.n_items as nat, n_meta_items as nat),
                i <= psp.n_items,
                meta@.len() == n_meta_items,
                forall|b: int|
                    0 <= b < n_meta_items ==> #[trigger] meta@[b] == cluster_min(
                        psp@.stocking,
                        membership@,
                        b as usize,
                        i as int,
                    ),
            decreases psp.n_items - i,
        {
            let j = membership[i];
            if psp.stocking[i] < meta[j] {
                meta.set(j, psp.stocking[i]);
            }
            i += 1;
        }
        assert(meta@ =~= meta_model(psp@, membership@, n_meta_items as nat).stocking);
        meta
    }

    /// The changeover cost between each two meta-items: the least among the
    /// pairs of their members, and nothing from a meta-item to itself.
    pub fn compute_meta_changeover(psp: &Psp, membership: &Vec<usize>, n_meta_items: usize) -> (meta: Vec<Vec<usize>>)
        requires
            psp.wf(),
            valid_membership(membership@, psp.n_items as nat, n_meta_items as nat),
        ensures
            rows(meta) == meta_model(psp@, membership@, n_meta_items as nat).changeover,
    {
        let n = psp.n_items;
        let mut meta: Vec<Vec<usize>> = Vec::new();
        let mut a: usize = 0;
        while a < n_meta_items
            invariant
                psp.wf(),
                n == psp.n_items,
                valid_membership(membership@, n as nat, n_meta_items as nat),
                a <= n_meta_items,
                meta@.len() == a,
                forall|c: int|
                    0 <= c < a ==> (#[trigger] meta@[c])@ == meta_model(
                        psp@,
                        membership@,
                        n_meta_items as nat,
                    ).changeover[c],
            decreases n_meta_items - a,
        {
            let mut row: Vec<usize> = Vec::new();
            let mut b: usize = 0;
            while b < n_meta_items
                invariant
                    b <= n_meta_items,
                    row@.len() == b,
                    forall|c: int| 0 <= c < b ==> #[trigger] row@[c] == usize::MAX,
                decreases n_meta_items - b,
            {
                row.push(usize::MAX);
                b += 1;
            }
            let mut i: usize = 0;
            while i < n
                invariant
                    psp.wf(),
                    n == psp.n_items,
                    valid_membership(membership@, n as nat, n_meta_items as nat),
                    a < n_meta_items,
                    i <= n,
                    row@.len() == n_meta_items,
                    forall|c: int|
                        0 <= c < n_meta_items ==> #[trigger] row@[c] == cluster_pair_min(
                            psp@.changeover,
                            membership@,
                            a,
                            c as usize,
                            i as int,
                        ),
                decreases n - i,
            {
                if membership[i] == a {
                    let costs = &psp.changeover[i];
                    assert(costs@ == psp@.changeover[i as int]);
                    let mut j: usize = 0;
                    while j < n
                        invariant
                            psp.wf(),
                            n == psp.n_items,
                            valid_membership(membership@, n as nat, n_meta_items as nat),
                            a < n_meta_items,
                            i < n,
                            membership@[i as int] == a,
                            costs@ == psp@.changeover[i as int],
                            j <= n,
                            row@.len() == n_meta_items,
                            forall|c: int|
                                0 <= c < n_meta_items ==> #[trigger] row@[c] == min_usize(
                                    cluster_pair_min(
                                        psp@.changeover,
                                        membership@,
                                        a,
                                        c as usize,
                                        i as int,
                                    ),
                                    cluster_min(costs@, membership@, c as usize, j as int),
                                ),
                        decreases n - j,
                    {
                        let b = membership[j];
                        if costs[j] < row[b] {
                            row.set(b, costs[j]);
                        }
                        j += 1;
                    }
                }
                i += 1;
            }
            row.set(a, 0);
            assert(row@ =~= meta_model(psp@, membership@, n_meta_items as nat).changeover[a as int]);
            meta.push(row);
            a += 1;
        }
        assert(rows(meta) =~= meta_model(psp@, membership@, n_meta_items as nat).changeover);
        meta
    }

    /// The demands of each meta-item: its members' demands, swept from the
    /// last period to the first. A period takes one unit; what it receives
    /// beyond that waits for the period before it.
    pub fn compute_meta_demands(psp: &Psp, membership: &Vec<usize>, n_meta_items: usize) -> (meta: Vec<Vec<usize>>)
        requires
            psp.wf(),
            valid_membership(membership@, psp.n_items as nat, n_meta_items as nat),
        ensures
            rows(meta) == meta_model(psp@, membership@, n_meta_items as nat).demands,
    {
        let n = psp.n_items;
        let horizon = psp.horizon;
        let mut meta: Vec<Vec<usize>> = Vec::new();
        let mut a: usize = 0;
        while a < n_meta_items
            invariant
                psp.wf(),
                n == psp.n_items,
                horizon == psp.horizon,
                valid_membership(membership@, n as nat, n_meta_items as nat),
                a <= n_meta_items,
                meta@.len() == a,
                forall|c: int|
                    0 <= c < a ==> (#[trigger] meta@[c])@ == meta_model(
                        psp@,
                        membership@,
                        n_meta_items as nat,
                    ).demands[c],
            decreases n_meta_items - a,
        {
            let mut row: Vec<usize> = Vec::new();
            let mut u: usize = 0;
            while u < horizon
                invariant
                    u <= horizon,
                    row@.len() == u,
                    forall|c: int| 0 <= c < u ==> #[trigger] row@[c] == 0,
                decreases horizon - u,
            {
                row.push(0);
                u += 1;
            }
            let mut waiting: u128 = 0;
            let mut t: usize = horizon;
            while t > 0
                invariant
                    psp.wf(),
                    n == psp.n_items,
                    horizon == psp.horizon,
                    valid_membership(membership@, n as nat, n_meta_items as nat),
                    a < n_meta_items,
                    t <= horizon,
                    row@.len() == horizon,
                    waiting == backlog(psp@.demands, membership@, a, horizon as int, t as int),
                    waiting <= n * (horizon - t),
                    forall|u: int| 0 <= u < t ==> #[trigger] row@[u] == 0,
                    forall|u: int|
                        t <= u < horizon ==> #[trigger] row@[u] == meta_demand(
                            psp@.demands,
                            membership@,
                            a,
                            horizon as int,
                            u,
                        ),
                decreases t,
            {
                t -= 1;
                let ghost before = waiting;
                let mut j: usize = 0;
                while j < n
                    invariant
                        psp.wf(),
                        n == psp.n_items,
                        horizon == psp.horizon,
                        valid_membership(membership@, n as nat, n_meta_items as nat),
                        t < horizon,
                        j <= n,
                        before <= n * (horizon - t - 1),
                        waiting == before + cluster_units(
                            psp@.demands,
                            membership@,
                            a,
                            t as int,
                            j as int,
                        ),
                        waiting <= before + j,
                    decreases n - j,
                {
                    proof {
                        assert(n * (horizon - t - 1) <= usize::MAX * usize::MAX)
                            by (nonlinear_arith)
                            requires
                                0 <= n <= usize::MAX,
                                0 <= horizon - t - 1 <= usize::MAX,
                        ;
                        assert(psp@.demands[j as int] == psp.demands@[j as int]@);
                        assert(unit_row(psp@.demands[j as int]));
                    }
                    if membership[j] == a && psp.demands[j][t] > 0 {
                        waiting = waiting + psp.demands[j][t] as u128;
                    }
                    j += 1;
                }
                if waiting > 0 {
                    row.set(t, 1);
                    waiting = waiting - 1;
                }
                proof {
                    assert(n * (horizon - t - 1) + n == n * (horizon - t)) by (nonlinear_arith);
                }
            }
            assert(row@ =~= meta_model(psp@, membership@, n_meta_items as nat).demands[a as int]);
            meta.push(row);
            a += 1;
        }
        assert(rows(meta) =~= meta_model(psp@, membership@, n_meta_items as nat).demands);
        meta
    }

    /// For each meta-item and each count of open units from 1 to the
    /// horizon, the period of the demand up to which that many units are due,
    /// if there is one. The entry for a count stands at the index one below
    /// it.
    pub fn compute_rem_demand_to_prev_demand(meta_psp: &Psp) -> (index: Vec<Vec<Option<usize>>>)
        requires
            meta_psp.wf(),
        ensures
            reverse_index_of(index, meta_psp@),
    {
        let horizon = meta_psp.horizon;
        let mut index: Vec<Vec<Option<usize>>> = Vec::new();
        let mut a: usize = 0;
        while a < meta_psp.n_items
            invariant
                meta_psp.wf(),
                horizon == meta_psp.horizon,
                a <= meta_psp.n_items,
                index@.len() == a,
                forall|c: int| 0 <= c < a ==> (#[trigger] index@[c])@.len() == horizon,
                forall|c: int, count: int|
                    0 <= c < a && 1 <= count <= horizon ==> #[trigger] index@[c]@[count - 1]
                        == period_of_count(meta_psp@.demands[c], count as nat, horizon - 1),
            decreases meta_psp.n_items - a,
        {
            let mut row: Vec<Option<usize>> = Vec::new();
            let mut u: usize = 0;
            while u < horizon
                invariant
                    u <= horizon,
                    row@.len() == u,
                    forall|c: int| 0 <= c < u ==> #[trigger] row@[c] is None,
                decreases horizon - u,
            {
                row.push(None);
                u += 1;
            }
            let units = &meta_psp.demands[a];
            let counts = &meta_psp.rem_demands[a];
            assert(units@ == meta_psp@.demands[a as int]);
            let mut t: usize = 0;
            while t < horizon
                invariant
                    meta_psp.wf(),
                    horizon == meta_psp.horizon,
                    a < meta_psp.n_items,
                    units@ == meta_psp@.demands[a as int],
                    *counts == meta_psp.rem_demands@[a as int],
                    t <= horizon,
                    row@.len() == horizon,
                    forall|count: int|
                        1 <= count <= horizon ==> #[trigger] row@[count - 1] == period_of_count(
                            units@,
                            count as nat,
                            t - 1,
                        ),
                decreases horizon - t,
            {
                if units[t] > 0 {
                    proof {
                        lemma_units_upto_bound(units@, t as int);
                    }
                    let count = counts[t];
                    let ghost before = row@;
                    row.set(count - 1, Some(t));
                    assert forall|c: int| 1 <= c <= horizon implies #[trigger] row@[c - 1]
                        == period_of_count(units@, c as nat, t as int) by {
                        assert(before[c - 1] == period_of_count(units@, c as nat, t - 1));
                    }
                } else {
                    assert forall|c: int| 1 <= c <= horizon implies #[trigger] row@[c - 1]
                        == period_of_count(units@, c as nat, t as int) by {}
                }
                t += 1;
            }
            index.push(row);
            a += 1;
        }
        index
    }
}

/// `index` is the reverse-count index of `meta`: one row per meta-item, one
/// entry per count from 1 to the horizon, each the period that
/// `period_of_count` finds over the whole horizon.
pub open spec fn reverse_index_of(index: Vec<Vec<Option<usize>>>, meta: PspModel) -> bool {
    &&& index@.len() == meta.n_items
    &&& forall|a: int| 0 <= a < meta.n_items ==> (#[trigger] index@[a])@.len() == meta.horizon
    &&& forall|a: int, count: int|
        0 <= a < meta.n_items && 1 <= count <= meta.horizon ==> #[trigger] index@[a]@[count - 1]
            == period_of_count(meta.demands[a], count as nat, meta.horizon - 1)
}

/// The smaller of two numbers.
pub open spec fn min_usize(x: usize, y: usize) -> usize {
    if x < y {
        x
    } else {
        y
    }
}

} // verus!
