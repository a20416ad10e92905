//! When the compressed problem bounds a state: for every state that
//! decisions alone lead to, completing its projection in the meta-problem
//! costs no more than completing the state itself.

use vstd::prelude::*;
use crate::compression::cluster_open;
use crate::bound::candidate;
use crate::bound::cost_le;
use crate::compression::backlog;
use crate::compression::lemma_meta_costs_optimistic;
use crate::compression::lemma_meta_model_wf;
use crate::compression::lemma_period_of_count;
use crate::compression::meta_demand;
use crate::compression::meta_model;
use crate::compression::project;
use crate::compression::project_pointer;
use crate::compression::valid_membership;
use crate::demand::latest_upto;
use crate::demand::lemma_latest_upto;
use crate::demand::lemma_units_upto_monotone;
use crate::demand::unit_row;
use crate::demand::units_upto;
use crate::model::Decision;
use crate::model::PspModel;
use crate::model::StateModel;
use crate::projection::cluster_due;
use crate::relax::pointer_le;
use crate::round_trip::lemma_period_found;
use crate::projection::lemma_cluster_due;
use crate::projection::lemma_no_projection_gap;
use crate::projection::lemma_nothing_left;
use crate::projection::lemma_units_kept;

verus! {

/// The smaller of two numbers.
pub open spec fn least(x: int, y: int) -> int {
    if x <= y {
        x
    } else {
        y
    }
}

/// The sum of the periods in `0..=t` in which `row` demands a unit, each
/// counted as `cap` at the most.
pub open spec fn capped_sum(row: Seq<usize>, t: int, cap: int) -> int
    decreases t + 1,
{
    if t < 0 {
        0
    } else {
        capped_sum(row, t - 1, cap) + if row[t] > 0 {
            least(t, cap)
        } else {
            0
        }
    }
}

/// The capped sum of the periods of the demands that a pointer leaves open.
pub open spec fn pointer_sum(row: Seq<usize>, pointer: Option<usize>, cap: int) -> int {
    match pointer {
        Some(p) => capped_sum(row, p as int, cap),
        None => 0,
    }
}

/// The units that a pointer leaves open.
pub open spec fn pointer_units(row: Seq<usize>, pointer: Option<usize>) -> int {
    match pointer {
        Some(p) => units_upto(row, p as int) as int,
        None => 0,
    }
}

/// The capped sum over the open demands of the members of `cluster` below
/// `upto`.
pub open spec fn cluster_sum(
    problem: PspModel,
    s: StateModel,
    membership: Seq<usize>,
    cluster: usize,
    upto: int,
    cap: int,
) -> int
    decreases upto,
{
    if upto <= 0 {
        0
    } else {
        cluster_sum(problem, s, membership, cluster, upto - 1, cap) + if membership[upto - 1]
            == cluster {
            pointer_sum(problem.demands[upto - 1], s.pointers[upto - 1], cap)
        } else {
            0
        }
    }
}

/// A capped sum up to a period is the capped sum of what the latest demand
/// up to it leaves open.
proof fn lemma_capped_sum_latest(row: Seq<usize>, t: int, cap: int)
    requires
        -1 <= t < row.len(),
        row.len() <= usize::MAX,
    ensures
        capped_sum(row, t, cap) == pointer_sum(row, latest_upto(row, t), cap),
    decreases t + 1,
{
    if t >= 0 {
        lemma_capped_sum_latest(row, t - 1, cap);
    }
}

/// Raising the cap by one raises the capped sum by the number of demands
/// from the new cap on, and a cap of nothing leaves nothing.
proof fn lemma_capped_sum_step(row: Seq<usize>, t: int, cap: int)
    requires
        unit_row(row),
        -1 <= t < row.len(),
        1 <= cap <= row.len(),
    ensures
        capped_sum(row, t, cap) - capped_sum(row, t, cap - 1) == if cap - 1 <= t {
            units_upto(row, t) - units_upto(row, cap - 1)
        } else {
            0
        },
        capped_sum(row, t, 0) == 0,
    decreases t + 1,
{
    if t >= 0 {
        lemma_capped_sum_step(row, t - 1, cap);
        assert(row[t] <= 1);
    }
}

/// What raising the cap by one adds for a pointer: nothing less than the
/// open units beyond those due before the cap, and nothing less than
/// nothing.
proof fn lemma_pointer_sum_step(row: Seq<usize>, pointer: Option<usize>, cap: int)
    requires
        unit_row(row),
        pointer matches Some(p) ==> p < row.len(),
        1 <= cap <= row.len(),
    ensures
        pointer_sum(row, pointer, cap) - pointer_sum(row, pointer, cap - 1) >= pointer_units(
            row,
            pointer,
        ) - units_upto(row, cap - 1),
        pointer_sum(row, pointer, cap) - pointer_sum(row, pointer, cap - 1) >= 0,
        pointer_sum(row, pointer, 0) == 0,
        pointer matches Some(p) ==> pointer_sum(row, pointer, cap) - pointer_sum(row, pointer, cap - 1)
            == if cap - 1 <= p {
            units_upto(row, p as int) - units_upto(row, cap - 1)
        } else {
            0
        },
{
    if pointer is Some {
        let p = pointer->Some_0 as int;
        lemma_capped_sum_step(row, p, cap);
        if cap - 1 <= p {
            lemma_units_upto_monotone(row, cap - 1, p);
        } else {
            lemma_units_upto_monotone(row, p, cap - 1);
        }
    }
}

/// What raising the cap by one adds for a cluster: nothing less than its
/// open units beyond those that it has due before the cap.
proof fn lemma_cluster_sum_step(
    problem: PspModel,
    s: StateModel,
    membership: Seq<usize>,
    cluster: usize,
    upto: int,
    cap: int,
)
    requires
        problem.wf(),
        problem.valid_state(s),
        membership.len() == problem.n_items,
        0 <= upto <= problem.n_items,
        1 <= cap <= problem.horizon,
    ensures
        cluster_sum(problem, s, membership, cluster, upto, cap) - cluster_sum(
            problem,
            s,
            membership,
            cluster,
            upto,
            cap - 1,
        ) >= cluster_open(problem, s, membership, cluster, upto) - cluster_due(
            problem.demands,
            membership,
            cluster,
            cap - 1,
            upto,
        ),
        cluster_sum(problem, s, membership, cluster, upto, cap) - cluster_sum(
            problem,
            s,
            membership,
            cluster,
            upto,
            cap - 1,
        ) >= 0,
        cluster_sum(problem, s, membership, cluster, upto, 0) == 0,
    decreases upto,
{
    if upto > 0 {
        lemma_cluster_sum_step(problem, s, membership, cluster, upto - 1, cap);
        lemma_pointer_sum_step(problem.demands[upto - 1], s.pointers[upto - 1], cap);
    }
}

/// A meta-item has as many units due up to a period as its cluster has,
/// and those that wait there besides; over the whole horizon it has as
/// many as its cluster.
proof fn lemma_meta_due(problem: PspModel, membership: Seq<usize>, n_clusters: nat, cluster: usize, t: int)
    requires
        problem.wf(),
        problem.feasible(),
        membership.len() == problem.n_items,
        cluster < n_clusters,
        -1 <= t < problem.horizon,
    ensures
        units_upto(meta_model(problem, membership, n_clusters).demands[cluster as int], t)
            >= cluster_due(problem.demands, membership, cluster, t, problem.n_items as int),
        units_upto(
            meta_model(problem, membership, n_clusters).demands[cluster as int],
            problem.horizon - 1,
        ) == cluster_due(
            problem.demands,
            membership,
            cluster,
            problem.horizon - 1,
            problem.n_items as int,
        ),
{
    let n = problem.n_items as int;
    lemma_nothing_left(problem, membership, cluster);
    lemma_units_kept(problem, membership, n_clusters, cluster, 0);
    lemma_units_kept(problem, membership, n_clusters, cluster, t + 1);
    lemma_cluster_due(problem, membership, cluster, -1, n);
    assert(units_upto(meta_model(problem, membership, n_clusters).demands[cluster as int], -1) == 0);
}

/// The periods of the demands that a meta-item has open sum to no more
/// than those of the demands that its members have open, whatever the cap.
proof fn lemma_meta_sum_below(
    problem: PspModel,
    membership: Seq<usize>,
    n_clusters: nat,
    s: StateModel,
    cluster: usize,
    pointer: Option<usize>,
    cap: int,
)
    requires
        problem.wf(),
        problem.feasible(),
        valid_membership(membership, problem.n_items, n_clusters),
        problem.valid_state(s),
        cluster < n_clusters,
        pointer matches Some(p) ==> p < problem.horizon,
        pointer_units(meta_model(problem, membership, n_clusters).demands[cluster as int], pointer)
            == cluster_open(problem, s, membership, cluster, problem.n_items as int),
        0 <= cap <= problem.horizon,
    ensures
        pointer_sum(meta_model(problem, membership, n_clusters).demands[cluster as int], pointer, cap)
            <= cluster_sum(problem, s, membership, cluster, problem.n_items as int, cap),
    decreases cap,
{
    let n = problem.n_items as int;
    let row = meta_model(problem, membership, n_clusters).demands[cluster as int];
    assert forall|t: int| 0 <= t < row.len() implies #[trigger] row[t] <= 1 by {}
    if cap == 0 {
        lemma_cluster_sum_step(problem, s, membership, cluster, n, 1);
        lemma_pointer_sum_step(row, pointer, 1);
    } else {
        lemma_meta_sum_below(problem, membership, n_clusters, s, cluster, pointer, cap - 1);
        lemma_cluster_sum_step(problem, s, membership, cluster, n, cap);
        lemma_pointer_sum_step(row, pointer, cap);
        lemma_meta_due(problem, membership, n_clusters, cluster, cap - 1);
    }
}

/// A state is on track: every demand up to the period that it decides is
/// still open, and every cluster has at least as many units open as its
/// meta-item has due up to that period. The initial state is on track, and
/// so is every state that an admissible decision leads to from a state on
/// track. A merged state need not be.
pub open spec fn on_track(problem: PspModel, membership: Seq<usize>, n_clusters: nat, s: StateModel) -> bool {
    &&& problem.untouched(s)
    &&& forall|a: usize|
        a < n_clusters ==> #[trigger] cluster_open(
            problem,
            s,
            membership,
            a,
            problem.n_items as int,
        ) >= units_upto(
            meta_model(problem, membership, n_clusters).demands[a as int],
            problem.slot(s),
        )
}

/// The decision as the meta-problem sees it: an item becomes its meta-item.
pub open spec fn project_decision(d: Decision, membership: Seq<usize>) -> Decision {
    match d {
        Decision::Idle => Decision::Idle,
        Decision::Produce(i) => Decision::Produce(membership[i as int]),
    }
}

/// The open units of the clusters below `k`, counted over the items below
/// `upto`.
pub open spec fn total_open(problem: PspModel, s: StateModel, membership: Seq<usize>, k: int, upto: int) -> int
    decreases k,
{
    if k <= 0 {
        0
    } else {
        total_open(problem, s, membership, k - 1, upto) + cluster_open(
            problem,
            s,
            membership,
            (k - 1) as usize,
            upto,
        )
    }
}

/// One more item adds its open units to the clusters' total if its cluster
/// is among them.
proof fn lemma_total_open_item(problem: PspModel, s: StateModel, membership: Seq<usize>, k: int, upto: int)
    requires
        0 <= k <= usize::MAX,
        0 < upto <= membership.len(),
    ensures
        total_open(problem, s, membership, k, upto) == total_open(problem, s, membership, k, upto - 1)
            + if membership[upto - 1] < k {
            problem.open_units(s, upto - 1) as int
        } else {
            0
        },
    decreases k,
{
    if k > 0 {
        lemma_total_open_item(problem, s, membership, k - 1, upto);
    }
}

/// The clusters together have open what the items have open.
proof fn lemma_total_open(problem: PspModel, s: StateModel, membership: Seq<usize>, n_clusters: nat, upto: int)
    requires
        valid_membership(membership, problem.n_items, n_clusters),
        n_clusters <= usize::MAX,
        0 <= upto <= problem.n_items,
    ensures
        total_open(problem, s, membership, n_clusters as int, upto) == problem.open_below(s, upto),
    decreases upto,
{
    if upto > 0 {
        lemma_total_open(problem, s, membership, n_clusters, upto - 1);
        lemma_total_open_item(problem, s, membership, n_clusters as int, upto);
    } else {
        lemma_total_open_none(problem, s, membership, n_clusters as int);
    }
}

/// Over no items the clusters have nothing open.
proof fn lemma_total_open_none(problem: PspModel, s: StateModel, membership: Seq<usize>, k: int)
    ensures
        total_open(problem, s, membership, k, 0) == 0,
    decreases k,
{
    if k > 0 {
        lemma_total_open_none(problem, s, membership, k - 1);
    }
}

/// The pointer of a meta-item in the projection of a state leaves open as
/// many units as the cluster has open, and stands on a demand of the
/// meta-item.
proof fn lemma_projected_pointer(
    problem: PspModel,
    membership: Seq<usize>,
    n_clusters: nat,
    s: StateModel,
    a: usize,
)
    requires
        problem.wf(),
        problem.feasible(),
        valid_membership(membership, problem.n_items, n_clusters),
        n_clusters <= usize::MAX,
        problem.valid_state(s),
        a < n_clusters,
    ensures
        ({
            let meta = meta_model(problem, membership, n_clusters);
            let pointer = project_pointer(problem, meta, membership, s, a as int);
            &&& pointer_units(meta.demands[a as int], pointer) == cluster_open(
                problem,
                s,
                membership,
                a,
                problem.n_items as int,
            )
            &&& pointer matches Some(p) ==> p < problem.horizon && meta.demands[a as int][p as int]
                > 0
        }),
{
    let meta = meta_model(problem, membership, n_clusters);
    let count = cluster_open(problem, s, membership, a, problem.n_items as int);
    lemma_no_projection_gap(problem, membership, n_clusters, s, a as int);
    lemma_period_of_count(meta.demands[a as int], count, problem.horizon - 1);
}

/// The projection of a state has open in the meta-problem what the state
/// has open in the problem, counted over the meta-items below `k`.
proof fn lemma_projected_open(
    problem: PspModel,
    membership: Seq<usize>,
    n_clusters: nat,
    s: StateModel,
    k: int,
)
    requires
        problem.wf(),
        problem.feasible(),
        valid_membership(membership, problem.n_items, n_clusters),
        n_clusters <= usize::MAX,
        problem.valid_state(s),
        0 <= k <= n_clusters,
    ensures
        meta_model(problem, membership, n_clusters).open_below(
            project(problem, meta_model(problem, membership, n_clusters), membership, s),
            k,
        ) == total_open(problem, s, membership, k, problem.n_items as int),
    decreases k,
{
    if k > 0 {
        lemma_projected_open(problem, membership, n_clusters, s, k - 1);
        lemma_projected_pointer(problem, membership, n_clusters, s, (k - 1) as usize);
    }
}

/// The projection of a state has as many units open as the state.
pub proof fn lemma_projected_remaining(problem: PspModel, membership: Seq<usize>, n_clusters: nat, s: StateModel)
    requires
        problem.wf(),
        problem.feasible(),
        valid_membership(membership, problem.n_items, n_clusters),
        n_clusters <= usize::MAX,
        problem.valid_state(s),
    ensures
        meta_model(problem, membership, n_clusters).remaining(
            project(problem, meta_model(problem, membership, n_clusters), membership, s),
        ) == problem.remaining(s),
{
    lemma_projected_open(problem, membership, n_clusters, s, n_clusters as int);
    lemma_total_open(problem, s, membership, n_clusters, problem.n_items as int);
}

/// Producing an item closes one unit of its cluster, takes the period of
/// the demand met from the cluster's sum, and leaves the other clusters
/// alone.
proof fn lemma_cluster_step(
    problem: PspModel,
    s: StateModel,
    membership: Seq<usize>,
    item: usize,
    cluster: usize,
    upto: int,
)
    requires
        problem.wf(),
        problem.valid_state(s),
        problem.in_domain(s, Decision::Produce(item)),
        membership.len() == problem.n_items,
        0 <= upto <= problem.n_items,
    ensures
        cluster_open(problem, problem.step(s, Decision::Produce(item)), membership, cluster, upto)
            + (if item < upto && membership[item as int] == cluster {
            1int
        } else {
            0int
        }) == cluster_open(problem, s, membership, cluster, upto),
        cluster_sum(
            problem,
            problem.step(s, Decision::Produce(item)),
            membership,
            cluster,
            upto,
            problem.horizon as int,
        ) + (if item < upto && membership[item as int] == cluster {
            s.pointers[item as int]->Some_0 as int
        } else {
            0int
        }) == cluster_sum(problem, s, membership, cluster, upto, problem.horizon as int),
    decreases upto,
{
    if upto > 0 {
        lemma_cluster_step(problem, s, membership, item, cluster, upto - 1);
        let i = upto - 1;
        if i == item {
            let p = s.pointers[i]->Some_0;
            lemma_latest_upto(problem.demands[i], p - 1);
            lemma_capped_sum_latest(problem.demands[i], p - 1, problem.horizon as int);
            assert(problem.demands[i][p as int] <= 1);
        }
    }
}

/// States that stand on the same demands have the same units open in
/// every cluster, and the same sums.
proof fn lemma_cluster_by_pointers(
    problem: PspModel,
    r: StateModel,
    s: StateModel,
    membership: Seq<usize>,
    cluster: usize,
    upto: int,
    cap: int,
)
    requires
        r.pointers == s.pointers,
    ensures
        cluster_open(problem, r, membership, cluster, upto) == cluster_open(
            problem,
            s,
            membership,
            cluster,
            upto,
        ),
        cluster_sum(problem, r, membership, cluster, upto, cap) == cluster_sum(
            problem,
            s,
            membership,
            cluster,
            upto,
            cap,
        ),
    decreases upto,
{
    if upto > 0 {
        lemma_cluster_by_pointers(problem, r, s, membership, cluster, upto - 1, cap);
    }
}

/// In a state in which every demand up to period `t` is open, a cluster
/// has open what it has due before `t`, and one unit more if `item`, which
/// has a demand open from `t` on, is among its members below `upto`.
proof fn lemma_cluster_open_late(
    problem: PspModel,
    s: StateModel,
    membership: Seq<usize>,
    cluster: usize,
    item: usize,
    t: int,
    upto: int,
)
    requires
        problem.wf(),
        problem.valid_state(s),
        membership.len() == problem.n_items,
        0 <= t < problem.horizon,
        forall|i: int|
            0 <= i < problem.n_items ==> pointer_le(
                latest_upto(problem.demands[i], t),
                #[trigger] s.pointers[i],
            ),
        item < problem.n_items,
        s.pointers[item as int] matches Some(p) && p >= t,
        0 <= upto <= problem.n_items,
    ensures
        cluster_open(problem, s, membership, cluster, upto) >= cluster_due(
            problem.demands,
            membership,
            cluster,
            t - 1,
            upto,
        ) + if item < upto && membership[item as int] == cluster {
            1int
        } else {
            0int
        },
    decreases upto,
{
    if upto > 0 {
        lemma_cluster_open_late(problem, s, membership, cluster, item, t, upto - 1);
        let i = upto - 1;
        let row = problem.demands[i];
        assert(pointer_le(latest_upto(row, t), s.pointers[i]));
        lemma_latest_upto(row, t);
        lemma_units_upto_monotone(row, t - 1, t);
        if latest_upto(row, t) is Some {
            lemma_units_upto_monotone(
                row,
                latest_upto(row, t)->Some_0 as int,
                s.pointers[i]->Some_0 as int,
            );
        }
        if i == item {
            let p = s.pointers[i]->Some_0 as int;
            lemma_units_upto_monotone(row, t - 1, p - 1);
        }
    }
}

/// In a state on track, the meta-item of an item that may be produced has
/// more units open than it has due before the period decided, so that its
/// pointer stands no earlier than that period.
proof fn lemma_meta_pointer_late(
    problem: PspModel,
    membership: Seq<usize>,
    n_clusters: nat,
    s: StateModel,
    item: usize,
)
    requires
        problem.wf(),
        problem.feasible(),
        valid_membership(membership, problem.n_items, n_clusters),
        n_clusters <= usize::MAX,
        problem.valid_state(s),
        on_track(problem, membership, n_clusters, s),
        problem.in_domain(s, Decision::Produce(item)),
    ensures
        ({
            let meta = meta_model(problem, membership, n_clusters);
            let a = membership[item as int];
            &&& cluster_open(problem, s, membership, a, problem.n_items as int) > units_upto(
                meta.demands[a as int],
                problem.slot(s) - 1,
            )
            &&& project_pointer(problem, meta, membership, s, a as int) matches Some(p) && p
                >= problem.slot(s)
        }),
{
    let meta = meta_model(problem, membership, n_clusters);
    let n = problem.n_items as int;
    let a = membership[item as int];
    let row = meta.demands[a as int];
    let t = problem.slot(s);
    let count = cluster_open(problem, s, membership, a, n);
    assert(count >= units_upto(row, t));
    if row[t] == 0 {
        assert(row[t] == meta_demand(problem.demands, membership, a, problem.horizon as int, t));
        assert(backlog(problem.demands, membership, a, problem.horizon as int, t) == 0);
        lemma_nothing_left(problem, membership, a);
        lemma_units_kept(problem, membership, n_clusters, a, 0);
        lemma_units_kept(problem, membership, n_clusters, a, t);
        lemma_cluster_due(problem, membership, a, -1, n);
        assert(units_upto(row, -1) == 0);
        lemma_cluster_open_late(problem, s, membership, a, item, t, n);
    }
    lemma_projected_pointer(problem, membership, n_clusters, s, a);
    let pointer = project_pointer(problem, meta, membership, s, a as int);
    let p = pointer->Some_0 as int;
    if p < t {
        lemma_units_upto_monotone(row, p, t - 1);
    }
}

/// Every demand up to the period decided stays open under an admissible
/// decision.
proof fn lemma_untouched_step(problem: PspModel, s: StateModel, d: Decision)
    requires
        problem.wf(),
        problem.valid_state(s),
        problem.untouched(s),
        problem.in_domain(s, d),
    ensures
        problem.untouched(problem.step(s, d)),
{
    let after = problem.step(s, d);
    assert forall|i: int| 0 <= i < problem.n_items implies pointer_le(
        latest_upto(problem.demands[i], problem.slot(after)),
        #[trigger] after.pointers[i],
    ) by {
        assert(pointer_le(latest_upto(problem.demands[i], problem.slot(s)), s.pointers[i]));
        lemma_latest_upto(problem.demands[i], problem.slot(s));
        lemma_latest_upto(problem.demands[i], problem.slot(after));
        if d is Produce && d->Produce_0 == i {
            let p = s.pointers[i]->Some_0;
            lemma_latest_upto(problem.demands[i], p - 1);
        }
    }
}

/// An admissible decision leads from a state on track to a state on track.
pub proof fn lemma_on_track_step(
    problem: PspModel,
    membership: Seq<usize>,
    n_clusters: nat,
    s: StateModel,
    d: Decision,
)
    requires
        problem.wf(),
        problem.feasible(),
        valid_membership(membership, problem.n_items, n_clusters),
        n_clusters <= usize::MAX,
        problem.valid_state(s),
        on_track(problem, membership, n_clusters, s),
        problem.in_domain(s, d),
    ensures
        on_track(problem, membership, n_clusters, problem.step(s, d)),
{
    let meta = meta_model(problem, membership, n_clusters);
    let n = problem.n_items as int;
    let after = problem.step(s, d);
    let t = problem.slot(s);
    lemma_untouched_step(problem, s, d);
    assert forall|a: usize| a < n_clusters implies #[trigger] cluster_open(
        problem,
        after,
        membership,
        a,
        n,
    ) >= units_upto(meta.demands[a as int], problem.slot(after)) by {
        assert(cluster_open(problem, s, membership, a, n) >= units_upto(meta.demands[a as int], t));
        lemma_units_upto_monotone(meta.demands[a as int], t - 1, t);
        if d is Produce {
            let item = d->Produce_0;
            lemma_cluster_step(problem, s, membership, item, a, n);
            if membership[item as int] == a {
                lemma_meta_pointer_late(problem, membership, n_clusters, s, item);
            }
        } else {
            lemma_cluster_by_pointers(problem, after, s, membership, a, n, 0);
        }
    }
}

/// The initial state is on track.
pub proof fn lemma_on_track_initial(problem: PspModel, membership: Seq<usize>, n_clusters: nat)
    requires
        problem.wf(),
        problem.feasible(),
        valid_membership(membership, problem.n_items, n_clusters),
        n_clusters <= usize::MAX,
    ensures
        on_track(problem, membership, n_clusters, problem.initial()),
{
    let meta = meta_model(problem, membership, n_clusters);
    let n = problem.n_items as int;
    let s = problem.initial();
    assert forall|i: int| 0 <= i < problem.n_items implies pointer_le(
        latest_upto(problem.demands[i], problem.slot(s)),
        #[trigger] s.pointers[i],
    ) by {}
    assert forall|a: usize| a < n_clusters implies #[trigger] cluster_open(problem, s, membership, a, n)
        >= units_upto(meta.demands[a as int], problem.slot(s)) by {
        lemma_initial_cluster_open(problem, membership, a, n);
        lemma_meta_due(problem, membership, n_clusters, a, problem.horizon - 1);
    }
}

/// In the initial state a cluster has open all that it has due.
proof fn lemma_initial_cluster_open(problem: PspModel, membership: Seq<usize>, cluster: usize, upto: int)
    requires
        problem.wf(),
        membership.len() == problem.n_items,
        0 <= upto <= problem.n_items,
    ensures
        cluster_open(problem, problem.initial(), membership, cluster, upto) == cluster_due(
            problem.demands,
            membership,
            cluster,
            problem.horizon - 1,
            upto,
        ),
    decreases upto,
{
    if upto > 0 {
        lemma_initial_cluster_open(problem, membership, cluster, upto - 1);
        lemma_latest_upto(problem.demands[upto - 1], problem.horizon - 1);
    }
}

/// Projection and decision commute: the projection of what follows a state
/// on track under an admissible decision is what follows the state's
/// projection under the projected decision, which is admissible in the
/// meta-problem.
pub proof fn lemma_project_step(
    problem: PspModel,
    membership: Seq<usize>,
    n_clusters: nat,
    s: StateModel,
    d: Decision,
)
    requires
        problem.wf(),
        problem.feasible(),
        valid_membership(membership, problem.n_items, n_clusters),
        1 <= n_clusters <= usize::MAX,
        problem.valid_state(s),
        on_track(problem, membership, n_clusters, s),
        problem.in_domain(s, d),
    ensures
        ({
            let meta = meta_model(problem, membership, n_clusters);
            let projected = project(problem, meta, membership, s);
            let e = project_decision(d, membership);
            &&& meta.in_domain(projected, e)
            &&& project(problem, meta, membership, problem.step(s, d)) == meta.step(projected, e)
        }),
{
    let meta = meta_model(problem, membership, n_clusters);
    let n = problem.n_items as int;
    let projected = project(problem, meta, membership, s);
    let e = project_decision(d, membership);
    let after = problem.step(s, d);
    lemma_projected_remaining(problem, membership, n_clusters, s);
    lemma_meta_model_wf(problem, membership, n_clusters);
    if d is Produce {
        let item = d->Produce_0;
        let a = membership[item as int];
        lemma_meta_pointer_late(problem, membership, n_clusters, s, item);
        lemma_projected_pointer(problem, membership, n_clusters, s, a);
        let row = meta.demands[a as int];
        let p = projected.pointers[a as int]->Some_0 as int;
        lemma_latest_upto(row, p - 1);
        assert(row[p] <= 1);
        assert forall|c: int| 0 <= c < n_clusters implies #[trigger] project(
            problem,
            meta,
            membership,
            after,
        ).pointers[c] == meta.step(projected, e).pointers[c] by {
            lemma_cluster_step(problem, s, membership, item, c as usize, n);
            if c == a {
                if latest_upto(row, p - 1) is Some {
                    let q = latest_upto(row, p - 1)->Some_0 as int;
                    lemma_period_found(row, q);
                    assert(units_upto(row, q) >= row[q]);
                }
            }
        }
    } else {
        assert forall|c: int| 0 <= c < n_clusters implies #[trigger] project(
            problem,
            meta,
            membership,
            after,
        ).pointers[c] == meta.step(projected, e).pointers[c] by {
            lemma_cluster_by_pointers(problem, after, s, membership, c as usize, n, 0);
        }
    }
    assert(project(problem, meta, membership, after).pointers =~= meta.step(projected, e).pointers);
}

/// The periods of the open demands of a state, summed over the clusters
/// below `k`, each cluster weighted by the stocking cost of its meta-item.
pub open spec fn weight_real(
    problem: PspModel,
    meta: PspModel,
    membership: Seq<usize>,
    s: StateModel,
    k: int,
) -> int
    decreases k,
{
    if k <= 0 {
        0
    } else {
        weight_real(problem, meta, membership, s, k - 1) + meta.stocking[k - 1] * cluster_sum(
            problem,
            s,
            membership,
            (k - 1) as usize,
            problem.n_items as int,
            problem.horizon as int,
        )
    }
}

/// The periods of the open demands of a state of the meta-problem, summed
/// over the meta-items below `k`, each weighted by its stocking cost.
pub open spec fn weight_meta(meta: PspModel, r: StateModel, k: int) -> int
    decreases k,
{
    if k <= 0 {
        0
    } else {
        weight_meta(meta, r, k - 1) + meta.stocking[k - 1] * pointer_sum(
            meta.demands[k - 1],
            r.pointers[k - 1],
            meta.horizon as int,
        )
    }
}

/// The projection of a state weighs no more than the state.
proof fn lemma_weight_order(
    problem: PspModel,
    membership: Seq<usize>,
    n_clusters: nat,
    s: StateModel,
    k: int,
)
    requires
        problem.wf(),
        problem.feasible(),
        valid_membership(membership, problem.n_items, n_clusters),
        n_clusters <= usize::MAX,
        problem.valid_state(s),
        0 <= k <= n_clusters,
    ensures
        weight_meta(
            meta_model(problem, membership, n_clusters),
            project(problem, meta_model(problem, membership, n_clusters), membership, s),
            k,
        ) <= weight_real(problem, meta_model(problem, membership, n_clusters), membership, s, k),
    decreases k,
{
    if k > 0 {
        let meta = meta_model(problem, membership, n_clusters);
        let projected = project(problem, meta, membership, s);
        let a = (k - 1) as usize;
        lemma_weight_order(problem, membership, n_clusters, s, k - 1);
        lemma_projected_pointer(problem, membership, n_clusters, s, a);
        lemma_meta_sum_below(
            problem,
            membership,
            n_clusters,
            s,
            a,
            projected.pointers[k - 1],
            problem.horizon as int,
        );
        let rate = meta.stocking[k - 1] as int;
        let x = pointer_sum(meta.demands[k - 1], projected.pointers[k - 1], meta.horizon as int);
        let y = cluster_sum(problem, s, membership, a, problem.n_items as int, problem.horizon as int);
        assert(rate * x <= rate * y) by (nonlinear_arith)
            requires
                0 <= rate,
                x <= y,
        ;
    }
}

/// Producing an item takes from the weight of a state the period of the
/// demand met, at the rate of the item's meta-item.
proof fn lemma_weight_real_step(
    problem: PspModel,
    meta: PspModel,
    membership: Seq<usize>,
    s: StateModel,
    item: usize,
    k: int,
)
    requires
        problem.wf(),
        problem.valid_state(s),
        problem.in_domain(s, Decision::Produce(item)),
        membership.len() == problem.n_items,
        0 <= k <= usize::MAX,
    ensures
        weight_real(problem, meta, membership, s, k) - weight_real(
            problem,
            meta,
            membership,
            problem.step(s, Decision::Produce(item)),
            k,
        ) == if membership[item as int] < k {
            meta.stocking[membership[item as int] as int] * s.pointers[item as int]->Some_0
        } else {
            0
        },
    decreases k,
{
    if k > 0 {
        lemma_weight_real_step(problem, meta, membership, s, item, k - 1);
        let a = (k - 1) as usize;
        lemma_cluster_step(problem, s, membership, item, a, problem.n_items as int);
        let rate = meta.stocking[k - 1] as int;
        let before = cluster_sum(problem, s, membership, a, problem.n_items as int, problem.horizon as int);
        let after = cluster_sum(
            problem,
            problem.step(s, Decision::Produce(item)),
            membership,
            a,
            problem.n_items as int,
            problem.horizon as int,
        );
        let p = s.pointers[item as int]->Some_0 as int;
        if membership[item as int] == a {
            assert(rate * before - rate * after == rate * p) by (nonlinear_arith)
                requires
                    after + p == before,
            ;
        }
    }
}

/// A state weighs what another weighs that stands on the same demands.
proof fn lemma_weight_real_by_pointers(
    problem: PspModel,
    meta: PspModel,
    membership: Seq<usize>,
    r: StateModel,
    s: StateModel,
    k: int,
)
    requires
        r.pointers == s.pointers,
    ensures
        weight_real(problem, meta, membership, r, k) == weight_real(problem, meta, membership, s, k),
    decreases k,
{
    if k > 0 {
        lemma_weight_real_by_pointers(problem, meta, membership, r, s, k - 1);
        lemma_cluster_by_pointers(
            problem,
            r,
            s,
            membership,
            (k - 1) as usize,
            problem.n_items as int,
            problem.horizon as int,
        );
    }
}

/// Producing a meta-item takes from the weight of a state of the
/// meta-problem the period of the demand met, at the meta-item's rate.
proof fn lemma_weight_meta_step(meta: PspModel, r: StateModel, a: usize, k: int)
    requires
        meta.wf(),
        meta.valid_state(r),
        a < meta.n_items,
        r.pointers[a as int] is Some,
        0 <= k <= meta.n_items,
    ensures
        weight_meta(meta, r, k) - weight_meta(meta, meta.step(r, Decision::Produce(a)), k) == if a
            < k {
            meta.stocking[a as int] * r.pointers[a as int]->Some_0
        } else {
            0
        },
    decreases k,
{
    if k > 0 {
        lemma_weight_meta_step(meta, r, a, k - 1);
        if k - 1 == a {
            let row = meta.demands[a as int];
            let p = r.pointers[a as int]->Some_0 as int;
            lemma_capped_sum_latest(row, p - 1, meta.horizon as int);
            let rate = meta.stocking[a as int] as int;
            let before = pointer_sum(row, r.pointers[a as int], meta.horizon as int);
            let after = pointer_sum(row, latest_upto(row, p - 1), meta.horizon as int);
            assert(before == after + p);
            assert(rate * before - rate * after == rate * p) by (nonlinear_arith)
                requires
                    after + p == before,
            ;
        }
    }
}

/// A state of the meta-problem weighs what another weighs that stands on
/// the same demands.
proof fn lemma_weight_meta_by_pointers(meta: PspModel, r: StateModel, s: StateModel, k: int)
    requires
        r.pointers == s.pointers,
    ensures
        weight_meta(meta, r, k) == weight_meta(meta, s, k),
    decreases k,
{
    if k > 0 {
        lemma_weight_meta_by_pointers(meta, r, s, k - 1);
    }
}

/// A state with no demand open weighs nothing, and neither does its
/// projection, which has no demand open either.
proof fn lemma_weight_complete(
    problem: PspModel,
    membership: Seq<usize>,
    n_clusters: nat,
    s: StateModel,
    k: int,
)
    requires
        problem.complete(s),
        membership.len() == problem.n_items,
        0 <= k <= n_clusters,
    ensures
        weight_real(problem, meta_model(problem, membership, n_clusters), membership, s, k) == 0,
        weight_meta(
            meta_model(problem, membership, n_clusters),
            project(problem, meta_model(problem, membership, n_clusters), membership, s),
            k,
        ) == 0,
        forall|a: int|
            0 <= a < k ==> #[trigger] project(
                problem,
                meta_model(problem, membership, n_clusters),
                membership,
                s,
            ).pointers[a] is None,
    decreases k,
{
    if k > 0 {
        lemma_weight_complete(problem, membership, n_clusters, s, k - 1);
        lemma_complete_cluster(problem, s, membership, (k - 1) as usize, problem.n_items as int);
    }
}

/// A cluster has nothing open in a state with no demand open.
proof fn lemma_complete_cluster(problem: PspModel, s: StateModel, membership: Seq<usize>, cluster: usize, upto: int)
    requires
        problem.complete(s),
        0 <= upto <= problem.n_items,
    ensures
        cluster_open(problem, s, membership, cluster, upto) == 0,
        cluster_sum(problem, s, membership, cluster, upto, problem.horizon as int) == 0,
    decreases upto,
{
    if upto > 0 {
        lemma_complete_cluster(problem, s, membership, cluster, upto - 1);
        assert(s.pointers[upto - 1] is None);
    }
}

/// Completing the projection of a state on track costs no more than
/// completing the state, once each side is relieved of its weight.
proof fn lemma_relieved_bound(problem: PspModel, membership: Seq<usize>, n_clusters: nat, s: StateModel)
    requires
        problem.wf(),
        problem.feasible(),
        valid_membership(membership, problem.n_items, n_clusters),
        1 <= n_clusters <= usize::MAX,
        problem.valid_state(s),
        on_track(problem, membership, n_clusters, s),
    ensures
        ({
            let meta = meta_model(problem, membership, n_clusters);
            let projected = project(problem, meta, membership, s);
            problem.best(s) is Some ==> meta.best(projected) is Some && meta.best(projected)->Some_0
                - weight_meta(meta, projected, n_clusters as int) <= problem.best(s)->Some_0
                - weight_real(problem, meta, membership, s, n_clusters as int)
        }),
    decreases problem.horizon - s.time,
{
    let meta = meta_model(problem, membership, n_clusters);
    let projected = project(problem, meta, membership, s);
    let n = problem.n_items as int;
    let k = n_clusters as int;
    lemma_meta_model_wf(problem, membership, n_clusters);
    if problem.best(s) is Some {
        if s.time >= problem.horizon {
            lemma_weight_complete(problem, membership, n_clusters, s, k);
            assert(meta.complete(projected));
        } else {
            let j = problem.lemma_best_among_attained(s, n);
            let d = candidate(j);
            let after = problem.step(s, d);
            let e = project_decision(d, membership);
            problem.lemma_step_valid(s, d);
            lemma_on_track_step(problem, membership, n_clusters, s, d);
            lemma_relieved_bound(problem, membership, n_clusters, after);
            lemma_project_step(problem, membership, n_clusters, s, d);
            let projected_after = meta.step(projected, e);
            let jj: int = match e {
                Decision::Idle => 0,
                Decision::Produce(a) => a + 1,
            };
            assert(candidate(jj) == e);
            meta.lemma_best_among_le(projected, k, jj);
            if d is Produce {
                let item = d->Produce_0;
                let a = membership[item as int];
                lemma_meta_pointer_late(problem, membership, n_clusters, s, item);
                lemma_projected_pointer(problem, membership, n_clusters, s, a);
                lemma_weight_real_step(problem, meta, membership, s, item, k);
                lemma_meta_state_valid(problem, membership, n_clusters, s);
                lemma_weight_meta_step(meta, projected, a, k);
                lemma_meta_costs_optimistic(problem, membership, n_clusters);
                let rate = meta.stocking[a as int] as int;
                let own = problem.stocking[item as int] as int;
                let p = s.pointers[item as int]->Some_0 as int;
                let q = projected.pointers[a as int]->Some_0 as int;
                let t = problem.slot(s);
                assert(meta.slot(projected) == t);
                assert(meta.changeover_cost(projected.pred, e) <= problem.changeover_cost(s.pred, d));
                assert(rate * (q - t) - rate * q <= own * (p - t) - rate * p) by (nonlinear_arith)
                    requires
                        0 <= rate <= own,
                        t <= p,
                ;
                assert(meta.stocking_cost(projected, e) == rate * (q - t));
                assert(problem.stocking_cost(s, d) == own * (p - t));
            } else {
                lemma_weight_real_by_pointers(problem, meta, membership, after, s, k);
                lemma_weight_meta_by_pointers(meta, projected_after, projected, k);
            }
        }
    }
}

/// The projection of a state of the problem is a state of the
/// meta-problem.
pub proof fn lemma_meta_state_valid(problem: PspModel, membership: Seq<usize>, n_clusters: nat, s: StateModel)
    requires
        problem.wf(),
        problem.feasible(),
        valid_membership(membership, problem.n_items, n_clusters),
        n_clusters <= usize::MAX,
        problem.valid_state(s),
    ensures
        meta_model(problem, membership, n_clusters).valid_state(
            project(problem, meta_model(problem, membership, n_clusters), membership, s),
        ),
{
    let meta = meta_model(problem, membership, n_clusters);
    let projected = project(problem, meta, membership, s);
    assert forall|a: int| 0 <= a < meta.n_items implies match #[trigger] projected.pointers[a] {
        Some(p) => p < meta.horizon && meta.demands[a][p as int] > 0,
        None => true,
    } by {
        lemma_projected_pointer(problem, membership, n_clusters, s, a as usize);
    }
}

/// In a problem whose deadlines can all be kept, completing the projection
/// of a state on track costs no more in the meta-problem than completing
/// the state costs in the problem.
pub proof fn lemma_compressed_bound(problem: PspModel, membership: Seq<usize>, n_clusters: nat, s: StateModel)
    requires
        problem.wf(),
        problem.feasible(),
        valid_membership(membership, problem.n_items, n_clusters),
        1 <= n_clusters <= usize::MAX,
        problem.valid_state(s),
        on_track(problem, membership, n_clusters, s),
    ensures
        cost_le(
            meta_model(problem, membership, n_clusters).best(
                project(problem, meta_model(problem, membership, n_clusters), membership, s),
            ),
            problem.best(s),
        ),
{
    lemma_relieved_bound(problem, membership, n_clusters, s);
    lemma_weight_order(problem, membership, n_clusters, s, n_clusters as int);
}

} // verus!
