//! Keeping demands placeable: a record of the periods that are still free
//! to produce in, from which every demand placed takes the latest one that
//! can serve it, and the matrix of demands that grows with it. Whatever is
//! offered, the finished matrix asks for no more units up to any period
//! than there are periods.

use vstd::prelude::*;
use std::collections::BTreeSet;
use crate::demand::units_upto;
use crate::model::rows;
use crate::model::PspModel;

verus! {

/// The latest period in `0..=period` that is in `free`, if any.
pub open spec fn slot_upto(free: Set<usize>, period: int) -> Option<usize>
    decreases period + 1,
{
    if period < 0 {
        None
    } else if free.contains(period as usize) {
        Some(period as usize)
    } else {
        slot_upto(free, period - 1)
    }
}

/// What `slot_upto` finds is a free period, no later than `period`, and no
/// free period lies between it and `period`.
pub proof fn lemma_slot_upto(free: Set<usize>, period: int)
    requires
        -1 <= period <= usize::MAX,
    ensures
        slot_upto(free, period) matches Some(p) ==> p <= period && free.contains(p),
        forall|t: usize|
            t <= period && free.contains(t) ==> (slot_upto(free, period) matches Some(p) && t <= p),
    decreases period + 1,
{
    if period >= 0 {
        lemma_slot_upto(free, period - 1);
    }
}

/// The number of periods in `0..=t` that are in `free`.
pub open spec fn free_upto(free: Set<usize>, t: int) -> nat
    decreases t + 1,
{
    if t < 0 {
        0
    } else {
        free_upto(free, t - 1) + if free.contains(t as usize) {
            1nat
        } else {
            0nat
        }
    }
}

/// The units that the first `k` rows of `demands` have due in the periods
/// `0..=t`.
pub open spec fn units_due(demands: Seq<Seq<usize>>, k: int, t: int) -> nat
    decreases k,
{
    if k <= 0 {
        0
    } else {
        units_due(demands, k - 1, t) + units_upto(demands[k - 1], t)
    }
}

/// The demands placed leave room: every row has `horizon` periods, and up
/// to every period the units due and the periods still free together are
/// no more than the periods there are.
pub open spec fn keeps_deadlines(free: Set<usize>, demands: Seq<Seq<usize>>, horizon: nat) -> bool {
    &&& horizon <= usize::MAX
    &&& forall|i: int| 0 <= i < demands.len() ==> (#[trigger] demands[i]).len() == horizon
    &&& forall|t: int|
        0 <= t < horizon ==> #[trigger] units_due(demands, demands.len() as int, t) + free_upto(
            free,
            t,
        ) <= t + 1
}

/// Taking a free period out leaves one free period less up to every
/// period from it on.
pub proof fn lemma_free_upto_remove(free: Set<usize>, taken: usize, t: int)
    requires
        free.contains(taken),
        -1 <= t <= usize::MAX,
    ensures
        free_upto(free.remove(taken), t) + (if taken <= t {
            1int
        } else {
            0int
        }) == free_upto(free, t),
    decreases t + 1,
{
    if t >= 0 {
        lemma_free_upto_remove(free, taken, t - 1);
    }
}

/// A unit placed in an empty cell is one unit more due up to every period
/// from its own on.
pub proof fn lemma_units_upto_placed(row: Seq<usize>, period: int, t: int)
    requires
        0 <= period < row.len(),
        row[period] == 0,
        -1 <= t < row.len(),
    ensures
        units_upto(row.update(period, 1), t) == units_upto(row, t) + if period <= t {
            1nat
        } else {
            0nat
        },
    decreases t + 1,
{
    if t >= 0 {
        lemma_units_upto_placed(row, period, t - 1);
    }
}

/// A unit placed in one row is one unit more due in all, up to every
/// period from its own on.
pub proof fn lemma_units_due_placed(
    before: Seq<Seq<usize>>,
    after: Seq<Seq<usize>>,
    item: int,
    period: int,
    k: int,
    t: int,
)
    requires
        before.len() == after.len(),
        0 <= item < before.len(),
        0 <= period < before[item].len(),
        before[item][period] == 0,
        after[item] == before[item].update(period, 1),
        forall|i: int| 0 <= i < before.len() && i != item ==> after[i] == before[i],
        -1 <= t < before[item].len(),
        0 <= k <= before.len(),
    ensures
        units_due(after, k, t) == units_due(before, k, t) + if item < k && period <= t {
            1nat
        } else {
            0nat
        },
    decreases k,
{
    if k > 0 {
        lemma_units_due_placed(before, after, item, period, k - 1, t);
        if k - 1 == item {
            lemma_units_upto_placed(before[item], period, t);
        }
    }
}

/// With every period free and nothing demanded, the deadlines are kept.
pub proof fn lemma_fresh_keeps_deadlines(free: Set<usize>, demands: Seq<Seq<usize>>, horizon: nat)
    requires
        horizon <= usize::MAX,
        forall|t: usize| free.contains(t) <==> t < horizon,
        forall|i: int| 0 <= i < demands.len() ==> (#[trigger] demands[i]).len() == horizon,
        forall|i: int, t: int|
            0 <= i < demands.len() && 0 <= t < horizon ==> (#[trigger] demands[i][t]) == 0,
    ensures
        keeps_deadlines(free, demands, horizon),
{
    assert forall|t: int| 0 <= t < horizon implies #[trigger] units_due(
        demands,
        demands.len() as int,
        t,
    ) + free_upto(free, t) <= t + 1 by {
        lemma_nothing_due(demands, demands.len() as int, t);
        lemma_free_upto_bound(free, t);
    }
}

/// No more periods are free up to a period than there are.
pub proof fn lemma_free_upto_bound(free: Set<usize>, t: int)
    requires
        -1 <= t,
    ensures
        free_upto(free, t) <= t + 1,
    decreases t + 1,
{
    if t >= 0 {
        lemma_free_upto_bound(free, t - 1);
    }
}

/// Rows without a demand have nothing due.
proof fn lemma_nothing_due(demands: Seq<Seq<usize>>, k: int, t: int)
    requires
        0 <= k <= demands.len(),
        forall|i: int| 0 <= i < demands.len() ==> t < (#[trigger] demands[i]).len(),
        forall|i: int, u: int|
            0 <= i < demands.len() && 0 <= u <= t ==> (#[trigger] demands[i][u]) == 0,
        -1 <= t,
    ensures
        units_due(demands, k, t) == 0,
    decreases k,
{
    if k > 0 {
        lemma_nothing_due(demands, k - 1, t);
        lemma_row_nothing_due(demands[k - 1], t);
    }
}

/// A row without a demand has nothing due.
proof fn lemma_row_nothing_due(row: Seq<usize>, t: int)
    requires
        -1 <= t < row.len(),
        forall|u: int| 0 <= u <= t ==> #[trigger] row[u] == 0,
    ensures
        units_upto(row, t) == 0,
    decreases t + 1,
{
    if t >= 0 {
        lemma_row_nothing_due(row, t - 1);
    }
}

/// Demands that were placed so that the deadlines are kept make a problem
/// in which every deadline can be kept.
pub proof fn lemma_kept_deadlines_feasible(problem: PspModel, free: Set<usize>)
    requires
        problem.wf(),
        keeps_deadlines(free, problem.demands, problem.horizon),
    ensures
        problem.feasible(),
{
    assert forall|t: int| 0 <= t < problem.horizon implies #[trigger] problem.due_by(t) <= t + 1 by {
        lemma_due_below(problem, problem.n_items as int, t);
        assert(units_due(problem.demands, problem.demands.len() as int, t) + free_upto(free, t) <= t
            + 1);
    }
}

/// What a problem has due is what its rows have due.
proof fn lemma_due_below(problem: PspModel, k: int, t: int)
    ensures
        problem.due_below(k, t) == units_due(problem.demands, k, t),
    decreases k,
{
    if k > 0 {
        lemma_due_below(problem, k - 1, t);
    }
}

/// The latest period up to `period` that is in `free`, if any.
pub open spec fn slot_for(free: Set<usize>, period: usize) -> Option<usize> {
    slot_upto(free, period as int)
}

/// Where `period` is not free, the slot for it is the slot for the period
/// before it.
pub proof fn lemma_slot_for_step(free: Set<usize>, period: usize)
    requires
        !free.contains(period),
        slot_for(free, period) is Some,
    ensures
        period > 0,
        slot_for(free, (period - 1) as usize) == slot_for(free, period),
{
    assert(slot_upto(free, -1) is None);
}

/// The periods in which nothing is planned yet.
pub struct PspFeasibility {
    available: BTreeSet<usize>,
}

impl View for PspFeasibility {
    type V = Set<usize>;

    closed spec fn view(&self) -> Set<usize> {
        self.available@
    }
}

impl PspFeasibility {
    /// Every period of the horizon is free.
    pub fn new(nb_periods: usize) -> (free: Self)
        ensures
            forall|t: usize| free@.contains(t) <==> t < nb_periods,
    {
        broadcast use vstd::std_specs::btree::group_btree_axioms;
        broadcast use vstd::laws_cmp::group_laws_cmp;

        let mut available: BTreeSet<usize> = BTreeSet::new();
        let mut t: usize = 0;
        while t < nb_periods
            invariant
                t <= nb_periods,
                forall|u: usize| available@.contains(u) <==> u < t,
            decreases nb_periods - t,
        {
            available.insert(t);
            t += 1;
        }
        PspFeasibility { available }
    }

    /// Tells whether `period` is free.
    pub fn is_free(&self, period: usize) -> (free: bool)
        ensures
            free == self@.contains(period),
    {
        broadcast use vstd::std_specs::btree::group_btree_axioms;
        broadcast use vstd::laws_cmp::group_laws_cmp;

        self.available.contains(&period)
    }

    /// The first free period.
    pub fn min(&self) -> (first: usize)
        requires
            exists|t: usize| self@.contains(t),
        ensures
            self@.contains(first),
            forall|t: usize| self@.contains(t) ==> first <= t,
    {
        broadcast use vstd::std_specs::btree::group_btree_axioms;
        broadcast use vstd::laws_cmp::group_laws_cmp;

        let ghost some = choose|t: usize| self@.contains(t);
        let mut first: usize = 0;
        while !self.available.contains(&first)
            invariant
                self@.contains(some),
                first <= some,
                forall|t: usize| self@.contains(t) ==> first <= t,
            decreases some - first,
        {
            first += 1;
        }
        first
    }

    /// Takes the latest free period that is no later than `period`.
    pub fn remove(&mut self, period: usize)
        requires
            slot_for(old(self)@, period) is Some,
        ensures
            final(self)@ == old(self)@.remove(slot_for(old(self)@, period)->Some_0),
    {
        broadcast use vstd::std_specs::btree::group_btree_axioms;
        broadcast use vstd::laws_cmp::group_laws_cmp;

        let mut largest: usize = period;
        while !self.available.contains(&largest)
            invariant
                *self == *old(self),
                largest <= period,
                slot_for(self@, largest) == slot_for(self@, period),
                slot_for(self@, period) is Some,
            decreases largest,
        {
            proof {
                lemma_slot_for_step(self@, largest);
            }
            largest -= 1;
        }
        self.available.remove(&largest);
    }

    /// Places a demand for `item` in `period` if there is none yet, and takes
    /// the free period that will serve it. Tells whether it did.
    pub fn place_demand(&mut self, demands: &mut Vec<Vec<usize>>, item: usize, period: usize) -> (placed: bool)
        requires
            item < old(demands)@.len(),
            period < old(demands)@[item as int]@.len(),
            slot_for(old(self)@, period) is Some,
        ensures
            placed == (old(demands)@[item as int]@[period as int] == 0),
            placed ==> final(self)@ == old(self)@.remove(slot_for(old(self)@, period)->Some_0),
            placed ==> final(demands)@.len() == old(demands)@.len() && final(demands)@[item as int]@
                == old(demands)@[item as int]@.update(period as int, 1) && forall|k: int|
                0 <= k < old(demands)@.len() && k != item ==> final(demands)@[k] == old(
                    demands,
                )@[k],
            !placed ==> final(self)@ == old(self)@ && *final(demands) == *old(demands),
            keeps_deadlines(
                old(self)@,
                rows(*old(demands)),
                old(demands)@[item as int]@.len() as nat,
            ) ==> keeps_deadlines(
                final(self)@,
                rows(*final(demands)),
                old(demands)@[item as int]@.len() as nat,
            ),
    {
        if demands[item][period] == 0 {
            demands[item][period] = 1;
            self.remove(period);
            proof {
                let horizon = old(demands)@[item as int]@.len() as nat;
                let before = rows(*old(demands));
                let after = rows(*demands);
                let taken = slot_for(old(self)@, period)->Some_0;
                if keeps_deadlines(old(self)@, before, horizon) {
                    lemma_slot_upto(old(self)@, period as int);
                    assert forall|i: int| 0 <= i < after.len() implies (#[trigger] after[i]).len()
                        == horizon by {
                        assert(before[i].len() == horizon);
                    }
                    assert forall|t: int| 0 <= t < horizon implies #[trigger] units_due(
                        after,
                        after.len() as int,
                        t,
                    ) + free_upto(self@, t) <= t + 1 by {
                        lemma_units_due_placed(
                            before,
                            after,
                            item as int,
                            period as int,
                            before.len() as int,
                            t,
                        );
                        lemma_free_upto_remove(old(self)@, taken, t);
                        assert(units_due(before, before.len() as int, t) + free_upto(old(self)@, t)
                            <= t + 1);
                    }
                }
            }
            true
        } else {
            false
        }
    }
}

/// Up to every period of the horizon, no more units are due than there are
/// periods: every unit can be made in a period of its own, no later than
/// it is due.
pub open spec fn within_deadlines(demands: Seq<Seq<usize>>, horizon: nat) -> bool {
    forall|t: int| 0 <= t < horizon ==> #[trigger] units_due(demands, demands.len() as int, t) <= t + 1
}

/// Demands within their deadlines make a problem in which every deadline
/// can be kept.
pub proof fn lemma_within_deadlines_feasible(problem: PspModel)
    requires
        problem.wf(),
        within_deadlines(problem.demands, problem.horizon),
    ensures
        problem.feasible(),
{
    assert forall|t: int| 0 <= t < problem.horizon implies #[trigger] problem.due_by(t) <= t + 1 by {
        lemma_due_below(problem, problem.n_items as int, t);
        assert(units_due(problem.demands, problem.demands.len() as int, t) <= t + 1);
    }
}

/// The demands placed so far, and the periods that are still free to make
/// them in.
pub struct DemandPlacement {
    pub demands: Vec<Vec<usize>>,
    pub free: PspFeasibility,
    pub horizon: usize,
}

impl DemandPlacement {
    /// Every row has a cell for each period, and the demands placed leave
    /// room for every deadline.
    pub open spec fn wf(&self) -> bool {
        keeps_deadlines(self.free@, rows(self.demands), self.horizon as nat)
    }

    /// No demand is placed, and every period is free.
    pub fn new(nb_types: usize, nb_periods: usize) -> (placement: Self)
        ensures
            placement.wf(),
            placement.horizon == nb_periods,
            placement.demands@.len() == nb_types,
            forall|i: int, t: int|
                0 <= i < nb_types && 0 <= t < nb_periods ==> (#[trigger] placement.demands@[i]@[t])
                    == 0,
            forall|t: usize| placement.free@.contains(t) <==> t < nb_periods,
    {
        let mut demands: Vec<Vec<usize>> = Vec::new();
        let mut i: usize = 0;
        while i < nb_types
            invariant
                i <= nb_types,
                demands@.len() == i,
                forall|j: int| 0 <= j < i ==> (#[trigger] demands@[j])@.len() == nb_periods,
                forall|j: int, t: int|
                    0 <= j < i && 0 <= t < nb_periods ==> (#[trigger] demands@[j]@[t]) == 0,
            decreases nb_types - i,
        {
            let mut row: Vec<usize> = Vec::new();
            let mut t: usize = 0;
            while t < nb_periods
                invariant
                    t <= nb_periods,
                    row@.len() == t,
                    forall|u: int| 0 <= u < t ==> #[trigger] row@[u] == 0,
                decreases nb_periods - t,
            {
                row.push(0);
                t += 1;
            }
            demands.push(row);
            i += 1;
        }
        let free = PspFeasibility::new(nb_periods);
        let placement = DemandPlacement { demands, free, horizon: nb_periods };
        proof {
            lemma_fresh_keeps_deadlines(placement.free@, rows(placement.demands), nb_periods as nat);
        }
        placement
    }

    /// The first free period, if one is left.
    pub fn first_free(&self) -> (first: Option<usize>)
        ensures
            first matches Some(f) ==> f < self.horizon && self.free@.contains(f) && forall|t: usize|
                t < f ==> !self.free@.contains(t),
            first is None ==> forall|t: usize| t < self.horizon ==> !self.free@.contains(t),
    {
        let mut t: usize = 0;
        while t < self.horizon
            invariant
                t <= self.horizon,
                forall|u: usize| u < t ==> !self.free@.contains(u),
            decreases self.horizon - t,
        {
            if self.free.is_free(t) {
                return Some(t);
            }
            t += 1;
        }
        None
    }

    /// Places a demand for `item` in `period` if the cell is empty and a
    /// free period is left to make it in, no later than `period`. Tells
    /// whether it did.
    pub fn offer(&mut self, item: usize, period: usize) -> (placed: bool)
        requires
            old(self).wf(),
            item < old(self).demands@.len(),
            period < old(self).horizon,
        ensures
            final(self).wf(),
            final(self).horizon == old(self).horizon,
            final(self).demands@.len() == old(self).demands@.len(),
            placed == (old(self).demands@[item as int]@[period as int] == 0 && slot_for(
                old(self).free@,
                period,
            ) is Some),
            placed ==> final(self).free@ == old(self).free@.remove(
                slot_for(old(self).free@, period)->Some_0,
            ) && final(self).demands@[item as int]@ == old(self).demands@[item as int]@.update(
                period as int,
                1,
            ) && forall|k: int|
                0 <= k < old(self).demands@.len() && k != item ==> final(self).demands@[k] == old(
                    self,
                ).demands@[k],
            !placed ==> final(self).free@ == old(self).free@ && final(self).demands == old(
                self,
            ).demands,
    {
        proof {
            lemma_slot_upto(self.free@, period as int);
            assert(rows(self.demands)[item as int].len() == self.horizon);
        }
        match self.first_free() {
            None => false,
            Some(first) => {
                if first > period {
                    false
                } else {
                    self.free.place_demand(&mut self.demands, item, period)
                }
            },
        }
    }

    /// The demands placed. Up to every period no more units are due than
    /// there are periods, whatever was offered and in whatever order.
    pub fn finish(self) -> (demands: Vec<Vec<usize>>)
        requires
            self.wf(),
        ensures
            demands == self.demands,
            within_deadlines(rows(demands), self.horizon as nat),
    {
        proof {
            assert forall|t: int| 0 <= t < self.horizon implies #[trigger] units_due(
                rows(self.demands),
                rows(self.demands).len() as int,
                t,
            ) <= t + 1 by {
                assert(units_due(rows(self.demands), rows(self.demands).len() as int, t) + free_upto(
                    self.free@,
                    t,
                ) <= t + 1);
            }
        }
        self.demands
    }
}

} // verus!
