//! Why the search can trust the model: a state that can still be completed
//! always has a decision, and a merged state never costs more to complete
//! than any state that it stands for.

use vstd::prelude::*;
use crate::bound::candidate;
use crate::bound::cost_le;
use crate::demand::latest_upto;
use crate::demand::lemma_latest_upto;
use crate::demand::lemma_units_upto_monotone;
use crate::demand::units_upto;
use crate::model::Decision;
use crate::model::PspModel;
use crate::model::StateModel;
use crate::relax::merged_from;
use crate::relax::pointer_le;

verus! {

/// `r` relaxes `s`: both have planned the same periods, no pointer of `r`
/// leaves more open than that of `s`, and `r` either has the predecessor of
/// `s` or one that costs nothing to change over from.
pub open spec fn relaxes(problem: PspModel, r: StateModel, s: StateModel) -> bool {
    &&& r.time == s.time
    &&& forall|i: int|
        0 <= i < problem.n_items ==> pointer_le(#[trigger] r.pointers[i], s.pointers[i])
    &&& (r.pred == s.pred || r.pred is Idle || r.pred is Unknown)
}

impl PspModel {
    /// Either an item below `k` has an open demand from period `t` on, or
    /// the open units of the items below `k` are all due before `t`.
    proof fn lemma_late_pointer(self, s: StateModel, k: int, t: int)
        requires
            self.wf(),
            self.valid_state(s),
            0 <= k <= self.n_items,
            0 <= t < self.horizon,
        ensures
            (exists|i: int| 0 <= i < k && (#[trigger] s.pointers[i] matches Some(p) && p >= t))
                || self.open_below(s, k) <= self.due_below(k, t - 1),
        decreases k,
    {
        if k > 0 {
            self.lemma_late_pointer(s, k - 1, t);
            let i = k - 1;
            match s.pointers[i] {
                Some(p) => {
                    if p >= t {
                        assert(0 <= i < k && (s.pointers[i] matches Some(q) && q >= t));
                    } else {
                        lemma_units_upto_monotone(self.demands[i], p as int, t - 1);
                    }
                },
                None => {},
            }
            if exists|j: int| 0 <= j < k - 1 && (#[trigger] s.pointers[j] matches Some(p) && p >= t) {
                let j = choose|j: int|
                    0 <= j < k - 1 && (#[trigger] s.pointers[j] matches Some(p) && p >= t);
                assert(0 <= j < k && (s.pointers[j] matches Some(q) && q >= t));
            }
        }
    }

    /// Nothing is due before the first period.
    proof fn lemma_nothing_due_before_start(self, k: int)
        requires
            0 <= k,
        ensures
            self.due_below(k, -1) == 0,
        decreases k,
    {
        if k > 0 {
            self.lemma_nothing_due_before_start(k - 1);
        }
    }

    /// In a problem whose deadlines can all be kept, a state that has a
    /// period left to plan and whose open units fit in the periods left has
    /// a decision in its domain.
    pub proof fn lemma_domain_nonempty(self, s: StateModel)
        requires
            self.wf(),
            self.feasible(),
            self.valid_state(s),
            self.feasible_state(s),
            !self.terminal(s),
        ensures
            exists|d: Decision| self.in_domain(s, d),
    {
        if self.remaining(s) < self.periods_left(s) {
            assert(self.in_domain(s, Decision::Idle));
        } else {
            let t = self.slot(s);
            self.lemma_late_pointer(s, self.n_items as int, t);
            if t == 0 {
                self.lemma_nothing_due_before_start(self.n_items as int);
            } else {
                assert(self.due_by(t - 1) <= t);
            }
            let i = choose|i: int|
                0 <= i < self.n_items && (#[trigger] s.pointers[i] matches Some(p) && p >= t);
            assert(self.in_domain(s, Decision::Produce(i as usize)));
        }
    }

    /// Where the items below `k` have no open unit between them, none of
    /// them has an open demand.
    proof fn lemma_none_open(self, s: StateModel, k: int)
        requires
            self.wf(),
            self.valid_state(s),
            0 <= k <= self.n_items,
            self.open_below(s, k) == 0,
        ensures
            forall|i: int| 0 <= i < k ==> #[trigger] s.pointers[i] is None,
        decreases k,
    {
        if k > 0 {
            self.lemma_none_open(s, k - 1);
            if s.pointers[k - 1] is Some {
                let p = s.pointers[k - 1]->Some_0 as int;
                assert(units_upto(self.demands[k - 1], p) >= self.demands[k - 1][p]);
            }
        }
    }

    /// States that stand on the same demands have the same units open.
    pub proof fn lemma_open_by_pointers(self, r: StateModel, s: StateModel, k: int)
        requires
            r.pointers == s.pointers,
        ensures
            self.open_below(r, k) == self.open_below(s, k),
        decreases k,
    {
        if k > 0 {
            self.lemma_open_by_pointers(r, s, k - 1);
        }
    }

    /// An admissible decision leads to a state whose open units fit in the
    /// periods that are left.
    pub proof fn lemma_step_feasible(self, s: StateModel, d: Decision)
        requires
            self.wf(),
            self.valid_state(s),
            self.in_domain(s, d),
        ensures
            self.feasible_state(self.step(s, d)),
    {
        if d is Produce {
            self.lemma_step_open(s, d->Produce_0, self.n_items as int);
        } else {
            self.lemma_open_by_pointers(self.step(s, d), s, self.n_items as int);
        }
    }

    /// A state that has planned every period and whose open units fit in the
    /// periods left has no demand open. With the lemma before, no sequence
    /// of admissible decisions ends in a state that leaves a demand unmet.
    pub proof fn lemma_terminal_complete(self, s: StateModel)
        requires
            self.wf(),
            self.valid_state(s),
            self.terminal(s),
            self.feasible_state(s),
        ensures
            self.complete(s),
    {
        self.lemma_none_open(s, self.n_items as int);
    }

    /// No state has more units open than a state that it relaxes, counted
    /// over the items below `k`.
    proof fn lemma_relaxed_open(self, r: StateModel, s: StateModel, k: int)
        requires
            self.wf(),
            self.valid_state(r),
            self.valid_state(s),
            forall|i: int| 0 <= i < self.n_items ==> pointer_le(#[trigger] r.pointers[i], s.pointers[i]),
            0 <= k <= self.n_items,
        ensures
            self.open_below(r, k) <= self.open_below(s, k),
        decreases k,
    {
        if k > 0 {
            self.lemma_relaxed_open(r, s, k - 1);
            let i = k - 1;
            assert(pointer_le(r.pointers[i], s.pointers[i]));
            if r.pointers[i] is Some {
                lemma_units_upto_monotone(
                    self.demands[i],
                    r.pointers[i]->Some_0 as int,
                    s.pointers[i]->Some_0 as int,
                );
            }
        }
    }

    /// Producing an item closes one of its units and leaves the others'
    /// alone.
    pub proof fn lemma_step_open(self, s: StateModel, item: usize, k: int)
        requires
            self.wf(),
            self.valid_state(s),
            self.in_domain(s, Decision::Produce(item)),
            0 <= k <= self.n_items,
        ensures
            self.open_below(self.step(s, Decision::Produce(item)), k) + (if item < k {
                1int
            } else {
                0int
            }) == self.open_below(s, k),
        decreases k,
    {
        if k > 0 {
            self.lemma_step_open(s, item, k - 1);
            let i = k - 1;
            if i == item {
                let p = s.pointers[i]->Some_0;
                lemma_latest_upto(self.demands[i], p - 1);
                assert(self.demands[i][p as int] <= 1);
            }
        }
    }

    /// The cheapest completion costs no more than the one through any of
    /// the candidates tried.
    pub proof fn lemma_best_among_le(self, s: StateModel, k: int, j: int)
        requires
            s.time < self.horizon,
            0 <= j <= k,
        ensures
            cost_le(self.best_among(s, k), self.cost_through(s, candidate(j))),
        decreases k,
    {
        if j < k {
            self.lemma_best_among_le(s, k - 1, j);
        }
    }

    /// The cheapest completion is the one through one of the candidates
    /// tried.
    pub proof fn lemma_best_among_attained(self, s: StateModel, k: int) -> (j: int)
        requires
            s.time < self.horizon,
            self.best_among(s, k) is Some,
        ensures
            0 <= j <= k,
            self.best_among(s, k) == self.cost_through(s, candidate(j)),
        decreases k + 1,
    {
        if k < 0 {
            0
        } else if self.best_among(s, k) == self.cost_through(s, candidate(k)) {
            k
        } else {
            self.lemma_best_among_attained(s, k - 1)
        }
    }

    /// Where no candidate up to `k` leads to a completion, there is none.
    pub proof fn lemma_best_among_none(self, s: StateModel, k: int)
        requires
            s.time < self.horizon,
            forall|j: int| 0 <= j <= k ==> self.cost_through(s, #[trigger] candidate(j)) is None,
        ensures
            self.best_among(s, k) is None,
        decreases k + 1,
    {
        if k >= 0 {
            self.lemma_best_among_none(s, k - 1);
            assert(self.cost_through(s, candidate(k)) is None);
        }
    }

    /// The initial state has open what is due by the end of the horizon, so
    /// that where every deadline can be kept, its open units fit in the
    /// horizon.
    pub proof fn lemma_initial_feasible(self)
        requires
            self.wf(),
            self.feasible(),
        ensures
            self.feasible_state(self.initial()),
    {
        self.lemma_initial_open(self.n_items as int);
        assert(self.due_by(self.horizon - 1) <= self.horizon);
    }

    /// The initial state has open what is due by the end of the horizon,
    /// counted over the items below `k`.
    proof fn lemma_initial_open(self, k: int)
        requires
            self.wf(),
            0 <= k <= self.n_items,
        ensures
            self.open_below(self.initial(), k) == self.due_below(k, self.horizon - 1),
        decreases k,
    {
        if k > 0 {
            self.lemma_initial_open(k - 1);
            lemma_latest_upto(self.demands[k - 1], self.horizon - 1);
        }
    }

    /// In a problem whose deadlines can all be kept, a state whose open
    /// units fit in the periods left can be completed. With the lemma
    /// before, such a problem has a plan.
    pub proof fn lemma_feasible_completes(self, s: StateModel)
        requires
            self.wf(),
            self.feasible(),
            self.valid_state(s),
            self.feasible_state(s),
        ensures
            self.best(s) is Some,
        decreases self.horizon - s.time,
    {
        if s.time >= self.horizon {
            self.lemma_terminal_complete(s);
        } else {
            self.lemma_domain_nonempty(s);
            let d = choose|d: Decision| self.in_domain(s, d);
            self.lemma_step_valid(s, d);
            self.lemma_step_feasible(s, d);
            self.lemma_feasible_completes(self.step(s, d));
            let k: int = match d {
                Decision::Idle => 0,
                Decision::Produce(i) => i + 1,
            };
            assert(candidate(k) == d);
            self.lemma_best_among_le(s, self.n_items as int, k);
        }
    }

    /// Every demand up to the period that `s` decides is still open.
    pub open spec fn untouched(self, s: StateModel) -> bool {
        forall|i: int|
            0 <= i < self.n_items ==> pointer_le(
                latest_upto(self.demands[i], self.slot(s)),
                #[trigger] s.pointers[i],
            )
    }

    /// A state in which every demand up to period `t` is open has at least
    /// as many units open as are due by `t`, counted over the items below
    /// `k`.
    proof fn lemma_untouched_open(self, s: StateModel, t: int, k: int)
        requires
            self.wf(),
            self.valid_state(s),
            -1 <= t < self.horizon,
            forall|i: int|
                0 <= i < self.n_items ==> pointer_le(
                    latest_upto(self.demands[i], t),
                    #[trigger] s.pointers[i],
                ),
            0 <= k <= self.n_items,
        ensures
            self.due_below(k, t) <= self.open_below(s, k),
        decreases k,
    {
        if k > 0 {
            self.lemma_untouched_open(s, t, k - 1);
            let i = k - 1;
            lemma_latest_upto(self.demands[i], t);
            assert(pointer_le(latest_upto(self.demands[i], t), s.pointers[i]));
            if latest_upto(self.demands[i], t) is Some {
                lemma_units_upto_monotone(
                    self.demands[i],
                    latest_upto(self.demands[i], t)->Some_0 as int,
                    s.pointers[i]->Some_0 as int,
                );
            }
        }
    }

    /// A state in which every demand up to the period decided is open
    /// cannot be completed if more units are due by some period `t` up to
    /// it than there are periods up to `t`.
    pub proof fn lemma_overdue_never_completes(self, s: StateModel, t: int)
        requires
            self.wf(),
            self.valid_state(s),
            self.untouched(s),
            0 <= t <= self.slot(s),
            self.due_by(t) > t + 1,
        ensures
            self.best(s) is None,
        decreases self.horizon - s.time,
    {
        let n = self.n_items as int;
        assert forall|j: int| 0 <= j <= n implies self.cost_through(s, #[trigger] candidate(j)) is None by {
            let d = candidate(j);
            if self.in_domain(s, d) {
                if self.slot(s) == t {
                    self.lemma_untouched_open(s, t, n);
                } else {
                    let after = self.step(s, d);
                    self.lemma_step_valid(s, d);
                    assert forall|i: int| 0 <= i < self.n_items implies pointer_le(
                        latest_upto(self.demands[i], self.slot(after)),
                        #[trigger] after.pointers[i],
                    ) by {
                        assert(pointer_le(latest_upto(self.demands[i], self.slot(s)), s.pointers[i]));
                        lemma_latest_upto(self.demands[i], self.slot(s));
                        lemma_latest_upto(self.demands[i], self.slot(after));
                        if d is Produce && d->Produce_0 == i {
                            let p = s.pointers[i]->Some_0;
                            lemma_latest_upto(self.demands[i], p - 1);
                        }
                    }
                    self.lemma_overdue_never_completes(after, t);
                }
            }
        }
        self.lemma_best_among_none(s, n);
    }

    /// A problem in which some deadline cannot be kept has no plan.
    pub proof fn lemma_infeasible_has_no_plan(self)
        requires
            self.wf(),
            !self.feasible(),
        ensures
            self.best(self.initial()) is None,
    {
        let t = choose|t: int| 0 <= t < self.horizon && !(#[trigger] self.due_by(t) <= t + 1);
        self.lemma_initial_valid();
        assert forall|i: int| 0 <= i < self.n_items implies pointer_le(
            latest_upto(self.demands[i], self.slot(self.initial())),
            #[trigger] self.initial().pointers[i],
        ) by {}
        self.lemma_overdue_never_completes(self.initial(), t);
    }

    /// A state costs no more to complete than any state that it relaxes.
    pub proof fn lemma_relaxed_best(self, r: StateModel, s: StateModel)
        requires
            self.wf(),
            self.valid_state(r),
            self.valid_state(s),
            relaxes(self, r, s),
        ensures
            cost_le(self.best(r), self.best(s)),
        decreases self.horizon - s.time,
    {
        let n = self.n_items as int;
        if s.time >= self.horizon {
            if self.complete(s) {
                assert forall|i: int| 0 <= i < self.n_items implies #[trigger] r.pointers[i] is None by {
                    assert(pointer_le(r.pointers[i], s.pointers[i]));
                }
            }
        } else if self.best(s) is Some {
            let j = self.lemma_best_among_attained(s, n);
            let d = candidate(j);
            let after = self.step(s, d);
            self.lemma_step_valid(s, d);
            self.lemma_relaxed_open(r, s, n);
            let keep = d matches Decision::Produce(i) && r.pointers[i as int] == s.pointers[i as int];
            let e = if keep {
                d
            } else {
                Decision::Idle
            };
            if d is Produce {
                let i = d->Produce_0;
                self.lemma_step_open(s, i, n);
                if !keep {
                    let p = s.pointers[i as int]->Some_0;
                    assert(pointer_le(r.pointers[i as int], s.pointers[i as int]));
                    lemma_latest_upto(self.demands[i as int], p - 1);
                    assert forall|c: int| 0 <= c < self.n_items implies pointer_le(
                        #[trigger] r.pointers[c],
                        after.pointers[c],
                    ) by {
                        assert(pointer_le(r.pointers[c], s.pointers[c]));
                    }
                    self.lemma_relaxed_open(r, after, n);
                }
            }
            assert(self.in_domain(r, e));
            let relaxed_after = self.step(r, e);
            self.lemma_step_valid(r, e);
            assert forall|c: int| 0 <= c < self.n_items implies pointer_le(
                #[trigger] relaxed_after.pointers[c],
                after.pointers[c],
            ) by {
                assert(pointer_le(r.pointers[c], s.pointers[c]));
                if d is Produce && c == d->Produce_0 {
                    let i = d->Produce_0;
                    let p = s.pointers[i as int]->Some_0;
                    lemma_latest_upto(self.demands[i as int], p - 1);
                }
            }
            assert(relaxes(self, relaxed_after, after));
            self.lemma_relaxed_best(relaxed_after, after);
            assert(self.step_cost(r, e) <= self.step_cost(s, d));
            let k: int = match e {
                Decision::Idle => 0,
                Decision::Produce(i) => i + 1,
            };
            assert(candidate(k) == e);
            self.lemma_best_among_le(r, n, k);
        }
    }

    /// A merged state costs no more to complete than any of the states that
    /// it was merged from, and so no more than the cheapest of them.
    pub proof fn lemma_merge_bound(self, merged: StateModel, states: Seq<StateModel>, j: int)
        requires
            self.wf(),
            0 <= j < states.len(),
            forall|c: int| 0 <= c < states.len() ==> self.valid_state(#[trigger] states[c]),
            forall|c: int| 0 <= c < states.len() ==> (#[trigger] states[c]).time == states[0].time,
            self.valid_state(merged),
            merged_from(self, merged, states),
        ensures
            cost_le(self.best(merged), self.best(states[j])),
    {
        assert forall|i: int| 0 <= i < self.n_items implies pointer_le(
            #[trigger] merged.pointers[i],
            states[j].pointers[i],
        ) by {}
        assert(relaxes(self, merged, states[j]));
        self.lemma_relaxed_best(merged, states[j]);
    }
}

} // verus!
