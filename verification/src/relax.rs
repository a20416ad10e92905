//! The relaxation: how several states become one without losing a cheaper
//! completion, so that a diagram of bounded width still yields a valid bound.

use vstd::prelude::*;
use crate::bound::bound_le;
use crate::bound::bound_of;
use crate::bound::lemma_bound_le;
use crate::bound::cost_le;
use crate::bound::cost_plus;
use crate::bound::Bound;
use crate::compression::project;
use crate::compression::projection_gap;
use crate::compression::PspCompression;
use crate::error::PspError;
use crate::model::Decision;
use crate::model::Predecessor;
use crate::model::Psp;
use crate::model::PspModel;
use crate::model::PspState;
use crate::model::StateModel;
use crate::soundness::relaxes;
use crate::validity::lemma_compressed_bound;
use crate::validity::on_track;

verus! {

/// One pointer leaves no more open than the other: it is none, or both
/// stand on a demand and the first is no later.
pub open spec fn pointer_le(x: Option<usize>, y: Option<usize>) -> bool {
    match (x, y) {
        (None, _) => true,
        (Some(_), None) => false,
        (Some(p), Some(q)) => p <= q,
    }
}

/// `m` stands for `states`: it has planned as much as they have, it does
/// not know its predecessor, and each of its pointers is the least that any
/// of them has for that item.
pub open spec fn merged_from(problem: PspModel, m: StateModel, states: Seq<StateModel>) -> bool {
    &&& m.time == states[0].time
    &&& m.pred == Predecessor::Unknown
    &&& m.pointers.len() == problem.n_items
    &&& forall|i: int, j: int|
        0 <= i < problem.n_items && 0 <= j < states.len() ==> pointer_le(
            #[trigger] m.pointers[i],
            #[trigger] states[j].pointers[i],
        )
    &&& forall|i: int|
        0 <= i < problem.n_items ==> exists|j: int|
            0 <= j < states.len() && #[trigger] m.pointers[i] == (#[trigger] states[j]).pointers[i]
}

/// The states of a list, each as a mathematical value.
pub open spec fn state_models(states: Vec<PspState>) -> Seq<StateModel> {
    Seq::new(states@.len(), |j: int| states@[j]@)
}

/// The relaxation of a problem, with or without a compression of it to
/// bound what a state can still cost.
pub struct PspRelax<'a> {
    pub problem: &'a Psp,
    pub compression: Option<&'a PspCompression<'a>>,
}

impl<'a> PspRelax<'a> {
    /// The problem is a problem, and the compression, if there is one, is a
    /// compression of it.
    pub open spec fn wf(&self) -> bool {
        &&& self.problem.wf()
        &&& match self.compression {
            Some(c) => c.wf() && c.problem@ == self.problem@,
            None => true,
        }
    }

    /// The relaxation of `problem`, which bounds states by `compression` if
    /// one is given.
    pub fn new(problem: &'a Psp, compression: Option<&'a PspCompression<'a>>) -> (relax: Self)
        ensures
            *relax.problem == *problem,
            relax.compression == compression,
    {
        PspRelax { problem, compression }
    }

    /// An estimate of what completing `state` costs at the least. Without a
    /// compression nothing is known, and the estimate is zero. With one, it
    /// is what the cheapest completion of the projected state costs in the
    /// meta-problem; a gap in the projection is reported. In a problem whose
    /// deadlines can all be kept, the estimate is a bound for every state on
    /// track: no completion undercuts it. For a merged state, which need not
    /// be on track, the meta-problem's cost may lie above the state's own:
    /// merging can close units of two members of one meta-item at once.
    pub fn fast_upper_bound(&self, state: &PspState) -> (res: Result<Bound, PspError>)
        requires
            self.wf(),
            self.problem@.valid_state(state@),
        ensures
            self.problem@.feasible() ==> res is Ok,
            self.compression is None ==> res == Ok::<Bound, PspError>(Bound::Cost(0)),
            self.problem@.feasible() && (self.compression matches Some(c) ==> on_track(
                c.problem@,
                c.clusters(),
                c.meta_problem.n_items as nat,
                state@,
            )) ==> (res matches Ok(b) && bound_le(b, bound_of(self.problem@.best(state@)))),
            self.compression matches Some(c) ==> {
                &&& res is Ok <==> forall|a: int|
                    0 <= a < c.meta_problem.n_items ==> !projection_gap(
                        c.problem@,
                        c.meta_problem@,
                        c.clusters(),
                        state@,
                        a,
                    )
                &&& res matches Ok(b) ==> b == bound_of(
                    c.meta_problem@.best(
                        project(c.problem@, c.meta_problem@, c.clusters(), state@),
                    ),
                )
                &&& res matches Err(e) ==> (e matches PspError::ProjectionGap { meta_item, count }
                    && meta_item < c.meta_problem.n_items && projection_gap(
                    c.problem@,
                    c.meta_problem@,
                    c.clusters(),
                    state@,
                    meta_item as int,
                ))
            },
    {
        proof {
            if self.problem@.feasible() {
                match self.compression {
                    Some(c) => {
                        if on_track(c.problem@, c.clusters(), c.meta_problem.n_items as nat, state@) {
                            lemma_compressed_bound(
                                c.problem@,
                                c.clusters(),
                                c.meta_problem.n_items as nat,
                                state@,
                            );
                            lemma_bound_le(
                                c.meta_problem@.best(
                                    project(c.problem@, c.meta_problem@, c.clusters(), state@),
                                ),
                                self.problem@.best(state@),
                            );
                        }
                    },
                    None => {
                        lemma_bound_le(Some(0nat), self.problem@.best(state@));
                    },
                }
            }
        }
        match self.compression {
            None => Ok(Bound::Cost(0)),
            Some(c) => match c.compress(state) {
                Ok(projected) => Ok(c.meta_problem.best_completion(&projected)),
                Err(e) => Err(e),
            },
        }
    }

    /// A bound on what completing `state` costs, which holds of every state
    /// of a problem whose deadlines can all be kept: the meta-problem's cost
    /// of the projected state where the state is on track, and zero
    /// otherwise, as without a compression.
    pub fn checked_upper_bound(&self, state: &PspState) -> (bound: Bound)
        requires
            self.wf(),
            self.problem@.valid_state(state@),
        ensures
            bound == match self.compression {
                Some(c) => if on_track(
                    c.problem@,
                    c.clusters(),
                    c.meta_problem.n_items as nat,
                    state@,
                ) && forall|a: int|
                    0 <= a < c.meta_problem.n_items ==> !projection_gap(
                        c.problem@,
                        c.meta_problem@,
                        c.clusters(),
                        state@,
                        a,
                    ) {
                    bound_of(
                        c.meta_problem@.best(
                            project(c.problem@, c.meta_problem@, c.clusters(), state@),
                        ),
                    )
                } else {
                    Bound::Cost(0)
                },
                None => Bound::Cost(0),
            },
            self.problem@.feasible() ==> bound_le(bound, bound_of(self.problem@.best(state@))),
    {
        proof {
            lemma_bound_le(Some(0nat), self.problem@.best(state@));
        }
        match self.compression {
            None => Bound::Cost(0),
            Some(c) => {
                if c.on_track(state) {
                    match self.fast_upper_bound(state) {
                        Ok(bound) => bound,
                        Err(_) => Bound::Cost(0),
                    }
                } else {
                    Bound::Cost(0)
                }
            },
        }
    }

    /// Merges states that have planned the same number of periods into one
    /// that stands for all of them.
    pub fn merge(&self, states: &Vec<PspState>) -> (merged: PspState)
        requires
            self.problem.wf(),
            states@.len() >= 1,
            forall|j: int| 0 <= j < states@.len() ==> self.problem@.valid_state(#[trigger] states@[j]@),
            forall|j: int| 0 <= j < states@.len() ==> (#[trigger] states@[j]).time == states@[0].time,
        ensures
            merged_from(self.problem@, merged@, state_models(*states)),
            self.problem@.valid_state(merged@),
            forall|j: int|
                0 <= j < states@.len() ==> relaxes(self.problem@, merged@, #[trigger] states@[j]@),
            forall|j: int|
                0 <= j < states@.len() ==> cost_le(
                    self.problem@.best(merged@),
                    self.problem@.best(#[trigger] states@[j]@),
                ),
    {
        let n = self.problem.n_items;
        let mut pointers: Vec<Option<usize>> = Vec::new();
        let mut i: usize = 0;
        while i < n
            invariant
                self.problem.wf(),
                n == self.problem.n_items,
                states@.len() >= 1,
                forall|j: int|
                    0 <= j < states@.len() ==> self.problem@.valid_state(#[trigger] states@[j]@),
                i <= n,
                pointers@.len() == i,
                forall|c: int, j: int|
                    0 <= c < i && 0 <= j < states@.len() ==> pointer_le(
                        #[trigger] pointers@[c],
                        #[trigger] states@[j]@.pointers[c],
                    ),
                forall|c: int|
                    0 <= c < i ==> exists|j: int|
                        0 <= j < states@.len() && #[trigger] pointers@[c] == (
                        #[trigger] states@[j])@.pointers[c],
            decreases n - i,
        {
            assert(self.problem@.valid_state(states@[0]@));
            let mut least: Option<usize> = states[0].prev_demands[i];
            let mut j: usize = 1;
            while j < states.len()
                invariant
                    self.problem.wf(),
                    n == self.problem.n_items,
                    i < n,
                    forall|j: int|
                        0 <= j < states@.len() ==> self.problem@.valid_state(
                            #[trigger] states@[j]@,
                        ),
                    1 <= j <= states@.len(),
                    forall|c: int|
                        0 <= c < j ==> pointer_le(least, (#[trigger] states@[c])@.pointers[i as int]),
                    exists|c: int|
                        0 <= c < j && least == (#[trigger] states@[c])@.pointers[i as int],
                decreases states@.len() - j,
            {
                assert(self.problem@.valid_state(states@[j as int]@));
                let other = states[j].prev_demands[i];
                let ghost before = least;
                least = match (least, other) {
                    (None, _) => None,
                    (Some(_), None) => None,
                    (Some(p), Some(q)) => if q < p {
                        Some(q)
                    } else {
                        Some(p)
                    },
                };
                proof {
                    let w = choose|c: int|
                        0 <= c < j && before == (#[trigger] states@[c])@.pointers[i as int];
                    if least == before {
                        assert(0 <= w < j + 1 && least == states@[w]@.pointers[i as int]);
                    } else {
                        assert(least == states@[j as int]@.pointers[i as int]);
                    }
                    assert forall|c: int| 0 <= c < j + 1 implies pointer_le(
                        least,
                        (#[trigger] states@[c])@.pointers[i as int],
                    ) by {
                        if c < j {
                            assert(pointer_le(before, states@[c]@.pointers[i as int]));
                        }
                    }
                }
                j += 1;
            }
            let ghost before = pointers@;
            pointers.push(least);
            proof {
                assert forall|c: int, j: int|
                    0 <= c < i + 1 && 0 <= j < states@.len() implies pointer_le(
                    #[trigger] pointers@[c],
                    #[trigger] states@[j]@.pointers[c],
                ) by {
                    if c < i {
                        assert(pointers@[c] == before[c]);
                    }
                }
                assert forall|c: int| 0 <= c < i + 1 implies exists|j: int|
                    0 <= j < states@.len() && #[trigger] pointers@[c] == (
                    #[trigger] states@[j])@.pointers[c] by {
                    if c < i {
                        assert(pointers@[c] == before[c]);
                        let w = choose|j: int|
                            0 <= j < states@.len() && before[c] == (
                            #[trigger] states@[j])@.pointers[c];
                        assert(pointers@[c] == states@[w]@.pointers[c]);
                    } else {
                        let w = choose|j: int|
                            0 <= j < states@.len() && least == (
                            #[trigger] states@[j])@.pointers[i as int];
                        assert(pointers@[c] == states@[w]@.pointers[c]);
                    }
                }
            }
            i += 1;
        }
        let merged = PspState {
            time: states[0].time,
            pred: Predecessor::Unknown,
            prev_demands: pointers,
        };
        proof {
            let models = state_models(*states);
            assert(models[0] == states@[0]@);
            assert forall|c: int, j: int|
                0 <= c < n && 0 <= j < models.len() implies pointer_le(
                #[trigger] merged@.pointers[c],
                #[trigger] models[j].pointers[c],
            ) by {
                assert(pointer_le(pointers@[c], states@[j]@.pointers[c]));
            }
            assert forall|c: int| 0 <= c < n implies exists|j: int|
                0 <= j < models.len() && #[trigger] merged@.pointers[c] == (
                #[trigger] models[j]).pointers[c] by {
                let w = choose|j: int|
                    0 <= j < states@.len() && pointers@[c] == (#[trigger] states@[j])@.pointers[c];
                assert(models[w] == states@[w]@);
            }
            assert forall|c: int| 0 <= c < n implies match #[trigger] merged@.pointers[c] {
                Some(p) => p < self.problem.horizon && self.problem@.demands[c][p as int] > 0,
                None => true,
            } by {
                let w = choose|j: int|
                    0 <= j < states@.len() && pointers@[c] == (#[trigger] states@[j])@.pointers[c];
                assert(self.problem@.valid_state(states@[w]@));
            }
            assert(self.problem@.valid_state(states@[0]@));
            assert forall|j: int| 0 <= j < states@.len() implies relaxes(
                self.problem@,
                merged@,
                #[trigger] states@[j]@,
            ) by {
                assert(models[j] == states@[j]@);
                assert forall|i: int| 0 <= i < n implies pointer_le(
                    #[trigger] merged@.pointers[i],
                    states@[j]@.pointers[i],
                ) by {
                    assert(pointer_le(merged@.pointers[i], models[j].pointers[i]));
                }
            }
            assert forall|j: int| 0 <= j < states@.len() implies cost_le(
                self.problem@.best(merged@),
                self.problem@.best(#[trigger] states@[j]@),
            ) by {
                assert forall|c: int| 0 <= c < models.len() implies self.problem@.valid_state(
                    #[trigger] models[c],
                ) by {
                    assert(models[c] == states@[c]@);
                }
                assert forall|c: int| 0 <= c < models.len() implies (#[trigger] models[c]).time
                    == models[0].time by {
                    assert(models[c] == states@[c]@);
                    assert(states@[c].time == states@[0].time);
                }
                self.problem@.lemma_merge_bound(merged@, models, j);
                assert(models[j] == states@[j]@);
            }
        }
        merged
    }

    /// The cost of an edge that is led to a merged state: what the decision
    /// costs in the state that it leaves. Where the merged state relaxes the
    /// edge's own target, the edge and the cheapest completion of the merged
    /// state together cost no more than the decision and the cheapest
    /// completion of the target.
    pub fn relax(&self, source: &PspState, decision: Decision, merged: &PspState) -> (cost: u128)
        requires
            self.problem.wf(),
            self.problem@.valid_state(source@),
            self.problem@.in_domain(source@, decision),
        ensures
            cost == self.problem@.step_cost(source@, decision),
            self.problem@.valid_state(merged@) && relaxes(
                self.problem@,
                merged@,
                self.problem@.step(source@, decision),
            ) ==> cost_le(
                cost_plus(cost as nat, self.problem@.best(merged@)),
                self.problem@.cost_through(source@, decision),
            ),
    {
        proof {
            let target = self.problem@.step(source@, decision);
            if self.problem@.valid_state(merged@) && relaxes(self.problem@, merged@, target) {
                self.problem@.lemma_step_valid(source@, decision);
                self.problem@.lemma_relaxed_best(merged@, target);
            }
        }
        self.problem.transition_cost(source, decision)
    }
}

} // verus!
