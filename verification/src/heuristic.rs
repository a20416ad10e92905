//! The order in which a state's decisions are tried, read off the
//! compressed problem: the decision that the meta-problem completes most
//! cheaply comes first. The order drops no decision.

use vstd::prelude::*;
use crate::bound::bound_le;
use crate::bound::bound_of;
use crate::bound::Bound;
use crate::compression::project;
use crate::compression::projection_gap;
use crate::compression::PspCompression;
use crate::error::PspError;
use crate::model::Decision;
use crate::model::PspModel;
use crate::model::PspState;
use crate::model::StateModel;

verus! {

/// What deciding `d` in `s` costs at the least, as the meta-problem sees
/// it: the cost of the decision itself, and of the cheapest completion of
/// the projected successor in the meta-problem.
pub open spec fn decision_score(
    problem: PspModel,
    meta: PspModel,
    membership: Seq<usize>,
    s: StateModel,
    d: Decision,
) -> Bound {
    match meta.best(project(problem, meta, membership, problem.step(s, d))) {
        Some(c) => bound_of(Some(problem.step_cost(s, d) + c)),
        None => Bound::NoCompletion,
    }
}

/// The state that follows `s` under `d` has no gap in its projection.
pub open spec fn projects_after(
    problem: PspModel,
    meta: PspModel,
    membership: Seq<usize>,
    s: StateModel,
    d: Decision,
) -> bool {
    forall|a: int|
        0 <= a < meta.n_items ==> !projection_gap(problem, meta, membership, problem.step(s, d), a)
}

/// The ordering of decisions by a compression.
pub struct PspHeuristic<'a> {
    pub compression: &'a PspCompression<'a>,
}

impl<'a> PspHeuristic<'a> {
    /// The heuristic that reads `compression`.
    pub fn new(compression: &'a PspCompression<'a>) -> (heuristic: Self)
        ensures
            heuristic.compression == compression,
    {
        PspHeuristic { compression }
    }

    /// The score of one decision.
    pub fn score(&self, state: &PspState, d: Decision) -> (res: Result<Bound, PspError>)
        requires
            self.compression.wf(),
            self.compression.problem@.valid_state(state@),
            self.compression.problem@.in_domain(state@, d),
        ensures
            res is Ok <==> projects_after(
                self.compression.problem@,
                self.compression.meta_problem@,
                self.compression.clusters(),
                state@,
                d,
            ),
            self.compression.problem@.feasible() ==> res is Ok,
            res matches Ok(b) ==> b == decision_score(
                self.compression.problem@,
                self.compression.meta_problem@,
                self.compression.clusters(),
                state@,
                d,
            ),
            res matches Err(e) ==> e is ProjectionGap,
    {
        let c = self.compression;
        let step = c.problem.transition_cost(state, d);
        let next = c.problem.transition(state, d);
        match c.compress(&next) {
            Err(e) => Err(e),
            Ok(projected) => match c.meta_problem.best_completion(&projected) {
                Bound::NoCompletion => Ok(Bound::NoCompletion),
                Bound::Beyond => Ok(Bound::Beyond),
                Bound::Cost(rest) => match step.checked_add(rest) {
                    Some(total) => Ok(Bound::Cost(total)),
                    None => Ok(Bound::Beyond),
                },
            },
        }
    }

    /// The decisions of `decisions`, each as often as it occurs there, in
    /// the order of their scores, cheapest first. A gap in the projection of
    /// a successor is reported.
    pub fn order(&self, state: &PspState, decisions: &Vec<Decision>) -> (res: Result<
        Vec<Decision>,
        PspError,
    >)
        requires
            self.compression.wf(),
            self.compression.problem@.valid_state(state@),
            forall|i: int|
                0 <= i < decisions@.len() ==> self.compression.problem@.in_domain(
                    state@,
                    #[trigger] decisions@[i],
                ),
        ensures
            res is Ok <==> forall|i: int|
                0 <= i < decisions@.len() ==> projects_after(
                    self.compression.problem@,
                    self.compression.meta_problem@,
                    self.compression.clusters(),
                    state@,
                    #[trigger] decisions@[i],
                ),
            self.compression.problem@.feasible() ==> res is Ok,
            res matches Ok(ordered) ==> ordered@.to_multiset() == decisions@.to_multiset()
                && forall|i: int, j: int|
                0 <= i <= j < ordered@.len() ==> bound_le(
                    decision_score(
                        self.compression.problem@,
                        self.compression.meta_problem@,
                        self.compression.clusters(),
                        state@,
                        #[trigger] ordered@[i],
                    ),
                    decision_score(
                        self.compression.problem@,
                        self.compression.meta_problem@,
                        self.compression.clusters(),
                        state@,
                        #[trigger] ordered@[j],
                    ),
                ),
            res matches Err(e) ==> e is ProjectionGap,
    {
        broadcast use vstd::seq_lib::group_to_multiset_ensures;

        let ghost problem = self.compression.problem@;
        let ghost meta = self.compression.meta_problem@;
        let ghost membership = self.compression.clusters();
        let mut rest: Vec<Decision> = Vec::new();
        let mut scores: Vec<Bound> = Vec::new();
        let mut i: usize = 0;
        while i < decisions.len()
            invariant
                self.compression.wf(),
                problem == self.compression.problem@,
                meta == self.compression.meta_problem@,
                membership == self.compression.clusters(),
                problem.valid_state(state@),
                forall|c: int|
                    0 <= c < decisions@.len() ==> problem.in_domain(state@, #[trigger] decisions@[c]),
                i <= decisions@.len(),
                rest@ == decisions@.subrange(0, i as int),
                scores@.len() == i,
                forall|c: int|
                    0 <= c < i ==> projects_after(problem, meta, membership, state@, #[trigger] decisions@[c]),
                forall|c: int|
                    0 <= c < i ==> #[trigger] scores@[c] == decision_score(
                        problem,
                        meta,
                        membership,
                        state@,
                        decisions@[c],
                    ),
            decreases decisions@.len() - i,
        {
            let d = decisions[i];
            match self.score(state, d) {
                Err(e) => {
                    return Err(e);
                },
                Ok(b) => {
                    rest.push(d);
                    scores.push(b);
                    assert(rest@ =~= decisions@.subrange(0, i + 1));
                },
            }
            i += 1;
        }
        assert(rest@ =~= decisions@);
        let mut ordered: Vec<Decision> = Vec::new();
        while rest.len() > 0
            invariant
                rest@.len() == scores@.len(),
                forall|c: int|
                    0 <= c < rest@.len() ==> #[trigger] scores@[c] == decision_score(
                        problem,
                        meta,
                        membership,
                        state@,
                        rest@[c],
                    ),
                ordered@.to_multiset().add(rest@.to_multiset()) == decisions@.to_multiset(),
                forall|c: int, e: int|
                    0 <= c <= e < ordered@.len() ==> bound_le(
                        decision_score(problem, meta, membership, state@, #[trigger] ordered@[c]),
                        decision_score(problem, meta, membership, state@, #[trigger] ordered@[e]),
                    ),
                forall|c: int, e: int|
                    0 <= c < ordered@.len() && 0 <= e < rest@.len() ==> bound_le(
                        decision_score(problem, meta, membership, state@, #[trigger] ordered@[c]),
                        decision_score(problem, meta, membership, state@, #[trigger] rest@[e]),
                    ),
            decreases rest@.len(),
        {
            let mut least: usize = 0;
            let mut j: usize = 1;
            while j < rest.len()
                invariant
                    rest@.len() == scores@.len(),
                    least < j <= rest@.len(),
                    forall|c: int| 0 <= c < j ==> bound_le(scores@[least as int], #[trigger] scores@[c]),
                decreases rest@.len() - j,
            {
                let smaller = match (scores[j], scores[least]) {
                    (Bound::Cost(a), Bound::Cost(b)) => a < b,
                    (Bound::Cost(_), _) => true,
                    (Bound::Beyond, Bound::NoCompletion) => true,
                    _ => false,
                };
                if smaller {
                    least = j;
                }
                j += 1;
            }
            let ghost before_rest = rest@;
            let ghost before_scores = scores@;
            let ghost before_ordered = ordered@;
            let d = rest.remove(least);
            let _ = scores.remove(least);
            ordered.push(d);
            proof {
                before_rest.to_multiset_ensures();
                assert(before_rest[least as int] == d);
                assert(before_rest.contains(d));
                assert(before_rest.to_multiset().count(d) > 0);
                vstd::seq_lib::to_multiset_remove(before_rest, least as int);
                vstd::seq_lib::to_multiset_build(before_ordered, d);
                assert(rest@.to_multiset() =~= before_rest.to_multiset().remove(d));
                assert(ordered@.to_multiset() =~= before_ordered.to_multiset().insert(d));
                assert(ordered@.to_multiset().add(rest@.to_multiset()) =~= before_ordered.to_multiset().add(
                    before_rest.to_multiset(),
                ));
                assert forall|c: int, e: int|
                    0 <= c < ordered@.len() && 0 <= e < rest@.len() implies bound_le(
                    decision_score(problem, meta, membership, state@, #[trigger] ordered@[c]),
                    decision_score(problem, meta, membership, state@, #[trigger] rest@[e]),
                ) by {
                    let from = if e < least {
                        e
                    } else {
                        e + 1
                    };
                    assert(rest@[e] == before_rest[from]);
                    if c < before_ordered.len() {
                        assert(ordered@[c] == before_ordered[c]);
                    } else {
                        assert(ordered@[c] == before_rest[least as int]);
                        assert(bound_le(before_scores[least as int], before_scores[from]));
                    }
                }
                assert forall|c: int, e: int| 0 <= c <= e < ordered@.len() implies bound_le(
                    decision_score(problem, meta, membership, state@, #[trigger] ordered@[c]),
                    decision_score(problem, meta, membership, state@, #[trigger] ordered@[e]),
                ) by {
                    if e < before_ordered.len() {
                        assert(ordered@[c] == before_ordered[c]);
                        assert(ordered@[e] == before_ordered[e]);
                    } else if c < before_ordered.len() {
                        assert(ordered@[c] == before_ordered[c]);
                        assert(ordered@[e] == before_rest[least as int]);
                    }
                }
            }
        }
        proof {
            assert(rest@ =~= Seq::<Decision>::empty());
            assert(ordered@.to_multiset() =~= decisions@.to_multiset());
        }
        Ok(ordered)
    }
}

} // verus!
