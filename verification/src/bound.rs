//! The cheapest way to complete a state, as a mathematical value and as a
//! computation that solves every state once.

use vstd::prelude::*;
use crate::model::Decision;
use crate::model::Psp;
use crate::model::PspModel;
use crate::model::PspState;
use crate::model::StateModel;

verus! {

/// The smaller of two costs, where none stands for a state that cannot be
/// completed.
pub open spec fn cost_min(x: Option<nat>, y: Option<nat>) -> Option<nat> {
    match (x, y) {
        (None, _) => y,
        (_, None) => x,
        (Some(a), Some(b)) => Some(
            if a <= b {
                a
            } else {
                b
            },
        ),
    }
}

/// One cost is no more than the other, where none is more than any number.
pub open spec fn cost_le(x: Option<nat>, y: Option<nat>) -> bool {
    match (x, y) {
        (_, None) => true,
        (None, Some(_)) => false,
        (Some(a), Some(b)) => a <= b,
    }
}

/// A cost and what comes after it, where none after it leaves none.
pub open spec fn cost_plus(x: nat, rest: Option<nat>) -> Option<nat> {
    match rest {
        Some(c) => Some(x + c),
        None => None,
    }
}

/// The decisions in the order in which they are tried: idling, then each
/// item.
pub open spec fn candidate(k: int) -> Decision {
    if k == 0 {
        Decision::Idle
    } else {
        Decision::Produce((k - 1) as usize)
    }
}

impl PspModel {
    /// The cost of completing `s` by deciding `d` first and going on in the
    /// cheapest way, or none if `d` is not admissible or leads nowhere.
    pub open spec fn cost_through(self, s: StateModel, d: Decision) -> Option<nat>
        decreases self.horizon - s.time, 0int,
    {
        if s.time < self.horizon && self.in_domain(s, d) {
            match self.best_among(self.step(s, d), self.n_items as int) {
                Some(c) => Some(self.step_cost(s, d) + c),
                None => None,
            }
        } else {
            None
        }
    }

    /// The least cost of completing `s` with one of the first `k + 1`
    /// candidates as the first decision. A state that has planned every
    /// period costs nothing more if no demand is open, and cannot be
    /// completed otherwise.
    pub open spec fn best_among(self, s: StateModel, k: int) -> Option<nat>
        decreases self.horizon - s.time, k + 2,
    {
        if s.time >= self.horizon {
            if self.complete(s) {
                Some(0)
            } else {
                None
            }
        } else if k < 0 {
            None
        } else {
            cost_min(self.best_among(s, k - 1), self.cost_through(s, candidate(k)))
        }
    }

    /// The least cost of completing `s`, or none if it cannot be completed.
    pub open spec fn best(self, s: StateModel) -> Option<nat> {
        self.best_among(s, self.n_items as int)
    }
}

/// What the cheapest completion of a state costs.
#[derive(Clone, Copy, Debug, PartialEq, Eq, Structural)]
pub enum Bound {
    /// The state cannot be completed.
    NoCompletion,
    /// The cheapest completion costs this much.
    Cost(u128),
    /// The cheapest completion costs more than a `u128` can hold.
    Beyond,
}

/// A cost as a bound.
pub open spec fn bound_of(cost: Option<nat>) -> Bound {
    match cost {
        None => Bound::NoCompletion,
        Some(c) => if c <= u128::MAX {
            Bound::Cost(c as u128)
        } else {
            Bound::Beyond
        },
    }
}

/// One bound is no more than the other: a cost is less than a cost beyond
/// reckoning, and that is less than no completion at all.
pub open spec fn bound_le(x: Bound, y: Bound) -> bool {
    match (x, y) {
        (Bound::Cost(a), Bound::Cost(b)) => a <= b,
        (Bound::Cost(_), _) => true,
        (Bound::Beyond, Bound::Cost(_)) => false,
        (Bound::Beyond, _) => true,
        (Bound::NoCompletion, Bound::NoCompletion) => true,
        (Bound::NoCompletion, _) => false,
    }
}

/// Costs in their order are bounds in their order.
pub proof fn lemma_bound_le(x: Option<nat>, y: Option<nat>)
    requires
        cost_le(x, y),
    ensures
        bound_le(bound_of(x), bound_of(y)),
{
}

/// A cost as the value that a maximizing search holds for it: the cost
/// negated, and the least value but one for every cost that a value cannot
/// hold.
pub open spec fn value_model(cost: nat) -> int {
    if cost <= isize::MAX {
        -(cost as int)
    } else {
        -(isize::MAX as int)
    }
}

/// A bound as the value that a maximizing search holds for it: the value of
/// its cost, and the least value where the cost is beyond reckoning or
/// there is no completion.
pub open spec fn bound_value_model(b: Bound) -> int {
    match b {
        Bound::Cost(c) => value_model(c as nat),
        _ => isize::MIN as int,
    }
}

/// The value of a cost.
pub fn value_of(cost: u128) -> (v: isize)
    ensures
        v == value_model(cost as nat),
{
    if cost <= isize::MAX as u128 {
        -(cost as isize)
    } else {
        -isize::MAX
    }
}

/// The value of a bound.
pub fn bound_value(b: Bound) -> (v: isize)
    ensures
        v == bound_value_model(b),
{
    match b {
        Bound::Cost(c) => value_of(c),
        _ => isize::MIN,
    }
}

/// Every state in the list stands with the cost of its cheapest
/// completion.
pub open spec fn all_solved(problem: PspModel, solved: Seq<(PspState, Bound)>) -> bool {
    forall|j: int|
        0 <= j < solved.len() ==> (#[trigger] solved[j]).1 == bound_of(problem.best(solved[j].0@))
}

/// Tells whether two states are the same.
pub fn same_state(a: &PspState, b: &PspState) -> (same: bool)
    ensures
        same == (a@ == b@),
{
    if a.time != b.time || a.pred != b.pred || a.prev_demands.len() != b.prev_demands.len() {
        return false;
    }
    let mut i: usize = 0;
    while i < a.prev_demands.len()
        invariant
            a.prev_demands@.len() == b.prev_demands@.len(),
            i <= a.prev_demands@.len(),
            forall|j: int| 0 <= j < i ==> a.prev_demands@[j] == b.prev_demands@[j],
        decreases a.prev_demands@.len() - i,
    {
        let alike = match (a.prev_demands[i], b.prev_demands[i]) {
            (None, None) => true,
            (Some(p), Some(q)) => p == q,
            _ => false,
        };
        if !alike {
            assert(a@.pointers[i as int] != b@.pointers[i as int]);
            return false;
        }
        i += 1;
    }
    assert(a@.pointers =~= b@.pointers);
    true
}

/// A copy of a state.
pub fn copy_state(s: &PspState) -> (copy: PspState)
    ensures
        copy@ == s@,
{
    let mut pointers: Vec<Option<usize>> = Vec::new();
    let mut i: usize = 0;
    while i < s.prev_demands.len()
        invariant
            i <= s.prev_demands@.len(),
            pointers@ == s.prev_demands@.subrange(0, i as int),
        decreases s.prev_demands@.len() - i,
    {
        pointers.push(s.prev_demands[i]);
        assert(pointers@ =~= s.prev_demands@.subrange(0, i + 1));
        i += 1;
    }
    assert(pointers@ =~= s.prev_demands@);
    PspState { time: s.time, pred: s.pred, prev_demands: pointers }
}

impl Psp {
    /// Tells whether no demand is open in `s`.
    pub fn is_complete(&self, s: &PspState) -> (b: bool)
        requires
            self.wf(),
            self@.valid_state(s@),
        ensures
            b == self@.complete(s@),
    {
        let mut i: usize = 0;
        while i < self.n_items
            invariant
                self@.valid_state(s@),
                i <= self.n_items,
                forall|j: int| 0 <= j < i ==> #[trigger] s@.pointers[j] is None,
            decreases self.n_items - i,
        {
            if s.prev_demands[i].is_some() {
                return false;
            }
            i += 1;
        }
        true
    }

    /// The cost of completing `s` through `d`, given the number of open
    /// units in `s` and the states already solved.
    fn completion_through(&self, s: &PspState, d: Decision, units: u128, solved: &mut Vec<(PspState, Bound)>) -> (b: Bound)
        requires
            self.wf(),
            self@.valid_state(s@),
            s.time < self.horizon,
            units == self@.remaining(s@),
            all_solved(self@, old(solved)@),
        ensures
            b == bound_of(self@.cost_through(s@, d)),
            all_solved(self@, final(solved)@),
        decreases self.horizon - s.time, 0int,
    {
        let left: usize = self.horizon - s.time;
        let admissible = match d {
            Decision::Idle => units < left as u128,
            Decision::Produce(i) => i < self.n_items && units <= left as u128 && match s.prev_demands[i] {
                Some(p) => p >= left - 1,
                None => false,
            },
        };
        if !admissible {
            return Bound::NoCompletion;
        }
        let step = self.transition_cost(s, d);
        let next = self.transition(s, d);
        match self.solve_from(&next, solved) {
            Bound::NoCompletion => Bound::NoCompletion,
            Bound::Beyond => Bound::Beyond,
            Bound::Cost(c) => match step.checked_add(c) {
                Some(total) => Bound::Cost(total),
                None => Bound::Beyond,
            },
        }
    }

    /// The cost of the cheapest completion of `s`, looked up among the
    /// states already solved or found by trying every admissible decision,
    /// and then kept with them.
    fn solve_from(&self, s: &PspState, solved: &mut Vec<(PspState, Bound)>) -> (b: Bound)
        requires
            self.wf(),
            self@.valid_state(s@),
            all_solved(self@, old(solved)@),
        ensures
            b == bound_of(self@.best(s@)),
            all_solved(self@, final(solved)@),
        decreases self.horizon - s.time, 1int,
    {
        if s.time >= self.horizon {
            return if self.is_complete(s) {
                Bound::Cost(0)
            } else {
                Bound::NoCompletion
            };
        }
        let mut j: usize = 0;
        while j < solved.len()
            invariant
                all_solved(self@, solved@),
                *solved == *old(solved),
            decreases solved@.len() - j,
        {
            if same_state(&solved[j].0, s) {
                return solved[j].1;
            }
            j += 1;
        }
        let units = self.remaining_units(s);
        let mut best = self.completion_through(s, Decision::Idle, units, solved);
        proof {
            assert(self@.best_among(s@, -1) is None);
            assert(candidate(0) == Decision::Idle);
            assert(self@.best_among(s@, 0) == self@.cost_through(s@, Decision::Idle));
        }
        let mut i: usize = 0;
        while i < self.n_items
            invariant
                self.wf(),
                self@.valid_state(s@),
                s.time < self.horizon,
                units == self@.remaining(s@),
                i <= self.n_items,
                best == bound_of(self@.best_among(s@, i as int)),
                all_solved(self@, solved@),
            decreases self.n_items - i,
        {
            let through = self.completion_through(s, Decision::Produce(i), units, solved);
            assert(candidate(i + 1) == Decision::Produce(i));
            best = match (best, through) {
                (Bound::NoCompletion, other) => other,
                (other, Bound::NoCompletion) => other,
                (Bound::Beyond, other) => other,
                (other, Bound::Beyond) => other,
                (Bound::Cost(x), Bound::Cost(y)) => Bound::Cost(
                    if x <= y {
                        x
                    } else {
                        y
                    },
                ),
            };
            i += 1;
        }
        let kept = copy_state(s);
        solved.push((kept, best));
        best
    }

    /// The cost of the cheapest completion of `s`. Every state that follows
    /// `s` is solved once: what was found for it is kept until the end of
    /// the call.
    pub fn best_completion(&self, s: &PspState) -> (b: Bound)
        requires
            self.wf(),
            self@.valid_state(s@),
        ensures
            b == bound_of(self@.best(s@)),
    {
        let mut solved: Vec<(PspState, Bound)> = Vec::new();
        self.solve_from(s, &mut solved)
    }
}

} // verus!
