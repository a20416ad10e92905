//! The dynamic-programming model: states, admissible decisions, transitions
//! and their exact cost.
//!
//! Planning runs from the last period of the horizon towards the first. A
//! state records how many periods have been planned (`time`), what was
//! decided for the period planned just before (`pred`), which is the period
//! that follows in time, and for every item the latest demand that is still
//! open. A state that has planned `time` periods decides the period
//! `horizon - 1 - time`. The changeover table is read in the order of time:
//! row for the item made first, column for the item made in the period
//! after.

use vstd::prelude::*;
use crate::demand::compute_prev_demands;
use crate::demand::compute_rem_demands;
use crate::demand::latest_upto;
use crate::demand::lemma_latest_upto;
use crate::demand::lemma_units_upto_bound;
use crate::demand::unit_row;
use crate::demand::units_upto;
use crate::error::PspError;
use crate::instance::PspInstance;

verus! {

/// What is decided for one period: to produce one unit of an item, or to
/// leave the resource idle.
#[derive(Clone, Copy, Debug, PartialEq, Eq, Hash, Structural)]
pub enum Decision {
    Idle,
    Produce(usize),
}

/// The order in which a state's decisions are listed: items by their
/// number, and idling last.
pub open spec fn listed_before(x: Decision, y: Decision) -> bool {
    match (x, y) {
        (Decision::Produce(a), Decision::Produce(b)) => a < b,
        (Decision::Produce(_), Decision::Idle) => true,
        (Decision::Idle, _) => false,
    }
}

/// What a state knows of the decision taken just before it, which is the
/// decision for the period that follows in time.
#[derive(Clone, Copy, Debug, PartialEq, Eq, Hash, Structural)]
pub enum Predecessor {
    /// Nothing was produced, or nothing has been decided yet.
    Idle,
    /// This item was produced.
    Item(usize),
    /// The state stands for several states that disagree.
    Unknown,
}

/// A state of the search.
#[derive(Clone, Debug, PartialEq, Eq, Hash)]
pub struct PspState {
    /// The number of periods planned so far.
    pub time: usize,
    /// The decision taken for the period planned just before, the one that
    /// follows in time.
    pub pred: Predecessor,
    /// For each item, the period of its latest open demand.
    pub prev_demands: Vec<Option<usize>>,
}

/// A state as a mathematical value.
pub struct StateModel {
    pub time: nat,
    pub pred: Predecessor,
    pub pointers: Seq<Option<usize>>,
}

impl View for PspState {
    type V = StateModel;

    open spec fn view(&self) -> StateModel {
        StateModel { time: self.time as nat, pred: self.pred, pointers: self.prev_demands@ }
    }
}

/// A problem as a mathematical value.
pub struct PspModel {
    pub n_items: nat,
    pub horizon: nat,
    pub stocking: Seq<usize>,
    pub changeover: Seq<Seq<usize>>,
    pub demands: Seq<Seq<usize>>,
}

/// The rows of a table, each as a sequence.
pub open spec fn rows(table: Vec<Vec<usize>>) -> Seq<Seq<usize>> {
    Seq::new(table@.len(), |i: int| table@[i]@)
}

impl PspModel {
    /// The tables have the declared shape, no item changes over to itself at
    /// a cost, and every demand is 0 or 1.
    pub open spec fn wf(self) -> bool {
        &&& 1 <= self.n_items <= usize::MAX
        &&& 1 <= self.horizon <= usize::MAX
        &&& self.stocking.len() == self.n_items
        &&& self.changeover.len() == self.n_items
        &&& self.demands.len() == self.n_items
        &&& forall|i: int| 0 <= i < self.n_items ==> (#[trigger] self.changeover[i]).len() == self.n_items
        &&& forall|i: int| 0 <= i < self.n_items ==> (#[trigger] self.changeover[i])[i] == 0
        &&& forall|i: int| 0 <= i < self.n_items ==> (#[trigger] self.demands[i]).len() == self.horizon
        &&& forall|i: int| 0 <= i < self.n_items ==> unit_row(#[trigger] self.demands[i])
    }

    /// The units of all items that are due in the periods `0..=t`, counted
    /// over the items below `k`.
    pub open spec fn due_below(self, k: int, t: int) -> nat
        decreases k,
    {
        if k <= 0 {
            0
        } else {
            self.due_below(k - 1, t) + units_upto(self.demands[k - 1], t)
        }
    }

    /// The units of all items that are due in the periods `0..=t`.
    pub open spec fn due_by(self, t: int) -> nat {
        self.due_below(self.n_items as int, t)
    }

    /// Each period's deadline can be kept: the units due by the end of a
    /// period never outnumber the periods up to it.
    pub open spec fn feasible(self) -> bool {
        forall|t: int| 0 <= t < self.horizon ==> #[trigger] self.due_by(t) <= t + 1
    }

    /// The state belongs to this problem: it has planned no more than the
    /// horizon, every pointer stands on a demand of its item, and the
    /// predecessor is an item of the problem if it is an item.
    pub open spec fn valid_state(self, s: StateModel) -> bool {
        &&& s.time <= self.horizon
        &&& s.pointers.len() == self.n_items
        &&& forall|i: int|
            0 <= i < self.n_items ==> match #[trigger] s.pointers[i] {
                Some(p) => p < self.horizon && self.demands[i][p as int] > 0,
                None => true,
            }
        &&& match s.pred {
            Predecessor::Item(j) => j < self.n_items,
            _ => true,
        }
    }

    /// The state from which planning starts.
    pub open spec fn initial(self) -> StateModel {
        StateModel {
            time: 0,
            pred: Predecessor::Idle,
            pointers: Seq::new(
                self.n_items,
                |i: int| latest_upto(self.demands[i], self.horizon - 1),
            ),
        }
    }

    /// The initial state belongs to the problem.
    pub proof fn lemma_initial_valid(self)
        requires
            self.wf(),
        ensures
            self.valid_state(self.initial()),
    {
        assert forall|i: int| 0 <= i < self.n_items implies match #[trigger] self.initial().pointers[i] {
            Some(p) => p < self.horizon && self.demands[i][p as int] > 0,
            None => true,
        } by {
            lemma_latest_upto(self.demands[i], self.horizon - 1);
        }
    }

    /// What follows a state of the problem under an admissible decision is a
    /// state of the problem.
    pub proof fn lemma_step_valid(self, s: StateModel, d: Decision)
        requires
            self.wf(),
            self.valid_state(s),
            self.in_domain(s, d),
        ensures
            self.valid_state(self.step(s, d)),
    {
        let next = self.step(s, d);
        assert forall|i: int| 0 <= i < self.n_items implies match #[trigger] next.pointers[i] {
            Some(p) => p < self.horizon && self.demands[i][p as int] > 0,
            None => true,
        } by {
            assert(s.pointers[i] is Some ==> s.pointers[i]->Some_0 < self.horizon);
            if d matches Decision::Produce(item) && item == i {
                lemma_latest_upto(self.demands[i], s.pointers[i]->Some_0 - 1);
            }
        }
    }

    /// An item has no more open units than the horizon has periods.
    pub proof fn lemma_open_units_bound(self, s: StateModel, i: int)
        requires
            self.wf(),
            self.valid_state(s),
            0 <= i < self.n_items,
        ensures
            self.open_units(s, i) <= self.horizon,
    {
        if s.pointers[i] is Some {
            lemma_units_upto_bound(self.demands[i], s.pointers[i]->Some_0 as int);
        }
    }

    /// The open units of item `i` in state `s`.
    pub open spec fn open_units(self, s: StateModel, i: int) -> nat {
        match s.pointers[i] {
            Some(p) => units_upto(self.demands[i], p as int),
            None => 0,
        }
    }

    /// The open units of the items below `k`.
    pub open spec fn open_below(self, s: StateModel, k: int) -> nat
        decreases k,
    {
        if k <= 0 {
            0
        } else {
            self.open_below(s, k - 1) + self.open_units(s, k - 1)
        }
    }

    /// The open units of all items.
    pub open spec fn remaining(self, s: StateModel) -> nat {
        self.open_below(s, self.n_items as int)
    }

    /// The periods that `s` has yet to plan.
    pub open spec fn periods_left(self, s: StateModel) -> int {
        self.horizon - s.time
    }

    /// The period that `s` decides.
    pub open spec fn slot(self, s: StateModel) -> int {
        self.horizon - 1 - s.time
    }

    /// The open units fit in the periods that are left.
    pub open spec fn feasible_state(self, s: StateModel) -> bool {
        self.remaining(s) <= self.periods_left(s)
    }

    /// All periods are planned.
    pub open spec fn terminal(self, s: StateModel) -> bool {
        s.time == self.horizon
    }

    /// No demand is open.
    pub open spec fn complete(self, s: StateModel) -> bool {
        forall|i: int| 0 <= i < self.n_items ==> #[trigger] s.pointers[i] is None
    }

    /// `d` may be decided in `s`: a period is left, the open units still fit
    /// in the periods that are left after it, and an item that is produced
    /// has an open demand no earlier than the period decided.
    pub open spec fn in_domain(self, s: StateModel, d: Decision) -> bool {
        &&& s.time < self.horizon
        &&& match d {
            Decision::Idle => self.remaining(s) < self.periods_left(s),
            Decision::Produce(i) => {
                &&& i < self.n_items
                &&& self.remaining(s) <= self.periods_left(s)
                &&& s.pointers[i as int] matches Some(p)
                &&& p >= self.slot(s)
            },
        }
    }

    /// The state that follows `s` under `d`: one more period is planned, `d`
    /// becomes the predecessor, and the item produced moves on to its demand
    /// before the one just met.
    pub open spec fn step(self, s: StateModel, d: Decision) -> StateModel {
        StateModel {
            time: s.time + 1,
            pred: match d {
                Decision::Idle => Predecessor::Idle,
                Decision::Produce(i) => Predecessor::Item(i),
            },
            pointers: match d {
                Decision::Idle => s.pointers,
                Decision::Produce(i) => s.pointers.update(
                    i as int,
                    latest_upto(self.demands[i as int], s.pointers[i as int]->Some_0 - 1),
                ),
            },
        }
    }

    /// The cost of changing over from the item produced to the item of the
    /// period after it: the entry of the changeover table in the row of the
    /// item produced and the column of the item that follows. Planning runs
    /// backwards, so the item that follows in time is the one that the state
    /// holds as decided just before. Nothing is paid when either side is
    /// idle, when the item does not change, or when what follows is unknown:
    /// it may have been idle, or the same item.
    pub open spec fn changeover_cost(self, pred: Predecessor, d: Decision) -> nat {
        match (pred, d) {
            (Predecessor::Item(j), Decision::Produce(i)) => if i == j {
                0
            } else {
                self.changeover[i as int][j as int] as nat
            },
            _ => 0,
        }
    }

    /// The cost of holding the unit produced until the demand that it meets.
    pub open spec fn stocking_cost(self, s: StateModel, d: Decision) -> nat {
        match d {
            Decision::Idle => 0,
            Decision::Produce(i) => (self.stocking[i as int] * (s.pointers[i as int]->Some_0
                - self.slot(s))) as nat,
        }
    }

    /// The cost of deciding `d` in `s`.
    pub open spec fn step_cost(self, s: StateModel, d: Decision) -> nat {
        self.changeover_cost(s.pred, d) + self.stocking_cost(s, d)
    }
}

/// A problem: the instance's tables and the demand index derived from them.
#[derive(Debug, Clone)]
pub struct Psp {
    pub n_items: usize,
    pub horizon: usize,
    pub stocking: Vec<usize>,
    pub changeover: Vec<Vec<usize>>,
    pub demands: Vec<Vec<usize>>,
    /// For each item and period, the latest period up to it with a demand.
    pub prev_demands: Vec<Vec<Option<usize>>>,
    /// For each item and period, the number of units due up to it.
    pub rem_demands: Vec<Vec<usize>>,
}

impl View for Psp {
    type V = PspModel;

    open spec fn view(&self) -> PspModel {
        PspModel {
            n_items: self.n_items as nat,
            horizon: self.horizon as nat,
            stocking: self.stocking@,
            changeover: rows(self.changeover),
            demands: rows(self.demands),
        }
    }
}

/// The problem that a record describes.
pub open spec fn instance_model(instance: PspInstance) -> PspModel {
    PspModel {
        n_items: instance.nb_types as nat,
        horizon: instance.nb_periods as nat,
        stocking: instance.stocking@,
        changeover: rows(instance.changeover),
        demands: rows(instance.demands),
    }
}

impl Psp {
    /// The tables describe a problem and the demand index agrees with them.
    pub open spec fn wf(&self) -> bool {
        &&& self@.wf()
        &&& self.prev_demands@.len() == self.n_items
        &&& self.rem_demands@.len() == self.n_items
        &&& forall|i: int|
            0 <= i < self.n_items ==> (#[trigger] self.prev_demands@[i])@.len() == self.horizon
        &&& forall|i: int|
            0 <= i < self.n_items ==> (#[trigger] self.rem_demands@[i])@.len() == self.horizon
        &&& forall|i: int, t: int|
            0 <= i < self.n_items && 0 <= t < self.horizon ==> #[trigger] self.prev_demands@[i]@[t]
                == latest_upto(self@.demands[i], t)
        &&& forall|i: int, t: int|
            0 <= i < self.n_items && 0 <= t < self.horizon ==> #[trigger] self.rem_demands@[i]@[t]
                == units_upto(self@.demands[i], t)
    }

    /// Builds the problem that `instance` describes, or says what is wrong
    /// with the record.
    pub fn new(instance: PspInstance) -> (res: Result<Psp, PspError>)
        ensures
            res is Ok <==> instance.well_formed(),
            res matches Ok(psp) ==> psp.wf() && psp@ == instance_model(instance),
            res matches Err(e) ==> (e matches PspError::MalformedInstance(d) && instance.has_defect(
                d,
            )),
    {
        match instance.check() {
            Err(e) => Err(e),
            Ok(()) => {
                assert forall|i: int| 0 <= i < instance.demands@.len() implies unit_row(
                    #[trigger] instance.demands@[i]@,
                ) by {
                    assert forall|t: int| 0 <= t < instance.demands@[i]@.len() implies
                        #[trigger] instance.demands@[i]@[t] <= 1 by {}
                }
                let prev_demands = compute_prev_demands(&instance.demands);
                let rem_demands = compute_rem_demands(&instance.demands);
                let psp = Psp {
                    n_items: instance.nb_types,
                    horizon: instance.nb_periods,
                    stocking: instance.stocking,
                    changeover: instance.changeover,
                    demands: instance.demands,
                    prev_demands,
                    rem_demands,
                };
                proof {
                    assert(psp@ == instance_model(instance));
                }
                Ok(psp)
            },
        }
    }

    /// Tells whether every deadline can be kept, which is to say whether the
    /// problem has a plan at all, and if not, names the first period by whose
    /// end more units are due than there are periods.
    pub fn check_feasible(&self) -> (res: Result<(), PspError>)
        requires
            self.wf(),
        ensures
            res is Ok <==> self@.feasible(),
            res is Ok <==> self@.best(self@.initial()) is Some,
            res matches Err(e) ==> (e matches PspError::InfeasibleInstance { period, units }
                && period < self.horizon
                && units == self@.due_by(period as int)
                && units > period + 1
                && forall|t: int| 0 <= t < period ==> #[trigger] self@.due_by(t) <= t + 1),
    {
        let mut t: usize = 0;
        while t < self.horizon
            invariant
                self.wf(),
                t <= self.horizon,
                forall|u: int| 0 <= u < t ==> #[trigger] self@.due_by(u) <= u + 1,
            decreases self.horizon - t,
        {
            let mut units: u128 = 0;
            let mut i: usize = 0;
            while i < self.n_items
                invariant
                    self.wf(),
                    t < self.horizon,
                    i <= self.n_items,
                    units == self@.due_below(i as int, t as int),
                    units <= i * self.horizon,
                decreases self.n_items - i,
            {
                proof {
                    lemma_units_upto_bound(self@.demands[i as int], t as int);
                    assert(i * self.horizon + self.horizon == (i + 1) * self.horizon)
                        by (nonlinear_arith);
                    assert((i + 1) * self.horizon <= usize::MAX * usize::MAX) by (nonlinear_arith)
                        requires
                            i + 1 <= usize::MAX,
                            self.horizon <= usize::MAX,
                    ;
                }
                units = units + self.rem_demands[i][t] as u128;
                i += 1;
            }
            if units > t as u128 + 1 {
                assert(self@.due_by(t as int) > t + 1);
                proof {
                    self@.lemma_infeasible_has_no_plan();
                }
                return Err(PspError::InfeasibleInstance { period: t, units });
            }
            t += 1;
        }
        proof {
            self@.lemma_initial_valid();
            self@.lemma_initial_feasible();
            self@.lemma_feasible_completes(self@.initial());
        }
        Ok(())
    }

    /// The state from which planning starts: no period is planned, nothing
    /// precedes, and every item stands on its last demand.
    pub fn initial_state(&self) -> (s: PspState)
        requires
            self.wf(),
        ensures
            s@ == self@.initial(),
            self@.valid_state(s@),
    {
        let mut pointers: Vec<Option<usize>> = Vec::new();
        let mut i: usize = 0;
        while i < self.n_items
            invariant
                self.wf(),
                i <= self.n_items,
                pointers@.len() == i,
                forall|j: int|
                    0 <= j < i ==> #[trigger] pointers@[j] == latest_upto(
                        self@.demands[j],
                        self.horizon - 1,
                    ),
            decreases self.n_items - i,
        {
            pointers.push(self.prev_demands[i][self.horizon - 1]);
            i += 1;
        }
        let s = PspState { time: 0, pred: Predecessor::Idle, prev_demands: pointers };
        proof {
            assert(s@.pointers =~= self@.initial().pointers);
            self@.lemma_initial_valid();
        }
        s
    }

    /// Tells whether `s` is a state of this problem.
    pub fn belongs(&self, s: &PspState) -> (b: bool)
        requires
            self.wf(),
        ensures
            b == self@.valid_state(s@),
    {
        if s.time > self.horizon || s.prev_demands.len() != self.n_items {
            return false;
        }
        match s.pred {
            Predecessor::Item(j) => {
                if j >= self.n_items {
                    return false;
                }
            },
            _ => {},
        }
        let mut i: usize = 0;
        while i < self.n_items
            invariant
                self.wf(),
                i <= self.n_items,
                s.prev_demands@.len() == self.n_items,
                forall|j: int|
                    0 <= j < i ==> match #[trigger] s@.pointers[j] {
                        Some(p) => p < self.horizon && self@.demands[j][p as int] > 0,
                        None => true,
                    },
            decreases self.n_items - i,
        {
            match s.prev_demands[i] {
                Some(p) => {
                    assert(self@.demands[i as int] == self.demands@[i as int]@);
                    if p >= self.horizon || self.demands[i][p] == 0 {
                        assert(!(match s@.pointers[i as int] {
                            Some(p) => p < self.horizon && self@.demands[i as int][p as int] > 0,
                            None => true,
                        }));
                        return false;
                    }
                },
                None => {},
            }
            i += 1;
        }
        true
    }

    /// Tells whether `s` has planned every period.
    pub fn is_terminal(&self, s: &PspState) -> (b: bool)
        ensures
            b == self@.terminal(s@),
    {
        s.time == self.horizon
    }

    /// The number of open units in `s`.
    pub fn remaining_units(&self, s: &PspState) -> (units: u128)
        requires
            self.wf(),
            self@.valid_state(s@),
        ensures
            units == self@.remaining(s@),
    {
        let mut units: u128 = 0;
        let mut i: usize = 0;
        while i < self.n_items
            invariant
                self.wf(),
                self@.valid_state(s@),
                i <= self.n_items,
                units == self@.open_below(s@, i as int),
                units <= i * self.horizon,
            decreases self.n_items - i,
        {
            proof {
                self@.lemma_open_units_bound(s@, i as int);
                assert(i * self.horizon + self.horizon == (i + 1) * self.horizon)
                    by (nonlinear_arith);
                assert((i + 1) * self.horizon <= usize::MAX * usize::MAX) by (nonlinear_arith)
                    requires
                        i + 1 <= usize::MAX,
                        self.horizon <= usize::MAX,
                ;
            }
            match s.prev_demands[i] {
                Some(p) => {
                    units = units + self.rem_demands[i][p] as u128;
                },
                None => {},
            }
            i += 1;
        }
        units
    }

    /// The decisions that may be taken in `s`: the items that may be
    /// produced, in rising order, then idling if it is allowed.
    pub fn domain(&self, s: &PspState) -> (decisions: Vec<Decision>)
        requires
            self.wf(),
            self@.valid_state(s@),
        ensures
            forall|d: Decision| decisions@.contains(d) <==> self@.in_domain(s@, d),
            decisions@.no_duplicates(),
            forall|a: int, b: int|
                0 <= a < b < decisions@.len() ==> listed_before(
                    #[trigger] decisions@[a],
                    #[trigger] decisions@[b],
                ),
            self@.feasible() && self@.feasible_state(s@) && !self@.terminal(s@) ==> decisions@.len()
                > 0,
    {
        proof {
            if self@.feasible() && self@.feasible_state(s@) && !self@.terminal(s@) {
                self@.lemma_domain_nonempty(s@);
            }
        }
        let mut decisions: Vec<Decision> = Vec::new();
        if s.time >= self.horizon {
            return decisions;
        }
        let left: usize = self.horizon - s.time;
        let slot: usize = left - 1;
        let units = self.remaining_units(s);
        if units > left as u128 {
            return decisions;
        }
        let mut i: usize = 0;
        while i < self.n_items
            invariant
                self.wf(),
                self@.valid_state(s@),
                s.time < self.horizon,
                slot == self@.slot(s@),
                self@.remaining(s@) <= self@.periods_left(s@),
                i <= self.n_items,
                forall|d: Decision|
                    decisions@.contains(d) <==> (d matches Decision::Produce(j) && j < i
                        && self@.in_domain(s@, d)),
                decisions@.no_duplicates(),
                forall|a: int, b: int|
                    0 <= a < b < decisions@.len() ==> listed_before(
                        #[trigger] decisions@[a],
                        #[trigger] decisions@[b],
                    ),
            decreases self.n_items - i,
        {
            let produce = match s.prev_demands[i] {
                Some(p) => p >= slot,
                None => false,
            };
            if produce {
                let ghost before = decisions@;
                decisions.push(Decision::Produce(i));
                proof {
                    assert(!before.contains(Decision::Produce(i)));
                    assert forall|a: int, b: int| 0 <= a < b < decisions@.len() implies listed_before(
                        #[trigger] decisions@[a],
                        #[trigger] decisions@[b],
                    ) by {
                        if b == before.len() {
                            assert(before.contains(before[a]));
                        } else {
                            assert(listed_before(before[a], before[b]));
                        }
                    }
                    assert forall|d: Decision|
                        decisions@.contains(d) <==> (d matches Decision::Produce(j) && j < i + 1
                            && self@.in_domain(s@, d)) by {
                        if decisions@.contains(d) {
                            let k = choose|k: int| 0 <= k < decisions@.len() && decisions@[k] == d;
                            if k < before.len() {
                                assert(before[k] == d);
                                assert(before.contains(d));
                            }
                        }
                        if d matches Decision::Produce(j) && j < i + 1 && self@.in_domain(s@, d) {
                            if d->Produce_0 < i {
                                assert(before.contains(d));
                                let k = choose|k: int| 0 <= k < before.len() && before[k] == d;
                                assert(decisions@[k] == d);
                            } else {
                                assert(decisions@[before.len() as int] == d);
                            }
                        }
                    }
                }
            }
            i += 1;
        }
        proof {
            if decisions@.len() == 0 && self@.feasible() && units >= left {
                let d = choose|d: Decision| self@.in_domain(s@, d);
                assert(decisions@.contains(d));
            }
        }
        if units < left as u128 {
            let ghost before = decisions@;
            decisions.push(Decision::Idle);
            proof {
                assert(!before.contains(Decision::Idle));
                assert forall|a: int, b: int| 0 <= a < b < decisions@.len() implies listed_before(
                    #[trigger] decisions@[a],
                    #[trigger] decisions@[b],
                ) by {
                    if b == before.len() {
                        assert(before.contains(before[a]));
                    } else {
                        assert(listed_before(before[a], before[b]));
                    }
                }
                assert forall|d: Decision| decisions@.contains(d) <==> self@.in_domain(s@, d) by {
                    if decisions@.contains(d) {
                        let k = choose|k: int| 0 <= k < decisions@.len() && decisions@[k] == d;
                        if k < before.len() {
                            assert(before[k] == d);
                            assert(before.contains(d));
                        }
                    }
                    if self@.in_domain(s@, d) {
                        if d is Idle {
                            assert(decisions@[before.len() as int] == d);
                        } else {
                            assert(before.contains(d));
                            let k = choose|k: int| 0 <= k < before.len() && before[k] == d;
                            assert(decisions@[k] == d);
                        }
                    }
                }
            }
        }
        decisions
    }

    /// The state that follows `s` when `d` is decided.
    pub fn transition(&self, s: &PspState, d: Decision) -> (next: PspState)
        requires
            self.wf(),
            self@.valid_state(s@),
            self@.in_domain(s@, d),
        ensures
            next@ == self@.step(s@, d),
            self@.valid_state(next@),
    {
        let mut pointers: Vec<Option<usize>> = Vec::new();
        let mut i: usize = 0;
        while i < self.n_items
            invariant
                self.wf(),
                self@.valid_state(s@),
                self@.in_domain(s@, d),
                i <= self.n_items,
                pointers@.len() == i,
                forall|j: int| 0 <= j < i ==> #[trigger] pointers@[j] == self@.step(s@, d).pointers[j],
            decreases self.n_items - i,
        {
            let mut pointer = s.prev_demands[i];
            match d {
                Decision::Produce(item) => {
                    if item == i {
                        match pointer {
                            Some(p) => {
                                pointer = if p == 0 {
                                    None
                                } else {
                                    self.prev_demands[i][p - 1]
                                };
                            },
                            None => {},
                        }
                    }
                },
                Decision::Idle => {},
            }
            pointers.push(pointer);
            i += 1;
        }
        let pred = match d {
            Decision::Idle => Predecessor::Idle,
            Decision::Produce(item) => Predecessor::Item(item),
        };
        let next = PspState { time: s.time + 1, pred, prev_demands: pointers };
        proof {
            assert(next@.pointers =~= self@.step(s@, d).pointers);
            self@.lemma_step_valid(s@, d);
        }
        next
    }

    /// The cost of deciding `d` in `s`.
    pub fn transition_cost(&self, s: &PspState, d: Decision) -> (cost: u128)
        requires
            self.wf(),
            self@.valid_state(s@),
            self@.in_domain(s@, d),
        ensures
            cost == self@.step_cost(s@, d),
    {
        match d {
            Decision::Idle => 0,
            Decision::Produce(item) => {
                let changeover: usize = match s.pred {
                    Predecessor::Item(j) => if j == item {
                        0
                    } else {
                        assert(self@.changeover[item as int].len() == self.n_items);
                        self.changeover[item][j]
                    },
                    _ => 0,
                };
                let slot: usize = self.horizon - 1 - s.time;
                let held: usize = match s.prev_demands[item] {
                    Some(p) => p - slot,
                    None => 0,
                };
                let rate: usize = self.stocking[item];
                proof {
                    assert(rate * held <= usize::MAX * usize::MAX) by (nonlinear_arith)
                        requires
                            0 <= rate <= usize::MAX,
                            0 <= held <= usize::MAX,
                    ;
                }
                changeover as u128 + rate as u128 * held as u128
            },
        }
    }
}

} // verus!
