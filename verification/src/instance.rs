//! The record of a problem instance, as it is stored and exchanged.

use vstd::prelude::*;
use crate::error::Defect;
use crate::error::PspError;

verus! {

/// An instance as it is written down: the declared counts and the raw tables.
#[derive(Debug, Clone)]
pub struct PspInstance {
    pub nb_types: usize,
    pub nb_periods: usize,
    pub stocking: Vec<usize>,
    pub changeover: Vec<Vec<usize>>,
    pub demands: Vec<Vec<usize>>,
}

impl PspInstance {
    /// The record describes a problem: both counts are positive, every table
    /// has the declared shape, no item changes over to itself at a cost, and
    /// every demand is 0 or 1.
    pub open spec fn well_formed(&self) -> bool {
        &&& self.nb_types >= 1
        &&& self.nb_periods >= 1
        &&& self.stocking@.len() == self.nb_types
        &&& self.changeover@.len() == self.nb_types
        &&& self.demands@.len() == self.nb_types
        &&& forall|i: int|
            0 <= i < self.nb_types ==> (#[trigger] self.changeover@[i])@.len() == self.nb_types
        &&& forall|i: int| 0 <= i < self.nb_types ==> (#[trigger] self.changeover@[i])@[i] == 0
        &&& forall|i: int|
            0 <= i < self.nb_types ==> (#[trigger] self.demands@[i])@.len() == self.nb_periods
        &&& forall|i: int, t: int|
            0 <= i < self.nb_types && 0 <= t < self.nb_periods ==> (#[trigger] self.demands@[i]@[t])
                <= 1
    }

    /// `defect` is true of the record. Rows beyond the declared number of
    /// item types are not looked at. A record that exists has been read, so
    /// it is never unreadable.
    pub open spec fn has_defect(&self, defect: Defect) -> bool {
        match defect {
            Defect::Unreadable => false,
            Defect::NoItems => self.nb_types == 0,
            Defect::NoPeriods => self.nb_periods == 0,
            Defect::StockingLength { found } => found == self.stocking@.len() && found
                != self.nb_types,
            Defect::ChangeoverRows { found } => found == self.changeover@.len() && found
                != self.nb_types,
            Defect::ChangeoverRowLength { row, found } => {
                &&& row < self.nb_types
                &&& row < self.changeover@.len()
                &&& found == self.changeover@[row as int]@.len()
                &&& found != self.nb_types
            },
            Defect::ChangeoverDiagonal { item, value } => {
                &&& item < self.nb_types
                &&& item < self.changeover@.len()
                &&& item < self.changeover@[item as int]@.len()
                &&& value == self.changeover@[item as int]@[item as int]
                &&& value != 0
            },
            Defect::DemandRows { found } => found == self.demands@.len() && found
                != self.nb_types,
            Defect::DemandRowLength { row, found } => {
                &&& row < self.nb_types
                &&& row < self.demands@.len()
                &&& found == self.demands@[row as int]@.len()
                &&& found != self.nb_periods
            },
            Defect::DemandValue { item, period, value } => {
                &&& item < self.nb_types
                &&& item < self.demands@.len()
                &&& period < self.demands@[item as int]@.len()
                &&& value == self.demands@[item as int]@[period as int]
                &&& value > 1
            },
        }
    }

    /// Checks the record's shape and values.
    pub fn check(&self) -> (res: Result<(), PspError>)
        ensures
            res is Ok <==> self.well_formed(),
            res is Err ==> (res->Err_0 matches PspError::MalformedInstance(d) && self.has_defect(d)),
    {
        let n = self.nb_types;
        if n == 0 {
            return Err(PspError::MalformedInstance(Defect::NoItems));
        }
        if self.nb_periods == 0 {
            return Err(PspError::MalformedInstance(Defect::NoPeriods));
        }
        if self.stocking.len() != n {
            return Err(
                PspError::MalformedInstance(Defect::StockingLength { found: self.stocking.len() }),
            );
        }
        if self.changeover.len() != n {
            return Err(
                PspError::MalformedInstance(Defect::ChangeoverRows { found: self.changeover.len() }),
            );
        }
        if self.demands.len() != n {
            return Err(
                PspError::MalformedInstance(Defect::DemandRows { found: self.demands.len() }),
            );
        }
        let mut i: usize = 0;
        while i < n
            invariant
                i <= n,
                n == self.nb_types,
                self.changeover@.len() == n,
                self.demands@.len() == n,
                forall|j: int| 0 <= j < i ==> (#[trigger] self.changeover@[j])@.len() == n,
                forall|j: int| 0 <= j < i ==> (#[trigger] self.changeover@[j])@[j] == 0,
                forall|j: int|
                    0 <= j < i ==> (#[trigger] self.demands@[j])@.len() == self.nb_periods,
                forall|j: int, t: int|
                    0 <= j < i && 0 <= t < self.nb_periods ==> (#[trigger] self.demands@[j]@[t])
                        <= 1,
            decreases n - i,
        {
            let row = &self.changeover[i];
            if row.len() != n {
                return Err(
                    PspError::MalformedInstance(
                        Defect::ChangeoverRowLength { row: i, found: row.len() },
                    ),
                );
            }
            if row[i] != 0 {
                return Err(
                    PspError::MalformedInstance(
                        Defect::ChangeoverDiagonal { item: i, value: row[i] },
                    ),
                );
            }
            let units = &self.demands[i];
            if units.len() != self.nb_periods {
                return Err(
                    PspError::MalformedInstance(
                        Defect::DemandRowLength { row: i, found: units.len() },
                    ),
                );
            }
            let mut t: usize = 0;
            while t < units.len()
                invariant
                    t <= units@.len(),
                    i < n,
                    n == self.nb_types,
                    self.demands@.len() == n,
                    *units == self.demands@[i as int],
                    forall|u: int| 0 <= u < t ==> (#[trigger] units@[u]) <= 1,
                decreases units@.len() - t,
            {
                if units[t] > 1 {
                    return Err(
                        PspError::MalformedInstance(
                            Defect::DemandValue { item: i, period: t, value: units[t] },
                        ),
                    );
                }
                t += 1;
            }
            i += 1;
        }
        Ok(())
    }
}

} // verus!
