//! What can be wrong with an instance or a configuration.

use vstd::prelude::*;

verus! {

/// One way in which an instance record fails to describe a problem.
/// Each variant carries the offending dimension or value.
#[derive(Clone, Copy, Debug, PartialEq, Eq, Structural)]
pub enum Defect {
    /// What was read is no record at all: it could not be parsed.
    Unreadable,
    /// The record declares no item type.
    NoItems,
    /// The record declares no period.
    NoPeriods,
    /// The stocking costs number `found`, not one per item type.
    StockingLength { found: usize },
    /// The changeover matrix has `found` rows, not one per item type.
    ChangeoverRows { found: usize },
    /// Row `row` of the changeover matrix has `found` entries.
    ChangeoverRowLength { row: usize, found: usize },
    /// Changing over from `item` to itself costs `value`, not zero.
    ChangeoverDiagonal { item: usize, value: usize },
    /// The demand matrix has `found` rows, not one per item type.
    DemandRows { found: usize },
    /// Row `row` of the demand matrix has `found` entries, not one per period.
    DemandRowLength { row: usize, found: usize },
    /// The demand for `item` in `period` is `value`, neither 0 nor 1.
    DemandValue { item: usize, period: usize, value: usize },
}

/// The failures that the library reports.
#[derive(Clone, Copy, Debug, PartialEq, Eq, Structural)]
pub enum PspError {
    /// The record's shape or values do not describe an instance.
    MalformedInstance(Defect),
    /// `units` demand units are due by the end of `period`, which leaves
    /// room for `period + 1` of them only: no production order can exist.
    InfeasibleInstance { period: usize, units: u128 },
    /// The number of meta-items is zero, or above the number of items.
    ClusteringDegenerate { n_meta_items: usize, n_items: usize },
    /// A state asks meta-item `meta_item` for `count` remaining units, and
    /// no period of the meta-instance is recorded for that count.
    ProjectionGap { meta_item: usize, count: u128 },
}

} // verus!
