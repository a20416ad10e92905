//! The demand index: for every item and period, where the latest demand up
//! to that period lies and how many units are due up to it.

use vstd::prelude::*;

verus! {

/// The number of units that `row` demands in the periods `0..=t`.
pub open spec fn units_upto(row: Seq<usize>, t: int) -> nat
    decreases t + 1,
{
    if t < 0 {
        0
    } else {
        units_upto(row, t - 1) + row[t] as nat
    }
}

/// The latest period in `0..=t` in which `row` demands a unit, if any.
pub open spec fn latest_upto(row: Seq<usize>, t: int) -> Option<usize>
    decreases t + 1,
{
    if t < 0 {
        None
    } else if row[t] > 0 {
        Some(t as usize)
    } else {
        latest_upto(row, t - 1)
    }
}

/// Every entry of `row` is 0 or 1.
pub open spec fn unit_row(row: Seq<usize>) -> bool {
    forall|t: int| 0 <= t < row.len() ==> #[trigger] row[t] <= 1
}

/// A row of 0/1 demands asks for at most one unit per period.
pub proof fn lemma_units_upto_bound(row: Seq<usize>, t: int)
    requires
        unit_row(row),
        -1 <= t < row.len(),
    ensures
        units_upto(row, t) <= t + 1,
    decreases t + 1,
{
    if t >= 0 {
        lemma_units_upto_bound(row, t - 1);
    }
}

/// The count of units grows with the period.
pub proof fn lemma_units_upto_monotone(row: Seq<usize>, s: int, t: int)
    requires
        -1 <= s <= t < row.len(),
    ensures
        units_upto(row, s) <= units_upto(row, t),
    decreases t - s,
{
    if s < t {
        lemma_units_upto_monotone(row, s, t - 1);
    }
}

/// What `latest_upto` finds is a period with a demand, no later than `t`,
/// and no demand lies between it and `t`.
pub proof fn lemma_latest_upto(row: Seq<usize>, t: int)
    requires
        -1 <= t < row.len(),
        row.len() <= usize::MAX,
    ensures
        match latest_upto(row, t) {
            Some(p) => p <= t && row[p as int] > 0 && units_upto(row, p as int) == units_upto(row, t),
            None => units_upto(row, t) == 0,
        },
        forall|u: int|
            0 <= u <= t && #[trigger] row[u] > 0 ==> (latest_upto(row, t) matches Some(p) && u <= p),
    decreases t + 1,
{
    if t >= 0 {
        lemma_latest_upto(row, t - 1);
    }
}

/// For every row of `demands` and every period, the latest period up to it
/// with a demand.
pub fn compute_prev_demands(demands: &Vec<Vec<usize>>) -> (index: Vec<Vec<Option<usize>>>)
    ensures
        index@.len() == demands@.len(),
        forall|i: int|
            0 <= i < demands@.len() ==> (#[trigger] index@[i])@.len() == demands@[i]@.len(),
        forall|i: int, t: int|
            0 <= i < demands@.len() && 0 <= t < demands@[i]@.len() ==> #[trigger] index@[i]@[t]
                == latest_upto(demands@[i]@, t),
{
    let mut index: Vec<Vec<Option<usize>>> = Vec::new();
    let mut i: usize = 0;
    while i < demands.len()
        invariant
            i <= demands@.len(),
            index@.len() == i,
            forall|j: int| 0 <= j < i ==> (#[trigger] index@[j])@.len() == demands@[j]@.len(),
            forall|j: int, t: int|
                0 <= j < i && 0 <= t < demands@[j]@.len() ==> #[trigger] index@[j]@[t]
                    == latest_upto(demands@[j]@, t),
        decreases demands@.len() - i,
    {
        let row = &demands[i];
        let mut latest: Option<usize> = None;
        let mut out: Vec<Option<usize>> = Vec::new();
        let mut t: usize = 0;
        while t < row.len()
            invariant
                t <= row@.len(),
                out@.len() == t,
                latest == latest_upto(row@, t as int - 1),
                forall|u: int| 0 <= u < t ==> #[trigger] out@[u] == latest_upto(row@, u),
            decreases row@.len() - t,
        {
            if row[t] > 0 {
                latest = Some(t);
            }
            out.push(latest);
            t += 1;
        }
        index.push(out);
        i += 1;
    }
    index
}

/// For every row of `demands` and every period, the number of units due up
/// to it.
pub fn compute_rem_demands(demands: &Vec<Vec<usize>>) -> (index: Vec<Vec<usize>>)
    requires
        forall|i: int| 0 <= i < demands@.len() ==> unit_row(#[trigger] demands@[i]@),
    ensures
        index@.len() == demands@.len(),
        forall|i: int|
            0 <= i < demands@.len() ==> (#[trigger] index@[i])@.len() == demands@[i]@.len(),
        forall|i: int, t: int|
            0 <= i < demands@.len() && 0 <= t < demands@[i]@.len() ==> #[trigger] index@[i]@[t]
                == units_upto(demands@[i]@, t),
{
    let mut index: Vec<Vec<usize>> = Vec::new();
    let mut i: usize = 0;
    while i < demands.len()
        invariant
            i <= demands@.len(),
            index@.len() == i,
            forall|j: int| 0 <= j < demands@.len() ==> unit_row(#[trigger] demands@[j]@),
            forall|j: int| 0 <= j < i ==> (#[trigger] index@[j])@.len() == demands@[j]@.len(),
            forall|j: int, t: int|
                0 <= j < i && 0 <= t < demands@[j]@.len() ==> #[trigger] index@[j]@[t]
                    == units_upto(demands@[j]@, t),
        decreases demands@.len() - i,
    {
        let row = &demands[i];
        let mut units: usize = 0;
        let mut out: Vec<usize> = Vec::new();
        let mut t: usize = 0;
        while t < row.len()
            invariant
                t <= row@.len(),
                unit_row(row@),
                out@.len() == t,
                units == units_upto(row@, t as int - 1),
                forall|u: int| 0 <= u < t ==> #[trigger] out@[u] == units_upto(row@, u),
            decreases row@.len() - t,
        {
            proof {
                lemma_units_upto_bound(row@, t as int - 1);
            }
            units = units + row[t];
            out.push(units);
            t += 1;
        }
        index.push(out);
        i += 1;
    }
    index
}

} // verus!
