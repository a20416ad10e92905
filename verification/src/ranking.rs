//! The order in which states are preferred.
//!
//! A state ranks above another if its value is higher; among states of one
//! value, if it has fewer periods left to plan; among those, if its pointers
//! come later in lexicographic order. The value of a state is the cost paid
//! on the way to it, negated, so that a higher value is a cheaper way.

use vstd::prelude::*;
use std::cmp::Ordering;
use crate::model::PspState;
use crate::model::StateModel;

verus! {

/// A pointer as a number: none comes before every period.
pub open spec fn pointer_key(p: Option<usize>) -> int {
    match p {
        None => -1,
        Some(q) => q as int,
    }
}

/// The sign of the lexicographic comparison of two pointer lists from
/// position `from` on: negative if `a` comes first, zero if they agree,
/// positive if `b` comes first. A list that ends where the other goes on
/// comes first.
pub open spec fn pointers_order(a: Seq<Option<usize>>, b: Seq<Option<usize>>, from: int) -> int
    decreases a.len() - from,
{
    if from >= a.len() || from >= b.len() {
        if a.len() < b.len() {
            -1
        } else if a.len() > b.len() {
            1
        } else {
            0
        }
    } else if pointer_key(a[from]) < pointer_key(b[from]) {
        -1
    } else if pointer_key(a[from]) > pointer_key(b[from]) {
        1
    } else {
        pointers_order(a, b, from + 1)
    }
}

/// The sign of the comparison of two states with their values: negative if
/// `b` is preferred, zero if neither is, positive if `a` is preferred.
pub open spec fn rank_order(a_value: isize, a: StateModel, b_value: isize, b: StateModel) -> int {
    if a_value != b_value {
        if a_value < b_value {
            -1
        } else {
            1
        }
    } else if a.time != b.time {
        if a.time < b.time {
            -1
        } else {
            1
        }
    } else {
        pointers_order(a.pointers, b.pointers, 0)
    }
}

/// The comparison of the pointers of two states from position `from` on.
pub open spec fn order_from(a: StateModel, b: StateModel, from: usize) -> int {
    pointers_order(a.pointers, b.pointers, from as int)
}

/// A list of pointers is not before itself.
pub proof fn lemma_pointers_order_reflexive(a: Seq<Option<usize>>, from: int)
    requires
        0 <= from,
    ensures
        pointers_order(a, a, from) == 0,
    decreases a.len() - from,
{
    if from < a.len() {
        lemma_pointers_order_reflexive(a, from + 1);
    }
}

/// Swapping the two lists swaps the sign.
pub proof fn lemma_pointers_order_antisymmetric(a: Seq<Option<usize>>, b: Seq<Option<usize>>, from: int)
    requires
        0 <= from,
    ensures
        pointers_order(a, b, from) == -pointers_order(b, a, from),
    decreases a.len() - from,
{
    if from < a.len() && from < b.len() {
        lemma_pointers_order_antisymmetric(a, b, from + 1);
    }
}

/// Lists that compare as equal agree from `from` on, and have one length.
pub proof fn lemma_pointers_order_equal(a: Seq<Option<usize>>, b: Seq<Option<usize>>, from: int)
    requires
        0 <= from,
        pointers_order(a, b, from) == 0,
    ensures
        a.len() == b.len(),
        forall|i: int| from <= i < a.len() ==> a[i] == b[i],
    decreases a.len() - from,
{
    if from < a.len() && from < b.len() {
        lemma_pointers_order_equal(a, b, from + 1);
    }
}

/// The order of pointer lists is transitive, ties included.
pub proof fn lemma_pointers_order_transitive(
    a: Seq<Option<usize>>,
    b: Seq<Option<usize>>,
    c: Seq<Option<usize>>,
    from: int,
)
    requires
        0 <= from,
        pointers_order(a, b, from) <= 0,
        pointers_order(b, c, from) <= 0,
    ensures
        pointers_order(a, c, from) <= 0,
        pointers_order(a, b, from) < 0 || pointers_order(b, c, from) < 0 ==> pointers_order(
            a,
            c,
            from,
        ) < 0,
    decreases a.len() - from,
{
    if from < a.len() && from < b.len() && from < c.len() {
        if pointer_key(a[from]) == pointer_key(b[from]) && pointer_key(b[from]) == pointer_key(
            c[from],
        ) {
            lemma_pointers_order_transitive(a, b, c, from + 1);
        }
    }
}

/// No state is preferred to itself.
pub proof fn lemma_rank_irreflexive(value: isize, a: StateModel)
    ensures
        rank_order(value, a, value, a) == 0,
{
    lemma_pointers_order_reflexive(a.pointers, 0);
}

/// If one state is preferred to another, the other is not preferred to it:
/// swapping the two swaps the sign.
pub proof fn lemma_rank_antisymmetric(a_value: isize, a: StateModel, b_value: isize, b: StateModel)
    ensures
        rank_order(a_value, a, b_value, b) == -rank_order(b_value, b, a_value, a),
{
    lemma_pointers_order_antisymmetric(a.pointers, b.pointers, 0);
}

/// The ranking is transitive, and so is being ranked alike: if `a` is not
/// preferred to `b` nor `b` to `c`, then `a` is not preferred to `c`, and
/// `c` is preferred to `a` as soon as one of the two steps is strict.
pub proof fn lemma_rank_transitive(
    a_value: isize,
    a: StateModel,
    b_value: isize,
    b: StateModel,
    c_value: isize,
    c: StateModel,
)
    requires
        rank_order(a_value, a, b_value, b) <= 0,
        rank_order(b_value, b, c_value, c) <= 0,
    ensures
        rank_order(a_value, a, c_value, c) <= 0,
        rank_order(a_value, a, b_value, b) < 0 || rank_order(b_value, b, c_value, c) < 0
            ==> rank_order(a_value, a, c_value, c) < 0,
{
    if a_value == b_value && b_value == c_value && a.time == b.time && b.time == c.time {
        lemma_pointers_order_transitive(a.pointers, b.pointers, c.pointers, 0);
    }
}

/// States that are ranked alike have one value, have planned the same
/// periods and stand on the same demands.
pub proof fn lemma_rank_equal(a_value: isize, a: StateModel, b_value: isize, b: StateModel)
    requires
        rank_order(a_value, a, b_value, b) == 0,
    ensures
        a_value == b_value,
        a.time == b.time,
        a.pointers == b.pointers,
{
    lemma_pointers_order_equal(a.pointers, b.pointers, 0);
    assert(a.pointers =~= b.pointers);
}

/// The ranking of states.
#[derive(Clone, Copy, Debug)]
pub struct PspRanking;

impl PspRanking {
    /// Compares two states, each with its value: `Greater` if `a` is
    /// preferred, `Less` if `b` is, `Equal` if neither.
    pub fn compare(&self, a_value: isize, a: &PspState, b_value: isize, b: &PspState) -> (o: Ordering)
        ensures
            o is Less <==> rank_order(a_value, a@, b_value, b@) < 0,
            o is Equal <==> rank_order(a_value, a@, b_value, b@) == 0,
            o is Greater <==> rank_order(a_value, a@, b_value, b@) > 0,
    {
        if a_value < b_value {
            return Ordering::Less;
        }
        if a_value > b_value {
            return Ordering::Greater;
        }
        if a.time < b.time {
            return Ordering::Less;
        }
        if a.time > b.time {
            return Ordering::Greater;
        }
        let mut i: usize = 0;
        while i < a.prev_demands.len() && i < b.prev_demands.len()
            invariant
                a_value == b_value,
                a.time == b.time,
                i <= a.prev_demands@.len(),
                i <= b.prev_demands@.len(),
                pointers_order(a@.pointers, b@.pointers, 0) == order_from(a@, b@, i),
            decreases a.prev_demands@.len() - i,
        {
            match (a.prev_demands[i], b.prev_demands[i]) {
                (None, None) => {},
                (None, Some(_)) => {
                    return Ordering::Less;
                },
                (Some(_), None) => {
                    return Ordering::Greater;
                },
                (Some(p), Some(q)) => {
                    if p < q {
                        return Ordering::Less;
                    }
                    if p > q {
                        return Ordering::Greater;
                    }
                },
            }
            i += 1;
        }
        if a.prev_demands.len() < b.prev_demands.len() {
            Ordering::Less
        } else if a.prev_demands.len() > b.prev_demands.len() {
            Ordering::Greater
        } else {
            Ordering::Equal
        }
    }
}

} // verus!
