//! The node algebra: an identity-aware associative combine over optional
//! aggregate values, together with the three aggregation policies
//! (sum, minimum, maximum) plugged into it.

use vstd::prelude::*;

verus! {

/// The aggregation policy a tree was built for.
#[derive(Debug, Clone, Copy, PartialEq, Eq, Structural)]
pub enum TreeType {
    Sum,
    Max,
    Min,
}

/// The policy's reducer over unbounded integers.
pub open spec fn op(t: TreeType, a: int, b: int) -> int {
    match t {
        TreeType::Sum => a + b,
        TreeType::Max => if a > b {
            a
        } else {
            b
        },
        TreeType::Min => if a < b {
            a
        } else {
            b
        },
    }
}

/// The identity-aware combine: absence stands for the identity element,
/// so combining with an absent operand returns the other operand.
pub open spec fn combine_opt(t: TreeType, a: Option<int>, b: Option<int>) -> Option<int> {
    match (a, b) {
        (Some(x), Some(y)) => Some(op(t, x, y)),
        (Some(x), None) => Some(x),
        (None, Some(y)) => Some(y),
        (None, None) => None,
    }
}

/// The combine is associative over `{identity} U int`, for every policy.
pub proof fn lemma_combine_assoc(t: TreeType, a: Option<int>, b: Option<int>, c: Option<int>)
    ensures
        combine_opt(t, combine_opt(t, a, b), c) == combine_opt(t, a, combine_opt(t, b, c)),
{
}

/// The combine is commutative, for every policy.
pub proof fn lemma_combine_comm(t: TreeType, a: Option<int>, b: Option<int>)
    ensures
        combine_opt(t, a, b) == combine_opt(t, b, a),
{
}

/// When the policy's result must fit in an `i64`: only a sum can leave the range.
pub open spec fn op_fits(t: TreeType, a: Option<int>, b: Option<int>) -> bool {
    match (a, b) {
        (Some(x), Some(y)) => i64::MIN <= op(t, x, y) <= i64::MAX,
        _ => true,
    }
}

/// An element of a minimum-aggregated sequence.
#[derive(Debug, Clone, Copy)]
pub struct Min(pub i64);

impl Min {
    pub fn new(value: i64) -> (r: Self)
        ensures
            r.0 == value,
    {
        Min(value)
    }

    pub fn value(&self) -> (r: i64)
        ensures
            r == self.0,
    {
        self.0
    }

    /// The minimum of the two operands; equal values yield the right operand.
    pub fn combine(self, rhs: Self) -> (r: Self)
        ensures
            r.0 as int == op(TreeType::Min, self.0 as int, rhs.0 as int),
    {
        if self.0 < rhs.0 {
            Min(self.0)
        } else {
            Min(rhs.0)
        }
    }
}

/// An element of a maximum-aggregated sequence.
#[derive(Debug, Clone, Copy)]
pub struct Max(pub i64);

impl Max {
    pub fn new(value: i64) -> (r: Self)
        ensures
            r.0 == value,
    {
        Max(value)
    }

    pub fn value(&self) -> (r: i64)
        ensures
            r == self.0,
    {
        self.0
    }

    /// The maximum of the two operands; equal values yield the right operand.
    pub fn combine(self, rhs: Self) -> (r: Self)
        ensures
            r.0 as int == op(TreeType::Max, self.0 as int, rhs.0 as int),
    {
        if self.0 > rhs.0 {
            Max(self.0)
        } else {
            Max(rhs.0)
        }
    }
}

/// An element of a sum-aggregated sequence.
#[derive(Debug, Clone, Copy)]
pub struct Sum(pub i64);

impl Sum {
    pub fn new(value: i64) -> (r: Self)
        ensures
            r.0 == value,
    {
        Sum(value)
    }

    pub fn value(&self) -> (r: i64)
        ensures
            r == self.0,
    {
        self.0
    }

    /// The sum of the two operands; the caller owes that it fits.
    pub fn combine(self, rhs: Self) -> (r: Self)
        requires
            i64::MIN <= self.0 + rhs.0 <= i64::MAX,
        ensures
            r.0 as int == op(TreeType::Sum, self.0 as int, rhs.0 as int),
    {
        Sum(self.0 + rhs.0)
    }
}

/// Combine two optional `i64` aggregates under the given policy.
pub fn combine_values(t: TreeType, a: Option<i64>, b: Option<i64>) -> (r: Option<i64>)
    requires
        op_fits(t, opt_val(a), opt_val(b)),
    ensures
        opt_val(r) == combine_opt(t, opt_val(a), opt_val(b)),
{
    match (a, b) {
        (Some(x), Some(y)) => match t {
            TreeType::Sum => Some(Sum::new(x).combine(Sum::new(y)).value()),
            TreeType::Max => Some(Max::new(x).combine(Max::new(y)).value()),
            TreeType::Min => Some(Min::new(x).combine(Min::new(y)).value()),
        },
        (Some(x), None) => Some(x),
        (None, Some(y)) => Some(y),
        (None, None) => None,
    }
}

/// The mathematical value of an optional machine integer.
pub open spec fn opt_val(o: Option<i64>) -> Option<int> {
    match o {
        Some(v) => Some(v as int),
        None => None,
    }
}

} // verus!
