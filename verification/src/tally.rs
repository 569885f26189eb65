//! Exact results: a quotient of two counts, and the running sum and count
//! from which an average is taken.

use vstd::prelude::*;

verus! {

/// An exact quotient `num / den` of two counts.
#[derive(Clone, Copy, Debug, PartialEq, Eq, Structural)]
pub struct Ratio {
    pub num: u128,
    pub den: u128,
}

/// Why a metric has no value.
#[derive(Clone, Copy, Debug, PartialEq, Eq, Structural)]
pub enum MetricsError {
    /// There is nothing to average over: the divisor would be zero.
    EmptyGraph,
}

/// The sum of two pairs of a sum and a count.
pub open spec fn plus(a: (nat, nat), b: (nat, nat)) -> (nat, nat) {
    (a.0 + b.0, a.1 + b.1)
}

/// A sum of values together with their number.
#[derive(Clone, Copy, Debug, PartialEq, Eq, Structural)]
pub struct Tally {
    pub sum: u128,
    pub count: u64,
}

impl View for Tally {
    type V = (nat, nat);

    open spec fn view(&self) -> (nat, nat) {
        (self.sum as nat, self.count as nat)
    }
}

impl Tally {
    /// The tally of no values.
    pub fn zero() -> (t: Tally)
        ensures
            t@ == (0nat, 0nat),
    {
        Tally { sum: 0, count: 0 }
    }

    /// The tally of the one value `value`.
    pub fn of(value: u64) -> (t: Tally)
        ensures
            t@ == (value as nat, 1nat),
    {
        Tally { sum: value as u128, count: 1 }
    }

    /// The tally of the values of both tallies, unless its sum or its count
    /// is out of range.
    pub fn combine(self, other: Tally) -> (both: Option<Tally>)
        ensures
            both is Some <==> self.sum + other.sum <= u128::MAX && self.count + other.count
                <= u64::MAX,
            both is Some ==> both->0@ == plus(self@, other@),
    {
        if self.sum > u128::MAX - other.sum || self.count > u64::MAX - other.count {
            None
        } else {
            Some(Tally { sum: self.sum + other.sum, count: self.count + other.count })
        }
    }

    /// The average of the values: their sum over their number. Without values
    /// there is none.
    pub fn mean(self) -> (r: Result<Ratio, MetricsError>)
        ensures
            self.count == 0 <==> r == Err::<Ratio, MetricsError>(MetricsError::EmptyGraph),
            self.count > 0 <==> r == Ok::<Ratio, MetricsError>(
                (Ratio { num: self.sum, den: self.count as u128 }),
            ),
    {
        if self.count == 0 {
            Err(MetricsError::EmptyGraph)
        } else {
            Ok(Ratio { num: self.sum, den: self.count as u128 })
        }
    }
}

/// Tallies can be combined in any grouping.
pub proof fn lemma_plus_associative(a: (nat, nat), b: (nat, nat), c: (nat, nat))
    ensures
        plus(plus(a, b), c) == plus(a, plus(b, c)),
{
}

/// Tallies can be combined in any order.
pub proof fn lemma_plus_commutative(a: (nat, nat), b: (nat, nat))
    ensures
        plus(a, b) == plus(b, a),
{
}

/// Combining with the empty tally changes nothing.
pub proof fn lemma_plus_zero(a: (nat, nat))
    ensures
        plus(a, (0nat, 0nat)) == a,
        plus((0nat, 0nat), a) == a,
{
}

} // verus!
