//! Path lengths in the min-plus (tropical) semiring: a finite number of hops
//! or `Infinite` for "unreachable".
use vstd::prelude::*;

verus! {

/// The length of a shortest connection between two vertices.
///
/// Lengths are ordered with `Infinite` above every finite length, `min` is the
/// semiring's addition and `plus` its multiplication.
#[derive(Clone, Copy, Debug, PartialEq, Eq, Structural)]
pub enum Distance {
    Finite(u64),
    Infinite,
}

impl Distance {
    /// The order of the semiring: finite lengths by value, `Infinite` last.
    pub open spec fn le(self, other: Distance) -> bool {
        match (self, other) {
            (_, Distance::Infinite) => true,
            (Distance::Infinite, Distance::Finite(_)) => false,
            (Distance::Finite(a), Distance::Finite(b)) => a <= b,
        }
    }

    /// The shorter of two lengths.
    pub open spec fn min_spec(self, other: Distance) -> Distance {
        if self.le(other) {
            self
        } else {
            other
        }
    }

    /// The length of two connections laid end to end. A sum that no `u64`
    /// holds counts as `Infinite`, as does a sum with an `Infinite` part.
    pub open spec fn plus_spec(self, other: Distance) -> Distance {
        match (self, other) {
            (Distance::Finite(a), Distance::Finite(b)) => if a + b <= u64::MAX {
                Distance::Finite((a + b) as u64)
            } else {
                Distance::Infinite
            },
            _ => Distance::Infinite,
        }
    }

    /// Whether the length is a number of hops.
    pub fn is_finite(&self) -> (finite: bool)
        ensures
            finite == (*self is Finite),
    {
        match self {
            Distance::Finite(_) => true,
            Distance::Infinite => false,
        }
    }

    /// The hop count of a finite length, `None` for `Infinite`.
    pub fn hops(&self) -> (hops: Option<u64>)
        ensures
            hops == match *self {
                Distance::Finite(d) => Some(d),
                Distance::Infinite => None::<u64>,
            },
    {
        match self {
            Distance::Finite(d) => Some(*d),
            Distance::Infinite => None,
        }
    }

    /// Whether `self` is strictly shorter than `other`.
    pub fn less_than(self, other: Distance) -> (less: bool)
        ensures
            less == !other.le(self),
    {
        match self {
            Distance::Infinite => false,
            Distance::Finite(a) => match other {
                Distance::Infinite => true,
                Distance::Finite(b) => a < b,
            },
        }
    }

    /// The shorter of two lengths.
    #[verifier::when_used_as_spec(min_spec)]
    pub fn min(self, other: Distance) -> (least: Distance)
        ensures
            least == self.min_spec(other),
    {
        if other.less_than(self) {
            other
        } else {
            self
        }
    }

    /// The length of two connections laid end to end.
    #[verifier::when_used_as_spec(plus_spec)]
    pub fn plus(self, other: Distance) -> (total: Distance)
        ensures
            total == self.plus_spec(other),
    {
        match self {
            Distance::Infinite => Distance::Infinite,
            Distance::Finite(a) => match other {
                Distance::Infinite => Distance::Infinite,
                Distance::Finite(b) => match a.checked_add(b) {
                    Some(sum) => Distance::Finite(sum),
                    None => Distance::Infinite,
                },
            },
        }
    }
}

/// `min` is associative, and `Infinite` is its unit.
pub proof fn lemma_min_associative(a: Distance, b: Distance, c: Distance)
    ensures
        a.min(b.min(c)) == a.min(b).min(c),
        a.min(Distance::Infinite) == a,
        Distance::Infinite.min(a) == a,
{
}

} // verus!
