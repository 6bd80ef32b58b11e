//! Intervals on the axis, with an optional ±∞ on either side.
use vstd::prelude::*;

verus! {

/// A data-space position: a whole number of the host's data units, or one of
/// the two infinities.
#[derive(Clone, Copy, Debug, PartialEq, Eq, Structural)]
pub enum Coord {
    NegInf,
    Finite(i64),
    PosInf,
}

impl Coord {
    /// The total order `-∞ < every finite value < +∞`.
    pub open spec fn le(self, o: Coord) -> bool {
        match (self, o) {
            (Coord::NegInf, _) => true,
            (_, Coord::PosInf) => true,
            (Coord::Finite(a), Coord::Finite(b)) => a <= b,
            _ => false,
        }
    }

    pub open spec fn lt(self, o: Coord) -> bool {
        self.le(o) && self != o
    }

    /// Whether this position is at or left of the point `p / 2`.
    pub open spec fn at_or_below_half(self, p: int) -> bool {
        match self {
            Coord::NegInf => true,
            Coord::Finite(v) => 2 * v <= p,
            Coord::PosInf => false,
        }
    }

    /// Whether this position is at or right of the point `p / 2`.
    pub open spec fn at_or_above_half(self, p: int) -> bool {
        match self {
            Coord::NegInf => false,
            Coord::Finite(v) => p <= 2 * v,
            Coord::PosInf => true,
        }
    }

    /// `self <= o` in the order of [`Coord::le`].
    pub fn less_eq(&self, o: &Coord) -> (r: bool)
        ensures
            r == self.le(*o),
    {
        match (self, o) {
            (Coord::NegInf, _) => true,
            (_, Coord::PosInf) => true,
            (Coord::Finite(a), Coord::Finite(b)) => *a <= *b,
            _ => false,
        }
    }

    pub open spec fn max_spec(self, o: Coord) -> Coord {
        if self.le(o) {
            o
        } else {
            self
        }
    }

    pub fn max(self, o: Coord) -> (r: Coord)
        ensures
            r == self.max_spec(o),
    {
        if self.less_eq(&o) {
            o
        } else {
            self
        }
    }
}

/// The length of an interval: a whole number of data units, or unbounded.
#[derive(Clone, Copy, Debug, PartialEq, Eq, Structural)]
pub enum Length {
    Finite(u64),
    Infinite,
}

/// A closed interval `[start, end]` of the axis; either bound may be infinite.
///
/// A well-formed interval has `start <= end`, which the constructors ensure.
#[derive(Clone, Copy, Debug, PartialEq, Eq, Structural)]
pub struct Interval {
    /// Lower bound in data units. Can be -∞.
    pub start: Coord,
    /// Upper bound in data units. Can be +∞.
    pub end: Coord,
}

impl Interval {
    pub open spec fn wf(self) -> bool {
        self.start.le(self.end)
    }

    /// The interval spanned by two endpoints given in either order.
    pub open spec fn ordered(a: Coord, b: Coord) -> Interval {
        if a.le(b) {
            Interval { start: a, end: b }
        } else {
            Interval { start: b, end: a }
        }
    }

    pub open spec fn is_empty_spec(self) -> bool {
        self.start == self.end
    }

    /// Whether the point `p / 2` lies in the interval. Halves tell touching
    /// intervals (`[0, 5]`, `[5, 9]`) from ones with a gap (`[0, 5]`, `[6, 9]`).
    pub open spec fn holds_half(self, p: int) -> bool {
        self.start.at_or_below_half(p) && self.end.at_or_above_half(p)
    }

    pub open spec fn len_spec(self) -> Length {
        match (self.start, self.end) {
            (Coord::Finite(a), Coord::Finite(b)) => if a <= b {
                Length::Finite((b - a) as u64)
            } else {
                Length::Finite(0)
            },
            (Coord::NegInf, Coord::PosInf) => Length::Infinite,
            (Coord::PosInf, Coord::NegInf) => Length::Infinite,
            (Coord::Finite(_), _) => Length::Infinite,
            (_, Coord::Finite(_)) => Length::Infinite,
            _ => Length::Finite(0),
        }
    }

    /// The length `end - start`, never negative: infinite when exactly one
    /// bound is infinite or when both are infinite with opposite signs, and
    /// zero for two infinities of the same sign.
    pub fn len(&self) -> (r: Length)
        ensures
            r == self.len_spec(),
    {
        match (self.start, self.end) {
            (Coord::Finite(a), Coord::Finite(b)) => {
                if a <= b {
                    Length::Finite((b as i128 - a as i128) as u64)
                } else {
                    Length::Finite(0)
                }
            },
            (Coord::NegInf, Coord::PosInf) => Length::Infinite,
            (Coord::PosInf, Coord::NegInf) => Length::Infinite,
            (Coord::Finite(_), _) => Length::Infinite,
            (_, Coord::Finite(_)) => Length::Infinite,
            _ => Length::Finite(0),
        }
    }

    /// Create a new interval from two endpoints.
    pub fn new(a: Coord, b: Coord) -> (r: Self)
        ensures
            r == Interval::ordered(a, b),
            r.wf(),
    {
        if a.less_eq(&b) {
            Interval { start: a, end: b }
        } else {
            Interval { start: b, end: a }
        }
    }

    pub fn closed(a: Coord, b: Coord) -> (r: Self)
        ensures
            r == Interval::ordered(a, b),
            r.wf(),
    {
        Self::new(a, b)
    }

    /// (-∞, b]
    pub fn below(b: Coord) -> (r: Self)
        ensures
            r == Interval::ordered(Coord::NegInf, b),
            r.start == Coord::NegInf && r.end == b,
    {
        Self::new(Coord::NegInf, b)
    }

    /// [a, +∞)
    pub fn above(a: Coord) -> (r: Self)
        ensures
            r == Interval::ordered(a, Coord::PosInf),
            r.start == a && r.end == Coord::PosInf,
    {
        Self::new(a, Coord::PosInf)
    }

    /// (-∞, +∞)
    pub fn all() -> (r: Self)
        ensures
            r.start == Coord::NegInf && r.end == Coord::PosInf,
    {
        Self::new(Coord::NegInf, Coord::PosInf)
    }

    /// Return true if the interval is effectively empty.
    pub fn is_empty(&self) -> (r: bool)
        ensures
            r == self.is_empty_spec(),
    {
        self.start == self.end
    }

    /// Returns `true` if the value `x` lies within [start, end].
    pub fn contains(&self, x: i64) -> (r: bool)
        ensures
            r == (self.start.le(Coord::Finite(x)) && Coord::Finite(x).le(self.end)),
    {
        let p = Coord::Finite(x);
        self.start.less_eq(&p) && p.less_eq(&self.end)
    }
}

/// Building an interval does not depend on the order of its endpoints.
pub proof fn lemma_new_order_independent(a: Coord, b: Coord)
    ensures
        Interval::ordered(a, b) == Interval::ordered(b, a),
{
}

} // verus!
