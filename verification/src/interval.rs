//! Closed scalar ranges. The endpoints are fixed-point scalars; the whole
//! line is written as the extreme machine values, and an empty range as an
//! inverted pair, so a union with an empty range returns the other range.
use vstd::prelude::*;

verus! {

pub open spec fn min_i(a: int, b: int) -> int {
    if a < b {
        a
    } else {
        b
    }
}

pub open spec fn max_i(a: int, b: int) -> int {
    if a > b {
        a
    } else {
        b
    }
}

#[derive(Debug, PartialEq, Eq, Structural, Clone, Copy)]
pub struct Interval {
    pub min: i64,
    pub max: i64,
}

impl Interval {
    pub fn new(min: i64, max: i64) -> (r: Interval)
        ensures
            r.min == min,
            r.max == max,
    {
        Interval { min, max }
    }

    /// The smallest range holding both arguments.
    pub fn from_intervals(a: &Interval, b: &Interval) -> (r: Interval)
        ensures
            r.min == min_i(a.min as int, b.min as int),
            r.max == max_i(a.max as int, b.max as int),
    {
        let min = if a.min < b.min { a.min } else { b.min };
        let max = if a.max > b.max { a.max } else { b.max };
        Interval { min, max }
    }

    /// The whole line.
    pub fn default() -> (r: Interval)
        ensures
            r.min == i64::MIN,
            r.max == i64::MAX,
    {
        Interval::new(i64::MIN, i64::MAX)
    }

    /// An empty range: its inverted endpoints are the identity of a union.
    pub fn empty() -> (r: Interval)
        ensures
            r.min == i64::MAX,
            r.max == i64::MIN,
    {
        Interval::new(i64::MAX, i64::MIN)
    }

    pub fn size(&self) -> (r: i64)
        requires
            i64::MIN <= self.max - self.min <= i64::MAX,
        ensures
            r == self.max - self.min,
    {
        self.max - self.min
    }

    pub fn _contains(&self, x: i64) -> (r: bool)
        ensures
            r == (self.min <= x && x <= self.max),
    {
        self.min <= x && x <= self.max
    }

    /// Strict containment: false at both endpoints.
    pub fn surrounds(&self, x: i64) -> (r: bool)
        ensures
            r == (self.min < x && x < self.max),
    {
        self.min < x && x < self.max
    }

    pub fn clamp(&self, x: i64) -> (r: i64)
        ensures
            r == if x < self.min {
                self.min as int
            } else if x > self.max {
                self.max as int
            } else {
                x as int
            },
    {
        if x < self.min {
            self.min
        } else if x > self.max {
            self.max
        } else {
            x
        }
    }

    pub fn _expand(&self, delta: i64) -> (r: Interval)
        requires
            0 <= delta,
            i64::MIN <= self.min - delta / 2,
            self.max + delta / 2 <= i64::MAX,
        ensures
            r.min == self.min - delta / 2,
            r.max == self.max + delta / 2,
    {
        let padding = delta / 2;
        Interval { min: self.min - padding, max: self.max + padding }
    }
}

} // verus!
