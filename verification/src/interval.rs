//! A closed interval `[lo, hi]` over `u32` bounds.

use vstd::prelude::*;

verus! {

/// Why a construction was refused.
#[derive(Clone, Copy, Debug, PartialEq, Eq, Structural)]
pub enum IntervalError {
    /// A lower bound lies above its upper bound.
    InvalidRange,
    /// A piece of text is neither a number nor a pair of numbers joined by a dash.
    ParseError,
}

/// The inclusive range of integers from a lower to an upper bound.
#[derive(Clone, Copy, Debug, PartialEq, Eq, Ord, Structural)]
pub struct Interval {
    pub(crate) lo: u32,
    pub(crate) hi: u32,
}

impl Interval {
    /// The lower bound.
    pub open(crate) spec fn lo(self) -> int {
        self.lo as int
    }

    /// The upper bound.
    pub open(crate) spec fn hi(self) -> int {
        self.hi as int
    }

    /// The bounds are in order.
    pub open spec fn valid(self) -> bool {
        self.lo() <= self.hi()
    }

    /// Whether the integer `x` lies in the interval.
    pub open spec fn contains(self, x: int) -> bool {
        self.lo() <= x <= self.hi()
    }

    /// The integers that the interval covers.
    pub open spec fn points(self) -> Set<int> {
        Set::new(|x: int| self.contains(x))
    }

    /// How many integers the interval covers.
    pub open spec fn count(self) -> int {
        self.hi() - self.lo() + 1
    }

    /// Builds `[begin, end]`, or refuses bounds that are out of order.
    pub fn new(begin: u32, end: u32) -> (res: Result<Interval, IntervalError>)
        ensures
            begin <= end ==> res is Ok,
            begin > end ==> res == Err::<Interval, IntervalError>(IntervalError::InvalidRange),
            res matches Ok(i) ==> i.lo() == begin && i.hi() == end && i.valid(),
    {
        if begin > end {
            Err(IntervalError::InvalidRange)
        } else {
            Ok(Interval { lo: begin, hi: end })
        }
    }

    /// The interval that covers every `u32`.
    pub fn whole() -> (res: Interval)
        ensures
            res.lo() == 0,
            res.hi() == u32::MAX,
            res.valid(),
    {
        Interval { lo: 0, hi: u32::MAX }
    }

    /// The number of integers covered. The whole domain holds one more than
    /// a `u32` can count, so it is left out.
    pub fn range_size(&self) -> (res: u32)
        requires
            self.valid(),
            self.count() <= u32::MAX,
        ensures
            res == self.count(),
    {
        self.hi - self.lo + 1
    }

    /// The two bounds as a pair.
    pub fn as_tuple(&self) -> (res: (u32, u32))
        ensures
            res.0 == self.lo(),
            res.1 == self.hi(),
    {
        (self.lo, self.hi)
    }

    /// The lower bound.
    pub fn get_inf(&self) -> (res: u32)
        ensures
            res == self.lo(),
    {
        self.lo
    }

    /// The upper bound.
    pub fn get_sup(&self) -> (res: u32)
        ensures
            res == self.hi(),
    {
        self.hi
    }

    /// Whether the bounds are in order.
    pub fn is_valid(&self) -> (res: bool)
        ensures
            res == self.valid(),
    {
        self.lo <= self.hi
    }
}

} // verus!
