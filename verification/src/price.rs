//! Prices and quantities as integers: a price is a number of ticks, a quantity a
//! number of lots. No value in the library is a floating-point number.

use vstd::prelude::*;

verus! {

/// A price in ticks.
#[derive(Clone, Copy, PartialEq, Eq, Structural, PartialOrd, Ord, Hash, Debug)]
pub struct Px(pub i64);

/// An aggregate quantity in lots. Zero stands for an empty level.
#[derive(Clone, Copy, PartialEq, Eq, Structural, PartialOrd, Ord, Hash, Debug)]
pub struct Qty(pub i64);

impl Px {
    /// The price of zero ticks.
    #[inline]
    #[must_use]
    pub fn zero() -> (p: Px)
        ensures
            p == Px(0),
    {
        Px(0)
    }

    /// The price as a tick count.
    #[inline]
    #[must_use]
    pub fn ticks(self) -> (t: i64)
        ensures
            t == self.0,
    {
        self.0
    }
}

impl Qty {
    /// The empty quantity.
    #[inline]
    #[must_use]
    pub fn zero() -> (q: Qty)
        ensures
            q == Qty(0),
    {
        Qty(0)
    }

    /// The quantity as a lot count.
    #[inline]
    #[must_use]
    pub fn lots(self) -> (n: i64)
        ensures
            n == self.0,
    {
        self.0
    }

    /// Whether the quantity is zero.
    #[inline]
    #[must_use]
    pub fn is_zero(self) -> (b: bool)
        ensures
            b == (self.0 == 0),
    {
        self.0 == 0
    }
}

} // verus!
