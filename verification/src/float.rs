//! Binary64 numbers by their bit patterns: enough to compare them.
//!
//! Reading a number from text and calculating with it are left to the caller. What
//! the feeds decide by is the order of the numbers, and that can be told from the
//! bits.

use vstd::prelude::*;

verus! {

/// The bit of the sign.
pub const SIGN: u64 = 0x8000_0000_0000_0000;

/// The bits of infinity, the greatest number.
pub const INFINITY: u64 = 0x7FF0_0000_0000_0000;

/// A binary64 number, given by its bit pattern.
#[derive(Clone, Copy, PartialEq, Eq, Structural, Debug)]
pub struct Float(pub u64);

/// The bit pattern without the sign.
pub open spec fn magnitude(f: Float) -> int {
    if f.0 < SIGN {
        f.0 as int
    } else {
        f.0 - SIGN
    }
}

/// The pattern denotes no number.
pub open spec fn is_nan(f: Float) -> bool {
    magnitude(f) > INFINITY
}

/// The place of a number in the order of all numbers; both zeros have place zero.
pub open spec fn rank(f: Float) -> int {
    if f.0 < SIGN {
        magnitude(f)
    } else {
        -magnitude(f)
    }
}

/// `a` is a smaller number than `b`.
pub open spec fn less(a: Float, b: Float) -> bool {
    !is_nan(a) && !is_nan(b) && rank(a) < rank(b)
}

/// A number above zero.
pub open spec fn is_positive(f: Float) -> bool {
    !is_nan(f) && rank(f) > 0
}

/// A number that is zero or below.
pub open spec fn at_most_zero(f: Float) -> bool {
    !is_nan(f) && rank(f) <= 0
}

/// One of the two zeros.
pub open spec fn is_zero(f: Float) -> bool {
    rank(f) == 0
}

impl Float {
    /// Zero.
    pub fn zero() -> (f: Float)
        ensures
            f == Float(0),
            is_zero(f),
    {
        Float(0)
    }

    /// Whether the pattern denotes no number.
    pub fn nan(&self) -> (r: bool)
        ensures
            r == is_nan(*self),
    {
        let m: u64 = if self.0 < SIGN {
            self.0
        } else {
            self.0 - SIGN
        };
        m > INFINITY
    }

    /// Whether this is a smaller number than `other`.
    pub fn lt(&self, other: &Float) -> (r: bool)
        ensures
            r == less(*self, *other),
    {
        if self.nan() || other.nan() {
            false
        } else if self.0 < SIGN {
            other.0 < SIGN && self.0 < other.0
        } else if other.0 < SIGN {
            self.0 > SIGN || other.0 > 0
        } else {
            self.0 > other.0
        }
    }

    /// Whether this is a number above zero.
    pub fn positive(&self) -> (r: bool)
        ensures
            r == is_positive(*self),
    {
        !self.nan() && 0 < self.0 && self.0 < SIGN
    }

    /// Whether this is a number that is zero or below.
    pub fn not_above_zero(&self) -> (r: bool)
        ensures
            r == at_most_zero(*self),
    {
        !self.nan() && (self.0 == 0 || self.0 >= SIGN)
    }

    /// Whether this is one of the two zeros.
    pub fn zero_or_minus_zero(&self) -> (r: bool)
        ensures
            r == is_zero(*self),
    {
        self.0 == 0 || self.0 == SIGN
    }
}

/// The number read, or zero where none was.
pub open spec fn or_zero(f: Option<Float>) -> Float {
    match f {
        Some(x) => x,
        None => Float(0),
    }
}

/// The number read, or zero where none was.
pub fn unwrap_or_zero(f: Option<Float>) -> (r: Float)
    ensures
        r == or_zero(f),
{
    match f {
        Some(x) => x,
        None => Float::zero(),
    }
}

/// Numbers are ordered: of two of them one is the smaller unless they have the same
/// place, and the order carries over from pair to pair.
pub proof fn law_numbers_are_ordered(a: Float, b: Float, c: Float)
    requires
        !is_nan(a),
        !is_nan(b),
    ensures
        !less(a, a),
        less(a, b) || less(b, a) || rank(a) == rank(b),
        !(less(a, b) && less(b, a)),
        less(a, b) && less(b, c) ==> less(a, c),
{
}

/// What the bit patterns say: a number above zero is one from the first pattern up to
/// infinity; zero is the pattern without a bit or with the sign alone; of two numbers above
/// zero the one with the smaller pattern is the smaller; and every number below zero is
/// smaller than every one above.
pub proof fn law_numbers_by_their_bits(a: Float, b: Float)
    ensures
        is_positive(a) <==> 0 < a.0 <= 0x7FF0_0000_0000_0000,
        is_zero(a) <==> a.0 == 0 || a.0 == 0x8000_0000_0000_0000,
        at_most_zero(a) <==> a.0 == 0 || 0x8000_0000_0000_0000 <= a.0 <= 0xFFF0_0000_0000_0000,
        is_positive(a) && is_positive(b) ==> (less(a, b) <==> a.0 < b.0),
        0x8000_0000_0000_0000 < a.0 <= 0xFFF0_0000_0000_0000 && is_positive(b) ==> less(a, b)
            && !less(b, a),
{
}

} // verus!
