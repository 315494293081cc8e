//! Numbers that are compared but never computed with.
//!
//! A probability, its logarithm or a slope reaches this crate as the bit
//! pattern of a number in IEEE 754 single precision: a sign bit, then the
//! magnitude. Whoever holds the number makes the pattern, and reads the
//! number back from it. The patterns of numbers proper form an ordered
//! subset of all patterns; `OrdSub` holds one of them and orders it as the
//! number it stands for.

use core::cmp::Ordering;
use vstd::prelude::*;

verus! {

/// The bit that holds the sign.
pub const SIGN: u32 = 0x8000_0000;

/// The pattern of positive infinity; every greater magnitude is no number.
pub const INFINITY: u32 = 0x7f80_0000;

/// The pattern of the greatest finite number.
pub const GREATEST: u32 = 0x7f7f_ffff;

/// Whether a pattern stands for no number.
pub open spec fn is_nan(bits: u32) -> bool {
    if bits < SIGN {
        bits > INFINITY
    } else {
        bits - SIGN > INFINITY
    }
}

/// The place of a pattern in the order of the numbers: its magnitude, taken
/// negative where the sign bit is set. Both zeros have the place 0.
pub open spec fn rank_of(bits: u32) -> int {
    if bits < SIGN {
        bits as int
    } else {
        SIGN - bits
    }
}

/// A number that is not a NaN, held by its bit pattern.
#[derive(Debug, Copy, Clone)]
pub struct OrdSub(u32);

impl OrdSub {
    /// The bit pattern.
    pub closed spec fn pattern(self) -> u32 {
        self.0
    }

    /// The number with a given bit pattern.
    pub closed spec fn with_pattern(bits: u32) -> OrdSub {
        OrdSub(bits)
    }

    /// A number is known by its pattern.
    pub proof fn lemma_pattern(self, bits: u32)
        ensures
            OrdSub::with_pattern(bits).pattern() == bits,
            OrdSub::with_pattern(self.pattern()) == self,
    {
    }

    /// The place of the number in the order of all numbers.
    pub open spec fn rank(self) -> int {
        rank_of(self.pattern())
    }

    /// Returns the number with the given bit pattern, or nothing where the
    /// pattern is that of a NaN.
    pub fn new(bits: u32) -> (number: Option<OrdSub>)
        ensures
            is_nan(bits) <==> number is None,
            number matches Some(n) ==> n.pattern() == bits,
    {
        let magnitude: u32 = if bits < SIGN {
            bits
        } else {
            bits - SIGN
        };
        if magnitude > INFINITY {
            None
        } else {
            Some(OrdSub(bits))
        }
    }

    /// Returns the bit pattern.
    pub fn bits(&self) -> (bits: u32)
        ensures
            bits == self.pattern(),
    {
        self.0
    }

    /// Returns zero.
    pub fn zero() -> (number: OrdSub)
        ensures
            number == OrdSub::with_pattern(0),
            number.pattern() == 0,
    {
        OrdSub(0)
    }

    /// Returns the greatest finite number.
    pub fn greatest() -> (number: OrdSub)
        ensures
            number == OrdSub::with_pattern(GREATEST),
            number.pattern() == GREATEST,
    {
        OrdSub(0x7f7f_ffff)
    }

    /// Returns the place of the number in the order of all numbers.
    pub fn place(&self) -> (place: i64)
        ensures
            place == self.rank(),
    {
        if self.0 < SIGN {
            self.0 as i64
        } else {
            SIGN as i64 - self.0 as i64
        }
    }
}

impl PartialEq for OrdSub {
    /// Two numbers are equal where they have the same place; the two zeros
    /// are.
    fn eq(&self, other: &OrdSub) -> (same: bool) {
        self.place() == other.place()
    }
}

impl Eq for OrdSub {

}

impl vstd::std_specs::cmp::PartialEqSpecImpl for OrdSub {
    open spec fn obeys_eq_spec() -> bool {
        true
    }

    open spec fn eq_spec(&self, other: &OrdSub) -> bool {
        self.rank() == other.rank()
    }
}

impl PartialOrd for OrdSub {
    /// Orders two numbers by their places.
    fn partial_cmp(&self, other: &OrdSub) -> (order: Option<Ordering>) {
        let left: i64 = self.place();
        let right: i64 = other.place();
        if left < right {
            Some(Ordering::Less)
        } else if left == right {
            Some(Ordering::Equal)
        } else {
            Some(Ordering::Greater)
        }
    }
}

impl vstd::std_specs::cmp::PartialOrdSpecImpl for OrdSub {
    open spec fn obeys_partial_cmp_spec() -> bool {
        true
    }

    open spec fn partial_cmp_spec(&self, other: &OrdSub) -> Option<Ordering> {
        if self.rank() < other.rank() {
            Some(Ordering::Less)
        } else if self.rank() == other.rank() {
            Some(Ordering::Equal)
        } else {
            Some(Ordering::Greater)
        }
    }
}

} // verus!
