//! Relevance scores. A score is carried as the bits of a single-precision
//! number and is only compared here.
use vstd::prelude::*;

verus! {

/// The bits of a single-precision number.
#[derive(Clone, Copy, Debug, PartialEq, Eq, Structural)]
pub struct Score {
    /// Sign bit, exponent and fraction.
    pub bits: u32,
}

/// The score of an item that was chosen by hand, the number one.
pub const FULL_SCORE_BITS: u32 = 0x3f80_0000;

impl Score {
    /// The number of the score on a scale that orders numbers as their values
    /// do: the magnitude bits, negated under a sign bit. Both zeros are 0.
    pub open spec fn rank(self) -> int {
        if self.bits < 0x8000_0000 {
            self.bits as int
        } else {
            0x8000_0000 - self.bits
        }
    }

    /// The bits encode no number.
    pub open spec fn is_nan(self) -> bool {
        self.rank() > 0x7f80_0000 || self.rank() < -0x7f80_0000
    }

    /// The number of the score on a scale that orders numbers by value.
    pub fn to_rank(&self) -> (r: i128)
        ensures
            r == self.rank(),
    {
        if self.bits < 0x8000_0000 {
            self.bits as i128
        } else {
            0x8000_0000i128 - self.bits as i128
        }
    }

    /// Whether both scores are numbers and `self` is not below `other`.
    pub fn at_least(&self, other: &Score) -> (r: bool)
        ensures
            r == (!self.is_nan() && !other.is_nan() && self.rank() >= other.rank()),
    {
        let a: i128 = self.to_rank();
        let b: i128 = other.to_rank();
        -0x7f80_0000i128 <= a && a <= 0x7f80_0000i128 && -0x7f80_0000i128 <= b && b
            <= 0x7f80_0000i128 && a >= b
    }

    /// Whether both scores are numbers and `self` is below `other`.
    pub fn below(&self, other: &Score) -> (r: bool)
        ensures
            r == (!self.is_nan() && !other.is_nan() && self.rank() < other.rank()),
    {
        self.to_rank() < other.to_rank() && self.at_least(self) && other.at_least(other)
    }

    /// Whether both scores are the same number.
    pub fn equals(&self, other: &Score) -> (r: bool)
        ensures
            r == (!self.is_nan() && !other.is_nan() && self.rank() == other.rank()),
    {
        self.at_least(other) && other.at_least(self)
    }
}

impl Score {
    /// Scores are ordered as their numbers are: without a sign by their bits, under a
    /// sign the other way round, and below all without one; both zeros are the same.
    /// What has all bits of the exponent and some of the fraction is no number.
    pub proof fn law_rank(self, other: Score)
        ensures
            self.bits < 0x8000_0000 && other.bits < 0x8000_0000 ==> (self.rank() < other.rank()
                <==> self.bits < other.bits),
            self.bits >= 0x8000_0000 && other.bits >= 0x8000_0000 ==> (self.rank() < other.rank()
                <==> self.bits > other.bits),
            self.bits > 0x8000_0000 && other.bits < 0x8000_0000 ==> self.rank() < other.rank(),
            self.bits == 0 && other.bits == 0x8000_0000 ==> self.rank() == other.rank(),
            self.bits < 0x8000_0000 ==> (self.is_nan() <==> self.bits > 0x7f80_0000),
            self.bits >= 0x8000_0000 ==> (self.is_nan() <==> self.bits > 0xff80_0000),
    {
    }
}

} // verus!
