use vstd::prelude::*;

verus! {

/// Sign of a nonzero number.
#[derive(Debug, Copy, Clone, PartialEq, Eq, Structural, Hash, PartialOrd, Ord)]
pub enum Sign {
    Pos,
    Neg,
}

impl Sign {
    /// The value of the sign: `1` or `-1`.
    pub open spec fn val(self) -> int {
        match self {
            Sign::Pos => 1,
            Sign::Neg => -1,
        }
    }

    /// Returns the sign as an `i8` (`1` or `-1`).
    pub fn to_i8(self) -> (r: i8)
        ensures
            r == self.val(),
    {
        match self {
            Sign::Pos => 1,
            Sign::Neg => -1,
        }
    }

    /// Returns the sign of a nonzero number.
    pub fn from_i8(i: i8) -> (r: Sign)
        requires
            i != 0,
        ensures
            i > 0 ==> r == Sign::Pos,
            i < 0 ==> r == Sign::Neg,
    {
        if i > 0 {
            Sign::Pos
        } else {
            Sign::Neg
        }
    }

    /// Returns `Pos` if the lowest bit of `b` is clear, and `Neg` otherwise.
    pub fn from_lsb(b: u8) -> (r: Sign)
        ensures
            r == (if b % 2 == 0 { Sign::Pos } else { Sign::Neg }),
    {
        if b & 1 == 0 {
            assert(b % 2 == 0) by (bit_vector)
                requires
                    b & 1 == 0,
            ;
            Sign::Pos
        } else {
            assert(b % 2 == 1) by (bit_vector)
                requires
                    b & 1 != 0,
            ;
            Sign::Neg
        }
    }

    /// Returns `x` multiplied by the sign.
    pub fn apply(self, x: i8) -> (r: i8)
        requires
            x != i8::MIN,
        ensures
            r == self.val() * x,
    {
        match self {
            Sign::Pos => x,
            Sign::Neg => -x,
        }
    }

    /// Returns the product of two signs.
    pub fn times(self, other: Sign) -> (r: Sign)
        ensures
            r.val() == self.val() * other.val(),
    {
        if self == other {
            Sign::Pos
        } else {
            Sign::Neg
        }
    }
}

} // verus!
