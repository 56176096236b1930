//! Floating-point numbers by their bits.
//!
//! The library stores and orders frequencies and scores, and computes none of them. A value
//! is its IEEE 754 bit pattern; the order of two values can be read off their patterns.
use vstd::prelude::*;

verus! {

/// A single-precision number, by its bits.
#[derive(Clone, Copy, Debug, Default, PartialEq, Eq, Structural)]
pub struct Single {
    pub bits: u32,
}

/// A double-precision number, by its bits.
#[derive(Clone, Copy, Debug, Default, PartialEq, Eq, Structural)]
pub struct Double {
    pub bits: u64,
}

impl Single {
    /// The bits without the sign.
    pub open spec fn magnitude(self) -> int {
        if self.bits < 0x8000_0000 {
            self.bits as int
        } else {
            self.bits - 0x8000_0000
        }
    }

    pub open spec fn is_nan_spec(self) -> bool {
        self.magnitude() > 0x7f80_0000
    }

    /// A number that orders the values which are not NaN; the two zeros share one.
    pub open spec fn order(self) -> int {
        if self.bits < 0x8000_0000 {
            self.bits as int
        } else {
            -(self.bits - 0x8000_0000)
        }
    }

    /// `self < other` of IEEE 754: false where either is NaN.
    pub open spec fn less_spec(self, other: Single) -> bool {
        !self.is_nan_spec() && !other.is_nan_spec() && self.order() < other.order()
    }

    pub fn is_nan(self) -> (r: bool)
        ensures
            r == self.is_nan_spec(),
    {
        let m: u32 = if self.bits < 0x8000_0000 {
            self.bits
        } else {
            self.bits - 0x8000_0000
        };
        m > 0x7f80_0000
    }

    /// Neither infinite nor NaN.
    pub fn is_finite(self) -> (r: bool)
        ensures
            r == (self.magnitude() < 0x7f80_0000),
    {
        let m: u32 = if self.bits < 0x8000_0000 {
            self.bits
        } else {
            self.bits - 0x8000_0000
        };
        m < 0x7f80_0000
    }

    fn rank(self) -> (r: i64)
        ensures
            r == self.order(),
    {
        if self.bits < 0x8000_0000 {
            self.bits as i64
        } else {
            0 - ((self.bits - 0x8000_0000) as i64)
        }
    }

    pub fn less(self, other: Single) -> (r: bool)
        ensures
            r == self.less_spec(other),
    {
        !self.is_nan() && !other.is_nan() && self.rank() < other.rank()
    }

    /// `self` held between `lo` and `hi`; NaN stays NaN.
    pub open spec fn clamp_spec(self, lo: Single, hi: Single) -> Single {
        if self.less_spec(lo) {
            lo
        } else if hi.less_spec(self) {
            hi
        } else {
            self
        }
    }

    pub fn clamp(self, lo: Single, hi: Single) -> (r: Single)
        ensures
            r == self.clamp_spec(lo, hi),
    {
        if self.less(lo) {
            lo
        } else if hi.less(self) {
            hi
        } else {
            self
        }
    }
}

impl Double {
    pub open spec fn magnitude(self) -> int {
        if self.bits < 0x8000_0000_0000_0000 {
            self.bits as int
        } else {
            self.bits - 0x8000_0000_0000_0000
        }
    }

    pub open spec fn is_nan_spec(self) -> bool {
        self.magnitude() > 0x7ff0_0000_0000_0000
    }

    pub open spec fn order(self) -> int {
        if self.bits < 0x8000_0000_0000_0000 {
            self.bits as int
        } else {
            -(self.bits - 0x8000_0000_0000_0000)
        }
    }

    /// `self < other` of IEEE 754: false where either is NaN.
    pub open spec fn less_spec(self, other: Double) -> bool {
        !self.is_nan_spec() && !other.is_nan_spec() && self.order() < other.order()
    }

    pub fn is_nan(self) -> (r: bool)
        ensures
            r == self.is_nan_spec(),
    {
        let m: u64 = if self.bits < 0x8000_0000_0000_0000 {
            self.bits
        } else {
            self.bits - 0x8000_0000_0000_0000
        };
        m > 0x7ff0_0000_0000_0000
    }

    fn rank(self) -> (r: i128)
        ensures
            r == self.order(),
    {
        if self.bits < 0x8000_0000_0000_0000 {
            self.bits as i128
        } else {
            0 - ((self.bits - 0x8000_0000_0000_0000) as i128)
        }
    }

    pub fn less(self, other: Double) -> (r: bool)
        ensures
            r == self.less_spec(other),
    {
        !self.is_nan() && !other.is_nan() && self.rank() < other.rank()
    }
}

} // verus!
