//! Double-precision numbers in their IEEE 754 encoding, as times in seconds are given.

use vstd::prelude::*;
use crate::float;
use crate::float::Float;

verus! {

/// A double-precision number: a sign bit, 11 bits of exponent and 52 bits of fraction.
#[derive(Debug, Clone, Copy, PartialEq, Eq, Structural)]
pub struct F64 {
    pub bits: u64,
}

impl F64 {
    /// Whether the sign bit is set.
    pub open spec fn negative(self) -> bool {
        self.bits >= 0x8000_0000_0000_0000
    }

    /// The encoding without the sign bit.
    pub open spec fn unsigned(self) -> u64 {
        self.bits % 0x8000_0000_0000_0000
    }

    /// Whether this is a number and not infinite.
    pub open spec fn is_finite(self) -> bool {
        self.unsigned() < 0x7ff0_0000_0000_0000
    }

    /// The absolute value of a finite number.
    pub open spec fn magnitude(self) -> float::Dyadic {
        let exponent = self.unsigned() / 0x10_0000_0000_0000;
        let fraction = self.unsigned() % 0x10_0000_0000_0000;
        if exponent == 0 {
            float::Dyadic { m: fraction as nat, e: -1074 }
        } else {
            float::Dyadic { m: (fraction + 0x10_0000_0000_0000) as nat, e: exponent - 1075 }
        }
    }

    /// The number, if it is finite and its sign bit is not set.
    pub fn to_float(self) -> (r: Option<Float>)
        ensures
            match r {
                Some(f) => self.is_finite() && !self.negative() && f@ == self.magnitude() && f.tame(),
                None => !self.is_finite() || self.negative(),
            },
    {
        if self.bits >= 0x7ff0_0000_0000_0000 {
            return None;
        }
        let exponent: u64 = self.bits / 0x10_0000_0000_0000;
        let fraction: u64 = self.bits % 0x10_0000_0000_0000;
        if exponent == 0 {
            Some(Float { m: fraction, e: -1074 })
        } else {
            Some(Float { m: fraction + 0x10_0000_0000_0000, e: exponent as i32 - 1075 })
        }
    }

    /// The encoding of a number of 53 bits.
    pub fn from_float(f: Float) -> (r: F64)
        requires
            0x10_0000_0000_0000 <= f.m < 0x20_0000_0000_0000,
            -1074 <= f.e <= 971,
        ensures
            r.is_finite() && !r.negative(),
            r.magnitude() == f@,
    {
        let exponent = (f.e + 1075) as u64;
        F64 { bits: exponent * 0x10_0000_0000_0000 + (f.m - 0x10_0000_0000_0000) }
    }
}

// ---------------------------------------------------------------------------
// Laws

/// A number between the least and the greatest is encoded with its exponent, plus 1023, before its
/// fraction: it is the fraction, with a 1 before the point, times a power of two.
pub proof fn law_encoding(exponent: nat, fraction: nat)
    requires
        0 < exponent < 2047,
        fraction < 0x10_0000_0000_0000,
    ensures
        ({
            let x = F64 { bits: (exponent * 0x10_0000_0000_0000 + fraction) as u64 };
            &&& x.is_finite() && !x.negative()
            &&& x.magnitude() == (float::Dyadic {
                m: 0x10_0000_0000_0000 + fraction,
                e: exponent - 1023 - 52,
            })
        }),
{
}

} // verus!
