//! Binary floating-point values, held as plain integers.
use vstd::prelude::*;

verus! {

/// A binary floating-point value: not a number, an infinity, or the finite value
/// `(-1)^negative * mantissa * 2^exp2` (zero included, with its sign).
#[derive(Debug, Clone, Copy, PartialEq, Eq, Structural)]
pub enum FloatValue {
    Nan,
    Infinite { negative: bool },
    Finite { negative: bool, mantissa: u64, exp2: i32 },
}

impl FloatValue {
    /// The binary exponent stays within the range of the IEEE-754 formats.
    pub open spec fn wf(self) -> bool {
        match self {
            FloatValue::Finite { exp2, .. } => -1100 <= exp2 <= 1100,
            _ => true,
        }
    }
}

/// The value of a binary64 bit pattern.
pub open spec fn f64_value(bits: u64) -> FloatValue {
    let negative = bits / 0x8000_0000_0000_0000 == 1;
    let biased = (bits / 0x10_0000_0000_0000) % 0x800;
    let frac = bits % 0x10_0000_0000_0000;
    if biased == 0x7ff {
        if frac == 0 {
            FloatValue::Infinite { negative }
        } else {
            FloatValue::Nan
        }
    } else if biased == 0 {
        FloatValue::Finite { negative, mantissa: frac, exp2: -1074i32 }
    } else {
        FloatValue::Finite {
            negative,
            mantissa: (frac + 0x10_0000_0000_0000) as u64,
            exp2: (biased - 1075) as i32,
        }
    }
}

/// The value of a binary32 bit pattern (the same number as its widening to binary64).
pub open spec fn f32_value(bits: u32) -> FloatValue {
    let negative = bits / 0x8000_0000 == 1;
    let biased = (bits / 0x80_0000) % 0x100;
    let frac = bits % 0x80_0000;
    if biased == 0xff {
        if frac == 0 {
            FloatValue::Infinite { negative }
        } else {
            FloatValue::Nan
        }
    } else if biased == 0 {
        FloatValue::Finite { negative, mantissa: frac as u64, exp2: -149i32 }
    } else {
        FloatValue::Finite {
            negative,
            mantissa: (frac + 0x80_0000) as u64,
            exp2: (biased - 150) as i32,
        }
    }
}

impl FloatValue {
    /// Decodes a binary64 bit pattern.
    pub fn from_f64_bits(bits: u64) -> (r: FloatValue)
        ensures
            r == f64_value(bits),
            r.wf(),
    {
        let negative = bits / 0x8000_0000_0000_0000 == 1;
        let biased = (bits / 0x10_0000_0000_0000) % 0x800;
        let frac = bits % 0x10_0000_0000_0000;
        if biased == 0x7ff {
            if frac == 0 {
                FloatValue::Infinite { negative }
            } else {
                FloatValue::Nan
            }
        } else if biased == 0 {
            FloatValue::Finite { negative, mantissa: frac, exp2: -1074 }
        } else {
            FloatValue::Finite {
                negative,
                mantissa: frac + 0x10_0000_0000_0000,
                exp2: biased as i32 - 1075,
            }
        }
    }

    /// Decodes a binary32 bit pattern.
    pub fn from_f32_bits(bits: u32) -> (r: FloatValue)
        ensures
            r == f32_value(bits),
            r.wf(),
    {
        let negative = bits / 0x8000_0000 == 1;
        let biased = (bits / 0x80_0000) % 0x100;
        let frac = bits % 0x80_0000;
        if biased == 0xff {
            if frac == 0 {
                FloatValue::Infinite { negative }
            } else {
                FloatValue::Nan
            }
        } else if biased == 0 {
            FloatValue::Finite { negative, mantissa: frac as u64, exp2: -149 }
        } else {
            FloatValue::Finite {
                negative,
                mantissa: (frac + 0x80_0000) as u64,
                exp2: biased as i32 - 150,
            }
        }
    }
}

} // verus!
