//! C-compatible `%g` rendering of binary floating-point values, computed exactly from
//! their bit patterns: significant-digit rounding, the choice between fixed and
//! scientific notation, trimming, sign and padding.
use vstd::prelude::*;

pub mod decimal;
pub mod digits;
pub mod format;
pub mod laws;
pub mod render;
pub mod round_trip;
pub mod value;

pub use format::{fmt_g, FormatDirectives, FormatError};
pub use value::FloatValue;

use format::formats_as;
use value::{f32_value, f64_value};

verus! {

/// A floating-point number, held as its IEEE-754 bit pattern: `GPoint<u64>` for a
/// binary64 value, `GPoint<u32>` for a binary32 value, which formats as its widening to
/// binary64.
#[derive(Debug, Default, Clone, Copy)]
pub struct GPoint<Bits>(
    /// The bit pattern of the number.
    pub Bits,
);

impl GPoint<u64> {
    /// The text of `%g` for this number under the directives `d`.
    pub fn fmt(&self, d: &FormatDirectives) -> (r: Result<String, FormatError>)
        ensures
            formats_as(r, f64_value(self.0), *d),
    {
        let v = FloatValue::from_f64_bits(self.0);
        fmt_g(&v, d)
    }
}

impl GPoint<u32> {
    /// The text of `%g` for this number under the directives `d`.
    pub fn fmt(&self, d: &FormatDirectives) -> (r: Result<String, FormatError>)
        ensures
            formats_as(r, f32_value(self.0), *d),
    {
        let v = FloatValue::from_f32_bits(self.0);
        fmt_g(&v, d)
    }
}

} // verus!
