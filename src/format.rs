//! The `%g` formatter: directives, the text it produces, and the bound on its length.
use crate::decimal::{exact_decimal, exact_scaled, sig_digits, significant};
use crate::digits::zeros;
use crate::render::{body_g, pad, pad_field, render_body, uses_scientific};
use crate::value::FloatValue;
use vstd::prelude::*;

verus! {

/// Outputs of this length or longer are refused.
pub const OUTPUT_LIMIT: usize = 200;

/// What one `%g` conversion is asked to do.
#[derive(Debug, Clone, Copy, PartialEq, Eq)]
pub struct FormatDirectives {
    /// Pad with `0` after the sign rather than with spaces (finite values only).
    pub zero_pad: bool,
    /// Pad on the right; overrides `zero_pad`.
    pub left_justify: bool,
    /// Write `+` before values that are not negative.
    pub force_sign: bool,
    /// Keep trailing zeros and the decimal point.
    pub alternate: bool,
    /// Minimum length of the output.
    pub width: Option<usize>,
    /// Number of significant digits; six when absent, and zero counts as one.
    pub precision: Option<usize>,
}

/// No flag, no width, the default precision.
pub open spec fn plain_directives() -> FormatDirectives {
    FormatDirectives {
        zero_pad: false,
        left_justify: false,
        force_sign: false,
        alternate: false,
        width: None,
        precision: None,
    }
}

impl Default for FormatDirectives {
    fn default() -> (r: FormatDirectives)
        ensures
            r == plain_directives(),
    {
        FormatDirectives {
            zero_pad: false,
            left_justify: false,
            force_sign: false,
            alternate: false,
            width: None,
            precision: None,
        }
    }
}

/// Why a conversion produced nothing.
#[derive(Debug, Clone, Copy, PartialEq, Eq)]
pub enum FormatError {
    /// The text would reach `OUTPUT_LIMIT` characters.
    Overflow,
}

/// The number of significant digits that `precision` asks for.
pub open spec fn effective_precision(precision: Option<usize>) -> nat {
    match precision {
        None => 6,
        Some(p) => if p == 0 { 1 } else { p as nat },
    }
}

/// The minimum length that `width` asks for.
pub open spec fn min_width(width: Option<usize>) -> nat {
    match width {
        None => 0,
        Some(w) => w as nat,
    }
}

/// The sign written before a value.
pub open spec fn sign_text(negative: bool, force_sign: bool) -> Seq<char> {
    if negative {
        seq!['-']
    } else if force_sign {
        seq!['+']
    } else {
        Seq::empty()
    }
}

/// The unsigned `%g` text of the finite value `mantissa * 2^exp2` at precision `p`.
pub open spec fn finite_body(mantissa: nat, exp2: int, p: nat, alt: bool) -> Seq<char> {
    let (n, s) = exact_scaled(mantissa, exp2);
    let (d, e) = sig_digits(n, s, p);
    body_g(d, e, p, alt)
}

/// The text that C's `printf` writes for `value` under `%g` with the directives `d`.
/// Not-a-number counts as positive; special values are padded with spaces only.
pub open spec fn g_text(value: FloatValue, d: FormatDirectives) -> Seq<char> {
    let w = min_width(d.width);
    match value {
        FloatValue::Nan => pad_field(
            sign_text(false, d.force_sign),
            seq!['n', 'a', 'n'],
            w,
            false,
            d.left_justify,
        ),
        FloatValue::Infinite { negative } => pad_field(
            sign_text(negative, d.force_sign),
            seq!['i', 'n', 'f'],
            w,
            false,
            d.left_justify,
        ),
        FloatValue::Finite { negative, mantissa, exp2 } => pad_field(
            sign_text(negative, d.force_sign),
            finite_body(mantissa as nat, exp2 as int, effective_precision(d.precision), d.alternate),
            w,
            d.zero_pad,
            d.left_justify,
        ),
    }
}

/// `r` is the outcome of formatting `value` under `d`: the text when it is shorter than
/// `OUTPUT_LIMIT`, an overflow otherwise.
pub open spec fn formats_as(r: Result<String, FormatError>, value: FloatValue, d: FormatDirectives) -> bool {
    match r {
        Ok(s) => s@ == g_text(value, d) && g_text(value, d).len() < OUTPUT_LIMIT,
        Err(e) => e == FormatError::Overflow && g_text(value, d).len() >= OUTPUT_LIMIT,
    }
}

/// The length of a padded field is the larger of its width and its content.
pub proof fn lemma_pad_field_len(sign: Seq<char>, body: Seq<char>, width: nat, zero_fill: bool, left: bool)
    ensures
        pad_field(sign, body, width, zero_fill, left).len() == if sign.len() + body.len() >= width {
            sign.len() + body.len()
        } else {
            width
        },
{
}

/// In the alternate form every one of the `p` digits is written, with a decimal point.
pub proof fn lemma_alternate_body_len(d: Seq<char>, e: int, p: nat)
    requires
        d.len() == p,
        p >= 1,
    ensures
        body_g(d, e, p, true).len() >= p + 1,
{
    if uses_scientific(e, p) {
    } else if e >= 0 {
    } else {
    }
}

/// Relies on `FromIterator<char> for String`: the string holds the characters in order.
#[verifier::external_body]
fn string_from_chars(v: &Vec<char>) -> (r: String)
    ensures
        r@ == v@,
{
    v.iter().collect()
}

/// Formats `value` as C's `printf` does with `%g` under the directives `d`, or reports
/// that the text would reach `OUTPUT_LIMIT` characters.
pub fn fmt_g(value: &FloatValue, d: &FormatDirectives) -> (r: Result<String, FormatError>)
    requires
        value.wf(),
    ensures
        formats_as(r, *value, *d),
{
    let width: usize = match d.width {
        None => 0,
        Some(w) => w,
    };
    let mut sign: Vec<char> = Vec::new();
    let mut body: Vec<char> = Vec::new();
    let zero_fill: bool;
    match value {
        FloatValue::Nan => {
            if d.force_sign {
                sign.push('+');
            }
            body.push('n');
            body.push('a');
            body.push('n');
            zero_fill = false;
        },
        FloatValue::Infinite { negative } => {
            if *negative {
                sign.push('-');
            } else if d.force_sign {
                sign.push('+');
            }
            body.push('i');
            body.push('n');
            body.push('f');
            zero_fill = false;
        },
        FloatValue::Finite { negative, mantissa, exp2 } => {
            if *negative {
                sign.push('-');
            } else if d.force_sign {
                sign.push('+');
            }
            let p: usize = match d.precision {
                None => 6,
                Some(x) => if x == 0 { 1 } else { x },
            };
            let (n, s) = exact_decimal(*mantissa, *exp2);
            let (pre, e) = significant(&n, s, p);
            if d.alternate && p >= OUTPUT_LIMIT {
                proof {
                    let dg = pre@ + zeros((p - pre.len()) as nat);
                    lemma_alternate_body_len(dg, e as int, p as nat);
                    lemma_pad_field_len(sign@, body_g(dg, e as int, p as nat, true), width as nat, d.zero_pad, d.left_justify);
                }
                return Err(FormatError::Overflow);
            }
            body = render_body(&pre, e, p, d.alternate);
            zero_fill = d.zero_pad;
        },
    }
    assert(sign@ =~= match *value {
        FloatValue::Nan => sign_text(false, d.force_sign),
        FloatValue::Infinite { negative } => sign_text(negative, d.force_sign),
        FloatValue::Finite { negative, .. } => sign_text(negative, d.force_sign),
    });
    assert(value is Nan ==> body@ =~= seq!['n', 'a', 'n']);
    assert(value is Infinite ==> body@ =~= seq!['i', 'n', 'f']);
    proof {
        lemma_pad_field_len(sign@, body@, width as nat, zero_fill, d.left_justify);
    }
    if width >= OUTPUT_LIMIT || body.len() >= OUTPUT_LIMIT || sign.len() + body.len() >= OUTPUT_LIMIT {
        return Err(FormatError::Overflow);
    }
    let out = pad(&sign, &body, width, zero_fill, d.left_justify);
    Ok(string_from_chars(&out))
}

} // verus!
