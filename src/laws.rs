//! Properties of the `%g` text that hold for every value and every directive.
use crate::decimal::{exact_scaled, sig_digits};
use crate::digits::{dec_digits, digit_char, zeros};
use crate::format::{
    finite_body, g_text, lemma_pad_field_len, plain_directives, sign_text, FormatDirectives,
};
use crate::render::{body_g, trim_zeros, uses_scientific, with_fraction};
use crate::value::FloatValue;
use vstd::prelude::*;

verus! {

/// A decimal digit character.
pub open spec fn is_digit(c: char) -> bool {
    '0' <= c <= '9'
}

/// Every character is a decimal digit.
pub open spec fn all_digit_chars(s: Seq<char>) -> bool {
    forall|i: int| 0 <= i < s.len() ==> is_digit(#[trigger] s[i])
}

proof fn lemma_dec_digits_are_digits(n: nat, len: nat)
    ensures
        all_digit_chars(dec_digits(n, len)),
        dec_digits(n, len).len() == len,
    decreases len,
{
    if len > 0 {
        lemma_dec_digits_are_digits(n / 10, (len - 1) as nat);
        let c = digit_char(n % 10);
        assert(is_digit(c));
    }
}

pub proof fn lemma_sig_digits_are_digits(n: nat, s: nat, p: nat)
    ensures
        all_digit_chars(sig_digits(n, s, p).0),
        sig_digits(n, s, p).0.len() == p,
{
    if n == 0 {
    } else {
        let nd = crate::digits::num_digits(n);
        if p >= nd {
            lemma_dec_digits_are_digits(n * crate::digits::pow10((p - nd) as nat), p);
        } else {
            let u = crate::digits::pow10((nd - p) as nat);
            let q = n / u;
            lemma_dec_digits_are_digits(q, p);
            lemma_dec_digits_are_digits(q + 1, p);
            lemma_dec_digits_are_digits(crate::digits::pow10((p - 1) as nat), p);
        }
    }
}

/// Trimming keeps a prefix, and only zeros are removed.
pub proof fn lemma_trim_zeros_prefix(s: Seq<char>)
    ensures
        trim_zeros(s).len() <= s.len(),
        trim_zeros(s) == s.subrange(0, trim_zeros(s).len() as int),
        s == trim_zeros(s) + zeros((s.len() - trim_zeros(s).len()) as nat),
        trim_zeros(s).len() > 0 ==> trim_zeros(s).last() != '0',
    decreases s.len(),
{
    if s.len() > 0 && s.last() == '0' {
        let t = s.drop_last();
        lemma_trim_zeros_prefix(t);
        let k = (t.len() - trim_zeros(t).len()) as nat;
        assert(s =~= t.push('0'));
        assert(t.push('0') =~= trim_zeros(t) + zeros(k + 1));
        assert(trim_zeros(t) =~= s.subrange(0, trim_zeros(t).len() as int));
    } else {
        assert(s.subrange(0, s.len() as int) =~= s);
        assert(s + zeros(0) =~= s);
    }
}

proof fn lemma_with_fraction_chars(i: Seq<char>, f: Seq<char>, alt: bool)
    requires
        all_digit_chars(i),
        all_digit_chars(f),
    ensures
        forall|x: int|
            0 <= x < with_fraction(i, f, alt).len() ==> is_digit(#[trigger] with_fraction(i, f, alt)[x])
                || with_fraction(i, f, alt)[x] == '.',
{
    lemma_trim_zeros_prefix(f);
    let t = trim_zeros(f);
    assert forall|x: int| 0 <= x < t.len() implies is_digit(#[trigger] t[x]) by {
        assert(t[x] == f[x]);
    }
}

/// With the default directives a finite value that is not negative is written without a
/// sign: the text starts with a digit. Unless scientific notation is chosen, it holds
/// nothing but digits and a decimal point, so no sign and no exponent suffix.
pub proof fn law_unsigned_default(mantissa: u64, exp2: i32)
    ensures
        ({
            let t = g_text(FloatValue::Finite { negative: false, mantissa, exp2 }, plain_directives());
            let (n, s) = exact_scaled(mantissa as nat, exp2 as int);
            let e = sig_digits(n, s, 6).1;
            &&& t.len() > 0
            &&& is_digit(t[0])
            &&& !uses_scientific(e, 6) ==> forall|x: int|
                0 <= x < t.len() ==> is_digit(#[trigger] t[x]) || t[x] == '.'
        }),
{
    let (n, s) = exact_scaled(mantissa as nat, exp2 as int);
    let (d, e) = sig_digits(n, s, 6);
    lemma_sig_digits_are_digits(n, s, 6);
    let body = body_g(d, e, 6, false);
    let t = g_text(FloatValue::Finite { negative: false, mantissa, exp2 }, plain_directives());
    assert(sign_text(false, false) =~= Seq::<char>::empty());
    assert(t =~= body);
    assert(is_digit(d[0]));
    if uses_scientific(e, 6) {
        let i = d.subrange(0, 1);
        let f = d.subrange(1, 6);
        lemma_trim_zeros_prefix(f);
        assert(body[0] == d[0]);
    } else if e >= 0 {
        let i = d.subrange(0, e + 1);
        let f = d.subrange(e + 1, 6);
        assert(all_digit_chars(i));
        assert(all_digit_chars(f));
        lemma_with_fraction_chars(i, f, false);
        lemma_trim_zeros_prefix(f);
        assert(body[0] == d[0]);
    } else {
        let i = seq!['0'];
        let f = zeros((-e - 1) as nat) + d;
        assert(all_digit_chars(i));
        assert(all_digit_chars(f));
        lemma_with_fraction_chars(i, f, false);
        lemma_trim_zeros_prefix(f);
        assert(body[0] == '0');
    }
}

/// The alternate form keeps the whole fraction and its point. Without it, the fraction
/// loses exactly its trailing zeros: what remains is empty, with no point written, or
/// ends in a nonzero digit.
pub proof fn law_trimming(int_part: Seq<char>, frac: Seq<char>)
    ensures
        with_fraction(int_part, frac, true) == int_part + seq!['.'] + frac,
        ({
            let r = with_fraction(int_part, frac, false);
            let g = trim_zeros(frac);
            &&& frac == g + zeros((frac.len() - g.len()) as nat)
            &&& g.len() == 0 ==> r == int_part
            &&& g.len() > 0 ==> r == int_part + seq!['.'] + g && g.last() != '0'
        }),
{
    lemma_trim_zeros_prefix(frac);
}

/// A field narrower than the text leaves the text unchanged; a wider one gives exactly
/// its width.
pub proof fn law_width(value: FloatValue, d: FormatDirectives, w: usize)
    ensures
        ({
            let bare = g_text(value, FormatDirectives { width: None, ..d });
            let padded = g_text(value, FormatDirectives { width: Some(w), ..d });
            &&& bare.len() >= w ==> padded == bare
            &&& bare.len() < w ==> padded.len() == w
        }),
{
    let bare_d = FormatDirectives { width: None, ..d };
    let wide_d = FormatDirectives { width: Some(w), ..d };
    match value {
        FloatValue::Nan => {
            lemma_pad_field_len(sign_text(false, d.force_sign), seq!['n', 'a', 'n'], 0, false, d.left_justify);
            lemma_pad_field_len(sign_text(false, d.force_sign), seq!['n', 'a', 'n'], w as nat, false, d.left_justify);
        },
        FloatValue::Infinite { negative } => {
            lemma_pad_field_len(sign_text(negative, d.force_sign), seq!['i', 'n', 'f'], 0, false, d.left_justify);
            lemma_pad_field_len(sign_text(negative, d.force_sign), seq!['i', 'n', 'f'], w as nat, false, d.left_justify);
        },
        FloatValue::Finite { negative, mantissa, exp2 } => {
            let b = finite_body(mantissa as nat, exp2 as int, crate::format::effective_precision(d.precision), d.alternate);
            lemma_pad_field_len(sign_text(negative, d.force_sign), b, 0, d.zero_pad, d.left_justify);
            lemma_pad_field_len(sign_text(negative, d.force_sign), b, w as nat, d.zero_pad, d.left_justify);
        },
    }
}

/// Left justification overrides zero padding.
pub proof fn law_left_justify_wins(value: FloatValue, d: FormatDirectives)
    ensures
        g_text(value, FormatDirectives { zero_pad: true, left_justify: true, ..d })
            == g_text(value, FormatDirectives { zero_pad: false, left_justify: true, ..d }),
{
}

/// Not-a-number and the infinities are written as fixed words whatever the precision
/// and the alternate form; a forced sign marks positive infinity.
pub proof fn law_special_values(precision: Option<usize>, alternate: bool)
    ensures
        ({
            let d = FormatDirectives { precision, alternate, ..plain_directives() };
            &&& g_text(FloatValue::Nan, d) == seq!['n', 'a', 'n']
            &&& g_text(FloatValue::Infinite { negative: false }, d) == seq!['i', 'n', 'f']
            &&& g_text(FloatValue::Infinite { negative: true }, d) == seq!['-', 'i', 'n', 'f']
            &&& g_text(FloatValue::Infinite { negative: false }, FormatDirectives { force_sign: true, ..d })
                == seq!['+', 'i', 'n', 'f']
        }),
{
    let d = FormatDirectives { precision, alternate, ..plain_directives() };
    assert(g_text(FloatValue::Nan, d) =~= seq!['n', 'a', 'n']);
    assert(g_text(FloatValue::Infinite { negative: false }, d) =~= seq!['i', 'n', 'f']);
    assert(g_text(FloatValue::Infinite { negative: true }, d) =~= seq!['-', 'i', 'n', 'f']);
    assert(g_text(FloatValue::Infinite { negative: false }, FormatDirectives { force_sign: true, ..d })
        =~= seq!['+', 'i', 'n', 'f']);
}

} // verus!
