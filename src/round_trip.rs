//! Reading a fixed-notation `%g` text back gives the digits it was written from.
use crate::decimal::{round_up, sig_digits};
use crate::digits::{
    dec_digits, digit_char, lemma_dec_digits_shift, lemma_div_mod_unique, lemma_pow10_add,
    lemma_pow10_pos, num_digits, pow10, zeros,
};
use crate::laws::{all_digit_chars, is_digit, lemma_sig_digits_are_digits, lemma_trim_zeros_prefix};
use crate::render::{body_g, trim_zeros, uses_scientific, with_fraction};
use vstd::prelude::*;

verus! {

/// The value of a decimal digit character.
pub open spec fn char_digit(c: char) -> nat {
    if c == '0' { 0 }
    else if c == '1' { 1 }
    else if c == '2' { 2 }
    else if c == '3' { 3 }
    else if c == '4' { 4 }
    else if c == '5' { 5 }
    else if c == '6' { 6 }
    else if c == '7' { 7 }
    else if c == '8' { 8 }
    else { 9 }
}

/// The integer written by a string of digits.
pub open spec fn digits_value(t: Seq<char>) -> nat
    decreases t.len(),
{
    if t.len() == 0 {
        0
    } else {
        10 * digits_value(t.drop_last()) + char_digit(t.last())
    }
}

/// Reads a decimal text of digits and at most one point, left to right: the digits as
/// one integer `n`, the number `s` of digits after the point (so the text denotes
/// `n / 10^s`), and whether a point was seen.
pub open spec fn read_decimal(t: Seq<char>) -> (nat, nat, bool)
    decreases t.len(),
{
    if t.len() == 0 {
        (0, 0, false)
    } else {
        let (n, s, point) = read_decimal(t.drop_last());
        if t.last() == '.' {
            (n, s, true)
        } else {
            (10 * n + char_digit(t.last()), if point { s + 1 } else { s }, point)
        }
    }
}

proof fn lemma_char_digit(c: char)
    requires
        is_digit(c),
    ensures
        digit_char(char_digit(c)) == c,
        char_digit(c) < 10,
        (char_digit(c) == 0) == (c == '0'),
{
}

proof fn lemma_read_digits(x: Seq<char>)
    requires
        all_digit_chars(x),
    ensures
        read_decimal(x) == (digits_value(x), 0nat, false),
    decreases x.len(),
{
    if x.len() > 0 {
        lemma_read_digits(x.drop_last());
    }
}

proof fn lemma_read_fraction(i: Seq<char>, f: Seq<char>)
    requires
        all_digit_chars(i),
        all_digit_chars(f),
    ensures
        read_decimal(i + seq!['.'] + f) == (digits_value(i + f), f.len(), true),
    decreases f.len(),
{
    if f.len() == 0 {
        assert((i + seq!['.'] + f).drop_last() =~= i);
        assert(i + f =~= i);
        lemma_read_digits(i);
    } else {
        let g = f.drop_last();
        lemma_read_fraction(i, g);
        assert((i + seq!['.'] + f).drop_last() =~= i + seq!['.'] + g);
        assert((i + f).drop_last() =~= i + g);
    }
}

/// What reading a joined integer part and fraction gives.
proof fn lemma_read_with_fraction(i: Seq<char>, f: Seq<char>, alt: bool)
    requires
        all_digit_chars(i),
        all_digit_chars(f),
    ensures
        ({
            let kept = if alt { f } else { trim_zeros(f) };
            &&& read_decimal(with_fraction(i, f, alt)).0 == digits_value(i + kept)
            &&& read_decimal(with_fraction(i, f, alt)).1 == kept.len()
            &&& f == kept + zeros((f.len() - kept.len()) as nat)
        }),
{
    lemma_trim_zeros_prefix(f);
    let kept = if alt { f } else { trim_zeros(f) };
    assert(f + zeros(0) =~= f);
    assert(all_digit_chars(kept)) by {
        assert forall|x: int| 0 <= x < kept.len() implies is_digit(#[trigger] kept[x]) by {
            assert(kept[x] == f[x]);
        }
    }
    if kept.len() == 0 && !alt {
        lemma_read_digits(i);
        assert(i + kept =~= i);
    } else {
        lemma_read_fraction(i, kept);
    }
}

proof fn lemma_digits_value_dec_digits(x: Seq<char>)
    requires
        all_digit_chars(x),
    ensures
        dec_digits(digits_value(x), x.len()) == x,
    decreases x.len(),
{
    if x.len() > 0 {
        let y = x.drop_last();
        lemma_digits_value_dec_digits(y);
        lemma_char_digit(x.last());
        lemma_div_mod_unique(digits_value(x), 10, digits_value(y), char_digit(x.last()));
        assert(y.push(x.last()) =~= x);
    }
}

proof fn lemma_digits_value_leading(x: Seq<char>)
    requires
        all_digit_chars(x),
        x.len() >= 1,
        x[0] != '0',
    ensures
        digits_value(x) >= 1,
        num_digits(digits_value(x)) == x.len(),
    decreases x.len(),
{
    let y = x.drop_last();
    lemma_char_digit(x.last());
    if x.len() == 1 {
        assert(digits_value(y) == 0);
        lemma_char_digit(x[0]);
    } else {
        lemma_digits_value_leading(y);
        lemma_div_mod_unique(digits_value(x), 10, digits_value(y), char_digit(x.last()));
    }
}

proof fn lemma_digits_value_zeros(k: nat, x: Seq<char>)
    ensures
        digits_value(zeros(k) + x) == digits_value(x),
    decreases x.len(),
{
    if x.len() == 0 {
        assert(zeros(k) + x =~= zeros(k));
        lemma_digits_value_all_zero(k);
    } else {
        lemma_digits_value_zeros(k, x.drop_last());
        assert((zeros(k) + x).drop_last() =~= zeros(k) + x.drop_last());
    }
}

proof fn lemma_digits_value_all_zero(k: nat)
    ensures
        digits_value(zeros(k)) == 0,
    decreases k,
{
    if k > 0 {
        lemma_digits_value_all_zero((k - 1) as nat);
        assert(zeros(k).drop_last() =~= zeros((k - 1) as nat));
    }
}

/// Every positive number lies between the powers of ten that its digit count gives.
proof fn lemma_num_digits_bounds(n: nat)
    requires
        n >= 1,
    ensures
        num_digits(n) >= 1,
        pow10((num_digits(n) - 1) as nat) <= n < pow10(num_digits(n)),
    decreases n,
{
    if n < 10 {
        assert(pow10(0) == 1);
        assert(pow10(1) == 10 * pow10(0));
    } else {
        lemma_num_digits_bounds(n / 10);
        let k = num_digits(n / 10);
        assert(pow10(k + 1) == 10 * pow10(k));
        assert(pow10(k) == 10 * pow10((k - 1) as nat));
    }
}

/// A value with exactly `len` digits does not start with a zero.
proof fn lemma_dec_digits_leading(x: nat, len: nat)
    requires
        len >= 1,
        pow10((len - 1) as nat) <= x < pow10(len),
    ensures
        dec_digits(x, len)[0] != '0',
    decreases len,
{
    if len == 1 {
        assert(pow10(0) == 1);
        assert(pow10(1) == 10 * pow10(0));
        assert(x % 10 == x);
    } else {
        assert(pow10(len) == 10 * pow10((len - 1) as nat));
        assert(pow10((len - 1) as nat) == 10 * pow10((len - 2) as nat));
        lemma_dec_digits_leading(x / 10, (len - 1) as nat);
        crate::digits::lemma_dec_digits_len(x / 10, (len - 1) as nat);
    }
}

/// The rounded digits of a nonzero value do not start with a zero.
proof fn lemma_sig_digits_leading(n: nat, s: nat, p: nat)
    requires
        n >= 1,
        p >= 1,
    ensures
        sig_digits(n, s, p).0[0] != '0',
{
    lemma_num_digits_bounds(n);
    let nd = num_digits(n);
    lemma_pow10_pos((p - 1) as nat);
    if p >= nd {
        let k = (p - nd) as nat;
        lemma_pow10_pos(k);
        lemma_pow10_add((nd - 1) as nat, k);
        lemma_pow10_add(nd, k);
        let a = pow10((nd - 1) as nat);
        let b = pow10(nd);
        let c = pow10(k);
        assert(a * c <= n * c && n * c < b * c) by (nonlinear_arith)
            requires
                a <= n < b,
                c >= 1,
        ;
        assert((nd - 1 + k) as nat == (p - 1) as nat);
        lemma_dec_digits_leading(n * c, p);
    } else {
        let j = (nd - p) as nat;
        let u = pow10(j);
        lemma_pow10_pos(j);
        lemma_pow10_add((p - 1) as nat, j);
        lemma_pow10_add(p, j);
        assert((p - 1 + j) as nat == (nd - 1) as nat);
        let q = n / u;
        let r = n % u;
        vstd::arithmetic::div_mod::lemma_fundamental_div_mod(n as int, u as int);
        assert(n == u * q + r);
        assert(r < u) by {
            vstd::arithmetic::div_mod::lemma_mod_pos_bound(n as int, u as int);
        }
        let a = pow10((p - 1) as nat);
        let b = pow10(p);
        assert(a <= q && q < b) by (nonlinear_arith)
            requires
                a * u <= n,
                n < b * u,
                n == q * u + r,
                r < u,
                u >= 1,
        ;
        assert(b == 10 * a);
        let dv = if round_up(r, u, q) { q + 1 } else { q };
        if dv == b {
            lemma_dec_digits_leading(a, p);
        } else {
            lemma_dec_digits_leading(dv, p);
        }
    }
}

/// Digits that start with a nonzero digit, cut after `len` of them with only zeros
/// dropped, round back to themselves.
proof fn lemma_reround(d: Seq<char>, len: nat, p: nat, s: nat)
    requires
        all_digit_chars(d),
        d.len() == p,
        1 <= len <= p,
        d[0] != '0',
        d == d.subrange(0, len as int) + zeros((p - len) as nat),
    ensures
        sig_digits(digits_value(d.subrange(0, len as int)), s, p) == (d, len - 1 - s),
{
    let x = d.subrange(0, len as int);
    assert(all_digit_chars(x)) by {
        assert forall|y: int| 0 <= y < x.len() implies is_digit(#[trigger] x[y]) by {
            assert(x[y] == d[y]);
        }
    }
    lemma_digits_value_leading(x);
    lemma_digits_value_dec_digits(x);
    lemma_dec_digits_shift(digits_value(x), len, (p - len) as nat);
    assert(len + (p - len) as nat == p);
}

/// Reading a text in fixed notation back and rounding it again to the same precision
/// gives the same significant digits and the same exponent.
pub proof fn law_fixed_round_trip(n: nat, s: nat, p: nat, alt: bool)
    requires
        p >= 1,
    ensures
        ({
            let (d, e) = sig_digits(n, s, p);
            let (n2, s2, point) = read_decimal(body_g(d, e, p, alt));
            !uses_scientific(e, p) ==> sig_digits(n2, s2, p) == (d, e)
        }),
{
    let (d, e) = sig_digits(n, s, p);
    lemma_sig_digits_are_digits(n, s, p);
    if uses_scientific(e, p) {
        return;
    }
    let body = body_g(d, e, p, alt);
    if n == 0 {
        let i = d.subrange(0, 1);
        let f = d.subrange(1, p as int);
        assert(all_digit_chars(i));
        assert(all_digit_chars(f));
        lemma_read_with_fraction(i, f, alt);
        let kept = if alt { f } else { trim_zeros(f) };
        assert(i + kept =~= zeros(1 + kept.len())) by {
            lemma_trim_zeros_prefix(f);
            assert forall|y: int| 0 <= y < (i + kept).len() implies #[trigger] (i + kept)[y] == '0' by {
                if y >= 1 {
                    assert(kept[y - 1] == f[y - 1]);
                }
            }
        }
        lemma_digits_value_all_zero(1 + kept.len());
        return;
    }
    lemma_sig_digits_leading(n, s, p);
    if e >= 0 {
        let i = d.subrange(0, e + 1);
        let f = d.subrange(e + 1, p as int);
        assert(all_digit_chars(i));
        assert(all_digit_chars(f));
        lemma_read_with_fraction(i, f, alt);
        let kept = if alt { f } else { trim_zeros(f) };
        let len = (e + 1 + kept.len()) as nat;
        assert(d =~= i + f);
        assert(i + kept =~= d.subrange(0, len as int));
        assert(d =~= d.subrange(0, len as int) + zeros((p - len) as nat));
        lemma_reround(d, len, p, kept.len());
    } else {
        let k = (-e - 1) as nat;
        let i = seq!['0'];
        let f = zeros(k) + d;
        assert(all_digit_chars(i));
        assert(all_digit_chars(f));
        lemma_read_with_fraction(i, f, alt);
        let kept = if alt { f } else { trim_zeros(f) };
        lemma_trim_zeros_prefix(f);
        lemma_trim_zeros_prefix(d);
        let td = if alt { d } else { trim_zeros(d) };
        assert(td.len() >= 1) by {
            if td.len() == 0 {
                assert(d =~= td + zeros(p));
                assert(d[0] == '0');
            }
        }
        assert(kept =~= zeros(k) + td) by {
            if !alt {
                lemma_trim_concat(k, d);
            }
        }
        assert(i + kept =~= zeros(k + 1) + td);
        lemma_digits_value_zeros(k + 1, td);
        assert(td =~= d.subrange(0, td.len() as int));
        assert(alt ==> d =~= d + zeros(0));
        assert(d =~= d.subrange(0, td.len() as int) + zeros((p - td.len()) as nat));
        lemma_reround(d, td.len(), p, kept.len());
    }
}

/// Leading zeros do not change what trimming removes from a text whose trimmed form is
/// not empty.
proof fn lemma_trim_concat(k: nat, d: Seq<char>)
    requires
        trim_zeros(d).len() >= 1,
    ensures
        trim_zeros(zeros(k) + d) == zeros(k) + trim_zeros(d),
    decreases d.len(),
{
    if d.len() > 0 && d.last() == '0' {
        lemma_trim_concat(k, d.drop_last());
        assert((zeros(k) + d).drop_last() =~= zeros(k) + d.drop_last());
    } else {
        assert(d.len() > 0);
    }
}

} // verus!
