//! Layout of the `%g` text: notation, trailing-zero trimming, exponent suffix, sign and padding.
use crate::digits::{digit_char, digit_to_char, zeros};
use vstd::prelude::*;

verus! {

/// `s` without its trailing `'0'` characters.
pub open spec fn trim_zeros(s: Seq<char>) -> Seq<char>
    decreases s.len(),
{
    if s.len() > 0 && s.last() == '0' {
        trim_zeros(s.drop_last())
    } else {
        s
    }
}

/// An integer part and a fractional part joined by a decimal point. Without the
/// alternate form, trailing zeros of the fraction are dropped, and the point with them
/// when nothing is left after it.
pub open spec fn with_fraction(int_part: Seq<char>, frac: Seq<char>, alt: bool) -> Seq<char> {
    if alt {
        int_part + seq!['.'] + frac
    } else if trim_zeros(frac).len() == 0 {
        int_part
    } else {
        int_part + seq!['.'] + trim_zeros(frac)
    }
}

/// Decimal writing of `n`, without leading zeros.
pub open spec fn dec_str(n: nat) -> Seq<char>
    decreases n,
{
    if n < 10 {
        seq![digit_char(n)]
    } else {
        dec_str(n / 10).push(digit_char(n % 10))
    }
}

/// `e`, a sign that is always present, and at least two digits.
pub open spec fn exponent_suffix(e: int) -> Seq<char> {
    let a: nat = if e < 0 { (-e) as nat } else { e as nat };
    seq!['e', if e < 0 { '-' } else { '+' }] + (if a < 10 {
        seq!['0', digit_char(a)]
    } else {
        dec_str(a)
    })
}

/// Whether a value whose rounded first digit has exponent `e` is written in scientific
/// notation at precision `p`.
pub open spec fn uses_scientific(e: int, p: nat) -> bool {
    e < -4 || e >= p
}

/// The unsigned text of `%g` for the `p` significant digits `d` whose first digit has
/// exponent `e`.
pub open spec fn body_g(d: Seq<char>, e: int, p: nat, alt: bool) -> Seq<char> {
    if uses_scientific(e, p) {
        with_fraction(d.subrange(0, 1), d.subrange(1, p as int), alt) + exponent_suffix(e)
    } else if e >= 0 {
        with_fraction(d.subrange(0, e + 1), d.subrange(e + 1, p as int), alt)
    } else {
        with_fraction(seq!['0'], zeros((-e - 1) as nat) + d, alt)
    }
}

/// `k` spaces.
pub open spec fn spaces(k: nat) -> Seq<char> {
    Seq::new(k, |i: int| ' ')
}

/// A sign and a body widened to `width`: spaces after them when left-justified, else
/// zeros between them when `zero_fill`, else spaces before them.
pub open spec fn pad_field(sign: Seq<char>, body: Seq<char>, width: nat, zero_fill: bool, left: bool) -> Seq<char> {
    let len = sign.len() + body.len();
    if len >= width {
        sign + body
    } else if left {
        sign + body + spaces((width - len) as nat)
    } else if zero_fill {
        sign + zeros((width - len) as nat) + body
    } else {
        spaces((width - len) as nat) + sign + body
    }
}

pub proof fn lemma_trim_zeros_pad(s: Seq<char>, k: nat)
    ensures
        trim_zeros(s + zeros(k)) == trim_zeros(s),
    decreases k,
{
    if k == 0 {
        assert(s + zeros(0) =~= s);
    } else {
        lemma_trim_zeros_pad(s, (k - 1) as nat);
        assert((s + zeros(k)).drop_last() =~= s + zeros((k - 1) as nat));
    }
}

/// Appends `src` to `out`.
fn append(out: &mut Vec<char>, src: &Vec<char>)
    ensures
        final(out)@ == old(out)@ + src@,
{
    let mut i: usize = 0;
    while i < src.len()
        invariant
            i <= src.len(),
            out@ == old(out)@ + src@.subrange(0, i as int),
        decreases src.len() - i,
    {
        out.push(src[i]);
        i = i + 1;
        assert(out@ =~= old(out)@ + src@.subrange(0, i as int));
    }
    assert(src@.subrange(0, src.len() as int) =~= src@);
}

/// Appends `k` copies of `c` to `out`.
fn append_fill(out: &mut Vec<char>, c: char, k: usize)
    ensures
        final(out)@ == old(out)@ + Seq::new(k as nat, |i: int| c),
{
    let mut i: usize = 0;
    while i < k
        invariant
            i <= k,
            out@ == old(out)@ + Seq::new(i as nat, |j: int| c),
        decreases k - i,
    {
        out.push(c);
        i = i + 1;
        assert(out@ =~= old(out)@ + Seq::new(i as nat, |j: int| c));
    }
}

/// Appends the integer part and fraction as `with_fraction` joins them.
fn append_with_fraction(out: &mut Vec<char>, int_part: &Vec<char>, frac: &Vec<char>, alt: bool)
    ensures
        final(out)@ == old(out)@ + with_fraction(int_part@, frac@, alt),
{
    append(out, int_part);
    if alt {
        out.push('.');
        append(out, frac);
        assert(out@ =~= old(out)@ + with_fraction(int_part@, frac@, alt));
        return;
    }
    let mut t: usize = frac.len();
    assert(frac@.subrange(0, t as int) =~= frac@);
    while t > 0 && frac[t - 1] == '0'
        invariant
            t <= frac.len(),
            trim_zeros(frac@.subrange(0, t as int)) == trim_zeros(frac@),
        decreases t,
    {
        assert(frac@.subrange(0, t as int).drop_last() =~= frac@.subrange(0, t - 1));
        t = t - 1;
    }
    let ghost kept = frac@.subrange(0, t as int);
    assert(trim_zeros(kept) == kept);
    if t > 0 {
        out.push('.');
        let mut i: usize = 0;
        while i < t
            invariant
                i <= t,
                t <= frac.len(),
                out@ == old(out)@ + int_part@ + seq!['.'] + frac@.subrange(0, i as int),
            decreases t - i,
        {
            out.push(frac[i]);
            i = i + 1;
            assert(out@ =~= old(out)@ + int_part@ + seq!['.'] + frac@.subrange(0, i as int));
        }
    }
    assert(out@ =~= old(out)@ + with_fraction(int_part@, frac@, alt));
}

/// Appends the exponent suffix of `e`.
fn append_exponent(out: &mut Vec<char>, e: i64)
    requires
        -9999 <= e <= 9999,
    ensures
        final(out)@ == old(out)@ + exponent_suffix(e as int),
{
    out.push('e');
    out.push(if e < 0 { '-' } else { '+' });
    let a: u64 = if e < 0 { (-e) as u64 } else { e as u64 };
    if a < 10 {
        out.push('0');
        out.push(digit_to_char(a as u8));
    } else if a < 100 {
        out.push(digit_to_char((a / 10) as u8));
        out.push(digit_to_char((a % 10) as u8));
        proof {
            reveal_with_fuel(dec_str, 2);
        }
    } else if a < 1000 {
        out.push(digit_to_char((a / 100) as u8));
        out.push(digit_to_char((a / 10 % 10) as u8));
        out.push(digit_to_char((a % 10) as u8));
        proof {
            reveal_with_fuel(dec_str, 3);
            assert(a as nat / 10 / 10 == a / 100);
        }
    } else {
        out.push(digit_to_char((a / 1000) as u8));
        out.push(digit_to_char((a / 100 % 10) as u8));
        out.push(digit_to_char((a / 10 % 10) as u8));
        out.push(digit_to_char((a % 10) as u8));
        proof {
            reveal_with_fuel(dec_str, 4);
            assert(a as nat / 10 / 10 == a / 100);
            assert(a as nat / 10 / 10 / 10 == a / 1000);
        }
    }
    assert(out@ =~= old(out)@ + exponent_suffix(e as int));
}

/// The unsigned `%g` text for the digits `pre` followed by zeros up to `p` digits.
pub fn render_body(pre: &Vec<char>, e: i64, p: usize, alt: bool) -> (r: Vec<char>)
    requires
        1 <= pre.len() <= p,
        0 <= e < p ==> e + 1 <= pre.len(),
        -1300 <= e <= 1300,
        alt ==> p < 200,
    ensures
        r@ == body_g(pre@ + zeros((p - pre.len()) as nat), e as int, p as nat, alt),
{
    let ghost k = (p - pre.len()) as nat;
    let ghost d = pre@ + zeros(k);
    let len = pre.len();
    let mut int_part: Vec<char> = Vec::new();
    let mut frac: Vec<char> = Vec::new();
    let scientific = e < -4 || (e >= 0 && e as usize >= p);
    if scientific {
        int_part.push(pre[0]);
        let mut i: usize = 1;
        while i < len
            invariant
                1 <= i <= len,
                len == pre.len(),
                frac@ == pre@.subrange(1, i as int),
            decreases len - i,
        {
            frac.push(pre[i]);
            i = i + 1;
            assert(frac@ =~= pre@.subrange(1, i as int));
        }
        assert(int_part@ =~= d.subrange(0, 1));
        assert(frac@ + zeros(k) =~= d.subrange(1, p as int));
    } else if e >= 0 {
        let cut = (e + 1) as usize;
        let mut i: usize = 0;
        while i < len
            invariant
                i <= len,
                len == pre.len(),
                cut <= len,
                int_part@ == pre@.subrange(0, if i < cut { i as int } else { cut as int }),
                frac@ == pre@.subrange(cut as int, if i < cut { cut as int } else { i as int }),
            decreases len - i,
        {
            if i < cut {
                int_part.push(pre[i]);
            } else {
                frac.push(pre[i]);
            }
            i = i + 1;
            assert(int_part@ =~= pre@.subrange(0, if i < cut { i as int } else { cut as int }));
            assert(frac@ =~= pre@.subrange(cut as int, if i < cut { cut as int } else { i as int }));
        }
        assert(int_part@ =~= d.subrange(0, e + 1));
        assert(frac@ + zeros(k) =~= d.subrange(e + 1, p as int));
    } else {
        int_part.push('0');
        let lead = (-e - 1) as usize;
        append_fill(&mut frac, '0', lead);
        append(&mut frac, pre);
        assert(frac@ + zeros(k) =~= zeros((-e - 1) as nat) + d);
    }
    let ghost frac0 = frac@;
    let mut out: Vec<char> = Vec::new();
    if alt {
        append_fill(&mut frac, '0', p - len);
        assert(frac@ =~= frac0 + zeros(k));
    } else {
        proof {
            lemma_trim_zeros_pad(frac@, k);
        }
    }
    assert(with_fraction(int_part@, frac@, alt) == with_fraction(int_part@, frac0 + zeros(k), alt));
    append_with_fraction(&mut out, &int_part, &frac, alt);
    if scientific {
        append_exponent(&mut out, e);
    }
    out
}

/// `sign` and `body` widened to `width` as `pad_field` says.
pub fn pad(sign: &Vec<char>, body: &Vec<char>, width: usize, zero_fill: bool, left: bool) -> (r: Vec<char>)
    requires
        sign.len() + body.len() <= usize::MAX,
    ensures
        r@ == pad_field(sign@, body@, width as nat, zero_fill, left),
{
    let mut out: Vec<char> = Vec::new();
    let len = sign.len() + body.len();
    if len >= width {
        append(&mut out, sign);
        append(&mut out, body);
    } else if left {
        append(&mut out, sign);
        append(&mut out, body);
        append_fill(&mut out, ' ', width - len);
    } else if zero_fill {
        append(&mut out, sign);
        append_fill(&mut out, '0', width - len);
        append(&mut out, body);
    } else {
        append_fill(&mut out, ' ', width - len);
        append(&mut out, sign);
        append(&mut out, body);
    }
    assert(out@ =~= pad_field(sign@, body@, width as nat, zero_fill, left));
    out
}

} // verus!
