//! Natural numbers held as little-endian sequences of decimal digits.
use vstd::arithmetic::div_mod::lemma_fundamental_div_mod_converse;
use vstd::prelude::*;

verus! {

/// `10^n`.
pub open spec fn pow10(n: nat) -> nat
    decreases n,
{
    if n == 0 {
        1
    } else {
        10 * pow10((n - 1) as nat)
    }
}

/// The value of a little-endian digit sequence (least significant digit first).
pub open spec fn le_val(s: Seq<u8>) -> nat
    decreases s.len(),
{
    if s.len() == 0 {
        0
    } else {
        s[0] as nat + 10 * le_val(s.subrange(1, s.len() as int))
    }
}

/// Every entry is a decimal digit.
pub open spec fn all_digits(s: Seq<u8>) -> bool {
    forall|i: int| 0 <= i < s.len() ==> #[trigger] s[i] < 10
}

/// No superfluous leading zero: the most significant digit is nonzero unless the
/// sequence is the single digit of zero.
pub open spec fn normalized(s: Seq<u8>) -> bool {
    s.len() >= 1 && (s.len() == 1 || s[s.len() - 1] != 0)
}

/// The number of decimal digits of `n` (one for zero).
pub open spec fn num_digits(n: nat) -> nat
    decreases n,
{
    if n < 10 {
        1
    } else {
        1 + num_digits(n / 10)
    }
}

/// The character of a decimal digit.
pub open spec fn digit_char(d: nat) -> char {
    if d == 0 { '0' }
    else if d == 1 { '1' }
    else if d == 2 { '2' }
    else if d == 3 { '3' }
    else if d == 4 { '4' }
    else if d == 5 { '5' }
    else if d == 6 { '6' }
    else if d == 7 { '7' }
    else if d == 8 { '8' }
    else { '9' }
}

/// The last `len` decimal digits of `n`, most significant first.
pub open spec fn dec_digits(n: nat, len: nat) -> Seq<char>
    decreases len,
{
    if len == 0 {
        Seq::empty()
    } else {
        dec_digits(n / 10, (len - 1) as nat).push(digit_char(n % 10))
    }
}

/// `k` copies of the character `'0'`.
pub open spec fn zeros(k: nat) -> Seq<char> {
    Seq::new(k, |i: int| '0')
}

pub proof fn lemma_pow10_pos(n: nat)
    ensures
        pow10(n) >= 1,
    decreases n,
{
    if n > 0 {
        lemma_pow10_pos((n - 1) as nat);
    }
}

pub proof fn lemma_pow10_add(a: nat, b: nat)
    ensures
        pow10(a + b) == pow10(a) * pow10(b),
    decreases a,
{
    if a == 0 {
        assert(pow10(0) == 1);
        assert(a + b == b);
    } else {
        lemma_pow10_add((a - 1) as nat, b);
        assert((a + b - 1) as nat == (a - 1 + b) as nat);
        assert(pow10(a + b) == 10 * pow10((a - 1 + b) as nat));
        assert(pow10(a) == 10 * pow10((a - 1) as nat));
        let x = pow10((a - 1) as nat);
        let y = pow10(b);
        assert(10 * (x * y) == (10 * x) * y) by (nonlinear_arith);
    }
}

pub proof fn lemma_div_mod_unique(x: nat, d: nat, q: nat, r: nat)
    requires
        d > 0,
        r < d,
        x == q * d + r,
    ensures
        x / d == q,
        x % d == r,
{
    lemma_fundamental_div_mod_converse(x as int, d as int, q as int, r as int);
}

/// Splitting a digit sequence at `j` splits its value.
pub proof fn lemma_le_val_split(s: Seq<u8>, j: int)
    requires
        0 <= j <= s.len(),
    ensures
        le_val(s) == le_val(s.subrange(0, j)) + pow10(j as nat) * le_val(s.subrange(j, s.len() as int)),
    decreases j,
{
    if j == 0 {
        assert(s.subrange(0, s.len() as int) =~= s);
        assert(le_val(s.subrange(0, 0)) == 0);
        assert(pow10(0) == 1);
        let y = le_val(s);
        assert(y == 0 + 1 * y);
    } else {
        let t = s.subrange(1, s.len() as int);
        lemma_le_val_split(t, j - 1);
        let a = s.subrange(0, j);
        assert(a.subrange(1, a.len() as int) =~= t.subrange(0, j - 1));
        assert(t.subrange(j - 1, t.len() as int) =~= s.subrange(j, s.len() as int));
        let x = le_val(t.subrange(0, j - 1));
        let p = pow10((j - 1) as nat);
        let y = le_val(s.subrange(j, s.len() as int));
        assert(le_val(s) == s[0] as nat + 10 * le_val(t));
        assert(le_val(a) == a[0] as nat + 10 * le_val(a.subrange(1, a.len() as int)));
        assert(a[0] == s[0]);
        assert(pow10(j as nat) == 10 * p);
        assert(10 * (x + p * y) == 10 * x + (10 * p) * y) by (nonlinear_arith);
        assert(le_val(a) == s[0] as nat + 10 * x);
        assert(le_val(t) == x + p * y);
    }
}

pub proof fn lemma_le_val_push(s: Seq<u8>, d: u8)
    ensures
        le_val(s.push(d)) == le_val(s) + pow10(s.len()) * d,
{
    let t = s.push(d);
    lemma_le_val_split(t, s.len() as int);
    assert(t.subrange(0, s.len() as int) =~= s);
    let u = t.subrange(s.len() as int, t.len() as int);
    assert(u.subrange(1, 1) =~= Seq::<u8>::empty());
    assert(le_val(u) == d as nat + 10 * le_val(u.subrange(1, 1)));
}

pub proof fn lemma_le_val_bound(s: Seq<u8>)
    requires
        all_digits(s),
    ensures
        le_val(s) < pow10(s.len()),
    decreases s.len(),
{
    if s.len() > 0 {
        let t = s.subrange(1, s.len() as int);
        assert(all_digits(t)) by {
            assert forall|i: int| 0 <= i < t.len() implies #[trigger] t[i] < 10 by {
                assert(t[i] == s[i + 1]);
            }
        }
        lemma_le_val_bound(t);
        assert(s[0] < 10);
        let v = le_val(t);
        let p = pow10(t.len());
        assert(s[0] as nat + 10 * v < 10 * p) by (nonlinear_arith)
            requires
                s[0] < 10,
                v < p,
        ;
    }
}

/// A normalized sequence of `len` digits denotes a number of exactly `len` digits.
pub proof fn lemma_num_digits(s: Seq<u8>)
    requires
        all_digits(s),
        normalized(s),
    ensures
        num_digits(le_val(s)) == s.len(),
        s.len() > 1 ==> le_val(s) >= 10,
    decreases s.len(),
{
    let t = s.subrange(1, s.len() as int);
    assert(le_val(s) == s[0] as nat + 10 * le_val(t));
    assert(s[0] < 10);
    if s.len() == 1 {
        assert(t.len() == 0);
        assert(le_val(t) == 0);
    } else {
        assert(all_digits(t)) by {
            assert forall|i: int| 0 <= i < t.len() implies #[trigger] t[i] < 10 by {
                assert(t[i] == s[i + 1]);
            }
        }
        assert(t[t.len() - 1] == s[s.len() - 1]);
        if t.len() == 1 {
            assert(t.subrange(1, 1) =~= Seq::<u8>::empty());
            assert(le_val(t) == t[0] as nat + 10 * le_val(t.subrange(1, 1)));
            assert(le_val(t) >= 1);
        } else {
            lemma_num_digits(t);
        }
        assert(le_val(s) >= 10);
        lemma_div_mod_unique(le_val(s), 10, le_val(t), s[0] as nat);
        assert(num_digits(le_val(s)) == 1 + num_digits(le_val(s) / 10));
    }
}

/// A sequence of digits has value zero exactly when every digit is zero.
pub proof fn lemma_le_val_zero(s: Seq<u8>)
    ensures
        (le_val(s) == 0) == (forall|i: int| 0 <= i < s.len() ==> #[trigger] s[i] == 0),
    decreases s.len(),
{
    if s.len() > 0 {
        let t = s.subrange(1, s.len() as int);
        lemma_le_val_zero(t);
        if le_val(s) == 0 {
            assert forall|i: int| 0 <= i < s.len() implies #[trigger] s[i] == 0 by {
                if i > 0 {
                    assert(t[i - 1] == s[i]);
                }
            }
        } else if forall|i: int| 0 <= i < s.len() ==> #[trigger] s[i] == 0 {
            assert forall|i: int| 0 <= i < t.len() implies #[trigger] t[i] == 0 by {
                assert(s[i + 1] == 0);
            }
            assert(s[0] == 0);
        }
    }
}

/// Appending zeros below a number multiplies it by a power of ten.
pub proof fn lemma_dec_digits_shift(n: nat, len: nat, k: nat)
    ensures
        dec_digits(n * pow10(k), len + k) == dec_digits(n, len) + zeros(k),
    decreases k,
{
    if k == 0 {
        assert(pow10(0) == 1);
        assert(n * pow10(0) == n) by (nonlinear_arith)
            requires
                pow10(0) == 1,
        ;
        assert(dec_digits(n, len) + zeros(0) =~= dec_digits(n, len));
    } else {
        let k1 = (k - 1) as nat;
        lemma_dec_digits_shift(n, len, k1);
        let m = n * pow10(k1);
        assert(n * pow10(k) == m * 10) by (nonlinear_arith)
            requires
                pow10(k) == 10 * pow10(k1),
                m == n * pow10(k1),
        ;
        lemma_div_mod_unique(m * 10, 10, m, 0);
        assert(dec_digits(m * 10, len + k) == dec_digits(m, len + k1).push('0'));
        assert(dec_digits(n, len) + zeros(k) =~= (dec_digits(n, len) + zeros(k1)).push('0'));
    }
}

/// Exact length and content of the digits of a value.
pub proof fn lemma_dec_digits_len(n: nat, len: nat)
    ensures
        dec_digits(n, len).len() == len,
    decreases len,
{
    if len > 0 {
        lemma_dec_digits_len(n / 10, (len - 1) as nat);
    }
}

proof fn lemma_num_digits_u64(x: nat)
    requires
        x <= 0xffff_ffff_ffff_ffff,
    ensures
        num_digits(x) <= 20,
{
    assert(num_digits(x) <= 20) by {
        reveal_with_fuel(num_digits, 21);
    }
}

/// Little-endian digits, with their value, from an unsigned integer.
pub fn digits_of_u64(m: u64) -> (r: Vec<u8>)
    ensures
        le_val(r@) == m,
        all_digits(r@),
        normalized(r@),
        r.len() <= 20,
{
    let mut r: Vec<u8> = Vec::new();
    let mut x: u64 = m;
    assert(le_val(r@) == 0 && pow10(0) == 1);
    assert(pow10(0) * x == x) by (nonlinear_arith)
        requires
            pow10(0) == 1,
    ;
    proof {
        lemma_num_digits_u64(m as nat);
    }
    while x >= 10
        invariant
            le_val(r@) + pow10(r.len() as nat) * x == m,
            all_digits(r@),
            r.len() <= 19,
            r.len() > 0 ==> x > 0,
            r.len() + num_digits(x as nat) <= 20,
        decreases x,
    {
        let d: u8 = (x % 10) as u8;
        proof {
            lemma_le_val_push(r@, d);
            let p = pow10(r.len() as nat);
            let q = (x / 10) as nat;
            assert(p * x == p * d + (10 * p) * q) by (nonlinear_arith)
                requires
                    x == 10 * q + d,
            ;
            assert(num_digits(x as nat) == 1 + num_digits(q));
        }
        r.push(d);
        x = x / 10;
    }
    proof {
        lemma_le_val_push(r@, x as u8);
    }
    r.push(x as u8);
    r
}

/// `a * c + c0`, as a digit sequence as long as `a` and the carry out of the top digit.
pub fn mul_add_small(a: &Vec<u8>, c: u8, c0: u8) -> (r: (Vec<u8>, u8))
    requires
        all_digits(a@),
        c <= 9,
        c0 <= 9,
    ensures
        all_digits(r.0@),
        r.0.len() == a.len(),
        r.1 <= 9,
        le_val(r.0@) + pow10(a.len() as nat) * r.1 == le_val(a@) * c + c0,
{
    let mut r: Vec<u8> = Vec::new();
    let mut carry: u8 = c0;
    let mut i: usize = 0;
    assert(a@.subrange(0, 0) =~= Seq::<u8>::empty());
    assert(le_val(r@) == 0 && pow10(0) == 1);
    assert(pow10(0) * carry == carry) by (nonlinear_arith)
        requires
            pow10(0) == 1,
    ;
    while i < a.len()
        invariant
            i <= a.len(),
            r.len() == i,
            all_digits(a@),
            all_digits(r@),
            c <= 9,
            carry <= 9,
            le_val(r@) + pow10(i as nat) * carry == le_val(a@.subrange(0, i as int)) * c + c0,
        decreases a.len() - i,
    {
        assert(a@[i as int] < 10);
        assert(a@[i as int] * c <= 81) by (nonlinear_arith)
            requires
                a@[i as int] < 10,
                c <= 9,
        ;
        let t: u8 = a[i] * c + carry;
        let d: u8 = t % 10;
        proof {
            assert(a@[i as int] < 10);
            lemma_le_val_push(r@, d);
            assert(a@.subrange(0, i + 1) =~= a@.subrange(0, i as int).push(a@[i as int]));
            lemma_le_val_push(a@.subrange(0, i as int), a@[i as int]);
            let p = pow10(i as nat);
            let lo = le_val(a@.subrange(0, i as int));
            let q = (t / 10) as nat;
            let ai = a@[i as int] as nat;
            assert(p * d + (10 * p) * q == lo * c + c0 + p * ai * c - le_val(r@)) by (nonlinear_arith)
                requires
                    t == 10 * q + d,
                    t == ai * c + carry,
                    le_val(r@) + p * carry == lo * c + c0,
            ;
            assert((lo + p * ai) * c == lo * c + p * ai * c) by (nonlinear_arith);
        }
        r.push(d);
        carry = t / 10;
        i = i + 1;
    }
    assert(a@.subrange(0, a.len() as int) =~= a@);
    (r, carry)
}

/// Removes most significant zero digits, keeping at least one digit.
pub fn normalize(v: &mut Vec<u8>)
    requires
        old(v).len() >= 1,
        all_digits(old(v)@),
    ensures
        le_val(final(v)@) == le_val(old(v)@),
        all_digits(final(v)@),
        normalized(final(v)@),
        final(v).len() <= old(v).len(),
{
    while v.len() > 1 && v[v.len() - 1] == 0
        invariant
            v.len() >= 1,
            le_val(v@) == le_val(old(v)@),
            all_digits(v@),
            v.len() <= old(v).len(),
        decreases v.len(),
    {
        let ghost before = v@;
        v.pop();
        proof {
            assert(before =~= v@.push(0u8));
            lemma_le_val_push(v@, 0u8);
        }
    }
}

/// The digits of a little-endian sequence, most significant first.
pub fn to_chars(s: &Vec<u8>) -> (r: Vec<char>)
    requires
        all_digits(s@),
    ensures
        r@ == dec_digits(le_val(s@), s.len() as nat),
{
    let mut r: Vec<char> = Vec::new();
    let mut i: usize = s.len();
    assert(s@.subrange(s.len() as int, s.len() as int) =~= Seq::<u8>::empty());
    while i > 0
        invariant
            i <= s.len(),
            all_digits(s@),
            r@ == dec_digits(le_val(s@.subrange(i as int, s.len() as int)), (s.len() - i) as nat),
        decreases i,
    {
        let d = s[i - 1];
        let ghost u = s@.subrange(i - 1, s.len() as int);
        proof {
            assert(u.subrange(1, u.len() as int) =~= s@.subrange(i as int, s.len() as int));
            assert(u[0] == d);
            assert(d < 10);
            lemma_div_mod_unique(le_val(u), 10, le_val(s@.subrange(i as int, s.len() as int)), d as nat);
        }
        r.push(digit_to_char(d));
        i = i - 1;
    }
    assert(s@.subrange(0, s.len() as int) =~= s@);
    r
}

/// The character of one decimal digit.
pub fn digit_to_char(d: u8) -> (c: char)
    requires
        d < 10,
    ensures
        c == digit_char(d as nat),
{
    match d {
        0 => '0',
        1 => '1',
        2 => '2',
        3 => '3',
        4 => '4',
        5 => '5',
        6 => '6',
        7 => '7',
        8 => '8',
        _ => '9',
    }
}

} // verus!
