//! Exact decimal expansion of `m * 2^k` and its rounding to a number of significant digits.
use crate::digits::{
    all_digits, dec_digits, digits_of_u64, le_val, lemma_dec_digits_len, lemma_dec_digits_shift,
    lemma_div_mod_unique, lemma_le_val_bound, lemma_le_val_push, lemma_le_val_split, lemma_le_val_zero,
    lemma_num_digits, mul_add_small, normalize, normalized, num_digits, pow10, to_chars, zeros,
};
use vstd::prelude::*;

verus! {

/// `2^n`.
pub open spec fn pow2(n: nat) -> nat
    decreases n,
{
    if n == 0 {
        1
    } else {
        2 * pow2((n - 1) as nat)
    }
}

/// `5^n`.
pub open spec fn pow5(n: nat) -> nat
    decreases n,
{
    if n == 0 {
        1
    } else {
        5 * pow5((n - 1) as nat)
    }
}

/// `m * 2^k` written exactly as `n / 10^s`: the pair `(n, s)`.
pub open spec fn exact_scaled(m: nat, k: int) -> (nat, nat) {
    if k >= 0 {
        (m * pow2(k as nat), 0)
    } else {
        (m * pow5((-k) as nat), (-k) as nat)
    }
}

/// Round-half-to-even: whether the quotient `q` of a division by `u` with remainder `r`
/// is rounded up.
pub open spec fn round_up(r: nat, u: nat, q: nat) -> bool {
    2 * r > u || (2 * r == u && q % 2 == 1)
}

/// The `p` significant digits of `n / 10^s`, rounded half to even, and the decimal
/// exponent of the first of them: the rounded value is `0.d1 d2 ... dp * 10^(e + 1)`.
/// Zero has `p` zero digits and exponent zero.
pub open spec fn sig_digits(n: nat, s: nat, p: nat) -> (Seq<char>, int) {
    if n == 0 {
        (zeros(p), 0)
    } else {
        let nd = num_digits(n);
        let e0 = nd - 1 - s;
        if p >= nd {
            (dec_digits(n * pow10((p - nd) as nat), p), e0)
        } else {
            let u = pow10((nd - p) as nat);
            let q = n / u;
            let d = if round_up(n % u, u, q) { q + 1 } else { q };
            if d == pow10(p) {
                (dec_digits(pow10((p - 1) as nat), p), e0 + 1)
            } else {
                (dec_digits(d, p), e0)
            }
        }
    }
}

/// The digits of `n` as `m * 2^k`, with the decimal scale `s` such that the value is `n / 10^s`.
pub fn exact_decimal(m: u64, k: i32) -> (r: (Vec<u8>, usize))
    requires
        -1100 <= k <= 1100,
    ensures
        le_val(r.0@) == exact_scaled(m as nat, k as int).0,
        r.1 == exact_scaled(m as nat, k as int).1,
        all_digits(r.0@),
        normalized(r.0@),
        r.0.len() <= 1200,
{
    let mut v = digits_of_u64(m);
    let c: u8 = if k >= 0 { 2 } else { 5 };
    let count: u32 = if k >= 0 { k as u32 } else { (-k) as u32 };
    let mut i: u32 = 0;
    assert(m as nat * pow2(0) == m as nat && m as nat * pow5(0) == m as nat) by (nonlinear_arith)
        requires
            pow2(0) == 1,
            pow5(0) == 1,
    ;
    while i < count
        invariant
            i <= count,
            count <= 1100,
            c == (if k >= 0 { 2u8 } else { 5u8 }),
            count == (if k >= 0 { k as int } else { -k }),
            all_digits(v@),
            v.len() >= 1,
            v.len() <= 20 + i,
            k >= 0 ==> le_val(v@) == m as nat * pow2(i as nat),
            k < 0 ==> le_val(v@) == m as nat * pow5(i as nat),
        decreases count - i,
    {
        let ghost before = le_val(v@);
        let (w, carry) = mul_add_small(&v, c, 0);
        v = w;
        proof {
            let x = if k >= 0 { pow2(i as nat) } else { pow5(i as nat) };
            assert(k >= 0 ==> pow2((i + 1) as nat) == c * x);
            assert(k < 0 ==> pow5((i + 1) as nat) == c * x);
            assert((m as nat * x) * c == m as nat * (c * x)) by (nonlinear_arith);
        }
        if carry > 0 {
            proof {
                lemma_le_val_push(v@, carry);
            }
            v.push(carry);
        } else {
            assert(pow10(v.len() as nat) * carry == 0) by (nonlinear_arith)
                requires
                    carry == 0,
            ;
        }
        assert(le_val(v@) == before * c);
        i = i + 1;
    }
    normalize(&mut v);
    let s: usize = if k >= 0 { 0 } else { count as usize };
    (v, s)
}

proof fn lemma_round_decision(d: nat, rest: nat, p: nat, q: nat, q0: nat)
    requires
        d < 10,
        rest < p,
        q % 2 == q0 % 2,
    ensures
        round_up(d * p + rest, 10 * p, q) == (d > 5 || (d == 5 && (rest > 0 || q0 % 2 == 1))),
{
    if d >= 6 {
        assert(d * p >= 6 * p) by (nonlinear_arith)
            requires
                d >= 6,
        ;
    } else if d == 5 {
        assert(d * p == 5 * p);
    } else {
        assert(d * p <= 4 * p) by (nonlinear_arith)
            requires
                d <= 4,
        ;
    }
}

/// The rounded significant digits of `n / 10^s`: a prefix of the `p` digits, the rest
/// being zeros, and the exponent of the first digit.
pub fn significant(n: &Vec<u8>, s: usize, p: usize) -> (r: (Vec<char>, i64))
    requires
        all_digits(n@),
        normalized(n@),
        n.len() <= 1200,
        s <= 1200,
        p >= 1,
    ensures
        ({
            let (d, e) = sig_digits(le_val(n@), s as nat, p as nat);
            &&& 1 <= r.0.len() <= p
            &&& r.0@ + zeros((p - r.0.len()) as nat) == d
            &&& r.1 == e
            &&& (0 <= e < p ==> e + 1 <= r.0.len())
            &&& -1300 <= e <= 1300
        }),
{
    let ghost nv = le_val(n@);
    let nd = n.len();
    proof {
        lemma_num_digits(n@);
    }
    if nd == 1 && n[0] == 0 {
        assert(n@.subrange(1, 1) =~= Seq::<u8>::empty());
        assert(le_val(n@.subrange(1, 1)) == 0);
        assert(nv == 0);
        let mut pre: Vec<char> = Vec::new();
        pre.push('0');
        assert(pre@ + zeros((p - 1) as nat) =~= zeros(p as nat));
        return (pre, 0);
    }
    proof {
        lemma_le_val_zero(n@);
        if nd == 1 {
            assert(n@[0] != 0);
        } else {
            assert(n@[nd - 1] != 0);
        }
    }
    let e0: i64 = nd as i64 - 1 - s as i64;
    if p >= nd {
        let pre = to_chars(n);
        proof {
            lemma_dec_digits_shift(nv, nd as nat, (p - nd) as nat);
            lemma_dec_digits_len(nv, nd as nat);
        }
        return (pre, e0);
    }
    let j: usize = nd - p;
    let mut q: Vec<u8> = Vec::new();
    let mut i: usize = j;
    while i < nd
        invariant
            j <= i <= nd,
            nd == n.len(),
            q@ == n@.subrange(j as int, i as int),
        decreases nd - i,
    {
        q.push(n[i]);
        i = i + 1;
    }
    let dig: u8 = n[j - 1];
    let mut rest_nonzero = false;
    let mut t: usize = 0;
    while t < j - 1
        invariant
            t <= j - 1,
            j <= nd,
            nd == n.len(),
            rest_nonzero == (exists|x: int| 0 <= x < t && #[trigger] n@[x] != 0),
        decreases j - 1 - t,
    {
        if n[t] != 0 {
            rest_nonzero = true;
        }
        t = t + 1;
    }
    let up = dig > 5 || (dig == 5 && (rest_nonzero || q[0] % 2 == 1));
    let ghost low = n@.subrange(0, j as int);
    let ghost lower = n@.subrange(0, j - 1);
    let ghost u = pow10(j as nat);
    let ghost qv = le_val(q@);
    proof {
        assert(q@ =~= n@.subrange(j as int, nd as int));
        lemma_le_val_split(n@, j as int);
        assert(all_digits(low));
        assert(all_digits(q@));
        lemma_le_val_bound(low);
        lemma_div_mod_unique(nv, u, qv, le_val(low));
        assert(low =~= lower.push(dig));
        lemma_le_val_push(lower, dig);
        assert(all_digits(lower));
        lemma_le_val_bound(lower);
        lemma_le_val_zero(lower);
        if rest_nonzero {
            let x = choose|x: int| 0 <= x < j - 1 && #[trigger] n@[x] != 0;
            assert(lower[x] != 0);
        } else {
            assert forall|x: int| 0 <= x < lower.len() implies #[trigger] lower[x] == 0 by {
                assert(n@[x] == lower[x]);
            }
        }
        assert(qv == q@[0] as nat + 10 * le_val(q@.subrange(1, q@.len() as int)));
        let pj = pow10((j - 1) as nat);
        assert(u == 10 * pj);
        assert(le_val(low) == dig as nat * pj + le_val(lower)) by (nonlinear_arith)
            requires
                le_val(low) == le_val(lower) + pj * dig,
        ;
        lemma_round_decision(dig as nat, le_val(lower), pj, qv, q@[0] as nat);
        assert(up == round_up(nv % u, u, qv));
        lemma_le_val_bound(q@);
        lemma_num_digits(n@);
    }
    if !up {
        let pre = to_chars(&q);
        proof {
            lemma_dec_digits_len(qv, p as nat);
            assert(pre@ + zeros(0) =~= pre@);
        }
        return (pre, e0);
    }
    let (q2, carry) = mul_add_small(&q, 1, 1);
    if carry == 0 {
        let pre = to_chars(&q2);
        proof {
            lemma_le_val_bound(q2@);
            assert(le_val(q2@) == qv + 1) by (nonlinear_arith)
                requires
                    le_val(q2@) + pow10(p as nat) * carry == qv * 1 + 1,
                    carry == 0,
            ;
            lemma_dec_digits_len(le_val(q2@), p as nat);
            assert(pre@ + zeros(0) =~= pre@);
        }
        return (pre, e0);
    }
    let mut pre: Vec<char> = Vec::new();
    pre.push('1');
    let mut z: usize = 1;
    while z < p
        invariant
            1 <= z <= p,
            pre@ == seq!['1'] + zeros((z - 1) as nat),
        decreases p - z,
    {
        pre.push('0');
        z = z + 1;
        assert(pre@ =~= seq!['1'] + zeros((z - 1) as nat));
    }
    proof {
        assert(qv + 1 == pow10(p as nat)) by (nonlinear_arith)
            requires
                le_val(q2@) + pow10(p as nat) * carry == qv * 1 + 1,
                carry >= 1,
                qv < pow10(p as nat),
        ;
        lemma_dec_digits_shift(1, 1, (p - 1) as nat);
        assert(1 * pow10((p - 1) as nat) == pow10((p - 1) as nat));
        reveal_with_fuel(dec_digits, 2);
        assert(dec_digits(1, 1) =~= seq!['1']);
        assert(pre@ + zeros(0) =~= pre@);
    }
    (pre, e0 + 1)
}

} // verus!
