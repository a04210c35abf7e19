use vstd::prelude::*;
use vstd::arithmetic::div_mod::{lemma_fundamental_div_mod, lemma_fundamental_div_mod_converse, lemma_mod_pos_bound};

verus! {

/// `base` raised to the power `e`.
pub open spec fn power(base: nat, e: nat) -> nat
    decreases e,
{
    if e == 0 {
        1
    } else {
        base * power(base, (e - 1) as nat)
    }
}

/// Value of a digit sequence written most significant digit first.
pub open spec fn be_value(s: Seq<u8>, base: nat) -> nat
    decreases s.len(),
{
    if s.len() == 0 {
        0
    } else {
        be_value(s.drop_last(), base) * base + s.last() as nat
    }
}

/// Value of a digit sequence written least significant digit first.
pub open spec fn le_value(s: Seq<u8>, base: nat) -> nat
    decreases s.len(),
{
    if s.len() == 0 {
        0
    } else {
        le_value(s.drop_last(), base) + (s.last() as nat) * power(base, (s.len() - 1) as nat)
    }
}

/// The minimal digits of `n` in `base`, most significant first: empty for zero,
/// otherwise starting with a non-zero digit.
pub open spec fn be_digits(n: nat, base: nat) -> Seq<u8>
    decreases n
    via be_digits_decreases
{
    if n == 0 || base < 2 {
        Seq::empty()
    } else {
        be_digits(n / base, base).push((n % base) as u8)
    }
}

#[via_fn]
proof fn be_digits_decreases(n: nat, base: nat) {
    if n != 0 && base >= 2 {
        assert(n / base < n) by (nonlinear_arith)
            requires
                n > 0,
                base >= 2,
        ;
    }
}

/// `n` zero digits.
pub open spec fn zeros(n: nat) -> Seq<u8> {
    Seq::new(n, |i: int| 0u8)
}

/// Number of zero digits at the front of `s`.
pub open spec fn leading_zeros(s: Seq<u8>) -> nat
    decreases s.len(),
{
    if s.len() > 0 && s[0] == 0 {
        1 + leading_zeros(s.skip(1))
    } else {
        0
    }
}

/// `s` in reverse order.
pub open spec fn reversed(s: Seq<u8>) -> Seq<u8> {
    Seq::new(s.len(), |k: int| s[s.len() - 1 - k])
}

/// Every digit of `s` is below `base`.
pub open spec fn digits_below(s: Seq<u8>, base: nat) -> bool {
    forall|i: int| 0 <= i < s.len() ==> (s[i] as nat) < base
}

/// `s` is empty or starts with a non-zero digit.
pub open spec fn no_leading_zero(s: Seq<u8>) -> bool {
    s.len() == 0 || s[0] != 0
}

pub proof fn lemma_power_positive(base: nat, e: nat)
    requires
        base > 0,
    ensures
        power(base, e) > 0,
    decreases e,
{
    if e > 0 {
        lemma_power_positive(base, (e - 1) as nat);
        let p = power(base, (e - 1) as nat);
        assert(base * p > 0) by (nonlinear_arith)
            requires
                base > 0,
                p > 0,
        ;
    }
}

/// Splitting off the least significant digit.
pub proof fn lemma_le_value_first(s: Seq<u8>, base: nat)
    requires
        s.len() > 0,
    ensures
        le_value(s, base) == s[0] as nat + base * le_value(s.skip(1), base),
    decreases s.len(),
{
    let t = s.drop_last();
    if s.len() == 1 {
        assert(le_value(t, base) == 0);
        assert(le_value(s.skip(1), base) == 0);
        assert(power(base, 0) == 1);
        assert(s.last() == s[0]);
        assert(base * 0 == 0);
        assert((s[0] as nat) * 1 == s[0] as nat);
    } else {
        lemma_le_value_first(t, base);
        let u = s.skip(1);
        assert(u.drop_last() =~= t.skip(1));
        let p = power(base, (s.len() - 2) as nat);
        assert(power(base, (s.len() - 1) as nat) == base * p);
        let a = le_value(t.skip(1), base);
        let l = s.last() as nat;
        assert(u.last() == s.last());
        assert(t[0] == s[0]);
        assert(le_value(t, base) == s[0] as nat + base * a);
        assert(le_value(u, base) == a + l * p);
        assert(le_value(s, base) == le_value(t, base) + l * (base * p));
        assert(base * (a + l * p) == base * a + l * (base * p)) by (nonlinear_arith);
    }
}

/// Appending a zero digit at the most significant end keeps the value.
pub proof fn lemma_le_value_push_zero(s: Seq<u8>, base: nat)
    ensures
        le_value(s.push(0), base) == le_value(s, base),
{
    assert(s.push(0).drop_last() =~= s);
    assert(s.push(0).last() == 0);
    let p = power(base, s.len());
    assert(0 * p == 0);
}

pub proof fn lemma_le_value_positive(s: Seq<u8>, base: nat)
    requires
        base > 0,
        s.len() > 0,
        s.last() != 0,
    ensures
        le_value(s, base) > 0,
{
    let p = power(base, (s.len() - 1) as nat);
    lemma_power_positive(base, (s.len() - 1) as nat);
    let l = s.last() as nat;
    assert(l * p > 0) by (nonlinear_arith)
        requires
            l > 0,
            p > 0,
    ;
}

/// Minimal least-significant-first digits, read back through `be_digits`,
/// are the same digits in the other order.
pub proof fn lemma_be_digits_of_le(s: Seq<u8>, base: nat)
    requires
        2 <= base <= 256,
        digits_below(s, base),
        s.len() == 0 || s.last() != 0,
    ensures
        be_digits(le_value(s, base), base) == reversed(s),
    decreases s.len(),
{
    if s.len() == 0 {
        assert(reversed(s) =~= Seq::<u8>::empty());
    } else {
        let n = le_value(s, base);
        let u = s.skip(1);
        let m = le_value(u, base);
        lemma_le_value_positive(s, base);
        lemma_le_value_first(s, base);
        assert(n == m * base + s[0] as nat) by (nonlinear_arith)
            requires
                n == s[0] as nat + base * m,
        ;
        lemma_fundamental_div_mod_converse(n as int, base as int, m as int, s[0] as int);
        lemma_be_digits_of_le(u, base);
        assert(reversed(s) =~= reversed(u).push(s[0]));
    }
}

/// The value of `be_digits(n)` is `n`, its digits are below the base, and it
/// has no leading zero.
pub proof fn lemma_be_digits_value(n: nat, base: nat)
    requires
        2 <= base <= 256,
    ensures
        be_value(be_digits(n, base), base) == n,
        digits_below(be_digits(n, base), base),
        no_leading_zero(be_digits(n, base)),
        (be_digits(n, base).len() == 0) == (n == 0),
    decreases n,
{
    if n > 0 {
        let q = n / base;
        let r = n % base;
        lemma_fundamental_div_mod(n as int, base as int);
        lemma_mod_pos_bound(n as int, base as int);
        assert(q < n) by (nonlinear_arith)
            requires
                n > 0,
                base >= 2,
                n == base * q + r,
                0 <= r,
        ;
        lemma_be_digits_value(q, base);
        let d = be_digits(n, base);
        assert(d.drop_last() =~= be_digits(q, base));
        assert(d.last() as nat == r);
        assert(be_value(d, base) == q * base + r);
        assert(q * base == base * q) by (nonlinear_arith);
        if q == 0 {
            assert(r == n);
        }
    }
}

/// Minimal digits are recovered from their value.
pub proof fn lemma_be_value_digits(s: Seq<u8>, base: nat)
    requires
        2 <= base <= 256,
        digits_below(s, base),
        no_leading_zero(s),
    ensures
        be_digits(be_value(s, base), base) == s,
    decreases s.len(),
{
    if s.len() == 0 {
        assert(be_digits(0, base) =~= s);
    } else {
        let t = s.drop_last();
        let v = be_value(t, base);
        let n = be_value(s, base);
        lemma_be_value_digits(t, base);
        lemma_fundamental_div_mod_converse(n as int, base as int, v as int, s.last() as int);
        if t.len() == 0 {
            assert(be_value(t, base) == 0);
            assert(0 * base == 0);
            assert(s.last() == s[0]);
            assert(n == s[0]);
        } else {
            assert(v != 0);
        }
        assert(be_digits(n, base) =~= t.push(s.last()));
        assert(t.push(s.last()) =~= s);
    }
}

pub proof fn lemma_be_value_zeros(k: nat, base: nat)
    ensures
        be_value(zeros(k), base) == 0,
    decreases k,
{
    if k > 0 {
        assert(zeros(k).drop_last() =~= zeros((k - 1) as nat));
        lemma_be_value_zeros((k - 1) as nat, base);
        assert(zeros(k).last() == 0);
        assert(0 * base == 0);
    }
}

/// Leading zero digits add nothing to the value.
pub proof fn lemma_be_value_zeros_prefix(k: nat, s: Seq<u8>, base: nat)
    ensures
        be_value(zeros(k) + s, base) == be_value(s, base),
    decreases s.len(),
{
    if s.len() == 0 {
        assert(zeros(k) + s =~= zeros(k));
        lemma_be_value_zeros(k, base);
    } else {
        assert((zeros(k) + s).drop_last() =~= zeros(k) + s.drop_last());
        lemma_be_value_zeros_prefix(k, s.drop_last(), base);
    }
}

/// Counting the zeros in front of a sequence without a leading zero.
pub proof fn lemma_leading_zeros_prefix(k: nat, s: Seq<u8>)
    requires
        no_leading_zero(s),
    ensures
        leading_zeros(zeros(k) + s) == k,
    decreases k,
{
    if k > 0 {
        assert((zeros(k) + s).skip(1) =~= zeros((k - 1) as nat) + s);
        lemma_leading_zeros_prefix((k - 1) as nat, s);
    } else {
        assert(zeros(k) + s =~= s);
    }
}

/// Every sequence is its leading zeros followed by a part without a leading zero.
pub proof fn lemma_leading_zeros_split(s: Seq<u8>)
    ensures
        leading_zeros(s) <= s.len(),
        s == zeros(leading_zeros(s)) + s.skip(leading_zeros(s) as int),
        no_leading_zero(s.skip(leading_zeros(s) as int)),
    decreases s.len(),
{
    let z = leading_zeros(s);
    if s.len() > 0 && s[0] == 0 {
        lemma_leading_zeros_split(s.skip(1));
        assert(s.skip(1).skip(z - 1) =~= s.skip(z as int));
        assert forall|i: int| 0 <= i < z implies s[i] == 0 by {
            if i > 0 {
                assert(s[i] == s.skip(1)[i - 1]);
                assert(s.skip(1)[i - 1] == (zeros((z - 1) as nat) + s.skip(z as int))[i - 1]);
            }
        }
        assert(s =~= zeros(z) + s.skip(z as int));
    } else {
        assert(s =~= zeros(0) + s.skip(0));
    }
}

/// The zero digits counted by a scan from the front.
pub proof fn lemma_leading_zeros_scan(s: Seq<u8>, i: nat)
    requires
        i <= s.len(),
        forall|k: int| 0 <= k < i ==> s[k] == 0,
        i == s.len() || s[i as int] != 0,
    ensures
        leading_zeros(s) == i,
{
    assert(s =~= zeros(i) + s.skip(i as int));
    lemma_leading_zeros_prefix(i, s.skip(i as int));
}

/// Rewrites the digits of `input` (most significant first, in base `from`) as
/// the minimal digits of the same number in base `to`, least significant first.
pub fn rebase(input: &[u8], from: u32, to: u32) -> (out: Vec<u8>)
    requires
        2 <= from <= 256,
        2 <= to <= 256,
        digits_below(input@, from as nat),
    ensures
        digits_below(out@, to as nat),
        out@.len() == 0 || out@.last() != 0,
        le_value(out@, to as nat) == be_value(input@, from as nat),
{
    let ghost f = from as nat;
    let ghost b = to as nat;
    let mut out: Vec<u8> = Vec::new();
    let mut i: usize = 0;
    while i < input.len()
        invariant
            i <= input@.len(),
            2 <= from <= 256,
            2 <= to <= 256,
            f == from as nat,
            b == to as nat,
            digits_below(input@, f),
            digits_below(out@, b),
            le_value(out@, b) == be_value(input@.take(i as int), f),
        decreases input@.len() - i,
    {
        let ghost prev = out@;
        let ghost d = input@[i as int] as nat;
        let mut carry: u32 = input[i] as u32;
        let mut j: usize = 0;
        assert(out@.take(0) =~= Seq::<u8>::empty());
        assert(prev.take(0) =~= Seq::<u8>::empty());
        assert(power(b, 0) == 1);
        assert(le_value(out@.take(0), b) == 0);
        assert(le_value(prev.take(0), b) == 0);
        assert(0 * f == 0);
        assert((carry as nat) * 1 == d);
        while j < out.len()
            invariant
                j <= out@.len(),
                out@.len() == prev.len(),
                2 <= from <= 256,
                2 <= to <= 256,
                f == from as nat,
                b == to as nat,
                (carry as nat) < f,
                digits_below(prev, b),
                digits_below(out@, b),
                forall|k: int| j <= k < out@.len() ==> out@[k] == prev[k],
                le_value(out@.take(j as int), b) + (carry as nat) * power(b, j as nat)
                    == le_value(prev.take(j as int), b) * f + d,
            decreases out@.len() - j,
        {
            let ghost before = out@;
            let ghost c0 = carry as nat;
            let digit: u32 = out[j] as u32;
            assert(digit == prev[j as int]);
            assert(carry + digit * from < to * from) by (nonlinear_arith)
                requires
                    carry < from,
                    digit < to,
            ;
            assert(to * from <= 65536) by (nonlinear_arith)
                requires
                    to <= 256,
                    from <= 256,
            ;
            let x: u32 = carry + digit * from;
            let r: u32 = x % to;
            let q: u32 = x / to;
            proof {
                lemma_fundamental_div_mod(x as int, to as int);
                lemma_mod_pos_bound(x as int, to as int);
                assert(q < from) by (nonlinear_arith)
                    requires
                        x == to * q + r,
                        0 <= r,
                        x < to * from,
                        to > 0,
                ;
            }
            out.set(j, r as u8);
            carry = q;
            proof {
                let p = power(b, j as nat);
                let lo = le_value(before.take(j as int), b);
                let plo = le_value(prev.take(j as int), b);
                assert(out@.take(j as int) =~= before.take(j as int));
                assert(out@.take(j + 1) =~= out@.take(j as int).push(r as u8));
                assert(out@.take(j + 1).drop_last() =~= out@.take(j as int));
                assert(prev.take(j + 1).drop_last() =~= prev.take(j as int));
                assert(prev.take(j + 1).last() == digit);
                assert(le_value(out@.take(j + 1), b) == lo + (r as nat) * p);
                assert(le_value(prev.take(j + 1), b) == plo + (digit as nat) * p);
                assert(power(b, (j + 1) as nat) == b * p);
                assert(lo + (r as nat) * p + (q as nat) * (b * p) == (plo + (digit as nat) * p) * f
                    + d) by (nonlinear_arith)
                    requires
                        lo + c0 * p == plo * f + d,
                        x == c0 + digit * f,
                        x == b * q + r,
                ;
            }
            j += 1;
        }
        proof {
            assert(out@.take(j as int) =~= out@);
            assert(prev.take(j as int) =~= prev);
        }
        while carry > 0
            invariant
                2 <= to <= 256,
                b == to as nat,
                digits_below(out@, b),
                le_value(out@, b) + (carry as nat) * power(b, out@.len())
                    == le_value(prev, b) * f + d,
            decreases carry,
        {
            let ghost before = out@;
            let r: u32 = carry % to;
            let q: u32 = carry / to;
            proof {
                lemma_fundamental_div_mod(carry as int, to as int);
                lemma_mod_pos_bound(carry as int, to as int);
                let p = power(b, before.len());
                let lo = le_value(before, b);
                assert(q < carry) by (nonlinear_arith)
                    requires
                        carry > 0,
                        to >= 2,
                        carry == to * q + r,
                        0 <= r,
                ;
                assert(before.push(r as u8).drop_last() =~= before);
                assert(power(b, before.len() + 1) == b * p);
                assert((r as nat) * p + (q as nat) * (b * p) == (carry as nat) * p) by (nonlinear_arith)
                    requires
                        carry == to * q + r,
                        b == to,
                ;
            }
            out.push(r as u8);
            carry = q;
        }
        proof {
            assert(input@.take(i + 1).drop_last() =~= input@.take(i as int));
            assert(input@.take(i + 1).last() == input@[i as int]);
        }
        i += 1;
    }
    assert(input@.take(i as int) =~= input@);
    while out.len() > 0 && out[out.len() - 1] == 0
        invariant
            digits_below(out@, b),
            le_value(out@, b) == be_value(input@, f),
        decreases out@.len(),
    {
        let ghost before = out@;
        out.pop();
        proof {
            assert(out@.push(0) =~= before);
            lemma_le_value_push_zero(out@, b);
        }
    }
    out
}

} // verus!
