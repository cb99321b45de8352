//! Numbers as digits of a fixed width, most significant first, so that keys
//! made of them order as the numbers do.

use crate::bytes::{bytes_lt, lcp, lemma_lcp, lemma_lcp_unique};
use vstd::prelude::*;

verus! {

/// The character of a digit, `a` to `f` behind `9`.
pub open spec fn digit_char(d: int) -> u8 {
    if d < 10 {
        (48 + d) as u8
    } else {
        (87 + d) as u8
    }
}

/// The low `w` digits of `n` to a base.
pub open spec fn fixed_digits(n: nat, w: nat, base: nat) -> Seq<u8>
    decreases w,
{
    if w == 0 {
        Seq::empty()
    } else {
        fixed_digits(n / base, (w - 1) as nat, base).push(digit_char((n % base) as int))
    }
}

/// How many decimal digits a number has.
pub open spec fn decimal_width(n: nat) -> nat
    decreases n,
{
    if n < 10 {
        1
    } else {
        1 + decimal_width(n / 10)
    }
}

/// A number in decimal, padded with zeros to at least `w` digits.
pub open spec fn padded(n: nat, w: nat) -> Seq<u8> {
    fixed_digits(
        n,
        if decimal_width(n) > w {
            decimal_width(n)
        } else {
            w
        },
        10,
    )
}

/// Two to sixteen: the bases that have characters.
pub open spec fn is_base(base: int) -> bool {
    2 <= base <= 16
}

/// Digits are as many as asked for.
pub proof fn lemma_digits_len(n: nat, w: nat, base: nat)
    requires
        base > 0,
    ensures
        fixed_digits(n, w, base).len() == w,
    decreases w,
{
    if w > 0 {
        lemma_digits_len(n / base, (w - 1) as nat, base);
    }
}

/// The low `w` digits of `n` to a base between two and sixteen.
pub fn digits(n: u64, w: usize, base: u64) -> (out: Vec<u8>)
    requires
        is_base(base as int),
    ensures
        out@ == fixed_digits(n as nat, w as nat, base as nat),
{
    let mut out: Vec<u8> = vec![0u8; w];
    let mut v: u64 = n;
    let mut i: usize = w;
    proof {
        assert(fixed_digits(n as nat, w as nat, base as nat) =~= fixed_digits(
            v as nat,
            i as nat,
            base as nat,
        ) + out@.subrange(i as int, w as int));
    }
    while i > 0
        invariant
            i <= w,
            is_base(base as int),
            out@.len() == w,
            fixed_digits(n as nat, w as nat, base as nat) == fixed_digits(
                v as nat,
                i as nat,
                base as nat,
            ) + out@.subrange(i as int, w as int),
        decreases i,
    {
        let d: u64 = v % base;
        let c: u8 = if d < 10 {
            48 + d as u8
        } else {
            87 + d as u8
        };
        let ghost before = out@;
        i = i - 1;
        out.set(i, c);
        proof {
            let high = fixed_digits((v / base) as nat, i as nat, base as nat);
            assert(fixed_digits(v as nat, (i + 1) as nat, base as nat) == high.push(c));
            assert(high.push(c) + before.subrange(i + 1, w as int) =~= high + out@.subrange(
                i as int,
                w as int,
            ));
        }
        v = v / base;
    }
    proof {
        assert(out@.subrange(0, w as int) =~= out@);
        assert(fixed_digits(v as nat, 0, base as nat) + out@ =~= out@);
    }
    out
}

/// A number in decimal, padded with zeros to at least `w` digits.
pub fn decimal(n: u64, w: usize) -> (out: Vec<u8>)
    ensures
        out@ == padded(n as nat, w as nat),
{
    let mut len: usize = 1;
    let mut v: u64 = n;
    while v >= 10
        invariant
            decimal_width(n as nat) == len - 1 + decimal_width(v as nat),
            1 <= len,
            len <= 20,
            len == 1 ==> v <= 18446744073709551615,
            len == 2 ==> v <= 1844674407370955161,
            len == 3 ==> v <= 184467440737095516,
            len == 4 ==> v <= 18446744073709551,
            len == 5 ==> v <= 1844674407370955,
            len == 6 ==> v <= 184467440737095,
            len == 7 ==> v <= 18446744073709,
            len == 8 ==> v <= 1844674407370,
            len == 9 ==> v <= 184467440737,
            len == 10 ==> v <= 18446744073,
            len == 11 ==> v <= 1844674407,
            len == 12 ==> v <= 184467440,
            len == 13 ==> v <= 18446744,
            len == 14 ==> v <= 1844674,
            len == 15 ==> v <= 184467,
            len == 16 ==> v <= 18446,
            len == 17 ==> v <= 1844,
            len == 18 ==> v <= 184,
            len == 19 ==> v <= 18,
            len == 20 ==> v <= 1,
        decreases v,
    {
        len = len + 1;
        v = v / 10;
    }
    digits(
        n,
        if len > w {
            len
        } else {
            w
        },
        10,
    )
}

/// What each digit is: the one at place `i` stands for the number's multiple of
/// the base's power that has as many places behind it, `0` to `9` and then `a` on.
pub proof fn lemma_digit_at(n: nat, w: nat, base: nat, i: int)
    requires
        is_base(base as int),
        0 <= i < w,
    ensures
        fixed_digits(n, w, base).len() == w,
        ({
            let d = (n as int / vstd::arithmetic::power::pow(base as int, (w - 1 - i) as nat)) % (
            base as int);
            &&& 0 <= d < base
            &&& d < 10 ==> fixed_digits(n, w, base)[i] == 48 + d
            &&& d >= 10 ==> fixed_digits(n, w, base)[i] == 97 + (d - 10)
        }),
    decreases w,
{
    lemma_digits_len(n, w, base);
    vstd::arithmetic::power::lemma_pow0(base as int);
    vstd::arithmetic::power::lemma_pow1(base as int);
    let b = base as int;
    if i == w - 1 {
        assert(n as int / 1 == n);
        vstd::arithmetic::div_mod::lemma_mod_bound(n as int, b);
    } else {
        let e = (w - 2 - i) as nat;
        lemma_digits_len(n / base, (w - 1) as nat, base);
        lemma_digit_at(n / base, (w - 1) as nat, base, i);
        vstd::arithmetic::power::lemma_pow_adds(b, 1, e);
        vstd::arithmetic::power::lemma_pow_positive(b, e);
        vstd::arithmetic::div_mod::lemma_div_denominator(
            n as int,
            b,
            vstd::arithmetic::power::pow(b, e),
        );
    }
}

/// How wide a padded number is: as wide as asked for if that is enough for it, and
/// no wider than its own digits otherwise, the first of which is then no zero.
pub proof fn lemma_padded_width(n: nat, w: nat)
    requires
        w >= 1,
    ensures
        n < vstd::arithmetic::power::pow(10, w) ==> padded(n, w).len() == w,
        n >= vstd::arithmetic::power::pow(10, w) ==> padded(n, w).len() > w,
        n >= vstd::arithmetic::power::pow(10, w) ==> vstd::arithmetic::power::pow(
            10,
            (padded(n, w).len() - 1) as nat,
        ) <= n < vstd::arithmetic::power::pow(10, padded(n, w).len()),
{
    let d = decimal_width(n);
    lemma_decimal_width(n);
    lemma_digits_len(n, d, 10);
    lemma_digits_len(n, w, 10);
    if d > w {
        vstd::arithmetic::power::lemma_pow_increases(10, w, (d - 1) as nat);
    } else {
        vstd::arithmetic::power::lemma_pow_increases(10, d, w);
    }
}

/// How many decimal digits a number has.
pub proof fn lemma_decimal_width(n: nat)
    ensures
        decimal_width(n) >= 1,
        n < vstd::arithmetic::power::pow(10, decimal_width(n)),
        n >= 10 ==> vstd::arithmetic::power::pow(10, (decimal_width(n) - 1) as nat) <= n,
        n < 10 ==> decimal_width(n) == 1,
    decreases n,
{
    vstd::arithmetic::power::lemma_pow0(10);
    vstd::arithmetic::power::lemma_pow1(10);
    if n >= 10 {
        let w = decimal_width(n / 10);
        lemma_decimal_width(n / 10);
        vstd::arithmetic::power::lemma_pow_adds(10, 1, w);
        vstd::arithmetic::power::lemma_pow_adds(10, 1, (w - 1) as nat);
    }
}

/// Digits of equal width order as the numbers do.
pub proof fn lemma_digits_order(m: nat, n: nat, w: nat, base: nat)
    requires
        is_base(base as int),
        m < n,
        n < vstd::arithmetic::power::pow(base as int, w),
    ensures
        bytes_lt(fixed_digits(m, w, base), fixed_digits(n, w, base)),
    decreases w,
{
    vstd::arithmetic::power::lemma_pow0(base as int);
    if w == 0 {
        assert(false);
    } else {
        let (a, b) = (
            fixed_digits(m / base, (w - 1) as nat, base),
            fixed_digits(n / base, (w - 1) as nat, base),
        );
        let (x, y) = (digit_char((m % base) as int), digit_char((n % base) as int));
        lemma_digits_len(m / base, (w - 1) as nat, base);
        lemma_digits_len(n / base, (w - 1) as nat, base);
        vstd::arithmetic::div_mod::lemma_fundamental_div_mod(m as int, base as int);
        vstd::arithmetic::div_mod::lemma_fundamental_div_mod(n as int, base as int);
        vstd::arithmetic::div_mod::lemma_mod_bound(m as int, base as int);
        vstd::arithmetic::div_mod::lemma_mod_bound(n as int, base as int);
        vstd::arithmetic::div_mod::lemma_div_is_ordered(m as int, n as int, base as int);
        if m / base == n / base {
            lemma_lcp_unique(a.push(x), b.push(y), (w - 1) as nat);
        } else {
            vstd::arithmetic::power::lemma_pow1(base as int);
            vstd::arithmetic::power::lemma_pow_adds(base as int, 1, (w - 1) as nat);
            let p = vstd::arithmetic::power::pow(base as int, (w - 1) as nat);
            assert(n < base * p);
            vstd::arithmetic::div_mod::lemma_multiply_divide_lt(n as int, base as int, p);
            lemma_digits_order(m / base, n / base, (w - 1) as nat, base);
            lemma_lcp(a, b);
            assert forall|i: int| 0 <= i < lcp(a, b) implies a.push(x)[i] == b.push(y)[i] by {
                assert(a[i] == b[i]);
            }
            lemma_lcp_unique(a.push(x), b.push(y), lcp(a, b));
        }
    }
}

} // verus!
