//! The first eight bytes of a key as a number that orders as the key does.

use crate::bytes::{bytes_le, bytes_lt, lcp, lemma_lcp, lemma_order_total};
use vstd::prelude::*;

verus! {

/// Byte `i` of a string, zero past its end.
pub open spec fn byte_at(s: Seq<u8>, i: int) -> int {
    if 0 <= i < s.len() {
        s[i] as int
    } else {
        0
    }
}

/// The first `n` bytes, most significant first, padded with zeros.
pub open spec fn be_prefix(s: Seq<u8>, n: nat) -> nat
    decreases n,
{
    if n == 0 {
        0
    } else {
        be_prefix(s, (n - 1) as nat) * 256 + byte_at(s, n - 1) as nat
    }
}

/// The first eight bytes of a key as a number.
pub open spec fn prefix8_of(key: Seq<u8>) -> nat {
    be_prefix(key, 8)
}

/// The number of the first eight bytes, most significant first, padded with
/// zeros.
pub fn prefix8(key: &[u8]) -> (v: u64)
    ensures
        v == prefix8_of(key@),
{
    let mut v: u64 = 0;
    let mut i: usize = 0;
    let ghost mut bound: int = 1;
    while i < 8
        invariant
            i <= 8,
            v == be_prefix(key@, i as nat),
            v < bound,
            i == 0 ==> bound == 1,
            i == 1 ==> bound == 0x100,
            i == 2 ==> bound == 0x1_0000,
            i == 3 ==> bound == 0x100_0000,
            i == 4 ==> bound == 0x1_0000_0000,
            i == 5 ==> bound == 0x100_0000_0000,
            i == 6 ==> bound == 0x1_0000_0000_0000,
            i == 7 ==> bound == 0x100_0000_0000_0000,
            i == 8 ==> bound == 0x1_0000_0000_0000_0000,
        decreases 8 - i,
    {
        let b: u64 = if i < key.len() {
            key[i] as u64
        } else {
            0
        };
        v = v * 256 + b;
        proof {
            bound = bound * 256;
        }
        i = i + 1;
    }
    v
}

/// Equal bytes up to `n` give equal numbers.
proof fn lemma_be_prefix_equal(a: Seq<u8>, b: Seq<u8>, n: nat)
    requires
        forall|i: int| 0 <= i < n ==> byte_at(a, i) == byte_at(b, i),
    ensures
        be_prefix(a, n) == be_prefix(b, n),
    decreases n,
{
    if n > 0 {
        lemma_be_prefix_equal(a, b, (n - 1) as nat);
    }
}

/// The prefix number never orders two keys the other way round.
pub proof fn lemma_be_prefix_order(a: Seq<u8>, b: Seq<u8>, n: nat)
    requires
        bytes_le(a, b),
    ensures
        be_prefix(a, n) <= be_prefix(b, n),
        bytes_lt(a, b) && lcp(a, b) < a.len() && lcp(a, b) < n ==> be_prefix(a, n) < be_prefix(
            b,
            n,
        ),
    decreases n,
{
    lemma_order_total(a, b);
    lemma_lcp(a, b);
    let p = lcp(a, b) as int;
    if a != b && n > 0 {
        if n <= p {
            lemma_be_prefix_equal(a, b, n);
        } else {
            lemma_be_prefix_order(a, b, (n - 1) as nat);
            if n - 1 == p {
                lemma_be_prefix_equal(a, b, p as nat);
            }
        }
    }
}

/// Keys in order have prefix numbers in order.
pub proof fn lemma_prefix8_order(a: Seq<u8>, b: Seq<u8>)
    requires
        bytes_le(a, b),
    ensures
        prefix8_of(a) <= prefix8_of(b),
{
    lemma_be_prefix_order(a, b, 8);
}

/// The low `n` bytes of a number, most significant first.
pub open spec fn be_bytes(x: nat, n: nat) -> Seq<u8>
    decreases n,
{
    if n == 0 {
        Seq::empty()
    } else {
        be_bytes(x / 256, (n - 1) as nat).push((x % 256) as u8)
    }
}

/// The first bytes do not depend on what follows.
proof fn lemma_be_prefix_front(s: Seq<u8>, b: u8, n: nat)
    requires
        n <= s.len(),
    ensures
        be_prefix(s.push(b), n) == be_prefix(s, n),
    decreases n,
{
    if n > 0 {
        lemma_be_prefix_front(s, b, (n - 1) as nat);
    }
}

/// Bytes read back as the number that they were written from.
pub proof fn lemma_be_round_trip(x: nat, n: nat)
    requires
        x < vstd::arithmetic::power::pow(256, n),
    ensures
        be_bytes(x, n).len() == n,
        be_prefix(be_bytes(x, n), n) == x,
    decreases n,
{
    vstd::arithmetic::power::lemma_pow0(256);
    if n > 0 {
        vstd::arithmetic::power::lemma_pow1(256);
        vstd::arithmetic::power::lemma_pow_adds(256, 1, (n - 1) as nat);
        let p = vstd::arithmetic::power::pow(256, (n - 1) as nat);
        assert(x < 256 * p);
        lemma_be_round_trip(x / 256, (n - 1) as nat);
        lemma_be_prefix_front(be_bytes(x / 256, (n - 1) as nat), (x % 256) as u8, (n - 1) as nat);
    }
}

/// Bytes are as many as asked for.
pub proof fn lemma_be_len(x: nat, n: nat)
    ensures
        be_bytes(x, n).len() == n,
    decreases n,
{
    if n > 0 {
        lemma_be_len(x / 256, (n - 1) as nat);
    }
}

/// The eight bytes of a number are eight, and read back as it.
pub proof fn lemma_be64(x: u64)
    ensures
        be_bytes(x as nat, 8).len() == 8,
        prefix8_of(be_bytes(x as nat, 8)) == x,
{
    vstd::arithmetic::power::lemma_pow1(256);
    vstd::arithmetic::power::lemma_pow_adds(256, 1, 1);
    vstd::arithmetic::power::lemma_pow_adds(256, 2, 2);
    vstd::arithmetic::power::lemma_pow_adds(256, 4, 4);
    let (a, b, c, d) = (
        vstd::arithmetic::power::pow(256, 1),
        vstd::arithmetic::power::pow(256, 2),
        vstd::arithmetic::power::pow(256, 4),
        vstd::arithmetic::power::pow(256, 8),
    );
    assert(d == 0x1_0000_0000_0000_0000) by (nonlinear_arith)
        requires
            a == 256,
            b == a * a,
            c == b * b,
            d == c * c,
    ;
    lemma_be_round_trip(x as nat, 8);
}

/// Appends the eight bytes of a number, most significant first.
pub fn push_be64(out: &mut Vec<u8>, x: u64)
    ensures
        final(out)@ == old(out)@ + be_bytes(x as nat, 8),
{
    let ghost start = out@;
    let mut v: u64 = x;
    let mut i: usize = 8;
    let mut buf: Vec<u8> = vec![0u8; 8];
    proof {
        assert(be_bytes(x as nat, 8) =~= be_bytes(v as nat, i as nat) + buf@.subrange(i as int, 8));
    }
    while i > 0
        invariant
            i <= 8,
            buf@.len() == 8,
            out@ == start,
            be_bytes(x as nat, 8) == be_bytes(v as nat, i as nat) + buf@.subrange(i as int, 8),
        decreases i,
    {
        let ghost before = buf@;
        i = i - 1;
        buf.set(i, (v % 256) as u8);
        proof {
            let high = be_bytes((v / 256) as nat, i as nat);
            assert(be_bytes(v as nat, (i + 1) as nat) == high.push((v % 256) as u8));
            assert(high.push((v % 256) as u8) + before.subrange(i + 1, 8) =~= high
                + buf@.subrange(i as int, 8));
        }
        v = v / 256;
    }
    proof {
        assert(buf@.subrange(0, 8) =~= buf@);
        assert(be_bytes(v as nat, 0) + buf@ =~= buf@);
    }
    crate::bytes::push_bytes(out, &buf);
}

} // verus!
