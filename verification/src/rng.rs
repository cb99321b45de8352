//! The xorshift generator of the benchmark loops.

use vstd::prelude::*;

verus! {

/// One step of xorshift: thirteen to the left, seven to the right, seventeen to
/// the left.
pub open spec fn xorshift(x: u64) -> u64 {
    let a = x ^ (x << 13);
    let b = a ^ (a >> 7);
    b ^ (b << 17)
}

/// What the generator holds after `n` steps from `x`.
pub open spec fn xorshift_after(x: u64, n: nat) -> u64
    decreases n,
{
    if n == 0 {
        x
    } else {
        xorshift(xorshift_after(x, (n - 1) as nat))
    }
}

/// A generator, by what it holds.
pub struct Rng(pub u64);

impl Rng {
    /// The next number.
    pub fn next(&mut self) -> (r: u64)
        ensures
            r == xorshift(old(self).0),
            final(self).0 == r,
    {
        self.0 = self.0 ^ (self.0 << 13);
        self.0 = self.0 ^ (self.0 >> 7);
        self.0 = self.0 ^ (self.0 << 17);
        self.0
    }
}

/// Steps after steps are as many steps as both.
pub proof fn lemma_steps_add_up(x: u64, a: nat, b: nat)
    ensures
        xorshift_after(xorshift_after(x, a), b) == xorshift_after(x, a + b),
    decreases b,
{
    if b > 0 {
        lemma_steps_add_up(x, a, (b - 1) as nat);
    }
}

/// A generator that does not hold zero never comes to hold it.
pub proof fn lemma_xorshift_nonzero(x: u64)
    requires
        x != 0,
    ensures
        xorshift(x) != 0,
{
    let a = x ^ (x << 13);
    let b = a ^ (a >> 7);
    assert(a != 0) by (bit_vector)
        requires
            x != 0,
            a == x ^ (x << 13),
    ;
    assert(b != 0) by (bit_vector)
        requires
            a != 0,
            b == a ^ (a >> 7),
    ;
    assert(b ^ (b << 17) != 0) by (bit_vector)
        requires
            b != 0,
    ;
}

/// Numbers that differ go on to numbers that differ: the generator never runs into a
/// number from two sides, so it comes back to where it started before it repeats itself.
/// And a step keeps differences: what two numbers differ in after it depends on what they
/// differed in before alone.
pub proof fn lemma_xorshift_keeps_apart(x: u64, y: u64)
    ensures
        xorshift(x) == xorshift(y) ==> x == y,
        xorshift(x ^ y) == xorshift(x) ^ xorshift(y),
        xorshift(0) == 0,
{
    let (a, b) = (x ^ (x << 13), y ^ (y << 13));
    let (c, d) = (a ^ (a >> 7), b ^ (b >> 7));
    let (z, p) = (x ^ y, (x ^ y) ^ ((x ^ y) << 13));
    let q = p ^ (p >> 7);
    assert(p == a ^ b) by (bit_vector)
        requires
            p == (x ^ y) ^ ((x ^ y) << 13),
            a == x ^ (x << 13),
            b == y ^ (y << 13),
    ;
    assert(q == c ^ d) by (bit_vector)
        requires
            p == a ^ b,
            q == p ^ (p >> 7),
            c == a ^ (a >> 7),
            d == b ^ (b >> 7),
    ;
    assert(q ^ (q << 17) == (c ^ (c << 17)) ^ (d ^ (d << 17))) by (bit_vector)
        requires
            q == c ^ d,
    ;
    assert(xorshift(z) == xorshift(x) ^ xorshift(y));
    assert(z == 0 ==> x == y) by (bit_vector)
        requires
            z == x ^ y,
    ;
    if z != 0 {
        lemma_xorshift_nonzero(z);
        let (s, t) = (xorshift(x), xorshift(y));
        assert(s ^ t != 0 ==> s != t) by (bit_vector);
    }
    assert(0u64 ^ (0u64 << 13) == 0 && 0u64 ^ (0u64 >> 7) == 0 && 0u64 ^ (0u64 << 17) == 0)
        by (bit_vector);
}

} // verus!
