//! The generator that picks keys to read and orders to write in.

use crate::hash::{lemma_factor_tells_apart, GOLDEN};
use crate::kvbench::{db_key_into, db_key_of};
use vstd::prelude::*;

verus! {

/// The mixing of a counter into a number.
pub open spec fn mixed(x: u64) -> u64 {
    let a = (x ^ (x >> 30)).wrapping_mul(0xBF58_476D_1CE4_E5B9);
    let b = (a ^ (a >> 27)).wrapping_mul(0x94D0_49BB_1331_11EB);
    b ^ (b >> 31)
}

/// A generator, by its counter.
pub struct SplitMix(pub u64);

impl SplitMix {
    /// The generator of one repetition: the seed, set apart by its number.
    pub fn for_rep(seed: u64, rep: u64) -> (g: SplitMix)
        ensures
            g.0 == seed ^ rep.wrapping_mul(GOLDEN),
    {
        SplitMix(seed ^ rep.wrapping_mul(GOLDEN))
    }

    /// The next number.
    pub fn next(&mut self) -> (z: u64)
        ensures
            final(self).0 == old(self).0.wrapping_add(GOLDEN),
            z == mixed(final(self).0),
    {
        self.0 = self.0.wrapping_add(GOLDEN);
        let x: u64 = self.0;
        let a: u64 = (x ^ (x >> 30)).wrapping_mul(0xBF58_476D_1CE4_E5B9);
        let b: u64 = (a ^ (a >> 27)).wrapping_mul(0x94D0_49BB_1331_11EB);
        b ^ (b >> 31)
    }

    /// The next number of a key.
    pub fn next_below(&mut self, keys: u64) -> (k: u64)
        requires
            keys > 0,
        ensures
            final(self).0 == old(self).0.wrapping_add(GOLDEN),
            k == mixed(final(self).0) % keys,
            k < keys,
    {
        self.next() % keys
    }
}

// ------------------------------------------------------------------ orders --

/// Each number below `n` once.
pub open spec fn is_order(p: Seq<u64>, n: nat) -> bool {
    &&& p.len() == n
    &&& forall|i: int| 0 <= i < n ==> (#[trigger] p[i]) < n
    &&& forall|i: int, j: int| 0 <= i < j < n ==> #[trigger] p[i] != #[trigger] p[j]
}

/// What is left of a shuffle at place `i`, with the counter at `x`.
pub open spec fn shuffled(p: Seq<u64>, x: u64, i: nat) -> Seq<u64>
    decreases i,
{
    if i == 0 {
        p
    } else {
        let y = x.wrapping_add(GOLDEN);
        let j = (mixed(y) % ((i + 1) as u64)) as int;
        shuffled(p.update(i as int, p[j]).update(j, p[i as int]), y, (i - 1) as nat)
    }
}

/// The order in which keys are written: one after the other, or shuffled.
pub open spec fn order_of(keys: nat, seed: u64, sequential: bool) -> Seq<u64> {
    let id = Seq::new(keys, |i: int| i as u64);
    if sequential || keys == 0 {
        id
    } else {
        shuffled(id, seed, (keys - 1) as nat)
    }
}

/// The order in which keys are written: each once, one after the other or
/// shuffled.
pub fn write_order(keys: usize, seed: u64, sequential: bool) -> (p: Vec<u64>)
    ensures
        p@ == order_of(keys as nat, seed, sequential),
        is_order(p@, keys as nat),
{
    let mut p: Vec<u64> = Vec::new();
    let mut i: usize = 0;
    while i < keys
        invariant
            i <= keys,
            p@ =~= Seq::new(i as nat, |j: int| j as u64),
        decreases keys - i,
    {
        p.push(i as u64);
        i = i + 1;
    }
    if sequential || keys == 0 {
        return p;
    }
    let mut g: SplitMix = SplitMix(seed);
    let mut i: usize = keys - 1;
    while i > 0
        invariant
            i < keys,
            !sequential,
            is_order(p@, keys as nat),
            shuffled(p@, g.0, i as nat) == order_of(keys as nat, seed, sequential),
        decreases i,
    {
        let ghost before = p@;
        let j: usize = (g.next() % (i as u64 + 1)) as usize;
        let a: u64 = p[i];
        let b: u64 = p[j];
        p.set(i, b);
        p.set(j, a);
        proof {
            assert(p@ =~= before.update(i as int, before[j as int]).update(
                j as int,
                before[i as int],
            ));
        }
        i = i - 1;
    }
    p
}

// ------------------------------------------------------------------- picks --

/// A key that was not deleted, where every tenth one was: the next one behind a
/// deleted one.
pub open spec fn present_of(z: u64) -> int {
    if z % 10 == 0 {
        z + 1
    } else {
        z as int
    }
}

/// A key that was not deleted.
pub fn present_pick(z: u64) -> (k: u64)
    requires
        z < u64::MAX,
    ensures
        k == present_of(z),
{
    if z % 10 == 0 {
        z + 1
    } else {
        z
    }
}

/// A key that was deleted: the last tenth one at or before it.
pub fn deleted_pick(z: u64) -> (k: u64)
    ensures
        k == z - z % 10,
        k % 10 == 0,
        k <= z,
{
    z - z % 10
}

/// What is picked as present is never a deleted key, and is one of the keys
/// unless the last key is a deleted one.
pub proof fn lemma_present_is_present(z: u64, keys: u64)
    requires
        z < keys,
    ensures
        present_of(z) % 10 != 0,
        keys % 10 != 1 ==> present_of(z) < keys,
{
}

/// Writes a key that exists nowhere: one of the keys with a bit of its last
/// byte turned over, so that it sorts beside its neighbours.
pub fn absent_key_into(k: u64, buf: &mut [u8; 16])
    ensures
        final(buf)@ == db_key_of(k).update(15, db_key_of(k)[15] ^ 0x80),
{
    db_key_into(k, buf);
    let b: u8 = buf[15];
    buf[15] = b ^ 0x80;
}

/// An absent key is the key of no number.
pub proof fn lemma_absent_is_absent(k: u64, n: u64)
    ensures
        db_key_of(k).update(15, db_key_of(k)[15] ^ 0x80) != db_key_of(n),
{
    crate::digits::lemma_digits_len(k as nat, 16, 10);
    crate::digits::lemma_digits_len(n as nat, 16, 10);
    let b = db_key_of(k)[15];
    let c = db_key_of(n)[15];
    assert(48 <= b <= 57);
    assert(48 <= c <= 57);
    assert(b ^ 0x80 > 57) by (bit_vector)
        requires
            48 <= b <= 57,
    ;
    assert(db_key_of(k).update(15, b ^ 0x80)[15] == b ^ 0x80);
}

/// The generator's numbers: each comes from another step, and no number comes from two
/// steps, so that none comes twice before all have come.
pub proof fn lemma_mixed_keeps_apart(x: u64, y: u64)
    requires
        mixed(x) == mixed(y),
    ensures
        x == y,
{
    let (a, b) = (x ^ (x >> 30), y ^ (y >> 30));
    let (c, d) = (
        a.wrapping_mul(0xBF58_476D_1CE4_E5B9),
        b.wrapping_mul(0xBF58_476D_1CE4_E5B9),
    );
    let (e, f) = (c ^ (c >> 27), d ^ (d >> 27));
    let (p, q) = (
        e.wrapping_mul(0x94D0_49BB_1331_11EB),
        f.wrapping_mul(0x94D0_49BB_1331_11EB),
    );
    assert(p == q) by (bit_vector)
        requires
            p ^ (p >> 31) == q ^ (q >> 31),
    ;
    assert(0x94D0_49BB_1331_11EB * 0x3196_42b2_d24d_8ec3 % 0x1_0000_0000_0000_0000 == 1);
    lemma_factor_tells_apart(e, f, 0x94D0_49BB_1331_11EB, 0x3196_42b2_d24d_8ec3);
    assert(c == d) by (bit_vector)
        requires
            c ^ (c >> 27) == d ^ (d >> 27),
    ;
    assert(0xBF58_476D_1CE4_E5B9 * 0x96de_1b17_3f11_9089 % 0x1_0000_0000_0000_0000 == 1);
    lemma_factor_tells_apart(a, b, 0xBF58_476D_1CE4_E5B9, 0x96de_1b17_3f11_9089);
    assert(x == y) by (bit_vector)
        requires
            x ^ (x >> 30) == y ^ (y >> 30),
    ;
}

/// How keys are shuffled: from the last place down, each place gets one of the keys that
/// are still without a place, the one that was drawn for it, and keeps it.
pub proof fn lemma_shuffle_draws_each_place(p: Seq<u64>, x: u64, i: nat)
    requires
        i < p.len() < u64::MAX,
    ensures
        shuffled(p, x, i).len() == p.len(),
        i > 0 ==> shuffled(p, x, i)[i as int] == p[mixed(
            x.wrapping_add(0x9E37_79B9_7F4A_7C15),
        ) as int % (i + 1) as int],
        forall|k: int| i < k < p.len() ==> #[trigger] shuffled(p, x, i)[k] == p[k],
    decreases i,
{
    if i > 0 {
        let y = x.wrapping_add(GOLDEN);
        let j = (mixed(y) % ((i + 1) as u64)) as int;
        let next = p.update(i as int, p[j]).update(j, p[i as int]);
        lemma_shuffle_draws_each_place(next, y, (i - 1) as nat);
        assert(shuffled(p, x, i)[i as int] == next[i as int]);
    }
}

/// Keys are written in their own order where that is asked for. A key that was picked
/// as present is the one drawn or, where that was deleted, the next.
pub proof fn lemma_orders_and_picks(keys: nat, seed: u64, z: u64)
    ensures
        order_of(keys, seed, true) == Seq::new(keys, |i: int| i as u64),
        keys > 1 ==> order_of(keys, seed, false) == shuffled(
            Seq::new(keys, |i: int| i as u64),
            seed,
            (keys - 1) as nat,
        ),
        z % 10 == 0 ==> present_of(z) == z + 1,
        z % 10 != 0 ==> present_of(z) == z,
{
}

} // verus!
