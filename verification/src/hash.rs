//! The hashes and generators that the laboratory is built on. All of them are
//! fixed arithmetic, so that a run can be repeated on another machine.

use vstd::prelude::*;

verus! {

/// Where the hash of a key starts.
pub const KEY_START: u64 = 0xcbf2_9ce4_8422_2325;

/// What the hash of a key multiplies by.
pub const KEY_FACTOR: u64 = 0x1000_0000_01b3;

/// Where the thirty-two-bit FNV-1a hash starts.
pub const FNV32_START: u32 = 0x811c_9dc5;

/// What the thirty-two-bit FNV-1a hash multiplies by.
pub const FNV32_PRIME: u32 = 0x0100_0193;

/// Two to the sixty-fourth over the golden ratio, made odd.
pub const GOLDEN: u64 = 0x9E37_79B9_7F4A_7C15;

/// The bytes of `s` mixed into `h` one after the other.
pub open spec fn mixed_in(h: u64, s: Seq<u8>) -> u64
    decreases s.len(),
{
    if s.len() == 0 {
        h
    } else {
        (mixed_in(h, s.drop_last()) ^ (s.last() as u64)).wrapping_mul(KEY_FACTOR)
    }
}

/// FNV-1a over `s` in thirty-two bits, continued from `h`.
pub open spec fn fnv32_of(h: u32, s: Seq<u8>) -> u32
    decreases s.len(),
{
    if s.len() == 0 {
        h
    } else {
        (fnv32_of(h, s.drop_last()) ^ (s.last() as u32)).wrapping_mul(FNV32_PRIME)
    }
}

/// The hash of a key.
pub open spec fn key_hash_of(key: Seq<u8>) -> u64 {
    mixed_in(KEY_START, key)
}

/// The last mixing of a seeded hash: two shifts around a multiplication.
pub open spec fn finish_mix(h: u64) -> u64 {
    let a = h ^ (h >> 29);
    let b = a.wrapping_mul(0xBF58_476D_1CE4_E5B9);
    b ^ (b >> 32)
}

/// The hash of a key under a seed.
pub open spec fn key_hash_seeded_of(key: Seq<u8>, seed: u64) -> u64 {
    finish_mix(mixed_in(KEY_START ^ seed.wrapping_mul(GOLDEN), key))
}

/// The bytes of `key` mixed into `start` one after the other.
fn mix_from(start: u64, key: &[u8]) -> (h: u64)
    ensures
        h == mixed_in(start, key@),
{
    let mut h: u64 = start;
    let mut i: usize = 0;
    proof {
        assert(key@.take(0) =~= Seq::<u8>::empty());
    }
    while i < key.len()
        invariant
            i <= key.len(),
            h == mixed_in(start, key@.take(i as int)),
        decreases key.len() - i,
    {
        proof {
            assert(key@.take(i as int + 1).drop_last() =~= key@.take(i as int));
        }
        h = (h ^ (key[i] as u64)).wrapping_mul(KEY_FACTOR);
        i = i + 1;
    }
    proof {
        assert(key@.take(i as int) =~= key@);
    }
    h
}

/// The hash of a key.
pub fn key_hash(key: &[u8]) -> (h: u64)
    ensures
        h == key_hash_of(key@),
{
    mix_from(KEY_START, key)
}

/// The hash of a key under a seed: from a seeded start, and mixed once more.
pub fn key_hash_seeded(key: &[u8], seed: u64) -> (h: u64)
    ensures
        h == key_hash_seeded_of(key@, seed),
{
    let h: u64 = mix_from(KEY_START ^ seed.wrapping_mul(GOLDEN), key);
    let a: u64 = h ^ (h >> 29);
    let b: u64 = a.wrapping_mul(0xBF58_476D_1CE4_E5B9);
    b ^ (b >> 32)
}

/// Thirty-two-bit FNV-1a over `bytes`, continued from `h`.
pub fn fnv32(h: u32, bytes: &[u8]) -> (r: u32)
    ensures
        r == fnv32_of(h, bytes@),
{
    let start: u32 = h;
    let mut h: u32 = h;
    let mut i: usize = 0;
    proof {
        assert(bytes@.take(0) =~= Seq::<u8>::empty());
    }
    while i < bytes.len()
        invariant
            i <= bytes.len(),
            h == fnv32_of(start, bytes@.take(i as int)),
        decreases bytes.len() - i,
    {
        proof {
            assert(bytes@.take(i as int + 1).drop_last() =~= bytes@.take(i as int));
        }
        h = (h ^ (bytes[i] as u32)).wrapping_mul(FNV32_PRIME);
        i = i + 1;
    }
    proof {
        assert(bytes@.take(i as int) =~= bytes@);
    }
    h
}

/// Multiplying by a number that has an inverse tells numbers apart.
pub proof fn lemma_factor_tells_apart(a: u64, b: u64, f: u64, inverse: u64)
    requires
        (f * inverse) % 0x1_0000_0000_0000_0000 == 1,
        a.wrapping_mul(f) == b.wrapping_mul(f),
    ensures
        a == b,
{
    let m = 0x1_0000_0000_0000_0000int;
    assert forall|x: u64| (#[trigger] x.wrapping_mul(f) * inverse) % m == x by {
        let p = x * f;
        vstd::arithmetic::div_mod::lemma_mul_mod_noop_left(p, inverse as int, m);
        assert(p * inverse == x * (f * inverse)) by (nonlinear_arith)
            requires
                p == x * f,
        ;
        vstd::arithmetic::div_mod::lemma_mul_mod_noop_right(x as int, f * inverse, m);
        vstd::arithmetic::div_mod::lemma_small_mod(x as nat, m as nat);
    }
    assert((a.wrapping_mul(f) * inverse) % m == a);
    assert((b.wrapping_mul(f) * inverse) % m == b);
}

/// Mixing in a byte tells apart what was there before, and what is mixed in.
proof fn lemma_byte_keeps_apart(h: u64, g: u64, c: u64, d: u64)
    requires
        (h ^ c).wrapping_mul(KEY_FACTOR) == (g ^ d).wrapping_mul(KEY_FACTOR),
    ensures
        c == d ==> h == g,
        h == g ==> c == d,
{
    let (a, b) = (h ^ c, g ^ d);
    assert(0x1000_0000_01b3 * 0xb46d_d957_aff6_957b % 0x1_0000_0000_0000_0000 == 1);
    lemma_factor_tells_apart(a, b, KEY_FACTOR, 0xb46d_d957_aff6_957b);
    assert((c == d ==> h == g) && (h == g ==> c == d)) by (bit_vector)
        requires
            h ^ c == g ^ d,
    ;
}

/// Mixing in the same bytes tells apart what was mixed before them.
proof fn lemma_mixing_keeps_apart(h: u64, g: u64, s: Seq<u8>)
    requires
        mixed_in(h, s) == mixed_in(g, s),
    ensures
        h == g,
    decreases s.len(),
{
    if s.len() > 0 {
        lemma_mixed_last(h, s);
        lemma_mixed_last(g, s);
        let c = s.last() as u64;
        lemma_byte_keeps_apart(mixed_in(h, s.drop_last()), mixed_in(g, s.drop_last()), c, c);
        lemma_mixing_keeps_apart(h, g, s.drop_last());
    }
}

/// The last byte is mixed in last.
proof fn lemma_mixed_last(h: u64, s: Seq<u8>)
    requires
        s.len() > 0,
    ensures
        mixed_in(h, s) == (mixed_in(h, s.drop_last()) ^ (s.last() as u64)).wrapping_mul(
            KEY_FACTOR,
        ),
{
}

/// Bytes are mixed in one after the other.
pub proof fn lemma_mixed_in_concat(h: u64, a: Seq<u8>, b: Seq<u8>)
    ensures
        mixed_in(h, a + b) == mixed_in(mixed_in(h, a), b),
    decreases b.len(),
{
    if b.len() == 0 {
        assert(a + b =~= a);
    } else {
        assert((a + b).drop_last() =~= a + b.drop_last());
        lemma_mixed_in_concat(h, a, b.drop_last());
    }
}

/// Every byte of a key counts: two keys that differ in one byte alone have different
/// hashes.
pub proof fn lemma_hash_counts_every_byte(front: Seq<u8>, x: u8, y: u8, back: Seq<u8>)
    requires
        x != y,
    ensures
        key_hash_of(front + seq![x] + back) != key_hash_of(front + seq![y] + back),
{
    lemma_mixed_in_concat(KEY_START, front + seq![x], back);
    lemma_mixed_in_concat(KEY_START, front + seq![y], back);
    let (a, b) = (front.push(x), front.push(y));
    assert(a =~= front + seq![x] && b =~= front + seq![y]);
    assert(a.drop_last() =~= front && b.drop_last() =~= front);
    lemma_mixed_last(KEY_START, a);
    lemma_mixed_last(KEY_START, b);
    let h = mixed_in(KEY_START, front);
    let (p, q) = (mixed_in(KEY_START, a), mixed_in(KEY_START, b));
    if mixed_in(p, back) == mixed_in(q, back) {
        lemma_mixing_keeps_apart(p, q, back);
        lemma_byte_keeps_apart(h, h, x as u64, y as u64);
    }
}

/// Hashing a string piece by piece gives what hashing it whole gives.
pub proof fn lemma_fnv32_concat(h: u32, a: Seq<u8>, b: Seq<u8>)
    ensures
        fnv32_of(h, a + b) == fnv32_of(fnv32_of(h, a), b),
    decreases b.len(),
{
    if b.len() == 0 {
        assert(a + b =~= a);
    } else {
        assert((a + b).drop_last() =~= a + b.drop_last());
        lemma_fnv32_concat(h, a, b.drop_last());
    }
}

/// The last mixing tells numbers apart.
proof fn lemma_finish_keeps_apart(h: u64, g: u64)
    requires
        finish_mix(h) == finish_mix(g),
    ensures
        h == g,
{
    let (a, b) = (h ^ (h >> 29), g ^ (g >> 29));
    let (c, d) = (
        a.wrapping_mul(0xBF58_476D_1CE4_E5B9),
        b.wrapping_mul(0xBF58_476D_1CE4_E5B9),
    );
    assert(c == d) by (bit_vector)
        requires
            c ^ (c >> 32) == d ^ (d >> 32),
    ;
    assert(0xBF58_476D_1CE4_E5B9 * 0x96de_1b17_3f11_9089 % 0x1_0000_0000_0000_0000 == 1);
    lemma_factor_tells_apart(a, b, 0xBF58_476D_1CE4_E5B9, 0x96de_1b17_3f11_9089);
    assert(h == g) by (bit_vector)
        requires
            h ^ (h >> 29) == g ^ (g >> 29),
    ;
}

/// Under a seed, too, every byte of a key counts; and so does the seed: one key has
/// different hashes under different seeds.
pub proof fn lemma_seeded_hash_counts_all(
    front: Seq<u8>,
    x: u8,
    y: u8,
    back: Seq<u8>,
    seed: u64,
    other: u64,
)
    ensures
        x != y ==> key_hash_seeded_of(front + seq![x] + back, seed) != key_hash_seeded_of(
            front + seq![y] + back,
            seed,
        ),
        seed != other ==> key_hash_seeded_of(back, seed) != key_hash_seeded_of(back, other),
{
    let start = KEY_START ^ seed.wrapping_mul(GOLDEN);
    let begun = KEY_START ^ other.wrapping_mul(GOLDEN);
    lemma_mixed_in_concat(start, front + seq![x], back);
    lemma_mixed_in_concat(start, front + seq![y], back);
    let (a, b) = (front.push(x), front.push(y));
    assert(a =~= front + seq![x] && b =~= front + seq![y]);
    assert(a.drop_last() =~= front && b.drop_last() =~= front);
    lemma_mixed_last(start, a);
    lemma_mixed_last(start, b);
    let (p, q) = (mixed_in(start, a), mixed_in(start, b));
    if finish_mix(mixed_in(p, back)) == finish_mix(mixed_in(q, back)) {
        lemma_finish_keeps_apart(mixed_in(p, back), mixed_in(q, back));
        lemma_mixing_keeps_apart(p, q, back);
        let h = mixed_in(start, front);
        lemma_byte_keeps_apart(h, h, x as u64, y as u64);
    }
    if finish_mix(mixed_in(start, back)) == finish_mix(mixed_in(begun, back)) {
        lemma_finish_keeps_apart(mixed_in(start, back), mixed_in(begun, back));
        lemma_mixing_keeps_apart(start, begun, back);
        let (m, n, k) = (seed.wrapping_mul(GOLDEN), other.wrapping_mul(GOLDEN), KEY_START);
        assert(m == n) by (bit_vector)
            requires
                k ^ m == k ^ n,
        ;
        assert(0x9E37_79B9_7F4A_7C15 * 0xf1de_83e1_9937_733d % 0x1_0000_0000_0000_0000 == 1);
        lemma_factor_tells_apart(seed, other, GOLDEN, 0xf1de_83e1_9937_733d);
    }
}

/// Every byte counts in thirty-two bits as well.
pub proof fn lemma_fnv32_counts_every_byte(h: u32, front: Seq<u8>, x: u8, y: u8, back: Seq<u8>)
    requires
        x != y,
    ensures
        fnv32_of(h, front + seq![x] + back) != fnv32_of(h, front + seq![y] + back),
{
    lemma_fnv32_concat(h, front + seq![x], back);
    lemma_fnv32_concat(h, front + seq![y], back);
    let (a, b) = (front.push(x), front.push(y));
    assert(a =~= front + seq![x] && b =~= front + seq![y]);
    assert(a.drop_last() =~= front && b.drop_last() =~= front);
    let (p, q) = (fnv32_of(h, a), fnv32_of(h, b));
    lemma_fnv32_last(h, a);
    lemma_fnv32_last(h, b);
    if fnv32_of(p, back) == fnv32_of(q, back) {
        lemma_fnv32_keeps_apart(p, q, back);
        let g = fnv32_of(h, front);
        lemma_fnv32_byte(g, g, x as u32, y as u32);
    }
}

/// The last byte is mixed in last.
proof fn lemma_fnv32_last(h: u32, s: Seq<u8>)
    requires
        s.len() > 0,
    ensures
        fnv32_of(h, s) == (fnv32_of(h, s.drop_last()) ^ (s.last() as u32)).wrapping_mul(
            FNV32_PRIME,
        ),
{
}

/// Mixing in a byte tells apart what was there before, and what is mixed in.
proof fn lemma_fnv32_byte(h: u32, g: u32, c: u32, d: u32)
    requires
        (h ^ c).wrapping_mul(FNV32_PRIME) == (g ^ d).wrapping_mul(FNV32_PRIME),
    ensures
        c == d ==> h == g,
        h == g ==> c == d,
{
    let m = 0x1_0000_0000int;
    let f = 0x0100_0193int;
    let inverse = 0x359c_449bint;
    assert(f * inverse % m == 1);
    let (a, b) = (h ^ c, g ^ d);
    assert forall|x: u32| (#[trigger] x.wrapping_mul(FNV32_PRIME) * inverse) % m == x by {
        let p = x * f;
        vstd::arithmetic::div_mod::lemma_mul_mod_noop_left(p, inverse, m);
        assert(p * inverse == x * (f * inverse)) by (nonlinear_arith)
            requires
                p == x * f,
        ;
        vstd::arithmetic::div_mod::lemma_mul_mod_noop_right(x as int, f * inverse, m);
        vstd::arithmetic::div_mod::lemma_small_mod(x as nat, m as nat);
    }
    assert((a.wrapping_mul(FNV32_PRIME) * inverse) % m == a);
    assert((b.wrapping_mul(FNV32_PRIME) * inverse) % m == b);
    assert((c == d ==> h == g) && (h == g ==> c == d)) by (bit_vector)
        requires
            h ^ c == g ^ d,
    ;
}

/// Mixing in the same bytes tells apart what was mixed before them.
proof fn lemma_fnv32_keeps_apart(h: u32, g: u32, s: Seq<u8>)
    requires
        fnv32_of(h, s) == fnv32_of(g, s),
    ensures
        h == g,
    decreases s.len(),
{
    if s.len() > 0 {
        lemma_fnv32_last(h, s);
        lemma_fnv32_last(g, s);
        let c = s.last() as u32;
        lemma_fnv32_byte(fnv32_of(h, s.drop_last()), fnv32_of(g, s.drop_last()), c, c);
        lemma_fnv32_keeps_apart(h, g, s.drop_last());
    }
}

} // verus!
