//! A blocked Bloom filter: every probe for a key lands in one block of five
//! hundred and twelve bits, so a query costs a single cache miss.

use crate::bytes::key_seqs;
use crate::hash::{key_hash_seeded, key_hash_seeded_of, lemma_factor_tells_apart, GOLDEN};
use crate::memory::{bytes_of, Memory, Rooms, Scale, Weighed};
use crate::mph::{
    encodes, lemma_cover, lemma_encoded_once, lemma_marked_set, lemma_set_bit, marked_set,
    marks_below, word_bit,
};
use crate::table::{is_power_of_two, lemma_double, lemma_mask_is_mod};
use vstd::arithmetic::power2::{lemma_pow2_strictly_increases, lemma_pow2_unfold, pow2};
use vstd::prelude::*;
use vstd::set_lib::{lemma_int_range, set_int_range};

verus! {

/// How many bits of the filter a key is given.
pub const BLOOM_BITS_PER_KEY: usize = 12;

/// How many bits are set and tested for a key.
pub const BLOOM_PROBES: usize = 6;

/// The seed of the filter's hash.
pub const BLOOM_SEED: u64 = 0xB100;

/// One step of the probe sequence: a multiplication, and a rotation by
/// seventeen.
pub open spec fn next_probe(x: u64) -> u64 {
    let m = x.wrapping_mul(GOLDEN);
    (m << 17) | (m >> 47)
}

/// The probe sequence after `t` steps from a hash.
pub open spec fn probe_after(h: u64, t: nat) -> u64
    decreases t,
{
    if t == 0 {
        h
    } else {
        next_probe(probe_after(h, (t - 1) as nat))
    }
}

/// The block of a hash.
pub open spec fn bloom_block(h: u64, nblocks: int) -> int {
    ((h >> 32) as int) % nblocks
}

/// The bit that probe `t` of a key falls on, counted over all blocks.
pub open spec fn bloom_bit(key: Seq<u8>, t: int, nblocks: int) -> int {
    let h = key_hash_seeded_of(key, BLOOM_SEED);
    512 * bloom_block(h, nblocks) + ((probe_after(h, (t + 1) as nat) >> 40) as int) % 512
}

/// The bits that the probes of the keys fall on.
pub open spec fn bloom_marks(keys: Seq<Seq<u8>>, nblocks: int) -> Seq<bool> {
    Seq::new(
        (512 * nblocks) as nat,
        |g: int|
            exists|i: int, t: int|
                0 <= i < keys.len() && 0 <= t < BLOOM_PROBES && #[trigger] bloom_bit(
                    keys[i],
                    t,
                    nblocks,
                ) == g,
    )
}

/// Whether all the bits that the probes of `key` fall on are marked.
pub open spec fn all_marked(marks: Seq<bool>, key: Seq<u8>, nblocks: int) -> bool {
    forall|t: int| 0 <= t < BLOOM_PROBES ==> marks[#[trigger] bloom_bit(key, t, nblocks)]
}

/// How many blocks a filter for `n` keys wants, before rounding up to a power
/// of two.
pub open spec fn blocks_wanted(n: nat) -> nat {
    if n * 12 / 512 >= 1 {
        n * 12 / 512
    } else {
        1
    }
}

/// A blocked Bloom filter.
pub struct BlockedBloom {
    pub blocks: Vec<u64>,
    pub nblocks: usize,
    /// The filter's bits as marks.
    pub marks: Ghost<Seq<bool>>,
}

impl Weighed for BlockedBloom {
    /// The words of the filter.
    open spec fn memory(&self) -> Memory {
        Memory::nothing().with(self.blocks@.len(), 8)
    }

    fn list_rooms(&self, r: &mut Rooms) {
        let ghost before = r.parts@;
        r.vector(&self.blocks, 8);
        proof {
            assert(r.parts@ =~= before + self.memory().parts);
        }
    }

    fn weigh_on(&self, s: &mut Scale<'_>) {
        let ghost before = s.made@;
        s.vector(Ghost(self.blocks@.len()), 8);
        proof {
            assert(s.made@ =~= before.and(self.memory()));
        }
    }
}

impl BlockedBloom {
    /// The words hold the marks, and the number of blocks is a power of two.
    pub open spec fn wf(self) -> bool {
        &&& is_power_of_two(self.nblocks as nat)
        &&& self.marks@.len() == 512 * self.nblocks
        &&& encodes(self.blocks@, self.marks@)
    }

    /// The filter is the one over these keys: its blocks are the least power of
    /// two that is enough, and just the keys' bits are set.
    pub open spec fn made_of(self, keys: Seq<Seq<u8>>) -> bool {
        &&& self.wf()
        &&& blocks_wanted(keys.len()) <= self.nblocks < 2 * blocks_wanted(keys.len())
        &&& self.marks@ == bloom_marks(keys, self.nblocks as int)
    }

    /// What the filter says of a key.
    pub open spec fn passes(self, key: Seq<u8>) -> bool {
        all_marked(self.marks@, key, self.nblocks as int)
    }

    /// The block of a hash.
    pub fn block_of(&self, h: u64) -> (b: usize)
        requires
            is_power_of_two(self.nblocks as nat),
        ensures
            b == bloom_block(h, self.nblocks as int),
            b < self.nblocks,
    {
        block_index(h, self.nblocks)
    }

    /// Whether the key may be in the set: false only for keys that are not.
    pub fn maybe_contains(&self, key: &[u8]) -> (r: bool)
        requires
            self.wf(),
        ensures
            r == self.passes(key@),
    {
        let h: u64 = key_hash_seeded(key, BLOOM_SEED);
        let b: usize = self.block_of(h);
        let mut x: u64 = h;
        let mut t: usize = 0;
        assert(self.blocks@.len() == self.blocks.len());
        while t < BLOOM_PROBES
            invariant
                self.wf(),
                t <= BLOOM_PROBES,
                h == key_hash_seeded_of(key@, BLOOM_SEED),
                b == bloom_block(h, self.nblocks as int),
                b < self.nblocks,
                self.blocks@.len() == 8 * self.nblocks,
                8 * self.nblocks <= usize::MAX,
                x == probe_after(h, t as nat),
                forall|u: int|
                    0 <= u < t ==> self.marks@[#[trigger] bloom_bit(
                        key@,
                        u,
                        self.nblocks as int,
                    )],
            decreases BLOOM_PROBES - t,
        {
            let m: u64 = x.wrapping_mul(GOLDEN);
            x = (m << 17) | (m >> 47);
            let bit: usize = ((x >> 40) % 512) as usize;
            let ghost g = bloom_bit(key@, t as int, self.nblocks as int);
            proof {
                assert(g == 512 * b + bit) by {
                    reveal_with_fuel(probe_after, 2);
                }
                lemma_bit_place(b as int, bit as int);
                assert(g < self.marks@.len());
                assert(word_bit(self.blocks@[g / 64], g % 64) == self.marks@[g]);
            }
            if self.blocks[b * 8 + bit / 64] & (1u64 << ((bit % 64) as u64)) == 0 {
                return false;
            }
            t = t + 1;
        }
        true
    }

    /// The bytes that the filter occupies.
    pub fn bytes(&self) -> (n: usize)
        ensures
            self.memory().sized(),
            self.memory().takes(n as int),
    {
        bytes_of(self)
    }

    /// A filter over the keys.
    pub fn build(keys: &[Vec<u8>]) -> (r: BlockedBloom)
        requires
            keys@.len() * BLOOM_BITS_PER_KEY <= usize::MAX,
        ensures
            r.made_of(key_seqs(keys@)),
            forall|i: int| 0 <= i < keys@.len() ==> r.passes(#[trigger] key_seqs(keys@)[i]),
    {
        let ghost ks = key_seqs(keys@);
        let wanted: usize = if keys.len() * BLOOM_BITS_PER_KEY / 512 >= 1 {
            keys.len() * BLOOM_BITS_PER_KEY / 512
        } else {
            1
        };
        let nblocks: usize = power_of_two_from(wanted);
        let words: usize = nblocks * 8;
        let mut out: Vec<u64> = vec![0u64; words];
        let ghost n = nblocks as int;
        let mut i: usize = 0;
        proof {
            assert forall|g: int| 0 <= g < 512 * n implies word_bit(out@[g / 64], g % 64)
                == bloom_marks(ks.take(0), n)[g] by {
                let sh = (g % 64) as u64;
                assert(0u64 & (1u64 << sh) == 0) by (bit_vector);
            }
        }
        while i < keys.len()
            invariant
                i <= keys@.len(),
                ks == key_seqs(keys@),
                n == nblocks,
                is_power_of_two(nblocks as nat),
                out@.len() == 8 * n,
                encodes(out@, bloom_marks(ks.take(i as int), n)),
            decreases keys.len() - i,
        {
            let ghost before = bloom_marks(ks.take(i as int), n);
            set_key_bits(&mut out, &keys[i], nblocks, Ghost(before));
            proof {
                let after = bloom_marks(ks.take(i + 1), n);
                assert forall|g: int| 0 <= g < 512 * n implies after[g] == (before[g] || exists|
                    t: int,
                | 0 <= t < BLOOM_PROBES && #[trigger] bloom_bit(keys@[i as int]@, t, n) == g) by {
                    assert(ks[i as int] == keys@[i as int]@);
                    lemma_marks_grow(ks, i as int, n, g);
                }
                assert(after =~= with_key(before, keys@[i as int]@, BLOOM_PROBES as int, n));
            }
            i = i + 1;
        }
        proof {
            assert(ks.take(i as int) =~= ks);
            let marks = bloom_marks(ks, n);
            assert forall|j: int| 0 <= j < ks.len() implies all_marked(
                marks,
                #[trigger] ks[j],
                n,
            ) by {
                assert forall|t: int| 0 <= t < BLOOM_PROBES implies marks[#[trigger] bloom_bit(
                    ks[j],
                    t,
                    n,
                )] by {
                    lemma_bit_range(ks[j], t, n);
                }
            }
        }
        BlockedBloom { blocks: out, nblocks, marks: Ghost(bloom_marks(ks, n)) }
    }
}

/// The word of a bit in a block, and its place in the word.
proof fn lemma_bit_place(b: int, bit: int)
    requires
        0 <= b,
        0 <= bit < 512,
    ensures
        (512 * b + bit) / 64 == b * 8 + bit / 64,
        (512 * b + bit) % 64 == bit % 64,
{
}

/// A probe falls inside the filter.
proof fn lemma_bit_range(key: Seq<u8>, t: int, n: int)
    requires
        n > 0,
    ensures
        0 <= bloom_bit(key, t, n) < 512 * n,
{
}

/// Marks with the first `upto` probes of one more key.
spec fn with_key(marks: Seq<bool>, key: Seq<u8>, upto: int, n: int) -> Seq<bool> {
    Seq::new(
        marks.len(),
        |g: int|
            marks[g] || exists|t: int| 0 <= t < upto && #[trigger] bloom_bit(key, t, n) == g,
    )
}

/// One more key marks what its probes fall on.
proof fn lemma_marks_grow(ks: Seq<Seq<u8>>, i: int, n: int, g: int)
    requires
        0 <= i < ks.len(),
        0 <= g < 512 * n,
    ensures
        bloom_marks(ks.take(i + 1), n)[g] == (bloom_marks(ks.take(i), n)[g] || exists|t: int|
            0 <= t < BLOOM_PROBES && #[trigger] bloom_bit(ks[i], t, n) == g),
{
    let a = ks.take(i);
    let b = ks.take(i + 1);
    if bloom_marks(b, n)[g] {
        let (j, t) = choose|j: int, t: int|
            0 <= j < b.len() && 0 <= t < BLOOM_PROBES && #[trigger] bloom_bit(b[j], t, n) == g;
        if j < i {
            assert(a[j] == b[j]);
            assert(bloom_bit(a[j], t, n) == g);
        } else {
            assert(b[j] == ks[i]);
            assert(bloom_bit(ks[i], t, n) == g);
        }
    }
    if bloom_marks(a, n)[g] {
        let (j, t) = choose|j: int, t: int|
            0 <= j < a.len() && 0 <= t < BLOOM_PROBES && #[trigger] bloom_bit(a[j], t, n) == g;
        assert(a[j] == b[j]);
        assert(bloom_bit(b[j], t, n) == g);
    }
    if exists|t: int| 0 <= t < BLOOM_PROBES && #[trigger] bloom_bit(ks[i], t, n) == g {
        let t = choose|t: int| 0 <= t < BLOOM_PROBES && #[trigger] bloom_bit(ks[i], t, n) == g;
        assert(b[i] == ks[i]);
        assert(bloom_bit(b[i], t, n) == g);
    }
}

/// At most six bits are set for a key.
pub proof fn lemma_few_bits(b: BlockedBloom, keys: Seq<Seq<u8>>)
    requires
        b.made_of(keys),
    ensures
        marks_below(b.marks@, b.marks@.len()) <= BLOOM_PROBES * keys.len(),
{
    let n = b.nblocks as int;
    let m = marked_set(b.marks@, b.marks@.len());
    let all = BLOOM_PROBES * keys.len();
    let d = set_int_range(0, all);
    let f = |r: int| bloom_bit(keys[r / 6], r % 6, n);
    lemma_marked_set(b.marks@, b.marks@.len());
    lemma_int_range(0, all);
    assert forall|g: int| m.contains(g) implies exists|r: int| #[trigger]
        d.contains(r) && f(r) == g by {
        let (i, t) = choose|i: int, t: int|
            0 <= i < keys.len() && 0 <= t < BLOOM_PROBES && #[trigger] bloom_bit(keys[i], t, n)
                == g;
        let r = 6 * i + t;
        assert(r / 6 == i && r % 6 == t);
        assert(d.contains(r) && f(r) == g);
    }
    lemma_cover(m, d, f);
}

/// There is one power of two from a number up to twice the number.
proof fn lemma_one_power(a: nat, b: nat, w: nat)
    requires
        is_power_of_two(a),
        is_power_of_two(b),
        w <= a < 2 * w,
        w <= b < 2 * w,
    ensures
        a == b,
{
    let j = choose|k: nat| k < 64 && a == #[trigger] pow2(k);
    let k = choose|k: nat| k < 64 && b == #[trigger] pow2(k);
    if j < k {
        lemma_pow2_unfold(j + 1);
        if j + 1 < k {
            lemma_pow2_strictly_increases(j + 1, k);
        }
    } else if k < j {
        lemma_pow2_unfold(k + 1);
        if k + 1 < j {
            lemma_pow2_strictly_increases(k + 1, j);
        }
    }
}

/// The order of the keys does not matter: filters over the same keys are the
/// same, word by word.
pub proof fn lemma_order_is_nothing(
    a: BlockedBloom,
    b: BlockedBloom,
    keys: Seq<Seq<u8>>,
    other: Seq<Seq<u8>>,
)
    requires
        a.made_of(keys),
        b.made_of(other),
        keys.to_multiset() == other.to_multiset(),
    ensures
        a.nblocks == b.nblocks,
        a.blocks@ == b.blocks@,
{
    keys.to_multiset_ensures();
    other.to_multiset_ensures();
    lemma_one_power(a.nblocks as nat, b.nblocks as nat, blocks_wanted(keys.len()));
    let n = a.nblocks as int;
    assert forall|g: int| 0 <= g < 512 * n implies a.marks@[g] == b.marks@[g] by {
        lemma_marks_within(keys, other, n, g);
        lemma_marks_within(other, keys, n, g);
    }
    assert(a.marks@ =~= b.marks@);
    lemma_encoded_once(a.blocks@, b.blocks@, a.marks@);
}

/// A key of one list is in another with the same keys.
proof fn lemma_in_both(a: Seq<Seq<u8>>, b: Seq<Seq<u8>>, i: int) -> (j: int)
    requires
        a.to_multiset() == b.to_multiset(),
        0 <= i < a.len(),
    ensures
        0 <= j < b.len(),
        b[j] == a[i],
{
    a.to_multiset_ensures();
    b.to_multiset_ensures();
    let k = a[i];
    assert(a.contains(k));
    assert(a.to_multiset().count(k) > 0);
    assert(b.contains(k));
    choose|j: int| 0 <= j < b.len() && b[j] == k
}

/// What the keys of one list mark, those of another with the same keys mark too.
proof fn lemma_marks_within(a: Seq<Seq<u8>>, b: Seq<Seq<u8>>, n: int, g: int)
    requires
        a.to_multiset() == b.to_multiset(),
        0 <= g < 512 * n,
    ensures
        bloom_marks(a, n)[g] ==> bloom_marks(b, n)[g],
{
    if bloom_marks(a, n)[g] {
        let (i, t) = choose|i: int, t: int|
            0 <= i < a.len() && 0 <= t < BLOOM_PROBES && #[trigger] bloom_bit(a[i], t, n) == g;
        let j = lemma_in_both(a, b, i);
        assert(bloom_bit(b[j], t, n) == g);
    }
}

/// The block of a hash among `nblocks`.
fn block_index(h: u64, nblocks: usize) -> (b: usize)
    requires
        is_power_of_two(nblocks as nat),
    ensures
        b == bloom_block(h, nblocks as int),
        b < nblocks,
{
    proof {
        lemma_mask_is_mod(h >> 32, nblocks as u64);
    }
    ((h >> 32) & ((nblocks - 1) as u64)) as usize
}

/// The least power of two that is not below `x`.
fn power_of_two_from(x: usize) -> (p: usize)
    requires
        1 <= x <= usize::MAX / 32,
    ensures
        is_power_of_two(p as nat),
        x <= p < 2 * x,
        p <= usize::MAX / 16,
{
    let mut p: usize = 1;
    proof {
        vstd::arithmetic::power2::lemma2_to64();
        assert(vstd::arithmetic::power2::pow2(0) == 1);
        assert(is_power_of_two(1));
    }
    while p < x
        invariant
            1 <= x <= usize::MAX / 32,
            is_power_of_two(p as nat),
            1 <= p < 2 * x,
        decreases 2 * x - p,
    {
        proof {
            lemma_double(p as nat);
        }
        p = p * 2;
    }
    p
}

/// Sets the bits that the probes of `key` fall on.
fn set_key_bits(out: &mut Vec<u64>, key: &[u8], nblocks: usize, Ghost(marks): Ghost<Seq<bool>>)
    requires
        is_power_of_two(nblocks as nat),
        old(out)@.len() == 8 * nblocks,
        encodes(old(out)@, marks),
    ensures
        final(out)@.len() == 8 * nblocks,
        encodes(final(out)@, with_key(marks, key@, BLOOM_PROBES as int, nblocks as int)),
{
    let ghost n = nblocks as int;
    let h: u64 = key_hash_seeded(key, BLOOM_SEED);
    let b: usize = block_index(h, nblocks);
    let mut x: u64 = h;
    let mut t: usize = 0;
    assert(out@.len() == out.len());
    proof {
        assert(with_key(marks, key@, 0, n) =~= marks);
    }
    while t < BLOOM_PROBES
        invariant
            t <= BLOOM_PROBES,
            n == nblocks,
            h == key_hash_seeded_of(key@, BLOOM_SEED),
            b == bloom_block(h, n),
            b < nblocks,
            marks.len() == 512 * n,
            out@.len() == 8 * n,
            8 * n <= usize::MAX,
            x == probe_after(h, t as nat),
            encodes(out@, with_key(marks, key@, t as int, n)),
        decreases BLOOM_PROBES - t,
    {
        let m: u64 = x.wrapping_mul(GOLDEN);
        x = (m << 17) | (m >> 47);
        let bit: usize = ((x >> 40) % 512) as usize;
        let at: usize = b * 8 + bit / 64;
        let w: u64 = out[at];
        let ghost before = out@;
        let ghost was = with_key(marks, key@, t as int, n);
        let ghost now = with_key(marks, key@, t + 1, n);
        out.set(at, w | (1u64 << ((bit % 64) as u64)));
        proof {
            let g = bloom_bit(key@, t as int, n);
            assert(g == 512 * b + bit);
            lemma_bit_place(b as int, bit as int);
            assert forall|q: int| 0 <= q < now.len() implies word_bit(out@[q / 64], q % 64)
                == #[trigger] now[q] by {
                assert(word_bit(before[q / 64], q % 64) == was[q]);
                if q / 64 == at {
                    lemma_set_bit(w, (bit % 64) as u64, (q % 64) as u64);
                }
                assert(q == g <==> q / 64 == at && q % 64 == bit % 64);
                if exists|u: int| 0 <= u < t + 1 && #[trigger] bloom_bit(key@, u, n) == q {
                    let u = choose|u: int| 0 <= u < t + 1 && #[trigger] bloom_bit(key@, u, n) == q;
                    assert(u == t || (0 <= u < t && bloom_bit(key@, u, n) == q));
                }
                if q == g {
                    assert(bloom_bit(key@, t as int, n) == q);
                }
            }
        }
        t = t + 1;
    }
}

/// All the bits of a key lie in one block of five hundred and twelve, which the upper half
/// of the key's hash picks.
pub proof fn lemma_bits_share_a_block(key: Seq<u8>, t: int, u: int, nblocks: int)
    requires
        nblocks > 0,
    ensures
        0 <= bloom_bit(key, t, nblocks) < 512 * nblocks,
        bloom_bit(key, t, nblocks) / 512 == bloom_bit(key, u, nblocks) / 512,
        bloom_bit(key, t, nblocks) / 512 == (key_hash_seeded_of(key, 0xB100) / 0x1_0000_0000) as int
            % nblocks,
{
    let h = key_hash_seeded_of(key, BLOOM_SEED);
    vstd::bits::lemma_u64_shr_is_div(h, 32);
    vstd::arithmetic::power2::lemma2_to64();
    vstd::arithmetic::div_mod::lemma_mod_bound((h >> 32) as int, nblocks);
}

/// A filter has twelve bits for every key, to the last whole block, and a block at least.
pub proof fn lemma_blocks_wanted(n: nat)
    ensures
        blocks_wanted(n) >= 1,
        12 * n < 512 * (blocks_wanted(n) + 1),
        n * 12 >= 512 ==> 512 * blocks_wanted(n) <= 12 * n,
{
}

/// Probes that start apart stay apart.
pub proof fn lemma_probes_keep_apart(g: u64, h: u64, t: nat)
    ensures
        probe_after(g, t) == probe_after(h, t) ==> g == h,
    decreases t,
{
    if t > 0 {
        let (a, b) = (probe_after(g, (t - 1) as nat), probe_after(h, (t - 1) as nat));
        let (m, n) = (a.wrapping_mul(GOLDEN), b.wrapping_mul(GOLDEN));
        assert((m << 17) | (m >> 47) == (n << 17) | (n >> 47) ==> m == n) by (bit_vector);
        assert(0x9E37_79B9_7F4A_7C15 * 0xf1de_83e1_9937_733d % 0x1_0000_0000_0000_0000 == 1);
        if m == n {
            lemma_factor_tells_apart(a, b, GOLDEN, 0xf1de_83e1_9937_733d);
        }
        lemma_probes_keep_apart(g, h, (t - 1) as nat);
    }
}

} // verus!
