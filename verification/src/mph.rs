//! A minimal perfect hash: distinct keys onto exactly as many slots, with no
//! table of slots and no collisions.
//!
//! Level by level, the keys that land alone in a bit array take the rank of
//! their bit; those that collide go on to the next level, and what is left
//! after the last level gets explicit slots.

use crate::bytes::{bytes_equal, key_seqs, to_owned};
use crate::hash::{key_hash_seeded, key_hash_seeded_of};
use crate::memory::{bytes_of, Memory, Rooms, Scale, Weighed};
use vstd::prelude::*;
use vstd::set_lib::{lemma_len_subset, set_int_range};

verus! {

/// How many levels there are at the most.
pub const MAX_LEVELS: usize = 12;

// ------------------------------------------------------------------ bits --

/// Bit `i` of a word.
pub open spec fn word_bit(w: u64, i: int) -> bool {
    w & (1u64 << (i as u64)) != 0
}

/// How many of the low `n` bits of a word are set.
pub open spec fn ones_below(w: u64, n: nat) -> nat
    decreases n,
{
    if n == 0 {
        0
    } else {
        ones_below(w, (n - 1) as nat) + if word_bit(w, n - 1) {
            1nat
        } else {
            0
        }
    }
}

/// How many of the first `n` marks are set.
pub open spec fn marks_below(marks: Seq<bool>, n: nat) -> nat
    decreases n,
{
    if n == 0 {
        0
    } else {
        marks_below(marks, (n - 1) as nat) + if marks[n - 1] {
            1nat
        } else {
            0
        }
    }
}

/// Counting on counts no less.
proof fn lemma_marks_monotone(marks: Seq<bool>, a: nat, b: nat)
    requires
        a <= b,
    ensures
        marks_below(marks, a) <= marks_below(marks, b) <= marks_below(marks, a) + (b - a),
    decreases b - a,
{
    if a < b {
        lemma_marks_monotone(marks, a, (b - 1) as nat);
    }
}

/// A mark counts for everything behind it.
proof fn lemma_marks_strict(marks: Seq<bool>, a: nat, b: nat)
    requires
        a < b,
        marks[a as int],
    ensures
        marks_below(marks, a) < marks_below(marks, b),
{
    lemma_marks_monotone(marks, a + 1, b);
}

/// The marked positions below `n`.
pub open spec fn marked_set(marks: Seq<bool>, n: nat) -> Set<int> {
    Set::new(|p: int| 0 <= p < n && marks[p])
}

/// Counting marks is counting marked positions.
pub proof fn lemma_marked_set(marks: Seq<bool>, n: nat)
    ensures
        marked_set(marks, n).finite(),
        marked_set(marks, n).len() == marks_below(marks, n),
    decreases n,
{
    if n == 0 {
        assert(marked_set(marks, 0) =~= Set::empty());
    } else {
        lemma_marked_set(marks, (n - 1) as nat);
        let s = marked_set(marks, (n - 1) as nat);
        if marks[n - 1] {
            assert(marked_set(marks, n) =~= s.insert(n - 1));
        } else {
            assert(marked_set(marks, n) =~= s);
        }
    }
}

/// The words hold the marks, sixty-four to a word.
pub open spec fn encodes(bits: Seq<u64>, marks: Seq<bool>) -> bool {
    &&& bits.len() * 64 == marks.len()
    &&& forall|p: int|
        0 <= p < marks.len() ==> word_bit(bits[p / 64], p % 64) == #[trigger] marks[p]
}

/// Within a word, marks are counted by its bits.
proof fn lemma_word(bits: Seq<u64>, marks: Seq<bool>, w: int, k: nat)
    requires
        encodes(bits, marks),
        0 <= w < bits.len(),
        k <= 64,
    ensures
        marks_below(marks, (64 * w + k) as nat) == marks_below(marks, (64 * w) as nat) + ones_below(
            bits[w],
            k,
        ),
    decreases k,
{
    if k > 0 {
        lemma_word(bits, marks, w, (k - 1) as nat);
        let p = 64 * w + k - 1;
        assert(p / 64 == w && p % 64 == k - 1);
        assert(word_bit(bits[p / 64], p % 64) == marks[p]);
    }
}

/// Setting a bit sets that bit and leaves the others.
pub proof fn lemma_set_bit(w: u64, j: u64, i: u64)
    requires
        j < 64,
        i < 64,
    ensures
        word_bit(w | (1u64 << j), i as int) == (i == j || word_bit(w, i as int)),
{
    assert(((w | (1u64 << j)) & (1u64 << i) != 0) == (i == j || (w & (1u64 << i) != 0)))
        by (bit_vector)
        requires
            j < 64,
            i < 64,
    ;
}

/// Words with the same bits are the same in their low bits.
proof fn lemma_low_bits(x: u64, y: u64, s: u64)
    requires
        s < 64,
        forall|i: int| 0 <= i < 64 ==> #[trigger] word_bit(x, i) == word_bit(y, i),
    ensures
        (x << s) == (y << s),
    decreases 64 - s,
{
    let j = (63 - s) as u64;
    assert(word_bit(x, j as int) == word_bit(y, j as int));
    if s == 63 {
        assert((x << 63u64) == (y << 63u64)) by (bit_vector)
            requires
                (x & (1u64 << 0u64) != 0) == (y & (1u64 << 0u64) != 0),
        ;
    } else {
        let next = (s + 1) as u64;
        lemma_low_bits(x, y, next);
        assert((x << s) == (y << s)) by (bit_vector)
            requires
                s < 63,
                next == s + 1,
                j + s == 63,
                (x << next) == (y << next),
                (x & (1u64 << j) != 0) == (y & (1u64 << j) != 0),
        ;
    }
}

/// Words that hold the same marks are the same.
pub proof fn lemma_encoded_once(a: Seq<u64>, b: Seq<u64>, marks: Seq<bool>)
    requires
        encodes(a, marks),
        encodes(b, marks),
    ensures
        a == b,
{
    assert forall|w: int| 0 <= w < a.len() implies a[w] == b[w] by {
        let (x, y) = (a[w], b[w]);
        assert forall|i: int| 0 <= i < 64 implies #[trigger] word_bit(x, i) == word_bit(y, i) by {
            let p = 64 * w + i;
            assert(p / 64 == w && p % 64 == i);
            assert(word_bit(a[p / 64], p % 64) == marks[p]);
            assert(word_bit(b[p / 64], p % 64) == marks[p]);
        }
        lemma_low_bits(x, y, 0);
        assert(x == y) by (bit_vector)
            requires
                (x << 0u64) == (y << 0u64),
        ;
    }
    assert(a =~= b);
}

/// A set that is covered by the images of another is no larger.
pub proof fn lemma_cover(m: Set<int>, d: Set<int>, f: spec_fn(int) -> int)
    requires
        m.finite(),
        d.finite(),
        forall|p: int| m.contains(p) ==> exists|r: int| #[trigger] d.contains(r) && f(r) == p,
    ensures
        m.len() <= d.len(),
    decreases d.len(),
{
    if m.len() > 0 {
        let p = m.choose();
        let r = choose|r: int| #[trigger] d.contains(r) && f(r) == p;
        let m2 = m.remove(p);
        let d2 = d.remove(r);
        assert forall|q: int| m2.contains(q) implies exists|t: int| #[trigger]
            d2.contains(t) && f(t) == q by {
            assert(m.contains(q));
            let t = choose|t: int| #[trigger] d.contains(t) && f(t) == q;
            assert(d2.contains(t));
        }
        lemma_cover(m2, d2, f);
    }
}

/// How many of the low `n` bits of `w` are set.
pub fn count_low(w: u64, n: u64) -> (r: u32)
    requires
        n <= 64,
    ensures
        r == ones_below(w, n as nat),
        r <= n,
{
    let mut r: u32 = 0;
    let mut i: u64 = 0;
    while i < n
        invariant
            i <= n <= 64,
            r == ones_below(w, i as nat),
            r <= i,
        decreases n - i,
    {
        if w & (1u64 << i) != 0 {
            r = r + 1;
        }
        i = i + 1;
    }
    r
}

/// One level of the hash: a bit array with the count of bits before each block
/// of five hundred and twelve.
pub struct MphLevel {
    pub bits: Vec<u64>,
    /// Set bits before each block.
    pub block_rank: Vec<u32>,
    pub nbits: usize,
    /// Keys placed by all earlier levels.
    pub base: u32,
    /// The bit array as marks.
    pub marks: Ghost<Seq<bool>>,
}

impl MphLevel {
    /// The words hold the marks, and the block counts are right.
    pub open spec fn wf(self) -> bool {
        &&& self.nbits > 0
        &&& self.nbits % 512 == 0
        &&& self.marks@.len() == self.nbits
        &&& encodes(self.bits@, self.marks@)
        &&& self.block_rank@.len() == self.nbits / 512 + 1
        &&& forall|b: int|
            0 <= b < self.block_rank@.len() ==> #[trigger] self.block_rank@[b] == marks_below(
                self.marks@,
                (512 * b) as nat,
            )
        &&& self.base + marks_below(self.marks@, self.nbits as nat) <= u32::MAX
    }

    /// The position of a key in this level's bit array.
    pub open spec fn pos(self, key: Seq<u8>, level: int) -> int {
        level_pos(key, level, self.nbits as int)
    }

    /// Whether the bit at `p` is set.
    pub fn is_set(&self, p: usize) -> (r: bool)
        requires
            self.wf(),
            p < self.nbits,
        ensures
            r == self.marks@[p as int],
    {
        self.bits[p / 64] & (1u64 << ((p % 64) as u64)) != 0
    }

    /// How many bits before `p` are set.
    pub fn rank(&self, p: usize) -> (r: u32)
        requires
            self.wf(),
            p < self.nbits,
        ensures
            r == marks_below(self.marks@, p as nat),
    {
        let block: usize = p / 512;
        let mut r: u32 = self.block_rank[block];
        let mut w: usize = block * 8;
        while w < p / 64
            invariant
                self.wf(),
                p < self.nbits,
                w <= p / 64,
                r == marks_below(self.marks@, (64 * w) as nat),
            decreases p / 64 - w,
        {
            proof {
                lemma_word(self.bits@, self.marks@, w as int, 64);
                lemma_marks_monotone(self.marks@, (64 * (w + 1)) as nat, self.nbits as nat);
            }
            r = r + count_low(self.bits[w], 64);
            w = w + 1;
        }
        proof {
            lemma_word(self.bits@, self.marks@, w as int, (p % 64) as nat);
            lemma_marks_monotone(self.marks@, p as nat, self.nbits as nat);
        }
        r + count_low(self.bits[p / 64], (p % 64) as u64)
    }
}

/// The position of a key in the bit array of a level.
pub open spec fn level_pos(key: Seq<u8>, level: int, nbits: int) -> int {
    (key_hash_seeded_of(key, level as u64) as int) % nbits
}

/// The slot that the levels from `l` on give a key, if one of them has its bit
/// set.
pub open spec fn level_slot(levels: Seq<MphLevel>, l: int, key: Seq<u8>) -> Option<int>
    decreases levels.len() - l,
{
    if l < 0 || l >= levels.len() {
        None
    } else {
        let p = levels[l].pos(key, l);
        if levels[l].marks@[p] {
            Some(levels[l].base + marks_below(levels[l].marks@, p as nat))
        } else {
            level_slot(levels, l + 1, key)
        }
    }
}

/// What an explicit slot list gives a key.
pub open spec fn listed_slot(list: Seq<(Vec<u8>, u32)>, key: Seq<u8>) -> Option<int>
    decreases list.len(),
{
    if list.len() == 0 {
        None
    } else if list.last().0@ == key {
        Some(list.last().1 as int)
    } else {
        listed_slot(list.drop_last(), key)
    }
}

/// A further level only matters to keys that found no slot before.
proof fn lemma_level_slot_push(levels: Seq<MphLevel>, lv: MphLevel, l: int, key: Seq<u8>)
    requires
        0 <= l <= levels.len(),
    ensures
        level_slot(levels.push(lv), l, key) == if level_slot(levels, l, key) is Some {
            level_slot(levels, l, key)
        } else {
            let p = lv.pos(key, levels.len() as int);
            if lv.marks@[p] {
                Some(lv.base + marks_below(lv.marks@, p as nat))
            } else {
                None
            }
        },
    decreases levels.len() - l,
{
    let all = levels.push(lv);
    if l == levels.len() {
        assert(all[l] == lv);
        assert(level_slot(all, l + 1, key) is None);
        assert(level_slot(levels, l, key) is None);
    } else {
        assert(all[l] == levels[l]);
        lemma_level_slot_push(levels, lv, l + 1, key);
    }
}

/// A minimal perfect hash over a set of keys.
pub struct Mphf {
    pub levels: Vec<MphLevel>,
    /// Keys that never landed alone, with their slots.
    pub fallback: Vec<(Vec<u8>, u32)>,
    pub n: usize,
}

impl Mphf {
    /// Every level is whole, and there are no more of them than allowed.
    pub open spec fn wf(self) -> bool {
        &&& self.levels@.len() <= MAX_LEVELS
        &&& forall|l: int| 0 <= l < self.levels@.len() ==> (#[trigger] self.levels@[l]).wf()
    }

    /// The slot of a key. A key that was not in the set may get one too.
    pub open spec fn slot_of(self, key: Seq<u8>) -> Option<int> {
        if level_slot(self.levels@, 0, key) is Some {
            level_slot(self.levels@, 0, key)
        } else {
            listed_slot(self.fallback@, key)
        }
    }

    /// Each of the keys has a slot below their number, and different keys have
    /// different slots.
    pub open spec fn perfect(self, keys: Seq<Seq<u8>>) -> bool {
        &&& self.n == keys.len()
        &&& forall|i: int|
            0 <= i < keys.len() ==> {
                &&& self.slot_of(#[trigger] keys[i]) is Some
                &&& 0 <= self.slot_of(keys[i])->0 < keys.len()
            }
        &&& forall|i: int, j: int|
            0 <= i < keys.len() && 0 <= j < keys.len() && self.slot_of(#[trigger] keys[i])
                == self.slot_of(#[trigger] keys[j]) ==> keys[i] == keys[j]
    }

    /// The first `l` levels.
    pub open spec fn levels_memory(self, l: nat) -> Memory
        decreases l,
    {
        if l == 0 {
            Memory::nothing()
        } else {
            self.levels_memory((l - 1) as nat).with(self.levels@[l - 1].bits@.len(), 8).with(
                self.levels@[l - 1].block_rank@.len(),
                4,
            )
        }
    }

    /// The bytes that the hash occupies, at forty bytes a listed key.
    pub fn bytes(&self) -> (n: usize)
        ensures
            self.memory().sized(),
            self.memory().takes(n as int),
    {
        bytes_of(self)
    }

    /// The slot of `key`: from the first level whose bit for it is set, else
    /// from the explicit list.
    pub fn slot(&self, key: &[u8]) -> (r: Option<u32>)
        requires
            self.wf(),
        ensures
            r is Some <==> self.slot_of(key@) is Some,
            r matches Some(s) ==> self.slot_of(key@) == Some(s as int),
    {
        let mut level: usize = 0;
        while level < self.levels.len()
            invariant
                self.wf(),
                level <= self.levels@.len(),
                level_slot(self.levels@, 0, key@) == level_slot(self.levels@, level as int, key@),
            decreases self.levels.len() - level,
        {
            let l: &MphLevel = &self.levels[level];
            assert(l.wf());
            let p: usize = (key_hash_seeded(key, level as u64) % (l.nbits as u64)) as usize;
            if l.is_set(p) {
                proof {
                    lemma_marks_monotone(l.marks@, p as nat, l.nbits as nat);
                }
                return Some(l.base + l.rank(p));
            }
            level = level + 1;
        }
        find_listed(&self.fallback, key)
    }
}

impl Weighed for Mphf {
    /// The levels and the explicit list, at forty bytes a listed key.
    open spec fn memory(&self) -> Memory {
        self.levels_memory(self.levels@.len()).with_fixed((self.fallback@.len() * 40) as int)
    }

    fn list_rooms(&self, r: &mut Rooms) {
        let ghost before = r.parts@;
        let mut l: usize = 0;
        proof {
            assert(before + self.levels_memory(0).parts =~= before);
        }
        while l < self.levels.len()
            invariant
                l <= self.levels@.len(),
                r.wf(),
                r.parts@ == before + self.levels_memory(l as nat).parts,
            decreases self.levels.len() - l,
        {
            r.vector(&self.levels[l].bits, 8);
            r.vector(&self.levels[l].block_rank, 4);
            l = l + 1;
            proof {
                assert(r.parts@ =~= before + self.levels_memory(l as nat).parts);
            }
        }
    }

    fn weigh_on(&self, s: &mut Scale<'_>) {
        let ghost before = s.made@;
        let mut l: usize = 0;
        proof {
            lemma_levels_parts(*self, self.levels@.len());
            assert(before.and(self.levels_memory(0)) =~= before);
        }
        while l < self.levels.len()
            invariant
                l <= self.levels@.len(),
                s.wf(),
                s.rooms == old(s).rooms,
                before.parts.len() + 2 * self.levels@.len() <= s.rooms@.len(),
                s.made@ == before.and(self.levels_memory(l as nat)),
            decreases self.levels.len() - l,
        {
            proof {
                lemma_levels_parts(*self, l as nat);
            }
            s.vector(Ghost(self.levels@[l as int].bits@.len()), 8);
            s.vector(Ghost(self.levels@[l as int].block_rank@.len()), 4);
            l = l + 1;
            proof {
                assert(s.made@ =~= before.and(self.levels_memory(l as nat)));
            }
        }
        s.fixed(self.fallback.len(), 40);
        proof {
            assert(s.made@ =~= before.and(self.memory()));
        }
    }
}

/// A level is two vectors.
proof fn lemma_levels_parts(h: Mphf, l: nat)
    ensures
        h.levels_memory(l).parts.len() == 2 * l,
    decreases l,
{
    if l > 0 {
        lemma_levels_parts(h, (l - 1) as nat);
    }
}

/// The slot that the explicit list gives `key`.
fn find_listed(list: &Vec<(Vec<u8>, u32)>, key: &[u8]) -> (r: Option<u32>)
    ensures
        r is Some <==> listed_slot(list@, key@) is Some,
        r matches Some(s) ==> listed_slot(list@, key@) == Some(s as int),
{
    let mut i: usize = list.len();
    proof {
        assert(list@.take(i as int) =~= list@);
    }
    while i > 0
        invariant
            i <= list@.len(),
            listed_slot(list@, key@) == listed_slot(list@.take(i as int), key@),
        decreases i,
    {
        proof {
            assert(list@.take(i as int).drop_last() =~= list@.take(i - 1));
            assert(list@.take(i as int).last() == list@[i - 1]);
        }
        if bytes_equal(&list[i - 1].0, key) {
            return Some(list[i - 1].1);
        }
        i = i - 1;
    }
    None
}

// ----------------------------------------------------------------- build --

/// How many bits a level for `n` keys has: twice as many, at least sixty-four,
/// rounded up to whole blocks.
pub open spec fn level_size(n: nat) -> nat {
    let want = if 2 * n >= 64 {
        2 * n
    } else {
        64
    };
    (want + 511) / 512 * 512
}

/// How many of the first `n` remaining keys land on position `p`.
pub open spec fn hits(
    keys: Seq<Seq<u8>>,
    remaining: Seq<u32>,
    n: nat,
    level: int,
    nbits: int,
    p: int,
) -> nat
    decreases n,
{
    if n == 0 {
        0
    } else {
        hits(keys, remaining, (n - 1) as nat, level, nbits, p) + if level_pos(
            keys[remaining[n - 1] as int],
            level,
            nbits,
        ) == p {
            1nat
        } else {
            0
        }
    }
}

/// Those of the first `n` remaining keys that do not land on a mark.
pub open spec fn collided(
    keys: Seq<Seq<u8>>,
    remaining: Seq<u32>,
    n: nat,
    level: int,
    marks: Seq<bool>,
) -> Seq<u32>
    decreases n,
{
    if n == 0 {
        Seq::empty()
    } else {
        let v = remaining[n - 1];
        let before = collided(keys, remaining, (n - 1) as nat, level, marks);
        if marks[level_pos(keys[v as int], level, marks.len() as int)] {
            before
        } else {
            before.push(v)
        }
    }
}

/// Which of the first `m` keys have no slot before level `l`, in their order.
pub open spec fn remaining_at(
    keys: Seq<Seq<u8>>,
    m: nat,
    levels: Seq<MphLevel>,
    l: nat,
) -> Seq<u32>
    decreases l,
{
    if l == 0 {
        Seq::new(m, |i: int| i as u32)
    } else {
        let r = remaining_at(keys, m, levels, (l - 1) as nat);
        collided(keys, r, r.len(), l - 1, levels[l - 1].marks@)
    }
}

/// How many marks the first `l` levels have.
pub open spec fn marks_before(levels: Seq<MphLevel>, l: nat) -> nat
    decreases l,
{
    if l == 0 {
        0
    } else {
        marks_before(levels, (l - 1) as nat) + marks_below(
            levels[l - 1].marks@,
            levels[l - 1].nbits as nat,
        )
    }
}

/// Level `l` is the one for the first `m` keys: it has the bits that those
/// without a slot want, a mark where just one of them lands, and slots behind
/// those of the levels before.
pub open spec fn level_made(
    keys: Seq<Seq<u8>>,
    m: nat,
    levels: Seq<MphLevel>,
    l: int,
) -> bool {
    let left = remaining_at(keys, m, levels, l as nat);
    &&& left.len() > 0
    &&& levels[l].nbits == level_size(left.len())
    &&& levels[l].base == marks_before(levels, l as nat)
    &&& forall|p: int|
        0 <= p < levels[l].nbits ==> (#[trigger] levels[l].marks@[p] <==> hits(
            keys,
            left,
            left.len(),
            l,
            levels[l].nbits as int,
            p,
        ) == 1)
}

/// The slot that a key gets of the first `n` keys left: `base` and its place
/// among them, the last one where it is there more than once.
pub open spec fn left_slot(
    keys: Seq<Seq<u8>>,
    left: Seq<u32>,
    n: nat,
    base: int,
    key: Seq<u8>,
) -> Option<int>
    decreases n,
{
    if n == 0 {
        None
    } else if keys[left[n - 1] as int] == key {
        Some(base + n - 1)
    } else {
        left_slot(keys, left, (n - 1) as nat, base, key)
    }
}

/// Whether a key is one of those left.
pub open spec fn is_left(keys: Seq<Seq<u8>>, left: Seq<u32>, key: Seq<u8>) -> bool {
    exists|j: int| 0 <= j < left.len() && #[trigger] keys[left[j] as int] == key
}

/// No key is listed twice.
pub open spec fn listed_once(list: Seq<(Vec<u8>, u32)>) -> bool {
    forall|a: int, b: int|
        0 <= a < b < list.len() ==> (#[trigger] list[a]).0@ != (#[trigger] list[b]).0@
}

impl Mphf {
    /// The hash is the one over the first `m` keys: level by level the keys
    /// that land alone are marked, there is no level more than it takes, and
    /// just the keys that no level placed are listed, behind all marks.
    pub open spec fn made_of(self, keys: Seq<Seq<u8>>, m: nat) -> bool {
        let levels = self.levels@;
        let left = remaining_at(keys, m, levels, levels.len());
        let base = marks_before(levels, levels.len());
        &&& self.wf()
        &&& forall|l: int| 0 <= l < levels.len() ==> #[trigger] level_made(keys, m, levels, l)
        &&& levels.len() < MAX_LEVELS ==> left.len() == 0
        &&& base + left.len() == m
        &&& listed_once(self.fallback@)
        &&& self.fallback@.len() <= left.len()
        &&& forall|k: Seq<u8>| #[trigger]
            listed_slot(self.fallback@, k) == left_slot(keys, left, left.len(), base as int, k)
    }
}

/// A position that is hit has a key that hits it.
proof fn lemma_hits_witness(
    keys: Seq<Seq<u8>>,
    remaining: Seq<u32>,
    n: nat,
    level: int,
    nbits: int,
    p: int,
) -> (r: int)
    requires
        hits(keys, remaining, n, level, nbits, p) > 0,
    ensures
        0 <= r < n,
        level_pos(keys[remaining[r] as int], level, nbits) == p,
    decreases n,
{
    if level_pos(keys[remaining[n - 1] as int], level, nbits) == p {
        n - 1
    } else {
        lemma_hits_witness(keys, remaining, (n - 1) as nat, level, nbits, p)
    }
}

/// A key hits its own position, and two keys hit a shared one twice.
proof fn lemma_hits_own(
    keys: Seq<Seq<u8>>,
    remaining: Seq<u32>,
    n: nat,
    level: int,
    nbits: int,
    r: int,
    t: int,
)
    requires
        0 <= r < n,
        0 <= t < n,
    ensures
        ({
            let p = level_pos(keys[remaining[r] as int], level, nbits);
            let q = level_pos(keys[remaining[t] as int], level, nbits);
            &&& hits(keys, remaining, n, level, nbits, p) >= 1
            &&& r != t && p == q ==> hits(keys, remaining, n, level, nbits, p) >= 2
        }),
    decreases n,
{
    if r < n - 1 && t < n - 1 {
        lemma_hits_own(keys, remaining, (n - 1) as nat, level, nbits, r, t);
    } else if r < n - 1 {
        lemma_hits_own(keys, remaining, (n - 1) as nat, level, nbits, r, r);
    } else if t < n - 1 {
        lemma_hits_own(keys, remaining, (n - 1) as nat, level, nbits, t, t);
    }
}

/// Which remaining keys land on a marked position.
spec fn alone_flags(
    keys: Seq<Seq<u8>>,
    remaining: Seq<u32>,
    level: int,
    nbits: int,
    marks: Seq<bool>,
) -> Seq<bool> {
    Seq::new(
        remaining.len(),
        |r: int| marks[level_pos(keys[remaining[r] as int], level, nbits)],
    )
}

/// There are as many marked positions as keys that land on one.
proof fn lemma_marked_are_alone(
    keys: Seq<Seq<u8>>,
    remaining: Seq<u32>,
    level: int,
    nbits: int,
    marks: Seq<bool>,
)
    requires
        marks.len() == nbits,
        nbits > 0,
        forall|p: int|
            0 <= p < nbits ==> (#[trigger] marks[p] <==> hits(
                keys,
                remaining,
                remaining.len(),
                level,
                nbits,
                p,
            ) == 1),
    ensures
        marks_below(marks, nbits as nat) == marks_below(
            alone_flags(keys, remaining, level, nbits, marks),
            remaining.len(),
        ),
        marks_below(
            alone_flags(keys, remaining, level, nbits, marks),
            remaining.len(),
        ) <= remaining.len(),
{
    let flags = alone_flags(keys, remaining, level, nbits, marks);
    let m = marked_set(marks, nbits as nat);
    let d = marked_set(flags, remaining.len());
    lemma_marked_set(marks, nbits as nat);
    lemma_marked_set(flags, remaining.len());
    let f = |r: int| level_pos(keys[remaining[r] as int], level, nbits);
    assert forall|p: int| m.contains(p) implies exists|r: int| #[trigger]
        d.contains(r) && f(r) == p by {
        let r = lemma_hits_witness(keys, remaining, remaining.len(), level, nbits, p);
        assert(flags[r]);
        assert(d.contains(r) && f(r) == p);
    }
    lemma_cover(m, d, f);
    let g = |p: int| choose|r: int| 0 <= r < remaining.len() && #[trigger] f(r) == p;
    assert forall|r: int| d.contains(r) implies exists|p: int| #[trigger]
        m.contains(p) && g(p) == r by {
        let p = f(r);
        assert(0 <= p < nbits);
        assert(m.contains(p));
        let t = g(p);
        assert(0 <= t < remaining.len() && f(t) == p);
        lemma_hits_own(keys, remaining, remaining.len(), level, nbits, r, t);
    }
    lemma_cover(d, m, g);
    lemma_marks_monotone(flags, 0, remaining.len());
}

/// The position of key `i` at a level.
fn key_pos(keys: &[Vec<u8>], i: u32, level: usize, nbits: usize) -> (p: usize)
    requires
        i < keys@.len(),
        nbits > 0,
    ensures
        p == level_pos(key_seqs(keys@)[i as int], level as int, nbits as int),
        p < nbits,
{
    (key_hash_seeded(&keys[i as usize], level as u64) % (nbits as u64)) as usize
}

/// For each position whether none, one or more of the remaining keys land on
/// it, as 0, 1 or 2.
fn occupancy(keys: &[Vec<u8>], remaining: &Vec<u32>, level: usize, nbits: usize) -> (occ: Vec<u8>)
    requires
        nbits > 0,
        forall|r: int| 0 <= r < remaining@.len() ==> #[trigger] remaining@[r] < keys@.len(),
    ensures
        occ@.len() == nbits,
        forall|p: int|
            0 <= p < nbits ==> {
                let h = hits(
                    key_seqs(keys@),
                    remaining@,
                    remaining@.len(),
                    level as int,
                    nbits as int,
                    p,
                );
                #[trigger] occ@[p] == if h < 2 {
                    h as int
                } else {
                    2
                }
            },
{
    let ghost ks = key_seqs(keys@);
    let mut occ: Vec<u8> = vec![0u8; nbits];
    let mut i: usize = 0;
    while i < remaining.len()
        invariant
            i <= remaining@.len(),
            nbits > 0,
            ks == key_seqs(keys@),
            forall|r: int| 0 <= r < remaining@.len() ==> #[trigger] remaining@[r] < keys@.len(),
            occ@.len() == nbits,
            forall|p: int|
                0 <= p < nbits ==> {
                    let h = hits(ks, remaining@, i as nat, level as int, nbits as int, p);
                    #[trigger] occ@[p] == if h < 2 {
                        h as int
                    } else {
                        2
                    }
                },
        decreases remaining.len() - i,
    {
        let p: usize = key_pos(keys, remaining[i], level, nbits);
        if occ[p] < 2 {
            let o: u8 = occ[p];
            occ.set(p, o + 1);
        }
        i = i + 1;
    }
    occ
}

/// The words whose bits are set where `occ` is one.
fn pack_bits(occ: &Vec<u8>) -> (bits: Vec<u64>)
    requires
        occ@.len() % 64 == 0,
    ensures
        encodes(bits@, Seq::new(occ@.len(), |p: int| occ@[p] == 1)),
{
    let words: usize = occ.len() / 64;
    let mut bits: Vec<u64> = vec![0u64; words];
    let mut p: usize = 0;
    proof {
        assert forall|q: int| 0 <= q < occ@.len() implies !word_bit(
            #[trigger] bits@[q / 64],
            q % 64,
        ) by {
            let sh = (q % 64) as u64;
            assert(0u64 & (1u64 << sh) == 0) by (bit_vector);
        }
    }
    while p < occ.len()
        invariant
            p <= occ@.len(),
            bits@.len() * 64 == occ@.len(),
            forall|q: int|
                0 <= q < occ@.len() ==> #[trigger] word_bit(bits@[q / 64], q % 64) == (q < p
                    && occ@[q] == 1),
        decreases occ.len() - p,
    {
        if occ[p] == 1 {
            let w: u64 = bits[p / 64];
            let ghost before = bits@;
            bits.set(p / 64, w | (1u64 << ((p % 64) as u64)));
            proof {
                assert forall|q: int| 0 <= q < occ@.len() implies #[trigger] word_bit(
                    bits@[q / 64],
                    q % 64,
                ) == (q < p + 1 && occ@[q] == 1) by {
                    assert(word_bit(before[q / 64], q % 64) == (q < p && occ@[q] == 1));
                    if q / 64 == p / 64 {
                        lemma_set_bit(w, (p % 64) as u64, (q % 64) as u64);
                    }
                }
            }
        }
        p = p + 1;
    }
    bits
}

/// How many marks come before each block of five hundred and twelve, and how
/// many there are in all.
fn block_counts(bits: &Vec<u64>, Ghost(marks): Ghost<Seq<bool>>) -> (r: (Vec<u32>, u32))
    requires
        encodes(bits@, marks),
        marks.len() % 512 == 0,
        marks_below(marks, marks.len()) <= u32::MAX,
    ensures
        r.0@.len() == marks.len() / 512 + 1,
        forall|b: int|
            0 <= b < r.0@.len() ==> #[trigger] r.0@[b] == marks_below(marks, (512 * b) as nat),
        r.1 == marks_below(marks, marks.len()),
{
    let total: usize = bits.len();
    let blocks: usize = total / 8;
    let mut block_rank: Vec<u32> = Vec::with_capacity(blocks + 1);
    let mut running: u32 = 0;
    let mut b: usize = 0;
    while b < blocks
        invariant
            b <= blocks,
            blocks == marks.len() / 512,
            blocks * 8 == total,
            total == bits@.len(),
            encodes(bits@, marks),
            marks.len() % 512 == 0,
            marks_below(marks, marks.len()) <= u32::MAX,
            running == marks_below(marks, (512 * b) as nat),
            block_rank@.len() == b,
            forall|c: int|
                0 <= c < b ==> #[trigger] block_rank@[c] == marks_below(marks, (512 * c) as nat),
        decreases blocks - b,
    {
        block_rank.push(running);
        let mut w: usize = b * 8;
        while w < b * 8 + 8
            invariant
                b < blocks,
                blocks * 8 == total,
                total == bits@.len(),
                b * 8 <= w <= b * 8 + 8,
                encodes(bits@, marks),
                marks_below(marks, marks.len()) <= u32::MAX,
                running == marks_below(marks, (64 * w) as nat),
            decreases b * 8 + 8 - w,
        {
            proof {
                lemma_word(bits@, marks, w as int, 64);
                lemma_marks_monotone(marks, (64 * (w + 1)) as nat, marks.len());
            }
            running = running + count_low(bits[w], 64);
            w = w + 1;
        }
        b = b + 1;
    }
    block_rank.push(running);
    proof {
        assert(512 * blocks == marks.len());
    }
    (block_rank, running)
}

/// The remaining keys that do not land alone.
fn unplaced(
    keys: &[Vec<u8>],
    remaining: &Vec<u32>,
    level: usize,
    nbits: usize,
    occ: &Vec<u8>,
    Ghost(marks): Ghost<Seq<bool>>,
) -> (next: Vec<u32>)
    requires
        nbits > 0,
        occ@.len() == nbits,
        marks == Seq::new(occ@.len(), |p: int| occ@[p] == 1),
        remaining@.no_duplicates(),
        forall|r: int| 0 <= r < remaining@.len() ==> #[trigger] remaining@[r] < keys@.len(),
    ensures
        next@ == collided(key_seqs(keys@), remaining@, remaining@.len(), level as int, marks),
        next@.no_duplicates(),
        next@.len() + marks_below(
            alone_flags(key_seqs(keys@), remaining@, level as int, nbits as int, marks),
            remaining@.len(),
        ) == remaining@.len(),
        forall|v: u32|
            next@.contains(v) <==> remaining@.contains(v) && !marks[level_pos(
                key_seqs(keys@)[v as int],
                level as int,
                nbits as int,
            )],
{
    let ghost ks = key_seqs(keys@);
    let ghost flags = alone_flags(ks, remaining@, level as int, nbits as int, marks);
    proof {
        assert(remaining@.take(0) =~= Seq::<u32>::empty());
    }
    let mut next: Vec<u32> = Vec::new();
    let mut i: usize = 0;
    while i < remaining.len()
        invariant
            i <= remaining@.len(),
            nbits > 0,
            ks == key_seqs(keys@),
            occ@.len() == nbits,
            marks == Seq::new(occ@.len(), |p: int| occ@[p] == 1),
            flags == alone_flags(ks, remaining@, level as int, nbits as int, marks),
            remaining@.no_duplicates(),
            forall|r: int| 0 <= r < remaining@.len() ==> #[trigger] remaining@[r] < keys@.len(),
            next@.len() + marks_below(flags, i as nat) == i,
            next@ == collided(ks, remaining@, i as nat, level as int, marks),
            next@.no_duplicates(),
            forall|v: u32|
                next@.contains(v) <==> remaining@.take(i as int).contains(v) && !marks[level_pos(
                    ks[v as int],
                    level as int,
                    nbits as int,
                )],
        decreases remaining.len() - i,
    {
        let v: u32 = remaining[i];
        let p: usize = key_pos(keys, v, level, nbits);
        let ghost was = next@;
        let ghost seen = remaining@.take(i as int);
        proof {
            assert(remaining@.take(i + 1) =~= seen.push(v));
            assert(!seen.contains(v)) by {
                if seen.contains(v) {
                    let t = choose|t: int| 0 <= t < seen.len() && seen[t] == v;
                    assert(remaining@[t] == remaining@[i as int]);
                }
            }
            assert(flags[i as int] == marks[p as int]);
        }
        if occ[p] != 1 {
            next.push(v);
        }
        proof {
            assert forall|u: u32|
                next@.contains(u) <==> remaining@.take(i + 1).contains(u) && !marks[level_pos(
                    ks[u as int],
                    level as int,
                    nbits as int,
                )] by {
                lemma_push_contains(seen, v, u);
                lemma_push_contains(was, v, u);
            }
            if occ@[p as int] != 1 {
                assert(!was.contains(v));
                assert forall|a: int, b: int|
                    0 <= a < next@.len() && 0 <= b < next@.len() && a != b implies next@[a]
                    != next@[b] by {
                    if a == was.len() {
                        assert(was.contains(was[b]));
                    } else if b == was.len() {
                        assert(was.contains(was[a]));
                    }
                }
            }
        }
        i = i + 1;
    }
    proof {
        assert(remaining@.take(i as int) =~= remaining@);
    }
    next
}

/// Places the remaining keys that land alone, and says which do not.
fn place_level(keys: &[Vec<u8>], remaining: &Vec<u32>, level: usize, base: u32) -> (r: (
    MphLevel,
    Vec<u32>,
))
    requires
        remaining@.len() <= usize::MAX / 4,
        remaining@.no_duplicates(),
        forall|r: int| 0 <= r < remaining@.len() ==> #[trigger] remaining@[r] < keys@.len(),
        base + remaining@.len() <= u32::MAX,
    ensures
        r.0.wf(),
        r.0.base == base,
        r.0.nbits == level_size(remaining@.len()),
        forall|p: int|
            0 <= p < r.0.nbits ==> (#[trigger] r.0.marks@[p] <==> hits(
                key_seqs(keys@),
                remaining@,
                remaining@.len(),
                level as int,
                r.0.nbits as int,
                p,
            ) == 1),
        r.1@.no_duplicates(),
        forall|i: u32|
            r.1@.contains(i) <==> remaining@.contains(i) && !r.0.marks@[level_pos(
                key_seqs(keys@)[i as int],
                level as int,
                r.0.nbits as int,
            )],
        marks_below(r.0.marks@, r.0.nbits as nat) + r.1@.len() == remaining@.len(),
        r.1@ == collided(
            key_seqs(keys@),
            remaining@,
            remaining@.len(),
            level as int,
            r.0.marks@,
        ),
{
    let ghost ks = key_seqs(keys@);
    let want: usize = if 2 * remaining.len() >= 64 {
        2 * remaining.len()
    } else {
        64
    };
    let nbits: usize = (want + 511) / 512 * 512;
    let occ: Vec<u8> = occupancy(keys, remaining, level, nbits);
    let bits: Vec<u64> = pack_bits(&occ);
    let ghost marks = Seq::new(occ@.len(), |p: int| occ@[p] == 1);
    proof {
        lemma_marked_are_alone(ks, remaining@, level as int, nbits as int, marks);
    }
    let (block_rank, _) = block_counts(&bits, Ghost(marks));
    let next: Vec<u32> = unplaced(keys, remaining, level, nbits, &occ, Ghost(marks));
    (MphLevel { bits, block_rank, nbits, base, marks: Ghost(marks) }, next)
}

/// A pushed sequence holds what was there and what was pushed.
proof fn lemma_push_contains(s: Seq<u32>, v: u32, u: u32)
    ensures
        s.push(v).contains(u) <==> s.contains(u) || u == v,
{
    if s.contains(u) {
        let t = choose|t: int| 0 <= t < s.len() && s[t] == u;
        assert(s.push(v)[t] == u);
    }
    if u == v {
        assert(s.push(v)[s.len() as int] == u);
    }
    if s.push(v).contains(u) && u != v {
        let t = choose|t: int| 0 <= t < s.push(v).len() && s.push(v)[t] == u;
        assert(s[t] == u);
    }
}

/// What holds between levels: the first `m` keys are either placed below
/// `base`, each on its own slot, or remain and have no slot yet.
spec fn placing(
    ks: Seq<Seq<u8>>,
    m: int,
    levels: Seq<MphLevel>,
    remaining: Seq<u32>,
    base: int,
) -> bool {
    &&& remaining.no_duplicates()
    &&& forall|r: int| 0 <= r < remaining.len() ==> #[trigger] remaining[r] < m
    &&& base + remaining.len() == m
    &&& base == marks_before(levels, levels.len())
    &&& remaining == remaining_at(ks, m as nat, levels, levels.len())
    &&& forall|l: int| 0 <= l < levels.len() ==> (#[trigger] levels[l]).wf()
    &&& forall|l: int| 0 <= l < levels.len() ==> #[trigger] level_made(ks, m as nat, levels, l)
    &&& forall|i: u32| #[trigger]
        remaining.contains(i) ==> level_slot(levels, 0, ks[i as int]) is None
    &&& forall|i: u32|
        i < m && !#[trigger] remaining.contains(i) ==> {
            &&& level_slot(levels, 0, ks[i as int]) is Some
            &&& 0 <= level_slot(levels, 0, ks[i as int])->0 < base
        }
    &&& forall|i: u32, j: u32|
        i < m && j < m && i != j && !#[trigger] remaining.contains(i)
            && !#[trigger] remaining.contains(j) ==> level_slot(levels, 0, ks[i as int])
            != level_slot(levels, 0, ks[j as int])
}

/// What the first levels leave depends on those levels alone.
proof fn lemma_earlier_levels(
    ks: Seq<Seq<u8>>,
    m: nat,
    a: Seq<MphLevel>,
    b: Seq<MphLevel>,
    l: nat,
)
    requires
        l <= a.len(),
        l <= b.len(),
        forall|i: int| 0 <= i < l ==> a[i] == b[i],
    ensures
        remaining_at(ks, m, a, l) == remaining_at(ks, m, b, l),
        marks_before(a, l) == marks_before(b, l),
    decreases l,
{
    if l > 0 {
        lemma_earlier_levels(ks, m, a, b, (l - 1) as nat);
    }
}

/// A further level keeps what holds between levels.
proof fn lemma_placing_step(
    ks: Seq<Seq<u8>>,
    m: int,
    levels: Seq<MphLevel>,
    remaining: Seq<u32>,
    base: int,
    lv: MphLevel,
    next: Seq<u32>,
)
    requires
        placing(ks, m, levels, remaining, base),
        m <= ks.len(),
        remaining.len() > 0,
        lv.wf(),
        lv.base == base,
        lv.nbits == level_size(remaining.len()),
        next == collided(ks, remaining, remaining.len(), levels.len() as int, lv.marks@),
        forall|p: int|
            0 <= p < lv.nbits ==> (#[trigger] lv.marks@[p] <==> hits(
                ks,
                remaining,
                remaining.len(),
                levels.len() as int,
                lv.nbits as int,
                p,
            ) == 1),
        next.no_duplicates(),
        forall|i: u32|
            next.contains(i) <==> remaining.contains(i) && !lv.marks@[level_pos(
                ks[i as int],
                levels.len() as int,
                lv.nbits as int,
            )],
        marks_below(lv.marks@, lv.nbits as nat) + next.len() == remaining.len(),
    ensures
        placing(
            ks,
            m,
            levels.push(lv),
            next,
            base + marks_below(lv.marks@, lv.nbits as nat),
        ),
{
    let level = levels.len() as int;
    let nbits = lv.nbits as int;
    let all = levels.push(lv);
    let placed = marks_below(lv.marks@, lv.nbits as nat);
    lemma_earlier_levels(ks, m as nat, levels, all, levels.len());
    assert(all[level] == lv);
    assert forall|l: int| 0 <= l < all.len() implies #[trigger] level_made(
        ks,
        m as nat,
        all,
        l,
    ) by {
        if l < level {
            lemma_earlier_levels(ks, m as nat, levels, all, l as nat);
            assert(level_made(ks, m as nat, levels, l));
        }
        assert(all[l] == if l < level {
            levels[l]
        } else {
            lv
        });
    }
    assert forall|r: int| 0 <= r < next.len() implies #[trigger] next[r] < m by {
        assert(next.contains(next[r]));
        let t = choose|t: int| 0 <= t < remaining.len() && remaining[t] == next[r];
    }
    assert forall|i: u32| #[trigger] next.contains(i) implies level_slot(all, 0, ks[i as int])
        is None by {
        assert(remaining.contains(i));
        lemma_level_slot_push(levels, lv, 0, ks[i as int]);
    }
    assert forall|i: u32| i < m && !#[trigger] next.contains(i) implies {
        let s = level_slot(all, 0, ks[i as int]);
        &&& s is Some
        &&& 0 <= s->0 < base + placed
        &&& remaining.contains(i) ==> s->0 == base + marks_below(
            lv.marks@,
            level_pos(ks[i as int], level, nbits) as nat,
        ) && lv.marks@[level_pos(ks[i as int], level, nbits)]
        &&& !remaining.contains(i) ==> s == level_slot(levels, 0, ks[i as int]) && s->0 < base
    } by {
        lemma_level_slot_push(levels, lv, 0, ks[i as int]);
        if remaining.contains(i) {
            let p = level_pos(ks[i as int], level, nbits);
            assert(0 <= p < nbits);
            lemma_marks_strict(lv.marks@, p as nat, nbits as nat);
        }
    }
    assert forall|i: u32, j: u32|
        i < m && j < m && i != j && !#[trigger] next.contains(i) && !#[trigger] next.contains(
            j,
        ) implies level_slot(all, 0, ks[i as int]) != level_slot(all, 0, ks[j as int]) by {
        if remaining.contains(i) && remaining.contains(j) {
            let p = level_pos(ks[i as int], level, nbits);
            let q = level_pos(ks[j as int], level, nbits);
            let r = choose|r: int| 0 <= r < remaining.len() && remaining[r] == i;
            let t = choose|t: int| 0 <= t < remaining.len() && remaining[t] == j;
            assert(0 <= p < nbits && 0 <= q < nbits);
            lemma_hits_own(ks, remaining, remaining.len(), level, nbits, r, t);
            assert(p != q);
            if p < q {
                lemma_marks_strict(lv.marks@, p as nat, q as nat);
            } else {
                lemma_marks_strict(lv.marks@, q as nat, p as nat);
            }
        }
    }
}

/// Replacing one entry's slot changes what the list says of that key alone.
proof fn lemma_listed_update(list: Seq<(Vec<u8>, u32)>, i: int, e: (Vec<u8>, u32), k: Seq<u8>)
    requires
        0 <= i < list.len(),
        list[i].0@ == e.0@,
        forall|t: int| i < t < list.len() ==> (#[trigger] list[t]).0@ != e.0@,
    ensures
        listed_slot(list.update(i, e), k) == if k == e.0@ {
            Some(e.1 as int)
        } else {
            listed_slot(list, k)
        },
    decreases list.len(),
{
    let new = list.update(i, e);
    assert(new.last() == if i == list.len() - 1 {
        e
    } else {
        list.last()
    });
    if i == list.len() - 1 {
        assert(new.drop_last() =~= list.drop_last());
    } else {
        assert(new.drop_last() =~= list.drop_last().update(i, e));
        lemma_listed_update(list.drop_last(), i, e, k);
    }
}

/// Which keys a list names.
spec fn names(list: Seq<(Vec<u8>, u32)>, key: Seq<u8>) -> bool {
    exists|t: int| 0 <= t < list.len() && (#[trigger] list[t]).0@ == key
}

/// Gives `key` a slot in the list, in place of an earlier one.
fn list_slot(list: &mut Vec<(Vec<u8>, u32)>, key: &[u8], slot: u32)
    ensures
        forall|k: Seq<u8>| #[trigger]
            listed_slot(final(list)@, k) == if k == key@ {
                Some(slot as int)
            } else {
                listed_slot(old(list)@, k)
            },
        final(list)@.len() == old(list)@.len() + if names(old(list)@, key@) {
            0int
        } else {
            1
        },
        listed_once(old(list)@) ==> listed_once(final(list)@),
        !names(old(list)@, key@) ==> {
            &&& final(list)@.drop_last() == old(list)@
            &&& final(list)@.last().0@ == key@
            &&& final(list)@.last().1 == slot
        },
{
    let mut i: usize = list.len();
    while i > 0
        invariant
            i <= list@.len(),
            list@ == old(list)@,
            forall|t: int| i <= t < list@.len() ==> (#[trigger] list@[t]).0@ != key@,
        decreases i,
    {
        if bytes_equal(&list[i - 1].0, key) {
            let e: (Vec<u8>, u32) = (to_owned(key), slot);
            let ghost was = list@;
            proof {
                assert forall|k: Seq<u8>| #[trigger]
                    listed_slot(was.update(i - 1, e), k) == if k == key@ {
                        Some(slot as int)
                    } else {
                        listed_slot(was, k)
                    } by {
                    lemma_listed_update(was, i - 1, e, k);
                }
                assert(was[i - 1].0@ == key@);
                assert(names(was, key@));
            }
            list.set(i - 1, e);
            proof {
                if listed_once(was) {
                    assert forall|a: int, b: int| 0 <= a < b < list@.len() implies (
                    #[trigger] list@[a]).0@ != (#[trigger] list@[b]).0@ by {
                        assert(was[a].0@ != was[b].0@);
                    }
                }
            }
            return;
        }
        i = i - 1;
    }
    let ghost was = list@;
    list.push((to_owned(key), slot));
    proof {
        assert(list@.drop_last() =~= was);
    }
}

/// The explicit slots of the keys that remain after the last level.
fn list_remaining(keys: &[Vec<u8>], remaining: &Vec<u32>, base: u32) -> (list: Vec<
    (Vec<u8>, u32),
>)
    requires
        forall|r: int| 0 <= r < remaining@.len() ==> #[trigger] remaining@[r] < keys@.len(),
        base + remaining@.len() <= u32::MAX,
    ensures
        listed_once(list@),
        list@.len() <= remaining@.len(),
        forall|k: Seq<u8>| #[trigger]
            listed_slot(list@, k) == left_slot(
                key_seqs(keys@),
                remaining@,
                remaining@.len(),
                base as int,
                k,
            ),
        forall|r: int|
            0 <= r < remaining@.len() ==> {
                let s = listed_slot(list@, key_seqs(keys@)[#[trigger] remaining@[r] as int]);
                s is Some && base <= s->0 < base + remaining@.len()
            },
        forall|r: int, t: int|
            0 <= r < remaining@.len() && 0 <= t < remaining@.len() && listed_slot(
                list@,
                key_seqs(keys@)[#[trigger] remaining@[r] as int],
            ) == listed_slot(list@, key_seqs(keys@)[#[trigger] remaining@[t] as int])
                ==> key_seqs(keys@)[remaining@[r] as int] == key_seqs(
                keys@,
            )[remaining@[t] as int],
{
    let ghost ks = key_seqs(keys@);
    let mut list: Vec<(Vec<u8>, u32)> = Vec::new();
    let mut j: usize = 0;
    while j < remaining.len()
        invariant
            j <= remaining@.len(),
            ks == key_seqs(keys@),
            forall|r: int| 0 <= r < remaining@.len() ==> #[trigger] remaining@[r] < keys@.len(),
            base + remaining@.len() <= u32::MAX,
            listed_once(list@),
            list@.len() <= j,
            forall|k: Seq<u8>| #[trigger]
                listed_slot(list@, k) == left_slot(ks, remaining@, j as nat, base as int, k),
            forall|k: Seq<u8>|
                (#[trigger] listed_slot(list@, k)) matches Some(s) ==> base <= s < base + j
                    && ks[remaining@[s - base] as int] == k,
            forall|r: int|
                0 <= r < j ==> listed_slot(
                    list@,
                    ks[#[trigger] remaining@[r] as int],
                ) is Some,
        decreases remaining.len() - j,
    {
        let i: u32 = remaining[j];
        list_slot(&mut list, &keys[i as usize], base + (j as u32));
        j = j + 1;
    }
    list
}

impl Mphf {
    /// Builds the hash over the keys. Keys are numbered in thirty-two bits, so
    /// it is perfect for as many as those can count.
    pub fn build(keys: &[Vec<u8>]) -> (r: Mphf)
        requires
            keys@.len() <= usize::MAX / 4,
        ensures
            r.n == keys@.len(),
            r.made_of(key_seqs(keys@), keys@.len() as u32 as nat),
            forall|k: Seq<u8>|
                (#[trigger] r.slot_of(k)) matches Some(s) ==> 0 <= s < keys@.len(),
            keys@.len() <= u32::MAX ==> r.perfect(key_seqs(keys@)),
    {
        let ghost ks = key_seqs(keys@);
        let m: u32 = keys.len() as u32;
        let mut remaining: Vec<u32> = Vec::new();
        let mut i: u32 = 0;
        while i < m
            invariant
                i <= m,
                remaining@.len() == i,
                forall|r: int| 0 <= r < i ==> #[trigger] remaining@[r] == r,
            decreases m - i,
        {
            remaining.push(i);
            i = i + 1;
        }
        let mut levels: Vec<MphLevel> = Vec::new();
        let mut base: u32 = 0;
        let mut level: usize = 0;
        proof {
            assert(m <= ks.len()) by {
                let n = keys@.len() as u64;
                assert(n as u32 <= n) by (bit_vector);
            }
            assert forall|i: u32| i < m implies #[trigger] remaining@.contains(i) by {
                assert(remaining@[i as int] == i);
            }
            assert(remaining@ =~= remaining_at(ks, m as nat, levels@, 0));
            assert(placing(ks, m as int, levels@, remaining@, base as int));
        }
        while level < MAX_LEVELS && remaining.len() > 0
            invariant
                level <= MAX_LEVELS,
                levels@.len() == level,
                ks == key_seqs(keys@),
                keys@.len() <= usize::MAX / 4,
                m <= ks.len(),
                placing(ks, m as int, levels@, remaining@, base as int),
            decreases MAX_LEVELS - level,
        {
            let (lv, next) = place_level(keys, &remaining, level, base);
            let placed: u32 = lv.block_rank[lv.block_rank.len() - 1];
            proof {
                lemma_placing_step(
                    ks,
                    m as int,
                    levels@,
                    remaining@,
                    base as int,
                    lv,
                    next@,
                );
            }
            levels.push(lv);
            base = base + placed;
            remaining = next;
            level = level + 1;
        }
        let fallback: Vec<(Vec<u8>, u32)> = list_remaining(keys, &remaining, base);
        let r = Mphf { levels, fallback, n: keys.len() };
        proof {
            assert forall|k: Seq<u8>| (#[trigger] r.slot_of(k)) is Some implies 0 <= r.slot_of(k)->0
                < keys@.len() by {
                lemma_slots_stay_below(r, ks, m as nat, k);
            }
            if keys@.len() <= u32::MAX {
                lemma_built_perfect(r, ks, remaining@, base as int);
            }
        }
        r
    }
}

/// With the remaining keys listed, every key has its own slot.
proof fn lemma_built_perfect(r: Mphf, ks: Seq<Seq<u8>>, remaining: Seq<u32>, base: int)
    requires
        ks.len() <= u32::MAX,
        0 <= base,
        r.n == ks.len(),
        placing(ks, ks.len() as int, r.levels@, remaining, base),
        forall|t: int|
            0 <= t < remaining.len() ==> {
                let s = listed_slot(r.fallback@, ks[#[trigger] remaining[t] as int]);
                s is Some && base <= s->0 < base + remaining.len()
            },
        forall|a: int, t: int|
            0 <= a < remaining.len() && 0 <= t < remaining.len() && listed_slot(
                r.fallback@,
                ks[#[trigger] remaining[a] as int],
            ) == listed_slot(r.fallback@, ks[#[trigger] remaining[t] as int])
                ==> ks[remaining[a] as int] == ks[remaining[t] as int],
    ensures
        r.perfect(ks),
{
    assert forall|i: int| 0 <= i < ks.len() implies {
        &&& r.slot_of(#[trigger] ks[i]) is Some
        &&& 0 <= r.slot_of(ks[i])->0 < ks.len()
        &&& remaining.contains(i as u32) ==> r.slot_of(ks[i])->0 >= base
        &&& !remaining.contains(i as u32) ==> r.slot_of(ks[i])->0 < base
    } by {
        if remaining.contains(i as u32) {
            let t = choose|t: int| 0 <= t < remaining.len() && remaining[t] == i as u32;
            assert(listed_slot(r.fallback@, ks[remaining[t] as int]) is Some);
        }
    }
    assert forall|i: int, j: int|
        0 <= i < ks.len() && 0 <= j < ks.len() && r.slot_of(#[trigger] ks[i]) == r.slot_of(
            #[trigger] ks[j],
        ) implies ks[i] == ks[j] by {
        let a = i as u32;
        let b = j as u32;
        if i != j {
            assert(remaining.contains(a) <==> remaining.contains(b));
            if remaining.contains(a) {
                let s = choose|t: int| 0 <= t < remaining.len() && remaining[t] == a;
                let t = choose|t: int| 0 <= t < remaining.len() && remaining[t] == b;
                assert(ks[remaining[s] as int] == ks[remaining[t] as int]);
            }
        }
    }
}

/// Marks of a level are among those of all levels.
proof fn lemma_marks_before_grow(levels: Seq<MphLevel>, a: nat, b: nat)
    requires
        a <= b,
    ensures
        marks_before(levels, a) <= marks_before(levels, b),
    decreases b - a,
{
    if a < b {
        lemma_marks_before_grow(levels, a, (b - 1) as nat);
    }
}

/// A slot that the levels give is below the number of their marks.
proof fn lemma_level_slot_below(
    r: Mphf,
    keys: Seq<Seq<u8>>,
    m: nat,
    l: int,
    key: Seq<u8>,
)
    requires
        r.made_of(keys, m),
        0 <= l <= r.levels@.len(),
    ensures
        level_slot(r.levels@, l, key) matches Some(s) ==> 0 <= s < marks_before(
            r.levels@,
            r.levels@.len(),
        ),
    decreases r.levels@.len() - l,
{
    if l < r.levels@.len() {
        let lv = r.levels@[l];
        let p = lv.pos(key, l);
        assert(lv.wf());
        assert(level_made(keys, m, r.levels@, l));
        assert(0 <= p < lv.nbits);
        if lv.marks@[p] {
            lemma_marks_strict(lv.marks@, p as nat, lv.nbits as nat);
            lemma_marks_before_grow(r.levels@, (l + 1) as nat, r.levels@.len());
        } else {
            lemma_level_slot_below(r, keys, m, l + 1, key);
        }
    }
}

/// A slot of a left key lies behind `base`, one for each of them.
proof fn lemma_left_slot_below(
    keys: Seq<Seq<u8>>,
    left: Seq<u32>,
    n: nat,
    base: int,
    key: Seq<u8>,
)
    ensures
        left_slot(keys, left, n, base, key) matches Some(s) ==> base <= s < base + n,
    decreases n,
{
    if n > 0 {
        lemma_left_slot_below(keys, left, (n - 1) as nat, base, key);
    }
}

/// Whatever key is asked for, it gets no slot or one below the number of keys:
/// a key that was not in the set gets a meaningless slot, and never one that
/// is out of range.
pub proof fn lemma_slots_stay_below(r: Mphf, keys: Seq<Seq<u8>>, m: nat, key: Seq<u8>)
    requires
        r.made_of(keys, m),
    ensures
        r.slot_of(key) matches Some(s) ==> 0 <= s < m,
{
    let levels = r.levels@;
    let left = remaining_at(keys, m, levels, levels.len());
    let base = marks_before(levels, levels.len()) as int;
    lemma_level_slot_below(r, keys, m, 0, key);
    lemma_left_slot_below(keys, left, left.len(), base, key);
    assert(listed_slot(r.fallback@, key) == left_slot(keys, left, left.len(), base, key));
}

/// What a list gives a slot it names.
proof fn lemma_listed_named(list: Seq<(Vec<u8>, u32)>, key: Seq<u8>) -> (t: int)
    requires
        listed_slot(list, key) is Some,
    ensures
        0 <= t < list.len(),
        list[t].0@ == key,
        listed_slot(list, key) == Some(list[t].1 as int),
    decreases list.len(),
{
    if list.last().0@ == key {
        list.len() - 1
    } else {
        lemma_listed_named(list.drop_last(), key)
    }
}

/// A key that is left has a slot among those left.
proof fn lemma_left_has_slot(keys: Seq<Seq<u8>>, left: Seq<u32>, n: nat, base: int, j: int)
    requires
        0 <= j < n,
    ensures
        left_slot(keys, left, n, base, keys[left[j] as int]) is Some,
    decreases n,
{
    if j < n - 1 {
        lemma_left_has_slot(keys, left, (n - 1) as nat, base, j);
    }
}

/// The keys that collide are some of those that remain, each as often.
proof fn lemma_collided(
    keys: Seq<Seq<u8>>,
    remaining: Seq<u32>,
    n: nat,
    level: int,
    marks: Seq<bool>,
)
    requires
        n <= remaining.len(),
        remaining.no_duplicates(),
    ensures
        collided(keys, remaining, n, level, marks).no_duplicates(),
        forall|j: int|
            0 <= j < collided(keys, remaining, n, level, marks).len() ==> remaining.take(
                n as int,
            ).contains(#[trigger] collided(keys, remaining, n, level, marks)[j]),
    decreases n,
{
    if n > 0 {
        lemma_collided(keys, remaining, (n - 1) as nat, level, marks);
        let v = remaining[n - 1];
        let was = collided(keys, remaining, (n - 1) as nat, level, marks);
        let now = collided(keys, remaining, n, level, marks);
        let seen = remaining.take(n - 1);
        assert(remaining.take(n as int) =~= seen.push(v));
        assert forall|j: int| 0 <= j < now.len() implies seen.push(v).contains(
            #[trigger] now[j],
        ) by {
            if j < was.len() {
                assert(now[j] == was[j]);
                assert(seen.contains(was[j]));
            }
            lemma_push_contains(seen, v, now[j]);
        }
        assert forall|a: int, b: int|
            0 <= a < now.len() && 0 <= b < now.len() && a != b implies now[a] != now[b] by {
            if a == was.len() || b == was.len() {
                let o = if a == was.len() {
                    b
                } else {
                    a
                };
                assert(seen.contains(was[o]));
                let t = choose|t: int| 0 <= t < seen.len() && seen[t] == was[o];
                assert(remaining[t] != remaining[n - 1]);
            }
        }
    }
}

/// The keys that remain at a level are some of the keys, each once.
proof fn lemma_remaining_once(keys: Seq<Seq<u8>>, m: nat, levels: Seq<MphLevel>, l: nat)
    requires
        m <= u32::MAX,
    ensures
        remaining_at(keys, m, levels, l).no_duplicates(),
        forall|j: int|
            0 <= j < remaining_at(keys, m, levels, l).len() ==> (#[trigger] remaining_at(
                keys,
                m,
                levels,
                l,
            )[j]) < m,
    decreases l,
{
    if l > 0 {
        lemma_remaining_once(keys, m, levels, (l - 1) as nat);
        let r = remaining_at(keys, m, levels, (l - 1) as nat);
        let now = remaining_at(keys, m, levels, l);
        lemma_collided(keys, r, r.len(), l - 1, levels[l - 1].marks@);
        assert(r.take(r.len() as int) =~= r);
        assert forall|j: int| 0 <= j < now.len() implies #[trigger] now[j] < m by {
            assert(r.contains(now[j]));
        }
    }
}

/// Distinct keys are either marked on a level or listed, each once: the marks
/// of all levels and the listed keys are as many as the keys, and the listed
/// ones are just those that no level placed.
pub proof fn lemma_marked_or_listed(r: Mphf, keys: Seq<Seq<u8>>)
    requires
        r.made_of(keys, keys.len()),
        keys.no_duplicates(),
        keys.len() <= u32::MAX,
    ensures
        marks_before(r.levels@, r.levels@.len()) + r.fallback@.len() == keys.len(),
        forall|t: int|
            0 <= t < r.fallback@.len() ==> is_left(
                keys,
                remaining_at(keys, keys.len(), r.levels@, r.levels@.len()),
                (#[trigger] r.fallback@[t]).0@,
            ),
{
    let levels = r.levels@;
    let list = r.fallback@;
    let left = remaining_at(keys, keys.len(), levels, levels.len());
    let base = marks_before(levels, levels.len()) as int;
    lemma_remaining_once(keys, keys.len(), levels, levels.len());
    let lefts = set_int_range(0, left.len() as int);
    let lists = set_int_range(0, list.len() as int);
    vstd::set_lib::lemma_int_range(0, left.len() as int);
    vstd::set_lib::lemma_int_range(0, list.len() as int);
    let f = |t: int|
        choose|j: int| 0 <= j < left.len() && #[trigger] keys[left[j] as int] == list[t].0@;
    assert forall|j: int| lefts.contains(j) implies exists|t: int| #[trigger]
        lists.contains(t) && f(t) == j by {
        let k = keys[left[j] as int];
        lemma_left_has_slot(keys, left, left.len(), base, j);
        assert(listed_slot(list, k) is Some);
        let t = lemma_listed_named(list, k);
        let o = f(t);
        assert(0 <= o < left.len() && keys[left[o] as int] == list[t].0@);
        assert(left[o] == left[j]);
        assert(lists.contains(t) && f(t) == j);
    }
    lemma_cover(lefts, lists, f);
    assert forall|t: int| 0 <= t < list.len() implies is_left(
        keys,
        left,
        (#[trigger] list[t]).0@,
    ) by {
        let k = list[t].0@;
        lemma_named_listed(list, t);
        let j = lemma_left_slot_at(keys, left, left.len(), base, k);
        assert(list[t].0@ == keys[left[j] as int]);
    }
}

/// What a list names gets a slot of it.
proof fn lemma_named_listed(list: Seq<(Vec<u8>, u32)>, t: int)
    requires
        0 <= t < list.len(),
    ensures
        listed_slot(list, list[t].0@) is Some,
    decreases list.len(),
{
    if list.last().0@ != list[t].0@ {
        assert(list.drop_last()[t] == list[t]);
        lemma_named_listed(list.drop_last(), t);
    }
}

/// Which of the keys left has the slot.
proof fn lemma_left_slot_at(
    keys: Seq<Seq<u8>>,
    left: Seq<u32>,
    n: nat,
    base: int,
    key: Seq<u8>,
) -> (j: int)
    requires
        left_slot(keys, left, n, base, key) is Some,
    ensures
        0 <= j < n,
        keys[left[j] as int] == key,
        left_slot(keys, left, n, base, key) == Some(base + j),
    decreases n,
{
    if keys[left[n - 1] as int] == key {
        n - 1
    } else {
        lemma_left_slot_at(keys, left, (n - 1) as nat, base, key)
    }
}

/// Distinct keys take up all the slots: every slot below their number belongs
/// to one of them.
pub proof fn lemma_perfect_onto(r: Mphf, keys: Seq<Seq<u8>>, s: int) -> (i: int)
    requires
        r.perfect(keys),
        keys.no_duplicates(),
        0 <= s < keys.len(),
    ensures
        0 <= i < keys.len(),
        r.slot_of(keys[i]) == Some(s),
{
    let n = keys.len() as int;
    let slots = Seq::new(keys.len(), |i: int| r.slot_of(keys[i])->0);
    assert(slots.no_duplicates()) by {
        assert forall|a: int, b: int|
            0 <= a < slots.len() && 0 <= b < slots.len() && a != b implies slots[a] != slots[b] by {
            if slots[a] == slots[b] {
                assert(r.slot_of(keys[a]) == r.slot_of(keys[b]));
            }
        }
    }
    slots.unique_seq_to_set();
    let taken = slots.to_set();
    let range = set_int_range(0, n);
    vstd::set_lib::lemma_int_range(0, n);
    assert forall|v: int| taken.contains(v) implies range.contains(v) by {
        let a = choose|a: int| 0 <= a < slots.len() && slots[a] == v;
        assert(r.slot_of(keys[a]) is Some);
    }
    if !taken.contains(s) {
        assert(taken.subset_of(range.remove(s)));
        lemma_len_subset(taken, range.remove(s));
    }
    let a = choose|a: int| 0 <= a < slots.len() && slots[a] == s;
    assert(r.slot_of(keys[a]) is Some);
    a
}

/// A level has two bits for every key that is left, sixty-four at least, up to the next
/// whole block.
pub proof fn lemma_level_size(n: nat)
    ensures
        level_size(n) % 512 == 0,
        2 * n <= level_size(n),
        512 <= level_size(n),
        n >= 32 ==> level_size(n) < 2 * n + 512,
        n <= 256 ==> level_size(n) == 512,
{
}

} // verus!
