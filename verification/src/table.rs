//! The open-addressed table that the hashed layouts probe: a flat array of
//! slots, each a one-byte tag and a thirty-two-bit payload, filled by linear
//! probing. A payload of all ones marks an empty slot.

use vstd::arithmetic::power2::{lemma_pow2_pos, lemma_pow2_unfold, pow2};
use vstd::bits::{lemma_u64_low_bits_mask_is_mod, low_bits_mask};
use vstd::prelude::*;
use vstd::set_lib::{lemma_int_range, lemma_len_subset, set_int_range};

verus! {

/// The payload of an empty slot.
pub const EMPTY: u32 = u32::MAX;

/// `x` is a power of two below two to the sixty-fourth.
pub open spec fn is_power_of_two(x: nat) -> bool {
    exists|k: nat| k < 64 && x == #[trigger] pow2(k)
}

/// Masking with one less than a power of two is the remainder by it.
pub proof fn lemma_mask_is_mod(x: u64, cap: u64)
    requires
        is_power_of_two(cap as nat),
    ensures
        cap > 0,
        x & ((cap - 1) as u64) == x % cap,
{
    let k = choose|k: nat| k < 64 && cap == #[trigger] pow2(k);
    lemma_pow2_pos(k);
    lemma_u64_low_bits_mask_is_mod(x, k);
    assert(low_bits_mask(k) as u64 == (cap - 1) as u64);
}

/// Twice a power of two is one, as long as it still fits.
pub proof fn lemma_double(x: nat)
    requires
        is_power_of_two(x),
        2 * x < 0x1_0000_0000_0000_0000,
    ensures
        is_power_of_two(2 * x),
{
    let k = choose|k: nat| k < 64 && x == #[trigger] pow2(k);
    lemma_pow2_unfold(k + 1);
    assert(2 * x == pow2(k + 1));
    vstd::arithmetic::power2::lemma2_to64();
    vstd::arithmetic::power2::lemma2_to64_rest();
    if k + 1 >= 64 {
        assert(pow2(k + 1) == 0x1_0000_0000_0000_0000);
    }
}

/// The tag of a hash: its top byte, never zero.
pub open spec fn tag_of(h: u64) -> u8 {
    ((h >> 56) as u8) | 1
}

/// The slot at `d` steps from where a hash starts probing.
pub open spec fn slot_at(h: u64, cap: int, d: int) -> int {
    let s = (h as int) % cap + d;
    if s < cap {
        s
    } else {
        s - cap
    }
}

/// A table of slots with what was put into it, in order.
pub struct ProbeTable {
    /// Tag and payload of each slot.
    pub hash: Vec<(u8, u32)>,
    /// One less than the number of slots, which is a power of two.
    pub mask: usize,
    /// The hashes that were put in.
    pub hashes: Ghost<Seq<u64>>,
    /// The payloads that were put in.
    pub payloads: Ghost<Seq<u32>>,
    /// How many steps from its start each of them came to lie.
    pub dist: Ghost<Seq<int>>,
    /// Which of them each slot holds, -1 for none.
    pub owner: Ghost<Seq<int>>,
}

impl ProbeTable {
    /// Item `j` lies in the table: its payload is not the mark of an empty slot.
    pub open spec fn placed(self, j: int) -> bool {
        0 <= j < self.payloads@.len() && self.payloads@[j] != EMPTY
    }

    /// Where item `j` lies.
    pub open spec fn pos(self, j: int) -> int {
        slot_at(self.hashes@[j], self.hash@.len() as int, self.dist@[j])
    }

    /// The slots are what linear probing of the items, in order, makes of an
    /// empty table.
    pub closed spec fn wf(self) -> bool {
        let cap = self.hash@.len() as int;
        let n = self.hashes@.len();
        &&& is_power_of_two(cap as nat)
        &&& cap == self.mask + 1
        &&& self.payloads@.len() == n
        &&& self.dist@.len() == n
        &&& self.owner@.len() == cap
        &&& forall|j: int| #[trigger]
            self.placed(j) ==> {
                &&& 0 <= self.dist@[j] < cap
                &&& self.hash@[self.pos(j)] == (tag_of(self.hashes@[j]), self.payloads@[j])
                &&& self.owner@[self.pos(j)] == j
            }
        &&& forall|s: int|
            0 <= s < cap ==> {
                &&& (#[trigger] self.owner@[s] >= 0 <==> self.hash@[s].1 != EMPTY)
                &&& self.owner@[s] >= 0 ==> self.placed(self.owner@[s]) && self.pos(self.owner@[s])
                    == s
            }
        &&& forall|j: int, d: int|
            #![trigger self.placed(j), slot_at(self.hashes@[j], cap, d)]
            self.placed(j) && 0 <= d < self.dist@[j] ==> 0 <= self.owner@[slot_at(
                self.hashes@[j],
                cap,
                d,
            )] < j
        &&& self.all_placed() ==> forall|s: int|
            0 <= s < cap && (#[trigger] self.hash@[s]).1 == EMPTY ==> self.hash@[s].0 == 0
    }

    /// No item has the payload of an empty slot.
    pub open spec fn all_placed(self) -> bool {
        forall|j: int| 0 <= j < self.payloads@.len() ==> #[trigger] self.placed(j)
    }

    /// The table is the one for `n` items and holds them: every item lies in a
    /// slot of its own with its tag, no slot on the way there is empty, and all
    /// other slots are empty.
    pub open spec fn filled(self, n: nat) -> bool {
        let cap = self.hash@.len() as int;
        &&& cap == table_slots(n)
        &&& is_power_of_two(cap as nat)
        &&& cap >= 16
        &&& cap >= 2 * n
        &&& self.mask == cap - 1
        &&& self.hashes@.len() == n
        &&& self.payloads@.len() == n
        &&& forall|j: int| #[trigger]
            self.placed(j) ==> {
                &&& 0 <= self.pos(j) < cap
                &&& self.hash@[self.pos(j)] == (tag_of(self.hashes@[j]), self.payloads@[j])
            }
        &&& forall|i: int, j: int|
            #![trigger self.placed(i), self.placed(j)]
            self.placed(i) && self.placed(j) && i != j ==> self.pos(i) != self.pos(j)
        &&& forall|j: int, d: int|
            #![trigger self.placed(j), slot_at(self.hashes@[j], cap, d)]
            self.placed(j) && 0 <= d < self.dist@[j] ==> self.hash@[slot_at(
                self.hashes@[j],
                cap,
                d,
            )].1 != EMPTY
        &&& forall|s: int|
            0 <= s < cap && (#[trigger] self.hash@[s]).1 != EMPTY ==> self.is_taken(s)
        &&& self.all_placed() ==> forall|s: int|
            0 <= s < cap && (#[trigger] self.hash@[s]).1 == EMPTY ==> self.hash@[s].0 == 0
    }

    /// Slot `s` is some item's.
    pub open spec fn is_taken(self, s: int) -> bool {
        exists|j: int| #[trigger] self.placed(j) && self.pos(j) == s
    }

    /// A table that was made for as many items as were put in is filled.
    pub proof fn lemma_filled(self)
        requires
            self.wf(),
            self.hash@.len() == table_slots(self.hashes@.len()),
            self.hash@.len() >= 16,
            self.hash@.len() >= 2 * self.hashes@.len(),
        ensures
            self.filled(self.hashes@.len()),
    {
        let cap = self.hash@.len() as int;
        assert forall|j: int| #[trigger] self.placed(j) implies 0 <= self.pos(j) < cap by {}
        assert forall|j: int, d: int|
            #![trigger self.placed(j), slot_at(self.hashes@[j], cap, d)]
            self.placed(j) && 0 <= d < self.dist@[j] implies self.hash@[slot_at(
            self.hashes@[j],
            cap,
            d,
        )].1 != EMPTY by {
            let s = slot_at(self.hashes@[j], cap, d);
            assert(0 <= s < cap);
            assert(self.owner@[s] >= 0);
        }
        assert forall|s: int|
            0 <= s < cap && (#[trigger] self.hash@[s]).1 != EMPTY implies self.is_taken(s) by {
            assert(self.owner@[s] >= 0);
            assert(self.placed(self.owner@[s]));
        }
    }

    /// Which item lies at `d` steps from the start of `h`; negative for none.
    pub open spec fn item_at(self, h: u64, d: int) -> int {
        self.owner@[slot_at(h, self.hash@.len() as int, d)]
    }

    /// No slot on the way from the start of `h` up to `d` steps is empty.
    pub open spec fn full_until(self, h: u64, d: int) -> bool {
        forall|e: int| 0 <= e < d ==> #[trigger] self.item_at(h, e) >= 0
    }

    /// A search under `h` that has come `d` steps far: the way was full, and
    /// none of the items under `h` on it is wanted.
    pub open spec fn searched(self, h: u64, d: int, wanted: spec_fn(int) -> bool) -> bool {
        &&& 0 <= d < self.hash@.len()
        &&& self.full_until(h, d)
        &&& forall|j: int| #[trigger]
            self.placed(j) && self.hashes@[j] == h && self.dist@[j] < d ==> !wanted(j)
    }

    /// A search starts with nothing seen.
    pub proof fn lemma_search_start(self, h: u64, wanted: spec_fn(int) -> bool)
        requires
            self.wf(),
        ensures
            self.searched(h, 0, wanted),
    {
        let k = choose|k: nat| k < 64 && self.hash@.len() == #[trigger] pow2(k);
        lemma_pow2_pos(k);
    }

    /// A search goes on past an item that is not wanted.
    pub proof fn lemma_search_step(self, h: u64, d: int, wanted: spec_fn(int) -> bool)
        requires
            self.wf(),
            self.hashes@.len() < self.hash@.len(),
            self.searched(h, d, wanted),
            self.item_at(h, d) >= 0,
            self.hashes@[self.item_at(h, d)] == h ==> !wanted(self.item_at(h, d)),
        ensures
            self.searched(h, d + 1, wanted),
    {
        self.lemma_not_full(h);
        assert(self.full_until(h, d + 1));
        assert forall|j: int| #[trigger]
            self.placed(j) && self.hashes@[j] == h && self.dist@[j] < d + 1 implies !wanted(j) by {
            if self.dist@[j] == d {
                assert(self.owner@[self.pos(j)] == j);
            }
        }
    }

    /// A search that meets an empty slot has seen every item under its hash.
    pub proof fn lemma_search_end(self, h: u64, d: int, wanted: spec_fn(int) -> bool, j: int)
        requires
            self.wf(),
            self.searched(h, d, wanted),
            self.item_at(h, d) < 0,
            self.placed(j),
            self.hashes@[j] == h,
        ensures
            !wanted(j),
    {
        self.lemma_empty_ends(h, d, j);
    }

    /// Where a search stands at an item under its hash, it has seen every
    /// earlier item under that hash.
    pub proof fn lemma_search_hit(self, h: u64, d: int, wanted: spec_fn(int) -> bool, j: int)
        requires
            self.wf(),
            self.searched(h, d, wanted),
            self.item_at(h, d) >= 0,
            self.hashes@[self.item_at(h, d)] == h,
            self.placed(j),
            self.hashes@[j] == h,
            j < self.item_at(h, d),
        ensures
            !wanted(j),
    {
        let cap = self.hash@.len() as int;
        let s = slot_at(h, cap, d);
        assert(0 <= s < cap);
        let o = self.owner@[s];
        assert(self.placed(o) && self.pos(o) == s);
        let home = (h as int) % cap;
        assert(slot_at(h, cap, self.dist@[o]) == slot_at(h, cap, d));
        assert(self.dist@[o] == d);
        self.lemma_same_hash_order(j, o);
    }

    /// With fewer items than slots, some slot on the way is empty.
    pub proof fn lemma_not_full(self, h: u64)
        requires
            self.wf(),
            self.hashes@.len() < self.hash@.len(),
        ensures
            !self.full_until(h, self.hash@.len() as int),
    {
        let cap = self.hash@.len() as int;
        if self.full_until(h, cap) {
            assert forall|s: int| 0 <= s < cap implies #[trigger] self.owner@[s] >= 0 by {
                let home = (h as int) % cap;
                let e = if s >= home {
                    s - home
                } else {
                    s - home + cap
                };
                assert(slot_at(h, cap, e) == s);
                assert(self.item_at(h, e) >= 0);
            }
            let o = self.owner@;
            assert(o.no_duplicates()) by {
                assert forall|a: int, b: int|
                    0 <= a < o.len() && 0 <= b < o.len() && a != b implies o[a] != o[b] by {
                    assert(o[a] >= 0 && o[b] >= 0);
                }
            }
            o.unique_seq_to_set();
            let n = self.hashes@.len() as int;
            assert(o.to_set().subset_of(set_int_range(0, n))) by {
                assert forall|v: int| o.to_set().contains(v) implies set_int_range(0, n).contains(
                    v,
                ) by {
                    let s = choose|s: int| 0 <= s < o.len() && o[s] == v;
                    assert(self.placed(o[s]));
                }
            }
            lemma_int_range(0, n);
            lemma_len_subset(o.to_set(), set_int_range(0, n));
        }
    }

    /// Where an item lies: in the slot so many steps behind the one that its hash
    /// falls on, counted round the end, with its tag and payload there, and only
    /// items that were put in before it on the way.
    pub proof fn lemma_item_lies(self, j: int)
        requires
            self.wf(),
            self.placed(j),
        ensures
            ({
                let cap = self.hash@.len() as int;
                let h = self.hashes@[j];
                let d = self.dist@[j];
                &&& 0 <= d < cap
                &&& self.item_at(h, d) == j
                &&& self.hash@[(h + d) % cap] == (tag_of(h), self.payloads@[j])
                &&& forall|e: int|
                    0 <= e < d ==> 0 <= #[trigger] self.item_at(h, e) < j && self.placed(
                        self.item_at(h, e),
                    ) && self.hash@[slot_at(h, cap, e)].0 == tag_of(
                        self.hashes@[self.item_at(h, e)],
                    )
                &&& forall|e: int| 0 <= e < cap ==> #[trigger] slot_at(h, cap, e) == (h + e) % cap
            }),
    {
        let cap = self.hash@.len() as int;
        let h = self.hashes@[j];
        let d = self.dist@[j];
        lemma_slot_is_mod(h, cap);
        assert(self.owner@[self.pos(j)] == j);
        assert forall|e: int| 0 <= e < d implies 0 <= #[trigger] self.item_at(h, e) < j
            && self.placed(self.item_at(h, e)) && self.hash@[slot_at(h, cap, e)].0 == tag_of(
            self.hashes@[self.item_at(h, e)],
        ) by {
            let s = slot_at(h, cap, e);
            assert(0 <= self.owner@[s] < j);
            assert(0 <= s < cap);
            assert(self.placed(self.owner@[s]) && self.pos(self.owner@[s]) == s);
        }
    }

    /// With fewer items than slots, the way of a hash comes to an empty slot: the
    /// first of them is `d` steps on.
    pub proof fn lemma_way_ends(self, h: u64) -> (d: int)
        requires
            self.wf(),
            self.hashes@.len() < self.hash@.len(),
        ensures
            0 <= d < self.hash@.len(),
            self.item_at(h, d) < 0,
            self.hash@[(h + d) % (self.hash@.len() as int)].1 == EMPTY,
            forall|e: int|
                0 <= e < d ==> #[trigger] self.item_at(h, e) >= 0 && self.placed(
                    self.item_at(h, e),
                ) && self.hash@[(h + e) % (
                self.hash@.len() as int)].1 != EMPTY && self.hash@[(h + e) % (
                self.hash@.len() as int)].0 == tag_of(self.hashes@[self.item_at(h, e)]),
    {
        let cap = self.hash@.len() as int;
        self.lemma_not_full(h);
        let far = choose|e: int| 0 <= e < cap && #[trigger] self.item_at(h, e) < 0;
        let d = self.lemma_first_empty(h, far);
        lemma_slot_is_mod(h, cap);
        assert(slot_at(h, cap, d) == (h + d) % cap);
        assert(self.owner@[slot_at(h, cap, d)] < 0);
        assert forall|e: int| 0 <= e < d implies #[trigger] self.item_at(h, e) >= 0 && self.placed(
            self.item_at(h, e),
        ) && self.hash@[(h + e) % cap].1 != EMPTY && self.hash@[(h + e) % cap].0 == tag_of(
            self.hashes@[self.item_at(h, e)],
        ) by {
            let s = slot_at(h, cap, e);
            assert(s == (h + e) % cap);
            assert(self.item_at(h, e) >= 0);
            assert(self.placed(self.owner@[s]) && self.pos(self.owner@[s]) == s);
        }
        d
    }

    /// The first empty slot on the way, given one.
    proof fn lemma_first_empty(self, h: u64, far: int) -> (d: int)
        requires
            0 <= far,
            self.item_at(h, far) < 0,
        ensures
            0 <= d <= far,
            self.item_at(h, d) < 0,
            self.full_until(h, d),
        decreases far,
    {
        if self.full_until(h, far) {
            far
        } else {
            let e = choose|e: int| 0 <= e < far && #[trigger] self.item_at(h, e) < 0;
            self.lemma_first_empty(h, e)
        }
    }

    /// Items that start at the same place lie in the order they were put in.
    pub proof fn lemma_same_hash_order(self, i: int, j: int)
        requires
            self.wf(),
            self.placed(i),
            self.placed(j),
            i < j,
            self.hashes@[i] == self.hashes@[j],
        ensures
            self.dist@[i] < self.dist@[j],
    {
        let cap = self.hash@.len() as int;
        let h = self.hashes@[i];
        if self.dist@[j] < self.dist@[i] {
            let s = slot_at(h, cap, self.dist@[j]);
            assert(0 <= self.owner@[s] < i);
            assert(self.owner@[self.pos(j)] == j);
        } else if self.dist@[j] == self.dist@[i] {
            assert(self.pos(i) == self.pos(j));
        }
    }

    /// Where an empty slot is met, every item with that hash lay before it.
    pub proof fn lemma_empty_ends(self, h: u64, d: int, j: int)
        requires
            self.wf(),
            0 <= d < self.hash@.len(),
            self.owner@[slot_at(h, self.hash@.len() as int, d)] < 0,
            self.placed(j),
            self.hashes@[j] == h,
        ensures
            self.dist@[j] < d,
    {
        let cap = self.hash@.len() as int;
        if self.dist@[j] == d {
            assert(self.owner@[self.pos(j)] == j);
        } else if self.dist@[j] > d {
            assert(0 <= self.owner@[slot_at(self.hashes@[j], cap, d)] < j);
        }
    }

    /// The slot at `d` steps from the start of `h`, and what it holds.
    pub fn probe(&self, h: u64, d: usize) -> (r: (u8, u32))
        requires
            self.wf(),
            d < self.hash@.len(),
        ensures
            r == self.hash@[slot_at(h, self.hash@.len() as int, d as int)],
            self.hash@.len() <= usize::MAX,
            r.1 == EMPTY <==> self.item_at(h, d as int) < 0,
            self.item_at(h, d as int) >= 0 ==> {
                let o = self.item_at(h, d as int);
                self.placed(o) && r == (tag_of(self.hashes@[o]), self.payloads@[o])
            },
    {
        let slot: usize = self.slot_of(h, d);
        assert(self.hash@.len() == self.hash.len());
        self.hash[slot]
    }

    /// The index of the slot at `d` steps from the start of `h`.
    pub fn slot_of(&self, h: u64, d: usize) -> (slot: usize)
        requires
            self.wf(),
            d < self.hash@.len(),
        ensures
            slot == slot_at(h, self.hash@.len() as int, d as int),
            slot < self.hash@.len(),
    {
        let cap: u64 = self.hash.len() as u64;
        proof {
            lemma_mask_is_mod(h, cap);
        }
        let home: usize = (h & (self.mask as u64)) as usize;
        let room: usize = self.hash.len() - home;
        if d < room {
            home + d
        } else {
            d - room
        }
    }

    /// An empty table for `n` items: the least power of two that is at least
    /// sixteen and twice `n`.
    pub fn new(n: usize) -> (t: ProbeTable)
        requires
            n <= usize::MAX / 4,
        ensures
            t.wf(),
            t.hashes@.len() == 0,
            t.payloads@.len() == 0,
            t.hash@.len() == table_slots(n as nat),
            t.hash@.len() >= 16,
            t.hash@.len() >= 2 * n,
            forall|s: int| 0 <= s < t.hash@.len() ==> t.hash@[s] == (0u8, EMPTY),
    {
        let cap: usize = table_capacity(n);
        let mut hash: Vec<(u8, u32)> = Vec::with_capacity(cap);
        let mut s: usize = 0;
        while s < cap
            invariant
                s <= cap,
                hash@.len() == s,
                forall|i: int| 0 <= i < s ==> hash@[i] == (0u8, EMPTY),
            decreases cap - s,
        {
            hash.push((0u8, EMPTY));
            s = s + 1;
        }
        ProbeTable {
            hash,
            mask: cap - 1,
            hashes: Ghost(Seq::empty()),
            payloads: Ghost(Seq::empty()),
            dist: Ghost(Seq::empty()),
            owner: Ghost(Seq::new(cap as nat, |s: int| -1int)),
        }
    }

    /// Puts a payload under a hash into the first empty slot from its start.
    pub fn insert(&mut self, h: u64, payload: u32)
        requires
            old(self).wf(),
            old(self).hashes@.len() < old(self).hash@.len(),
        ensures
            final(self).wf(),
            final(self).dist@.len() == final(self).hashes@.len(),
            final(self).hash@.len() == old(self).hash@.len(),
            final(self).hashes@ == old(self).hashes@.push(h),
            final(self).payloads@ == old(self).payloads@.push(payload),
    {
        let mut d: usize = 0;
        proof {
            self.lemma_not_full(h);
        }
        while self.probe(h, d).1 != EMPTY
            invariant
                self.wf(),
                d < self.hash@.len(),
                self.full_until(h, d as int),
                !self.full_until(h, self.hash@.len() as int),
                *self == *old(self),
            decreases self.hash@.len() - d,
        {
            proof {
                assert(self.full_until(h, d + 1));
            }
            d = d + 1;
        }
        let slot: usize = self.slot_of(h, d);
        let ghost before = *self;
        let tag: u8 = ((h >> 56) as u8) | 1;
        self.hash.set(slot, (tag, payload));
        proof {
            let n = before.hashes@.len() as int;
            self.hashes@ = before.hashes@.push(h);
            self.payloads@ = before.payloads@.push(payload);
            self.dist@ = before.dist@.push(d as int);
            if payload != EMPTY {
                self.owner@ = before.owner@.update(slot as int, n);
            }
            lemma_insert_keeps(before, *self, h, payload, d as int, slot as int);
        }
    }
}

/// A tag is the hash's top byte, made odd.
pub proof fn lemma_tag_is_top_byte(h: u64)
    ensures
        tag_of(h) == (h / 0x100_0000_0000_0000) / 2 * 2 + 1,
{
    assert((((h >> 56) as u8) | 1) as u64 == (h / 0x100_0000_0000_0000) / 2 * 2 + 1) by (bit_vector);
}

/// A table for `n` items is the smallest that is a power of two, has sixteen
/// slots and is at most half full.
pub proof fn lemma_table_is_smallest(n: nat)
    ensures
        table_slots(n) >= 16,
        table_slots(n) >= 2 * n,
        exists|k: nat| table_slots(n) == #[trigger] pow2(k),
        table_slots(n) > 16 ==> table_slots(n) < 4 * n,
{
    vstd::arithmetic::power2::lemma2_to64();
    lemma_exponent_is_first(n, 4);
    let e = table_exponent(n, 4);
    vstd::arithmetic::power2::lemma_pow2_pos(e);
    if e > 4 {
        lemma_pow2_unfold(e);
    }
    lemma_pow2_grows(4, e);
}

/// Powers of two do not shrink.
proof fn lemma_pow2_grows(a: nat, b: nat)
    requires
        a <= b,
    ensures
        pow2(a) <= pow2(b),
    decreases b - a,
{
    if a < b {
        lemma_pow2_unfold(b);
        lemma_pow2_grows(a, (b - 1) as nat);
    }
}

/// The exponent is the first that does.
proof fn lemma_exponent_is_first(n: nat, k: nat)
    ensures
        table_exponent(n, k) >= k,
        pow2(table_exponent(n, k)) >= 2 * n,
        table_exponent(n, k) > k ==> pow2((table_exponent(n, k) - 1) as nat) < 2 * n,
    decreases 4 * n - pow2(k),
{
    if pow2(k) < 2 * n {
        lemma_pow2_unfold(k + 1);
        lemma_pow2_pos(k);
        lemma_exponent_is_first(n, k + 1);
    }
}

/// The slots on the way of a hash follow one another round the end.
pub proof fn lemma_slot_is_mod(h: u64, cap: int)
    requires
        cap > 0,
    ensures
        forall|e: int|
            0 <= e < cap ==> #[trigger] slot_at(h, cap, e) == (h + e) % cap && 0 <= slot_at(
                h,
                cap,
                e,
            ) < cap,
{
    let q = h as int / cap;
    let r = h as int % cap;
    vstd::arithmetic::div_mod::lemma_fundamental_div_mod(h as int, cap);
    vstd::arithmetic::div_mod::lemma_mod_bound(h as int, cap);
    assert(cap * q == q * cap && (q + 1) * cap == q * cap + cap) by (nonlinear_arith);
    assert forall|e: int| 0 <= e < cap implies #[trigger] slot_at(h, cap, e) == (h + e) % cap && 0
        <= slot_at(h, cap, e) < cap by {
        if r + e < cap {
            vstd::arithmetic::div_mod::lemma_fundamental_div_mod_converse(h + e, cap, q, r + e);
        } else {
            vstd::arithmetic::div_mod::lemma_fundamental_div_mod_converse(
                h + e,
                cap,
                q + 1,
                r + e - cap,
            );
        }
    }
}

/// Filling the first empty slot on the way keeps the table well formed.
proof fn lemma_insert_keeps(
    before: ProbeTable,
    after: ProbeTable,
    h: u64,
    payload: u32,
    d: int,
    slot: int,
)
    requires
        before.wf(),
        0 <= d < before.hash@.len(),
        before.full_until(h, d),
        slot == slot_at(h, before.hash@.len() as int, d),
        before.hash@[slot].1 == EMPTY,
        after.mask == before.mask,
        after.hash@ == before.hash@.update(slot, (tag_of(h), payload)),
        after.hashes@ == before.hashes@.push(h),
        after.payloads@ == before.payloads@.push(payload),
        after.dist@ == before.dist@.push(d),
        after.owner@ == if payload != EMPTY {
            before.owner@.update(slot, before.hashes@.len() as int)
        } else {
            before.owner@
        },
    ensures
        after.wf(),
{
    let cap = before.hash@.len() as int;
    let n = before.hashes@.len() as int;
    assert forall|j: int| #[trigger] after.placed(j) implies {
        &&& 0 <= after.dist@[j] < cap
        &&& after.hash@[after.pos(j)] == (tag_of(after.hashes@[j]), after.payloads@[j])
        &&& after.owner@[after.pos(j)] == j
    } by {
        if j < n {
            assert(before.placed(j));
            assert(after.pos(j) == before.pos(j));
            assert(before.owner@[before.pos(j)] == j);
            assert(before.pos(j) != slot);
        } else {
            assert(after.pos(j) == slot);
        }
    }
    assert forall|s: int| 0 <= s < cap implies {
        &&& (#[trigger] after.owner@[s] >= 0 <==> after.hash@[s].1 != EMPTY)
        &&& after.owner@[s] >= 0 ==> after.placed(after.owner@[s]) && after.pos(after.owner@[s])
            == s
    } by {
        if s != slot {
            assert(after.owner@[s] == before.owner@[s]);
            if before.owner@[s] >= 0 {
                let j = before.owner@[s];
                assert(before.placed(j));
                assert(after.placed(j));
                assert(after.pos(j) == before.pos(j));
            }
        } else {
            assert(before.owner@[s] < 0);
            if payload != EMPTY {
                assert(after.placed(n));
                assert(after.pos(n) == slot);
            }
        }
    }
    assert forall|j: int, e: int|
        #![trigger after.placed(j), slot_at(after.hashes@[j], cap, e)]
        after.placed(j) && 0 <= e < after.dist@[j] implies 0 <= after.owner@[slot_at(
        after.hashes@[j],
        cap,
        e,
    )] < j by {
        let s = slot_at(after.hashes@[j], cap, e);
        if j < n {
            assert(before.placed(j));
            assert(after.hashes@[j] == before.hashes@[j]);
            assert(0 <= before.owner@[slot_at(before.hashes@[j], cap, e)] < j);
            assert(s != slot);
        } else {
            assert(before.item_at(h, e) >= 0);
            assert(0 <= s < cap);
            assert(before.placed(before.owner@[s]));
            assert(s != slot);
        }
    }
    if after.all_placed() {
        assert(after.placed(n));
        assert forall|j: int| 0 <= j < n implies #[trigger] before.placed(j) by {
            assert(after.placed(j));
        }
    }
}

/// How many slots a table for `n` items is made with.
pub fn table_capacity(n: usize) -> (cap: usize)
    requires
        n <= usize::MAX / 4,
    ensures
        cap == table_slots(n as nat),
        cap >= 16,
        cap >= 2 * n,
        is_power_of_two(cap as nat),
{
    let mut cap: usize = 16;
    let ghost mut k: nat = 4;
    proof {
        vstd::arithmetic::power2::lemma2_to64();
        assert(pow2(4) == 16);
        assert(is_power_of_two(16));
    }
    while cap < n * 2
        invariant
            n <= usize::MAX / 4,
            cap == pow2(k),
            cap >= 16,
            is_power_of_two(cap as nat),
            table_exponent(n as nat, 4) == table_exponent(n as nat, k),
        decreases 4 * n - cap,
    {
        proof {
            lemma_double(cap as nat);
            lemma_pow2_unfold(k + 1);
            k = k + 1;
        }
        cap = cap * 2;
    }
    cap
}

/// How many slots a table for `n` items has: sixteen, doubled until twice the
/// items fit.
pub open spec fn table_slots(n: nat) -> nat {
    pow2(table_exponent(n, 4))
}

/// The first exponent from `k` on whose power of two is at least `2 * n`.
pub open spec fn table_exponent(n: nat, k: nat) -> nat
    decreases 4 * n - pow2(k),
{
    if pow2(k) >= 2 * n {
        k
    } else {
        proof {
            lemma_pow2_unfold(k + 1);
            lemma_pow2_pos(k);
        }
        table_exponent(n, k + 1)
    }
}

} // verus!
