//! What a lookup reads, counted in distinct cache lines and pages, for machines
//! that have no counters of their own. Addresses come from outside: where an
//! array lies is not for the library to say.

use crate::bytes::{
    bytes_equal, le_bytes, le_value, lemma_le16, lemma_lies, lemma_lies_cut,
};
use crate::ext::{ext_bytes, lemma_ext_bytes_len, lemma_ext_bytes_most};
use crate::hash::{key_hash, key_hash_of};
use crate::hash_flat::{HashFlat, HashFlatFixed};
use crate::flat::{flat_off, flat_record, lemma_flat_lies, FlatBlob};
use crate::hash_flat::indexes_offsets;
use crate::hash_paged::HashPaged;
use crate::heap_hash::HeapHash;
use crate::layout::{Entry, Layout};
use crate::table::{slot_at, tag_of, ProbeTable, EMPTY};
use std::collections::HashSet;
use vstd::prelude::*;

verus! {

broadcast use vstd::std_specs::hash::group_hash_axioms;

/// A read of so many bytes from an address on.
pub type Read = (int, int);

/// The last address that a read of `len` bytes at `addr` touches. A read of no
/// bytes still touches its address.
pub open spec fn last_byte(addr: int, len: int) -> int {
    addr + if len >= 1 {
        len
    } else {
        1
    } - 1
}

/// The units of `unit` bytes that a read touches.
pub open spec fn units_of(r: Read, unit: int) -> Set<usize> {
    Set::new(|u: usize| r.0 / unit <= u <= last_byte(r.0, r.1) / unit)
}

/// The units that a list of reads touches.
pub open spec fn units_of_all(reads: Seq<Read>, unit: int) -> Set<usize> {
    Set::new(
        |u: usize|
            exists|i: int|
                0 <= i < reads.len() && #[trigger] units_of(reads[i], unit).contains(u),
    )
}

/// The distinct lines and pages that have been read, and how many reads there
/// were.
pub struct Trace {
    pub lines: HashSet<usize>,
    pub pages: HashSet<usize>,
    pub reads: usize,
}

impl Default for Trace {
    fn default() -> (t: Trace)
        ensures
            t.lines@ == Set::<usize>::empty(),
            t.pages@ == Set::<usize>::empty(),
            t.reads == 0,
    {
        Trace { lines: HashSet::new(), pages: HashSet::new(), reads: 0 }
    }
}

impl Trace {
    /// `after` is `before` with the reads of a list added.
    pub open spec fn grown(before: Trace, after: Trace, reads: Seq<Read>) -> bool {
        &&& after.lines@ == before.lines@.union(units_of_all(reads, 64))
        &&& after.pages@ == before.pages@.union(units_of_all(reads, 4096))
        &&& after.reads == before.reads + reads.len()
    }

    /// Records a read of `len` bytes at `addr`.
    #[verifier::spinoff_prover]
    pub fn touch(&mut self, addr: usize, len: usize)
        requires
            last_byte(addr as int, len as int) + 64 <= usize::MAX,
            old(self).reads < usize::MAX,
        ensures
            final(self).lines@ == old(self).lines@.union(units_of((addr as int, len as int), 64)),
            final(self).pages@ == old(self).pages@.union(
                units_of((addr as int, len as int), 4096),
            ),
            final(self).reads == old(self).reads + 1,
    {
        self.reads = self.reads + 1;
        let mut a: usize = addr - addr % 64;
        let end: usize = if len >= 1 {
            addr + len
        } else {
            addr + 1
        };
        let ghost first = a;
        proof {
            assert(self.lines@ =~= old(self).lines@.union(
                Set::new(|u: usize| first as int / 64 <= u < a as int / 64),
            ));
            assert(self.pages@ =~= old(self).pages@.union(
                Set::new(
                    |u: usize|
                        first < a && first as int / 4096 <= u <= (a - 64) as int / 4096,
                ),
            ));
        }
        while a < end
            invariant
                a % 64 == 0,
                first % 64 == 0,
                first <= a,
                first == addr - addr % 64,
                end == last_byte(addr as int, len as int) + 1,
                end + 63 <= usize::MAX,
                a < end + 64,
                self.reads == old(self).reads + 1,
                self.lines@ == old(self).lines@.union(
                    Set::new(|u: usize| first as int / 64 <= u < a as int / 64),
                ),
                self.pages@ == old(self).pages@.union(
                    Set::new(
                        |u: usize|
                            first < a && first as int / 4096 <= u <= (a - 64) as int / 4096,
                    ),
                ),
            decreases end + 64 - a,
        {
            let ghost lines = self.lines@;
            let ghost pages = self.pages@;
            self.lines.insert(a / 64);
            self.pages.insert(a / 4096);
            a = a + 64;
            proof {
                assert(self.lines@ =~= old(self).lines@.union(
                    Set::new(|u: usize| first as int / 64 <= u < a as int / 64),
                ));
                assert(self.pages@ =~= old(self).pages@.union(
                    Set::new(
                        |u: usize|
                            first < a && first as int / 4096 <= u <= (a - 64) as int / 4096,
                    ),
                ));
            }
        }
        proof {
            assert(self.lines@ =~= old(self).lines@.union(
                units_of((addr as int, len as int), 64),
            ));
            assert(self.pages@ =~= old(self).pages@.union(
                units_of((addr as int, len as int), 4096),
            ));
        }
    }

    /// Records a read behind a list of reads.
    fn touch_behind(
        &mut self,
        addr: usize,
        len: usize,
        Ghost(start): Ghost<Trace>,
        Ghost(reads): Ghost<Seq<Read>>,
    )
        requires
            last_byte(addr as int, len as int) + 64 <= usize::MAX,
            old(self).reads < usize::MAX,
            Trace::grown(start, *old(self), reads),
        ensures
            Trace::grown(start, *final(self), reads.push((addr as int, len as int))),
    {
        self.touch(addr, len);
        proof {
            let r = (addr as int, len as int);
            lemma_units_push(reads, r, 64);
            lemma_units_push(reads, r, 4096);
            assert(self.lines@ =~= start.lines@.union(units_of_all(reads.push(r), 64)));
            assert(self.pages@ =~= start.pages@.union(units_of_all(reads.push(r), 4096)));
        }
    }
}

/// One more read touches its own units besides.
proof fn lemma_units_push(reads: Seq<Read>, r: Read, unit: int)
    ensures
        units_of_all(reads.push(r), unit) == units_of_all(reads, unit).union(units_of(r, unit)),
{
    let all = reads.push(r);
    assert forall|u: usize|
        units_of_all(all, unit).contains(u) <==> units_of_all(reads, unit).union(
            units_of(r, unit),
        ).contains(u) by {
        if units_of_all(reads, unit).contains(u) {
            let i = choose|i: int|
                0 <= i < reads.len() && #[trigger] units_of(reads[i], unit).contains(u);
            assert(all[i] == reads[i]);
            assert(units_of(all[i], unit).contains(u));
        }
        if units_of(r, unit).contains(u) {
            assert(all[reads.len() as int] == r);
            assert(units_of(all[reads.len() as int], unit).contains(u));
        }
        if units_of_all(all, unit).contains(u) {
            let i = choose|i: int|
                0 <= i < all.len() && #[trigger] units_of(all[i], unit).contains(u);
            if i < reads.len() {
                assert(all[i] == reads[i]);
                assert(units_of(reads[i], unit).contains(u));
            }
        }
    }
    assert(units_of_all(all, unit) =~= units_of_all(reads, unit).union(units_of(r, unit)));
}

/// A read touches the units that it shares a byte with, and no others. A read of
/// no bytes has the byte at its address.
pub proof fn lemma_read_touches_its_bytes(addr: usize, len: usize, unit: int, u: usize)
    requires
        unit > 0,
    ensures
        units_of((addr as int, len as int), unit).contains(u) <==> u * unit < addr + if len == 0 {
            1
        } else {
            len as int
        } && addr < (u + 1) * unit,
{
    let last = last_byte(addr as int, len as int);
    let lo = addr as int / unit;
    let hi = last / unit;
    vstd::arithmetic::div_mod::lemma_fundamental_div_mod(addr as int, unit);
    vstd::arithmetic::div_mod::lemma_mod_bound(addr as int, unit);
    vstd::arithmetic::div_mod::lemma_fundamental_div_mod(last, unit);
    vstd::arithmetic::div_mod::lemma_mod_bound(last, unit);
    let (a, b) = (addr as int % unit, last % unit);
    assert(u <= hi <==> u * unit <= last) by (nonlinear_arith)
        requires
            last == unit * hi + b,
            0 <= b < unit,
    ;
    assert(lo <= u <==> addr < (u + 1) * unit) by (nonlinear_arith)
        requires
            addr == unit * lo + a,
            0 <= a < unit,
    ;
}

/// What is counted after a list of reads: what was before, the lines of
/// sixty-four bytes and the pages of four thousand and ninety-six that some read
/// shares a byte with, and each read once.
pub proof fn lemma_trace_counts(before: Trace, after: Trace, reads: Seq<Read>, u: usize)
    requires
        Trace::grown(before, after, reads),
        forall|i: int|
            0 <= i < reads.len() ==> 0 <= (#[trigger] reads[i]).0 <= usize::MAX && 0 <= reads[i].1
                <= usize::MAX,
    ensures
        after.lines@.contains(u) <==> before.lines@.contains(u) || exists|i: int|
            0 <= i < reads.len() && u * 64 < (#[trigger] reads[i]).0 + if reads[i].1 == 0 {
                1
            } else {
                reads[i].1
            } && reads[i].0 < (u + 1) * 64,
        after.pages@.contains(u) <==> before.pages@.contains(u) || exists|i: int|
            0 <= i < reads.len() && u * 4096 < (#[trigger] reads[i]).0 + if reads[i].1 == 0 {
                1
            } else {
                reads[i].1
            } && reads[i].0 < (u + 1) * 4096,
        after.reads == before.reads + reads.len(),
{
    assert forall|i: int, unit: int| 0 <= i < reads.len() && unit > 0 implies (
    #[trigger] units_of(reads[i], unit).contains(u) <==> u * unit < reads[i].0 + if reads[i].1
        == 0 {
        1
    } else {
        reads[i].1
    } && reads[i].0 < (u + 1) * unit) by {
        let r = reads[i];
        lemma_read_touches_its_bytes(r.0 as usize, r.1 as usize, unit, u);
    }
    assert forall|i: int| 0 <= i < reads.len() && u * 64 < (#[trigger] reads[i]).0 + if reads[i].1
        == 0 {
        1
    } else {
        reads[i].1
    } && reads[i].0 < (u + 1) * 64 implies after.lines@.contains(u) by {
        assert(units_of(reads[i], 64).contains(u));
    }
    assert forall|i: int|
        0 <= i < reads.len() && u * 4096 < (#[trigger] reads[i]).0 + if reads[i].1 == 0 {
            1
        } else {
            reads[i].1
        } && reads[i].0 < (u + 1) * 4096 implies after.pages@.contains(u) by {
        assert(units_of(reads[i], 4096).contains(u));
    }
}

/// The line and the page of the byte at address `a` are counted.
pub open spec fn byte_counted(t: Trace, a: usize) -> bool {
    t.lines@.contains(a / 64) && t.pages@.contains(a / 4096)
}

/// Every byte from address `from` up to `to` is counted.
pub open spec fn counted(t: Trace, from: int, to: int) -> bool {
    forall|a: usize| from <= a < to ==> #[trigger] byte_counted(t, a)
}

/// Every byte of a listed read is counted.
proof fn lemma_read_is_counted(before: Trace, after: Trace, reads: Seq<Read>, r: Read)
    requires
        Trace::grown(before, after, reads),
        reads.contains(r),
    ensures
        counted(after, r.0, r.0 + r.1),
{
    let i = choose|i: int| 0 <= i < reads.len() && reads[i] == r;
    assert forall|a: usize| r.0 <= a < r.0 + r.1 implies #[trigger] byte_counted(after, a) by {
        assert(units_of(reads[i], 64).contains(a / 64));
        assert(units_of(reads[i], 4096).contains(a / 4096));
    }
}

// ------------------------------------------------------- traced lookups --

/// The reads of a probe from `d` steps on: each slot, and for each item with
/// the tag what is read of it, until an empty slot or a hit.
pub open spec fn probe_reads(
    table: ProbeTable,
    h: u64,
    d: int,
    hbase: int,
    seen: spec_fn(int) -> Seq<Read>,
    hit: spec_fn(int) -> bool,
) -> Seq<Read>
    decreases table.hash@.len() - d,
{
    let cap = table.hash@.len() as int;
    if d < 0 || d >= cap {
        Seq::empty()
    } else {
        let o = table.item_at(h, d);
        let slot = seq![(hbase + 8 * slot_at(h, cap, d), 8int)];
        if o < 0 {
            slot
        } else if tag_of(table.hashes@[o]) == tag_of(h) {
            if hit(o) {
                slot + seen(o)
            } else {
                slot + seen(o) + probe_reads(table, h, d + 1, hbase, seen, hit)
            }
        } else {
            slot + probe_reads(table, h, d + 1, hbase, seen, hit)
        }
    }
}

/// A probe that hits item `o` after `far` steps reads every slot on the way, and
/// of the item all that is to be seen; and no more than that where no other item
/// on the way has the tag.
proof fn lemma_probe_reads_its_way(
    table: ProbeTable,
    h: u64,
    d: int,
    far: int,
    hbase: int,
    seen: spec_fn(int) -> Seq<Read>,
    hit: spec_fn(int) -> bool,
    o: int,
)
    requires
        0 <= d <= far < table.hash@.len(),
        table.item_at(h, far) == o,
        o >= 0,
        tag_of(table.hashes@[o]) == tag_of(h),
        hit(o),
        forall|e: int|
            d <= e < far ==> #[trigger] table.item_at(h, e) >= 0 && !hit(table.item_at(h, e)),
    ensures
        forall|e: int|
            d <= e <= far ==> probe_reads(table, h, d, hbase, seen, hit).contains(
                (hbase + 8 * #[trigger] slot_at(h, table.hash@.len() as int, e), 8int),
            ),
        forall|i: int|
            0 <= i < seen(o).len() ==> probe_reads(table, h, d, hbase, seen, hit).contains(
                #[trigger] seen(o)[i],
            ),
        probe_reads(table, h, d, hbase, seen, hit).len() >= far - d + 1 + seen(o).len(),
        (forall|e: int|
            d <= e < far ==> tag_of(table.hashes@[#[trigger] table.item_at(h, e)]) != tag_of(h))
            ==> probe_reads(table, h, d, hbase, seen, hit).len() == far - d + 1 + seen(o).len(),
    decreases far - d,
{
    let cap = table.hash@.len() as int;
    let all = probe_reads(table, h, d, hbase, seen, hit);
    let at = table.item_at(h, d);
    let slot = seq![(hbase + 8 * slot_at(h, cap, d), 8int)];
    if d == far {
        assert(all == slot + seen(o));
        assert(all[0] == slot[0]);
        assert forall|i: int| 0 <= i < seen(o).len() implies all.contains(#[trigger] seen(o)[i]) by {
            assert(all[i + 1] == seen(o)[i]);
        }
    } else {
        lemma_probe_reads_its_way(table, h, d + 1, far, hbase, seen, hit, o);
        let rest = probe_reads(table, h, d + 1, hbase, seen, hit);
        let skip = if tag_of(table.hashes@[at]) == tag_of(h) {
            slot + seen(at)
        } else {
            slot
        };
        assert(!hit(at) && at >= 0);
        assert(all == skip + rest);
        assert(skip[0] == slot[0]);
        assert(all[0] == slot[0]);
        assert forall|r: Read| rest.contains(r) implies #[trigger] all.contains(r) by {
            let i = choose|i: int| 0 <= i < rest.len() && rest[i] == r;
            assert(all[skip.len() + i] == r);
        }
        assert forall|e: int| d <= e <= far implies all.contains(
            (hbase + 8 * #[trigger] slot_at(h, cap, e), 8int),
        ) by {
            if e > d {
                assert(rest.contains((hbase + 8 * slot_at(h, cap, e), 8int)));
            }
        }
        assert forall|i: int| 0 <= i < seen(o).len() implies all.contains(#[trigger] seen(o)[i]) by {
            assert(rest.contains(seen(o)[i]));
        }
    }
}

/// The slots that a lookup of `key` has to look at, from the one that the hash
/// falls on to one that holds payload `p`, are counted, and nothing but them and
/// `more` reads of the item itself where no other tag on the way is the key's.
pub open spec fn way_counted(
    table: ProbeTable,
    hbase: int,
    key: Seq<u8>,
    p: u32,
    more: nat,
    before: Trace,
    after: Trace,
) -> bool {
    let cap = table.hash@.len() as int;
    let h = key_hash_of(key) as int;
    exists|d: int|
        #![trigger table.hash@[(h + d) % cap]]
        {
            &&& 0 <= d < cap
            &&& table.hash@[(h + d) % cap].1 == p
            &&& forall|e: int|
                0 <= e <= d ==> counted(
                    after,
                    hbase + 8 * (#[trigger] ((h + e) % cap)),
                    hbase + 8 * ((h + e) % cap) + 8,
                )
            &&& after.reads >= before.reads + d + 1 + more
            &&& (forall|e: int|
                0 <= e < d ==> (#[trigger] table.hash@[(h + e) % cap]).0 != tag_of(
                    key_hash_of(key),
                )) ==> after.reads == before.reads + d + 1 + more
        }
}

/// What a traced lookup of an item's key counts, whatever is seen of an item.
proof fn lemma_hit_is_counted(
    table: ProbeTable,
    key: Seq<u8>,
    hbase: int,
    seen: spec_fn(int) -> Seq<Read>,
    hit: spec_fn(int) -> bool,
    o: int,
    before: Trace,
    after: Trace,
)
    requires
        table.wf(),
        table.placed(o),
        table.hashes@[o] == key_hash_of(key),
        hit(o),
        forall|j: int| 0 <= j < o ==> !#[trigger] hit(j),
        Trace::grown(before, after, probe_reads(table, key_hash_of(key), 0, hbase, seen, hit)),
    ensures
        way_counted(table, hbase, key, table.payloads@[o], seen(o).len(), before, after),
        forall|i: int|
            0 <= i < seen(o).len() ==> counted(
                after,
                (#[trigger] seen(o)[i]).0,
                seen(o)[i].0 + seen(o)[i].1,
            ),
{
    let h = key_hash_of(key);
    let cap = table.hash@.len() as int;
    let d = table.dist@[o];
    let reads = probe_reads(table, h, 0, hbase, seen, hit);
    table.lemma_item_lies(o);
    lemma_probe_reads_its_way(table, h, 0, d, hbase, seen, hit, o);
    assert forall|i: int| 0 <= i < seen(o).len() implies counted(
        after,
        (#[trigger] seen(o)[i]).0,
        seen(o)[i].0 + seen(o)[i].1,
    ) by {
        lemma_read_is_counted(before, after, reads, seen(o)[i]);
    }
    assert forall|e: int| 0 <= e <= d implies counted(
        after,
        hbase + 8 * (#[trigger] ((h as int + e) % cap)),
        hbase + 8 * ((h as int + e) % cap) + 8,
    ) by {
        assert(slot_at(h, cap, e) == (h + e) % cap);
        lemma_read_is_counted(before, after, reads, (hbase + 8 * slot_at(h, cap, e), 8int));
    }
    if forall|e: int|
        0 <= e < d ==> (#[trigger] table.hash@[(h as int + e) % cap]).0 != tag_of(h) {
        assert forall|e: int| 0 <= e < d implies tag_of(
            table.hashes@[#[trigger] table.item_at(h, e)],
        ) != tag_of(h) by {
            assert(slot_at(h, cap, e) == (h + e) % cap);
            assert(table.hash@[(h as int + e) % cap].0 != tag_of(h));
        }
    }
    assert(table.hash@[(h as int + d) % cap].1 == table.payloads@[o]);
}

/// A probe that hits nothing reads every slot up to the first empty one, and
/// nothing else where no item on the way has the tag.
proof fn lemma_miss_reads_its_way(
    table: ProbeTable,
    h: u64,
    d: int,
    far: int,
    hbase: int,
    seen: spec_fn(int) -> Seq<Read>,
    hit: spec_fn(int) -> bool,
)
    requires
        0 <= d <= far < table.hash@.len(),
        table.item_at(h, far) < 0,
        forall|e: int|
            d <= e < far ==> #[trigger] table.item_at(h, e) >= 0 && !hit(table.item_at(h, e)),
    ensures
        forall|e: int|
            d <= e <= far ==> probe_reads(table, h, d, hbase, seen, hit).contains(
                (hbase + 8 * #[trigger] slot_at(h, table.hash@.len() as int, e), 8int),
            ),
        probe_reads(table, h, d, hbase, seen, hit).len() >= far - d + 1,
        (forall|e: int|
            d <= e < far ==> tag_of(table.hashes@[#[trigger] table.item_at(h, e)]) != tag_of(h))
            ==> probe_reads(table, h, d, hbase, seen, hit).len() == far - d + 1,
    decreases far - d,
{
    let cap = table.hash@.len() as int;
    let all = probe_reads(table, h, d, hbase, seen, hit);
    let at = table.item_at(h, d);
    let slot = seq![(hbase + 8 * slot_at(h, cap, d), 8int)];
    if d == far {
        assert(all == slot);
        assert(all[0] == slot[0]);
    } else {
        lemma_miss_reads_its_way(table, h, d + 1, far, hbase, seen, hit);
        let rest = probe_reads(table, h, d + 1, hbase, seen, hit);
        let skip = if tag_of(table.hashes@[at]) == tag_of(h) {
            slot + seen(at)
        } else {
            slot
        };
        assert(!hit(at) && at >= 0);
        assert(all == skip + rest);
        assert(skip[0] == slot[0]);
        assert(all[0] == slot[0]);
        assert forall|e: int| d <= e <= far implies all.contains(
            (hbase + 8 * #[trigger] slot_at(h, cap, e), 8int),
        ) by {
            if e > d {
                let r = (hbase + 8 * slot_at(h, cap, e), 8int);
                assert(rest.contains(r));
                let i = choose|i: int| 0 <= i < rest.len() && rest[i] == r;
                assert(all[skip.len() + i] == r);
            }
        }
    }
}

/// What a traced lookup of a key that no item has counts.
proof fn lemma_miss_is_counted(
    table: ProbeTable,
    key: Seq<u8>,
    hbase: int,
    seen: spec_fn(int) -> Seq<Read>,
    hit: spec_fn(int) -> bool,
    before: Trace,
    after: Trace,
)
    requires
        table.wf(),
        table.hashes@.len() < table.hash@.len(),
        forall|j: int| #[trigger] table.placed(j) ==> !hit(j),
        Trace::grown(before, after, probe_reads(table, key_hash_of(key), 0, hbase, seen, hit)),
    ensures
        way_counted(table, hbase, key, EMPTY, 0, before, after),
{
    let h = key_hash_of(key);
    let cap = table.hash@.len() as int;
    let d = table.lemma_way_ends(h);
    let reads = probe_reads(table, h, 0, hbase, seen, hit);
    crate::table::lemma_slot_is_mod(h, cap);
    lemma_miss_reads_its_way(table, h, 0, d, hbase, seen, hit);
    assert forall|e: int| 0 <= e <= d implies counted(
        after,
        hbase + 8 * (#[trigger] ((h as int + e) % cap)),
        hbase + 8 * ((h as int + e) % cap) + 8,
    ) by {
        assert(slot_at(h, cap, e) == (h + e) % cap);
        lemma_read_is_counted(before, after, reads, (hbase + 8 * slot_at(h, cap, e), 8int));
    }
    if forall|e: int|
        0 <= e < d ==> (#[trigger] table.hash@[(h as int + e) % cap]).0 != tag_of(h) {
        assert forall|e: int| 0 <= e < d implies tag_of(
            table.hashes@[#[trigger] table.item_at(h, e)],
        ) != tag_of(h) by {
            assert(table.hash@[(h as int + e) % cap].0 != tag_of(h));
        }
    }
    assert(table.hash@[(h as int + d) % cap].1 == EMPTY);
}

/// Where the parts of a heap layout lie.
pub struct HeapAddresses {
    /// The slots of the table, eight bytes each.
    pub hash: usize,
    /// The entry records.
    pub entries: usize,
    /// Bytes of an entry record.
    pub entry_size: usize,
    /// The bytes of each key.
    pub keys: Vec<usize>,
}

impl HeapHash {
    /// The addresses are those of this layout: one for each key, and room for
    /// everything behind the bases.
    pub open spec fn placed_at(self, at: HeapAddresses) -> bool {
        let n = self.entries@.len();
        &&& at.keys@.len() == n
        &&& at.hash + 8 * self.table.hash@.len() + 64 <= usize::MAX
        &&& at.entries + n * at.entry_size + 64 <= usize::MAX
        &&& forall|i: int|
            0 <= i < n ==> #[trigger] at.keys@[i] + self.entries@[i].0@.len() + 64 <= usize::MAX
    }

    /// What is read of entry `i`: its record, then the key that it points at.
    pub open spec fn entry_reads(self, at: HeapAddresses, i: int) -> Seq<Read> {
        seq![
            (at.entries + i * at.entry_size, at.entry_size as int),
            (at.keys@[i] as int, self.entries@[i].0@.len() as int),
        ]
    }

    /// Everything that a lookup of `key` reads.
    pub open spec fn lookup_reads(self, at: HeapAddresses, key: Seq<u8>) -> Seq<Read> {
        probe_reads(
            self.table,
            key_hash_of(key),
            0,
            at.hash as int,
            |i: int| self.entry_reads(at, i),
            |i: int| self.entries@[i].0@ == key,
        )
    }

    /// Looks `key` up and records what is read on the way.
    pub fn trace_lookup(&self, key: &[u8], at: &HeapAddresses, t: &mut Trace) -> (traced: bool)
        requires
            self.wf(),
            self.placed_at(*at),
            old(t).reads + 4 * self.table.hash@.len() <= usize::MAX,
        ensures
            traced,
            Trace::grown(*old(t), *final(t), self.lookup_reads(*at, key@)),
    {
        let h: u64 = key_hash(key);
        let tag: u8 = ((h >> 56) as u8) | 1;
        let ghost cap = self.table.hash@.len() as int;
        let ghost start = *t;
        let ghost seen = |i: int| self.entry_reads(*at, i);
        let ghost hit = |i: int| self.entries@[i].0@ == key@;
        let ghost all = self.lookup_reads(*at, key@);
        let ghost mut done: Seq<Read> = Seq::empty();
        let ghost wanted = hit;
        proof {
            self.table.lemma_search_start(h, wanted);
            assert(units_of_all(done, 64) =~= Set::empty());
            assert(units_of_all(done, 4096) =~= Set::empty());
            assert(start.lines@ =~= start.lines@.union(Set::empty()));
            assert(start.pages@ =~= start.pages@.union(Set::empty()));
            assert(all =~= done + all);
        }
        let mut d: usize = 0;
        loop
            invariant
                self.wf(),
                self.placed_at(*at),
                cap == self.table.hash@.len(),
                start.reads + 4 * cap <= usize::MAX,
                start == *old(t),
                all == self.lookup_reads(*at, key@),
                h == key_hash_of(key@),
                tag == tag_of(h),
                seen == (|i: int| self.entry_reads(*at, i)),
                hit == (|i: int| self.entries@[i].0@ == key@),
                wanted == hit,
                self.table.searched(h, d as int, wanted),
                Trace::grown(start, *t, done),
                done.len() <= 4 * d,
                all == done + probe_reads(self.table, h, d as int, at.hash as int, seen, hit),
            decreases cap - d,
        {
            let slot: usize = self.table.slot_of(h, d);
            t.touch_behind(at.hash + slot * 8, 8, Ghost(start), Ghost(done));
            let (tg, i) = self.table.probe(h, d);
            let ghost o = self.table.item_at(h, d as int);
            let ghost before = done;
            proof {
                done = done.push((at.hash + slot * 8, 8int));
            }
            if i == EMPTY {
                proof {
                    assert(all =~= done);
                }
                return true;
            }
            if tg == tag {
                let e = &self.entries[i as usize];
                proof {
                    lemma_item_within(i as int, self.entries@.len() as int, at.entry_size as int);
                }
                t.touch_behind(
                    at.entries + i as usize * at.entry_size,
                    at.entry_size,
                    Ghost(start),
                    Ghost(done),
                );
                proof {
                    done = done.push((
                        at.entries + i * at.entry_size,
                        at.entry_size as int,
                    ));
                    assert(at.keys@[i as int] + self.entries@[i as int].0@.len() + 64
                        <= usize::MAX);
                }
                t.touch_behind(at.keys[i as usize], e.0.len(), Ghost(start), Ghost(done));
                proof {
                    done = done.push((
                        at.keys@[i as int] as int,
                        self.entries@[i as int].0@.len() as int,
                    ));
                }
                if bytes_equal(&e.0, key) {
                    proof {
                        assert(seen(o) =~= self.entry_reads(*at, i as int));
                        assert(all =~= done);
                    }
                    return true;
                }
            }
            proof {
                self.table.lemma_search_step(h, d as int, wanted);
                if tg == tag {
                    assert(seen(o) =~= self.entry_reads(*at, i as int));
                }
                assert(all =~= done + probe_reads(
                    self.table,
                    h,
                    d + 1,
                    at.hash as int,
                    seen,
                    hit,
                ));
            }
            d = d + 1;
        }
    }
}

/// What is seen of each item of a heap layout.
spec fn heap_seen(l: HeapHash, at: HeapAddresses) -> spec_fn(int) -> Seq<Read> {
    |i: int| l.entry_reads(at, i)
}

/// Which items of a heap layout have the key.
spec fn heap_hit(l: HeapHash, key: Seq<u8>) -> spec_fn(int) -> bool {
    |i: int| l.entries@[i].0@ == key
}

impl HeapHash {
    /// What a lookup of a key counts: the slots up to the key's, then every byte
    /// of the first entry's record that has the key, and every byte of its key.
    pub proof fn lemma_lookup_is_counted(
        self,
        at: HeapAddresses,
        key: Seq<u8>,
        i: int,
        before: Trace,
        after: Trace,
    )
        requires
            self.wf(),
            0 <= i < self.entries@.len(),
            self.entries@[i].0@ == key,
            forall|j: int| 0 <= j < i ==> (#[trigger] self.entries@[j]).0@ != key,
            Trace::grown(before, after, self.lookup_reads(at, key)),
        ensures
            way_counted(self.table, at.hash as int, key, i as u32, 2, before, after),
            counted(
                after,
                at.entries + i * at.entry_size,
                at.entries + i * at.entry_size + at.entry_size,
            ),
            counted(after, at.keys@[i] as int, at.keys@[i] + key.len()),
    {
        let seen = heap_seen(self, at);
        let hit = heap_hit(self, key);
        assert(self.lookup_reads(at, key) == probe_reads(
            self.table,
            key_hash_of(key),
            0,
            at.hash as int,
            seen,
            hit,
        ));
        assert(self.table.placed(i)) by {
            assert(self.table.payloads@[i] == i);
        }
        assert(self.table.hashes@[i] == key_hash_of(key));
        lemma_hit_is_counted(self.table, key, at.hash as int, seen, hit, i, before, after);
        assert(seen(i)[0] == (at.entries + i * at.entry_size, at.entry_size as int));
        assert(seen(i)[1] == (at.keys@[i] as int, key.len() as int));
    }

    /// What a lookup of a key that is not there counts: the slots up to an empty
    /// one.
    pub proof fn lemma_miss_counts_slots(
        self,
        at: HeapAddresses,
        key: Seq<u8>,
        before: Trace,
        after: Trace,
    )
        requires
            self.wf(),
            forall|j: int| 0 <= j < self.entries@.len() ==> (#[trigger] self.entries@[j]).0@ != key,
            Trace::grown(before, after, self.lookup_reads(at, key)),
        ensures
            way_counted(self.table, at.hash as int, key, EMPTY, 0, before, after),
    {
        let seen = heap_seen(self, at);
        let hit = heap_hit(self, key);
        assert(self.lookup_reads(at, key) == probe_reads(
            self.table,
            key_hash_of(key),
            0,
            at.hash as int,
            seen,
            hit,
        ));
        lemma_miss_is_counted(self.table, key, at.hash as int, seen, hit, before, after);
    }
}

/// Where the parts of a layout of flat records lie.
#[derive(Clone, Copy)]
pub struct FlatAddresses {
    /// The slots of the table, eight bytes each.
    pub hash: usize,
    pub blob: usize,
}

/// How many bytes behind its key a record is counted with.
pub open spec fn flat_tail(fixed: bool) -> int {
    if fixed {
        16
    } else {
        24
    }
}

/// There is room behind the bases for everything that a lookup may count.
pub open spec fn flat_placed_at(flat: FlatBlob, table: ProbeTable, at: FlatAddresses) -> bool {
    &&& at.hash + 8 * table.hash@.len() + 64 <= usize::MAX
    &&& at.blob + flat.blob@.len() + 128 <= usize::MAX
}

/// Everything that a lookup of `key` reads: for each item with the tag one
/// contiguous record.
pub open spec fn flat_reads(
    flat: FlatBlob,
    table: ProbeTable,
    at: FlatAddresses,
    key: Seq<u8>,
) -> Seq<Read> {
    let es = flat.model@;
    probe_reads(
        table,
        key_hash_of(key),
        0,
        at.hash as int,
        |i: int|
            seq![
                (
                    at.blob + flat_off(es, i, flat.fixed),
                    2 + es[i].0.len() + flat_tail(flat.fixed),
                ),
            ],
        |i: int| es[i].0 == key,
    )
}

/// Looks `key` up in flat records and records what is read on the way.
fn trace_flat(flat: &FlatBlob, table: &ProbeTable, key: &[u8], at: FlatAddresses, t: &mut Trace) -> (
    traced: bool)
    requires
        flat.wf(),
        indexes_offsets(*table, flat.model@, flat.fixed),
        flat_placed_at(*flat, *table, at),
        old(t).reads + 4 * table.hash@.len() <= usize::MAX,
    ensures
        traced,
        Trace::grown(*old(t), *final(t), flat_reads(*flat, *table, at, key@)),
{
    let h: u64 = key_hash(key);
    let tag: u8 = ((h >> 56) as u8) | 1;
    let tail: usize = if flat.fixed {
        16
    } else {
        24
    };
    let ghost es = flat.model@;
    let ghost cap = table.hash@.len() as int;
    let ghost start = *t;
    let ghost seen = |i: int|
        seq![
            (at.blob + flat_off(es, i, flat.fixed), 2 + es[i].0.len() + flat_tail(flat.fixed)),
        ];
    let ghost hit = |i: int| es[i].0 == key@;
    let ghost all = flat_reads(*flat, *table, at, key@);
    let ghost mut done: Seq<Read> = Seq::empty();
    proof {
        table.lemma_search_start(h, hit);
        assert forall|j: int| 0 <= j < es.len() implies #[trigger] table.placed(j) && flat_off(
            es,
            j,
            flat.fixed,
        ) < u32::MAX by {
            lemma_flat_lies(es, es.len(), j, flat.fixed);
        }
        assert(units_of_all(done, 64) =~= Set::empty());
        assert(units_of_all(done, 4096) =~= Set::empty());
        assert(start.lines@ =~= start.lines@.union(Set::empty()));
        assert(start.pages@ =~= start.pages@.union(Set::empty()));
        assert(all =~= done + all);
    }
    let mut d: usize = 0;
    loop
        invariant
            flat.wf(),
            indexes_offsets(*table, flat.model@, flat.fixed),
            flat_placed_at(*flat, *table, at),
            tail == flat_tail(flat.fixed),
            es == flat.model@,
            cap == table.hash@.len(),
            start.reads + 4 * cap <= usize::MAX,
            start == *old(t),
            all == flat_reads(*flat, *table, at, key@),
            h == key_hash_of(key@),
            tag == tag_of(h),
            seen == (|i: int|
                seq![
                    (
                        at.blob + flat_off(es, i, flat.fixed),
                        2 + es[i].0.len() + flat_tail(flat.fixed),
                    ),
                ]),
            hit == (|i: int| es[i].0 == key@),
            table.searched(h, d as int, hit),
            forall|j: int|
                0 <= j < es.len() ==> #[trigger] table.placed(j) && flat_off(es, j, flat.fixed)
                    < u32::MAX,
            Trace::grown(start, *t, done),
            done.len() <= 4 * d,
            all == done + probe_reads(*table, h, d as int, at.hash as int, seen, hit),
        decreases cap - d,
    {
        let slot: usize = table.slot_of(h, d);
        t.touch_behind(at.hash + slot * 8, 8, Ghost(start), Ghost(done));
        let (tg, off) = table.probe(h, d);
        let ghost o = table.item_at(h, d as int);
        proof {
            done = done.push((at.hash + slot * 8, 8int));
        }
        if off == EMPTY {
            proof {
                assert(all =~= done);
            }
            return true;
        }
        if tg == tag {
            let p: usize = off as usize;
            let kl: usize = flat.key_len(p, Ghost(o));
            t.touch_behind(at.blob + p, 2 + kl + tail, Ghost(start), Ghost(done));
            proof {
                done = done.push((at.blob + p, 2 + kl + tail));
                assert(seen(o) =~= seq![(at.blob + p, 2 + kl + tail)]);
            }
            if flat.matches(p, key, Ghost(o)).is_some() {
                proof {
                    assert(all =~= done);
                }
                return true;
            }
        }
        proof {
            table.lemma_search_step(h, d as int, hit);
            assert(all =~= done + probe_reads(*table, h, d + 1, at.hash as int, seen, hit));
        }
        d = d + 1;
    }
}

/// A record whose extent is of fixed width is counted with just its own bytes; one whose
/// extent is packed with twenty-four behind its key.
pub proof fn lemma_flat_record_is_counted(es: Seq<Entry>, i: int)
    requires
        0 <= i < es.len(),
    ensures
        flat_off(es, i, true) + 2 + es[i].0.len() + flat_tail(true) == flat_off(es, i + 1, true),
        flat_tail(false) == flat_tail(true) + 8,
{
    crate::flat::lemma_flat_lies(es, es.len(), i, true);
    crate::ext::lemma_ext_bytes_len(es[i].1, true);
    crate::bytes::lemma_le16(es[i].0.len() as u16);
}

/// What is seen of each item of flat records.
spec fn flat_seen(flat: FlatBlob, at: FlatAddresses) -> spec_fn(int) -> Seq<Read> {
    let es = flat.model@;
    |i: int|
        seq![
            (at.blob + flat_off(es, i, flat.fixed), 2 + es[i].0.len() + flat_tail(flat.fixed)),
        ]
}

/// Which items of flat records have the key.
spec fn flat_hit(flat: FlatBlob, key: Seq<u8>) -> spec_fn(int) -> bool {
    let es = flat.model@;
    |i: int| es[i].0 == key
}

/// What a lookup of a key in flat records counts: the slots up to the key's, then
/// every byte of the first record that has the key. The record lies where the
/// slot says: the key's length, the key, and the extent.
pub proof fn lemma_flat_lookup_is_counted(
    flat: FlatBlob,
    table: ProbeTable,
    at: FlatAddresses,
    key: Seq<u8>,
    i: int,
    before: Trace,
    after: Trace,
) -> (p: u32)
    requires
        flat.wf(),
        indexes_offsets(table, flat.model@, flat.fixed),
        0 <= i < flat.model@.len(),
        flat.model@[i].0 == key,
        forall|j: int| 0 <= j < i ==> (#[trigger] flat.model@[j]).0 != key,
        Trace::grown(before, after, flat_reads(flat, table, at, key)),
    ensures
        ({
            let e = flat.model@[i];
            let len = 2 + key.len() + ext_bytes(e.1, flat.fixed).len();
            &&& way_counted(table, at.hash as int, key, p, 1, before, after)
            &&& counted(after, at.blob + p, at.blob + p + len)
            &&& p + len <= flat.blob@.len()
            &&& le_value(flat.blob@.subrange(p as int, p + 2)) == key.len()
            &&& flat.blob@.subrange(p + 2, p + 2 + key.len()) == key
            &&& flat.blob@.subrange(p + 2 + key.len(), p + len) == ext_bytes(e.1, flat.fixed)
        }),
{
    let es = flat.model@;
    let e = es[i];
    let seen = flat_seen(flat, at);
    let hit = flat_hit(flat, key);
    assert(flat_reads(flat, table, at, key) == probe_reads(
        table,
        key_hash_of(key),
        0,
        at.hash as int,
        seen,
        hit,
    ));
    lemma_flat_lies(es, es.len(), i, flat.fixed);
    let off = flat_off(es, i, flat.fixed);
    assert(table.payloads@[i] == off as u32);
    assert(table.placed(i));
    assert(table.hashes@[i] == key_hash_of(key));
    lemma_hit_is_counted(table, key, at.hash as int, seen, hit, i, before, after);
    assert(seen(i)[0] == (at.blob + off, 2 + key.len() + flat_tail(flat.fixed)));
    lemma_ext_bytes_len(e.1, flat.fixed);
    lemma_ext_bytes_most(e.1, flat.fixed);
    let l = le_bytes((key.len() as u16) as nat, 2);
    let x = ext_bytes(e.1, flat.fixed);
    lemma_le16(key.len() as u16);
    assert(flat_record(e, flat.fixed) == l + (key + x)) by {
        assert(flat_record(e, flat.fixed) =~= l + (key + x));
    }
    lemma_lies_cut(flat.blob@, off, l, key + x);
    lemma_lies_cut(flat.blob@, off + 2, key, x);
    lemma_lies(flat.blob@, off, l);
    lemma_lies(flat.blob@, off + 2, key);
    lemma_lies(flat.blob@, off + 2 + key.len(), x);
    off as u32
}

/// What a lookup in flat records counts of a key that is not there: the slots up
/// to an empty one.
pub proof fn lemma_flat_miss_counts_slots(
    flat: FlatBlob,
    table: ProbeTable,
    at: FlatAddresses,
    key: Seq<u8>,
    before: Trace,
    after: Trace,
)
    requires
        flat.wf(),
        indexes_offsets(table, flat.model@, flat.fixed),
        forall|j: int| 0 <= j < flat.model@.len() ==> (#[trigger] flat.model@[j]).0 != key,
        Trace::grown(before, after, flat_reads(flat, table, at, key)),
    ensures
        way_counted(table, at.hash as int, key, EMPTY, 0, before, after),
{
    let seen = flat_seen(flat, at);
    let hit = flat_hit(flat, key);
    assert(flat_reads(flat, table, at, key) == probe_reads(
        table,
        key_hash_of(key),
        0,
        at.hash as int,
        seen,
        hit,
    ));
    lemma_miss_is_counted(table, key, at.hash as int, seen, hit, before, after);
}

impl HashFlat {
    /// Looks `key` up and records what is read on the way.
    pub fn trace_lookup(&self, key: &[u8], at: FlatAddresses, t: &mut Trace) -> (traced: bool)
        requires
            self.wf(),
            flat_placed_at(self.flat, self.table, at),
            old(t).reads + 4 * self.table.hash@.len() <= usize::MAX,
        ensures
            traced,
            Trace::grown(*old(t), *final(t), flat_reads(self.flat, self.table, at, key@)),
    {
        trace_flat(&self.flat, &self.table, key, at, t)
    }
}

impl HashFlatFixed {
    /// Looks `key` up and records what is read on the way.
    pub fn trace_lookup(&self, key: &[u8], at: FlatAddresses, t: &mut Trace) -> (traced: bool)
        requires
            self.wf(),
            flat_placed_at(self.flat, self.table, at),
            old(t).reads + 4 * self.table.hash@.len() <= usize::MAX,
        ensures
            traced,
            Trace::grown(*old(t), *final(t), flat_reads(self.flat, self.table, at, key@)),
    {
        trace_flat(&self.flat, &self.table, key, at, t)
    }
}

/// Where the parts of a layout of paged records lie.
#[derive(Clone, Copy)]
pub struct PagedAddresses {
    /// The slots of the table, eight bytes each.
    pub hash: usize,
    pub pages: usize,
    /// The page offsets, four bytes each.
    pub page_dir: usize,
}

impl HashPaged {
    /// There is room behind the bases for everything that a lookup may count.
    pub open spec fn placed_at(self, at: PagedAddresses) -> bool {
        &&& at.hash + 8 * self.table.hash@.len() + 64 <= usize::MAX
        &&& at.pages + self.blob.pages@.len() + 128 <= usize::MAX
        &&& at.page_dir + 4 * self.blob.page_dir@.len() + 64 <= usize::MAX
    }

    /// What is read of the entry at `rank`: its page's directory entry, the
    /// page's head and prefix, the slot, and the record.
    pub open spec fn rank_reads(self, at: PagedAddresses, rank: int) -> Seq<Read> {
        let (base, prefix, rec) = self.blob.place(rank);
        let pp = self.blob.per_page as int;
        seq![
            (at.page_dir + (rank / pp) * 4, 4int),
            (at.pages + base, 4 + prefix),
            (at.pages + base + 4 + prefix + 2 * (rank % pp), 2int),
            (at.pages + rec, 34int),
        ]
    }

    /// Everything that a lookup of `key` reads.
    pub open spec fn lookup_reads(self, at: PagedAddresses, key: Seq<u8>) -> Seq<Read> {
        probe_reads(
            self.table,
            key_hash_of(key),
            0,
            at.hash as int,
            |i: int| self.rank_reads(at, i),
            |i: int| self.blob.model@[i].0 == key,
        )
    }

    /// Looks `key` up and records what is read on the way.
    pub fn trace_lookup(&self, key: &[u8], at: PagedAddresses, t: &mut Trace) -> (traced: bool)
        requires
            self.wf(),
            self.placed_at(at),
            old(t).reads + 5 * self.table.hash@.len() <= usize::MAX,
        ensures
            traced,
            Trace::grown(*old(t), *final(t), self.lookup_reads(at, key@)),
    {
        let h: u64 = key_hash(key);
        let tag: u8 = ((h >> 56) as u8) | 1;
        let ghost es = self.blob.model@;
        let ghost cap = self.table.hash@.len() as int;
        let ghost start = *t;
        let ghost seen = |i: int| self.rank_reads(at, i);
        let ghost hit = |i: int| self.blob.model@[i].0 == key@;
        let ghost all = self.lookup_reads(at, key@);
        let ghost mut done: Seq<Read> = Seq::empty();
        proof {
            self.table.lemma_search_start(h, hit);
            assert(units_of_all(done, 64) =~= Set::empty());
            assert(units_of_all(done, 4096) =~= Set::empty());
            assert(start.lines@ =~= start.lines@.union(Set::empty()));
            assert(start.pages@ =~= start.pages@.union(Set::empty()));
            assert(all =~= done + all);
        }
        let mut d: usize = 0;
        loop
            invariant
                self.wf(),
                self.placed_at(at),
                es == self.blob.model@,
                cap == self.table.hash@.len(),
                start.reads + 5 * cap <= usize::MAX,
                start == *old(t),
                all == self.lookup_reads(at, key@),
                h == key_hash_of(key@),
                tag == tag_of(h),
                seen == (|i: int| self.rank_reads(at, i)),
                hit == (|i: int| self.blob.model@[i].0 == key@),
                self.table.searched(h, d as int, hit),
                Trace::grown(start, *t, done),
                done.len() <= 5 * d,
                all == done + probe_reads(self.table, h, d as int, at.hash as int, seen, hit),
            decreases cap - d,
        {
            let slot: usize = self.table.slot_of(h, d);
            t.touch_behind(at.hash + slot * 8, 8, Ghost(start), Ghost(done));
            let (tg, rank) = self.table.probe(h, d);
            let ghost o = self.table.item_at(h, d as int);
            let ghost probed = done.push((at.hash + slot * 8, 8int));
            proof {
                done = probed;
            }
            if rank == EMPTY {
                proof {
                    assert(all =~= done);
                }
                return true;
            }
            assert(self.table.placed(o) && o == rank);
            if tg == tag {
                let hit_here: bool = self.trace_rank(
                    rank as usize,
                    key,
                    at,
                    t,
                    Ghost(start),
                    Ghost(done),
                );
                proof {
                    done = done + self.rank_reads(at, o);
                    assert(seen(o) == self.rank_reads(at, o));
                }
                if hit_here {
                    proof {
                        assert(all =~= done);
                    }
                    return true;
                }
            }
            proof {
                self.table.lemma_search_step(h, d as int, hit);
                assert(all =~= done + probe_reads(
                    self.table,
                    h,
                    d + 1,
                    at.hash as int,
                    seen,
                    hit,
                ));
            }
            d = d + 1;
        }
    }

    /// Records what is read of the entry at `rank`, and says whether it is the
    /// one under `key`.
    fn trace_rank(
        &self,
        rank: usize,
        key: &[u8],
        at: PagedAddresses,
        t: &mut Trace,
        Ghost(start): Ghost<Trace>,
        Ghost(done): Ghost<Seq<Read>>,
    ) -> (hit: bool)
        requires
            self.wf(),
            self.placed_at(at),
            rank < self.blob.model@.len(),
            Trace::grown(start, *old(t), done),
            old(t).reads + 4 <= usize::MAX,
        ensures
            Trace::grown(start, *final(t), done + self.rank_reads(at, rank as int)),
            hit == (self.blob.model@[rank as int].0 == key@),
    {
        let page: usize = rank / self.blob.per_page;
        let slot_in: usize = rank % self.blob.per_page;
        proof {
            self.blob.lemma_place_bounds(rank as int);
            assert(self.blob.page_dir@.len() == self.blob.page_dir.len());
        }
        t.touch_behind(at.page_dir + page * 4, 4, Ghost(start), Ghost(done));
        let ghost d1 = done.push((at.page_dir + page * 4, 4int));
        let located: Option<(usize, usize, usize)> = self.blob.locate(rank);
        assert(located is Some);
        if let Some((base, prefix, rec)) = located {
            t.touch_behind(at.pages + base, 4 + prefix, Ghost(start), Ghost(d1));
            let ghost d2 = d1.push((at.pages + base, 4 + prefix));
            t.touch_behind(
                at.pages + base + 4 + prefix + 2 * slot_in,
                2,
                Ghost(start),
                Ghost(d2),
            );
            let ghost d3 = d2.push((at.pages + base + 4 + prefix + 2 * slot_in, 2int));
            t.touch_behind(at.pages + rec, 34, Ghost(start), Ghost(d3));
            proof {
                assert(d3.push((at.pages + rec, 34int)) =~= done + self.rank_reads(
                    at,
                    rank as int,
                ));
            }
            self.blob.matches(base, prefix, rec, key).is_some()
        } else {
            false
        }
    }
}

/// What is seen of each item of paged records.
spec fn paged_seen(l: HashPaged, at: PagedAddresses) -> spec_fn(int) -> Seq<Read> {
    |i: int| l.rank_reads(at, i)
}

/// Which items of paged records have the key.
spec fn paged_hit(l: HashPaged, key: Seq<u8>) -> spec_fn(int) -> bool {
    |i: int| l.blob.model@[i].0 == key
}

impl HashPaged {
    /// What a lookup of a key counts: the slots up to the key's, the directory
    /// entry of the page that holds it, the page's head with the prefix that its
    /// keys share, the slot of the record in the page, and the record from its
    /// start on, thirty-four bytes of it. The record is where the page says, and
    /// what is counted there is what the lookup compares and answers with: the
    /// prefix, the rest of the key behind its length, and the extent.
    pub proof fn lemma_lookup_is_counted(
        self,
        at: PagedAddresses,
        key: Seq<u8>,
        i: int,
        before: Trace,
        after: Trace,
    )
        requires
            self.wf(),
            0 <= i < self.blob.model@.len(),
            self.blob.model@[i].0 == key,
            forall|j: int| 0 <= j < i ==> (#[trigger] self.blob.model@[j]).0 != key,
            Trace::grown(before, after, self.lookup_reads(at, key)),
        ensures
            ({
                let pages = self.blob.pages@;
                let page = i / self.blob.per_page as int;
                let base = self.blob.page_dir@[page] as int;
                let prefix = le_value(pages.subrange(base, base + 2)) as int;
                let slot = base + 4 + prefix + 2 * (i % self.blob.per_page as int);
                let rec = base + le_value(pages.subrange(slot, slot + 2));
                let rest = key.len() - prefix;
                let ext = ext_bytes(self.blob.model@[i].1, self.blob.fixed);
                &&& way_counted(self.table, at.hash as int, key, i as u32, 4, before, after)
                &&& counted(after, at.page_dir + 4 * page, at.page_dir + 4 * page + 4)
                &&& counted(after, at.pages + base, at.pages + base + 4 + prefix)
                &&& counted(after, at.pages + slot, at.pages + slot + 2)
                &&& counted(after, at.pages + rec, at.pages + rec + 34)
                &&& pages.subrange(base + 4, base + 4 + prefix) == key.take(prefix)
                &&& le_value(pages.subrange(rec, rec + 2)) == rest
                &&& pages.subrange(rec + 2, rec + 2 + rest) == key.skip(prefix)
                &&& pages.subrange(rec + 2 + rest, rec + 2 + rest + ext.len()) == ext
            }),
    {
        let seen = paged_seen(self, at);
        let hit = paged_hit(self, key);
        assert(self.lookup_reads(at, key) == probe_reads(
            self.table,
            key_hash_of(key),
            0,
            at.hash as int,
            seen,
            hit,
        ));
        assert(self.table.payloads@[i] == i as u32);
        assert(self.table.placed(i));
        assert(self.table.hashes@[i] == key_hash_of(key));
        lemma_hit_is_counted(self.table, key, at.hash as int, seen, hit, i, before, after);
        self.blob.lemma_place(i);
        let (base, prefix, rec) = self.blob.place(i);
        let pp = self.blob.per_page as int;
        let pages = self.blob.pages@;
        let e = self.blob.model@[i];
        let suffix = key.subrange(prefix, key.len() as int);
        let slot = base + 4 + prefix + 2 * (i % pp);
        assert(seen(i)[0] == (at.page_dir + (i / pp) * 4, 4int));
        assert(seen(i)[1] == (at.pages + base, 4 + prefix));
        assert(seen(i)[2] == (at.pages + slot, 2int));
        assert(seen(i)[3] == (at.pages + rec, 34int));
        lemma_le16(prefix as u16);
        lemma_le16((rec - base) as u16);
        lemma_le16(suffix.len() as u16);
        lemma_lies(pages, base, le_bytes(prefix as nat, 2));
        lemma_lies(pages, base + 4, key.take(prefix));
        lemma_lies(pages, slot, le_bytes((rec - base) as nat, 2));
        lemma_lies(pages, rec, le_bytes(suffix.len(), 2));
        lemma_lies(pages, rec + 2, suffix);
        lemma_lies(pages, rec + 2 + suffix.len(), ext_bytes(e.1, self.blob.fixed));
        assert(suffix =~= key.skip(prefix));
    }

    /// What a lookup of a key that is not there counts: the slots up to an empty
    /// one.
    pub proof fn lemma_miss_counts_slots(
        self,
        at: PagedAddresses,
        key: Seq<u8>,
        before: Trace,
        after: Trace,
    )
        requires
            self.wf(),
            forall|j: int|
                0 <= j < self.blob.model@.len() ==> (#[trigger] self.blob.model@[j]).0 != key,
            Trace::grown(before, after, self.lookup_reads(at, key)),
        ensures
            way_counted(self.table, at.hash as int, key, EMPTY, 0, before, after),
    {
        let seen = paged_seen(self, at);
        let hit = paged_hit(self, key);
        assert(self.lookup_reads(at, key) == probe_reads(
            self.table,
            key_hash_of(key),
            0,
            at.hash as int,
            seen,
            hit,
        ));
        lemma_miss_is_counted(self.table, key, at.hash as int, seen, hit, before, after);
    }
}

/// Item `i` of `n` lies within the room of all of them.
proof fn lemma_item_within(i: int, n: int, size: int)
    requires
        0 <= i < n,
        0 <= size,
    ensures
        0 <= i * size,
        i * size + size <= n * size,
{
    assert(i * size + size <= n * size) by (nonlinear_arith)
        requires
            i + 1 <= n,
            0 <= size,
    ;
    assert(0 <= i * size) by (nonlinear_arith)
        requires
            0 <= i,
            0 <= size,
    ;
}

} // verus!
