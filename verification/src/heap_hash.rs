//! Owned keys in one vector, found through the probe table.

use crate::bytes::{bytes_equal, to_owned};
use crate::hash::{key_hash, key_hash_of};
use crate::layout::{
    entries_of, first_match, lemma_first_match_at, lemma_first_match_none, lemma_wrapping_two,
    scan_end, sum_range, Entry, Ext4, Layout,
};
use crate::memory::{bytes_of, Memory, Rooms, Scale, Weighed};
use crate::table::{table_slots, tag_of, ProbeTable, EMPTY};
use vstd::layout::size_of;
use vstd::prelude::*;

verus! {

/// The slots of the entries, and the first `n` keys, each with memory of its own.
pub open spec fn keys_memory(entries: Seq<(Vec<u8>, Ext4)>, n: nat) -> Memory
    decreases n,
{
    if n == 0 {
        Memory::nothing().with(entries.len(), size_of::<(Vec<u8>, Ext4)>() as int)
    } else {
        keys_memory(entries, (n - 1) as nat).with(entries[n - 1].0@.len(), 1)
    }
}

/// Entries on the heap, one allocation per key, behind the probe table.
pub struct HeapHash {
    pub entries: Vec<(Vec<u8>, Ext4)>,
    pub table: ProbeTable,
}

impl HeapHash {
    /// Entry `i` as its key and extent.
    pub open spec fn entry(self, i: int) -> Entry {
        (self.entries@[i].0@, self.entries@[i].1)
    }

    /// Loads the keys with their extents, as far as both lists go. Positions
    /// are kept in thirty-two bits, so the index is whole for fewer entries
    /// than that can count.
    pub fn build(keys: &[Vec<u8>], exts: &[Ext4]) -> (r: HeapHash)
        requires
            keys@.len() <= usize::MAX / 4,
        ensures
            r.entries() == entries_of(keys@, exts@),
            r.table.filled(r.entries().len()),
            forall|j: int|
                0 <= j < r.entries().len() ==> #[trigger] r.table.hashes@[j] == key_hash_of(
                    r.entries()[j].0,
                ),
            forall|j: int|
                0 <= j < r.entries().len() ==> #[trigger] r.table.payloads@[j] == j as u32,
            r.entries().len() <= u32::MAX ==> r.wf(),
    {
        let mut entries: Vec<(Vec<u8>, Ext4)> = Vec::new();
        let mut i: usize = 0;
        while i < keys.len() && i < exts.len()
            invariant
                i <= keys@.len(),
                i <= exts@.len(),
                entries@.len() == i,
                forall|j: int|
                    0 <= j < i ==> (#[trigger] entries@[j]).0@ == keys@[j]@ && entries@[j].1
                        == exts@[j],
            decreases keys.len() - i,
        {
            entries.push((to_owned(&keys[i]), exts[i]));
            i = i + 1;
        }
        let mut table: ProbeTable = ProbeTable::new(entries.len());
        let mut i: usize = 0;
        while i < entries.len()
            invariant
                i <= entries@.len(),
                2 * entries@.len() <= table.hash@.len(),
                table.hash@.len() == table_slots(entries@.len()),
                table.hash@.len() >= 16,
                table.hash@.len() > 0,
                table.wf(),
                table.hashes@.len() == i,
                table.payloads@.len() == i,
                forall|j: int|
                    0 <= j < i ==> #[trigger] table.hashes@[j] == key_hash_of(entries@[j].0@),
                forall|j: int| 0 <= j < i ==> #[trigger] table.payloads@[j] == j as u32,
            decreases entries.len() - i,
        {
            let h: u64 = key_hash(&entries[i].0);
            table.insert(h, i as u32);
            i = i + 1;
        }
        let r = HeapHash { entries, table };
        proof {
            r.table.lemma_filled();
            assert(r.entries() =~= entries_of(keys@, exts@));
        }
        r
    }
}

impl Weighed for HeapHash {
    /// The entries, each key and the table over them.
    open spec fn memory(&self) -> Memory {
        keys_memory(self.entries@, self.entries@.len()).with(
            self.table.hash@.len(),
            size_of::<(u8, u32)>() as int,
        )
    }

    fn list_rooms(&self, r: &mut Rooms) {
        let ghost before = r.parts@;
        r.vector(&self.entries, std::mem::size_of::<(Vec<u8>, Ext4)>());
        let mut i: usize = 0;
        proof {
            assert(r.parts@ =~= before + keys_memory(self.entries@, 0).parts);
        }
        while i < self.entries.len()
            invariant
                i <= self.entries@.len(),
                r.wf(),
                r.parts@ == before + keys_memory(self.entries@, i as nat).parts,
            decreases self.entries.len() - i,
        {
            r.vector(&self.entries[i].0, 1);
            i = i + 1;
            proof {
                assert(r.parts@ =~= before + keys_memory(self.entries@, i as nat).parts);
            }
        }
        r.vector(&self.table.hash, std::mem::size_of::<(u8, u32)>());
        proof {
            assert(r.parts@ =~= before + self.memory().parts);
        }
    }

    fn weigh_on(&self, s: &mut Scale<'_>) {
        let ghost before = s.made@;
        proof {
            lemma_keys_parts(self.entries@, self.entries@.len());
        }
        s.vector(Ghost(self.entries@.len()), std::mem::size_of::<(Vec<u8>, Ext4)>());
        let mut i: usize = 0;
        proof {
            assert(s.made@ =~= before.and(keys_memory(self.entries@, 0)));
        }
        while i < self.entries.len()
            invariant
                i <= self.entries@.len(),
                s.wf(),
                s.rooms == old(s).rooms,
                before.parts.len() + self.entries@.len() + 2 <= s.rooms@.len(),
                s.made@ == before.and(keys_memory(self.entries@, i as nat)),
            decreases self.entries.len() - i,
        {
            proof {
                lemma_keys_parts(self.entries@, i as nat);
            }
            s.vector(Ghost(self.entries@[i as int].0@.len()), 1);
            i = i + 1;
            proof {
                assert(s.made@ =~= before.and(keys_memory(self.entries@, i as nat)));
            }
        }
        s.vector(Ghost(self.table.hash@.len()), std::mem::size_of::<(u8, u32)>());
        proof {
            assert(s.made@ =~= before.and(self.memory()));
        }
    }
}

/// The entries are one vector, and each key is one.
proof fn lemma_keys_parts(entries: Seq<(Vec<u8>, Ext4)>, n: nat)
    ensures
        keys_memory(entries, n).parts.len() == n + 1,
    decreases n,
{
    if n > 0 {
        lemma_keys_parts(entries, (n - 1) as nat);
    }
}

impl Layout for HeapHash {
    open spec fn wf(&self) -> bool {
        let n = self.entries@.len();
        &&& n <= u32::MAX
        &&& self.table.wf()
        &&& n < self.table.hash@.len()
        &&& self.table.hashes@.len() == n
        &&& self.table.payloads@.len() == n
        &&& forall|j: int|
            0 <= j < n ==> #[trigger] self.table.hashes@[j] == key_hash_of(self.entries@[j].0@)
        &&& forall|j: int| 0 <= j < n ==> #[trigger] self.table.payloads@[j] == j
    }

    open spec fn entries(&self) -> Seq<Entry> {
        Seq::new(self.entries@.len(), |i: int| self.entry(i))
    }

    open spec fn found(&self, key: Seq<u8>) -> Option<Ext4> {
        first_match(self.entries(), key)
    }

    open spec fn scan_term(&self, i: int) -> u64 {
        (self.entries@[i].1.block as u64).wrapping_add(self.entries@[i].0@[0] as u64)
    }

    open spec fn scannable(&self, start: int, n: int) -> bool {
        &&& start + n <= usize::MAX
        &&& forall|i: int|
            start <= i < scan_end(start, n, self.entries@.len() as int) ==> (
            #[trigger] self.entries@[i]).0@.len() > 0
    }

    open spec fn label(&self) -> Seq<char> {
        "heap-hash"@
    }

    fn name(&self) -> (s: &'static str) {
        "heap-hash"
    }

    fn logical_bytes(&self) -> (n: usize) {
        bytes_of(self)
    }

    fn lookup(&self, key: &[u8]) -> (r: Option<Ext4>) {
        let h: u64 = key_hash(key);
        let tag: u8 = ((h >> 56) as u8) | 1;
        let ghost es = self.entries();
        let ghost wanted = |j: int| self.entries@[j].0@ == key@;
        proof {
            self.table.lemma_search_start(h, wanted);
        }
        let mut d: usize = 0;
        loop
            invariant
                self.wf(),
                es == self.entries(),
                wanted == (|j: int| self.entries@[j].0@ == key@),
                h == key_hash_of(key@),
                tag == tag_of(h),
                self.table.searched(h, d as int, wanted),
            decreases self.table.hash@.len() - d,
        {
            let (t, i) = self.table.probe(h, d);
            let ghost o = self.table.item_at(h, d as int);
            if i == EMPTY {
                proof {
                    assert forall|j: int| 0 <= j < es.len() implies (#[trigger] es[j]).0 != key@ by {
                        if self.entries@[j].0@ == key@ {
                            assert(self.table.hashes@[j] == h);
                            assert(self.table.placed(j));
                            self.table.lemma_search_end(h, d as int, wanted, j);
                        }
                    }
                    lemma_first_match_none(es, key@);
                }
                return None;
            }
            if t == tag {
                let e: &(Vec<u8>, Ext4) = &self.entries[i as usize];
                if bytes_equal(&e.0, key) {
                    proof {
                        assert forall|j: int| 0 <= j < o implies (#[trigger] es[j]).0 != key@ by {
                            if self.entries@[j].0@ == key@ {
                                assert(self.table.hashes@[j] == h);
                                assert(self.table.placed(j));
                                self.table.lemma_search_hit(h, d as int, wanted, j);
                            }
                        }
                        lemma_first_match_at(es, key@, o);
                    }
                    return Some(e.1);
                }
            }
            proof {
                self.table.lemma_search_step(h, d as int, wanted);
            }
            d = d + 1;
        }
    }

    fn scan_from(&self, start: usize, n: usize) -> (acc: u64) {
        let end: usize = if start + n <= self.entries.len() {
            start + n
        } else {
            self.entries.len()
        };
        let mut acc: u64 = 0;
        let mut i: usize = start;
        let ghost terms = |i: int| self.scan_term(i);
        while i < end
            invariant
                end <= self.entries@.len(),
                start <= i,
                i <= end || i == start,
                self.scannable(start as int, n as int),
                end == scan_end(start as int, n as int, self.entries@.len() as int),
                terms == (|i: int| self.scan_term(i)),
                acc == sum_range(terms, start as int, i as int),
            decreases end - i,
        {
            let e: &(Vec<u8>, Ext4) = &self.entries[i];
            let ghost before = acc;
            let block: u64 = e.1.block as u64;
            assert(self.entries@[i as int].0@.len() > 0);
            let first: u64 = e.0[0] as u64;
            acc = acc.wrapping_add(block).wrapping_add(first);
            proof {
                lemma_wrapping_two(before, block, first);
                assert(terms(i as int) == self.scan_term(i as int));
            }
            i = i + 1;
        }
        acc
    }
}

} // verus!
