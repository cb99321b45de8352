//! The probe table over self-contained records: a lookup is a probe and one
//! contiguous read. One layout writes extents as variable-length integers, the
//! other as fixed words.

use crate::flat::{flat_fits, flat_off, lemma_flat_lies, FlatBlob};
use crate::hash::{key_hash, key_hash_of};
use crate::layout::{
    entries_of, first_match, lemma_first_match_at, lemma_first_match_none, Entry, Ext4, Layout,
};
use crate::memory::{bytes_of, Memory, Rooms, Scale, Weighed};
use crate::table::{table_slots, tag_of, ProbeTable, EMPTY};
use vstd::layout::size_of;
use vstd::prelude::*;

verus! {

/// The table holds each entry's offset under its key's hash.
pub open spec fn indexes_offsets(table: ProbeTable, es: Seq<Entry>, fixed: bool) -> bool {
    &&& table.wf()
    &&& es.len() < table.hash@.len()
    &&& table.hashes@.len() == es.len()
    &&& table.payloads@.len() == es.len()
    &&& forall|j: int| 0 <= j < es.len() ==> #[trigger] table.hashes@[j] == key_hash_of(es[j].0)
    &&& forall|j: int|
        0 <= j < es.len() ==> #[trigger] table.payloads@[j] == flat_off(es, j, fixed) as u32
}

/// Puts every key's offset into a table under the key's hash.
fn index_offsets(keys: &[Vec<u8>], offs: &Vec<u32>, Ghost(es): Ghost<Seq<Entry>>, fixed: bool) -> (
    table: ProbeTable)
    requires
        keys@.len() <= usize::MAX / 4,
        keys@.len() == es.len(),
        offs@.len() == es.len(),
        forall|i: int| 0 <= i < es.len() ==> (#[trigger] es[i]).0 == keys@[i]@,
        forall|i: int| 0 <= i < es.len() ==> #[trigger] offs@[i] == flat_off(es, i, fixed) as u32,
    ensures
        indexes_offsets(table, es, fixed),
        table.filled(es.len()),
{
    let mut table: ProbeTable = ProbeTable::new(keys.len());
    let mut i: usize = 0;
    while i < keys.len()
        invariant
            i <= keys@.len(),
            keys@.len() == es.len(),
            offs@.len() == es.len(),
            es.len() < table.hash@.len(),
            table.hash@.len() == table_slots(es.len()),
            table.hash@.len() >= 16,
            table.hash@.len() >= 2 * es.len(),
            forall|i: int| 0 <= i < es.len() ==> (#[trigger] es[i]).0 == keys@[i]@,
            forall|i: int|
                0 <= i < es.len() ==> #[trigger] offs@[i] == flat_off(es, i, fixed) as u32,
            table.wf(),
            table.hashes@.len() == i,
            table.payloads@.len() == i,
            forall|j: int| 0 <= j < i ==> #[trigger] table.hashes@[j] == key_hash_of(es[j].0),
            forall|j: int|
                0 <= j < i ==> #[trigger] table.payloads@[j] == flat_off(es, j, fixed) as u32,
        decreases keys.len() - i,
    {
        let h: u64 = key_hash(&keys[i]);
        assert(es[i as int].0 == keys@[i as int]@);
        table.insert(h, offs[i]);
        i = i + 1;
    }
    proof {
        table.lemma_filled();
    }
    table
}

/// Finds the first record under `key` through the table.
fn find_record(flat: &FlatBlob, table: &ProbeTable, key: &[u8]) -> (r: Option<Ext4>)
    requires
        flat.wf(),
        indexes_offsets(*table, flat.model@, flat.fixed),
    ensures
        r == first_match(flat.model@, key@),
{
    let h: u64 = key_hash(key);
    let tag: u8 = ((h >> 56) as u8) | 1;
    let ghost es = flat.model@;
    let ghost wanted = |j: int| es[j].0 == key@;
    proof {
        table.lemma_search_start(h, wanted);
        assert forall|j: int| 0 <= j < es.len() implies #[trigger] table.placed(j) && flat_off(
            es,
            j,
            flat.fixed,
        ) < u32::MAX by {
            lemma_flat_lies(es, es.len(), j, flat.fixed);
        }
    }
    let mut d: usize = 0;
    loop
        invariant
            flat.wf(),
            indexes_offsets(*table, flat.model@, flat.fixed),
            es == flat.model@,
            wanted == (|j: int| es[j].0 == key@),
            h == key_hash_of(key@),
            tag == tag_of(h),
            table.searched(h, d as int, wanted),
            forall|j: int|
                0 <= j < es.len() ==> #[trigger] table.placed(j) && flat_off(es, j, flat.fixed)
                    < u32::MAX,
        decreases table.hash@.len() - d,
    {
        let (t, off) = table.probe(h, d);
        let ghost o = table.item_at(h, d as int);
        if off == EMPTY {
            proof {
                assert forall|j: int| 0 <= j < es.len() implies (#[trigger] es[j]).0 != key@ by {
                    if es[j].0 == key@ {
                        assert(table.hashes@[j] == h);
                        assert(table.placed(j));
                        table.lemma_search_end(h, d as int, wanted, j);
                    }
                }
                lemma_first_match_none(es, key@);
            }
            return None;
        }
        if t == tag {
            if let Some(e) = flat.matches(off as usize, key, Ghost(o)) {
                proof {
                    assert forall|j: int| 0 <= j < o implies (#[trigger] es[j]).0 != key@ by {
                        if es[j].0 == key@ {
                            assert(table.hashes@[j] == h);
                            assert(table.placed(j));
                            table.lemma_search_hit(h, d as int, wanted, j);
                        }
                    }
                    lemma_first_match_at(es, key@, o);
                }
                return Some(e);
            }
        }
        proof {
            assert(table.hashes@[o] == h ==> tag_of(table.hashes@[o]) == tag);
            table.lemma_search_step(h, d as int, wanted);
        }
        d = d + 1;
    }
}

/// Records with variable-length extents behind the probe table.
pub struct HashFlat {
    pub flat: FlatBlob,
    pub table: ProbeTable,
}

impl HashFlat {
    /// Writes the records and indexes them. The index is whole when key lengths
    /// fit sixteen bits and offsets thirty-two.
    pub fn build(keys: &[Vec<u8>], exts: &[Ext4]) -> (r: HashFlat)
        requires
            keys@.len() <= exts@.len(),
            keys@.len() <= usize::MAX / 4,
        ensures
            r.entries() == entries_of(keys@, exts@),
            r.flat.written(),
            !r.flat.fixed,
            indexes_offsets(r.table, r.entries(), false),
            r.table.filled(keys@.len()),
            flat_fits(r.entries(), false) ==> r.wf(),
    {
        let (flat, offs) = FlatBlob::build(keys, exts, false);
        let table: ProbeTable = index_offsets(keys, &offs, Ghost(flat.model@), false);
        HashFlat { flat, table }
    }
}

impl Weighed for HashFlat {
    /// The records and the table over them.
    open spec fn memory(&self) -> Memory {
        self.flat.memory().with(self.table.hash@.len(), size_of::<(u8, u32)>() as int)
    }

    fn list_rooms(&self, r: &mut Rooms) {
        let ghost before = r.parts@;
        self.flat.list_rooms(r);
        r.vector(&self.table.hash, std::mem::size_of::<(u8, u32)>());
        proof {
            assert(r.parts@ =~= before + self.memory().parts);
        }
    }

    fn weigh_on(&self, s: &mut Scale<'_>) {
        let ghost before = s.made@;
        self.flat.weigh_on(s);
        s.vector(Ghost(self.table.hash@.len()), std::mem::size_of::<(u8, u32)>());
        proof {
            assert(s.made@ =~= before.and(self.memory()));
        }
    }
}

impl Layout for HashFlat {
    open spec fn wf(&self) -> bool {
        &&& self.flat.wf()
        &&& !self.flat.fixed
        &&& indexes_offsets(self.table, self.flat.model@, false)
    }

    open spec fn entries(&self) -> Seq<Entry> {
        self.flat.model@
    }

    open spec fn found(&self, key: Seq<u8>) -> Option<Ext4> {
        first_match(self.entries(), key)
    }

    open spec fn scan_term(&self, i: int) -> u64 {
        self.flat.term(i)
    }

    open spec fn scannable(&self, start: int, n: int) -> bool {
        true
    }

    open spec fn label(&self) -> Seq<char> {
        "hash+flat"@
    }

    fn name(&self) -> (s: &'static str) {
        "hash+flat"
    }

    fn logical_bytes(&self) -> (n: usize) {
        bytes_of(self)
    }

    fn lookup(&self, key: &[u8]) -> (r: Option<Ext4>) {
        find_record(&self.flat, &self.table, key)
    }

    fn scan_from(&self, start: usize, n: usize) -> (acc: u64) {
        proof {
            assert((|i: int| self.scan_term(i)) =~= (|i: int| self.flat.term(i)));
        }
        self.flat.scan(start, n)
    }
}

/// Records with fixed-width extents behind the probe table.
pub struct HashFlatFixed {
    pub flat: FlatBlob,
    pub table: ProbeTable,
}

impl HashFlatFixed {
    /// Writes the records and indexes them. The index is whole when key lengths
    /// fit sixteen bits and offsets thirty-two.
    pub fn build(keys: &[Vec<u8>], exts: &[Ext4]) -> (r: HashFlatFixed)
        requires
            keys@.len() <= exts@.len(),
            keys@.len() <= usize::MAX / 4,
        ensures
            r.entries() == entries_of(keys@, exts@),
            r.flat.written(),
            r.flat.fixed,
            indexes_offsets(r.table, r.entries(), true),
            r.table.filled(keys@.len()),
            flat_fits(r.entries(), true) ==> r.wf(),
    {
        let (flat, offs) = FlatBlob::build(keys, exts, true);
        let table: ProbeTable = index_offsets(keys, &offs, Ghost(flat.model@), true);
        HashFlatFixed { flat, table }
    }
}

impl Weighed for HashFlatFixed {
    /// The records and the table over them.
    open spec fn memory(&self) -> Memory {
        self.flat.memory().with(self.table.hash@.len(), size_of::<(u8, u32)>() as int)
    }

    fn list_rooms(&self, r: &mut Rooms) {
        let ghost before = r.parts@;
        self.flat.list_rooms(r);
        r.vector(&self.table.hash, std::mem::size_of::<(u8, u32)>());
        proof {
            assert(r.parts@ =~= before + self.memory().parts);
        }
    }

    fn weigh_on(&self, s: &mut Scale<'_>) {
        let ghost before = s.made@;
        self.flat.weigh_on(s);
        s.vector(Ghost(self.table.hash@.len()), std::mem::size_of::<(u8, u32)>());
        proof {
            assert(s.made@ =~= before.and(self.memory()));
        }
    }
}

impl Layout for HashFlatFixed {
    open spec fn wf(&self) -> bool {
        &&& self.flat.wf()
        &&& self.flat.fixed
        &&& indexes_offsets(self.table, self.flat.model@, true)
    }

    open spec fn entries(&self) -> Seq<Entry> {
        self.flat.model@
    }

    open spec fn found(&self, key: Seq<u8>) -> Option<Ext4> {
        first_match(self.entries(), key)
    }

    open spec fn scan_term(&self, i: int) -> u64 {
        self.flat.term(i)
    }

    open spec fn scannable(&self, start: int, n: int) -> bool {
        true
    }

    open spec fn label(&self) -> Seq<char> {
        "hash+flatfixed"@
    }

    fn name(&self) -> (s: &'static str) {
        "hash+flatfixed"
    }

    fn logical_bytes(&self) -> (n: usize) {
        bytes_of(self)
    }

    fn lookup(&self, key: &[u8]) -> (r: Option<Ext4>) {
        find_record(&self.flat, &self.table, key)
    }

    fn scan_from(&self, start: usize, n: usize) -> (acc: u64) {
        proof {
            assert((|i: int| self.scan_term(i)) =~= (|i: int| self.flat.term(i)));
        }
        self.flat.scan(start, n)
    }
}

} // verus!
