//! The probe table over page-organised records. The table holds ranks, not
//! offsets, so pages can move without touching it.

use crate::hash::{key_hash, key_hash_of};
use crate::layout::{
    entries_of, first_match, lemma_first_match_at, lemma_first_match_none, Entry, Ext4, Layout,
};
use crate::memory::{bytes_of, Memory, Rooms, Scale, Weighed};
use crate::paged::{paged_fits, prefixes_within, PagedBlob};
use crate::table::{table_slots, tag_of, ProbeTable, EMPTY};
use vstd::layout::size_of;
use vstd::prelude::*;

verus! {

/// The table holds each entry's rank under its key's hash.
pub open spec fn indexes_ranks(table: ProbeTable, es: Seq<Entry>) -> bool {
    &&& table.wf()
    &&& es.len() < table.hash@.len()
    &&& table.hashes@.len() == es.len()
    &&& table.payloads@.len() == es.len()
    &&& forall|j: int| 0 <= j < es.len() ==> #[trigger] table.hashes@[j] == key_hash_of(es[j].0)
    &&& forall|j: int| 0 <= j < es.len() ==> #[trigger] table.payloads@[j] == j as u32
}

/// Puts every key's rank into a table under the key's hash.
pub(crate) fn index_ranks(keys: &[Vec<u8>], Ghost(es): Ghost<Seq<Entry>>) -> (table: ProbeTable)
    requires
        keys@.len() <= usize::MAX / 4,
        keys@.len() == es.len(),
        forall|i: int| 0 <= i < es.len() ==> (#[trigger] es[i]).0 == keys@[i]@,
    ensures
        indexes_ranks(table, es),
        table.filled(es.len()),
{
    let mut table: ProbeTable = ProbeTable::new(keys.len());
    let mut i: usize = 0;
    while i < keys.len()
        invariant
            i <= keys@.len(),
            keys@.len() == es.len(),
            es.len() < table.hash@.len(),
            table.hash@.len() == table_slots(es.len()),
            table.hash@.len() >= 16,
            table.hash@.len() >= 2 * es.len(),
            forall|i: int| 0 <= i < es.len() ==> (#[trigger] es[i]).0 == keys@[i]@,
            table.wf(),
            table.hashes@.len() == i,
            table.payloads@.len() == i,
            forall|j: int| 0 <= j < i ==> #[trigger] table.hashes@[j] == key_hash_of(es[j].0),
            forall|j: int| 0 <= j < i ==> #[trigger] table.payloads@[j] == j as u32,
        decreases keys.len() - i,
    {
        let h: u64 = key_hash(&keys[i]);
        assert(es[i as int].0 == keys@[i as int]@);
        table.insert(h, i as u32);
        i = i + 1;
    }
    proof {
        table.lemma_filled();
    }
    table
}

/// Page-organised records behind the probe table.
pub struct HashPaged {
    pub blob: PagedBlob,
    pub table: ProbeTable,
}

impl HashPaged {
    /// Writes the pages and indexes their records by rank.
    pub fn build(keys: &[Vec<u8>], exts: &[Ext4], per_page: usize, fixed: bool) -> (r: HashPaged)
        requires
            keys@.len() <= exts@.len(),
            keys@.len() <= usize::MAX / 4,
            per_page > 0,
            prefixes_within(entries_of(keys@, exts@), per_page as int),
        ensures
            r.entries() == entries_of(keys@, exts@),
            r.blob.fixed == fixed,
            r.blob.per_page == per_page,
            r.blob.written(),
            indexes_ranks(r.table, r.entries()),
            r.table.filled(keys@.len()),
            paged_fits(r.entries(), per_page as int, fixed) && keys@.len() <= u32::MAX ==> r.wf(),
    {
        let blob: PagedBlob = if fixed {
            PagedBlob::build_fixed(keys, exts, per_page)
        } else {
            PagedBlob::build(keys, exts, per_page)
        };
        let table: ProbeTable = index_ranks(keys, Ghost(blob.model@));
        HashPaged { blob, table }
    }
}

impl Weighed for HashPaged {
    /// The records and the table over them.
    open spec fn memory(&self) -> Memory {
        self.blob.memory().with(self.table.hash@.len(), size_of::<(u8, u32)>() as int)
    }

    fn list_rooms(&self, r: &mut Rooms) {
        let ghost before = r.parts@;
        self.blob.list_rooms(r);
        r.vector(&self.table.hash, std::mem::size_of::<(u8, u32)>());
        proof {
            assert(r.parts@ =~= before + self.memory().parts);
        }
    }

    fn weigh_on(&self, s: &mut Scale<'_>) {
        let ghost before = s.made@;
        self.blob.weigh_on(s);
        s.vector(Ghost(self.table.hash@.len()), std::mem::size_of::<(u8, u32)>());
        proof {
            assert(s.made@ =~= before.and(self.memory()));
        }
    }
}

impl Layout for HashPaged {
    open spec fn wf(&self) -> bool {
        &&& self.blob.wf()
        &&& self.blob.model@.len() <= u32::MAX
        &&& indexes_ranks(self.table, self.blob.model@)
    }

    open spec fn entries(&self) -> Seq<Entry> {
        self.blob.model@
    }

    open spec fn found(&self, key: Seq<u8>) -> Option<Ext4> {
        first_match(self.entries(), key)
    }

    open spec fn scan_term(&self, i: int) -> u64 {
        self.blob.term(i)
    }

    open spec fn scannable(&self, start: int, n: int) -> bool {
        start + n <= usize::MAX
    }

    open spec fn label(&self) -> Seq<char> {
        if self.blob.fixed {
            "hash+pagedfixed"@
        } else {
            "hash+paged"@
        }
    }

    fn name(&self) -> (s: &'static str) {
        if self.blob.fixed {
            "hash+pagedfixed"
        } else {
            "hash+paged"
        }
    }

    fn logical_bytes(&self) -> (n: usize) {
        bytes_of(self)
    }

    fn lookup(&self, key: &[u8]) -> (r: Option<Ext4>) {
        let h: u64 = key_hash(key);
        let tag: u8 = ((h >> 56) as u8) | 1;
        let ghost es = self.blob.model@;
        let ghost wanted = |j: int| es[j].0 == key@;
        proof {
            self.table.lemma_search_start(h, wanted);
        }
        let mut d: usize = 0;
        loop
            invariant
                self.wf(),
                es == self.blob.model@,
                wanted == (|j: int| es[j].0 == key@),
                h == key_hash_of(key@),
                tag == tag_of(h),
                self.table.searched(h, d as int, wanted),
            decreases self.table.hash@.len() - d,
        {
            let (t, rank) = self.table.probe(h, d);
            let ghost o = self.table.item_at(h, d as int);
            if rank == EMPTY {
                proof {
                    assert forall|j: int| 0 <= j < es.len() implies (#[trigger] es[j]).0 != key@ by {
                        if es[j].0 == key@ {
                            assert(self.table.hashes@[j] == h);
                            assert(self.table.placed(j));
                            self.table.lemma_search_end(h, d as int, wanted, j);
                        }
                    }
                    lemma_first_match_none(es, key@);
                }
                return None;
            }
            assert(self.table.placed(o) && o == rank);
            if t == tag {
                if let Some((base, prefix, at)) = self.blob.locate(rank as usize) {
                    if let Some(e) = self.blob.matches(base, prefix, at, key) {
                        proof {
                            assert forall|j: int| 0 <= j < o implies (#[trigger] es[j]).0
                                != key@ by {
                                if es[j].0 == key@ {
                                    assert(self.table.hashes@[j] == h);
                                    assert(self.table.placed(j));
                                    self.table.lemma_search_hit(h, d as int, wanted, j);
                                }
                            }
                            lemma_first_match_at(es, key@, o);
                        }
                        return Some(e);
                    }
                }
            }
            proof {
                assert(self.table.hashes@[o] == h ==> tag_of(self.table.hashes@[o]) == tag);
                self.table.lemma_search_step(h, d as int, wanted);
            }
            d = d + 1;
        }
    }

    fn scan_from(&self, start: usize, n: usize) -> (acc: u64) {
        proof {
            assert((|i: int| self.scan_term(i)) =~= (|i: int| self.blob.term(i)));
        }
        self.blob.scan(start, n)
    }
}

} // verus!
