//! The probe table over prefix-compressed records: the table holds ranks, and
//! a rank is reached by decoding from the restart before it.

use crate::hash::{key_hash, key_hash_of};
use crate::hash_paged::{index_ranks, indexes_ranks};
use crate::layout::{
    entries_of, first_match, lemma_first_match_at, lemma_first_match_none, Entry, Ext4, Layout,
};
use crate::memory::{bytes_of, Memory, Rooms, Scale, Weighed};
use crate::packed::{decodable, packed_fits, Packed, KEY_LIMIT};
use crate::table::{tag_of, ProbeTable, EMPTY};
use vstd::layout::size_of;
use vstd::prelude::*;

verus! {

/// The entries that a lookup can decode, in order.
pub open spec fn decodable_only(es: Seq<Entry>, n: nat) -> Seq<Entry>
    decreases n,
{
    if n == 0 {
        Seq::empty()
    } else if decodable(es, n - 1) {
        decodable_only(es, (n - 1) as nat).push(es[n - 1])
    } else {
        decodable_only(es, (n - 1) as nat)
    }
}

/// Prefix-compressed records behind the probe table.
pub struct HashPacked {
    pub packed: Packed,
    /// Sorted ranks under the hashes of their keys.
    pub table: ProbeTable,
}

impl HashPacked {
    /// Writes the records and indexes them by rank.
    pub fn build(keys: &[Vec<u8>], exts: &[Ext4]) -> (r: HashPacked)
        requires
            keys@.len() <= exts@.len(),
            keys@.len() <= usize::MAX / 4,
        ensures
            r.entries() == entries_of(keys@, exts@),
            r.packed.written(0),
            indexes_ranks(r.table, r.entries()),
            r.table.filled(keys@.len()),
            packed_fits(r.entries()) ==> r.wf(),
    {
        let packed: Packed = Packed::build(keys, exts, 0);
        let table: ProbeTable = index_ranks(keys, Ghost(packed.model@));
        HashPacked { packed, table }
    }
}

impl Weighed for HashPacked {
    /// The records and the table over them.
    open spec fn memory(&self) -> Memory {
        self.packed.memory().with(self.table.hash@.len(), size_of::<(u8, u32)>() as int)
    }

    fn list_rooms(&self, r: &mut Rooms) {
        let ghost before = r.parts@;
        self.packed.list_rooms(r);
        r.vector(&self.table.hash, std::mem::size_of::<(u8, u32)>());
        proof {
            assert(r.parts@ =~= before + self.memory().parts);
        }
    }

    fn weigh_on(&self, s: &mut Scale<'_>) {
        let ghost before = s.made@;
        self.packed.weigh_on(s);
        s.vector(Ghost(self.table.hash@.len()), std::mem::size_of::<(u8, u32)>());
        proof {
            assert(s.made@ =~= before.and(self.memory()));
        }
    }
}

impl Layout for HashPacked {
    open spec fn wf(&self) -> bool {
        &&& self.packed.laid_out()
        &&& indexes_ranks(self.table, self.packed.model@)
    }

    open spec fn entries(&self) -> Seq<Entry> {
        self.packed.model@
    }

    open spec fn found(&self, key: Seq<u8>) -> Option<Ext4> {
        first_match(decodable_only(self.packed.model@, self.packed.model@.len()), key)
    }

    open spec fn scan_term(&self, i: int) -> u64 {
        self.packed.term(i)
    }

    open spec fn scannable(&self, start: int, n: int) -> bool {
        true
    }

    open spec fn label(&self) -> Seq<char> {
        "hash+packed"@
    }

    fn name(&self) -> (s: &'static str) {
        "hash+packed"
    }

    fn logical_bytes(&self) -> (n: usize) {
        bytes_of(self)
    }

    fn lookup(&self, key: &[u8]) -> (r: Option<Ext4>) {
        let h: u64 = key_hash(key);
        let tag: u8 = ((h >> 56) as u8) | 1;
        let ghost es = self.packed.model@;
        let ghost n = es.len();
        let ghost wanted = |j: int| es[j].0 == key@ && decodable(es, j);
        proof {
            self.packed.lemma_count();
            self.table.lemma_search_start(h, wanted);
        }
        let mut d: usize = 0;
        loop
            invariant
                self.wf(),
                es == self.packed.model@,
                n == es.len(),
                n < u32::MAX,
                wanted == (|j: int| es[j].0 == key@ && decodable(es, j)),
                h == key_hash_of(key@),
                tag == tag_of(h),
                self.table.searched(h, d as int, wanted),
            decreases self.table.hash@.len() - d,
        {
            let (t, rank) = self.table.probe(h, d);
            let ghost o = self.table.item_at(h, d as int);
            if rank == EMPTY {
                proof {
                    assert forall|j: int| 0 <= j < n implies !((#[trigger] es[j]).0 == key@
                        && decodable(es, j)) by {
                        if es[j].0 == key@ {
                            assert(self.table.hashes@[j] == h);
                            assert(self.table.placed(j));
                            self.table.lemma_search_end(h, d as int, wanted, j);
                        }
                    }
                    lemma_decodable_none(es, n, key@);
                }
                return None;
            }
            assert(self.table.placed(o) && o == rank);
            if t == tag {
                if let Some(e) = self.packed.at_rank(rank as usize, key) {
                    proof {
                        assert forall|j: int| 0 <= j < o implies !((#[trigger] es[j]).0 == key@
                            && decodable(es, j)) by {
                            if es[j].0 == key@ {
                                assert(self.table.hashes@[j] == h);
                                assert(self.table.placed(j));
                                self.table.lemma_search_hit(h, d as int, wanted, j);
                            }
                        }
                        lemma_decodable_at(es, n, key@, o);
                    }
                    return Some(e);
                }
            }
            proof {
                assert(self.table.hashes@[o] == h ==> tag_of(self.table.hashes@[o]) == tag);
                self.table.lemma_search_step(h, d as int, wanted);
            }
            d = d + 1;
        }
    }

    fn scan_from(&self, start: usize, n: usize) -> (acc: u64) {
        proof {
            assert((|i: int| self.scan_term(i)) =~= (|i: int| self.packed.term(i)));
        }
        self.packed.scan(start, n)
    }
}

/// A key that no decodable entry has is not among the decodable ones.
proof fn lemma_decodable_none(es: Seq<Entry>, n: nat, key: Seq<u8>)
    requires
        n <= es.len(),
        forall|j: int| 0 <= j < n ==> !((#[trigger] es[j]).0 == key && decodable(es, j)),
    ensures
        first_match(decodable_only(es, n), key) is None,
        forall|j: int|
            0 <= j < decodable_only(es, n).len() ==> (#[trigger] decodable_only(es, n)[j]).0 != key,
    decreases n,
{
    if n > 0 {
        lemma_decodable_none(es, (n - 1) as nat, key);
        assert(!(es[n - 1].0 == key && decodable(es, n - 1)));
    }
    lemma_first_match_none(decodable_only(es, n), key);
}

/// The first decodable entry under a key is what is found among them.
proof fn lemma_decodable_at(es: Seq<Entry>, n: nat, key: Seq<u8>, o: int)
    requires
        0 <= o < n <= es.len(),
        es[o].0 == key,
        decodable(es, o),
        forall|j: int| 0 <= j < o ==> !((#[trigger] es[j]).0 == key && decodable(es, j)),
    ensures
        first_match(decodable_only(es, n), key) == Some(es[o].1),
    decreases n,
{
    let rest = decodable_only(es, (n - 1) as nat);
    if o == n - 1 {
        lemma_decodable_none(es, (n - 1) as nat, key);
        let all = rest.push(es[o]);
        assert forall|j: int| 0 <= j < rest.len() implies (#[trigger] all[j]).0 != key by {
            assert(all[j] == rest[j]);
        }
        lemma_first_match_at(all, key, rest.len() as int);
    } else {
        lemma_decodable_at(es, (n - 1) as nat, key, o);
        if decodable(es, n - 1) {
            lemma_first_match_push(rest, es[n - 1], key);
        }
    }
}

/// What is found already is found with one more entry behind.
proof fn lemma_first_match_push(es: Seq<Entry>, e: Entry, key: Seq<u8>)
    requires
        first_match(es, key) is Some,
    ensures
        first_match(es.push(e), key) == first_match(es, key),
    decreases es.len(),
{
    if es.len() > 0 {
        assert(es.push(e)[0] == es[0]);
        if es[0].0 != key {
            assert(es.push(e).drop_first() =~= es.drop_first().push(e));
            lemma_first_match_push(es.drop_first(), e, key);
        }
    }
}

/// Where every key can be decoded, all entries are decodable.
pub proof fn lemma_all_decodable(es: Seq<Entry>, n: nat)
    requires
        n <= es.len(),
        forall|j: int| 0 <= j < es.len() ==> (#[trigger] es[j]).0.len() <= KEY_LIMIT,
    ensures
        decodable_only(es, n) == es.take(n as int),
    decreases n,
{
    if n > 0 {
        lemma_all_decodable(es, (n - 1) as nat);
        assert(decodable(es, n - 1));
        assert(es.take(n as int) =~= es.take(n - 1).push(es[n - 1]));
    } else {
        assert(es.take(0) =~= Seq::<Entry>::empty());
    }
}

} // verus!
