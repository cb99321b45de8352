//! A minimal perfect hash over page-organised records, with an optional filter
//! that gives absent keys somewhere cheap to fail.

use crate::bloom::BlockedBloom;
use crate::bytes::key_seqs;
use crate::layout::{
    entries_of, keys_of, last_match, lemma_last_match_at, lemma_last_match_none, Entry, Ext4,
    Layout,
};
use crate::memory::{bytes_of, Memory, Rooms, Scale, Weighed};
use crate::mph::Mphf;
use crate::paged::{paged_fits, prefixes_within, PagedBlob};
use vstd::prelude::*;

verus! {

/// The rank of a slot that no key has.
pub const NO_RANK: u32 = u32::MAX;

/// Each slot names the last of the first `n` keys that has it, or none.
pub open spec fn ranks_slots(ranks: Seq<u32>, mph: Mphf, keys: Seq<Seq<u8>>, n: int) -> bool {
    &&& ranks.len() == keys.len()
    &&& forall|s: int|
        0 <= s < ranks.len() ==> {
            ||| #[trigger] ranks[s] == NO_RANK && forall|j: int|
                0 <= j < n ==> mph.slot_of(#[trigger] keys[j]) != Some(s)
            ||| ranks[s] < n && mph.slot_of(keys[ranks[s] as int]) == Some(s) && forall|j: int|
                ranks[s] < j < n ==> mph.slot_of(#[trigger] keys[j]) != Some(s)
        }
}

/// Page-organised records behind a minimal perfect hash.
pub struct MphPaged {
    pub blob: PagedBlob,
    pub mph: Mphf,
    /// The rank of the record that belongs to each slot.
    pub rank_of_slot: Vec<u32>,
    pub bloom: Option<BlockedBloom>,
}

impl MphPaged {
    /// Writes the pages and builds the hash over their keys, with a filter
    /// where one is wanted.
    pub fn build(
        keys: &[Vec<u8>],
        exts: &[Ext4],
        per_page: usize,
        with_bloom: bool,
        fixed: bool,
    ) -> (r: MphPaged)
        requires
            keys@.len() <= exts@.len(),
            keys@.len() <= u32::MAX,
            keys@.len() * 12 <= usize::MAX,
            per_page > 0,
            prefixes_within(entries_of(keys@, exts@), per_page as int),
        ensures
            r.entries() == entries_of(keys@, exts@),
            r.blob.fixed == fixed,
            r.blob.per_page == per_page,
            r.blob.written(),
            r.mph.made_of(keys_of(r.entries()), keys@.len()),
            r.mph.perfect(keys_of(r.entries())),
            ranks_slots(r.rank_of_slot@, r.mph, keys_of(r.entries()), keys@.len() as int),
            r.bloom is Some == with_bloom,
            r.bloom matches Some(b) ==> b.made_of(keys_of(r.entries())),
            paged_fits(r.entries(), per_page as int, fixed) ==> r.wf(),
    {
        let blob: PagedBlob = if fixed {
            PagedBlob::build_fixed(keys, exts, per_page)
        } else {
            PagedBlob::build(keys, exts, per_page)
        };
        let mph: Mphf = Mphf::build(keys);
        let ghost ks = key_seqs(keys@);
        proof {
            assert(keys_of(blob.model@) =~= ks);
        }
        let mut rank_of_slot: Vec<u32> = vec![NO_RANK; mph.n];
        let mut rank: usize = 0;
        while rank < keys.len()
            invariant
                rank <= keys@.len(),
                keys@.len() <= u32::MAX,
                ks == key_seqs(keys@),
                mph.wf(),
                mph.perfect(ks),
                ranks_slots(rank_of_slot@, mph, ks, rank as int),
            decreases keys.len() - rank,
        {
            let ghost before = rank_of_slot@;
            assert(ks[rank as int] == keys@[rank as int]@);
            let found: Option<u32> = mph.slot(&keys[rank]);
            assert(mph.slot_of(ks[rank as int]) is Some);
            if let Some(s) = found {
                rank_of_slot.set(s as usize, rank as u32);
                proof {
                    let now = rank_of_slot@;
                    assert forall|t: int| 0 <= t < now.len() implies {
                        ||| #[trigger] now[t] == NO_RANK && forall|j: int|
                            0 <= j < rank + 1 ==> mph.slot_of(#[trigger] ks[j]) != Some(t)
                        ||| now[t] < rank + 1 && mph.slot_of(ks[now[t] as int]) == Some(t)
                            && forall|j: int|
                            now[t] < j < rank + 1 ==> mph.slot_of(#[trigger] ks[j]) != Some(t)
                    } by {
                        if t != s {
                            assert(now[t] == before[t]);
                        }
                    }
                }
            }
            rank = rank + 1;
        }
        let bloom: Option<BlockedBloom> = if with_bloom {
            Some(BlockedBloom::build(keys))
        } else {
            None
        };
        MphPaged { blob, mph, rank_of_slot, bloom }
    }
}

impl Weighed for MphPaged {
    /// The pages, the hash, the ranks by slot, and the filter where there is one.
    open spec fn memory(&self) -> Memory {
        let m = self.blob.memory().and(self.mph.memory()).with(self.rank_of_slot@.len(), 4);
        match self.bloom {
            Some(b) => m.and(b.memory()),
            None => m,
        }
    }

    fn list_rooms(&self, r: &mut Rooms) {
        let ghost before = r.parts@;
        self.blob.list_rooms(r);
        self.mph.list_rooms(r);
        r.vector(&self.rank_of_slot, 4);
        if let Some(b) = &self.bloom {
            b.list_rooms(r);
        }
        proof {
            assert(r.parts@ =~= before + self.memory().parts);
        }
    }

    fn weigh_on(&self, s: &mut Scale<'_>) {
        let ghost before = s.made@;
        self.blob.weigh_on(s);
        self.mph.weigh_on(s);
        s.vector(Ghost(self.rank_of_slot@.len()), 4);
        if let Some(b) = &self.bloom {
            b.weigh_on(s);
        }
        proof {
            assert(s.made@ =~= before.and(self.memory()));
        }
    }
}

impl Layout for MphPaged {
    open spec fn wf(&self) -> bool {
        let ks = keys_of(self.blob.model@);
        &&& self.blob.wf()
        &&& ks.len() <= u32::MAX
        &&& self.mph.wf()
        &&& self.mph.perfect(ks)
        &&& ranks_slots(self.rank_of_slot@, self.mph, ks, ks.len() as int)
        &&& self.bloom matches Some(b) ==> b.wf() && forall|i: int|
            0 <= i < ks.len() ==> b.passes(#[trigger] ks[i])
    }

    open spec fn entries(&self) -> Seq<Entry> {
        self.blob.model@
    }

    open spec fn found(&self, key: Seq<u8>) -> Option<Ext4> {
        last_match(self.entries(), key)
    }

    open spec fn scan_term(&self, i: int) -> u64 {
        self.blob.term(i)
    }

    open spec fn scannable(&self, start: int, n: int) -> bool {
        start + n <= usize::MAX
    }

    open spec fn label(&self) -> Seq<char> {
        if self.bloom is Some {
            if self.blob.fixed {
                "mph+bloom+pagedfixed"@
            } else {
                "mph+bloom+paged"@
            }
        } else {
            if self.blob.fixed {
                "mph+pagedfixed"@
            } else {
                "mph+paged"@
            }
        }
    }

    fn name(&self) -> (s: &'static str) {
        match (self.bloom.is_some(), self.blob.fixed) {
            (true, false) => "mph+bloom+paged",
            (true, true) => "mph+bloom+pagedfixed",
            (false, false) => "mph+paged",
            (false, true) => "mph+pagedfixed",
        }
    }

    fn logical_bytes(&self) -> (n: usize) {
        bytes_of(self)
    }

    fn lookup(&self, key: &[u8]) -> (r: Option<Ext4>) {
        let ghost es = self.blob.model@;
        let ghost ks = keys_of(es);
        proof {
            // Whatever the filter and the hash say of it, a key that no entry
            // has is not found.
            if forall|i: int| 0 <= i < es.len() ==> (#[trigger] es[i]).0 != key@ {
                lemma_last_match_none(es, key@);
            } else {
                let i = choose|i: int| 0 <= i < es.len() && (#[trigger] es[i]).0 == key@;
                assert(ks[i] == key@);
            }
        }
        if let Some(b) = &self.bloom {
            if !b.maybe_contains(key) {
                return None;
            }
        }
        let slot: usize = match self.mph.slot(key) {
            Some(s) => s as usize,
            None => {
                return None;
            },
        };
        if slot >= self.rank_of_slot.len() {
            return None;
        }
        let rank: usize = self.rank_of_slot[slot] as usize;
        let (base, prefix, at) = match self.blob.locate(rank) {
            Some(x) => x,
            None => {
                return None;
            },
        };
        let r: Option<Ext4> = self.blob.matches(base, prefix, at, key);
        proof {
            if r is Some {
                assert(es[rank as int].0 == key@);
                assert forall|i: int| rank < i < es.len() implies (#[trigger] es[i]).0 != key@ by {
                    assert(ks[i] == es[i].0 && ks[rank as int] == key@);
                }
                lemma_last_match_at(es, key@, rank as int);
            } else if exists|i: int| 0 <= i < es.len() && (#[trigger] es[i]).0 == key@ {
                let i = choose|i: int| 0 <= i < es.len() && (#[trigger] es[i]).0 == key@;
                assert(ks[i] == key@ && ks[rank as int] == es[rank as int].0);
                assert(self.mph.slot_of(ks[rank as int]) == self.mph.slot_of(ks[i]));
            }
        }
        r
    }

    fn scan_from(&self, start: usize, n: usize) -> (acc: u64) {
        proof {
            assert((|i: int| self.scan_term(i)) =~= (|i: int| self.blob.term(i)));
        }
        self.blob.scan(start, n)
    }
}

} // verus!
