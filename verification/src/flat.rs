//! Self-contained records one after the other: key length, key, extent. Every
//! sixteenth record's offset is kept for ordered scans.

use crate::bytes::{
    bytes_equal, le_bytes, lemma_le16, lemma_lies, lemma_lies_append, lemma_lies_grow,
    lemma_lies_split, lies_at, push_bytes, push_le16,
};
use crate::ext::{
    ext_bytes, get_ext, get_known_bytes, get_known_le16, lemma_ext_bytes_len, put_ext,
};
use crate::layout::{entries_of, scan_end, sum_range, Entry, Ext4};
use crate::memory::{bytes_of, shrink, Memory, Rooms, Scale, Weighed};
use vstd::prelude::*;

verus! {

/// How many records apart the offsets that are kept for scans lie.
pub const RESTART_EVERY: usize = 16;

/// The record of a key and its extent. The length is kept in sixteen bits.
pub open spec fn flat_record(e: Entry, fixed: bool) -> Seq<u8> {
    le_bytes((e.0.len() as u16) as nat, 2) + (e.0 + ext_bytes(e.1, fixed))
}

/// The first `n` records in a row.
pub open spec fn flat_blob(es: Seq<Entry>, n: nat, fixed: bool) -> Seq<u8>
    decreases n,
{
    if n == 0 {
        Seq::empty()
    } else {
        flat_blob(es, (n - 1) as nat, fixed) + flat_record(es[n - 1], fixed)
    }
}

/// Where record `i` starts.
pub open spec fn flat_off(es: Seq<Entry>, i: int, fixed: bool) -> int {
    flat_blob(es, i as nat, fixed).len() as int
}

/// Each record lies where the ones before it end.
pub proof fn lemma_flat_lies(es: Seq<Entry>, n: nat, i: int, fixed: bool)
    requires
        0 <= i < n,
    ensures
        lies_at(flat_blob(es, n, fixed), flat_off(es, i, fixed), flat_record(es[i], fixed)),
        flat_off(es, i, fixed) + flat_record(es[i], fixed).len() == flat_off(es, i + 1, fixed),
        flat_off(es, i + 1, fixed) <= flat_blob(es, n, fixed).len(),
        flat_record(es[i], fixed).len() >= 6,
    decreases n,
{
    lemma_le16(es[i].0.len() as u16);
    lemma_ext_bytes_len(es[i].1, fixed);
    let before = flat_blob(es, (n - 1) as nat, fixed);
    let rec = flat_record(es[n - 1], fixed);
    if i == n - 1 {
        lemma_lies_append(before, rec);
    } else {
        lemma_flat_lies(es, (n - 1) as nat, i, fixed);
        lemma_lies_grow(before, rec, flat_off(es, i, fixed), flat_record(es[i], fixed));
    }
}

/// Records in a row, with the offset of every sixteenth.
pub struct FlatBlob {
    pub blob: Vec<u8>,
    /// The offset of every sixteenth record.
    pub restarts: Vec<u32>,
    /// Whether extents are fixed words.
    pub fixed: bool,
    /// The entries that were written.
    pub model: Ghost<Seq<Entry>>,
}

impl Weighed for FlatBlob {
    /// The records and the restarts.
    open spec fn memory(&self) -> Memory {
        Memory::nothing().with(self.blob@.len(), 1).with(self.restarts@.len(), 4)
    }

    fn list_rooms(&self, r: &mut Rooms) {
        let ghost before = r.parts@;
        r.vector(&self.blob, 1);
        r.vector(&self.restarts, 4);
        proof {
            assert(r.parts@ =~= before + self.memory().parts);
        }
    }

    fn weigh_on(&self, s: &mut Scale<'_>) {
        let ghost before = s.made@;
        s.vector(Ghost(self.blob@.len()), 1);
        s.vector(Ghost(self.restarts@.len()), 4);
        proof {
            assert(s.made@ =~= before.and(self.memory()));
        }
    }
}

impl FlatBlob {
    /// The bytes are the records of the entries, and every length and offset
    /// fits the width it is kept in.
    pub open spec fn wf(self) -> bool {
        let es = self.model@;
        &&& self.blob@ == flat_blob(es, es.len(), self.fixed)
        &&& flat_fits(es, self.fixed)
        &&& self.restarts@.len() == (es.len() + 15) / 16
        &&& forall|r: int|
            0 <= r < self.restarts@.len() ==> #[trigger] self.restarts@[r] == flat_off(
                es,
                16 * r,
                self.fixed,
            )
    }

    /// The parts are those that the entries give, whether or not offsets fit
    /// their thirty-two bits.
    pub open spec fn written(self) -> bool {
        let es = self.model@;
        &&& self.blob@ == flat_blob(es, es.len(), self.fixed)
        &&& self.restarts@.len() == (es.len() + 15) / 16
        &&& forall|r: int|
            0 <= r < self.restarts@.len() ==> #[trigger] self.restarts@[r] == flat_off(
                es,
                16 * r,
                self.fixed,
            ) as u32
    }

    /// What entry `i` contributes to a scan: its block and its key's first byte.
    pub open spec fn term(self, i: int) -> u64 {
        let e = self.model@[i];
        (e.1.block as u64).wrapping_add(
            if e.0.len() > 0 {
                e.0[0] as u64
            } else {
                0
            },
        )
    }

    /// Writes the records of the keys with their extents, and says where each
    /// one starts.
    pub fn build(keys: &[Vec<u8>], exts: &[Ext4], fixed: bool) -> (r: (FlatBlob, Vec<u32>))
        requires
            keys@.len() <= exts@.len(),
        ensures
            r.0.model@ == entries_of(keys@, exts@),
            r.0.fixed == fixed,
            r.0.written(),
            flat_fits(r.0.model@, fixed) ==> r.0.wf(),
            r.1@.len() == keys@.len(),
            forall|i: int|
                0 <= i < keys@.len() ==> #[trigger] r.1@[i] == flat_off(
                    r.0.model@,
                    i,
                    fixed,
                ) as u32,
    {
        let ghost es = entries_of(keys@, exts@);
        let mut blob: Vec<u8> = Vec::new();
        let mut offs: Vec<u32> = Vec::with_capacity(keys.len());
        let mut restarts: Vec<u32> = Vec::with_capacity(keys.len() / RESTART_EVERY + 1);
        let mut i: usize = 0;
        while i < keys.len()
            invariant
                i <= keys@.len(),
                keys@.len() <= exts@.len(),
                es == entries_of(keys@, exts@),
                blob@ == flat_blob(es, i as nat, fixed),
                offs@.len() == i,
                restarts@.len() == (i + 15) / 16,
                forall|j: int| 0 <= j < i ==> #[trigger] offs@[j] == flat_off(es, j, fixed) as u32,
                forall|r: int|
                    0 <= r < restarts@.len() ==> #[trigger] restarts@[r] == flat_off(
                        es,
                        16 * r,
                        fixed,
                    ) as u32,
            decreases keys.len() - i,
        {
            if i % RESTART_EVERY == 0 {
                restarts.push(blob.len() as u32);
            }
            offs.push(blob.len() as u32);
            push_le16(&mut blob, keys[i].len() as u16);
            push_bytes(&mut blob, &keys[i]);
            put_ext(&mut blob, exts[i], fixed);
            proof {
                assert(blob@ =~= flat_blob(es, i as nat, fixed) + flat_record(es[i as int], fixed));
            }
            i = i + 1;
        }
        shrink(&mut blob);
        shrink(&mut restarts);
        let r = FlatBlob { blob, restarts, fixed, model: Ghost(es) };
        proof {
            if flat_fits(es, fixed) {
                assert forall|k: int| 0 <= k < r.restarts@.len() implies #[trigger] r.restarts@[k]
                    == flat_off(es, 16 * k, fixed) by {
                    lemma_flat_lies(es, es.len(), 16 * k, fixed);
                }
            }
        }
        (r, offs)
    }

    /// The bytes that the records and restarts occupy.
    pub fn bytes(&self) -> (n: usize)
        ensures
            self.memory().sized(),
            self.memory().takes(n as int),
    {
        bytes_of(self)
    }

    /// The extent of the record at `off` if its key is `key`.
    pub(crate) fn matches(&self, off: usize, key: &[u8], Ghost(i): Ghost<int>) -> (r: Option<Ext4>)
        requires
            self.wf(),
            0 <= i < self.model@.len(),
            off == flat_off(self.model@, i, self.fixed),
        ensures
            r == if self.model@[i].0 == key@ {
                Some(self.model@[i].1)
            } else {
                None
            },
    {
        let ghost e = self.model@[i];
        let kl: usize = self.key_len(off, Ghost(i));
        if bytes_equal(get_known_bytes(&self.blob, off + 2, kl, Ghost(e.0)), key) {
            Some(get_ext(&self.blob, off + 2 + kl, self.fixed, Ghost(e.1)).0)
        } else {
            None
        }
    }

    /// The length of the key of the record at `off`.
    pub(crate) fn key_len(&self, off: usize, Ghost(i): Ghost<int>) -> (kl: usize)
        requires
            self.wf(),
            0 <= i < self.model@.len(),
            off == flat_off(self.model@, i, self.fixed),
        ensures
            kl == self.model@[i].0.len(),
            off + 2 + kl <= self.blob@.len() <= usize::MAX,
            lies_at(self.blob@, off + 2, self.model@[i].0),
            lies_at(self.blob@, off + 2 + kl, ext_bytes(self.model@[i].1, self.fixed)),
    {
        let ghost e = self.model@[i];
        let ghost head = le_bytes((e.0.len() as u16) as nat, 2);
        proof {
            lemma_flat_lies(self.model@, self.model@.len(), i, self.fixed);
            lemma_le16(e.0.len() as u16);
            let x = ext_bytes(e.1, self.fixed);
            lemma_lies_split(self.blob@, off as int, head, e.0 + x);
            lemma_lies_split(self.blob@, off + 2, e.0, x);
            lemma_lies(self.blob@, off + 2 + e.0.len(), x);
            assert(self.blob@.len() == self.blob.len());
            assert(e.0.len() <= u16::MAX);
        }
        get_known_le16(&self.blob, off, Ghost(e.0.len() as u16)) as usize
    }

    /// Adds up what `n` entries from position `start` on contribute.
    pub fn scan(&self, start: usize, n: usize) -> (acc: u64)
        requires
            self.wf(),
        ensures
            acc == sum_range(
                |i: int| self.term(i),
                start as int,
                scan_end(start as int, n as int, self.model@.len() as int),
            ),
    {
        let ghost es = self.model@;
        let ghost terms = |i: int| self.term(i);
        let ghost end = scan_end(start as int, n as int, es.len() as int);
        let r: usize = start / RESTART_EVERY;
        proof {
            lemma_flat_count(es, es.len(), self.fixed);
        }
        if r >= self.restarts.len() {
            return 0;
        }
        let mut p: usize = self.restarts[r] as usize;
        let mut acc: u64 = 0;
        let mut seen: usize = 0;
        let mut idx: usize = r * RESTART_EVERY;
        while p < self.blob.len() && seen < n
            invariant
                self.wf(),
                es == self.model@,
                terms == (|i: int| self.term(i)),
                end == scan_end(start as int, n as int, es.len() as int),
                idx <= es.len(),
                p == flat_off(es, idx as int, self.fixed),
                seen == if idx >= start {
                    idx - start
                } else {
                    0
                },
                seen <= n,
                acc == sum_range(terms, start as int, idx as int),
                es.len() <= u32::MAX,
            decreases es.len() - idx,
        {
            let ghost e = es[idx as int];
            proof {
                if idx == es.len() {
                    assert(self.blob@ == flat_blob(es, es.len(), self.fixed));
                }
                lemma_flat_lies(es, es.len(), idx as int, self.fixed);
            }
            let kl: usize = self.key_len(p, Ghost(idx as int));
            let kb: u64 = if kl > 0 {
                get_known_bytes(&self.blob, p + 2, kl, Ghost(e.0))[0] as u64
            } else {
                0
            };
            let (x, next) = get_ext(&self.blob, p + 2 + kl, self.fixed, Ghost(e.1));
            proof {
                assert(terms(idx as int) == self.term(idx as int));
                assert(next == flat_off(es, idx + 1, self.fixed)) by {
                    lemma_le16(e.0.len() as u16);
                }
            }
            p = next;
            if idx >= start {
                acc = acc.wrapping_add((x.block as u64).wrapping_add(kb));
                seen = seen + 1;
            }
            idx = idx + 1;
        }
        proof {
            if seen < n {
                if idx < es.len() {
                    lemma_flat_lies(es, es.len(), idx as int, self.fixed);
                }
            }
        }
        acc
    }
}

/// Every key length fits sixteen bits, and every offset thirty-two.
pub open spec fn flat_fits(es: Seq<Entry>, fixed: bool) -> bool {
    &&& forall|i: int| 0 <= i < es.len() ==> (#[trigger] es[i]).0.len() <= u16::MAX
    &&& flat_blob(es, es.len(), fixed).len() <= u32::MAX
}

/// Six bytes a record bound the number of records.
pub proof fn lemma_flat_count(es: Seq<Entry>, n: nat, fixed: bool)
    ensures
        6 * n <= flat_blob(es, n, fixed).len(),
    decreases n,
{
    if n > 0 {
        lemma_flat_count(es, (n - 1) as nat, fixed);
        lemma_flat_lies(es, n, n - 1, fixed);
    }
}

/// Records of keys of at most `most` bytes take at most that and twenty-two.
pub proof fn lemma_flat_size(es: Seq<Entry>, n: nat, fixed: bool, most: nat)
    requires
        n <= es.len(),
        forall|i: int| 0 <= i < es.len() ==> (#[trigger] es[i]).0.len() <= most,
    ensures
        flat_blob(es, n, fixed).len() <= n * (most + 22),
    decreases n,
{
    if n > 0 {
        lemma_flat_size(es, (n - 1) as nat, fixed, most);
        let e = es[n - 1];
        assert(e.0.len() <= most);
        lemma_le16(e.0.len() as u16);
        crate::ext::lemma_ext_bytes_most(e.1, fixed);
        assert(n * (most + 22) == (n - 1) * (most + 22) + most + 22) by (nonlinear_arith);
    } else {
        assert(n * (most + 22) == 0) by (nonlinear_arith)
            requires
                n == 0,
        ;
    }
}

} // verus!
