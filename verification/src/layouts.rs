//! The layouts under comparison, by name.

use crate::btree::{leaf_level, levels_of, pages_below, shrinks, tree_fits, BTree};
use crate::bytes::strictly_sorted;
use crate::flat::flat_fits;
use crate::hash_flat::{HashFlat, HashFlatFixed};
use crate::hash_packed::{lemma_all_decodable, HashPacked};
use crate::hash_paged::HashPaged;
use crate::heap_hash::{keys_memory, HeapHash};
use crate::layout::{
    entries_of, first_match, keys_of, lemma_matches_agree, own_byte, Entry, Ext4, Layout,
};
use crate::memory::{lemma_contents_add_up, Memory, Rooms, Scale, Weighed};
use crate::mph::Mphf;
use crate::mph_paged::MphPaged;
use crate::packed::{lemma_packed_found, packed_fits, Packed, KEY_LIMIT};
use crate::paged::{paged_fits, prefixes_within, shared_on_page};
use crate::text::same_text;
use vstd::layout::size_of;
use vstd::prelude::*;

verus! {

/// The page size that trees are compared at.
pub const TREE_PAGE: usize = 4096;

/// How many top bits of the prefix the radix table is over.
pub const RADIX_BITS: u32 = 18;

/// The layouts that can be asked for.
#[derive(Clone, Copy, PartialEq, Eq, Debug, Structural)]
pub enum LayoutKind {
    HeapHash,
    BTree,
    Packed,
    PackedRadix,
    HashPacked,
    HashFlat,
    HashFlatFixed,
    HashPaged,
    HashPagedFixed,
    MphPaged,
    MphPagedFixed,
    MphBloomPaged,
}

/// The name of a layout.
pub open spec fn kind_name(k: LayoutKind) -> Seq<char> {
    match k {
        LayoutKind::HeapHash => "heap-hash"@,
        LayoutKind::BTree => "btree"@,
        LayoutKind::Packed => "packed"@,
        LayoutKind::PackedRadix => "packed+radix"@,
        LayoutKind::HashPacked => "hash+packed"@,
        LayoutKind::HashFlat => "hash+flat"@,
        LayoutKind::HashFlatFixed => "hash+flatfixed"@,
        LayoutKind::HashPaged => "hash+paged"@,
        LayoutKind::HashPagedFixed => "hash+pagedfixed"@,
        LayoutKind::MphPaged => "mph+paged"@,
        LayoutKind::MphPagedFixed => "mph+pagedfixed"@,
        LayoutKind::MphBloomPaged => "mph+bloom+paged"@,
    }
}

/// The names that can be asked for, in the order in which they are measured.
pub fn layout_names() -> (names: Vec<&'static str>)
    ensures
        names@.len() == 12,
        names@[0]@ == kind_name(LayoutKind::HeapHash),
        names@[1]@ == kind_name(LayoutKind::BTree),
        names@[2]@ == kind_name(LayoutKind::Packed),
        names@[3]@ == kind_name(LayoutKind::PackedRadix),
        names@[4]@ == kind_name(LayoutKind::HashPacked),
        names@[5]@ == kind_name(LayoutKind::HashFlat),
        names@[6]@ == kind_name(LayoutKind::HashFlatFixed),
        names@[7]@ == kind_name(LayoutKind::HashPaged),
        names@[8]@ == kind_name(LayoutKind::HashPagedFixed),
        names@[9]@ == kind_name(LayoutKind::MphPaged),
        names@[10]@ == kind_name(LayoutKind::MphPagedFixed),
        names@[11]@ == kind_name(LayoutKind::MphBloomPaged),
{
    vec![
        "heap-hash",
        "btree",
        "packed",
        "packed+radix",
        "hash+packed",
        "hash+flat",
        "hash+flatfixed",
        "hash+paged",
        "hash+pagedfixed",
        "mph+paged",
        "mph+pagedfixed",
        "mph+bloom+paged",
    ]
}

/// The layout that a name stands for, if any.
pub fn layout_kind(which: &str) -> (r: Option<LayoutKind>)
    ensures
        r matches Some(k) ==> kind_name(k) == which@,
        r is None ==> forall|k: LayoutKind| #[trigger] kind_name(k) != which@,
{
    if same_text(which, "heap-hash") {
        Some(LayoutKind::HeapHash)
    } else if same_text(which, "btree") {
        Some(LayoutKind::BTree)
    } else if same_text(which, "packed") {
        Some(LayoutKind::Packed)
    } else if same_text(which, "packed+radix") {
        Some(LayoutKind::PackedRadix)
    } else if same_text(which, "hash+packed") {
        Some(LayoutKind::HashPacked)
    } else if same_text(which, "hash+flat") {
        Some(LayoutKind::HashFlat)
    } else if same_text(which, "hash+flatfixed") {
        Some(LayoutKind::HashFlatFixed)
    } else if same_text(which, "hash+paged") {
        Some(LayoutKind::HashPaged)
    } else if same_text(which, "hash+pagedfixed") {
        Some(LayoutKind::HashPagedFixed)
    } else if same_text(which, "mph+paged") {
        Some(LayoutKind::MphPaged)
    } else if same_text(which, "mph+pagedfixed") {
        Some(LayoutKind::MphPagedFixed)
    } else if same_text(which, "mph+bloom+paged") {
        Some(LayoutKind::MphBloomPaged)
    } else {
        None
    }
}

/// One of the layouts.
pub enum AnyLayout {
    HeapHash(HeapHash),
    BTree(BTree),
    Packed(Packed),
    HashPacked(HashPacked),
    HashFlat(HashFlat),
    HashFlatFixed(HashFlatFixed),
    HashPaged(HashPaged),
    MphPaged(MphPaged),
}

impl Weighed for AnyLayout {
    open spec fn memory(&self) -> Memory {
        match self {
            AnyLayout::HeapHash(l) => l.memory(),
            AnyLayout::BTree(l) => l.memory(),
            AnyLayout::Packed(l) => l.memory(),
            AnyLayout::HashPacked(l) => l.memory(),
            AnyLayout::HashFlat(l) => l.memory(),
            AnyLayout::HashFlatFixed(l) => l.memory(),
            AnyLayout::HashPaged(l) => l.memory(),
            AnyLayout::MphPaged(l) => l.memory(),
        }
    }

    fn list_rooms(&self, r: &mut Rooms) {
        match self {
            AnyLayout::HeapHash(l) => l.list_rooms(r),
            AnyLayout::BTree(l) => l.list_rooms(r),
            AnyLayout::Packed(l) => l.list_rooms(r),
            AnyLayout::HashPacked(l) => l.list_rooms(r),
            AnyLayout::HashFlat(l) => l.list_rooms(r),
            AnyLayout::HashFlatFixed(l) => l.list_rooms(r),
            AnyLayout::HashPaged(l) => l.list_rooms(r),
            AnyLayout::MphPaged(l) => l.list_rooms(r),
        }
    }

    fn weigh_on(&self, s: &mut Scale<'_>) {
        match self {
            AnyLayout::HeapHash(l) => l.weigh_on(s),
            AnyLayout::BTree(l) => l.weigh_on(s),
            AnyLayout::Packed(l) => l.weigh_on(s),
            AnyLayout::HashPacked(l) => l.weigh_on(s),
            AnyLayout::HashFlat(l) => l.weigh_on(s),
            AnyLayout::HashFlatFixed(l) => l.weigh_on(s),
            AnyLayout::HashPaged(l) => l.weigh_on(s),
            AnyLayout::MphPaged(l) => l.weigh_on(s),
        }
    }
}

impl Layout for AnyLayout {
    open spec fn wf(&self) -> bool {
        match self {
            AnyLayout::HeapHash(l) => l.wf(),
            AnyLayout::BTree(l) => l.wf(),
            AnyLayout::Packed(l) => l.wf(),
            AnyLayout::HashPacked(l) => l.wf(),
            AnyLayout::HashFlat(l) => l.wf(),
            AnyLayout::HashFlatFixed(l) => l.wf(),
            AnyLayout::HashPaged(l) => l.wf(),
            AnyLayout::MphPaged(l) => l.wf(),
        }
    }

    open spec fn entries(&self) -> Seq<Entry> {
        match self {
            AnyLayout::HeapHash(l) => l.entries(),
            AnyLayout::BTree(l) => l.entries(),
            AnyLayout::Packed(l) => l.entries(),
            AnyLayout::HashPacked(l) => l.entries(),
            AnyLayout::HashFlat(l) => l.entries(),
            AnyLayout::HashFlatFixed(l) => l.entries(),
            AnyLayout::HashPaged(l) => l.entries(),
            AnyLayout::MphPaged(l) => l.entries(),
        }
    }

    open spec fn found(&self, key: Seq<u8>) -> Option<Ext4> {
        match self {
            AnyLayout::HeapHash(l) => l.found(key),
            AnyLayout::BTree(l) => l.found(key),
            AnyLayout::Packed(l) => l.found(key),
            AnyLayout::HashPacked(l) => l.found(key),
            AnyLayout::HashFlat(l) => l.found(key),
            AnyLayout::HashFlatFixed(l) => l.found(key),
            AnyLayout::HashPaged(l) => l.found(key),
            AnyLayout::MphPaged(l) => l.found(key),
        }
    }

    open spec fn scan_term(&self, i: int) -> u64 {
        match self {
            AnyLayout::HeapHash(l) => l.scan_term(i),
            AnyLayout::BTree(l) => l.scan_term(i),
            AnyLayout::Packed(l) => l.scan_term(i),
            AnyLayout::HashPacked(l) => l.scan_term(i),
            AnyLayout::HashFlat(l) => l.scan_term(i),
            AnyLayout::HashFlatFixed(l) => l.scan_term(i),
            AnyLayout::HashPaged(l) => l.scan_term(i),
            AnyLayout::MphPaged(l) => l.scan_term(i),
        }
    }

    open spec fn scannable(&self, start: int, n: int) -> bool {
        match self {
            AnyLayout::HeapHash(l) => l.scannable(start, n),
            AnyLayout::HashPaged(l) => l.scannable(start, n),
            AnyLayout::MphPaged(l) => l.scannable(start, n),
            _ => true,
        }
    }

    open spec fn label(&self) -> Seq<char> {
        match self {
            AnyLayout::HeapHash(l) => l.label(),
            AnyLayout::BTree(l) => l.label(),
            AnyLayout::Packed(l) => l.label(),
            AnyLayout::HashPacked(l) => l.label(),
            AnyLayout::HashFlat(l) => l.label(),
            AnyLayout::HashFlatFixed(l) => l.label(),
            AnyLayout::HashPaged(l) => l.label(),
            AnyLayout::MphPaged(l) => l.label(),
        }
    }

    fn name(&self) -> (s: &'static str) {
        match self {
            AnyLayout::HeapHash(l) => l.name(),
            AnyLayout::BTree(l) => l.name(),
            AnyLayout::Packed(l) => l.name(),
            AnyLayout::HashPacked(l) => l.name(),
            AnyLayout::HashFlat(l) => l.name(),
            AnyLayout::HashFlatFixed(l) => l.name(),
            AnyLayout::HashPaged(l) => l.name(),
            AnyLayout::MphPaged(l) => l.name(),
        }
    }

    fn logical_bytes(&self) -> (n: usize) {
        match self {
            AnyLayout::HeapHash(l) => l.logical_bytes(),
            AnyLayout::BTree(l) => l.logical_bytes(),
            AnyLayout::Packed(l) => l.logical_bytes(),
            AnyLayout::HashPacked(l) => l.logical_bytes(),
            AnyLayout::HashFlat(l) => l.logical_bytes(),
            AnyLayout::HashFlatFixed(l) => l.logical_bytes(),
            AnyLayout::HashPaged(l) => l.logical_bytes(),
            AnyLayout::MphPaged(l) => l.logical_bytes(),
        }
    }

    fn lookup(&self, key: &[u8]) -> (r: Option<Ext4>) {
        match self {
            AnyLayout::HeapHash(l) => l.lookup(key),
            AnyLayout::BTree(l) => l.lookup(key),
            AnyLayout::Packed(l) => l.lookup(key),
            AnyLayout::HashPacked(l) => l.lookup(key),
            AnyLayout::HashFlat(l) => l.lookup(key),
            AnyLayout::HashFlatFixed(l) => l.lookup(key),
            AnyLayout::HashPaged(l) => l.lookup(key),
            AnyLayout::MphPaged(l) => l.lookup(key),
        }
    }

    fn scan_from(&self, start: usize, n: usize) -> (acc: u64) {
        let ghost all = |i: int| self.scan_term(i);
        match self {
            AnyLayout::HeapHash(l) => {
                assert(all =~= (|i: int| l.scan_term(i)));
                l.scan_from(start, n)
            },
            AnyLayout::BTree(l) => {
                assert(all =~= (|i: int| l.scan_term(i)));
                l.scan_from(start, n)
            },
            AnyLayout::Packed(l) => {
                assert(all =~= (|i: int| l.scan_term(i)));
                l.scan_from(start, n)
            },
            AnyLayout::HashPacked(l) => {
                assert(all =~= (|i: int| l.scan_term(i)));
                l.scan_from(start, n)
            },
            AnyLayout::HashFlat(l) => {
                assert(all =~= (|i: int| l.scan_term(i)));
                l.scan_from(start, n)
            },
            AnyLayout::HashFlatFixed(l) => {
                assert(all =~= (|i: int| l.scan_term(i)));
                l.scan_from(start, n)
            },
            AnyLayout::HashPaged(l) => {
                assert(all =~= (|i: int| l.scan_term(i)));
                l.scan_from(start, n)
            },
            AnyLayout::MphPaged(l) => {
                assert(all =~= (|i: int| l.scan_term(i)));
                l.scan_from(start, n)
            },
        }
    }
}

/// What a scan reads of an entry, whatever the layout: its block, and the first
/// byte of its key that is kept with it. That is the key's first byte where keys
/// are kept whole. Where they are packed it is the first one that the entry before
/// does not share, every sixteenth key being kept whole. On a page it is the first
/// one that the page's keys do not all share.
pub proof fn lemma_scan_reads_key_and_extent(l: AnyLayout, i: int) -> (from: int)
    requires
        l.wf(),
        0 <= i < l.entries().len(),
        l is HeapHash ==> l.entries()[i].0.len() > 0,
    ensures
        ({
            let key = l.entries()[i].0;
            &&& 0 <= from <= key.len()
            &&& l.scan_term(i) == l.entries()[i].1.block + own_byte(key, from)
            &&& l is HeapHash || l is BTree || l is HashFlat || l is HashFlatFixed ==> from == 0
            &&& l is Packed || l is HashPacked ==> if i % 16 == 0 {
                from == 0
            } else {
                let before = l.entries()[i - 1].0;
                &&& from <= before.len()
                &&& key.take(from) == before.take(from)
                &&& from < key.len() && from < before.len() ==> key[from] != before[from]
            }
            &&& l matches AnyLayout::HashPaged(h) ==> shared_on_page(
                l.entries(),
                i,
                h.blob.per_page as int,
                from,
            )
            &&& l matches AnyLayout::MphPaged(m) ==> shared_on_page(
                l.entries(),
                i,
                m.blob.per_page as int,
                from,
            )
        }),
{
    let es = l.entries();
    match l {
        AnyLayout::HeapHash(h) => {
            assert(es[i] == h.entry(i));
            0
        },
        AnyLayout::BTree(t) => 0,
        AnyLayout::HashFlat(f) => 0,
        AnyLayout::HashFlatFixed(f) => 0,
        AnyLayout::Packed(p) => p.lemma_scan_reads(i),
        AnyLayout::HashPacked(h) => h.packed.lemma_scan_reads(i),
        AnyLayout::HashPaged(h) => h.blob.lemma_scan_reads(i),
        AnyLayout::MphPaged(m) => m.blob.lemma_scan_reads(i),
    }
}

/// The bytes of the first `n` keys of a heap layout.
pub open spec fn heap_key_bytes(entries: Seq<(Vec<u8>, Ext4)>, n: nat) -> int
    decreases n,
{
    if n == 0 {
        0
    } else {
        heap_key_bytes(entries, (n - 1) as nat) + entries[n - 1].0@.len()
    }
}

/// The bytes of the first `n` levels of a perfect hash: its bits in words, and the ranks
/// of its blocks.
pub open spec fn mph_level_bytes(m: Mphf, n: nat) -> int
    decreases n,
{
    if n == 0 {
        0
    } else {
        mph_level_bytes(m, (n - 1) as nat) + m.levels@[n - 1].bits@.len() * 8 + m.levels@[n
            - 1].block_rank@.len() * 4
    }
}

/// What a layout is said to hold counts all that it is made of, each array once and at
/// the size of its elements.
pub proof fn lemma_layout_is_counted_whole(l: AnyLayout)
    ensures
        ({
            let slot = size_of::<(u8, u32)>() as int;
            let whole = l.memory().at(l.memory().lens());
            match l {
                AnyLayout::HeapHash(h) => whole == h.entries@.len() * size_of::<(Vec<u8>, Ext4)>()
                    + heap_key_bytes(h.entries@, h.entries@.len()) + h.table.hash@.len() * slot,
                AnyLayout::BTree(t) => whole == t.pages@.len(),
                AnyLayout::Packed(p) => whole == p.blob@.len() + p.restarts@.len() * size_of::<
                    (u64, u32),
                >() + p.radix@.len() * 4,
                AnyLayout::HashPacked(h) => whole == h.packed.blob@.len()
                    + h.packed.restarts@.len() * size_of::<(u64, u32)>() + h.packed.radix@.len() * 4
                    + h.table.hash@.len() * slot,
                AnyLayout::HashFlat(f) => whole == f.flat.blob@.len() + f.flat.restarts@.len() * 4
                    + f.table.hash@.len() * slot,
                AnyLayout::HashFlatFixed(f) => whole == f.flat.blob@.len() + f.flat.restarts@.len()
                    * 4 + f.table.hash@.len() * slot,
                AnyLayout::HashPaged(h) => whole == h.blob.pages@.len() + h.blob.page_dir@.len() * 4
                    + h.table.hash@.len() * slot,
                AnyLayout::MphPaged(m) => whole == m.blob.pages@.len() + m.blob.page_dir@.len() * 4
                    + mph_level_bytes(m.mph, m.mph.levels@.len()) + m.mph.fallback@.len() * 40
                    + m.rank_of_slot@.len() * 4 + match m.bloom {
                    Some(b) => (b.blocks@.len() * 8) as int,
                    None => 0int,
                },
            }
        }),
{
    let none = Memory::nothing();
    let slot = size_of::<(u8, u32)>() as int;
    match l {
        AnyLayout::HeapHash(h) => {
            lemma_heap_keys(h.entries@, h.entries@.len());
            lemma_contents_add_up(
                keys_memory(h.entries@, h.entries@.len()),
                none,
                h.table.hash@.len(),
                slot,
                0,
            );
        },
        AnyLayout::BTree(t) => {
            lemma_contents_add_up(none, none, t.pages@.len(), 1, 0);
        },
        AnyLayout::Packed(p) => {
            lemma_packed_contents(p);
        },
        AnyLayout::HashPacked(h) => {
            lemma_packed_contents(h.packed);
            lemma_contents_add_up(h.packed.memory(), none, h.table.hash@.len(), slot, 0);
        },
        AnyLayout::HashFlat(f) => {
            lemma_pair_contents(f.flat.blob@.len(), f.flat.restarts@.len());
            lemma_contents_add_up(f.flat.memory(), none, f.table.hash@.len(), slot, 0);
        },
        AnyLayout::HashFlatFixed(f) => {
            lemma_pair_contents(f.flat.blob@.len(), f.flat.restarts@.len());
            lemma_contents_add_up(f.flat.memory(), none, f.table.hash@.len(), slot, 0);
        },
        AnyLayout::HashPaged(h) => {
            lemma_pair_contents(h.blob.pages@.len(), h.blob.page_dir@.len());
            lemma_contents_add_up(h.blob.memory(), none, h.table.hash@.len(), slot, 0);
        },
        AnyLayout::MphPaged(m) => {
            lemma_pair_contents(m.blob.pages@.len(), m.blob.page_dir@.len());
            lemma_mph_levels(m.mph, m.mph.levels@.len());
            lemma_contents_add_up(
                m.mph.levels_memory(m.mph.levels@.len()),
                none,
                0,
                0,
                (m.mph.fallback@.len() * 40) as int,
            );
            lemma_contents_add_up(m.blob.memory(), m.mph.memory(), 0, 0, 0);
            let both = m.blob.memory().and(m.mph.memory());
            lemma_contents_add_up(both, none, m.rank_of_slot@.len(), 4, 0);
            if let Some(b) = m.bloom {
                lemma_contents_add_up(none, none, b.blocks@.len(), 8, 0);
                lemma_contents_add_up(both.with(m.rank_of_slot@.len(), 4), b.memory(), 0, 0, 0);
            }
        },
    }
}

/// An array of bytes and one of four bytes an element.
proof fn lemma_pair_contents(a: nat, b: nat)
    ensures
        ({
            let m = Memory::nothing().with(a, 1).with(b, 4);
            m.at(m.lens()) == a + b * 4
        }),
{
    let none = Memory::nothing();
    lemma_contents_add_up(none, none, a, 1, 0);
    lemma_contents_add_up(none.with(a, 1), none, b, 4, 0);
}

/// The arrays of a packed layout.
proof fn lemma_packed_contents(p: Packed)
    ensures
        p.memory().at(p.memory().lens()) == p.blob@.len() + p.restarts@.len() * size_of::<
            (u64, u32),
        >() + p.radix@.len() * 4,
{
    let none = Memory::nothing();
    let each = size_of::<(u64, u32)>() as int;
    lemma_contents_add_up(none, none, p.blob@.len(), 1, 0);
    let one = none.with(p.blob@.len(), 1);
    lemma_contents_add_up(one, none, p.restarts@.len(), each, 0);
    lemma_contents_add_up(one.with(p.restarts@.len(), each), none, p.radix@.len(), 4, 0);
}

/// The entries and keys of a heap layout.
proof fn lemma_heap_keys(entries: Seq<(Vec<u8>, Ext4)>, n: nat)
    ensures
        keys_memory(entries, n).at(keys_memory(entries, n).lens()) == entries.len() * size_of::<
            (Vec<u8>, Ext4),
        >() + heap_key_bytes(entries, n),
    decreases n,
{
    let none = Memory::nothing();
    if n == 0 {
        lemma_contents_add_up(none, none, entries.len(), size_of::<(Vec<u8>, Ext4)>() as int, 0);
    } else {
        lemma_heap_keys(entries, (n - 1) as nat);
        lemma_contents_add_up(
            keys_memory(entries, (n - 1) as nat),
            none,
            entries[n - 1].0@.len(),
            1,
            0,
        );
    }
}

/// The levels of a perfect hash.
proof fn lemma_mph_levels(m: Mphf, n: nat)
    ensures
        m.levels_memory(n).at(m.levels_memory(n).lens()) == mph_level_bytes(m, n),
    decreases n,
{
    let none = Memory::nothing();
    if n == 0 {
        lemma_contents_add_up(none, none, 0, 0, 0);
    } else {
        lemma_mph_levels(m, (n - 1) as nat);
        let before = m.levels_memory((n - 1) as nat);
        let level = m.levels@[n - 1];
        lemma_contents_add_up(before, none, level.bits@.len(), 8, 0);
        lemma_contents_add_up(
            before.with(level.bits@.len(), 8),
            none,
            level.block_rank@.len(),
            4,
            0,
        );
    }
}

/// The keys and extents can be loaded into a layout.
pub open spec fn loadable(
    k: LayoutKind,
    keys: Seq<Vec<u8>>,
    exts: Seq<Ext4>,
    per_page: usize,
) -> bool {
    let es = entries_of(keys, exts);
    let size = TREE_PAGE as int;
    let fits = keys.len() <= exts.len();
    match k {
        LayoutKind::HeapHash => keys.len() <= usize::MAX / 4,
        LayoutKind::BTree => {
            &&& 0 < keys.len()
            &&& fits
            &&& shrinks(es, leaf_level(es, size), size)
            &&& pages_below(levels_of(es, size), levels_of(es, size).len() as int) * size
                <= usize::MAX
        },
        LayoutKind::Packed | LayoutKind::PackedRadix => fits,
        LayoutKind::HashPacked | LayoutKind::HashFlat | LayoutKind::HashFlatFixed => fits
            && keys.len() <= usize::MAX / 4,
        LayoutKind::HashPaged | LayoutKind::HashPagedFixed => fits && keys.len() <= usize::MAX / 4
            && per_page > 0 && prefixes_within(es, per_page as int),
        LayoutKind::MphPaged | LayoutKind::MphPagedFixed | LayoutKind::MphBloomPaged => fits
            && keys.len() <= u32::MAX && keys.len() * 12 <= usize::MAX && per_page > 0
            && prefixes_within(es, per_page as int),
    }
}

/// What a layout keeps in fewer bits fits there, and its keys are sorted where
/// it needs that: it is then whole.
pub open spec fn loads_whole(k: LayoutKind, es: Seq<Entry>, per_page: usize) -> bool {
    let pp = per_page as int;
    match k {
        LayoutKind::HeapHash => es.len() <= u32::MAX,
        LayoutKind::BTree => tree_fits(es, TREE_PAGE as int),
        LayoutKind::Packed | LayoutKind::PackedRadix => packed_fits(es) && strictly_sorted(
            keys_of(es),
        ),
        LayoutKind::HashPacked => packed_fits(es),
        LayoutKind::HashFlat => flat_fits(es, false),
        LayoutKind::HashFlatFixed => flat_fits(es, true),
        LayoutKind::HashPaged => paged_fits(es, pp, false) && es.len() <= u32::MAX,
        LayoutKind::HashPagedFixed => paged_fits(es, pp, true) && es.len() <= u32::MAX,
        LayoutKind::MphPaged | LayoutKind::MphBloomPaged => paged_fits(es, pp, false),
        LayoutKind::MphPagedFixed => paged_fits(es, pp, true),
    }
}

/// A layout has the sizes that it is compared with: those of the tree's pages,
/// of the radix table and of the paged layouts' pages.
pub open spec fn set_up(l: AnyLayout, per_page: usize) -> bool {
    match l {
        AnyLayout::BTree(t) => t.page_size == TREE_PAGE,
        AnyLayout::Packed(p) => p.radix_bits == 0 || p.radix_bits == RADIX_BITS,
        AnyLayout::HashPaged(h) => h.blob.per_page == per_page,
        AnyLayout::MphPaged(m) => m.blob.per_page == per_page,
        _ => true,
    }
}

/// Loads the keys with their extents into the layout of a name. Pages of the
/// paged layouts hold `per_page` records.
pub fn build_layout(which: &str, keys: &[Vec<u8>], exts: &[Ext4], per_page: usize) -> (r: AnyLayout)
    requires
        exists|k: LayoutKind| #[trigger]
            kind_name(k) == which@ && loadable(k, keys@, exts@, per_page),
        forall|k: LayoutKind| #[trigger]
            kind_name(k) == which@ ==> loadable(k, keys@, exts@, per_page),
    ensures
        r.label() == which@,
        r.entries() == entries_of(keys@, exts@),
        set_up(r, per_page),
        forall|k: LayoutKind| #[trigger]
            kind_name(k) == which@ && loads_whole(k, r.entries(), per_page) ==> r.wf(),
{
    let kind: Option<LayoutKind> = layout_kind(which);
    assert(kind is Some);
    proof {
        lemma_names_distinct();
    }
    match kind {
        Some(LayoutKind::HeapHash) => AnyLayout::HeapHash(HeapHash::build(keys, exts)),
        Some(LayoutKind::BTree) => AnyLayout::BTree(BTree::build(keys, exts, TREE_PAGE)),
        Some(LayoutKind::Packed) => AnyLayout::Packed(Packed::build(keys, exts, 0)),
        Some(LayoutKind::PackedRadix) => AnyLayout::Packed(Packed::build(keys, exts, RADIX_BITS)),
        Some(LayoutKind::HashPacked) => AnyLayout::HashPacked(HashPacked::build(keys, exts)),
        Some(LayoutKind::HashFlat) => AnyLayout::HashFlat(HashFlat::build(keys, exts)),
        Some(LayoutKind::HashFlatFixed) => AnyLayout::HashFlatFixed(
            HashFlatFixed::build(keys, exts),
        ),
        Some(LayoutKind::HashPaged) => AnyLayout::HashPaged(
            HashPaged::build(keys, exts, per_page, false),
        ),
        Some(LayoutKind::HashPagedFixed) => AnyLayout::HashPaged(
            HashPaged::build(keys, exts, per_page, true),
        ),
        Some(LayoutKind::MphPaged) => AnyLayout::MphPaged(
            MphPaged::build(keys, exts, per_page, false, false),
        ),
        Some(LayoutKind::MphPagedFixed) => AnyLayout::MphPaged(
            MphPaged::build(keys, exts, per_page, false, true),
        ),
        Some(LayoutKind::MphBloomPaged) | None => AnyLayout::MphPaged(
            MphPaged::build(keys, exts, per_page, true, false),
        ),
    }
}

/// No two layouts have the same name.
pub proof fn lemma_names_distinct()
    ensures
        forall|a: LayoutKind, b: LayoutKind| #[trigger]
            kind_name(a) == #[trigger] kind_name(b) ==> a == b,
{
    reveal_strlit("heap-hash");
    reveal_strlit("btree");
    reveal_strlit("packed");
    reveal_strlit("packed+radix");
    reveal_strlit("hash+packed");
    reveal_strlit("hash+flat");
    reveal_strlit("hash+flatfixed");
    reveal_strlit("hash+paged");
    reveal_strlit("hash+pagedfixed");
    reveal_strlit("mph+paged");
    reveal_strlit("mph+pagedfixed");
    reveal_strlit("mph+bloom+paged");
    assert("heap-hash"@.len() == 9 && "heap-hash"@[1] == 'e');
    assert("btree"@.len() == 5);
    assert("packed"@.len() == 6);
    assert("packed+radix"@.len() == 12);
    assert("hash+packed"@.len() == 11);
    assert("hash+flat"@.len() == 9 && "hash+flat"@[1] == 'a');
    assert("hash+flatfixed"@.len() == 14 && "hash+flatfixed"@[0] == 'h');
    assert("hash+paged"@.len() == 10);
    assert("hash+pagedfixed"@.len() == 15 && "hash+pagedfixed"@[0] == 'h');
    assert("mph+paged"@.len() == 9 && "mph+paged"@[1] == 'p');
    assert("mph+pagedfixed"@.len() == 14 && "mph+pagedfixed"@[0] == 'm');
    assert("mph+bloom+paged"@.len() == 15 && "mph+bloom+paged"@[0] == 'm');
}

/// Whatever the layout, over sorted keys that can be decoded a lookup finds
/// every key's own extent, and nothing for a key that is not there. So all of
/// them agree.
pub proof fn lemma_layouts_agree(l: AnyLayout, key: Seq<u8>)
    requires
        l.wf(),
        strictly_sorted(keys_of(l.entries())),
        forall|j: int| 0 <= j < l.entries().len() ==> (#[trigger] l.entries()[j]).0.len()
            <= KEY_LIMIT,
    ensures
        l.found(key) == first_match(l.entries(), key),
{
    let es = l.entries();
    match l {
        AnyLayout::Packed(_) => {
            lemma_packed_found(es, key);
        },
        AnyLayout::HashPacked(_) => {
            lemma_all_decodable(es, es.len());
            assert(es.take(es.len() as int) =~= es);
        },
        AnyLayout::MphPaged(_) => {
            let ks = keys_of(es);
            assert(ks.no_duplicates()) by {
                assert forall|a: int, b: int|
                    0 <= a < ks.len() && 0 <= b < ks.len() && a != b implies ks[a] != ks[b] by {
                    if a < b {
                        crate::bytes::lemma_order_total(ks[a], ks[b]);
                    } else {
                        crate::bytes::lemma_order_total(ks[b], ks[a]);
                    }
                }
            }
            lemma_matches_agree(es, key);
        },
        _ => {},
    }
}

} // verus!
