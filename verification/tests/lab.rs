use suplab::bloom::BlockedBloom;
use suplab::btree::BTree;
use suplab::hash_flat::HashFlat;
use suplab::hash_paged::HashPaged;
use suplab::heap_hash::HeapHash;
use suplab::keyset::{make_exts, make_keys, Draws, Shape};
use suplab::lab::{absent_key, count_found, first_wrong, load_layout, room_for, sum_scans};
use suplab::layout::{Ext4, Layout};
use suplab::layouts::layout_names;
use suplab::memory::{bytes_at, rooms_of};
use suplab::mph::{count_low, Mphf};
use suplab::packed::Packed;
use suplab::paged::PagedBlob;
use suplab::rng::Rng;
use suplab::table::ProbeTable;
use suplab::trace::{FlatAddresses, HeapAddresses, PagedAddresses, Trace};

fn drawn(n: usize) -> Vec<u64> {
    let mut d = Draws::new();
    let mut r = Rng(0x1DEA);
    while d.values.len() < n {
        let _ = d.offer(r.next());
    }
    d.values
}

fn draws(n: usize) -> Vec<u64> {
    let mut r = Rng(0xF9);
    (0..n).map(|_| r.next()).collect()
}

#[test]
fn every_generated_set_loads_and_answers() {
    for shape in [Shape::Decimal16, Shape::RandomHex, Shape::Clustered] {
        for n in [1usize, 2, 17, 700] {
            let keys = make_keys(shape, n, &drawn(n));
            assert!(keys.len() <= n && !keys.is_empty());
            let exts = make_exts(keys.len());
            for name in layout_names() {
                let l = load_layout(name, &keys, &exts, 16).unwrap();
                assert_eq!(l.name(), name);
                assert_eq!(first_wrong(&l, &keys, &exts, 1_000_000), None, "{name} {n}");
                let d = draws(50);
                assert_eq!(count_found(&l, &keys, &d, false), 50, "{name} {n}");
                assert_eq!(count_found(&l, &keys, &d, true), 0, "{name} {n}");
            }
        }
    }
    let keys = make_keys(Shape::Decimal16, 3, &vec![]);
    assert!(load_layout("nothing", &keys, &make_exts(3), 16).is_none());
}

#[test]
fn wrong_answers_are_found() {
    let keys = make_keys(Shape::Decimal16, 100, &vec![]);
    let exts = make_exts(100);
    let l = load_layout("hash+flat", &keys, &exts, 16).unwrap();
    let mut other = exts.clone();
    other[60].len += 1;
    assert_eq!(first_wrong(&l, &keys, &other, 100), Some(60));
    // Every tenth key is looked at, and then every thirtieth.
    assert_eq!(first_wrong(&l, &keys, &other, 10), Some(60));
    other[60].len -= 1;
    other[61].len += 1;
    assert_eq!(first_wrong(&l, &keys, &other, 10), None);
    assert_eq!(first_wrong(&l, &keys, &other, 997), Some(61));
}

#[test]
fn absent_keys_end_behind_every_digit() {
    assert_eq!(absent_key(b"0000000000000042"), b"000000000000004~".to_vec());
    assert_eq!(absent_key(b"x"), b"~".to_vec());
}

#[test]
fn scans_add_up_alike() {
    let keys = make_keys(Shape::Decimal16, 1500, &vec![]);
    let exts = make_exts(1500);
    let d = draws(20);
    let flat = load_layout("hash+flat", &keys, &exts, 16).unwrap();
    let fixed = load_layout("hash+flatfixed", &keys, &exts, 16).unwrap();
    assert_eq!(sum_scans(&flat, 1500, &d), sum_scans(&fixed, 1500, &d));
    let one = sum_scans(&flat, 1500, &d[..1].to_vec());
    let from = d[0] as usize % 500;
    assert_eq!(one, flat.scan_from(from, 1000));
    // Each entry contributes its block and its key's first byte.
    let want: u64 = (from..from + 1000).map(|i| exts[i].block as u64 + b'0' as u64).sum();
    assert_eq!(one, want);
    assert_eq!(sum_scans(&flat, 1500, &vec![]), 0);
}

#[test]
fn structures_account_for_their_room() {
    let keys = make_keys(Shape::Decimal16, 1000, &vec![]);
    let exts = make_exts(1000);
    let mut last = Vec::new();
    for name in layout_names() {
        let l = load_layout(name, &keys, &exts, 16).unwrap();
        let bytes = l.logical_bytes();
        // No layout can hold the extents in less than a few bytes a key, and
        // none takes more than a hundred and fifty.
        assert!(bytes > 1000 * 4, "{name} {bytes}");
        // The radix table is a mebibyte whatever the keys.
        let table = if name == "packed+radix" { 4 << 18 } else { 0 };
        assert!(bytes < table + 1000 * 150, "{name} {bytes}");
        last.push(bytes);
    }
    // What is packed is smaller than the hash on the heap.
    assert!(last[2] < last[0]);
    let (flat, offs) = suplab::flat::FlatBlob::build(&keys, &exts, true);
    assert_eq!(offs[1] as usize, 2 + 16 + 16);
    assert_eq!(flat.blob.len(), 1000 * 34);
    // The vectors were shrunk to what they hold.
    assert_eq!(flat.bytes(), 1000 * 34 + 63 * 4);
}

#[test]
fn the_tree_has_the_height_it_needs() {
    let keys = make_keys(Shape::Decimal16, 3000, &vec![]);
    let exts = make_exts(3000);
    let t = BTree::build(&keys, &exts, 4096);
    assert_eq!(t.height, 2);
    // A record is thirty-four bytes and two in the directory: a hundred and
    // thirteen to a page.
    assert_eq!(t.pages.len(), (27 + 1) * 4096);
    let small = BTree::build(&keys[..5], &exts[..5], 4096);
    assert_eq!(small.height, 1);
    assert_eq!(small.lookup(&keys[3]), Some(exts[3]));
    assert_eq!(small.lookup(b"5"), None);
}

#[test]
fn the_perfect_hash_is_onto() {
    let keys = make_keys(Shape::RandomHex, 2000, &drawn(2000));
    let h = Mphf::build(&keys);
    let mut seen = vec![false; keys.len()];
    for k in &keys {
        let s = h.slot(k).unwrap() as usize;
        assert!(!seen[s]);
        seen[s] = true;
    }
    assert!(seen.iter().all(|s| *s));
    assert!(h.bytes() > 0);
    assert_eq!(count_low(0b1011, 3), 2);
    assert_eq!(count_low(u64::MAX, 0), 0);
}

#[test]
fn the_filter_never_denies_a_key() {
    let keys = make_keys(Shape::RandomHex, 2000, &drawn(2000));
    let b = BlockedBloom::build(&keys);
    let mut passed = 0;
    for k in &keys {
        assert!(b.maybe_contains(k));
        if b.maybe_contains(&absent_key(k)) {
            passed += 1;
        }
    }
    assert!(passed < 100, "{passed}");
    assert_eq!(b.bytes(), b.blocks.len() * 8);
}

#[test]
fn packed_records_are_reached_by_rank() {
    let keys = make_keys(Shape::Decimal16, 100, &vec![]);
    let exts = make_exts(100);
    let p = Packed::build(&keys, &exts, 18);
    assert_eq!(p.describe(), "packed+radix");
    assert_eq!(p.seek_restart(&keys[40]), Some(2));
    assert_eq!(p.seek_restart(b""), None);
    assert_eq!(p.at_rank(40, &keys[40]), Some(exts[40]));
    assert_eq!(p.at_rank(40, &keys[41]), None);
    assert_eq!(p.lookup(&keys[99]), Some(exts[99]));
    assert_eq!(Packed::build(&keys, &exts, 0).describe(), "packed");
}

#[test]
fn paged_records_are_located() {
    let keys = make_keys(Shape::Decimal16, 100, &vec![]);
    let exts = make_exts(100);
    for b in [PagedBlob::build(&keys, &exts, 16), PagedBlob::build_fixed(&keys, &exts, 16)] {
        assert_eq!(b.page_dir.len(), 7);
        let (base, prefix, at) = b.locate(33).unwrap();
        assert_eq!(base, b.page_dir[2] as usize);
        assert_eq!(prefix, 14);
        assert_eq!(b.matches(base, prefix, at, &keys[33]), Some(exts[33]));
        assert_eq!(b.matches(base, prefix, at, &keys[34]), None);
        assert_eq!(b.locate(100), None);
    }
}

#[test]
fn tables_probe_from_the_hash_on() {
    let mut t = ProbeTable::new(3);
    let n = t.hash.len();
    assert!(n.is_power_of_two() && n >= 4);
    t.insert(5, 70);
    t.insert(5, 71);
    assert_eq!(t.probe(5, 0).1, 70);
    assert_eq!(t.probe(5, 1).1, 71);
    assert_eq!(t.slot_of(5, 1), (t.slot_of(5, 0) + 1) % n);
}

#[test]
fn traces_count_distinct_lines_and_pages() {
    let mut t = Trace::default();
    t.touch(100, 8);
    t.touch(120, 16);
    assert_eq!((t.lines.len(), t.pages.len(), t.reads), (2, 1, 2));
    t.touch(4090, 10);
    assert_eq!((t.lines.len(), t.pages.len(), t.reads), (4, 2, 3));
    t.touch(8192, 0);
    assert_eq!((t.lines.len(), t.pages.len(), t.reads), (5, 3, 4));
}

#[test]
fn traced_lookups_read_what_they_need() {
    let keys = make_keys(Shape::Decimal16, 200, &vec![]);
    let exts = make_exts(200);
    let heap = HeapHash::build(&keys, &exts);
    let mut at = HeapAddresses { hash: 0x10_0000, entries: 0x20_0000, entry_size: 40, keys: vec![] };
    for i in 0..200 {
        at.keys.push(0x30_0000 + i * 64);
    }
    let mut t = Trace::default();
    assert!(heap.trace_lookup(&keys[7], &at, &mut t));
    assert!(t.reads >= 3);
    assert!(t.pages.contains(&0x300));
    let flat = HashFlat::build(&keys, &exts);
    let mut t = Trace::default();
    assert!(flat.trace_lookup(&keys[7], FlatAddresses { hash: 0x10_0000, blob: 0x20_0000 }, &mut t));
    assert!(t.reads >= 2);
    let paged = HashPaged::build(&keys, &exts, 16, false);
    let mut t = Trace::default();
    let at = PagedAddresses { hash: 0x10_0000, pages: 0x20_0000, page_dir: 0x30_0000 };
    assert!(paged.trace_lookup(&keys[7], at, &mut t));
    assert!(t.pages.contains(&0x300));
    assert_eq!(paged.lookup(&keys[7]), Some(exts[7]));
    assert_eq!(exts[7], Ext4 { block: 0, off: 7 * 160, len: 160, last: 140 });
    assert_eq!(Shape::parse("clustered"), Some(Shape::Clustered));
    assert_eq!(Shape::parse("x"), None);
    assert_eq!(Shape::RandomHex.as_str(), "randomhex");
}

#[test]
fn a_tree_scan_touches_the_keys() {
    let e = make_exts(1);
    let a = BTree::build(&[b"a".to_vec()], &e, 4096);
    let b = BTree::build(&[b"b".to_vec()], &e, 4096);
    assert_eq!(a.scan_from(0, 1), e[0].block as u64 + 97);
    assert_eq!(b.scan_from(0, 1), e[0].block as u64 + 98);
    let h = HeapHash::build(&[b"b".to_vec()], &e);
    assert_eq!(b.scan_from(0, 1), h.scan_from(0, 1));
    let none = BTree::build(&[b"".to_vec()], &e, 4096);
    assert_eq!(none.scan_from(0, 1), e[0].block as u64);
}

#[test]
fn a_record_that_does_not_fit_is_cut_at_the_directory() {
    let e = make_exts(1);
    let t = BTree::build(&[vec![b'a'; 20]], &e, 16);
    let mut want = vec![0, 1, 0, 20, 0];
    want.extend(vec![b'a'; 9]);
    want.extend([3, 0]);
    assert_eq!(t.pages, want);
    // Where only the directory has room, nothing else is left.
    let t = BTree::build(&[vec![b'a'; 20]], &e, 2);
    assert_eq!(t.pages, vec![3, 0]);
}

#[test]
fn counted_scans_run_to_the_end() {
    let keys = make_keys(Shape::Decimal16, 40, &vec![]);
    let exts = make_exts(40);
    for name in ["btree", "packed", "packed+radix", "hash+packed", "hash+flat", "hash+flatfixed"] {
        let l = load_layout(name, &keys, &exts, 16).unwrap();
        assert_eq!(l.scan_from(17, usize::MAX), l.scan_from(17, 23), "{name}");
        assert_ne!(l.scan_from(17, usize::MAX), l.scan_from(17, 22), "{name}");
        assert_eq!(l.scan_from(40, usize::MAX), 0, "{name}");
        assert_eq!(l.scan_from(usize::MAX, usize::MAX), 0, "{name}");
    }
}

#[test]
fn given_rooms_give_exact_bytes() {
    let keys = make_keys(Shape::Decimal16, 100, &vec![]);
    let exts = make_exts(100);
    let (flat, _) = suplab::flat::FlatBlob::build(&keys, &exts, true);
    assert_eq!(bytes_at(&flat, &[10, 3]), 10 + 3 * 4);
    let paged = PagedBlob::build(&keys, &exts, 16);
    assert_eq!(bytes_at(&paged, &[100, 7]), 100 + 7 * 4);
    let tree = BTree::build(&keys, &exts, 4096);
    assert_eq!(bytes_at(&tree, &[5]), 5);
    let bloom = BlockedBloom::build(&keys);
    assert_eq!(bytes_at(&bloom, &[64]), 64 * 8);
    for name in layout_names() {
        let l = load_layout(name, &keys, &exts, 16).unwrap();
        assert_eq!(bytes_at(&l, &rooms_of(&l)), l.logical_bytes(), "{name}");
    }
}

#[test]
fn layouts_have_room_for_their_own_number_of_keys() {
    assert!(room_for("heap-hash", 200_000_000, 0));
    assert!(room_for("hash+flat", 113_000_000, 0));
    assert!(!room_for("hash+flat", 113_000_001, 0));
    assert!(room_for("btree", 59_000_000, 0));
    assert!(!room_for("btree", 59_000_001, 0));
    assert!(room_for("hash+paged", 1000, 1637));
    assert!(!room_for("hash+paged", 1000, 1638));
    assert!(!room_for("mph+paged", 1000, 0));
    assert!(room_for("none", usize::MAX, 0));
}

#[test]
fn leaves_hold_the_keys_in_order() {
    let keys = make_keys(Shape::RandomHex, 700, &drawn(700));
    let exts = make_exts(700);
    let size = 512;
    let t = BTree::build(&keys, &exts, size);
    let count = |b: usize| t.pages[b + 1] as usize + 256 * t.pages[b + 2] as usize;
    let mut read = Vec::new();
    let mut b = 0;
    while b < t.leaf_end {
        for i in 0..count(b) {
            read.push(t.key_at(t.slot(b, count(b), i)).to_vec());
        }
        b += size;
    }
    assert_eq!(read, keys);
    assert_eq!(t.pages.len() % size, 0);
    assert_eq!(t.root, t.pages.len() - size);
    for b in (0..t.pages.len()).step_by(size) {
        assert_eq!(t.pages[b], u8::from(b >= t.leaf_end));
    }
    assert!(t.height > 1 && t.leaf_end > size);
}

#[test]
fn levels_place_the_keys_that_land_alone() {
    let keys = make_keys(Shape::RandomHex, 3000, &drawn(3000));
    let h = Mphf::build(&keys);
    // Twice as many bits as keys, in whole blocks.
    assert_eq!(h.levels[0].nbits, 6144);
    let mut placed = 0;
    for l in &h.levels {
        assert_eq!(l.base, placed);
        let ones: u32 = l.bits.iter().map(|w| w.count_ones()).sum();
        assert_eq!(*l.block_rank.last().unwrap(), ones);
        assert!(ones > 0);
        placed += ones;
    }
    assert_eq!(placed as usize + h.fallback.len(), keys.len());
    assert!(h.levels.len() == 12 || h.fallback.is_empty());
    for k in &keys {
        if let Some(s) = h.slot(&absent_key(k)) {
            assert!((s as usize) < keys.len());
        }
    }
    assert_eq!(Mphf::build(&[]).levels.len(), 0);
}

#[test]
fn a_filter_sets_few_bits_in_any_order() {
    let keys = make_keys(Shape::RandomHex, 500, &drawn(500));
    let b = BlockedBloom::build(&keys);
    let ones: u32 = b.blocks.iter().map(|w| w.count_ones()).sum();
    assert!(ones <= 6 * 500);
    assert_eq!(b.nblocks, 16);
    assert_eq!(b.blocks.len(), 8 * 16);
    let mut turned = keys.clone();
    turned.reverse();
    assert_eq!(BlockedBloom::build(&turned).blocks, b.blocks);
}

#[test]
fn tables_have_room_for_twice_the_keys() {
    let e = Ext4 { block: 300, off: 2, len: 3, last: 4 };
    let h = HashFlat::build(&[b"k".to_vec()], &[e]);
    assert_eq!(h.flat.blob, vec![1, 0, 107, 0xAC, 0x02, 2, 3, 4]);
    assert_eq!((h.table.hash.len(), h.table.mask), (16, 15));
    let taken: Vec<_> = h.table.hash.iter().filter(|s| s.1 != u32::MAX).collect();
    assert_eq!(taken.len(), 1);
    assert_eq!(taken[0].1, 0);
    assert!(h.table.hash.iter().all(|s| s.1 != u32::MAX || s.0 == 0));
    let keys = make_keys(Shape::Decimal16, 9, &vec![]);
    assert_eq!(HeapHash::build(&keys, &make_exts(9)).table.hash.len(), 32);
}

#[test]
fn a_packed_index_is_what_its_keys_give() {
    let exts = [Ext4 { block: 1, off: 2, len: 3, last: 4 }, Ext4 { block: 5, off: 6, len: 7, last: 8 }];
    let p = Packed::build(&[b"ab".to_vec(), b"ac".to_vec()], &exts, 0);
    assert_eq!(p.lcp, 1);
    assert_eq!(p.blob, vec![0, 2, 97, 98, 1, 2, 3, 4, 1, 1, 99, 5, 6, 7, 8]);
    assert_eq!(p.restarts, vec![(0x6200_0000_0000_0000, 0)]);
    assert!(p.radix.is_empty());
    assert_eq!(Packed::build(&[b"ab".to_vec()], &exts[..1], 4).radix.len(), 17);
}
