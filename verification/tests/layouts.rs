use suplab::bytes::bytes_less;
use suplab::keyset::{make_exts, make_keys, Draws, Shape};
use suplab::layout::{Ext4, Layout};
use suplab::layouts::{build_layout, layout_kind, layout_names, AnyLayout};

fn xorshift(x: &mut u64) -> u64 {
    *x ^= *x << 13;
    *x ^= *x >> 7;
    *x ^= *x << 17;
    *x
}

fn drawn(n: usize) -> Vec<u64> {
    let mut d = Draws::new();
    let mut x = 0x1DEAu64;
    while d.values.len() < n {
        let _ = d.offer(xorshift(&mut x));
    }
    d.values
}

fn absent(key: &[u8]) -> Vec<u8> {
    let mut k = key.to_vec();
    let last = k.len() - 1;
    k[last] = b'~';
    k
}

fn check_all(shape: Shape, n: usize, per_page: usize) {
    let keys = make_keys(shape, n, &drawn(n));
    let exts = make_exts(keys.len());
    for name in layout_names() {
        let l: AnyLayout = build_layout(name, &keys, &exts, per_page);
        assert_eq!(l.name(), name);
        for i in 0..keys.len() {
            assert_eq!(l.lookup(&keys[i]), Some(exts[i]), "{name} {i}");
            assert_eq!(l.lookup(&absent(&keys[i])), None, "{name} {i}");
        }
        assert_eq!(l.lookup(b""), None);
        assert_eq!(l.lookup(b"\xff\xff\xff\xff\xff\xff\xff\xff\xff\xff\xff\xff\xff\xff\xff\xff\xff"), None);
        assert_eq!(l.lookup(b"5"), None);
    }
}

#[test]
fn every_layout_finds_decimal_keys() {
    check_all(Shape::Decimal16, 3000, 8);
}

#[test]
fn every_layout_finds_random_keys() {
    check_all(Shape::RandomHex, 3000, 16);
}

#[test]
fn every_layout_finds_clustered_keys() {
    check_all(Shape::Clustered, 3000, 128);
}

#[test]
fn keys_are_sorted_and_distinct() {
    for shape in [Shape::Decimal16, Shape::RandomHex, Shape::Clustered] {
        let keys = make_keys(shape, 1000, &drawn(1000));
        assert_eq!(keys.len(), 1000);
        for i in 1..keys.len() {
            assert!(bytes_less(&keys[i - 1], &keys[i]));
        }
    }
    assert_eq!(layout_kind("nothing"), None);
    let _ = Ext4::default();
}
