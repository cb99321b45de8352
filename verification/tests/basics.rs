use suplab::bytes::{
    bytes_equal, bytes_less, common_prefix, push_le16, push_le32, push_le64, read_le16, read_le32,
    read_le64,
};
use suplab::digits::{decimal, digits};
use suplab::hash::{fnv32, key_hash, key_hash_seeded, FNV32_START};
use suplab::memory::weigh;
use suplab::prefix::{prefix8, push_be64};
use suplab::rng::Rng;
use suplab::sort::{sorted, Pair};
use suplab::splitmix::{
    absent_key_into, deleted_pick, present_pick, write_order, SplitMix,
};
use suplab::text::{
    decimal_string, lines, parse_number, same_text, split_bytes, strip, trim, Args,
};
use suplab::varint::{get_uv, put_uv};

#[test]
fn byte_order_is_lexicographic() {
    assert!(bytes_less(b"", b"a"));
    assert!(bytes_less(b"a", b"ab"));
    assert!(bytes_less(b"a\x7f", b"a\x80"));
    assert!(!bytes_less(b"b", b"ab"));
    assert!(!bytes_less(b"ab", b"ab"));
    assert!(bytes_equal(b"ab", b"ab"));
    assert!(!bytes_equal(b"ab", b"abc"));
    assert_eq!(common_prefix(b"abcx", b"abcyz"), 3);
    assert_eq!(common_prefix(b"abc", b"abc"), 3);
    assert_eq!(common_prefix(b"", b"abc"), 0);
}

#[test]
fn fixed_words_read_back() {
    let mut v = vec![9u8];
    push_le16(&mut v, 0x1234);
    push_le32(&mut v, 0xdead_beef);
    push_le64(&mut v, 0x0102_0304_0506_0708);
    assert_eq!(
        v,
        vec![9, 0x34, 0x12, 0xef, 0xbe, 0xad, 0xde, 8, 7, 6, 5, 4, 3, 2, 1]
    );
    assert_eq!(read_le16(&v, 1), 0x1234);
    assert_eq!(read_le32(&v, 3), 0xdead_beef);
    assert_eq!(read_le64(&v, 7), 0x0102_0304_0506_0708);
}

#[test]
fn varints_read_back() {
    for (x, len) in [
        (0u64, 1usize),
        (127, 1),
        (128, 2),
        (300, 2),
        (16_383, 2),
        (16_384, 3),
        (u32::MAX as u64, 5),
        (u64::MAX, 10),
    ] {
        let mut v = vec![7u8];
        put_uv(&mut v, x);
        assert_eq!(v.len(), 1 + len);
        let mut p = 1usize;
        assert_eq!(get_uv(&v, &mut p), x);
        assert_eq!(p, v.len());
    }
    let mut v = Vec::new();
    put_uv(&mut v, 300);
    assert_eq!(v, vec![0xac, 0x02]);
    // A number that breaks off: what is there counts.
    let mut p = 0usize;
    assert_eq!(get_uv(&[0x81], &mut p), 1);
    assert_eq!(p, 1);
    let mut p = 0usize;
    assert_eq!(get_uv(&[], &mut p), 0);
    assert_eq!(p, 0);
}

#[test]
fn hashes_have_known_values() {
    assert_eq!(key_hash(b""), 0xcbf2_9ce4_8422_2325);
    assert_eq!(key_hash(b"foobar"), 0xf8ac_2471_f739_67e8);
    assert_eq!(key_hash_seeded(b"abc", 0), 0x36a0_f435_4487_109e);
    assert_eq!(key_hash_seeded(b"abc", 7), 0xca22_9160_5cab_adc6);
    assert_eq!(fnv32(FNV32_START, b""), 0x811c_9dc5);
    assert_eq!(fnv32(FNV32_START, b"a"), 0xe40c_292c);
    assert_eq!(fnv32(FNV32_START, b"foobar"), 0xbf9c_f968);
    assert_eq!(fnv32(fnv32(FNV32_START, b"foo"), b"bar"), fnv32(FNV32_START, b"foobar"));
}

#[test]
fn digits_are_padded_and_cut() {
    assert_eq!(digits(42, 6, 10), b"000042".to_vec());
    assert_eq!(digits(123_456, 3, 10), b"456".to_vec());
    assert_eq!(digits(0xbeef, 6, 16), b"00beef".to_vec());
    assert_eq!(decimal(7, 3), b"007".to_vec());
    assert_eq!(decimal(12_345, 3), b"12345".to_vec());
    assert_eq!(decimal(0, 1), b"0".to_vec());
    assert_eq!(decimal_string(0), "0");
    assert_eq!(decimal_string(u64::MAX), "18446744073709551615");
}

#[test]
fn prefixes_are_big_endian() {
    assert_eq!(prefix8(b""), 0);
    assert_eq!(prefix8(b"\x01"), 0x0100_0000_0000_0000);
    assert_eq!(prefix8(b"abcdefghij"), 0x6162_6364_6566_6768);
    let mut v = Vec::new();
    push_be64(&mut v, 0x0102_0304_0506_0708);
    assert_eq!(v, vec![1, 2, 3, 4, 5, 6, 7, 8]);
}

#[test]
fn sorting_keeps_and_orders() {
    assert_eq!(sorted(&[5u64, 1, 4, 1, 3]), vec![1, 1, 3, 4, 5]);
    assert_eq!(sorted::<u64>(&[]), Vec::<u64>::new());
    let pairs = [Pair { a: 2, b: 0 }, Pair { a: 1, b: 9 }, Pair { a: 1, b: 3 }];
    assert_eq!(
        sorted(&pairs),
        vec![Pair { a: 1, b: 3 }, Pair { a: 1, b: 9 }, Pair { a: 2, b: 0 }]
    );
}

#[test]
fn xorshift_has_known_values() {
    let mut r = Rng(1);
    assert_eq!(r.next(), 1_082_269_761);
    assert_eq!(r.next(), 1_152_992_998_833_853_505);
    assert_eq!(r.next(), 11_177_516_664_432_764_457);
    assert_eq!(r.next(), 17_678_023_832_001_937_445);
    let mut r = Rng(77);
    for _ in 0..1000 {
        assert_ne!(r.next(), 0);
    }
}

#[test]
fn splitmix_has_known_values() {
    let mut g = SplitMix(0);
    assert_eq!(g.next(), 0xe220_a839_7b1d_cdaf);
    assert_eq!(g.next(), 0x6e78_9e6a_a1b9_65f4);
    assert_eq!(g.next(), 0x06c4_5d18_8009_454f);
    let mut g = SplitMix(0);
    assert_eq!(g.next_below(10), 0xe220_a839_7b1d_cdaf % 10);
    let g = SplitMix::for_rep(0x5CA4, 2);
    assert_eq!(g.0, 0x5CA4 ^ 2u64.wrapping_mul(0x9E37_79B9_7F4A_7C15));
}

#[test]
fn write_orders_visit_each_key_once() {
    assert_eq!(write_order(8, 0xF54_0000, true), vec![0, 1, 2, 3, 4, 5, 6, 7]);
    assert_eq!(write_order(8, 0xF54_0000, false), vec![1, 4, 5, 7, 0, 6, 2, 3]);
    assert_eq!(write_order(0, 1, false), Vec::<u64>::new());
    let p = write_order(1000, 99, false);
    assert_eq!(sorted(&p), write_order(1000, 99, true));
}

#[test]
fn picks_avoid_or_hit_the_deleted_keys() {
    assert_eq!(present_pick(20), 21);
    assert_eq!(present_pick(21), 21);
    assert_eq!(present_pick(29), 29);
    assert_eq!(deleted_pick(29), 20);
    assert_eq!(deleted_pick(20), 20);
    for z in 0..1000u64 {
        assert_ne!(present_pick(z) % 10, 0);
        assert!(present_pick(z) < 1000);
        assert_eq!(deleted_pick(z) % 10, 0);
    }
    let mut buf = [0u8; 16];
    absent_key_into(12, &mut buf);
    assert_eq!(&buf[..15], b"000000000000001");
    assert_eq!(buf[15], b'2' ^ 0x80);
}

#[test]
fn numbers_are_read_strictly() {
    assert_eq!(parse_number(b"0"), Some(0));
    assert_eq!(parse_number(b"+17"), Some(17));
    assert_eq!(parse_number(b"18446744073709551615"), Some(u64::MAX));
    assert_eq!(parse_number(b"18446744073709551616"), None);
    assert_eq!(parse_number(b""), None);
    assert_eq!(parse_number(b"+"), None);
    assert_eq!(parse_number(b"-1"), None);
    assert_eq!(parse_number(b"1 "), None);
    for n in [0u64, 9, 10, 99, 1_000_000, u64::MAX] {
        assert_eq!(parse_number(decimal_string(n).as_bytes()), Some(n));
    }
}

#[test]
fn texts_are_split_and_trimmed() {
    assert_eq!(
        split_bytes(b"a,b,,c", b','),
        vec![b"a".to_vec(), b"b".to_vec(), b"".to_vec(), b"c".to_vec()]
    );
    assert_eq!(split_bytes(b"", b','), vec![b"".to_vec()]);
    assert_eq!(
        lines(b"one\ntwo\r\n\nthree"),
        vec![b"one".to_vec(), b"two".to_vec(), b"".to_vec(), b"three".to_vec()]
    );
    assert_eq!(lines(b""), Vec::<Vec<u8>>::new());
    assert_eq!(lines(b"x\n"), vec![b"x".to_vec()]);
    assert_eq!(strip(b"ack 12", b"ack "), Some(&b"12"[..]));
    assert_eq!(strip(b"ac", b"ack "), None);
    assert_eq!(trim(b" \t x y \n"), b"x y");
    assert_eq!(trim(b"   "), b"");
    assert_eq!(trim("\u{3000}\u{85} x\u{A0}y \u{1680}".as_bytes()), "x\u{A0}y".as_bytes());
    assert_eq!(trim("\u{2029}\u{205F}".as_bytes()), b"");
    assert_eq!(trim("\u{200B}x".as_bytes()), "\u{200B}x".as_bytes());
    assert!(same_text("abc", "abc"));
    assert!(!same_text("abc", "abd"));
}

#[test]
fn arguments_are_found_by_name() {
    let args = Args(
        ["prog", "--keys", "12", "--bad", "x", "--keys", "99", "--last"]
            .iter()
            .map(|s| s.to_string())
            .collect(),
    );
    assert_eq!(args.get("--keys"), Some("12"));
    assert_eq!(args.get("--last"), None);
    assert_eq!(args.get("--none"), None);
    assert_eq!(args.num("--keys", 5), 12);
    assert_eq!(args.num("--bad", 5), 5);
    assert_eq!(args.num("--none", 5), 5);
}

#[test]
fn weights_are_clamped() {
    assert_eq!(weigh(10, 3, 4), 22);
    assert_eq!(weigh(0, 0, 4), 0);
    assert_eq!(weigh(usize::MAX, 1, 1), usize::MAX);
    assert_eq!(weigh(1, usize::MAX, usize::MAX), usize::MAX);
}
