use suplab::crash::c4_value;
use suplab::damage::{
    aim, damage, index_span, payload_ranges, segment_value, wrong_values, DamageTally, ReadOutcome,
    FIRST_PAGE, LAST_BYTES,
};
use suplab::verdict::Verdict;

fn draws(n: usize, first: u64) -> Vec<u64> {
    (0..n as u64).map(|i| first + i * 7).collect()
}

#[test]
fn stored_values_are_numbered_by_depth() {
    let mut want = Vec::new();
    c4_value(3 + 2 * 10, 3, 40, &mut want);
    assert_eq!(segment_value(3, 2, 10, 40), want);
}

fn superblock(gen0: u64, gen1: u64, off: u64, stored: u64, live: usize) -> Vec<u8> {
    let mut f = vec![0u8; 8192];
    f[..8].copy_from_slice(&gen0.to_le_bytes());
    f[512..520].copy_from_slice(&gen1.to_le_bytes());
    let base = live * 512;
    f[base + 24..base + 32].copy_from_slice(&off.to_le_bytes());
    f[base + 32..base + 40].copy_from_slice(&stored.to_le_bytes());
    f
}

#[test]
fn the_newer_superblock_tells_the_index() {
    assert_eq!(index_span(&superblock(5, 4, 4096, 100, 0)), Some((4096, 100)));
    assert_eq!(index_span(&superblock(4, 5, 4096, 100, 1)), Some((4096, 100)));
    assert_eq!(index_span(&superblock(5, 5, 4096, 100, 0)), Some((4096, 100)));
    assert_eq!(index_span(&superblock(5, 4, 4096, 100, 1)), None);
    assert_eq!(index_span(&superblock(5, 4, 0, 100, 0)), None);
    assert_eq!(index_span(&superblock(5, 4, 40, 100, 0)[..520]), Some((40, 100)));
    assert_eq!(index_span(&superblock(5, 4, 8000, 193, 0)), None);
    assert_eq!(index_span(&superblock(5, 4, 8000, 192, 0)), Some((8000, 192)));
    assert_eq!(index_span(&superblock(5, 4, u64::MAX, u64::MAX, 0)), None);
}

#[test]
fn payload_lies_past_the_first_page() {
    assert_eq!(
        payload_ranges(&[(0, 10), (4095, 1), (4096, 0), (4096, 5), (9000, 2)]),
        vec![(4096, 5), (9000, 2)]
    );
}

#[test]
fn aim_follows_the_draws() {
    let payload = [(5000u64, 10u64), (6000, 4)];
    let a = aim(8192, Some((7000, 50)), &payload, &[4, 1, 7]);
    assert_eq!((a.model, a.off, a.used), (4, 6003, 3));
    let a = aim(8192, Some((7000, 50)), &payload, &[3, 77, 0]);
    assert_eq!((a.model, a.off, a.used), (3, 7027, 2));
    let a = aim(8192, None, &payload, &[3, 77, 0]);
    assert_eq!((a.model, a.off, a.used), (3, FIRST_PAGE + 77, 2));
    let a = aim(8192, Some((7000, 50)), &[], &[4, 5, 0]);
    assert_eq!((a.model, a.off, a.used), (0, FIRST_PAGE + 5, 2));
    let room = (8192 - FIRST_PAGE - LAST_BYTES) as u64;
    let a = aim(8192, None, &[], &[1, room, 0]);
    assert_eq!((a.model, a.off), (1, FIRST_PAGE));
}

#[test]
fn damage_is_local() {
    let file: Vec<u8> = (0..200u32).map(|i| (i % 251) as u8 + 1).collect();
    let (flipped, used) = damage(&file, 0, 50, &draws(49, 3));
    assert_eq!(used, 1);
    assert_eq!(flipped[50], file[50] ^ (1 << 3));
    assert_eq!(flipped[..50], file[..50]);
    assert_eq!(flipped[51..], file[51..]);
    assert_ne!(flipped, file);
    let (zeroed, used) = damage(&file, 1, 50, &draws(49, 4));
    assert_eq!(used, 1);
    assert_eq!(zeroed[50..55], [0u8; 5]);
    assert_eq!(zeroed[..50], file[..50]);
    assert_eq!(zeroed[55..], file[55..]);
    for model in [2usize, 3, 4] {
        let d = draws(49, 4);
        let (foreign, used) = damage(&file, model, 50, &d);
        assert_eq!(used, 6);
        for i in 0..5 {
            assert_eq!(foreign[50 + i], (d[1 + i] % 256) as u8);
        }
        assert_eq!(foreign[55..], file[55..]);
    }
    // A run stops at the end of the file.
    let (cut, used) = damage(&file, 2, 198, &draws(49, 47));
    assert_eq!(cut.len(), 200);
    assert_eq!(used, 3);
}

#[test]
fn wrong_values_are_counted_by_place() {
    let right: Vec<Vec<u8>> = (0..3).map(|d| segment_value(2, d, 10, 40)).collect();
    assert_eq!(wrong_values(2, 10, 3, 40, &right), 0);
    assert_eq!(wrong_values(2, 10, 3, 40, &vec![]), 3);
    assert_eq!(wrong_values(2, 10, 3, 40, &right[..2].to_vec()), 1);
    let mut more = right.clone();
    more.push(segment_value(2, 3, 10, 40));
    assert_eq!(wrong_values(2, 10, 3, 40, &more), 1);
    let mut bad = right.clone();
    bad[1][39] ^= 1;
    assert_eq!(wrong_values(2, 10, 3, 40, &bad), 1);
    let mut swapped = right;
    swapped.swap(0, 2);
    assert_eq!(wrong_values(2, 10, 3, 40, &swapped), 2);
}

#[test]
fn the_tally_decides_both_claims() {
    let mut t = DamageTally::new();
    assert_eq!(t.verdicts(), (Verdict::Holds, Verdict::Holds));
    t.note_no_op();
    t.note(0, ReadOutcome::Errored);
    t.note(1, ReadOutcome::Read { wrong: 0 });
    assert_eq!(t.trials(), 2);
    assert_eq!(t.no_op, 1);
    assert_eq!(t.verdicts(), (Verdict::Holds, Verdict::Holds));
    t.note(2, ReadOutcome::Read { wrong: 3 });
    assert_eq!((t.served_corrupt, t.wrong), (1, 3));
    assert_eq!(t.verdicts(), (Verdict::Holds, Verdict::Fails));
    t.note(4, ReadOutcome::Panicked);
    assert_eq!(t.verdicts(), (Verdict::Fails, Verdict::Fails));
    assert_eq!(t.trials(), 4);
    assert_eq!(t.clean, vec![0, 1, 1, 0, 0]);
    assert_eq!(t.errored, vec![1, 0, 0, 0, 0]);
    assert_eq!(t.panicked, vec![0, 0, 0, 0, 1]);
}
