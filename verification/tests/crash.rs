use suplab::crash::{
    c4_ops, c4_value, check_key, check_scanned, check_value, judge, matching_batches, same_state,
    sync_arm, C4Op, Outcome, SyncArm,
};
use suplab::crash_child::{
    abort_line, ack_line, read_death, read_report, Child, ChildAction, Death,
};
use suplab::crash_run::{
    crash_mode, crash_mode_name, crash_trial, crash_verdicts, note_scanned, stale_bytes, tear,
    tear_span, C4Arm, Coverage, CrashMode, Tear, TearSpan,
};
use suplab::kvbench::db_key;
use suplab::verdict::Verdict;

#[test]
fn operations_come_from_the_draws() {
    let ops = c4_ops(&[0, (1 << 32) | 5, 0x1234_5678_9abc_def0, (1 << 44) | (1 << 32) | 7], 16);
    assert_eq!(
        ops,
        vec![
            C4Op::Del { key: 0 },
            C4Op::Del { key: 0 },
            C4Op::Put { key: 5, len: 300 },
            C4Op::Put { key: 0, len: 56 },
            C4Op::Put { key: 7, len: 25 },
        ]
    );
}

#[test]
fn values_name_themselves() {
    let mut v = b"left over".to_vec();
    c4_value(3, 9, 28, &mut v);
    assert_eq!(
        v,
        vec![
            0, 0, 0, 0, 0, 0, 0, 3, 0, 0, 0, 0, 0, 0, 0, 9, 0xda, 0xa6, 0x6d, 0x2c, 0x7d, 0xdf,
            0x74, 0x36, 0x1e, 0x3d, 0x5c, 0x7b
        ]
    );
    let mut w = Vec::new();
    c4_value(4, 9, 28, &mut w);
    assert_ne!(v, w);
    c4_value(3, 8, 28, &mut w);
    assert_ne!(v, w);
}

fn stream() -> Vec<C4Op> {
    vec![
        C4Op::Del { key: 0 },
        C4Op::Put { key: 1, len: 30 },
        C4Op::Put { key: 1, len: 24 },
        C4Op::Put { key: 0, len: 40 },
        C4Op::Del { key: 1 },
        C4Op::Put { key: 2, len: 24 },
        C4Op::Put { key: 2, len: 24 },
    ]
}

fn written(ops: &[C4Op], seq: usize) -> Vec<u8> {
    let mut v = Vec::new();
    if let C4Op::Put { key, len } = ops[seq] {
        c4_value(seq as u64, key, len, &mut v);
    }
    v
}

#[test]
fn only_written_values_are_recognised() {
    let ops = stream();
    assert_eq!(check_value(&ops, 1, &written(&ops, 1)), Some(1));
    assert_eq!(check_value(&ops, 0, &written(&ops, 1)), None);
    let mut bad = written(&ops, 1);
    bad[29] ^= 1;
    assert_eq!(check_value(&ops, 1, &bad), None);
    assert_eq!(check_value(&ops, 1, b"short"), None);
    let mut foreign = Vec::new();
    c4_value(99, 1, 24, &mut foreign);
    assert_eq!(check_value(&ops, 1, &foreign), None);
    c4_value(4, 1, 24, &mut foreign);
    assert_eq!(check_value(&ops, 1, &foreign), None);
    let (seqs, invented) = check_key(&ops, 1, &vec![written(&ops, 1), bad, written(&ops, 2)]);
    assert_eq!(seqs, vec![1, 2]);
    assert_eq!(invented, 1);
}

#[test]
fn scanned_values_name_their_key() {
    let ops = stream();
    let v = written(&ops, 3);
    assert_eq!(check_scanned(3, &db_key(0), &v), Some((0, 3)));
    assert_eq!(check_scanned(3, &db_key(1), &v), None);
    assert_eq!(check_scanned(0, &db_key(0), &v), None);
    let mut scanned = vec![vec![], vec![7], vec![]];
    note_scanned(&mut scanned, &db_key(0), &v);
    note_scanned(&mut scanned, &db_key(1), &v);
    note_scanned(&mut scanned, &db_key(1), &written(&ops, 1));
    assert_eq!(scanned, vec![vec![3], vec![7, 1], vec![]]);
}

#[test]
fn recovered_states_match_their_batches() {
    let ops = stream();
    // Two operations to a batch: after none, one, two and three batches.
    let none: Vec<Vec<u64>> = vec![vec![], vec![], vec![]];
    let one = vec![vec![], vec![1, 2], vec![]];
    let two = vec![vec![3], vec![], vec![]];
    let three = vec![vec![3], vec![], vec![5, 6]];
    assert_eq!(matching_batches(&ops, 3, 2, 5, &none), vec![0]);
    assert_eq!(matching_batches(&ops, 3, 2, 5, &one), vec![1]);
    assert_eq!(matching_batches(&ops, 3, 2, 5, &two), vec![2]);
    assert_eq!(matching_batches(&ops, 3, 2, 5, &three), vec![3]);
    assert_eq!(matching_batches(&ops, 3, 2, 5, &vec![vec![3], vec![1], vec![]]), vec![]);
    assert!(same_state(&two, &two.clone()));
    assert!(!same_state(&two, &three));
    assert!(!same_state(&none, &vec![vec![], vec![]]));
    // A state may be that of several batches.
    let idle = vec![C4Op::Del { key: 0 }; 5];
    assert_eq!(matching_batches(&idle, 1, 2, 3, &vec![vec![]]), vec![0, 1, 2]);
}

#[test]
fn the_window_follows_the_policy() {
    assert_eq!(sync_arm("always"), SyncArm::Always);
    assert_eq!(sync_arm("every8"), SyncArm::EveryN);
    assert_eq!(judge(&[], SyncArm::Always, 10), Outcome::NoPrefix);
    assert_eq!(judge(&[10], SyncArm::Always, 10), Outcome::Within { best: 10 });
    assert_eq!(judge(&[11], SyncArm::Always, 10), Outcome::Within { best: 11 });
    assert_eq!(judge(&[9], SyncArm::Always, 10), Outcome::Lost { best: 9 });
    assert_eq!(judge(&[12], SyncArm::Always, 10), Outcome::Past { best: 12 });
    assert_eq!(judge(&[3], SyncArm::EveryN, 10), Outcome::Within { best: 3 });
    assert_eq!(judge(&[2], SyncArm::EveryN, 10), Outcome::Lost { best: 2 });
    assert_eq!(judge(&[0], SyncArm::EveryN, 5), Outcome::Within { best: 0 });
    assert_eq!(judge(&[2, 9, 12], SyncArm::EveryN, 10), Outcome::Within { best: 9 });
    assert_eq!(judge(&[2, 12], SyncArm::EveryN, 10), Outcome::Past { best: 12 });
}

#[test]
fn trials_cover_both_policies_and_every_mode() {
    let mut seen = Vec::new();
    for t in 0..24u64 {
        let r = crash_trial(t, 1000, 10 + t, t);
        assert_eq!(r.seed, 0xC4 + t);
        assert_eq!(r.abort_after, 11 + t);
        assert_eq!(r.cap, 1011 + t);
        let name = crash_mode_name(r.mode);
        assert_eq!(crash_mode("else"), CrashMode::Other);
        assert_eq!(crash_mode(name), r.mode);
        let cell = (r.arm == SyncArm::Always, r.batch, name);
        if !seen.contains(&cell) {
            seen.push(cell);
        }
    }
    assert_eq!(seen.len(), 24);
    let r = crash_trial(0, 1000, 10, 2);
    assert_eq!((r.arm, r.batch, r.mode), (SyncArm::Always, 4, CrashMode::Fixed));
    assert!(r.late);
    assert!(!r.recycle);
    let r = crash_trial(7, 1000, 10, 2);
    assert_eq!((r.arm, r.batch, r.mode), (SyncArm::EveryN, 256, CrashMode::Seal));
    assert!(!r.late);
    assert!(r.recycle);
}

#[test]
fn tears_stay_in_the_unsynced_tail() {
    assert_eq!(tear_span(100, 40, 90, 0), Some(TearSpan { base: 40, hi: 90 }));
    assert_eq!(tear_span(100, 40, 90, 8), Some(TearSpan { base: 32, hi: 90 }));
    assert_eq!(tear_span(100, 40, 40, 0), None);
    assert_eq!(tear_span(30, 40, 90, 0), None);
    let span = TearSpan { base: 40, hi: 90 };
    assert_eq!(tear(90, 90, span, 10), (50, Tear::Truncate { cut: 50 }));
    assert_eq!(tear(90, 90, span, 50), (90, Tear::Whole));
    assert_eq!(
        tear(200, 90, span, 10),
        (50, Tear::Stale { from: 90, at: 50, span: 40 })
    );
    let head = TearSpan { base: 0, hi: 20 };
    assert_eq!(
        tear(200, 20, head, 3),
        (3, Tear::Stale { from: 25, at: 8, span: 12 })
    );
    let tiny = TearSpan { base: 0, hi: 6 };
    assert_eq!(tear(200, 6, tiny, 3), (3, Tear::Header));
    assert_eq!(stale_bytes(b"abc", 5), b"abc\x00\x00".to_vec());
    assert_eq!(stale_bytes(b"abc", 2), b"ab".to_vec());
}

#[test]
fn arms_count_what_they_are_told() {
    let mut a = C4Arm::new("always");
    assert_eq!(a.name, "always");
    a.note("first".to_string());
    a.note("second".to_string());
    assert_eq!(a.first, "first");
    a.note_crash(true);
    a.note_crash(false);
    a.note_reads(3, true, false);
    a.note_reads(0, false, true);
    a.note_outcome(Outcome::NoPrefix, 5);
    a.note_outcome(Outcome::Past { best: 9 }, 5);
    a.note_outcome(Outcome::Lost { best: 1 }, 5);
    a.note_outcome(Outcome::Within { best: 3 }, 5);
    a.note_outcome(Outcome::Within { best: 6 }, 5);
    assert_eq!((a.crashes, a.open_failed), (2, 1));
    assert_eq!((a.invented, a.count_disagreed, a.scan_disagreed), (3, 1, 1));
    assert_eq!((a.no_prefix, a.acked_lost, a.worst_lost), (2, 1, 4));
}

#[test]
fn coverage_decides_what_was_exercised() {
    let mut always = C4Arm::new("always");
    let mut every = C4Arm::new("every8");
    let mut c = Coverage::new();
    c.note_failure();
    assert_eq!(c.child_errors, 1);
    let mut c = Coverage::new();
    let v = crash_verdicts(&always, &every, &c);
    assert_eq!(v.opens, Verdict::NotExercised);
    assert_eq!(v.acked_survives, Verdict::NotExercised);
    assert_eq!(v.exact_prefix, Verdict::Holds);
    assert_eq!(v.invents_nothing, Verdict::Holds);
    assert_eq!(v.bounded_loss, Verdict::NotExercised);
    always.note_crash(true);
    every.note_crash(true);
    c.note_death(true, true, 2, true, false);
    c.note_tear(Tear::Truncate { cut: 5 }, 5, 20);
    c.note_tear(Tear::Whole, 20, 20);
    c.note_tear(Tear::Stale { from: 1, at: 9, span: 2 }, 9, 11);
    assert_eq!((c.seal_in_flight, c.merge_in_flight, c.with_partitions), (1, 1, 1));
    assert_eq!((c.late, c.recycled), (1, 0));
    assert_eq!((c.torn, c.torn_headers, c.torn_into_stale, c.max_torn), (2, 1, 1, 15));
    let v = crash_verdicts(&always, &every, &c);
    assert_eq!(v.opens, Verdict::Holds);
    assert_eq!(v.acked_survives, Verdict::Holds);
    assert_eq!(v.bounded_loss, Verdict::Holds);
    always.note_outcome(Outcome::Lost { best: 0 }, 2);
    every.note_outcome(Outcome::NoPrefix, 2);
    every.note_reads(1, false, false);
    let v = crash_verdicts(&always, &every, &c);
    assert_eq!(v.acked_survives, Verdict::Fails);
    assert_eq!(v.exact_prefix, Verdict::Fails);
    assert_eq!(v.invents_nothing, Verdict::Fails);
    assert_eq!(v.bounded_loss, Verdict::Fails);
}

#[test]
fn a_writer_dies_where_it_is_told() {
    let mut c = Child::new(CrashMode::Fixed, false, 4, 100, 2);
    let mut seen = Vec::new();
    loop {
        let a = c.next(false, false);
        seen.push(a);
        if matches!(a, ChildAction::Die { .. }) {
            break;
        }
    }
    assert_eq!(
        seen,
        vec![
            ChildAction::Apply { i: 1 },
            ChildAction::Apply { i: 2 },
            ChildAction::Commit,
            ChildAction::Ack { n: 1 },
            ChildAction::Apply { i: 3 },
            ChildAction::Die { acked: 1, op: 4 },
        ]
    );
}

#[test]
fn a_late_writer_dies_between_commit_and_word() {
    let mut c = Child::new(CrashMode::Fixed, true, 3, 100, 2);
    let mut last = ChildAction::Ask;
    let mut commits = 0;
    for _ in 0..50 {
        last = c.next(true, true);
        if last == ChildAction::Commit {
            commits += 1;
        }
        if matches!(last, ChildAction::Die { .. }) {
            break;
        }
    }
    assert_eq!(commits, 2);
    assert_eq!(last, ChildAction::Die { acked: 1, op: 5 });
}

#[test]
fn a_writer_waits_for_a_seal() {
    let mut c = Child::new(CrashMode::Seal, false, 6, 100, 2);
    let mut applied = 0;
    for _ in 0..20 {
        match c.next(applied >= 5, false) {
            ChildAction::Apply { i } => applied = i,
            ChildAction::Die { acked, op } => {
                assert_eq!((acked, op), (2, 6));
                return;
            }
            _ => {}
        }
    }
    unreachable!();
}

#[test]
fn every_fifth_batch_is_a_transaction() {
    let mut c = Child::new(CrashMode::Fixed, false, 1000, 1000, 2);
    let mut begun = Vec::new();
    let mut acked = 0;
    for _ in 0..100 {
        match c.next(false, false) {
            ChildAction::Begin => begun.push(acked),
            ChildAction::Ack { n } => acked = n,
            ChildAction::Stage { i } => assert!(i == 2 * acked + 1 || i == 2 * acked + 2),
            _ => {}
        }
    }
    assert_eq!(begun[..2].to_vec(), vec![4, 9]);
}

#[test]
fn reports_read_back() {
    let d = Death {
        acked: 12,
        op: 345,
        seal: true,
        compact: false,
        parts: 3,
        l0: 2,
        wal: b"wal-00000007".to_vec(),
        synced: 4096,
        written: 5000,
    };
    let line = abort_line(&d);
    assert_eq!(
        line,
        b"abort acked=12 op=345 seal=1 compact=0 parts=3 l0=2 wal=wal-00000007 synced=4096 written=5000".to_vec()
    );
    let back = read_death(&line);
    assert_eq!((back.acked, back.op, back.seal, back.compact), (12, 345, true, false));
    assert_eq!((back.parts, back.l0, back.synced, back.written), (3, 2, 4096, 5000));
    assert_eq!(back.wal, d.wal);
    assert_eq!(ack_line(7), b"ack 7".to_vec());
    let mut out = Vec::new();
    for n in 1..=3 {
        out.extend_from_slice(&ack_line(n));
        out.push(b'\n');
    }
    out.extend_from_slice(&line);
    out.push(b'\n');
    let r = read_report(&out);
    assert_eq!(r.acked, 3);
    assert_eq!(r.death.unwrap().op, 345);
    let r = read_report(b"ack 5\nnoise\nack x\n");
    assert_eq!(r.acked, 5);
    assert!(r.death.is_none());
    let r = read_report(b"");
    assert_eq!(r.acked, 0);
    assert!(r.death.is_none());
    let broken = read_death(b"abort acked=x");
    assert_eq!((broken.acked, broken.op), (0, 1));
    assert!(broken.wal.is_empty());
}

#[test]
fn a_writer_of_another_mode_is_never_late() {
    let mut c = Child::new(CrashMode::Other, true, 3, 7, 2);
    let mut acks = 0;
    let mut steps = 0;
    loop {
        match c.next(false, false) {
            ChildAction::Ack { n } => acks = n,
            ChildAction::Die { acked, op } => {
                assert_eq!((acked, op), (3, 7));
                break;
            }
            _ => {}
        }
        steps += 1;
        assert!(steps < 100);
    }
    assert_eq!(acks, 3);
}
