use suplab::concur;
use suplab::concur::{note_generation, policy, round_value, torn_signs, ReclaimPolicy, Sighting};
use suplab::kvbench::{
    db_key, db_key_into, fill_step, make_value, read_step, value_window, WINDOW,
};
use suplab::mvcc;
use suplab::mvcc::{current_tally, holds_stage, past_tally, PastRead, Stage};
use suplab::rng::Rng;
use suplab::soak;
use suplab::soak::{soak_step, SoakOp};
use suplab::supbench::{
    after_round, append_key, build_pool, event_value, key_bytes, key_is_whole, permutation, pool_index,
    pool_record, sample, share, POOL,
};
use suplab::survivors::survivors;
use suplab::tablebench;
use suplab::tablebench::{scattered, SIZES};

#[test]
fn store_keys_are_sixteen_digits() {
    assert_eq!(db_key(42), b"0000000000000042".to_vec());
    let mut buf = [0u8; 16];
    db_key_into(9_999_999_999_999_999, &mut buf);
    assert_eq!(&buf, b"9999999999999999");
    db_key_into(10_000_000_000_000_000, &mut buf);
    assert_eq!(&buf, b"0000000000000000");
    tablebench::db_key(7, &mut buf);
    assert_eq!(&buf, b"0000000000000007");
    for n in 0..200u64 {
        assert!(db_key(n * 37) < db_key(n * 37 + 1));
    }
}

#[test]
fn values_are_half_compressible() {
    let mut r = Rng(1);
    assert_eq!(make_value(&mut r, 20), b"aaaaaaaabb*N:<V.FJ~y".to_vec());
    assert_eq!(r.0, 8_332_670_729_032_836_398);
    let mut r = Rng(1);
    assert_eq!(make_value(&mut r, 0), Vec::<u8>::new());
    assert_eq!(r.0, 1);
}

#[test]
fn the_window_holds_any_value() {
    let mut r = Rng(301);
    let w = value_window(&mut r, 1000);
    assert!(w.len() >= WINDOW + 1000);
    assert!(w.len() < WINDOW + 2000);
    let mut r = Rng(301);
    assert_eq!(w[..1000].to_vec(), make_value(&mut r, 1000));
}

#[test]
fn a_window_takes_half_a_value_of_draws_for_each_value() {
    let mut r = Rng(301);
    let w = value_window(&mut r, 1001);
    let mut step = Rng(301);
    for _ in 0..w.len() / 1001 * 501 {
        let _ = step.next();
    }
    assert_eq!(w.len() % 1001, 0);
    assert_eq!(r.0, step.0);
}

#[test]
fn fills_and_reads_take_the_drawn_key() {
    let mut r = Rng(1);
    let (k, off) = fill_step(true, 5, 100, &mut r);
    assert_eq!(k, 5);
    assert_eq!(off as u64, 1_082_269_761 % 0x10_0000);
    let mut r = Rng(1);
    let (k, off) = fill_step(false, 5, 100, &mut r);
    assert_eq!(k, 1_082_269_761 % 100);
    assert_eq!(off as u64, 1_152_992_998_833_853_505 % 0x10_0000);
    let mut r = Rng(1);
    assert_eq!(read_step(false, 100, &mut r), 61);
    let mut r = Rng(1);
    assert_eq!(read_step(true, 100, &mut r), 161);
}

#[test]
fn pool_records_are_events() {
    assert_eq!(
        pool_record(0, 100),
        b"{\"ts\":1723544229970,\"ev\":\"scroll\",\"plat\":\"ios\",\"amt\":347.63,\"ok\":false}{\"ts\":1723541216020,\"ev\":\"scr".to_vec()
    );
    assert_eq!(
        pool_record(5, 100),
        b"{\"ts\":1723482822307,\"ev\":\"purchase\",\"plat\":\"tv\",\"amt\":546.18,\"ok\":false}{\"ts\":1723491888026,\"ev\":\"lo".to_vec()
    );
    assert_eq!(pool_record(5, 0), Vec::<u8>::new());
    let pool = build_pool(16);
    assert_eq!(pool.len(), POOL);
    assert_eq!(pool[5], pool_record(5, 16));
}

#[test]
fn rounds_visit_each_key_once() {
    assert_eq!(permutation(8), vec![5, 4, 1, 6, 2, 7, 0, 3]);
    assert_eq!(permutation(1), vec![0]);
    let perm = permutation(100);
    for round in [0usize, 1, 7, 12_345] {
        let mut seen = vec![false; 100];
        for n in 0..100 {
            let k = append_key(&perm, round, n);
            assert!(!seen[k]);
            seen[k] = true;
        }
    }
    assert_eq!(append_key(&permutation(8), 1, 2), permutation(8)[(2 + 7919 % 8) % 8]);
}

#[test]
fn appends_carry_their_number() {
    assert_eq!(key_bytes(7), b"k000000007".to_vec());
    assert_eq!(pool_index(3, 9), 58_108);
    let v = event_value(b"0123456789", 3, 9);
    assert_eq!(v, b"\x00\x00\x00\x03\x00\x00\x00\x0989".to_vec());
}

#[test]
fn shares_cover_the_round() {
    let mut end = 0;
    for t in 0..7 {
        let (a, b) = share(100, 7, t);
        assert_eq!(a, end);
        end = b;
    }
    assert_eq!(end, 100);
    assert_eq!(share(10, 4, 1), (2, 5));
}

#[test]
fn rounds_end_in_checkpoints_and_crashes() {
    let e = after_round(9, 5, 10);
    assert!(e.checkpoint && e.crash);
    let e = after_round(8, 5, 10);
    assert!(!e.checkpoint && !e.crash);
    let e = after_round(0, 0, 0);
    assert!(!e.checkpoint && !e.crash);
}

#[test]
fn samples_and_whole_keys() {
    assert_eq!(sample(3, 10).len(), 3);
    for k in sample(100, 10) {
        assert!(k < 10);
    }
    let rounds = 3;
    let whole: Vec<Vec<u8>> = (0..rounds as u64).map(|r| event_value(b"________tail", r, 4)).collect();
    assert!(key_is_whole(4, rounds, &whole));
    assert!(!key_is_whole(5, rounds, &whole));
    assert!(!key_is_whole(4, rounds, &whole[..2].to_vec()));
    let mut swapped = whole.clone();
    swapped.swap(0, 1);
    assert!(!key_is_whole(4, rounds, &swapped));
}

#[test]
fn soak_steps_follow_the_generator() {
    assert_eq!(soak::key(12), b"k000000012".to_vec());
    let mut r = Rng(1);
    let s = soak_step(&mut r, 50, 10);
    assert_eq!(s.key, 11);
    assert_eq!(s.value, b"\x10\x00A\x06\x0c\x01\x14Avv".to_vec());
    assert_eq!(s.op, SoakOp::Append);
    let mut seen = [0u32; 3];
    let mut r = Rng(0x50AC);
    for _ in 0..2000 {
        match soak_step(&mut r, 50, 8).op {
            SoakOp::Append => seen[0] += 1,
            SoakOp::Put => seen[1] += 1,
            SoakOp::Delete => seen[2] += 1,
        }
    }
    assert!(seen[0] > 1500 && seen[1] > 200 && seen[2] > 50);
}

#[test]
fn the_scattered_order_is_fixed() {
    let mut r = Rng(tablebench::SCATTER_START);
    assert_eq!(scattered(&mut r, 1000), 609);
    assert_eq!(SIZES, [100_000, 1_000_000, 4_000_000, 8_000_000]);
}

#[test]
fn stages_are_told_apart() {
    assert_eq!(mvcc::key(3), b"k00000003".to_vec());
    assert_eq!(mvcc::value(Stage::First, 12), b"v1-12".to_vec());
    assert_eq!(mvcc::value(Stage::Second, 12), b"v2-12".to_vec());
    assert_eq!(
        mvcc::value(Stage::Churn, 12),
        b"v3-12-padded-out-so-the-slot-is-worth-reusing".to_vec()
    );
    assert!(holds_stage(&vec![b"v1-12".to_vec()], Stage::First, 12));
    assert!(!holds_stage(&vec![b"v1-12".to_vec()], Stage::Second, 12));
    assert!(!holds_stage(&vec![], Stage::First, 12));
    assert!(!holds_stage(&vec![b"v1-12".to_vec(), b"v1-12".to_vec()], Stage::First, 12));
}

#[test]
fn the_current_state_is_tallied() {
    let right: Vec<Vec<Vec<u8>>> = (0..mvcc::KEYS)
        .map(|k| {
            if k < 333 {
                vec![mvcc::value(Stage::Second, k)]
            } else if k < 666 {
                vec![]
            } else {
                vec![mvcc::value(Stage::First, k)]
            }
        })
        .collect();
    assert_eq!(current_tally(&right), (333, 333, 334));
    let mut wrong = right;
    wrong[0] = vec![mvcc::value(Stage::First, 0)];
    wrong[400] = vec![b"x".to_vec()];
    wrong[900] = vec![];
    assert_eq!(current_tally(&wrong), (332, 332, 333));
}

#[test]
fn the_past_is_tallied() {
    let reads = vec![
        PastRead::Values(vec![b"v1-0".to_vec()]),
        PastRead::Values(vec![b"v2-1".to_vec()]),
        PastRead::Refused(b"this value was stored in a range since reused".to_vec()),
        PastRead::Refused(b"bad block".to_vec()),
        PastRead::Values(vec![b"v1-4".to_vec()]),
    ];
    let t = past_tally(&reads);
    assert_eq!((t.readable, t.by_range, t.by_decode), (2, 1, 1));
}

#[test]
fn readers_see_torn_states() {
    assert_eq!(concur::key(5), b"k00000005".to_vec());
    assert_eq!(policy(Some("now")), ReclaimPolicy::Now);
    assert_eq!(policy(Some("delay")), ReclaimPolicy::AfterEight);
    assert_eq!(policy(Some("onclose")), ReclaimPolicy::OnClose);
    assert_eq!(policy(Some("never")), ReclaimPolicy::Never);
    assert_eq!(policy(Some("other")), ReclaimPolicy::AfterReads);
    assert_eq!(policy(None), ReclaimPolicy::AfterReads);
    let v = round_value(2, 3);
    assert_eq!(v.len(), 96);
    assert_eq!(&v[..9], b"\x00\x00\x00\x02\x00\x00\x00\x03x");
    let whole = Sighting { generation: 1, lengths: vec![vec![96, 96], vec![96, 96]], broken: vec![] };
    assert_eq!(torn_signs(&whole), 0);
    let uneven = Sighting { generation: 1, lengths: vec![vec![96, 96], vec![96]], broken: vec![] };
    assert_eq!(torn_signs(&uneven), 1);
    let short = Sighting {
        generation: 1,
        lengths: vec![vec![96, 3], vec![96, 96]],
        broken: vec![vec![0, 96, 2]],
    };
    assert_eq!(torn_signs(&short), 3);
    let mut high = 5;
    assert!(!note_generation(&mut high, 7));
    assert_eq!(high, 7);
    assert!(note_generation(&mut high, 6));
    assert_eq!(high, 7);
    assert!(!note_generation(&mut high, 7));
}

#[test]
fn survivors_are_counted() {
    let s = survivors(&[3, 1, 4, 1, 5]);
    assert_eq!((s.min, s.max, s.total), (1, 5, 14));
    let s = survivors(&[]);
    assert_eq!((s.min, s.max, s.total), (usize::MAX, 0, 0));
}
