use suplab::figures::{find_row, first_seen, index_html, short_name, FigureRow, PAGE_HEAD};
use suplab::kvbench::db_key;
use suplab::load::{Load, LoadStep};
use suplab::report::{
    derived_at, find_text, page_settings, pair_name, read_rss, rss_line, TraceTotals,
};
use suplab::stores::{
    merge_trigger, region_start, region_width, regions, run_of, scan_store, tail_key, tail_verdict, Region,
    ScanShape, LEAST_SEAL,
};
use suplab::verdict::{
    both_hold, changes_nothing, changes_nothing_while, gains, is_no_more, keeps_share, loses_nothing,
    neither_changes, verdict, Comparison, Verdict,
};
use suplab::wal::{inline_file, push_commit, push_record, sweep, RawLog, COMMIT_FRAME};

fn drain(mut l: Load) -> Vec<LoadStep> {
    let mut out = Vec::new();
    while let Some(s) = l.next() {
        out.push(s);
    }
    assert_eq!(l.next(), None);
    out
}

#[test]
fn loads_commit_behind_every_batch() {
    assert_eq!(
        drain(Load::append(0, 5, 2, false)),
        vec![LoadStep::Append(0), LoadStep::Append(1), LoadStep::Commit, LoadStep::Append(2), LoadStep::Append(3), LoadStep::Commit, LoadStep::Append(4)]
    );
    assert_eq!(
        drain(Load::append(0, 4, 2, true)),
        vec![LoadStep::Append(0), LoadStep::Append(1), LoadStep::Commit, LoadStep::Append(2), LoadStep::Append(3), LoadStep::Commit, LoadStep::Commit]
    );
    assert_eq!(drain(Load::append(7, 9, u64::MAX, true)), vec![LoadStep::Append(7), LoadStep::Append(8), LoadStep::Commit]);
    assert_eq!(drain(Load::append(5, 5, 2, false)), vec![]);
    // Batches end where they would from key zero on.
    assert_eq!(drain(Load::append(1, 3, 2, false)), vec![LoadStep::Append(1), LoadStep::Commit, LoadStep::Append(2)]);
    assert_eq!(
        drain(Load::delete(25, 10, 2)),
        vec![LoadStep::Delete(0), LoadStep::Delete(10), LoadStep::Commit, LoadStep::Delete(20), LoadStep::Commit]
    );
    assert_eq!(
        drain(Load::append(u64::MAX - 2, u64::MAX, 1, false)),
        vec![LoadStep::Append(u64::MAX - 2), LoadStep::Commit, LoadStep::Append(u64::MAX - 1), LoadStep::Commit]
    );
}

#[test]
fn a_load_writes_each_key_once_and_leaves_less_than_a_batch() {
    for (keys, batch) in [(0u64, 3u64), (1, 3), (3, 3), (100, 7), (50, 1)] {
        let steps = drain(Load::append(0, keys, batch, false));
        let written: Vec<u64> = steps
            .iter()
            .filter_map(|s| match s {
                LoadStep::Append(k) => Some(*k),
                _ => None,
            })
            .collect();
        assert_eq!(written, (0..keys).collect::<Vec<u64>>());
        let open = steps.iter().rev().take_while(|s| **s != LoadStep::Commit).count() as u64;
        assert_eq!(open, keys % batch);
    }
}

#[test]
fn stores_get_their_shape() {
    let p = scan_store(ScanShape::Routed, 100_000, 100);
    assert_eq!(p.seal_bytes, Some(3_314_285));
    assert_eq!(p.partition_bytes, 6_628_570);
    assert!(p.compact);
    assert_eq!((p.load, p.end), (100_000, 100_000));
    let p = scan_store(ScanShape::RoutedMemtable, 100_000, 100);
    assert_eq!((p.load, p.end), (99_000, 100_000));
    let p = scan_store(ScanShape::Unmerged, 100_000, 100);
    assert!(!p.compact);
    let p = scan_store(ScanShape::Undrained, 1_000, 100);
    assert_eq!(p.seal_bytes, Some(LEAST_SEAL));
    let p = scan_store(ScanShape::Memtable, 100_000, 100);
    assert_eq!(p.seal_bytes, None);
    assert_eq!((p.load, p.end), (42_857, 42_857));
    let p = scan_store(ScanShape::Routed, 0, 100);
    assert_eq!(p.seal_bytes, Some(LEAST_SEAL));
    // Three full seals, and a fourth that is not.
    let seal = scan_store(ScanShape::Routed, 100_000, 100).seal_bytes.unwrap();
    assert!(3 * seal <= 100_000 * 116 && 100_000 * 116 < 4 * seal);
    assert_eq!(merge_trigger(0), usize::MAX);
    assert_eq!(merge_trigger(4), 4);
    assert_eq!(run_of(32, 5, 500), 500);
    assert_eq!(run_of(33, 5, 500), 5);
}

#[test]
fn scans_stay_in_their_region() {
    let (sealed, memory) = regions(1000, 300, 50);
    assert_eq!(sealed, Region { lo: 0, hi: 650 });
    assert_eq!(memory, Region { lo: 700, hi: 950 });
    let (sealed, memory) = regions(100, 100, 50);
    assert_eq!(sealed, Region { lo: 0, hi: 0 });
    assert_eq!(memory, Region { lo: 0, hi: 50 });
    assert_eq!(region_start(sealed, 7), None);
    assert_eq!(region_start(memory, 7), Some(7));
    assert_eq!(region_start(Region { lo: 700, hi: 950 }, 249), Some(949));
    assert_eq!(region_start(Region { lo: 700, hi: 950 }, 250), None);
    assert_eq!(region_width(Region { lo: 700, hi: 950 }), 250);
    assert_eq!(region_width(Region { lo: 9, hi: 3 }), 0);
    assert_eq!(region_start(Region { lo: 9, hi: 3 }, 1), None);
}

#[test]
fn a_torn_tail_is_lost_whole() {
    assert_eq!(tail_key(7), b"k007".to_vec());
    assert_eq!(tail_key(22), b"k022".to_vec());
    let mut counts = vec![1u64; 23];
    counts[22] = 0;
    assert_eq!(tail_verdict(&counts, 16), Verdict::Holds);
    counts[18] = 0;
    assert_eq!(tail_verdict(&counts, 16), Verdict::Holds);
    counts[3] = 0;
    assert_eq!(tail_verdict(&counts, 16), Verdict::Fails);
    counts[3] = 1;
    counts[17] = 2;
    assert_eq!(tail_verdict(&counts, 16), Verdict::Fails);
    assert_eq!(tail_verdict(&vec![1u64; 23], 16), Verdict::Fails);
}

#[test]
fn frames_tell_their_length() {
    let mut buf = vec![0xaa];
    push_record(&mut buf, 5, b"key", b"value");
    let frame = buf[1..].to_vec();
    assert_eq!(
        frame,
        vec![
            18, 0, 0, 0, 0, 0, 0, 0, 5, 0, 0, 0, 0, 0, 0, 0, 0, 3, b'k', b'e', b'y', b'v', b'a',
            b'l', b'u', b'e'
        ]
    );
    assert_eq!(frame.len(), 8 + 18);
    let mut buf = Vec::new();
    push_commit(&mut buf, 6);
    assert_eq!(buf, vec![9, 0, 0, 0, 0, 0, 0, 0, 6, 0, 0, 0, 0, 0, 0, 0, 2]);
    assert_eq!(buf.len(), COMMIT_FRAME);
}

#[test]
fn batches_are_frames_in_a_row() {
    let mut open = RawLog::new(2, false);
    let mut closed = RawLog::new(2, true);
    for l in [&mut open, &mut closed] {
        assert_eq!(l.push(b"one"), None);
    }
    let mut want = Vec::new();
    push_record(&mut want, 0, &db_key(0), b"one");
    push_record(&mut want, 1, &db_key(1), b"two");
    assert_eq!(open.push(b"two"), Some(want.clone()));
    push_commit(&mut want, 2);
    assert_eq!(closed.push(b"two"), Some(want));
    // Numbers go on behind the frame that closes a batch.
    assert_eq!((open.done, open.seq), (2, 2));
    assert_eq!((closed.done, closed.seq), (2, 3));
    assert_eq!(closed.push(b"three"), None);
    assert_eq!(closed.pending.len(), 18 + 16 + 5);
}

#[test]
fn closing_a_batch_costs_one_frame() {
    let run = |close: bool| {
        let mut l = RawLog::new(4, close);
        let mut n = 0;
        for i in 0..10u64 {
            if let Some(w) = l.push(&vec![7u8; i as usize]) {
                n += w.len();
            }
        }
        n
    };
    assert_eq!(run(true) - run(false), COMMIT_FRAME * (10 / 4));
}

#[test]
fn sweeps_count_what_they_visit() {
    let values = vec![b"a".to_vec(), b"bb".to_vec(), b"".to_vec(), b"dddd".to_vec()];
    let (file, starts) = inline_file(&values);
    assert_eq!(starts, vec![0, 25, 51, 75]);
    assert_eq!(file.len(), 103);
    let s = sweep(&file, 0, 10);
    assert_eq!((s.visited, s.bytes), (4, 4 * 16 + 7));
    let s = sweep(&file, starts[1] as usize, 2);
    assert_eq!((s.visited, s.bytes), (2, 34));
    let s = sweep(&file, starts[3] as usize, 2);
    assert_eq!((s.visited, s.bytes), (1, 20));
    let s = sweep(&file, file.len(), 2);
    assert_eq!((s.visited, s.bytes), (0, 0));
    let s = sweep(&file, 0, 0);
    assert_eq!((s.visited, s.bytes), (0, 0));
}

#[test]
fn comparisons_decide_claims() {
    assert_eq!(verdict(true, true), Verdict::Holds);
    assert_eq!(verdict(true, false), Verdict::Fails);
    assert_eq!(verdict(false, true), Verdict::NotExercised);
    assert_eq!(gains(Comparison::Greater, true), Verdict::Holds);
    assert_eq!(gains(Comparison::Greater, false), Verdict::Fails);
    assert_eq!(gains(Comparison::NoDifference, true), Verdict::Fails);
    assert_eq!(loses_nothing(Comparison::NoDifference), Verdict::Holds);
    assert_eq!(loses_nothing(Comparison::Greater), Verdict::Holds);
    assert_eq!(loses_nothing(Comparison::Less), Verdict::Fails);
    assert_eq!(changes_nothing(Comparison::NoDifference), Verdict::Holds);
    assert_eq!(changes_nothing(Comparison::Greater), Verdict::Fails);
    assert_eq!(changes_nothing(Comparison::Less), Verdict::Fails);
    assert_eq!(is_no_more(Comparison::Greater), Verdict::Fails);
    assert_eq!(is_no_more(Comparison::NoDifference), Verdict::Holds);
    assert_eq!(is_no_more(Comparison::Less), Verdict::Holds);
}

#[test]
fn memory_reports_read_back() {
    assert_eq!(rss_line(100, 350), b"rss_bytes=250 before=100 after=350".to_vec());
    assert_eq!(rss_line(350, 100), b"rss_bytes=0 before=350 after=100".to_vec());
    for (a, b) in [(0u64, 0u64), (5, 1_000_000), (9, 3), (0, u64::MAX)] {
        assert_eq!(read_rss(&rss_line(a, b)), Some(b.saturating_sub(a)));
    }
    assert_eq!(read_rss(b"noise\nrss_bytes=12\nmore"), Some(12));
    assert_eq!(read_rss(b"nothing here"), None);
    assert_eq!(read_rss(b"rss_bytes="), None);
    assert_eq!(read_rss(b"rss_bytes=x"), None);
    assert_eq!(read_rss(b"rss_bytes=7rss_bytes=9"), Some(7));
    assert_eq!(find_text(b"abcabd", b"abd"), Some(3));
    assert_eq!(find_text(b"abc", b""), Some(0));
    assert_eq!(find_text(b"", b"a"), None);
}

#[test]
fn comparisons_are_named_for_both_layouts() {
    assert_eq!(
        pair_name(b"hash+paged", b"mph+bloom+paged"),
        b"f10-pair-hash-paged-vs-mph-bloom-paged".to_vec()
    );
    let settings = page_settings();
    assert_eq!(settings, vec![8, 16, 32, 64, 128, 256]);
    assert_eq!(derived_at(&settings, 64), 3);
    assert_eq!(derived_at(&settings, 100), 0);
    let mut t = TraceTotals::new();
    t.note(3, 2, 5);
    t.note(4, 1, 6);
    assert_eq!((t.lines, t.pages, t.reads), (7, 3, 11));
}

#[test]
fn the_figures_page_says_what_may_be_cited() {
    let made = vec![("fig1".to_string(), "First".to_string())];
    let page = index_html(&made, "full");
    assert!(page.starts_with(PAGE_HEAD));
    assert!(page.ends_with("</main>"));
    assert!(page.contains("results/*.full.json"));
    assert!(!page.contains("not citable"));
    assert!(page.contains(
        "<figure><img src=\"fig1.svg\" alt=\"First\"><figcaption>First</figcaption></figure>"
    ));
    assert!(index_html(&made, "dev").contains("&mdash; not citable evidence"));
    assert!(!index_html(&[], "dev").contains("<figure>"));
}

#[test]
fn rows_are_found_by_engine_and_group() {
    let v = |s: &str| s.as_bytes().to_vec();
    assert_eq!(
        first_seen(&vec![v("b"), v("a"), v("b"), v("c"), v("a")]),
        vec![v("b"), v("a"), v("c")]
    );
    assert_eq!(short_name(b"A-update-heavy"), b"A".to_vec());
    assert_eq!(short_name(b"plain"), b"plain".to_vec());
    let rows = vec![
        FigureRow { engine: Some(v("x")), workload: None },
        FigureRow { engine: Some(v("y")), workload: Some(v("A-mix")) },
        FigureRow { engine: Some(v("x")), workload: Some(v("B-mix")) },
        FigureRow { engine: Some(v("x")), workload: Some(v("A-mix")) },
        FigureRow { engine: Some(v("x")), workload: Some(v("A-other")) },
    ];
    assert_eq!(find_row(&rows, b"x", b"A"), Some(3));
    assert_eq!(find_row(&rows, b"y", b"A"), Some(1));
    assert_eq!(find_row(&rows, b"y", b"B"), None);
    assert_eq!(find_row(&rows, b"z", b"A"), None);
}

#[test]
fn comparisons_are_taken_together() {
    let (g, l, n) = (Comparison::Greater, Comparison::Less, Comparison::NoDifference);
    assert_eq!(neither_changes(n, n), Verdict::Holds);
    assert_eq!(neither_changes(n, l), Verdict::Fails);
    assert_eq!(neither_changes(g, n), Verdict::Fails);
    assert_eq!(changes_nothing_while(n, true), Verdict::Holds);
    assert_eq!(changes_nothing_while(n, false), Verdict::Fails);
    assert_eq!(changes_nothing_while(g, true), Verdict::Fails);
    assert_eq!(keeps_share(l, true), Verdict::Holds);
    assert_eq!(keeps_share(l, false), Verdict::Fails);
    assert_eq!(keeps_share(n, false), Verdict::Holds);
    assert_eq!(both_hold(Verdict::Holds, Verdict::Holds), Verdict::Holds);
    assert_eq!(both_hold(Verdict::Holds, Verdict::NotExercised), Verdict::Fails);
}
