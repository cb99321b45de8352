use std::collections::BTreeSet;
use suplab::browse::{
    bundle_verdicts, common_key_in_three, commonest_key, damage_site, directory_saves_a_wave,
    next_key, plans_are_exact, rare_key_is_inline, rare_wave_is_small, rarest_blocked_key,
    rarest_key, reserve_opens_at_once, same_ranges, segment_opens_sooner, walk_is_planned,
    compression_pays, walks_agree, walks_are_exact, Counted, DamageSite, KeyFacts, Planned, ProbeFacts, Walks,
};
use suplab::hash::{fnv32, FNV32_START};
use suplab::host::{reads_since, search_steps, Host, ReadError, Recording, Search};
use suplab::inverted::{
    attr, binary_key, group_terms, postings, seg_attr, seg_probe_ranks, seg_value, segment_events,
    segment_terms, sorted_pairs, term, ATTRS, SEG_ATTRS,
};
use suplab::pages::{fetch, has_page, merge_ranges, paged_bytes, range_bytes, within};
use suplab::verdict::Verdict;

#[test]
fn ranges_merge_into_the_fewest() {
    assert_eq!(
        merge_ranges(&[(10, 5), (0, 3), (15, 2), (30, 0), (2, 4), (40, 1)]),
        vec![(0, 6), (10, 7), (40, 1)]
    );
    assert_eq!(merge_ranges(&[]), vec![]);
    assert_eq!(merge_ranges(&[(7, 0)]), vec![]);
    let once = merge_ranges(&[(5, 5), (1, 2), (9, 9)]);
    assert_eq!(merge_ranges(&once), once);
    assert_eq!(range_bytes(&once), 2 + 13);
    assert_eq!(range_bytes(&[]), 0);
}

#[test]
fn reads_lie_within_their_plan() {
    let plan = [(10u64, 5u64), (15, 5), (40, 2)];
    assert!(within(&[(10, 10), (41, 1)], &plan));
    assert!(!within(&[(10, 11)], &plan));
    assert!(!within(&[(39, 2)], &plan));
    assert!(within(&[(20, 0)], &plan));
    assert!(!within(&[(30, 0)], &plan));
    assert!(within(&[], &plan));
}

#[test]
fn pages_are_fetched_once() {
    assert_eq!(paged_bytes(&[(0, 1), (5, 1)], 100, 10), 10);
    assert_eq!(paged_bytes(&[(9, 2)], 100, 10), 20);
    assert_eq!(paged_bytes(&[(95, 50)], 98, 10), 8);
    assert_eq!(paged_bytes(&[(3, 0)], 100, 10), 0);
    assert_eq!(paged_bytes(&[], 100, 10), 0);
    let mut resident = BTreeSet::new();
    assert_eq!(fetch(&mut resident, &[(0, 11)], 25, 10), 20);
    assert_eq!(fetch(&mut resident, &[(0, 25)], 25, 10), 5);
    assert_eq!(fetch(&mut resident, &[(0, 25)], 25, 10), 0);
    assert!(has_page(&resident, 2));
    assert!(!has_page(&resident, 3));
}

#[test]
fn a_host_counts_waves_and_bytes() {
    let data: Vec<u8> = (0..100u8).collect();
    let mut h = Host::new(data, 10);
    assert_eq!(h.len(), 100);
    assert_eq!(h.mark(), (0, 0));
    assert_eq!(h.read_at(5, 10), Err(ReadError::NotEnsured { page: 0 }));
    h.ensure(&[(5, 10), (42, 1)]);
    assert_eq!(h.mark(), (1, 30));
    h.ensure(&[(5, 10)]);
    assert_eq!(h.mark(), (1, 30));
    assert_eq!(h.read_at(5, 10), Ok((5..15u8).collect()));
    assert_eq!(h.read_at(15, 10), Err(ReadError::NotEnsured { page: 2 }));
    assert_eq!(h.read_at(95, 6), Err(ReadError::Short));
    assert_eq!(h.read_at(u64::MAX, 1), Err(ReadError::Short));
    assert_eq!(h.read_at(99, 0), Ok(vec![]));
    h.ensure(&[(100, 5), (200, 1)]);
    assert_eq!(h.mark(), (1, 30));
    h.ensure(&[(0, 100)]);
    assert_eq!(h.mark(), (2, 100));
}

#[test]
fn a_recording_remembers_every_read() {
    let mut r = Recording { data: b"0123456789".to_vec(), log: vec![] };
    assert_eq!(r.read_at(2, 3), Ok(b"234".to_vec()));
    assert_eq!(r.read_at(9, 2), Err(ReadError::Short));
    assert_eq!(r.log, vec![(2, 3), (9, 2)]);
    let (since, mark) = reads_since(&r.log, 1);
    assert_eq!(since, vec![(9, 2)]);
    assert_eq!(mark, 2);
}

fn search(open: u64, lookup: u64, post: u64) -> Search {
    search_steps((open, open * 10), (open + lookup, (open + lookup) * 10), (open + lookup + post, (open + lookup + post) * 10), 5)
}

#[test]
fn searches_are_split_into_steps() {
    let s = search(2, 1, 3);
    assert_eq!((s.open_waves, s.lookup_waves, s.postings_waves), (2, 1, 3));
    assert_eq!((s.open_bytes, s.lookup_bytes, s.postings_bytes), (20, 10, 30));
    assert_eq!(s.postings, 5);
    assert_eq!(segment_opens_sooner(&search(3, 0, 0), &search(2, 0, 0)), Verdict::Holds);
    assert_eq!(segment_opens_sooner(&search(3, 0, 0), &search(3, 0, 0)), Verdict::Fails);
    assert_eq!(reserve_opens_at_once(&search(1, 0, 0)), Verdict::Holds);
    assert_eq!(reserve_opens_at_once(&search(2, 0, 0)), Verdict::Fails);
    assert_eq!(
        directory_saves_a_wave(&[search(1, 1, 1), search(1, 0, 1)], &search(1, 2, 1)),
        Verdict::Holds
    );
    assert_eq!(
        directory_saves_a_wave(&[search(1, 1, 1), search(1, 2, 1)], &search(1, 2, 1)),
        Verdict::Fails
    );
    assert_eq!(directory_saves_a_wave(&[], &search(1, 1, 1)), Verdict::Fails);
    assert_eq!(common_key_in_three(&search(1, 1, 1)), Verdict::Holds);
    assert_eq!(common_key_in_three(&search(2, 1, 1)), Verdict::Fails);
    assert_eq!(rare_wave_is_small(None, 100), Verdict::NotExercised);
    assert_eq!(rare_wave_is_small(Some(&search(1, 1, 0)), 100), Verdict::NotExercised);
    assert_eq!(rare_wave_is_small(Some(&search(1, 1, 2)), 10), Verdict::Holds);
    assert_eq!(rare_wave_is_small(Some(&search(1, 1, 2)), 9), Verdict::Fails);
    assert_eq!(rare_key_is_inline(&search(1, 1, 0), 5), Verdict::Holds);
    assert_eq!(rare_key_is_inline(&search(1, 1, 0), 4), Verdict::Fails);
    assert_eq!(rare_key_is_inline(&search(1, 1, 1), 5), Verdict::Fails);
}

#[test]
fn plans_are_held_against_reads() {
    let mut p = Planned::new();
    assert!(p.note_probe(&[(10, 5)], &[(10, 5)], &[]));
    assert!(p.note_probe(&[], &[], &[]));
    assert!(p.note_absent(&[], &[]));
    assert!(p.note_shared(&[(1, 2)], &[(1, 2)]));
    assert!(p.exact);
    assert_eq!((p.probes, p.block_probes, p.inline_probes, p.widest_plan), (2, 1, 1, 5));
    assert!(!p.note_probe(&[(0, 70_000)], &[(0, 70_000)], &[(1, 1)]));
    assert!(!p.exact);
    assert_eq!(p.widest_plan, 70_000);
    let mut q = Planned::new();
    assert!(!q.note_absent(&[], &[(1, 1)]));
    assert!(!q.exact);
    let mut q = Planned::new();
    assert!(!q.note_shared(&[(1, 2)], &[(1, 3)]));
    assert!(same_ranges(&[(1, 2)], &[(1, 2)]));
    assert!(!same_ranges(&[(1, 2)], &[]));
    let wide = Planned { probes: 3, exact: true, widest_plan: 10, block_probes: 1, inline_probes: 0 };
    let seg = Planned { widest_plan: 70_000, ..wide };
    assert_eq!(plans_are_exact(&wide, 2, &seg, 2), Verdict::Holds);
    assert_eq!(plans_are_exact(&wide, 1, &seg, 2), Verdict::Fails);
    assert_eq!(plans_are_exact(&wide, 2, &wide, 2), Verdict::Fails);
    assert_eq!(plans_are_exact(&p, 2, &seg, 2), Verdict::Fails);
}

#[test]
fn walks_keep_to_their_plans() {
    assert!(walk_is_planned(&[(0, 10)], &[(20, 10)], &[(5, 2)], &[(5, 5), (20, 4)]));
    assert!(!walk_is_planned(&[(0, 10)], &[(20, 10)], &[(20, 1)], &[(5, 5)]));
    assert!(!walk_is_planned(&[(0, 10)], &[(20, 10)], &[], &[(15, 1)]));
    assert!(!walk_is_planned(&[(0, 10)], &[], &[], &[]));
}

#[test]
fn damage_spares_another_key() {
    let probe = |ext: Vec<(u64, u64)>, ranges: Vec<(u64, u64)>| ProbeFacts {
        extents: Some(ext),
        ranges: Some(ranges),
    };
    let probes = vec![
        probe(vec![(1, 2), (3, 4)], vec![(0, 50)]),
        probe(vec![(8, 10)], vec![(100, 50)]),
        probe(vec![], vec![]),
        probe(vec![(0, 4)], vec![(100, 50)]),
        probe(vec![(0, 4)], vec![(300, 50)]),
    ];
    assert_eq!(damage_site(&probes), Some(DamageSite { damaged: 1, at: 113, intact: 0 }));
    assert_eq!(damage_site(&vec![probe(vec![(0, 4)], vec![(0, 9)])]), None);
    assert_eq!(damage_site(&vec![]), None);
    assert_eq!(damage_site(&vec![ProbeFacts { extents: None, ranges: None }]), None);
}

#[test]
fn rare_and_common_keys_are_found() {
    let k = |binary, count, furthest, blocked| KeyFacts { binary, count, furthest, blocked };
    let keys = [
        k(false, 5, 10, true),
        k(false, 1, 10, false),
        k(false, 1, 90, false),
        k(false, 1, 90, false),
        k(true, 1, 99, true),
        k(false, 0, 99, true),
        k(false, 3, 0, true),
        k(false, 5, 0, true),
    ];
    assert_eq!(rarest_key(&keys), Some(2));
    assert_eq!(commonest_key(&keys), Some(0));
    assert_eq!(rarest_blocked_key(&keys), Some(6));
    assert_eq!(rarest_key(&keys[4..6]), None);
    assert_eq!(commonest_key(&keys[4..5]), None);
    assert_eq!(rarest_blocked_key(&keys[1..4]), None);
    assert_eq!(next_key(b"ab"), b"ab\x00".to_vec());
}

#[test]
fn bundles_are_weighed() {
    assert_eq!(
        bundle_verdicts(60_000, 20_000),
        (Verdict::Holds, Verdict::Holds, Verdict::Holds)
    );
    assert_eq!(
        bundle_verdicts(70_000, 10_000),
        (Verdict::Fails, Verdict::Holds, Verdict::Fails)
    );
    assert_eq!(
        bundle_verdicts(30_000, 40_000),
        (Verdict::Holds, Verdict::Fails, Verdict::Holds)
    );
}

#[test]
fn terms_have_eight_digits() {
    let mut t = b"old".to_vec();
    term("a3", 17, &mut t);
    assert_eq!(t, b"a3=00000017".to_vec());
    assert_eq!(attr(0), ("a0", 8));
    assert_eq!(attr(ATTRS - 1), ("a6", 5000));
    assert_eq!(seg_attr(SEG_ATTRS - 1), ("b3", 60));
    assert_eq!(binary_key(), vec![0xff, 0xbf, 0x61]);
    for f in 0..ATTRS {
        let (name, card) = attr(f);
        let mut last = Vec::new();
        term(name, card - 1, &mut last);
        assert!(last < binary_key());
        if f + 1 < ATTRS {
            let mut next = Vec::new();
            term(attr(f + 1).0, 0, &mut next);
            assert!(last < next);
        }
    }
}

#[test]
fn postings_are_grouped_by_term() {
    // Two rows: the values of the seven attributes, row by row.
    let picks = [1usize, 2, 3, 4, 5, 6, 7, 1, 0, 3, 9, 5, 6, 8];
    let pairs = sorted_pairs(&picks);
    assert_eq!(pairs.len(), 14);
    for i in 1..pairs.len() {
        assert!(pairs[i - 1] <= pairs[i]);
    }
    let terms = group_terms(&pairs);
    let keys: Vec<Vec<u8>> = terms.iter().map(|t| t.key.clone()).collect();
    let want: Vec<Vec<u8>> = [
        ("a0", 1), ("a1", 0), ("a1", 2), ("a2", 3), ("a3", 4), ("a3", 9), ("a4", 5), ("a5", 6),
        ("a6", 7), ("a6", 8),
    ]
    .iter()
    .map(|(f, i)| {
        let mut t = Vec::new();
        term(f, *i, &mut t);
        t
    })
    .collect();
    assert_eq!(keys, want);
    assert_eq!(terms[0].rows, vec![0, 1]);
    assert_eq!(terms[1].rows, vec![1]);
    assert_eq!(terms[2].rows, vec![0]);
    let total: usize = terms.iter().map(|t| t.rows.len()).sum();
    assert_eq!(total, 14);
}

#[test]
fn postings_are_rows_or_distances() {
    assert_eq!(
        postings(&[3, 10, 300], false),
        vec![vec![3, 0, 0, 0], vec![10, 0, 0, 0], vec![44, 1, 0, 0]]
    );
    assert_eq!(
        postings(&[3, 10, 300], true),
        vec![vec![3, 0, 0, 0], vec![7, 0, 0, 0], vec![34, 1, 0, 0]]
    );
    assert!(postings(&[], true).is_empty());
}

#[test]
fn segment_values_follow_key_and_ordinal() {
    let mut v = [0u8; 64];
    seg_value(b"k", 3, &mut v);
    assert_eq!(
        v[..12],
        [0x03, 0, 0, 0, 0xc8, 0xf9, 0xb0, 0x9b, 0x8a, 0x21, 0x41, 0x3f]
    );
    let mut w = [0u8; 64];
    seg_value(b"k", 4, &mut w);
    assert_ne!(v, w);
    assert_ne!(fnv32(FNV32_START, &v), fnv32(FNV32_START, &w));
}

#[test]
fn segments_cover_every_event_once() {
    let terms = segment_terms();
    assert_eq!(terms.len(), 104);
    for i in 1..terms.len() {
        assert!(terms[i - 1].key < terms[i].key);
    }
    assert_eq!(terms[0].key, b"b0=00000000".to_vec());
    assert_eq!((terms[103].card, terms[103].value), (60, 59));
    assert_eq!(segment_events(2, 6, 20), vec![2, 8, 14]);
    assert!(segment_events(5, 6, 5).is_empty());
    let mut seen = vec![0; 50];
    for v in 0..6 {
        for e in segment_events(v, 6, 50) {
            seen[e as usize] += 1;
        }
    }
    assert_eq!(seen, vec![1; 50]);
    assert_eq!(seg_probe_ranks(104), vec![0, 10, 25, 50, 75, 100, 103]);
    assert_eq!(seg_probe_ranks(101), vec![0, 10, 25, 50, 75, 100]);
    assert_eq!(seg_probe_ranks(30), vec![0, 10, 25, 29]);
    assert_eq!(seg_probe_ranks(1), vec![0]);
    assert!(seg_probe_ranks(0).is_empty());
}

#[test]
fn counts_and_walks_are_taken_together() {
    let mut c = Counted::new();
    c.note_probe(true, 5);
    c.note_scanned(true);
    assert_eq!(c.resident(0, 1), Verdict::Holds);
    assert_eq!(c.resident(1, 1), Verdict::Fails);
    assert_eq!(c.resident(0, 2), Verdict::Fails);
    c.note_probe(true, 0);
    assert_eq!(c.resident(0, 1), Verdict::Fails);
    let a = vec![(b"a".to_vec(), 1u64), (b"b".to_vec(), 2)];
    let b = vec![(b"a".to_vec(), 1u64), (b"b".to_vec(), 3)];
    assert!(walks_agree(&a, &a.clone()));
    assert!(!walks_agree(&a, &b));
    assert!(!walks_agree(&a, &a[..1]));
    let mut w = Walks::new(true);
    assert!(w.note(true, true));
    let small = w;
    assert_eq!(walks_are_exact(&w, &small), Verdict::Holds);
    assert!(!w.note(true, false));
    assert!(w.note(true, true));
    assert_eq!(walks_are_exact(&w, &small), Verdict::Fails);
    assert_eq!(compression_pays(true, &search(1, 0, 0)), Verdict::Holds);
    assert_eq!(compression_pays(true, &search(2, 0, 0)), Verdict::Fails);
    assert_eq!(compression_pays(false, &search(1, 0, 0)), Verdict::Fails);
}
