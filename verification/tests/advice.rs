use suplab::advice::{
    advice_arms, cold_gate, contrast_threshold, inherits_mode, keys_for, phase_lengths, scan_start,
    scan_stride, thresholds, Advice, ColdGate, Mode, ReaderEvent,
};
use suplab::claims::{
    adaptive_verdicts, cold_verdict, delete_verdicts, inline_verdicts, madvise_verdicts,
    out_of_core_verdicts, prefetch_verdicts, seal_verdicts, store_verdicts, AdaptiveFacts,
    Amplification, InlineFacts, MadviseFacts, PrefetchFacts, SealFacts,
};
use suplab::pass::{step_event, Pass, PassPlan, PassStep};
use suplab::smaps::{holds_text, smaps_random, words};
use suplab::verdict::{Comparison, Verdict};

#[test]
fn policies_have_names() {
    assert_eq!(Advice::Normal.label(), "normal");
    assert_eq!(Advice::Random.label(), "random");
    assert_eq!(Advice::Oracle.label(), "oracle");
    assert_eq!(Advice::Adaptive(16).label(), "adaptive-16");
}

#[test]
fn fixed_policies_never_switch() {
    for advice in [Advice::Normal, Advice::Random] {
        let mut m = Mode::start(advice);
        assert_eq!(m.random, advice == Advice::Random);
        for e in [ReaderEvent::ReadPhase, ReaderEvent::Read, ReaderEvent::ScanPhase, ReaderEvent::Scan] {
            assert_eq!(m.note(e), None);
        }
        assert_eq!(m.switches, 0);
    }
}

#[test]
fn the_oracle_switches_at_phases() {
    let mut m = Mode::start(Advice::Oracle);
    assert_eq!(m.note(ReaderEvent::ReadPhase), None);
    assert_eq!(m.note(ReaderEvent::ScanPhase), Some(false));
    assert_eq!(m.note(ReaderEvent::Scan), None);
    assert_eq!(m.note(ReaderEvent::ReadPhase), Some(true));
    assert_eq!(m.switches, 2);
}

#[test]
fn the_adaptive_policy_follows_the_reader() {
    let mut m = Mode::start(Advice::Adaptive(3));
    assert_eq!(m.note(ReaderEvent::Scan), None);
    assert_eq!(m.note(ReaderEvent::Scan), None);
    assert_eq!(m.note(ReaderEvent::Scan), Some(false));
    assert_eq!(m.note(ReaderEvent::Scan), None);
    assert_eq!(m.note(ReaderEvent::Read), Some(true));
    assert_eq!(m.note(ReaderEvent::Read), None);
    assert_eq!(m.note(ReaderEvent::Scan), None);
    assert_eq!(m.note(ReaderEvent::Read), None);
    assert_eq!(m.switches, 2);
    // Nothing scans: nothing is told.
    let mut m = Mode::start(Advice::Adaptive(1));
    for _ in 0..100 {
        assert_eq!(m.note(ReaderEvent::Read), None);
    }
    // Reads and scans alternate.
    let mut one = Mode::start(Advice::Adaptive(1));
    let mut two = Mode::start(Advice::Adaptive(2));
    for _ in 0..10 {
        for e in [ReaderEvent::Read, ReaderEvent::Scan] {
            let _ = one.note(e);
            let _ = two.note(e);
        }
    }
    assert_eq!(one.switches, 19);
    assert_eq!(two.switches, 0);
}

#[test]
fn sweeps_have_their_arms() {
    assert_eq!(thresholds(1), vec![1, 2, 4, 8, 16, 32, 64]);
    assert_eq!(thresholds(5), vec![1, 2, 4, 5, 8, 16, 32, 64]);
    assert_eq!(thresholds(100), vec![1, 2, 4, 8, 16, 32, 64, 100]);
    assert_eq!(
        advice_arms(&[1, 8]),
        vec![
            Advice::Normal,
            Advice::Random,
            Advice::Oracle,
            Advice::Adaptive(1),
            Advice::Adaptive(8)
        ]
    );
    assert_eq!(phase_lengths(8), (2, 4, 8));
    assert_eq!(phase_lengths(96), (12, 48, 96));
    assert_eq!(contrast_threshold(1), 2);
    assert_eq!(contrast_threshold(4), 1);
    assert_eq!(keys_for(64, 4096), 16_384);
    assert_eq!(keys_for(1, 0), 1_048_576);
    assert_eq!(scan_stride(100, 8), 12);
    assert_eq!(scan_stride(5, 8), 1);
    assert_eq!(scan_stride(5, 0), 5);
    assert_eq!(scan_start(3, 12, 100), 36);
    assert_eq!(scan_start(9, 12, 100), 8);
}

#[test]
fn a_pass_runs_its_phases() {
    let plan = PassPlan { keys: 100, cycles: 2, reads: 2, scans: 2 };
    let mut p = Pass::new(plan);
    let mut steps = Vec::new();
    while let Some(s) = p.next() {
        steps.push(s);
    }
    assert_eq!(
        steps,
        vec![
            PassStep::ReadPhase,
            PassStep::Read,
            PassStep::Read,
            PassStep::ScanPhase,
            PassStep::Scan(0),
            PassStep::Scan(25),
            PassStep::ReadPhase,
            PassStep::Read,
            PassStep::Read,
            PassStep::ScanPhase,
            PassStep::Scan(50),
            PassStep::Scan(75),
        ]
    );
    assert_eq!(p.next(), None);
    assert_eq!(step_event(PassStep::Scan(7)), ReaderEvent::Scan);
    assert_eq!(step_event(PassStep::Read), ReaderEvent::Read);
    assert_eq!(step_event(PassStep::ReadPhase), ReaderEvent::ReadPhase);
    assert_eq!(step_event(PassStep::ScanPhase), ReaderEvent::ScanPhase);
}

#[test]
fn no_two_scans_of_a_pass_start_alike() {
    let mut p = Pass::new(PassPlan { keys: 1000, cycles: 30, reads: 1, scans: 7 });
    let mut seen = Vec::new();
    while let Some(s) = p.next() {
        if let PassStep::Scan(k) = s {
            assert!(!seen.contains(&k));
            seen.push(k);
        }
    }
    assert_eq!(seen.len(), 210);
    // More scans than keys: they come around.
    let mut p = Pass::new(PassPlan { keys: 3, cycles: 1, reads: 0, scans: 5 });
    let mut seen = Vec::new();
    while let Some(s) = p.next() {
        if let PassStep::Scan(k) = s {
            seen.push(k);
        }
    }
    assert_eq!(seen, vec![0, 1, 2, 0, 1]);
    let mut p = Pass::new(PassPlan { keys: 3, cycles: 0, reads: 4, scans: 5 });
    assert_eq!(p.next(), None);
}

#[test]
fn an_adaptive_pass_switches_at_every_phase_or_never() {
    for (k, scans, switches) in [(1, 1, 9), (3, 3, 9), (3, 7, 9), (8, 7, 0), (3, 0, 0)] {
        let mut p = Pass::new(PassPlan { keys: 50, cycles: 5, reads: 4, scans });
        let mut m = Mode::start(Advice::Adaptive(k));
        while let Some(s) = p.next() {
            let _ = m.note(step_event(s));
        }
        assert_eq!(m.switches, switches, "{k} {scans}");
    }
}

#[test]
fn advice_is_held_to_what_it_cuts() {
    let f = MadviseFacts {
        reads: Comparison::Greater,
        doubled: true,
        default_reads: Amplification { device: 700, asked: 10 },
        advised_reads: Amplification { device: 70, asked: 10 },
        scans: Comparison::Greater,
    };
    assert_eq!(madvise_verdicts(ColdGate::Exceeds, f), vec![Verdict::Holds; 4]);
    assert_eq!(madvise_verdicts(ColdGate::Fits, f), vec![Verdict::NotExercised; 4]);
    let f = MadviseFacts {
        reads: Comparison::Greater,
        doubled: false,
        default_reads: Amplification { device: 699, asked: 10 },
        advised_reads: Amplification { device: 70, asked: 10 },
        scans: Comparison::NoDifference,
    };
    assert_eq!(
        madvise_verdicts(ColdGate::Exceeds, f),
        vec![Verdict::Fails, Verdict::Fails, Verdict::Fails, Verdict::Holds]
    );
    // Nothing read before is nothing cut.
    let none = Amplification { device: 0, asked: 10 };
    assert!(!none.is_tenth_of(&none));
    assert!(none.is_tenth_of(&Amplification { device: 1, asked: 100_000_000 }));
    assert!(!none.is_tenth_of(&Amplification { device: 1, asked: 100_000_001 }));
    let big = Amplification { device: u64::MAX, asked: u64::MAX };
    assert!(!big.is_tenth_of(&big));
    assert!(Amplification { device: 1, asked: u64::MAX }.is_tenth_of(&big));
}

#[test]
fn a_pass_without_scans_tells_the_kernel_nothing() {
    let mut p = Pass::new(PassPlan { keys: 50, cycles: 4, reads: 20, scans: 0 });
    let mut m = Mode::start(Advice::Adaptive(1));
    while let Some(s) = p.next() {
        assert_eq!(m.note(step_event(s)), None);
    }
    assert!(m.random);
    assert_eq!(m.switches, 0);
}

#[test]
fn reads_are_cold_only_past_the_cap() {
    assert_eq!(cold_gate(false, u64::MAX, 1), ColdGate::NotCapped);
    assert_eq!(cold_gate(true, 1_048_576, 1), ColdGate::Fits);
    assert_eq!(cold_gate(true, 1_048_577, 1), ColdGate::Exceeds);
    assert_eq!(cold_verdict(ColdGate::Exceeds, true), Verdict::Holds);
    assert_eq!(cold_verdict(ColdGate::Exceeds, false), Verdict::Fails);
    assert_eq!(cold_verdict(ColdGate::Fits, false), Verdict::NotExercised);
    assert_eq!(cold_verdict(ColdGate::NotCapped, true), Verdict::NotExercised);
}

#[test]
fn new_segments_inherit_the_mode() {
    let some = |v: Vec<bool>| Some(v);
    assert_eq!(
        inherits_mode(&some(vec![false]), &some(vec![false, false]), false, 1, 2),
        Verdict::Holds
    );
    assert_eq!(
        inherits_mode(&some(vec![false]), &some(vec![false, true]), false, 1, 2),
        Verdict::Fails
    );
    assert_eq!(
        inherits_mode(&some(vec![true]), &some(vec![false]), false, 1, 2),
        Verdict::Fails
    );
    assert_eq!(
        inherits_mode(&some(vec![false]), &some(vec![false]), true, 1, 2),
        Verdict::Fails
    );
    assert_eq!(
        inherits_mode(&some(vec![false]), &some(vec![false]), false, 2, 2),
        Verdict::NotExercised
    );
    assert_eq!(inherits_mode(&None, &some(vec![false]), false, 1, 2), Verdict::NotExercised);
    assert_eq!(
        inherits_mode(&some(vec![]), &some(vec![false]), false, 1, 2),
        Verdict::NotExercised
    );
}

#[test]
fn mappings_are_read_from_the_kernel() {
    let text = b"7f00-7f10 r--s 00000000 00:01 5 /tmp/store/seg-1\n\
Size: 64 kB\n\
VmFlags: rd mr rr me\n\
7f20-7f30 r--s 00000000 00:01 6 /tmp/other\n\
VmFlags: rd rr\n\
7f40-7f50 r--s 00000000 00:01 7 /tmp/store/seg-2\n\
VmFlags: rd mr\n";
    assert_eq!(smaps_random(text, b"/tmp/store"), Some(vec![true, false]));
    assert_eq!(smaps_random(text, b"/nowhere"), Some(vec![]));
    assert_eq!(smaps_random(b"7f00-7f10 r--s 0 0 5 /tmp/store\nSize: 4 kB\n", b"/tmp"), None);
    assert_eq!(smaps_random(b"", b"x"), None);
    assert_eq!(words(b"  a  bc\td\n"), vec![b"a".to_vec(), b"bc".to_vec(), b"d".to_vec()]);
    assert!(words(b"   ").is_empty());
    // White space of one, two and three bytes divides alike.
    let text = "\u{3000}a\u{A0}b\u{2028}c\u{85}\u{2003}d\u{B}";
    assert_eq!(words(text.as_bytes()), vec![b"a".to_vec(), b"b".to_vec(), b"c".to_vec(), b"d".to_vec()]);
    // A zero width space is none.
    assert_eq!(words("a\u{200B}b".as_bytes()), vec!["a\u{200B}b".as_bytes().to_vec()]);
    assert!(holds_text(b"abcde", b"cd"));
    assert!(!holds_text(b"abcde", b"ce"));
    assert!(holds_text(b"", b""));
    assert!(!holds_text(b"", b"a"));
}

#[test]
fn amplification_is_compared_exactly() {
    let mut a = Amplification { device: 0, asked: 0 };
    assert!(a.at_most(5, 4));
    a.note(120, 100);
    assert!(a.at_most(5, 4));
    a.note(6, 0);
    assert!(!a.at_most(5, 4));
    let b = Amplification { device: 250, asked: 200 };
    let c = Amplification { device: 1, asked: 0 };
    assert!(b.at_most(5, 4));
    assert!(b.less_than(&a));
    assert!(!a.less_than(&b));
    assert!(!b.less_than(&b));
    assert!(c.less_than(&b));
    let big = Amplification { device: u64::MAX, asked: u64::MAX };
    assert!(big.at_most(1, 1));
    assert!(!big.less_than(&big));
}

#[test]
fn the_adaptive_claims_need_cold_reads() {
    let good = AdaptiveFacts {
        near_oracle: true,
        over_random: Comparison::Greater,
        enough: true,
        no_scan: Comparison::NoDifference,
        robust: true,
        no_phase: Comparison::NoDifference,
    };
    assert_eq!(adaptive_verdicts(ColdGate::Exceeds, good), vec![Verdict::Holds; 6]);
    assert_eq!(adaptive_verdicts(ColdGate::Fits, good), vec![Verdict::NotExercised; 6]);
    assert_eq!(adaptive_verdicts(ColdGate::NotCapped, good), vec![Verdict::NotExercised; 6]);
    let bad = AdaptiveFacts {
        near_oracle: false,
        over_random: Comparison::Greater,
        enough: false,
        no_scan: Comparison::Less,
        robust: false,
        no_phase: Comparison::Less,
    };
    assert_eq!(
        adaptive_verdicts(ColdGate::Exceeds, bad),
        vec![
            Verdict::Fails,
            Verdict::Fails,
            Verdict::Fails,
            Verdict::Holds,
            Verdict::Fails,
            Verdict::Fails
        ]
    );
}

#[test]
fn resident_claims_are_decided_everywhere() {
    let g = Comparison::Greater;
    let n = Comparison::NoDifference;
    let l = Comparison::Less;
    assert_eq!(
        store_verdicts(ColdGate::Fits, g, g, n, n, Verdict::Holds),
        vec![Verdict::NotExercised, Verdict::NotExercised, Verdict::Holds, Verdict::Holds]
    );
    assert_eq!(
        store_verdicts(ColdGate::Exceeds, g, n, l, l, Verdict::NotExercised),
        vec![Verdict::Fails, Verdict::Fails, Verdict::Fails, Verdict::NotExercised]
    );
    assert_eq!(
        store_verdicts(ColdGate::Exceeds, g, g, g, g, Verdict::Fails),
        vec![Verdict::Holds, Verdict::Holds, Verdict::Holds, Verdict::Fails]
    );
    let f = PrefetchFacts {
        over_adaptive: g,
        amplification: Amplification { device: 105, asked: 100 },
        adaptive: Amplification { device: 300, asked: 100 },
        resident_close: true,
    };
    assert_eq!(
        prefetch_verdicts(ColdGate::Exceeds, f),
        vec![
            Verdict::Fails,
            Verdict::Holds,
            Verdict::Holds,
            Verdict::Holds,
            Verdict::Holds,
            Verdict::Holds
        ]
    );
    let f = PrefetchFacts {
        over_adaptive: l,
        amplification: Amplification { device: 130, asked: 100 },
        adaptive: Amplification { device: 120, asked: 100 },
        resident_close: false,
    };
    assert_eq!(
        prefetch_verdicts(ColdGate::Exceeds, f),
        vec![
            Verdict::Fails,
            Verdict::Fails,
            Verdict::Fails,
            Verdict::Fails,
            Verdict::Holds,
            Verdict::Fails
        ]
    );
    assert_eq!(
        prefetch_verdicts(ColdGate::NotCapped, f),
        vec![
            Verdict::Fails,
            Verdict::NotExercised,
            Verdict::NotExercised,
            Verdict::NotExercised,
            Verdict::NotExercised,
            Verdict::Fails
        ]
    );
}

#[test]
fn settings_are_judged_claim_by_claim() {
    let g = Comparison::Greater;
    let n = Comparison::NoDifference;
    let l = Comparison::Less;
    assert_eq!(
        out_of_core_verdicts(true, true, true, 4_999_999),
        vec![Verdict::Holds; 4]
    );
    assert_eq!(
        out_of_core_verdicts(false, true, false, 5_000_000),
        vec![Verdict::NotExercised, Verdict::Fails, Verdict::Holds, Verdict::Fails]
    );
    assert_eq!(
        out_of_core_verdicts(true, false, true, 0),
        vec![
            Verdict::Holds,
            Verdict::NotExercised,
            Verdict::NotExercised,
            Verdict::NotExercised
        ]
    );
    let f = SealFacts {
        quarter: g,
        quarter_enough: true,
        quarter_bytes: true,
        quarter_reads: n,
        eighth_reads: n,
        eighth: l,
        half: g,
        half_enough: true,
        half_reads: l,
    };
    assert_eq!(seal_verdicts(f), vec![Verdict::Holds; 6]);
    let f = SealFacts {
        quarter: g,
        quarter_enough: false,
        quarter_bytes: false,
        quarter_reads: n,
        eighth_reads: l,
        eighth: g,
        half: n,
        half_enough: true,
        half_reads: g,
    };
    assert_eq!(seal_verdicts(f), vec![Verdict::Fails; 6]);
    let f = InlineFacts {
        reads: g,
        reads_enough: true,
        disk_close: true,
        scans: n,
        counts_close: true,
        writes: g,
    };
    assert_eq!(inline_verdicts(f), vec![Verdict::Holds; 5]);
    let f = InlineFacts {
        reads: n,
        reads_enough: true,
        disk_close: false,
        scans: l,
        counts_close: false,
        writes: l,
    };
    assert_eq!(inline_verdicts(f), vec![Verdict::Fails; 5]);
    assert_eq!(delete_verdicts(n, true, true, true, true), vec![Verdict::Holds; 5]);
    assert_eq!(
        delete_verdicts(g, true, false, true, false),
        vec![Verdict::Fails, Verdict::Holds, Verdict::Fails, Verdict::Holds, Verdict::Fails]
    );
}
