//! What the kernel is told about the reads to come, as a policy: told once, told
//! at every change of phase, or told by what the reader just did.

use crate::sort::{in_order, sorted};
use crate::text::{decimal_string, decimal_text};
use crate::verdict::{verdict, verdict_of, Verdict};
use vstd::prelude::*;
use vstd::string::StringExecFns;

verus! {

/// A policy.
#[derive(Clone, Copy, PartialEq, Eq, Structural, Debug)]
pub enum Advice {
    /// Readahead as the kernel sees fit.
    Normal,
    /// No readahead.
    Random,
    /// Told at every change of phase; no reader can know those.
    Oracle,
    /// No readahead from the first point read on, and readahead again after
    /// this many scans in a row.
    Adaptive(usize),
}

impl Advice {
    /// The name of a policy.
    pub open spec fn name_of(self) -> Seq<char> {
        match self {
            Advice::Normal => "normal"@,
            Advice::Random => "random"@,
            Advice::Oracle => "oracle"@,
            Advice::Adaptive(k) => "adaptive-"@ + decimal_text(k as nat),
        }
    }

    /// The name of a policy.
    pub fn label(&self) -> (s: String)
        ensures
            s@ == self.name_of(),
    {
        match self {
            Advice::Normal => "normal".to_owned(),
            Advice::Random => "random".to_owned(),
            Advice::Oracle => "oracle".to_owned(),
            Advice::Adaptive(k) => {
                let mut s: String = "adaptive-".to_owned();
                let n: String = decimal_string(*k as u64);
                s.append(n.as_str());
                s
            },
        }
    }
}

/// What a reader does.
#[derive(Clone, Copy, PartialEq, Eq, Structural, Debug)]
pub enum ReaderEvent {
    /// A phase of point reads begins.
    ReadPhase,
    /// One point read.
    Read,
    /// A phase of scans begins.
    ScanPhase,
    /// One scan.
    Scan,
}

/// A policy at work on one mapping.
#[derive(Clone, Copy, PartialEq, Eq, Structural, Debug)]
pub struct Mode {
    /// The policy.
    pub advice: Advice,
    /// Whether readahead is off.
    pub random: bool,
    /// Scans since the last point read.
    pub scans: u64,
    /// How often the kernel was told something new.
    pub switches: u64,
}

impl Mode {
    /// The policy before the first read: readahead is off, unless the policy is
    /// to leave it to the kernel.
    pub fn start(advice: Advice) -> (m: Mode)
        ensures
            m == (Mode { advice, random: advice != Advice::Normal, scans: 0, switches: 0 }),
    {
        Mode { advice, random: advice != Advice::Normal, scans: 0, switches: 0 }
    }

    /// Scans since the last point read, with this one.
    pub open spec fn scans_after(self, e: ReaderEvent) -> int {
        match (self.advice, e) {
            (Advice::Adaptive(_), ReaderEvent::Read) => 0,
            (Advice::Adaptive(_), ReaderEvent::Scan) => self.scans + 1,
            _ => self.scans as int,
        }
    }

    /// Whether readahead is to be off.
    pub open spec fn wants_random(self, e: ReaderEvent) -> bool {
        match (self.advice, e) {
            (Advice::Oracle, ReaderEvent::ReadPhase) => true,
            (Advice::Oracle, ReaderEvent::ScanPhase) => false,
            (Advice::Adaptive(_), ReaderEvent::Read) => true,
            (Advice::Adaptive(k), ReaderEvent::Scan) => self.random && self.scans + 1 < k,
            _ => self.random,
        }
    }

    /// The policy after an event.
    pub open spec fn after(self, e: ReaderEvent) -> Mode {
        Mode {
            advice: self.advice,
            random: self.wants_random(e),
            scans: self.scans_after(e) as u64,
            switches: (self.switches + if self.wants_random(e) != self.random {
                1int
            } else {
                0
            }) as u64,
        }
    }

    /// Takes note of an event. The kernel is told only what is new: whether
    /// readahead is to be off.
    pub fn note(&mut self, e: ReaderEvent) -> (tell: Option<bool>)
        requires
            old(self).scans < u64::MAX,
            old(self).switches < u64::MAX,
        ensures
            *final(self) == old(self).after(e),
            tell == if final(self).random != old(self).random {
                Some(final(self).random)
            } else {
                None::<bool>
            },
    {
        let before: bool = self.random;
        let want: bool = match (self.advice, e) {
            (Advice::Oracle, ReaderEvent::ReadPhase) => true,
            (Advice::Oracle, ReaderEvent::ScanPhase) => false,
            (Advice::Adaptive(_), ReaderEvent::Read) => {
                self.scans = 0;
                true
            },
            (Advice::Adaptive(k), ReaderEvent::Scan) => {
                self.scans = self.scans + 1;
                before && self.scans < k as u64
            },
            _ => before,
        };
        if want == before {
            return None;
        }
        self.random = want;
        self.switches = self.switches + 1;
        Some(want)
    }
}

/// A policy after a run of events.
pub open spec fn after_all(m: Mode, events: Seq<ReaderEvent>) -> Mode
    decreases events.len(),
{
    if events.len() == 0 {
        m
    } else {
        after_all(m, events.drop_last()).after(events.last())
    }
}

/// The fixed policies never tell the kernel anything again.
pub proof fn lemma_fixed_never_switch(m: Mode, events: Seq<ReaderEvent>)
    requires
        m.advice == Advice::Normal || m.advice == Advice::Random,
    ensures
        after_all(m, events) == m,
    decreases events.len(),
{
    if events.len() > 0 {
        lemma_fixed_never_switch(m, events.drop_last());
    }
}

/// Where nothing ever scans, the adaptive policy stays as it started.
pub proof fn lemma_no_scan_no_switch(k: usize, events: Seq<ReaderEvent>)
    requires
        forall|i: int| 0 <= i < events.len() ==> #[trigger] events[i] != ReaderEvent::Scan,
    ensures
        ({
            let m = after_all(
                Mode { advice: Advice::Adaptive(k), random: true, scans: 0, switches: 0 },
                events,
            );
            m.random && m.switches == 0
        }),
    decreases events.len(),
{
    if events.len() > 0 {
        let t = events.drop_last();
        assert forall|i: int| 0 <= i < t.len() implies #[trigger] t[i] != ReaderEvent::Scan by {
            assert(t[i] == events[i]);
        }
        lemma_no_scan_no_switch(k, t);
        lemma_advice_stays(
            Mode { advice: Advice::Adaptive(k), random: true, scans: 0, switches: 0 },
            t,
        );
        assert(events[events.len() - 1] != ReaderEvent::Scan);
    }
}

proof fn lemma_advice_stays(m: Mode, events: Seq<ReaderEvent>)
    ensures
        after_all(m, events).advice == m.advice,
    decreases events.len(),
{
    if events.len() > 0 {
        lemma_advice_stays(m, events.drop_last());
    }
}

/// A point read ends readahead at once, whatever came before.
pub proof fn lemma_read_ends_readahead(m: Mode)
    requires
        m.advice is Adaptive,
    ensures
        m.after(ReaderEvent::Read).random,
        m.after(ReaderEvent::Read).scans == 0,
{
}

/// Readahead comes back on the `k`th scan in a row behind a point read, and not
/// before.
pub proof fn lemma_readahead_comes_back(m: Mode, k: usize, n: nat)
    requires
        m.advice == Advice::Adaptive(k),
        m.random,
        m.scans == 0,
        k >= 1,
        n <= u64::MAX,
        m.switches < u64::MAX,
    ensures
        ({
            let after = after_all(m, Seq::new(n, |i: int| ReaderEvent::Scan));
            &&& after.random == (n < k)
            &&& after.scans == n
            &&& after.advice == m.advice
            &&& after.switches == m.switches + if n < k {
                0int
            } else {
                1
            }
        }),
    decreases n,
{
    let events = Seq::new(n, |i: int| ReaderEvent::Scan);
    if n > 0 {
        lemma_readahead_comes_back(m, k, (n - 1) as nat);
        assert(events.drop_last() =~= Seq::new((n - 1) as nat, |i: int| ReaderEvent::Scan));
    }
}

/// How many scans there were since the last point read.
pub open spec fn scans_in_a_row(events: Seq<ReaderEvent>) -> nat
    decreases events.len(),
{
    if events.len() == 0 || events.last() is Read {
        0
    } else {
        scans_in_a_row(events.drop_last()) + if events.last() is Scan {
            1nat
        } else {
            0nat
        }
    }
}

/// What the adaptive policy has told the kernel is decided by the scans since the
/// last point read alone: readahead is on from the `k`th of them, the first where
/// `k` is nought, and off before.
pub proof fn lemma_adaptive_goes_by_scans_in_a_row(k: usize, events: Seq<ReaderEvent>)
    requires
        events.len() < u64::MAX,
    ensures
        ({
            let m = after_all(
                Mode { advice: Advice::Adaptive(k), random: true, scans: 0, switches: 0 },
                events,
            );
            &&& m.advice == Advice::Adaptive(k)
            &&& m.scans == scans_in_a_row(events) <= events.len()
            &&& !m.random <==> scans_in_a_row(events) >= 1 && scans_in_a_row(events) >= k
        }),
    decreases events.len(),
{
    if events.len() > 0 {
        lemma_adaptive_goes_by_scans_in_a_row(k, events.drop_last());
    }
}

/// The policy that is told of phases has readahead on from the start of a scan phase
/// to the start of a read phase, and off else, whatever is read or scanned.
pub proof fn lemma_oracle_follows_phases(m: Mode, e: ReaderEvent)
    requires
        m.advice is Oracle,
    ensures
        e is ScanPhase ==> !m.after(e).random,
        e is ReadPhase ==> m.after(e).random,
        e is Read || e is Scan ==> m.after(e).random == m.random,
        m.after(e).advice == m.advice,
{
}

/// A switch is counted exactly when what the kernel is told changes.
pub proof fn lemma_switches_are_changes(m: Mode, e: ReaderEvent)
    requires
        m.switches < u64::MAX,
    ensures
        m.after(e).random != m.random ==> m.after(e).switches == m.switches + 1,
        m.after(e).random == m.random ==> m.after(e).switches == m.switches,
{
}

/// One read and one scan, `n` times over.
pub open spec fn alternating(n: nat) -> Seq<ReaderEvent>
    decreases n,
{
    if n == 0 {
        Seq::empty()
    } else {
        alternating((n - 1) as nat).push(ReaderEvent::Read).push(ReaderEvent::Scan)
    }
}

/// Where reads and scans alternate, a threshold of one switches at every step,
/// and a higher one never.
pub proof fn lemma_alternating(k: usize, n: nat)
    requires
        k >= 1,
        2 * n <= u64::MAX,
    ensures
        ({
            let m = after_all(
                Mode { advice: Advice::Adaptive(k), random: true, scans: 0, switches: 0 },
                alternating(n),
            );
            &&& m.advice == Advice::Adaptive(k)
            &&& m.scans <= 1
            &&& k >= 2 ==> m.random && m.switches == 0
            &&& k == 1 && n > 0 ==> !m.random && m.switches == 2 * n - 1
            &&& n == 0 ==> m.random && m.switches == 0
        }),
    decreases n,
{
    let start = Mode { advice: Advice::Adaptive(k), random: true, scans: 0, switches: 0 };
    if n > 0 {
        lemma_alternating(k, (n - 1) as nat);
        let a = alternating((n - 1) as nat);
        let b = a.push(ReaderEvent::Read);
        let c = b.push(ReaderEvent::Scan);
        assert(b.drop_last() =~= a);
        assert(c.drop_last() =~= b);
        assert(after_all(start, b) == after_all(start, a).after(ReaderEvent::Read));
        assert(after_all(start, c) == after_all(start, b).after(ReaderEvent::Scan));
    }
}

// ---------------------------------------------------------------- workload --

/// The bytes of a mebibyte.
pub const MEBI: u64 = 1_048_576;

/// How many keys make `mb` mebibytes of values.
pub fn keys_for(mb: u64, value_size: u64) -> (n: u64)
    requires
        mb * MEBI <= u64::MAX,
    ensures
        n == mb * MEBI / (if value_size == 0 {
            1
        } else {
            value_size as int
        }),
{
    let size: u64 = if value_size == 0 {
        1
    } else {
        value_size
    };
    (mb * MEBI) / size
}

/// How far apart the scans of a pass start.
pub open spec fn stride_of(keys: int, scans: int) -> int {
    let per = keys / (if scans > 0 {
        scans
    } else {
        1
    });
    if per > 0 {
        per
    } else {
        1
    }
}

/// How far apart the scans of a pass start: spread over the whole pass.
pub fn scan_stride(keys: u64, scans: u64) -> (s: u64)
    ensures
        s == stride_of(keys as int, scans as int),
        s >= 1,
{
    let per: u64 = keys / if scans > 0 {
        scans
    } else {
        1
    };
    if per > 0 {
        per
    } else {
        1
    }
}

/// The key that scan `i` starts at.
pub fn scan_start(i: u64, stride: u64, keys: u64) -> (k: u64)
    requires
        keys > 0,
        i * stride <= u64::MAX,
    ensures
        k == (i * stride) % (keys as int),
        k < keys,
{
    (i * stride) % keys
}

/// No two scans of a pass start at the same key, if there are as many keys as
/// scans: a scan that was warm already would tell nothing.
pub proof fn lemma_scan_starts_differ(keys: int, scans: int, i: int, j: int)
    requires
        0 <= i < j < scans <= keys,
    ensures
        (i * stride_of(keys, scans)) % keys < (j * stride_of(keys, scans)) % keys,
{
    let s = stride_of(keys, scans);
    vstd::arithmetic::div_mod::lemma_fundamental_div_mod(keys, scans);
    vstd::arithmetic::div_mod::lemma_mod_bound(keys, scans);
    vstd::arithmetic::div_mod::lemma_div_non_zero(keys, scans);
    assert(s == keys / scans);
    assert(j * s < keys && i * s < j * s && 0 <= i * s) by (nonlinear_arith)
        requires
            0 <= i < j < scans,
            s >= 1,
            scans * s <= keys,
    ;
    vstd::arithmetic::div_mod::lemma_small_mod((i * s) as nat, keys as nat);
    vstd::arithmetic::div_mod::lemma_small_mod((j * s) as nat, keys as nat);
}

/// Powers of two up to sixty-four.
pub open spec fn base_thresholds() -> Seq<u64> {
    seq![1u64, 2, 4, 8, 16, 32, 64]
}

/// The thresholds that are swept: powers of two up to sixty-four, and the
/// declared default.
pub fn thresholds(default_k: u64) -> (ks: Vec<u64>)
    ensures
        in_order(ks@),
        forall|k: u64| #[trigger]
            ks@.contains(k) <==> k == default_k || base_thresholds().contains(k),
        ks@.len() == if base_thresholds().contains(default_k) {
            7int
        } else {
            8
        },
{
    let mut ks: Vec<u64> = Vec::new();
    ks.push(1);
    ks.push(2);
    ks.push(4);
    ks.push(8);
    ks.push(16);
    ks.push(32);
    ks.push(64);
    let ghost base = base_thresholds();
    proof {
        assert(ks@ =~= base);
    }
    let mut known: bool = false;
    let mut i: usize = 0;
    while i < ks.len()
        invariant
            i <= ks@.len(),
            ks@ == base,
            known == exists|j: int| 0 <= j < i && base[j] == default_k,
        decreases ks.len() - i,
    {
        if ks[i] == default_k {
            assert(base[i as int] == default_k);
            known = true;
        }
        i = i + 1;
    }
    if !known {
        ks.push(default_k);
    }
    proof {
        assert forall|k: u64| #[trigger]
            ks@.contains(k) <==> k == default_k || base.contains(k) by {
            if base.contains(k) {
                let j = choose|j: int| 0 <= j < base.len() && base[j] == k;
                assert(ks@[j] == k);
            }
            if ks@.contains(k) {
                let j = choose|j: int| 0 <= j < ks@.len() && ks@[j] == k;
                if j < 7 {
                    assert(base[j] == k);
                }
            }
            if k == default_k {
                if known {
                    let j = choose|j: int| 0 <= j < base.len() && base[j] == default_k;
                    assert(ks@[j] == k);
                } else {
                    assert(ks@[7] == k);
                }
            }
        }
    }
    let out: Vec<u64> = sorted(&ks);
    proof {
        assert forall|k: u64| #[trigger]
            out@.contains(k) <==> k == default_k || base.contains(k) by {
            assert(ks@.contains(k) <==> k == default_k || base.contains(k));
            crate::sort::lemma_same_values(out@, ks@, k);
        }
    }
    out
}

/// The policies that are compared: the fixed ones, the oracle, and the adaptive
/// one at each threshold.
pub fn advice_arms(ks: &[usize]) -> (arms: Vec<Advice>)
    ensures
        arms@ == seq![Advice::Normal, Advice::Random, Advice::Oracle] + ks@.map_values(
            |k: usize| Advice::Adaptive(k),
        ),
{
    let mut arms: Vec<Advice> = Vec::new();
    arms.push(Advice::Normal);
    arms.push(Advice::Random);
    arms.push(Advice::Oracle);
    let mut i: usize = 0;
    while i < ks.len()
        invariant
            i <= ks@.len(),
            arms@ =~= seq![Advice::Normal, Advice::Random, Advice::Oracle]
                + ks@.take(i as int).map_values(|k: usize| Advice::Adaptive(k)),
        decreases ks.len() - i,
    {
        arms.push(Advice::Adaptive(ks[i]));
        i = i + 1;
    }
    proof {
        assert(ks@.take(i as int) =~= ks@);
    }
    arms
}

/// The lengths of scan phases that a threshold is tried at.
pub fn phase_lengths(scans: usize) -> (r: (usize, usize, usize))
    ensures
        r.0 == if scans / 8 > 2 {
            scans / 8
        } else {
            2
        },
        r.1 == if scans / 2 > 4 {
            scans / 2
        } else {
            4
        },
        r.2 == scans,
{
    let a: usize = scans / 8;
    let b: usize = scans / 2;
    (
        if a > 2 {
            a
        } else {
            2
        },
        if b > 4 {
            b
        } else {
            4
        },
        scans,
    )
}

/// The threshold that the default is held against: one step of hysteresis more
/// or less, and never the default itself.
pub fn contrast_threshold(default_k: usize) -> (k: usize)
    ensures
        k == if default_k == 1 {
            2usize
        } else {
            1usize
        },
        k != default_k,
{
    if default_k == 1 {
        2
    } else {
        1
    }
}

// -------------------------------------------------------------------- gate --

/// Whether reads can be cold.
#[derive(Clone, Copy, PartialEq, Eq, Structural, Debug)]
pub enum ColdGate {
    /// The page cache could not be capped.
    NotCapped,
    /// What is read fits in the page cache.
    Fits,
    /// What is read exceeds the page cache.
    Exceeds,
}

/// Whether reads can be cold: only if the page cache is capped, and the file
/// exceeds the cap.
pub fn cold_gate(capped: bool, file_bytes: u64, cap_mb: u64) -> (g: ColdGate)
    requires
        cap_mb * MEBI <= u64::MAX,
    ensures
        g == if !capped {
            ColdGate::NotCapped
        } else if file_bytes <= cap_mb * MEBI {
            ColdGate::Fits
        } else {
            ColdGate::Exceeds
        },
{
    if !capped {
        ColdGate::NotCapped
    } else if file_bytes <= cap_mb * MEBI {
        ColdGate::Fits
    } else {
        ColdGate::Exceeds
    }
}

// ----------------------------------------------------------------- inherit --

/// Whether no mapping has readahead off.
pub open spec fn none_random(flags: Seq<bool>) -> bool {
    forall|i: int| 0 <= i < flags.len() ==> !#[trigger] flags[i]
}

fn no_random(flags: &Vec<bool>) -> (r: bool)
    ensures
        r == none_random(flags@),
{
    let mut i: usize = 0;
    while i < flags.len()
        invariant
            i <= flags@.len(),
            forall|j: int| 0 <= j < i ==> !#[trigger] flags@[j],
        decreases flags.len() - i,
    {
        if flags[i] {
            return false;
        }
        i = i + 1;
    }
    true
}

/// Whether the kernel told of some mapping.
pub open spec fn told(flags: Option<Vec<bool>>) -> bool {
    flags is Some && flags->0@.len() > 0
}

/// Whether a segment that is opened after the store has changed its mode is in
/// the store's mode. Tested only where the kernel tells of mappings before and
/// after, and a segment was opened in between.
pub fn inherits_mode(
    after_scan: &Option<Vec<bool>>,
    after_seal: &Option<Vec<bool>>,
    store_random: bool,
    segments_before: usize,
    segments_after: usize,
) -> (v: Verdict)
    ensures
        v == verdict_of(
            told(*after_scan) && told(*after_seal) && segments_after > segments_before,
            told(*after_scan) && told(*after_seal) && none_random(after_scan->0@) && none_random(
                after_seal->0@,
            ) && !store_random,
        ),
{
    match (after_scan, after_seal) {
        (Some(a), Some(b)) => {
            if a.len() == 0 || b.len() == 0 {
                return Verdict::NotExercised;
            }
            let before: bool = no_random(a);
            let after: bool = no_random(b);
            verdict(segments_after > segments_before, before && after && !store_random)
        },
        _ => Verdict::NotExercised,
    }
}

/// The thresholds double from one to sixty-four.
pub proof fn lemma_thresholds_double(i: int)
    requires
        0 <= i < 6,
    ensures
        base_thresholds().len() == 7,
        base_thresholds()[0] == 1,
        base_thresholds()[6] == 64,
        base_thresholds()[i + 1] == 2 * base_thresholds()[i],
{
}

/// The scans of a pass are spread as far as the keys go: as many strides as there are scans
/// do not go past the keys, and longer strides would; without scans it is one stride.
pub proof fn lemma_strides_span_the_keys(keys: int, scans: int)
    requires
        0 <= keys,
        0 <= scans,
    ensures
        stride_of(keys, scans) >= 1,
        scans == 0 && keys > 0 ==> stride_of(keys, scans) == keys,
        scans > 0 && keys >= scans ==> scans * stride_of(keys, scans) <= keys < scans * (stride_of(
            keys,
            scans,
        ) + 1),
        scans > 0 && keys < scans ==> stride_of(keys, scans) == 1,
{
    if scans > 0 {
        vstd::arithmetic::div_mod::lemma_fundamental_div_mod(keys, scans);
        vstd::arithmetic::div_mod::lemma_mod_bound(keys, scans);
        let (q, r) = (keys / scans, keys % scans);
        if keys >= scans {
            assert(q >= 1 && scans * q <= keys < scans * (q + 1)) by (nonlinear_arith)
                requires
                    keys == scans * q + r,
                    0 <= r < scans,
                    keys >= scans,
            ;
        } else {
            vstd::arithmetic::div_mod::lemma_basic_div(keys, scans);
        }
    }
}

/// A mapping with readahead off is seen wherever it is in the list.
pub proof fn lemma_any_random_is_seen(flags: Seq<bool>, i: int)
    requires
        0 <= i < flags.len(),
    ensures
        flags[i] ==> !none_random(flags),
        none_random(flags.take(i)) && !flags[i] ==> none_random(flags.take(i + 1)),
        none_random(flags.take(0)),
{
    assert forall|j: int|
        none_random(flags.take(i)) && !flags[i] && 0 <= j < i + 1 implies !#[trigger] flags.take(
        i + 1,
    )[j] by {
        if j < i {
            assert(!flags.take(i)[j]);
        }
    }
}

} // verus!
