//! What the store experiments claim, and when a run can say anything of a claim
//! at all.

use crate::advice::ColdGate;
use crate::verdict::{
    changes_nothing, gains, is_no_more, loses_nothing, verdict, verdict_of, Comparison, Verdict,
};
use vstd::prelude::*;

verus! {

/// The verdict on a claim about cold reads: nothing is said of it where reads
/// could not be cold.
pub fn cold_verdict(gate: ColdGate, holds: bool) -> (v: Verdict)
    ensures
        v == verdict_of(gate is Exceeds, holds),
{
    match gate {
        ColdGate::Exceeds => verdict(true, holds),
        ColdGate::NotCapped | ColdGate::Fits => verdict(false, holds),
    }
}

// ------------------------------------------------------- read amplification --

/// What a device read, and what the readers were handed.
#[derive(Clone, Copy, PartialEq, Eq, Structural, Debug)]
pub struct Amplification {
    /// The bytes that the device read.
    pub device: u64,
    /// The bytes that the readers were handed.
    pub asked: u64,
}

impl Amplification {
    /// The bytes that the readers were handed, or one.
    pub open spec fn base(self) -> int {
        if self.asked == 0 {
            1
        } else {
            self.asked as int
        }
    }

    fn handed(&self) -> (n: u128)
        ensures
            n == self.base(),
            0 < n <= u64::MAX,
    {
        if self.asked == 0 {
            1
        } else {
            self.asked as u128
        }
    }

    /// Adds what one repetition read.
    pub fn note(&mut self, device: u64, asked: u64)
        requires
            old(self).device + device <= u64::MAX,
            old(self).asked + asked <= u64::MAX,
        ensures
            final(self).device == old(self).device + device,
            final(self).asked == old(self).asked + asked,
    {
        self.device = self.device + device;
        self.asked = self.asked + asked;
    }

    /// Whether the device read at most `num` bytes for every `den` that the
    /// readers were handed.
    pub fn at_most(&self, num: u32, den: u32) -> (r: bool)
        requires
            den > 0,
        ensures
            r == (self.device * den <= num * self.base()),
    {
        let b: u128 = self.handed();
        let d: u128 = self.device as u128;
        proof {
            assert(d * den <= u64::MAX * u32::MAX) by (nonlinear_arith)
                requires
                    d <= u64::MAX,
                    0 <= den <= u32::MAX,
            ;
            assert(num * b <= u64::MAX * u32::MAX) by (nonlinear_arith)
                requires
                    0 <= b <= u64::MAX,
                    0 <= num <= u32::MAX,
            ;
            assert(0 <= d * den && 0 <= num * b) by (nonlinear_arith)
                requires
                    0 <= d,
                    0 <= den,
                    0 <= num,
                    0 <= b,
            ;
        }
        d * den as u128 <= num as u128 * b
    }

    /// Whether the device read less for what the readers were handed than
    /// another did.
    pub fn less_than(&self, other: &Amplification) -> (r: bool)
        ensures
            r == (self.device * other.base() < other.device * self.base()),
    {
        let a: u128 = self.handed();
        let b: u128 = other.handed();
        let c: u128 = self.device as u128;
        let d: u128 = other.device as u128;
        proof {
            assert(0 <= c * b <= u64::MAX * u64::MAX) by (nonlinear_arith)
                requires
                    0 <= c <= u64::MAX,
                    0 <= b <= u64::MAX,
            ;
            assert(0 <= d * a <= u64::MAX * u64::MAX) by (nonlinear_arith)
                requires
                    0 <= d <= u64::MAX,
                    0 <= a <= u64::MAX,
            ;
        }
        c * b < d * a
    }

    /// For what the readers were handed, the device read at most a tenth of what
    /// it did before. Less than a byte for every hundred million handed is too
    /// little to be cut.
    pub open spec fn tenth_of(self, before: Amplification) -> bool {
        &&& 10 * (self.device * before.base()) <= before.device * self.base()
        &&& before.base() <= 100_000_000 * before.device
    }

    /// Whether the device read at most a tenth of what it did before.
    pub fn is_tenth_of(&self, before: &Amplification) -> (r: bool)
        ensures
            r == self.tenth_of(*before),
    {
        let a: u128 = self.handed();
        let b: u128 = before.handed();
        let c: u128 = self.device as u128;
        let d: u128 = before.device as u128;
        proof {
            assert(0 <= c * b <= u64::MAX * u64::MAX) by (nonlinear_arith)
                requires
                    0 <= c <= u64::MAX,
                    0 <= b <= u64::MAX,
            ;
            assert(0 <= d * a <= u64::MAX * u64::MAX) by (nonlinear_arith)
                requires
                    0 <= d <= u64::MAX,
                    0 <= a <= u64::MAX,
            ;
        }
        c * b <= d * a / 10 && b <= 100_000_000 * d
    }
}

// -------------------------------------------------------------- out of core --

/// Half a hundredth of a second, in nanoseconds.
pub const LATENCY_BOUND: u64 = 5_000_000;

/// What reading a file that outgrows memory says: that the cold reads were
/// cold; that they lose less than asked for; that the file exceeded memory; that
/// their latency is bounded.
pub open spec fn out_of_core(dropped: bool, exceeds: bool, lost_less: bool, p99_ns: u64) -> Seq<
    Verdict,
> {
    seq![
        verdict_of(dropped, true),
        verdict_of(exceeds, lost_less),
        verdict_of(exceeds, true),
        verdict_of(exceeds, p99_ns < LATENCY_BOUND),
    ]
}

/// What reading a file that outgrows memory says.
pub fn out_of_core_verdicts(dropped: bool, exceeds: bool, lost_less: bool, p99_ns: u64) -> (v: Vec<
    Verdict,
>)
    ensures
        v@ == out_of_core(dropped, exceeds, lost_less, p99_ns),
{
    let mut v: Vec<Verdict> = Vec::new();
    v.push(verdict(dropped, true));
    v.push(verdict(exceeds, lost_less));
    v.push(verdict(exceeds, true));
    v.push(verdict(exceeds, p99_ns < LATENCY_BOUND));
    v
}

// ---------------------------------------------------------------- the advice --

/// What was measured of the adaptive advice over cold reads.
#[derive(Clone, Copy, PartialEq, Eq, Structural, Debug)]
pub struct AdaptiveFacts {
    /// It comes close enough to the oracle.
    pub near_oracle: bool,
    /// It, against no readahead, over phases.
    pub over_random: Comparison,
    /// It is ahead of no readahead by as much as asked for.
    pub enough: bool,
    /// It, against no readahead, where nothing scans.
    pub no_scan: Comparison,
    /// Its threshold is good enough at every length of a phase.
    pub robust: bool,
    /// It, against the better fixed advice, where there are no phases.
    pub no_phase: Comparison,
}

/// What is said of the adaptive advice. Nothing is, where reads could not be
/// cold.
pub open spec fn adaptive_says(gate: ColdGate, f: AdaptiveFacts) -> Seq<Verdict> {
    let cold = gate is Exceeds;
    seq![
        verdict_of(cold, f.near_oracle),
        verdict_of(cold, f.over_random is Greater && f.enough),
        verdict_of(cold, !(f.no_scan is Less)),
        verdict_of(cold, true),
        verdict_of(cold, f.robust),
        verdict_of(cold, !(f.no_phase is Less)),
    ]
}

fn gated(gate: ColdGate, v: Verdict) -> (r: Verdict)
    ensures
        r == if gate is Exceeds {
            v
        } else {
            Verdict::NotExercised
        },
{
    match gate {
        ColdGate::Exceeds => v,
        ColdGate::NotCapped | ColdGate::Fits => Verdict::NotExercised,
    }
}

/// What is said of the adaptive advice.
pub fn adaptive_verdicts(gate: ColdGate, f: AdaptiveFacts) -> (v: Vec<Verdict>)
    ensures
        v@ == adaptive_says(gate, f),
{
    let mut v: Vec<Verdict> = Vec::new();
    v.push(cold_verdict(gate, f.near_oracle));
    v.push(gated(gate, gains(f.over_random, f.enough)));
    v.push(gated(gate, loses_nothing(f.no_scan)));
    v.push(cold_verdict(gate, true));
    v.push(cold_verdict(gate, f.robust));
    v.push(gated(gate, loses_nothing(f.no_phase)));
    v
}

/// What is said of the adaptive advice inside a store: ahead of both fixed ones
/// over phases, behind neither where there are none, no cost where all is
/// resident, and inherited by new segments. The last two do not need cold
/// reads.
pub open spec fn store_says(
    gate: ColdGate,
    over_default: Comparison,
    over_random: Comparison,
    no_phase: Comparison,
    resident: Comparison,
    inherited: Verdict,
) -> Seq<Verdict> {
    let cold = gate is Exceeds;
    seq![
        verdict_of(cold, over_default is Greater && over_random is Greater),
        verdict_of(cold, !(no_phase is Less)),
        verdict_of(true, !(resident is Less)),
        inherited,
    ]
}

/// What is said of the adaptive advice inside a store.
pub fn store_verdicts(
    gate: ColdGate,
    over_default: Comparison,
    over_random: Comparison,
    no_phase: Comparison,
    resident: Comparison,
    inherited: Verdict,
) -> (v: Vec<Verdict>)
    ensures
        v@ == store_says(gate, over_default, over_random, no_phase, resident, inherited),
{
    let both: bool = match (over_default, over_random) {
        (Comparison::Greater, Comparison::Greater) => true,
        _ => false,
    };
    let mut v: Vec<Verdict> = Vec::new();
    v.push(cold_verdict(gate, both));
    v.push(gated(gate, loses_nothing(no_phase)));
    v.push(loses_nothing(resident));
    v.push(inherited);
    v
}

/// What was measured of advising a mapping that its reads are random.
#[derive(Clone, Copy, PartialEq, Eq, Structural, Debug)]
pub struct MadviseFacts {
    /// Advised reads, against reads under the kernel's default.
    pub reads: Comparison,
    /// They are at least twice as fast.
    pub doubled: bool,
    /// What the reads took of the device under the default.
    pub default_reads: Amplification,
    /// What the advised reads took.
    pub advised_reads: Amplification,
    /// Scans under the default, against advised scans.
    pub scans: Comparison,
}

/// What is said of advising a mapping. Every claim needs cold reads.
pub open spec fn madvise_says(gate: ColdGate, f: MadviseFacts) -> Seq<Verdict> {
    let cold = gate is Exceeds;
    seq![
        verdict_of(cold, f.reads is Greater && f.doubled),
        verdict_of(cold, f.advised_reads.tenth_of(f.default_reads)),
        verdict_of(cold, f.scans is Greater),
        verdict_of(cold, true),
    ]
}

/// What is said of advising a mapping.
pub fn madvise_verdicts(gate: ColdGate, f: MadviseFacts) -> (v: Vec<Verdict>)
    ensures
        v@ == madvise_says(gate, f),
{
    let cut: bool = f.advised_reads.is_tenth_of(&f.default_reads);
    let mut v: Vec<Verdict> = Vec::new();
    v.push(gated(gate, gains(f.reads, f.doubled)));
    v.push(cold_verdict(gate, cut));
    v.push(gated(gate, gains(f.scans, true)));
    v.push(cold_verdict(gate, true));
    v
}

/// What was measured of prefetching.
#[derive(Clone, Copy, PartialEq, Eq, Structural, Debug)]
pub struct PrefetchFacts {
    /// It, against the adaptive advice, over cold reads.
    pub over_adaptive: Comparison,
    /// What its reads took of the device.
    pub amplification: Amplification,
    /// What the adaptive advice's reads took.
    pub adaptive: Amplification,
    /// Where all is resident it costs no more than what is allowed.
    pub resident_close: bool,
}

/// What is said of prefetching. The first claim was given up before it was
/// measured, and fails; the last one does not need cold reads.
pub open spec fn prefetch_says(gate: ColdGate, f: PrefetchFacts) -> Seq<Verdict> {
    let cold = gate is Exceeds;
    let a = f.amplification;
    let b = f.adaptive;
    seq![
        Verdict::Fails,
        verdict_of(cold, f.over_adaptive is Greater),
        verdict_of(
            cold,
            a.device * 4 <= 5 * a.base() && a.device * b.base() < b.device * a.base(),
        ),
        verdict_of(cold, !(f.over_adaptive is Less)),
        verdict_of(cold, true),
        verdict_of(true, f.resident_close),
    ]
}

/// What is said of prefetching.
pub fn prefetch_verdicts(gate: ColdGate, f: PrefetchFacts) -> (v: Vec<Verdict>)
    ensures
        v@ == prefetch_says(gate, f),
{
    let close: bool = f.amplification.at_most(5, 4);
    let less: bool = f.amplification.less_than(&f.adaptive);
    let mut v: Vec<Verdict> = Vec::new();
    v.push(Verdict::Fails);
    v.push(gated(gate, gains(f.over_adaptive, true)));
    v.push(cold_verdict(gate, close && less));
    v.push(gated(gate, loses_nothing(f.over_adaptive)));
    v.push(cold_verdict(gate, true));
    v.push(verdict(true, f.resident_close));
    v
}

/// A precondition that was not met is never a pass or a fail: without cold
/// reads no claim about them is decided. What does not need them is decided
/// everywhere, and the same whether reads were cold or not.
pub proof fn lemma_cold_claims_need_cold_reads(
    gate: ColdGate,
    m: MadviseFacts,
    f: AdaptiveFacts,
    p: PrefetchFacts,
    a: Comparison,
    b: Comparison,
    c: Comparison,
    d: Comparison,
    inherited: Verdict,
)
    ensures
        !(gate is Exceeds) ==> forall|i: int|
            0 <= i < 4 ==> #[trigger] madvise_says(gate, m)[i] is NotExercised,
        !(gate is Exceeds) ==> forall|i: int|
            0 <= i < 6 ==> #[trigger] adaptive_says(gate, f)[i] is NotExercised,
        !(gate is Exceeds) ==> forall|i: int|
            1 <= i < 5 ==> #[trigger] prefetch_says(gate, p)[i] is NotExercised,
        !(gate is Exceeds) ==> store_says(gate, a, b, c, d, inherited)[0] is NotExercised
            && store_says(gate, a, b, c, d, inherited)[1] is NotExercised,
        !(prefetch_says(gate, p)[5] is NotExercised),
        prefetch_says(gate, p)[5] == prefetch_says(ColdGate::Exceeds, p)[5],
        !(store_says(gate, a, b, c, d, inherited)[2] is NotExercised),
        store_says(gate, a, b, c, d, inherited)[2] == store_says(
            ColdGate::Exceeds,
            a,
            b,
            c,
            d,
            inherited,
        )[2],
{
}

// -------------------------------------------------------------- the settings --

/// When the claims about advice hold, where reads were cold. Advising doubles the speed
/// of reads and cuts what they take of the device to a tenth, and costs the scans. The
/// adaptive advice comes near the oracle, is ahead of no readahead by enough, loses
/// nothing to it where nothing scans, is robust, and loses nothing without phases.
pub proof fn lemma_advice_claims_hold_when(m: MadviseFacts, f: AdaptiveFacts, g: ColdGate)
    requires
        g is Exceeds,
    ensures
        madvise_says(g, m).len() == 4,
        madvise_says(g, m)[0] is Holds <==> m.reads is Greater && m.doubled,
        madvise_says(g, m)[1] is Holds <==> {
            let a = if m.advised_reads.asked == 0 {
                1
            } else {
                m.advised_reads.asked as int
            };
            let b = if m.default_reads.asked == 0 {
                1
            } else {
                m.default_reads.asked as int
            };
            10 * (m.advised_reads.device * b) <= m.default_reads.device * a && b <= 100_000_000
                * m.default_reads.device
        },
        madvise_says(g, m)[2] is Holds <==> m.scans is Greater,
        madvise_says(g, m)[3] is Holds,
        adaptive_says(g, f).len() == 6,
        adaptive_says(g, f)[0] is Holds <==> f.near_oracle,
        adaptive_says(g, f)[1] is Holds <==> f.over_random is Greater && f.enough,
        adaptive_says(g, f)[2] is Holds <==> f.no_scan !is Less,
        adaptive_says(g, f)[3] is Holds,
        adaptive_says(g, f)[4] is Holds <==> f.robust,
        adaptive_says(g, f)[5] is Holds <==> f.no_phase !is Less,
        forall|i: int| 0 <= i < 4 ==> !(#[trigger] madvise_says(g, m)[i] is NotExercised),
        forall|i: int| 0 <= i < 6 ==> !(#[trigger] adaptive_says(g, f)[i] is NotExercised),
{
}

/// When the claims about stores hold: an advised store beats both fixed advices over
/// cold reads, loses nothing without phases, and loses nothing where all is resident,
/// which needs no cold reads. Prefetching beats the adaptive advice, reads at most five
/// bytes for four and less than that advice does, never loses to it, and costs little
/// where all is resident.
pub proof fn lemma_store_claims_hold_when(
    g: ColdGate,
    a: Comparison,
    b: Comparison,
    c: Comparison,
    d: Comparison,
    inherited: Verdict,
    p: PrefetchFacts,
)
    ensures
        store_says(g, a, b, c, d, inherited).len() == 4,
        store_says(g, a, b, c, d, inherited)[0] is Holds <==> g is Exceeds && a is Greater
            && b is Greater,
        store_says(g, a, b, c, d, inherited)[1] is Holds <==> g is Exceeds && c !is Less,
        store_says(g, a, b, c, d, inherited)[2] is Holds <==> d !is Less,
        store_says(g, a, b, c, d, inherited)[2] is Fails <==> d is Less,
        store_says(g, a, b, c, d, inherited)[3] == inherited,
        prefetch_says(g, p).len() == 6,
        prefetch_says(g, p)[0] is Fails,
        prefetch_says(g, p)[1] is Holds <==> g is Exceeds && p.over_adaptive is Greater,
        prefetch_says(g, p)[2] is Holds <==> g is Exceeds && {
            let x = if p.amplification.asked == 0 {
                1
            } else {
                p.amplification.asked as int
            };
            let y = if p.adaptive.asked == 0 {
                1
            } else {
                p.adaptive.asked as int
            };
            4 * p.amplification.device <= 5 * x && p.amplification.device * y < p.adaptive.device
                * x
        },
        prefetch_says(g, p)[3] is Holds <==> g is Exceeds && p.over_adaptive !is Less,
        prefetch_says(g, p)[4] is Holds <==> g is Exceeds,
        prefetch_says(g, p)[5] is Holds <==> p.resident_close,
{
}

/// When the claims about reads out of core hold: the cache was dropped; less was lost;
/// the data exceeds memory; and the slow reads took under five milliseconds.
pub proof fn lemma_out_of_core_holds_when(
    dropped: bool,
    exceeds: bool,
    lost_less: bool,
    p99_ns: u64,
)
    ensures
        ({
            let v = out_of_core(dropped, exceeds, lost_less, p99_ns);
            &&& v.len() == 4
            &&& v[0] is Holds <==> dropped
            &&& v[1] is Holds <==> exceeds && lost_less
            &&& v[2] is Holds <==> exceeds
            &&& v[3] is Holds <==> exceeds && p99_ns < 5_000_000
            &&& !dropped ==> v[0] is NotExercised
            &&& !exceeds ==> v[1] is NotExercised && v[2] is NotExercised && v[3] is NotExercised
        }),
{
}

/// What was measured of the size at which tables are sealed.
#[derive(Clone, Copy, PartialEq, Eq, Structural, Debug)]
pub struct SealFacts {
    /// Writing, at a quarter of the size against the whole.
    pub quarter: Comparison,
    /// A quarter of the size is ahead by as much as asked for.
    pub quarter_enough: bool,
    /// A quarter of the size takes no more device bytes than allowed.
    pub quarter_bytes: bool,
    /// The time of a read, at a quarter against the whole.
    pub quarter_reads: Comparison,
    /// The time of a read, at an eighth against the whole.
    pub eighth_reads: Comparison,
    /// Writing, at an eighth against a quarter.
    pub eighth: Comparison,
    /// Writing, at half the size over whole partitions, against the whole.
    pub half: Comparison,
    /// Half the size is ahead by as much as asked for.
    pub half_enough: bool,
    /// The time of a read, at half the size over whole partitions.
    pub half_reads: Comparison,
}

/// What is said of the size at which tables are sealed: that smaller ones are
/// written faster, at no more bytes than allowed, and read no differently; that
/// the smallest are written no faster than the next; and that half the size
/// over whole partitions is written faster and read no slower.
pub open spec fn seal_says(f: SealFacts) -> Seq<Verdict> {
    seq![
        verdict_of(true, f.quarter is Greater && f.quarter_enough),
        verdict_of(true, f.quarter_bytes),
        verdict_of(true, f.quarter_reads is NoDifference && f.eighth_reads is NoDifference),
        verdict_of(true, !(f.eighth is Greater)),
        verdict_of(true, f.half is Greater && f.half_enough),
        verdict_of(true, !(f.half_reads is Greater)),
    ]
}

/// What is said of the size at which tables are sealed.
pub fn seal_verdicts(f: SealFacts) -> (v: Vec<Verdict>)
    ensures
        v@ == seal_says(f),
{
    let same: bool = match (f.quarter_reads, f.eighth_reads) {
        (Comparison::NoDifference, Comparison::NoDifference) => true,
        _ => false,
    };
    let mut v: Vec<Verdict> = Vec::new();
    v.push(gains(f.quarter, f.quarter_enough));
    v.push(verdict(true, f.quarter_bytes));
    v.push(verdict(true, same));
    v.push(is_no_more(f.eighth));
    v.push(gains(f.half, f.half_enough));
    v.push(is_no_more(f.half_reads));
    v
}

/// What was measured of values that are kept with their keys.
#[derive(Clone, Copy, PartialEq, Eq, Structural, Debug)]
pub struct InlineFacts {
    /// Reads, inline against blocks.
    pub reads: Comparison,
    /// Inline reads are ahead by as much as asked for.
    pub reads_enough: bool,
    /// Both take as much of the disk.
    pub disk_close: bool,
    /// Scans, inline against blocks.
    pub scans: Comparison,
    /// Counting costs no more than allowed.
    pub counts_close: bool,
    /// Writing, inline against blocks.
    pub writes: Comparison,
}

/// What is said of values that are kept with their keys: read faster, no larger,
/// scanned no slower, counted at no more than allowed, written no slower.
pub open spec fn inline_says(f: InlineFacts) -> Seq<Verdict> {
    seq![
        verdict_of(true, f.reads is Greater && f.reads_enough),
        verdict_of(true, f.disk_close),
        verdict_of(true, !(f.scans is Less)),
        verdict_of(true, f.counts_close),
        verdict_of(true, !(f.writes is Less)),
    ]
}

/// What is said of values that are kept with their keys.
pub fn inline_verdicts(f: InlineFacts) -> (v: Vec<Verdict>)
    ensures
        v@ == inline_says(f),
{
    let mut v: Vec<Verdict> = Vec::new();
    v.push(gains(f.reads, f.reads_enough));
    v.push(verdict(true, f.disk_close));
    v.push(loses_nothing(f.scans));
    v.push(verdict(true, f.counts_close));
    v.push(loses_nothing(f.writes));
    v
}

/// What is said of transactions: that closing a batch costs nothing, that what
/// is deleted leaves the disk, and that reads of what is deleted and of what is
/// not, and merging, cost no more than allowed.
pub open spec fn deletes_say(
    closing: Comparison,
    disk_smaller: bool,
    deleted_close: bool,
    present_close: bool,
    merge_close: bool,
) -> Seq<Verdict> {
    seq![
        verdict_of(true, closing is NoDifference),
        verdict_of(true, disk_smaller),
        verdict_of(true, deleted_close),
        verdict_of(true, present_close),
        verdict_of(true, merge_close),
    ]
}

/// What is said of transactions.
pub fn delete_verdicts(
    closing: Comparison,
    disk_smaller: bool,
    deleted_close: bool,
    present_close: bool,
    merge_close: bool,
) -> (v: Vec<Verdict>)
    ensures
        v@ == deletes_say(closing, disk_smaller, deleted_close, present_close, merge_close),
{
    let mut v: Vec<Verdict> = Vec::new();
    v.push(changes_nothing(closing));
    v.push(verdict(true, disk_smaller));
    v.push(verdict(true, deleted_close));
    v.push(verdict(true, present_close));
    v.push(verdict(true, merge_close));
    v
}

/// When the claims about sizes, inline values and deletes hold. A quarter of the seal
/// size writes faster by enough with no more bytes and reads as before, as an eighth
/// does, which writes no faster; half of it writes faster by enough and reads no slower.
/// Inline values read faster by enough, take little more room, scan no slower, count
/// nearly as fast and write no slower. Deleting changes nothing about closing, and all
/// that was to stay close did.
pub proof fn lemma_setting_claims_hold_when(
    s: SealFacts,
    i: InlineFacts,
    closing: Comparison,
    a: bool,
    b: bool,
    c: bool,
    d: bool,
)
    ensures
        seal_says(s).len() == 6,
        seal_says(s)[0] is Holds <==> s.quarter is Greater && s.quarter_enough,
        seal_says(s)[1] is Holds <==> s.quarter_bytes,
        seal_says(s)[2] is Holds <==> s.quarter_reads is NoDifference && s.eighth_reads is NoDifference,
        seal_says(s)[3] is Holds <==> s.eighth !is Greater,
        seal_says(s)[4] is Holds <==> s.half is Greater && s.half_enough,
        seal_says(s)[5] is Holds <==> s.half_reads !is Greater,
        inline_says(i).len() == 5,
        inline_says(i)[0] is Holds <==> i.reads is Greater && i.reads_enough,
        inline_says(i)[1] is Holds <==> i.disk_close,
        inline_says(i)[2] is Holds <==> i.scans !is Less,
        inline_says(i)[3] is Holds <==> i.counts_close,
        inline_says(i)[4] is Holds <==> i.writes !is Less,
        deletes_say(closing, a, b, c, d).len() == 5,
        deletes_say(closing, a, b, c, d)[0] is Holds <==> closing is NoDifference,
        deletes_say(closing, a, b, c, d)[1] is Holds <==> a,
        deletes_say(closing, a, b, c, d)[2] is Holds <==> b,
        deletes_say(closing, a, b, c, d)[3] is Holds <==> c,
        deletes_say(closing, a, b, c, d)[4] is Holds <==> d,
        forall|k: int| 0 <= k < 6 ==> !(#[trigger] seal_says(s)[k] is NotExercised),
        forall|k: int| 0 <= k < 5 ==> !(#[trigger] inline_says(i)[k] is NotExercised),
{
}

} // verus!
