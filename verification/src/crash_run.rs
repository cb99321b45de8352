//! The crash trials: what each one does, how the tail of the log is torn, what
//! is counted, and what the counts say.

use crate::crash::{
    check_scanned, fewest, outcome_of, scanned_as, states, Outcome, SyncArm,
};
use crate::text::same_text;
use crate::verdict::{verdict, verdict_of, Verdict};
use vstd::prelude::*;

verus! {

// ------------------------------------------------------------------ trials --

/// When the writer dies.
#[derive(Clone, Copy, PartialEq, Eq, Structural, Debug)]
pub enum CrashMode {
    /// At a fixed operation.
    Fixed,
    /// Once a seal is in flight.
    Seal,
    /// Once a merge is in flight.
    Merge,
    /// Under any other name: at a fixed operation too, and never late.
    Other,
}

/// The mode of a name.
pub fn crash_mode(name: &str) -> (m: CrashMode)
    ensures
        m == if name@ == "seal"@ {
            CrashMode::Seal
        } else if name@ == "merge"@ {
            CrashMode::Merge
        } else if name@ == "fixed"@ {
            CrashMode::Fixed
        } else {
            CrashMode::Other
        },
{
    if same_text(name, "seal") {
        CrashMode::Seal
    } else if same_text(name, "merge") {
        CrashMode::Merge
    } else if same_text(name, "fixed") {
        CrashMode::Fixed
    } else {
        CrashMode::Other
    }
}

/// The name of a mode that has one.
pub fn crash_mode_name(m: CrashMode) -> (s: &'static str)
    requires
        m != CrashMode::Other,
    ensures
        s@ == match m {
            CrashMode::Seal => "seal"@,
            CrashMode::Merge => "merge"@,
            _ => "fixed"@,
        },
{
    match m {
        CrashMode::Seal => "seal",
        CrashMode::Merge => "merge",
        _ => "fixed",
    }
}

/// One trial.
#[derive(Clone, Copy, PartialEq, Eq, Structural, Debug)]
pub struct CrashTrial {
    /// The synchronisation policy.
    pub arm: SyncArm,
    /// Operations to a batch.
    pub batch: u64,
    /// When the writer dies.
    pub mode: CrashMode,
    /// What the stream of operations is drawn from.
    pub seed: u64,
    /// The operation at, or about, which the writer dies.
    pub abort_after: u64,
    /// The operation past which it dies in any case.
    pub cap: u64,
    /// Whether it dies after a commit and before anyone is told of it.
    pub late: bool,
    /// Whether log files are used again.
    pub recycle: bool,
}

/// The policy of trial `t`.
pub open spec fn arm_of(t: nat) -> SyncArm {
    if t % 2 == 0 {
        SyncArm::Always
    } else {
        SyncArm::EveryN
    }
}

/// Operations to a batch in trial `t`.
pub open spec fn batch_of(t: nat) -> u64 {
    let i = (t / 2) % 4;
    if i == 0 {
        4
    } else if i == 1 {
        16
    } else if i == 2 {
        64
    } else {
        256
    }
}

/// The mode of trial `t`.
pub open spec fn mode_of(t: nat) -> CrashMode {
    if t % 3 == 0 {
        CrashMode::Fixed
    } else if t % 3 == 1 {
        CrashMode::Seal
    } else {
        CrashMode::Merge
    }
}

/// Trial `t`: `at` is drawn below `max_ops`, `coin` is any number.
pub fn crash_trial(t: u64, max_ops: u64, at: u64, coin: u64) -> (r: CrashTrial)
    requires
        at < max_ops,
        2 * max_ops <= u64::MAX,
        t <= u64::MAX - 0xC4,
    ensures
        r.arm == arm_of(t as nat),
        r.batch == batch_of(t as nat),
        r.mode == mode_of(t as nat),
        r.seed == 0xC4 + t,
        r.abort_after == 1 + at,
        r.cap == r.abort_after + max_ops,
        r.late == (coin % 2 == 0 && r.mode == CrashMode::Fixed),
        r.recycle == ((t / 2) % 2 == 1),
{
    let arm: SyncArm = if t % 2 == 0 {
        SyncArm::Always
    } else {
        SyncArm::EveryN
    };
    let i: u64 = (t / 2) % 4;
    let batch: u64 = if i == 0 {
        4
    } else if i == 1 {
        16
    } else if i == 2 {
        64
    } else {
        256
    };
    let mode: CrashMode = if t % 3 == 0 {
        CrashMode::Fixed
    } else if t % 3 == 1 {
        CrashMode::Seal
    } else {
        CrashMode::Merge
    };
    let abort_after: u64 = 1 + at;
    CrashTrial {
        arm,
        batch,
        mode,
        seed: 0xC4 + t,
        abort_after,
        cap: abort_after + max_ops,
        late: coin % 2 == 0 && mode == CrashMode::Fixed,
        recycle: (t / 2) % 2 == 1,
    }
}

/// Eight trials in a row try every batch size under both policies, and six in a
/// row every mode that has a name.
pub proof fn lemma_trials_cover(start: nat, arm: SyncArm, size: nat, mode: CrashMode)
    requires
        size < 4,
        mode != CrashMode::Other,
    ensures
        exists|t: nat|
            start <= t < start + 8 && arm_of(t) == arm && #[trigger] batch_of(t) == batch_of(
                2 * size,
            ),
        exists|t: nat| start <= t < start + 6 && arm_of(t) == arm && #[trigger] mode_of(t) == mode,
{
    let odd: nat = if arm == SyncArm::Always {
        0
    } else {
        1
    };
    let a = lemma_eighth_trial(start, 2 * size + odd);
    assert(arm_of(a) == arm && batch_of(a) == batch_of(2 * size));
    let third: nat = if mode == CrashMode::Fixed {
        0
    } else if mode == CrashMode::Seal {
        1
    } else {
        2
    };
    let b = lemma_sixth_trial(start, (3 * odd + 4 * third) % 6);
    assert(arm_of(b) == arm && mode_of(b) == mode);
}

/// The next trial with a remainder by eight.
proof fn lemma_eighth_trial(start: nat, want: nat) -> (t: nat)
    requires
        want < 8,
    ensures
        start <= t < start + 8,
        t % 2 == want % 2,
        (t / 2) % 4 == want / 2,
{
    let q: nat = if start % 8 <= want {
        start / 8
    } else {
        start / 8 + 1
    };
    let t = 8 * q + want;
    assert(t / 2 == 4 * q + want / 2);
    t
}

/// The next trial with a remainder by six.
proof fn lemma_sixth_trial(start: nat, want: nat) -> (t: nat)
    requires
        want < 6,
    ensures
        start <= t < start + 6,
        t % 2 == want % 2,
        t % 3 == want % 3,
{
    let q: nat = if start % 6 <= want {
        start / 6
    } else {
        start / 6 + 1
    };
    6 * q + want
}

// -------------------------------------------------------------------- tear --

/// How trials take turns: the policy at every trial, the way of dying round three of
/// them, and the size of batches at every other trial, four times as large each time
/// and round four of them.
pub proof fn lemma_trials_take_turns(t: nat)
    ensures
        arm_of(0) is Always,
        arm_of(t + 1) != arm_of(t),
        mode_of(0) is Fixed,
        mode_of(t) is Fixed ==> mode_of(t + 1) is Seal,
        mode_of(t) is Seal ==> mode_of(t + 1) is Merge,
        mode_of(t) is Merge ==> mode_of(t + 1) is Fixed,
        batch_of(0) == 4,
        t % 2 == 0 ==> batch_of(t + 1) == batch_of(t),
        t % 2 == 1 && batch_of(t) < 256 ==> batch_of(t + 1) == 4 * batch_of(t),
        t % 2 == 1 && batch_of(t) == 256 ==> batch_of(t + 1) == 4,
        batch_of(t) <= 256,
        mode_of(t) !is Other,
{
}

/// Where the tail of the log may be torn: from `base` up to `hi`.
#[derive(Clone, Copy, PartialEq, Eq, Structural, Debug)]
pub struct TearSpan {
    /// What is certainly on the device.
    pub base: u64,
    /// The end of what was written.
    pub hi: u64,
}

/// What the loss of power does to the tail of the log.
#[derive(Clone, Copy, PartialEq, Eq, Structural, Debug)]
pub enum Tear {
    /// Nothing is lost.
    Whole,
    /// The file ends at `cut`.
    Truncate { cut: u64 },
    /// The file keeps what its blocks held before: `span` bytes from `from` on
    /// come to lie at `at`.
    Stale { from: u64, at: u64, span: u64 },
    /// Only the header is lost, and an older header was the same.
    Header,
}

/// The end of what can be lost.
pub open spec fn tear_end(on_disk: u64, synced: u64, written: u64) -> u64 {
    let top = if written > synced {
        written
    } else {
        synced
    };
    if on_disk < top {
        on_disk
    } else {
        top
    }
}

/// Where the tail may be torn, if anywhere: what was written and not
/// synchronised. `below` lets the tear reach that far below the synchronised
/// mark, which no loss of power can.
pub fn tear_span(on_disk: u64, synced: u64, written: u64, below: u64) -> (r: Option<TearSpan>)
    ensures
        ({
            let base = if synced >= below {
                (synced - below) as u64
            } else {
                0u64
            };
            let hi = tear_end(on_disk, synced, written);
            r == if hi > base {
                Some((TearSpan { base, hi }))
            } else {
                None::<TearSpan>
            }
        }),
{
    let top: u64 = if written > synced {
        written
    } else {
        synced
    };
    let hi: u64 = if on_disk < top {
        on_disk
    } else {
        top
    };
    let base: u64 = synced.saturating_sub(below);
    if hi > base {
        Some(TearSpan { base, hi })
    } else {
        None
    }
}

/// The bytes of a log file's header.
pub const LOG_HEADER: u64 = 8;

/// What a tear at `cut` does.
pub open spec fn tear_of(on_disk: u64, written: u64, hi: u64, cut: u64) -> Tear {
    let lo = if cut > LOG_HEADER {
        cut
    } else {
        LOG_HEADER
    };
    if cut >= hi {
        Tear::Whole
    } else if on_disk <= written {
        Tear::Truncate { cut }
    } else if hi > lo {
        Tear::Stale { from: (written + (lo - cut)) as u64, at: lo, span: (hi - lo) as u64 }
    } else {
        Tear::Header
    }
}

/// The tear: the file keeps `kept` bytes past the base of the span. In a file
/// that reaches past what was written the device keeps what its blocks held
/// before.
pub fn tear(on_disk: u64, written: u64, span: TearSpan, kept: u64) -> (r: (u64, Tear))
    requires
        span.base < span.hi <= on_disk,
        kept <= span.hi - span.base,
        on_disk <= u64::MAX - LOG_HEADER,
    ensures
        r.0 == span.base + kept,
        r.1 == tear_of(on_disk, written, span.hi, r.0),
{
    let cut: u64 = span.base + kept;
    if cut >= span.hi {
        return (cut, Tear::Whole);
    }
    if on_disk > written {
        let lo: u64 = if cut > LOG_HEADER {
            cut
        } else {
            LOG_HEADER
        };
        if span.hi > lo {
            (cut, Tear::Stale { from: written + (lo - cut), at: lo, span: span.hi - lo })
        } else {
            (cut, Tear::Header)
        }
    } else {
        (cut, Tear::Truncate { cut })
    }
}

/// A tear never touches what was synchronised, nor anything past what was
/// written.
pub proof fn lemma_tear_spares_synced(
    on_disk: u64,
    synced: u64,
    written: u64,
    kept: u64,
)
    requires
        tear_end(on_disk, synced, written) > synced,
        kept <= tear_end(on_disk, synced, written) - synced,
    ensures
        match tear_of(
            on_disk,
            written,
            tear_end(on_disk, synced, written),
            (synced + kept) as u64,
        ) {
            Tear::Truncate { cut } => synced <= cut <= written,
            Tear::Stale { from, at, span } => synced <= at && at + span <= written,
            Tear::Whole => true,
            Tear::Header => true,
        },
{
}

/// What a tear does to the log, of which `cut` bytes stay. Nothing is torn where that
/// is all. A log that ends where writing ended is cut there. One that goes on behind
/// that has old frames, and gets them: what lies behind the cut, the header apart, up
/// to where the tear ends is written over by what lies as far behind the end of
/// writing. Only the header is hit where nothing but it would be.
pub proof fn lemma_tear_says(on_disk: u64, synced: u64, written: u64, hi: u64, cut: u64)
    requires
        on_disk <= u64::MAX - LOG_HEADER,
    ensures
        tear_end(on_disk, synced, written) <= on_disk,
        tear_end(on_disk, synced, written) <= written || tear_end(on_disk, synced, written)
            <= synced,
        tear_end(on_disk, synced, written) == on_disk || (tear_end(on_disk, synced, written)
            >= written && tear_end(on_disk, synced, written) >= synced),
        tear_of(on_disk, written, hi, cut) is Whole <==> cut >= hi,
        cut < hi && on_disk <= written ==> tear_of(on_disk, written, hi, cut) == (
        Tear::Truncate { cut }),
        cut < hi && on_disk > written ==> tear_of(on_disk, written, hi, cut) is Stale || tear_of(
            on_disk,
            written,
            hi,
            cut,
        ) is Header,
        tear_of(on_disk, written, hi, cut) is Header ==> hi <= 8,
        hi <= on_disk ==> (tear_of(on_disk, written, hi, cut) matches Tear::Stale {
            from,
            at,
            span,
        } ==> {
            &&& at >= 8 && at >= cut && (at == 8 || at == cut)
            &&& span > 0 && at + span == hi
            &&& from - written == at - cut
        }),
{
}

/// What lies in a span of the file after a read of `got` bytes: those, and
/// zeros behind them.
pub fn stale_bytes(got: &[u8], span: usize) -> (out: Vec<u8>)
    ensures
        out@ == Seq::new(
            span as nat,
            |i: int|
                if i < got@.len() {
                    got@[i]
                } else {
                    0u8
                },
        ),
{
    let mut out: Vec<u8> = Vec::new();
    while out.len() < span
        invariant
            out@.len() <= span,
            forall|i: int|
                0 <= i < out@.len() ==> #[trigger] out@[i] == if i < got@.len() {
                    got@[i]
                } else {
                    0u8
                },
        decreases span - out.len(),
    {
        let b: u8 = if out.len() < got.len() {
            got[out.len()]
        } else {
            0
        };
        out.push(b);
    }
    proof {
        assert(out@ =~= Seq::new(
            span as nat,
            |i: int|
                if i < got@.len() {
                    got@[i]
                } else {
                    0u8
                },
        ));
    }
    out
}

// ------------------------------------------------------------------- scans --

/// Takes note of one value that a scan found, under the key that it names.
pub fn note_scanned(scanned: &mut Vec<Vec<u64>>, k: &[u8], v: &[u8])
    requires
        old(scanned)@.len() <= u64::MAX,
    ensures
        states(final(scanned)@) == match scanned_as(old(scanned)@.len() as u64, k@, v@) {
            Some((key, seq)) => states(old(scanned)@).update(
                key as int,
                states(old(scanned)@)[key as int].push(seq),
            ),
            None => states(old(scanned)@),
        },
{
    let ghost before = scanned@;
    match check_scanned(scanned.len() as u64, k, v) {
        Some((key, seq)) => {
            assert(key < scanned@.len() && scanned@.len() == scanned.len());
            scanned[key as usize].push(seq);
            proof {
                assert(states(scanned@) =~= states(before).update(
                    key as int,
                    states(before)[key as int].push(seq),
                ));
            }
        },
        None => {},
    }
}

// ------------------------------------------------------------------ counts --

/// What the trials under one policy came to.
pub struct C4Arm {
    /// The policy's name.
    pub name: &'static str,
    /// Trials in which the writer crashed.
    pub crashes: u64,
    /// Directories that would not open.
    pub open_failed: u64,
    /// Trials that lost an acknowledged batch.
    pub acked_lost: u64,
    /// Trials that matched no prefix.
    pub no_prefix: u64,
    /// Values that the stream did not write.
    pub invented: u64,
    /// Trials in which counting disagreed with reading.
    pub count_disagreed: u64,
    /// Trials in which scanning disagreed with reading.
    pub scan_disagreed: u64,
    /// The most acknowledged batches that were lost.
    pub worst_lost: u64,
    /// The first thing that went wrong.
    pub first: String,
}

/// The larger of two numbers.
pub open spec fn larger(a: u64, b: int) -> int {
    if a >= b {
        a as int
    } else {
        b
    }
}

impl C4Arm {
    /// An arm with nothing counted.
    pub fn new(name: &'static str) -> (a: C4Arm)
        ensures
            a.name == name,
            a.crashes == 0 && a.open_failed == 0 && a.acked_lost == 0 && a.no_prefix == 0,
            a.invented == 0 && a.count_disagreed == 0 && a.scan_disagreed == 0,
            a.worst_lost == 0,
            a.first@ == ""@,
    {
        C4Arm {
            name,
            crashes: 0,
            open_failed: 0,
            acked_lost: 0,
            no_prefix: 0,
            invented: 0,
            count_disagreed: 0,
            scan_disagreed: 0,
            worst_lost: 0,
            first: "".to_owned(),
        }
    }

    /// The counts, without the message.
    pub open spec fn counts(self) -> Seq<u64> {
        seq![
            self.crashes,
            self.open_failed,
            self.acked_lost,
            self.no_prefix,
            self.invented,
            self.count_disagreed,
            self.scan_disagreed,
            self.worst_lost,
        ]
    }

    /// Keeps a message if none was kept before.
    pub fn note(&mut self, msg: String)
        ensures
            final(self).first@ == if old(self).first@ == ""@ {
                msg@
            } else {
                old(self).first@
            },
            final(self).counts() == old(self).counts(),
            final(self).name == old(self).name,
    {
        if same_text(self.first.as_str(), "") {
            self.first = msg;
        }
    }

    /// Whether every count can still be raised by one.
    pub open spec fn has_room(self) -> bool {
        &&& self.crashes < u64::MAX
        &&& self.open_failed < u64::MAX
        &&& self.acked_lost < u64::MAX
        &&& self.no_prefix < u64::MAX
        &&& self.count_disagreed < u64::MAX
        &&& self.scan_disagreed < u64::MAX
    }

    /// Counts a crash, and whether the directory opened after it.
    pub fn note_crash(&mut self, opened: bool)
        requires
            old(self).has_room(),
        ensures
            final(self).counts() == old(self).counts().update(
                0,
                (old(self).crashes + 1) as u64,
            ).update(
                1,
                (old(self).open_failed + if opened {
                    0int
                } else {
                    1
                }) as u64,
            ),
            final(self).first == old(self).first,
            final(self).name == old(self).name,
    {
        self.crashes = self.crashes + 1;
        if !opened {
            self.open_failed = self.open_failed + 1;
        }
    }

    /// Counts what reading back showed.
    pub fn note_reads(&mut self, invented: u64, count_bad: bool, scan_bad: bool)
        requires
            old(self).has_room(),
            old(self).invented + invented <= u64::MAX,
        ensures
            final(self).counts() == old(self).counts().update(
                4,
                (old(self).invented + invented) as u64,
            ).update(
                5,
                (old(self).count_disagreed + if count_bad {
                    1int
                } else {
                    0
                }) as u64,
            ).update(
                6,
                (old(self).scan_disagreed + if scan_bad {
                    1int
                } else {
                    0
                }) as u64,
            ),
            final(self).first == old(self).first,
            final(self).name == old(self).name,
    {
        self.invented = self.invented + invented;
        if count_bad {
            self.count_disagreed = self.count_disagreed + 1;
        }
        if scan_bad {
            self.scan_disagreed = self.scan_disagreed + 1;
        }
    }

    /// Counts what a recovered state came to, of `acked` acknowledged batches.
    pub fn note_outcome(&mut self, o: Outcome, acked: u64)
        requires
            old(self).has_room(),
            o matches Outcome::Lost { best } ==> best <= acked,
        ensures
            final(self).first == old(self).first,
            final(self).name == old(self).name,
            match o {
                Outcome::NoPrefix => final(self).counts() == old(self).counts().update(
                    3,
                    (old(self).no_prefix + 1) as u64,
                ),
                Outcome::Past { .. } => final(self).counts() == old(self).counts().update(
                    3,
                    (old(self).no_prefix + 1) as u64,
                ),
                Outcome::Lost { best } => final(self).counts() == old(self).counts().update(
                    2,
                    (old(self).acked_lost + 1) as u64,
                ).update(7, larger(old(self).worst_lost, acked - best) as u64),
                Outcome::Within { best } => final(self).counts() == old(self).counts().update(
                    7,
                    larger(old(self).worst_lost, acked - best) as u64,
                ),
            },
    {
        match o {
            Outcome::NoPrefix => {
                self.no_prefix = self.no_prefix + 1;
            },
            Outcome::Past { .. } => {
                self.no_prefix = self.no_prefix + 1;
            },
            Outcome::Lost { best } => {
                self.acked_lost = self.acked_lost + 1;
                if acked - best > self.worst_lost {
                    self.worst_lost = acked - best;
                }
            },
            Outcome::Within { best } => {
                if best < acked && acked - best > self.worst_lost {
                    self.worst_lost = acked - best;
                }
            },
        }
    }
}

/// A state that has lost acknowledged batches has no more than those.
pub proof fn lemma_lost_is_fewer(matches: Seq<u64>, arm: SyncArm, acked: u64)
    requires
        outcome_of(matches, arm, acked) is Lost,
    ensures
        outcome_of(matches, arm, acked)->Lost_best < fewest(arm, acked),
        outcome_of(matches, arm, acked)->Lost_best <= acked,
{
}

/// What the trials reached.
#[derive(Clone, Copy, PartialEq, Eq, Structural, Debug)]
pub struct Coverage {
    /// Crashes with a seal in flight.
    pub seal_in_flight: u64,
    /// Crashes with a merge in flight.
    pub merge_in_flight: u64,
    /// Crashes with partitions on disk.
    pub with_partitions: u64,
    /// Crashes after a commit and before its acknowledgement.
    pub late: u64,
    /// Trials with log files that are used again.
    pub recycled: u64,
    /// Trials in which the tail was torn.
    pub torn: u64,
    /// Trials in which the header was torn.
    pub torn_headers: u64,
    /// Tears that landed on what was there before.
    pub torn_into_stale: u64,
    /// The most bytes that a tear took.
    pub max_torn: u64,
    /// Writers that failed instead of crashing.
    pub child_errors: u64,
}

/// One for what holds, zero for what does not.
pub open spec fn unit(b: bool) -> int {
    if b {
        1
    } else {
        0
    }
}

impl Coverage {
    /// Whether every count can still be raised by one.
    pub open spec fn has_room(self) -> bool {
        &&& self.seal_in_flight < u64::MAX
        &&& self.merge_in_flight < u64::MAX
        &&& self.with_partitions < u64::MAX
        &&& self.late < u64::MAX
        &&& self.recycled < u64::MAX
        &&& self.torn < u64::MAX
        &&& self.torn_headers < u64::MAX
        &&& self.torn_into_stale < u64::MAX
    }

    /// Nothing reached yet.
    pub fn new() -> (c: Coverage)
        ensures
            c == (Coverage {
                seal_in_flight: 0,
                merge_in_flight: 0,
                with_partitions: 0,
                late: 0,
                recycled: 0,
                torn: 0,
                torn_headers: 0,
                torn_into_stale: 0,
                max_torn: 0,
                child_errors: 0,
            }),
    {
        Coverage {
            seal_in_flight: 0,
            merge_in_flight: 0,
            with_partitions: 0,
            late: 0,
            recycled: 0,
            torn: 0,
            torn_headers: 0,
            torn_into_stale: 0,
            max_torn: 0,
            child_errors: 0,
        }
    }

    /// Counts a writer that failed instead of crashing.
    pub fn note_failure(&mut self)
        requires
            old(self).child_errors < u64::MAX,
        ensures
            *final(self) == (Coverage {
                child_errors: (old(self).child_errors + 1) as u64,
                ..*old(self)
            }),
    {
        self.child_errors = self.child_errors + 1;
    }

    /// Counts what was going on when a writer died.
    pub fn note_death(&mut self, seal: bool, merge: bool, parts: u64, late: bool, recycle: bool)
        requires
            old(self).has_room(),
        ensures
            final(self).seal_in_flight == old(self).seal_in_flight + unit(seal),
            final(self).merge_in_flight == old(self).merge_in_flight + unit(merge),
            final(self).with_partitions == old(self).with_partitions + unit(parts > 0),
            final(self).late == old(self).late + unit(late),
            final(self).recycled == old(self).recycled + unit(recycle),
            final(self).torn == old(self).torn,
            final(self).torn_headers == old(self).torn_headers,
            final(self).torn_into_stale == old(self).torn_into_stale,
            final(self).max_torn == old(self).max_torn,
            final(self).child_errors == old(self).child_errors,
    {
        if seal {
            self.seal_in_flight = self.seal_in_flight + 1;
        }
        if merge {
            self.merge_in_flight = self.merge_in_flight + 1;
        }
        if parts > 0 {
            self.with_partitions = self.with_partitions + 1;
        }
        if late {
            self.late = self.late + 1;
        }
        if recycle {
            self.recycled = self.recycled + 1;
        }
    }

    /// Counts a tear at `cut` of a tail that ends at `hi`.
    pub fn note_tear(&mut self, t: Tear, cut: u64, hi: u64)
        requires
            old(self).has_room(),
        ensures
            final(self).torn == old(self).torn + unit(t !is Whole && cut < hi),
            final(self).torn_headers == old(self).torn_headers + unit(
                t !is Whole && cut < hi && cut < LOG_HEADER,
            ),
            final(self).torn_into_stale == old(self).torn_into_stale + unit(
                t is Stale && cut < hi,
            ),
            final(self).max_torn == if t !is Whole && cut < hi {
                larger(old(self).max_torn, hi - cut)
            } else {
                old(self).max_torn as int
            },
            final(self).seal_in_flight == old(self).seal_in_flight,
            final(self).merge_in_flight == old(self).merge_in_flight,
            final(self).with_partitions == old(self).with_partitions,
            final(self).late == old(self).late,
            final(self).recycled == old(self).recycled,
            final(self).child_errors == old(self).child_errors,
    {
        let whole: bool = matches!(t, Tear::Whole);
        if whole || cut >= hi {
            return;
        }
        self.torn = self.torn + 1;
        if cut < LOG_HEADER {
            self.torn_headers = self.torn_headers + 1;
        }
        if matches!(t, Tear::Stale { .. }) {
            self.torn_into_stale = self.torn_into_stale + 1;
        }
        if hi - cut > self.max_torn {
            self.max_torn = hi - cut;
        }
    }
}

// ---------------------------------------------------------------- verdicts --

/// What the trials say of the engine.
#[derive(Clone, Copy, PartialEq, Eq, Structural, Debug)]
pub struct CrashVerdicts {
    /// The engine opens after a crash at any point.
    pub opens: Verdict,
    /// Every acknowledged commit survives where every one is synchronised.
    pub acked_survives: Verdict,
    /// What survives is an exact prefix, and counting and scanning agree.
    pub exact_prefix: Verdict,
    /// Recovery invents nothing.
    pub invents_nothing: Verdict,
    /// At most seven acknowledged commits are lost where one in eight is
    /// synchronised.
    pub bounded_loss: Verdict,
}

/// What the trials say of the engine. That it opens is tested only where both a
/// seal and a merge were in flight; that the loss is bounded only where a tail
/// was torn.
pub fn crash_verdicts(always: &C4Arm, every: &C4Arm, c: &Coverage) -> (v: CrashVerdicts)
    ensures
        v.opens == verdict_of(
            c.seal_in_flight > 0 && c.merge_in_flight > 0,
            always.open_failed == 0 && every.open_failed == 0 && c.child_errors == 0,
        ),
        v.acked_survives == verdict_of(
            always.crashes > 0,
            always.acked_lost == 0 && always.open_failed == 0,
        ),
        v.exact_prefix == verdict_of(
            true,
            always.no_prefix == 0 && every.no_prefix == 0 && always.count_disagreed == 0
                && every.count_disagreed == 0 && always.scan_disagreed == 0
                && every.scan_disagreed == 0,
        ),
        v.invents_nothing == verdict_of(true, always.invented == 0 && every.invented == 0),
        v.bounded_loss == verdict_of(
            every.crashes > 0 && c.torn > 0,
            every.acked_lost == 0 && every.no_prefix == 0 && every.open_failed == 0,
        ),
{
    CrashVerdicts {
        opens: verdict(
            c.seal_in_flight > 0 && c.merge_in_flight > 0,
            always.open_failed == 0 && every.open_failed == 0 && c.child_errors == 0,
        ),
        acked_survives: verdict(
            always.crashes > 0,
            always.acked_lost == 0 && always.open_failed == 0,
        ),
        exact_prefix: verdict(
            true,
            always.no_prefix == 0 && every.no_prefix == 0 && always.count_disagreed == 0
                && every.count_disagreed == 0 && always.scan_disagreed == 0
                && every.scan_disagreed == 0,
        ),
        invents_nothing: verdict(true, always.invented == 0 && every.invented == 0),
        bounded_loss: verdict(
            every.crashes > 0 && c.torn > 0,
            every.acked_lost == 0 && every.no_prefix == 0 && every.open_failed == 0,
        ),
    }
}

/// What holds counts one and what does not counts nothing; the larger of two numbers is one
/// of them and not below the other.
pub proof fn lemma_counting(b: bool, m: u64, n: int)
    ensures
        unit(b) == 1 <==> b,
        unit(b) == 0 <==> !b,
        larger(m, n) >= m && larger(m, n) >= n,
        larger(m, n) == m || larger(m, n) == n,
{
}

} // verus!
