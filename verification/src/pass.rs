//! One pass of a phased workload: point reads, then scans, so many times over.

use crate::advice::{
    after_all, lemma_scan_starts_differ, scan_start, scan_stride, stride_of, Advice, Mode,
    ReaderEvent,
};
use vstd::prelude::*;

verus! {

/// What a pass is made of.
#[derive(Clone, Copy, PartialEq, Eq, Structural, Debug)]
pub struct PassPlan {
    /// The keys that are read and scanned.
    pub keys: u64,
    /// How often the phases follow one another.
    pub cycles: u64,
    /// The point reads of a phase.
    pub reads: u64,
    /// The scans of a phase.
    pub scans: u64,
}

/// One step of a pass.
#[derive(Clone, Copy, PartialEq, Eq, Structural, Debug)]
pub enum PassStep {
    /// A phase of point reads begins.
    ReadPhase,
    /// Read a key that is drawn.
    Read,
    /// A phase of scans begins.
    ScanPhase,
    /// Scan from the key of this number on.
    Scan(u64),
}

/// What a policy is told of a step.
pub open spec fn event_of(s: PassStep) -> ReaderEvent {
    match s {
        PassStep::ReadPhase => ReaderEvent::ReadPhase,
        PassStep::Read => ReaderEvent::Read,
        PassStep::ScanPhase => ReaderEvent::ScanPhase,
        PassStep::Scan(_) => ReaderEvent::Scan,
    }
}

/// What a policy is told of a step.
pub fn step_event(s: PassStep) -> (e: ReaderEvent)
    ensures
        e == event_of(s),
{
    match s {
        PassStep::ReadPhase => ReaderEvent::ReadPhase,
        PassStep::Read => ReaderEvent::Read,
        PassStep::ScanPhase => ReaderEvent::ScanPhase,
        PassStep::Scan(_) => ReaderEvent::Scan,
    }
}

impl PassPlan {
    /// The scans of the whole pass.
    pub open spec fn all_scans(self) -> int {
        self.cycles * self.scans
    }

    /// The steps of one cycle.
    pub open spec fn period(self) -> int {
        self.reads + self.scans + 2
    }

    /// The steps of the whole pass.
    pub open spec fn steps(self) -> int {
        self.cycles * self.period()
    }

    /// The numbers fit.
    pub open spec fn wf(self) -> bool {
        &&& self.keys > 0
        &&& self.all_scans() <= u64::MAX
        &&& self.period() <= u64::MAX
    }

    /// Step `p` of cycle `c`. The scans are spread over the whole pass, not over
    /// their phase.
    pub open spec fn step_in(self, c: int, p: int) -> PassStep {
        if p == 0 {
            PassStep::ReadPhase
        } else if p <= self.reads {
            PassStep::Read
        } else if p == self.reads + 1 {
            PassStep::ScanPhase
        } else {
            let i = c * self.scans + (p - self.reads - 2);
            PassStep::Scan(
                ((i * stride_of(self.keys as int, self.all_scans())) % (self.keys as int)) as u64,
            )
        }
    }

    /// Step `k` of the pass.
    pub open spec fn step_at(self, k: int) -> PassStep {
        self.step_in(k / self.period(), k % self.period())
    }
}

/// A pass, as far as it has come.
#[derive(Clone, Copy, PartialEq, Eq, Structural, Debug)]
pub struct Pass {
    pub plan: PassPlan,
    /// How far apart the scans start.
    pub stride: u64,
    /// The cycle at hand.
    pub cycle: u64,
    /// The next step in it.
    pub at: u64,
    /// The next scan.
    pub scan: u64,
}

impl Pass {
    /// The counters say the same.
    pub open spec fn wf(self) -> bool {
        &&& self.plan.wf()
        &&& self.stride == stride_of(self.plan.keys as int, self.plan.all_scans())
        &&& self.cycle <= self.plan.cycles
        &&& 0 <= self.at < self.plan.period()
        &&& self.cycle == self.plan.cycles ==> self.at == 0
        &&& self.scan == self.cycle * self.plan.scans + if self.at <= self.plan.reads + 2 {
            0
        } else {
            self.at - self.plan.reads - 2
        }
    }

    /// How many steps were taken.
    pub open spec fn taken(self) -> int {
        self.cycle * self.plan.period() + self.at
    }

    /// A pass before its first step.
    pub fn new(plan: PassPlan) -> (p: Pass)
        requires
            plan.wf(),
        ensures
            p.wf(),
            p.plan == plan,
            p.taken() == 0,
    {
        let stride: u64 = scan_stride(plan.keys, plan.cycles * plan.scans);
        proof {
            assert(0 * plan.period() == 0 && 0 * plan.scans == 0);
        }
        Pass { plan, stride, cycle: 0, at: 0, scan: 0 }
    }

    /// The next step, or nothing when all are done.
    pub fn next(&mut self) -> (s: Option<PassStep>)
        requires
            old(self).wf(),
        ensures
            final(self).wf(),
            final(self).plan == old(self).plan,
            match s {
                Some(step) => {
                    &&& old(self).taken() < old(self).plan.steps()
                    &&& step == old(self).plan.step_at(old(self).taken())
                    &&& final(self).taken() == old(self).taken() + 1
                },
                None => {
                    &&& old(self).taken() == old(self).plan.steps()
                    &&& *final(self) == *old(self)
                },
            },
    {
        if self.cycle == self.plan.cycles {
            return None;
        }
        let ghost before = *self;
        let ghost period = self.plan.period();
        let p: u64 = self.at;
        let reads: u64 = self.plan.reads;
        proof {
            lemma_step(self.cycle as int, p as int, period, self.plan.cycles as int);
        }
        let step: PassStep = if p == 0 {
            PassStep::ReadPhase
        } else if p <= reads {
            PassStep::Read
        } else if p - reads == 1 {
            PassStep::ScanPhase
        } else {
            proof {
                let total = self.plan.all_scans();
                lemma_scan_in(
                    self.cycle as int,
                    p - reads - 2,
                    self.plan.scans as int,
                    self.plan.cycles as int,
                );
                lemma_start_fits(self.plan.keys as int, total, self.scan as int);
            }
            let k: u64 = scan_start(self.scan, self.stride, self.plan.keys);
            self.scan = self.scan + 1;
            PassStep::Scan(k)
        };
        if p + 1 == reads + self.plan.scans + 2 {
            proof {
                assert((before.cycle + 1) * period == before.cycle * period + period
                    && (before.cycle + 1) * self.plan.scans == before.cycle * self.plan.scans
                    + self.plan.scans) by (nonlinear_arith);
            }
            self.at = 0;
            self.cycle = self.cycle + 1;
        } else {
            self.at = p + 1;
        }
        Some(step)
    }
}

proof fn lemma_step(c: int, p: int, period: int, cycles: int)
    requires
        0 <= c < cycles,
        0 <= p < period,
    ensures
        (c * period + p) / period == c,
        (c * period + p) % period == p,
        c * period + p < cycles * period,
{
    vstd::arithmetic::div_mod::lemma_fundamental_div_mod_converse(c * period + p, period, c, p);
    assert(c * period + period <= cycles * period) by (nonlinear_arith)
        requires
            c + 1 <= cycles,
            period > 0,
    ;
}

proof fn lemma_scan_in(c: int, s: int, scans: int, cycles: int)
    requires
        0 <= c < cycles,
        0 <= s < scans,
    ensures
        0 <= c * scans + s < cycles * scans,
{
    assert(0 <= c * scans && c * scans + scans <= cycles * scans) by (nonlinear_arith)
        requires
            0 <= c,
            c + 1 <= cycles,
            scans > 0,
    ;
}

proof fn lemma_start_fits(keys: int, total: int, i: int)
    requires
        0 < keys <= u64::MAX,
        0 <= i < total <= u64::MAX,
    ensures
        0 <= i * stride_of(keys, total) <= u64::MAX,
{
    let s = stride_of(keys, total);
    vstd::arithmetic::div_mod::lemma_fundamental_div_mod(keys, total);
    vstd::arithmetic::div_mod::lemma_mod_bound(keys, total);
    if keys / total > 0 {
        assert(0 <= i * s <= keys) by (nonlinear_arith)
            requires
                0 <= i < total,
                s > 0,
                total * s <= keys,
        ;
    } else {
        assert(i * 1 == i);
    }
}

/// No two scans of a pass start at the same key, if there are as many keys as
/// scans: whichever cycles they are in.
pub proof fn lemma_pass_scans_differ(plan: PassPlan, j: int, k: int)
    requires
        plan.wf(),
        plan.all_scans() <= plan.keys,
        0 <= j < k < plan.steps(),
        plan.step_at(j) is Scan,
        plan.step_at(k) is Scan,
    ensures
        plan.step_at(j) != plan.step_at(k),
{
    let period = plan.period();
    let (c, p) = (j / period, j % period);
    let (d, q) = (k / period, k % period);
    vstd::arithmetic::div_mod::lemma_fundamental_div_mod(j, period);
    vstd::arithmetic::div_mod::lemma_fundamental_div_mod(k, period);
    vstd::arithmetic::div_mod::lemma_mod_bound(j, period);
    vstd::arithmetic::div_mod::lemma_mod_bound(k, period);
    vstd::arithmetic::div_mod::lemma_div_pos_is_pos(j, period);
    let s = p - plan.reads - 2;
    let t = q - plan.reads - 2;
    let scans = plan.scans as int;
    let cycles = plan.cycles as int;
    assert(c <= d < cycles) by (nonlinear_arith)
        requires
            j == period * c + p,
            k == period * d + q,
            0 <= p < period,
            0 <= q < period,
            j < k,
            k < cycles * period,
    ;
    if c == d {
        assert(p < q);
    } else {
        assert(c * scans + s < d * scans + t) by (nonlinear_arith)
            requires
                c + 1 <= d,
                0 <= s < scans,
                0 <= t < scans,
        ;
    }
    lemma_scan_in(c, s, scans, cycles);
    lemma_scan_in(d, t, scans, cycles);
    lemma_scan_starts_differ(plan.keys as int, plan.all_scans(), c * scans + s, d * scans + t);
    vstd::arithmetic::div_mod::lemma_mod_bound(
        (c * scans + s) * stride_of(plan.keys as int, plan.all_scans()),
        plan.keys as int,
    );
    vstd::arithmetic::div_mod::lemma_mod_bound(
        (d * scans + t) * stride_of(plan.keys as int, plan.all_scans()),
        plan.keys as int,
    );
}

/// How a cycle goes: the phase of reads is told of, then the reads come, the phase of
/// scans is told of, and the scans come.
pub proof fn lemma_cycle_goes(plan: PassPlan, c: int, p: int)
    requires
        plan.wf(),
        0 <= c < plan.cycles,
        0 <= p < plan.reads + plan.scans + 2,
    ensures
        ({
            let s = plan.step_at(c * (plan.reads + plan.scans + 2) + p);
            &&& s is ReadPhase <==> p == 0
            &&& s is Read <==> 1 <= p <= plan.reads
            &&& s is ScanPhase <==> p == plan.reads + 1
            &&& s is Scan <==> p > plan.reads + 1
        }),
        plan.steps() == plan.cycles * (plan.reads + plan.scans + 2),
{
    let period = plan.period();
    vstd::arithmetic::div_mod::lemma_fundamental_div_mod_converse(c * period + p, period, c, p);
}

/// Where scans start: the first at the first key, and each one as many keys behind
/// the one before as make all scans of the pass spread over the keys, at least one,
/// round the end.
pub proof fn lemma_scans_are_spread(plan: PassPlan, c: int, i: int)
    requires
        plan.wf(),
        0 <= c < plan.cycles,
        0 <= i < plan.scans,
    ensures
        ({
            let stride = if plan.keys as int / (plan.cycles * plan.scans) > 0 {
                plan.keys as int / (plan.cycles * plan.scans)
            } else {
                1
            };
            plan.step_in(c, plan.reads + 2 + i) == PassStep::Scan(
                (((c * plan.scans + i) * stride) % (plan.keys as int)) as u64,
            )
        }),
{
    assert(plan.cycles * plan.scans > 0) by (nonlinear_arith)
        requires
            plan.cycles > 0,
            plan.scans > 0,
    ;
}

/// What a policy is told over the first `n` steps of a pass.
pub open spec fn events(plan: PassPlan, n: nat) -> Seq<ReaderEvent> {
    Seq::new(n, |k: int| event_of(plan.step_at(k)))
}

/// A pass without scans leaves the adaptive policy where it started: readahead
/// stays off, and the kernel is told nothing.
pub proof fn lemma_pass_without_scans(plan: PassPlan, k: usize, n: nat)
    requires
        plan.wf(),
        plan.scans == 0,
        n <= plan.steps(),
    ensures
        ({
            let start = Mode {
                advice: Advice::Adaptive(k),
                random: true,
                scans: 0,
                switches: 0,
            };
            after_all(start, events(plan, n)) == start
        }),
    decreases n,
{
    let start = Mode {
        advice: Advice::Adaptive(k),
        random: true,
        scans: 0,
        switches: 0,
    };
    let es = events(plan, n);
    if n > 0 {
        lemma_pass_without_scans(plan, k, (n - 1) as nat);
        assert(es.drop_last() =~= events(plan, (n - 1) as nat));
        vstd::arithmetic::div_mod::lemma_mod_bound(n - 1, plan.period());
        assert(!(plan.step_at(n - 1) is Scan));
    }
}

/// The adaptive policy `p` steps into cycle `c` of a pass whose phases have point
/// reads: a read has ended readahead, and it is back since scan `k` of the phase.
pub open spec fn adaptive_at(plan: PassPlan, k: usize, c: int, p: int) -> Mode {
    let least = if k == 0 {
        1
    } else {
        k as int
    };
    let back = plan.scans >= least;
    if p <= 1 {
        Mode {
            advice: Advice::Adaptive(k),
            random: c == 0 || !back,
            scans: if c == 0 {
                0
            } else {
                plan.scans
            },
            switches: if back && c > 0 {
                (2 * c - 1) as u64
            } else {
                0
            },
        }
    } else {
        let s = if p <= plan.reads + 2 {
            0
        } else {
            p - plan.reads - 2
        };
        Mode {
            advice: Advice::Adaptive(k),
            random: s < least,
            scans: s as u64,
            switches: ((if back {
                2 * c
            } else {
                0
            }) + if s >= least {
                1int
            } else {
                0
            }) as u64,
        }
    }
}

/// Where the adaptive policy is after every step of a pass.
pub proof fn lemma_adaptive_pass(plan: PassPlan, k: usize, n: nat)
    requires
        plan.wf(),
        plan.reads > 0,
        2 * plan.cycles <= u64::MAX,
        n <= plan.steps(),
    ensures
        after_all(
            Mode { advice: Advice::Adaptive(k), random: true, scans: 0, switches: 0 },
            events(plan, n),
        ) == adaptive_at(plan, k, n as int / plan.period(), n as int % plan.period()),
    decreases n,
{
    let period = plan.period();
    if n == 0 {
        vstd::arithmetic::div_mod::lemma_small_mod(0, period as nat);
        vstd::arithmetic::div_mod::lemma_basic_div(0, period);
    } else {
        lemma_adaptive_pass(plan, k, (n - 1) as nat);
        let es = events(plan, n);
        assert(es.drop_last() =~= events(plan, (n - 1) as nat));
        let m = n - 1;
        let (c, p) = (m / period, m % period);
        vstd::arithmetic::div_mod::lemma_fundamental_div_mod(m, period);
        vstd::arithmetic::div_mod::lemma_mod_bound(m, period);
        vstd::arithmetic::div_mod::lemma_div_pos_is_pos(m, period);
        assert(period * c == c * period) by (nonlinear_arith);
        assert(c < plan.cycles) by (nonlinear_arith)
            requires
                c * period + p < plan.cycles * period,
                0 <= p < period,
        ;
        if p + 1 < period {
            vstd::arithmetic::div_mod::lemma_fundamental_div_mod_converse(
                n as int,
                period,
                c,
                p + 1,
            );
        } else {
            assert((c + 1) * period == c * period + period) by (nonlinear_arith);
            vstd::arithmetic::div_mod::lemma_fundamental_div_mod_converse(
                n as int,
                period,
                c + 1,
                0,
            );
        }
        assert(es.last() == event_of(plan.step_in(c, p)));
    }
}

/// How often the adaptive policy switches over a whole pass: twice a cycle but
/// for the first switch, where a phase has as many scans as the threshold asks
/// for, and else never.
pub proof fn lemma_pass_switches(plan: PassPlan, k: usize)
    requires
        plan.wf(),
        plan.reads > 0,
        2 * plan.cycles <= u64::MAX,
    ensures
        ({
            let end = after_all(
                Mode { advice: Advice::Adaptive(k), random: true, scans: 0, switches: 0 },
                events(plan, plan.steps() as nat),
            );
            end.switches == if plan.cycles > 0 && plan.scans > 0 && plan.scans >= k {
                2 * plan.cycles - 1
            } else {
                0
            }
        }),
{
    let period = plan.period();
    assert(plan.steps() >= 0) by (nonlinear_arith)
        requires
            plan.steps() == plan.cycles * period,
            period > 0,
    ;
    lemma_adaptive_pass(plan, k, plan.steps() as nat);
    vstd::arithmetic::div_mod::lemma_fundamental_div_mod_converse(
        plan.steps(),
        period,
        plan.cycles as int,
        0,
    );
}

/// The steps that were taken say how far a pass is: further on in a cycle, or in a later
/// cycle, is more of them, one for each step.
pub proof fn lemma_taken_tells_how_far(a: Pass, b: Pass)
    requires
        a.wf(),
        b.wf(),
        a.plan == b.plan,
    ensures
        a.cycle == 0 && a.at == 0 ==> a.taken() == 0,
        a.cycle == b.cycle ==> b.taken() - a.taken() == b.at - a.at,
        a.cycle < b.cycle ==> a.taken() < b.taken(),
        a.cycle + 1 == b.cycle && a.at == b.at ==> b.taken() - a.taken() == a.plan.reads
            + a.plan.scans + 2,
{
    let p = a.plan.period();
    let (c, d) = (a.cycle as int, b.cycle as int);
    assert(0 * p == 0);
    assert(c < d ==> c * p + p <= d * p) by (nonlinear_arith)
        requires
            p > 0,
    ;
    assert((c + 1) * p == c * p + p) by (nonlinear_arith);
}

} // verus!
