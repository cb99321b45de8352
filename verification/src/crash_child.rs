//! The writer that is made to crash: what it does next, and what it tells of
//! itself before it dies.

use crate::bytes::{key_seqs, push_bytes, to_owned};
use crate::crash::batches_until;
use crate::crash_run::CrashMode;
use crate::digits::{decimal, padded};
use crate::text::{
    behind_prefix, lacks, lemma_decimal_reads_back, lemma_fixed_digits_value, lemma_lines_start,
    lemma_split_grows, lines, lines_of, number_of, parse_number, split_at_byte, split_bytes, strip,
    trim, trimmed, without_return,
};
use vstd::prelude::*;
use vstd::utf8::{encode_utf8, is_ascii_chars_encode_utf8};

verus! {

// -------------------------------------------------------------- the writer --

/// Where a writer is in its batch.
#[derive(Clone, Copy, PartialEq, Eq, Structural, Debug)]
pub enum Phase {
    /// It applies operations, each of which may be its last.
    Plain,
    /// Before a transaction it asks of operation `j` whether it would be the
    /// last.
    Asking { j: u64 },
    /// It stages operations in a transaction.
    Staging,
    /// The batch is committed.
    Committed,
    /// It is dead.
    Dead,
}

/// What a writer does next.
#[derive(Clone, Copy, PartialEq, Eq, Structural, Debug)]
pub enum ChildAction {
    /// Asks again.
    Ask,
    /// Applies an operation.
    Apply { i: u64 },
    /// Begins a transaction.
    Begin,
    /// Stages an operation.
    Stage { i: u64 },
    /// Commits the batch.
    Commit,
    /// Tells that batch `n` is committed.
    Ack { n: u64 },
    /// Dies before operation `op`, with `acked` batches acknowledged.
    Die { acked: u64, op: u64 },
}

/// A writer.
#[derive(Clone, Copy, PartialEq, Eq, Structural, Debug)]
pub struct Child {
    /// When it dies.
    pub mode: CrashMode,
    /// Whether it dies after a commit and before anyone is told.
    pub late: bool,
    /// The operation at, or about, which it dies.
    pub abort_after: u64,
    /// The operation at which it dies in any case.
    pub cap: u64,
    /// Operations to a batch.
    pub batch: u64,
    /// Batches acknowledged.
    pub acked: u64,
    /// The next operation.
    pub i: u64,
    /// Where it is in its batch.
    pub phase: Phase,
}

/// Whether a transaction carries the batch: every fifth one.
pub open spec fn in_transaction(acked: u64) -> bool {
    acked % 5 == 4
}

impl Child {
    /// The first operation of the batch.
    pub open spec fn start(self) -> int {
        1 + self.acked * self.batch
    }

    /// The first operation of the next batch.
    pub open spec fn end(self) -> int {
        self.start() + self.batch
    }

    /// Whether the crash is due before operation `i`.
    pub open spec fn is_due(self, i: int, seal: bool, merge: bool) -> bool {
        i >= self.cap || match self.mode {
            CrashMode::Seal => i >= self.abort_after / 2 && seal,
            CrashMode::Merge => i >= self.abort_after / 2 && merge,
            CrashMode::Fixed | CrashMode::Other => i == self.abort_after && !self.late,
        }
    }

    /// Operations come one after the other, and none at or past the cap.
    pub open spec fn wf(self) -> bool {
        &&& self.batch > 0
        &&& self.cap + self.batch < u64::MAX
        &&& self.start() <= self.cap || self.acked == 0
        &&& match self.phase {
            Phase::Plain => self.start() <= self.i <= self.end() && (self.i <= self.cap || self.i
                == self.start()),
            Phase::Asking { j } => self.i == self.start() && self.start() <= j <= self.end() && (j
                <= self.cap || j == self.start()),
            Phase::Staging => self.start() <= self.i <= self.end() <= self.cap,
            Phase::Committed => self.i == self.end() && self.end() <= self.cap,
            Phase::Dead => true,
        }
    }

    /// A writer before its first batch.
    pub fn new(mode: CrashMode, late: bool, abort_after: u64, cap: u64, batch: u64) -> (c: Child)
        requires
            batch > 0,
            cap + batch < u64::MAX,
        ensures
            c == (Child { mode, late, abort_after, cap, batch, acked: 0, i: 1, phase: Phase::Plain }),
            c.wf(),
    {
        proof {
            assert(0 * batch == 0) by (nonlinear_arith);
        }
        Child { mode, late, abort_after, cap, batch, acked: 0, i: 1, phase: Phase::Plain }
    }

    /// What a writer does next and where that leaves it, given whether a seal
    /// and a merge are in flight.
    pub open spec fn step(self, seal: bool, merge: bool) -> (ChildAction, Child) {
        let die = |op: int|
            (
                ChildAction::Die { acked: self.acked, op: op as u64 },
                Child { phase: Phase::Dead, ..self },
            );
        match self.phase {
            Phase::Plain => if self.i == self.end() {
                (ChildAction::Commit, Child { phase: Phase::Committed, ..self })
            } else if self.is_due(self.i as int, seal, merge) {
                die(self.i as int)
            } else {
                (
                    ChildAction::Apply { i: self.i },
                    Child { i: (self.i + 1) as u64, ..self },
                )
            },
            Phase::Asking { j } => if j == self.end() {
                (ChildAction::Begin, Child { phase: Phase::Staging, ..self })
            } else if self.is_due(j as int, seal, merge) {
                die(self.i as int)
            } else {
                (
                    ChildAction::Ask,
                    Child { phase: Phase::Asking { j: (j + 1) as u64 }, ..self },
                )
            },
            Phase::Staging => if self.i == self.end() {
                (ChildAction::Commit, Child { phase: Phase::Committed, ..self })
            } else {
                (
                    ChildAction::Stage { i: self.i },
                    Child { i: (self.i + 1) as u64, ..self },
                )
            },
            Phase::Committed => if self.late && self.mode == CrashMode::Fixed && self.abort_after
                < self.end() {
                die(self.end())
            } else {
                let n = (self.acked + 1) as u64;
                (
                    ChildAction::Ack { n },
                    Child {
                        acked: n,
                        phase: if in_transaction(n) {
                            Phase::Asking { j: self.i }
                        } else {
                            Phase::Plain
                        },
                        ..self
                    },
                )
            },
            Phase::Dead => (ChildAction::Die { acked: self.acked, op: self.i }, self),
        }
    }

    /// Whether the crash is due before operation `i`.
    fn due(&self, i: u64, seal: bool, merge: bool) -> (r: bool)
        ensures
            r == self.is_due(i as int, seal, merge),
    {
        i >= self.cap || match self.mode {
            CrashMode::Seal => i >= self.abort_after / 2 && seal,
            CrashMode::Merge => i >= self.abort_after / 2 && merge,
            CrashMode::Fixed | CrashMode::Other => i == self.abort_after && !self.late,
        }
    }

    /// What the writer does next, given whether a seal and a merge are in
    /// flight. Every operation that it applies or stages is below the cap.
    pub fn next(&mut self, seal: bool, merge: bool) -> (a: ChildAction)
        requires
            old(self).wf(),
        ensures
            (a, *final(self)) == old(self).step(seal, merge),
            final(self).wf(),
            a matches ChildAction::Apply { i } ==> 1 <= i < old(self).cap,
            a matches ChildAction::Stage { i } ==> 1 <= i < old(self).cap,
            a matches ChildAction::Ack { n } ==> final(self).i == 1 + n * old(self).batch,
    {
        proof {
            lemma_next_batch(*self);
        }
        let end: u64 = match self.phase {
            Phase::Dead => 0,
            _ => 1 + self.acked * self.batch + self.batch,
        };
        match self.phase {
            Phase::Plain => {
                if self.i == end {
                    self.phase = Phase::Committed;
                    ChildAction::Commit
                } else if self.due(self.i, seal, merge) {
                    self.phase = Phase::Dead;
                    ChildAction::Die { acked: self.acked, op: self.i }
                } else {
                    let i: u64 = self.i;
                    self.i = i + 1;
                    ChildAction::Apply { i }
                }
            },
            Phase::Asking { j } => {
                if j == end {
                    self.phase = Phase::Staging;
                    ChildAction::Begin
                } else if self.due(j, seal, merge) {
                    self.phase = Phase::Dead;
                    ChildAction::Die { acked: self.acked, op: self.i }
                } else {
                    self.phase = Phase::Asking { j: j + 1 };
                    ChildAction::Ask
                }
            },
            Phase::Staging => {
                if self.i == end {
                    self.phase = Phase::Committed;
                    ChildAction::Commit
                } else {
                    let i: u64 = self.i;
                    self.i = i + 1;
                    ChildAction::Stage { i }
                }
            },
            Phase::Committed => {
                if self.late && self.mode == CrashMode::Fixed && self.abort_after < end {
                    self.phase = Phase::Dead;
                    ChildAction::Die { acked: self.acked, op: end }
                } else {
                    self.acked = self.acked + 1;
                    self.phase = if self.acked % 5 == 4 {
                        Phase::Asking { j: self.i }
                    } else {
                        Phase::Plain
                    };
                    ChildAction::Ack { n: self.acked }
                }
            },
            Phase::Dead => ChildAction::Die { acked: self.acked, op: self.i },
        }
    }
}

/// The arithmetic of batches.
proof fn lemma_next_batch(c: Child)
    requires
        c.wf(),
    ensures
        c.acked * c.batch >= 0,
        c.acked == 0 ==> c.acked * c.batch == 0,
        c.phase !is Dead ==> c.end() <= u64::MAX,
        c.phase is Committed ==> c.acked < u64::MAX,
        (c.acked + 1) * c.batch == c.acked * c.batch + c.batch,
{
    assert((c.acked + 1) * c.batch == c.acked * c.batch + c.batch) by (nonlinear_arith);
    assert(c.acked * c.batch >= c.acked) by (nonlinear_arith)
        requires
            c.batch > 0,
    ;
    if c.acked == 0 {
        assert(c.acked * c.batch == 0) by (nonlinear_arith)
            requires
                c.acked == 0,
        ;
    }
}

/// When a writer dies before an operation. Until half of what it waits for,
/// neither a seal nor a merge ends it. From there on a writer that waits for a
/// seal dies exactly when a seal is in flight, whatever the merge does, and one
/// that waits for a merge exactly when a merge is. A writer with a fixed end dies
/// at that operation and at no other, whatever is in flight, and not even there
/// if it is to die late. At the cap every writer dies.
pub proof fn lemma_dies_when_due(c: Child, seal: bool, merge: bool)
    requires
        c.wf(),
        c.phase is Plain,
        c.i < 1 + (c.acked + 1) * c.batch,
    ensures
        c.i >= c.cap ==> c.step(seal, merge).0 is Die,
        c.i < c.cap && c.mode is Merge && c.i < c.abort_after / 2 ==> c.step(
            seal,
            merge,
        ).0 is Apply,
        c.i < c.cap && c.mode is Merge && c.i >= c.abort_after / 2 ==> (c.step(
            seal,
            merge,
        ).0 is Die <==> merge),
        c.i < c.cap && c.mode is Seal && c.i < c.abort_after / 2 ==> c.step(
            seal,
            merge,
        ).0 is Apply,
        c.i < c.cap && c.mode is Seal && c.i >= c.abort_after / 2 ==> (c.step(
            seal,
            merge,
        ).0 is Die <==> seal),
        c.i < c.cap && (c.mode is Fixed || c.mode is Other) ==> (c.step(seal, merge).0 is Die
            <==> c.i == c.abort_after && !c.late),
        c.step(seal, merge).0 == (ChildAction::Die { acked: c.acked, op: c.i }) || c.step(
            seal,
            merge,
        ).0 == (ChildAction::Apply { i: c.i }),
        c.step(seal, merge).1.phase is Dead <==> c.step(seal, merge).0 is Die,
{
    lemma_next_batch(c);
}

/// Of five batches in a row a transaction carries one: the fifth first, and then every
/// fifth from there on.
pub proof fn lemma_every_fifth_in_transaction(acked: u64, more: u64)
    requires
        acked + more <= u64::MAX,
        in_transaction(acked),
    ensures
        in_transaction((acked + more) as u64) <==> more % 5 == 0,
        in_transaction(4),
        acked >= 4,
{
}

/// Before a transaction the same is asked of each of its operations in turn, and
/// a writer that would die at any of them dies before the first: nothing of the
/// batch is staged.
pub proof fn lemma_asks_before_transaction(c: Child, j: u64, seal: bool, merge: bool)
    requires
        c.wf(),
        c.phase == (Phase::Asking { j }),
        j < 1 + (c.acked + 1) * c.batch,
    ensures
        c.step(seal, merge).0 is Die <==> (Child { phase: Phase::Plain, i: j, ..c }).step(
            seal,
            merge,
        ).0 is Die,
        c.step(seal, merge).0 is Die ==> c.step(seal, merge).0 == (ChildAction::Die {
            acked: c.acked,
            op: c.i,
        }) && c.step(seal, merge).1 == (Child { phase: Phase::Dead, ..c }),
        !(c.step(seal, merge).0 is Die) ==> c.step(seal, merge) == (
            ChildAction::Ask,
            Child { phase: Phase::Asking { j: (j + 1) as u64 }, ..c },
        ),
        c.i == 1 + c.acked * c.batch,
{
    lemma_next_batch(c);
}

/// How a writer goes through its batches. Operations are applied or staged one
/// after the other, and nothing else moves on. A batch is committed when the last
/// of its operations is in, and acknowledged next, in order; a transaction begins
/// when all of its operations were asked about; every fifth batch has one. Only a
/// late writer with a fixed end dies on a committed batch: the first one that is
/// past its end.
pub proof fn lemma_batch_goes_through(c: Child, seal: bool, merge: bool)
    requires
        c.wf(),
        c.phase !is Dead,
    ensures
        ({
            let (a, d) = c.step(seal, merge);
            let end = 1 + (c.acked + 1) * c.batch;
            &&& d.mode == c.mode && d.late == c.late && d.abort_after == c.abort_after
            &&& d.cap == c.cap && d.batch == c.batch
            &&& a matches ChildAction::Apply { i } ==> i == c.i && d.i == i + 1 && d.phase
                == c.phase && c.phase is Plain
            &&& a matches ChildAction::Stage { i } ==> i == c.i && d.i == i + 1 && d.phase
                == c.phase && c.phase is Staging
            &&& !(a is Apply || a is Stage) ==> d.i == c.i
            &&& a is Commit <==> (c.phase is Plain || c.phase is Staging) && c.i == end
            &&& a is Commit ==> d.phase is Committed && d.acked == c.acked
            &&& c.phase is Staging && c.i < end ==> a is Stage
            &&& a is Begin <==> c.phase == (Phase::Asking { j: end as u64 })
            &&& a is Begin ==> d.phase is Staging && d.acked == c.acked
            &&& a matches ChildAction::Ack { n } ==> {
                &&& c.phase is Committed
                &&& n == c.acked + 1 && d.acked == n
                &&& n % 5 == 4 ==> d.phase == (Phase::Asking { j: c.i })
                &&& n % 5 != 4 ==> d.phase is Plain
            }
            &&& c.phase is Committed ==> a is Ack || a is Die
            &&& c.phase is Committed ==> (a is Die <==> c.late && c.mode is Fixed
                && c.abort_after < end)
            &&& c.phase is Committed && a is Die ==> a == (ChildAction::Die {
                acked: c.acked,
                op: end as u64,
            })
            &&& !(a is Ack) ==> d.acked == c.acked
        }),
{
    lemma_next_batch(c);
}

/// Where a writer dies tells how many batches to try: all that were
/// acknowledged and the one in flight, so that the window in which a recovered
/// state may lie is tried whole, and never more operations than were drawn.
pub proof fn lemma_death_covers_window(c: Child, seal: bool, merge: bool)
    requires
        c.wf(),
        c.phase !is Dead,
        c.cap > 0,
        c.step(seal, merge).0 is Die,
    ensures
        c.step(seal, merge).0->Die_acked == c.acked,
        c.step(seal, merge).0->Die_op >= 1,
        batches_until(c.step(seal, merge).0->Die_op, c.batch) >= c.acked + 1,
        batches_until(c.step(seal, merge).0->Die_op, c.batch) * c.batch < c.cap + c.batch + 1,
{
    lemma_next_batch(c);
    let op = c.step(seal, merge).0->Die_op;
    let b = c.batch as int;
    let full = c.acked as int;
    let total = batches_until(op, c.batch) as int;
    if c.phase is Committed {
        assert(op - 1 == (full + 1) * b);
        vstd::arithmetic::div_mod::lemma_div_by_multiple(full + 1, b);
        assert(total == full + 2);
        assert(total * b == full * b + b + b) by (nonlinear_arith)
            requires
                total == full + 2,
        ;
    } else {
        let r = op - 1 - full * b;
        assert(0 <= r < b);
        assert(b * full == full * b) by (nonlinear_arith);
        vstd::arithmetic::div_mod::lemma_fundamental_div_mod_converse(op - 1, b, full, r);
        assert(total == full + 1);
        assert(total * b == full * b + b) by (nonlinear_arith)
            requires
                total == full + 1,
        ;
    }
}

// -------------------------------------------------------------- the report --

/// What a writer tells before it dies.
pub struct Death {
    /// Batches acknowledged.
    pub acked: u64,
    /// The operation that it died before.
    pub op: u64,
    /// Whether a seal was in flight.
    pub seal: bool,
    /// Whether a merge was in flight.
    pub compact: bool,
    /// Partitions.
    pub parts: u64,
    /// Files of the lowest level.
    pub l0: u64,
    /// The path of the log.
    pub wal: Vec<u8>,
    /// How far the log is synchronised.
    pub synced: u64,
    /// How far the log is written.
    pub written: u64,
}

/// A yes or no as a digit.
pub open spec fn flag_of(b: bool) -> u64 {
    if b {
        1
    } else {
        0
    }
}

/// The names in the line, in their order.
pub open spec fn field_name(i: int) -> Seq<char> {
    if i == 0 {
        "abort"@
    } else if i == 1 {
        "acked="@
    } else if i == 2 {
        "op="@
    } else if i == 3 {
        "seal="@
    } else if i == 4 {
        "compact="@
    } else if i == 5 {
        "parts="@
    } else if i == 6 {
        "l0="@
    } else if i == 7 {
        "wal="@
    } else if i == 8 {
        "synced="@
    } else {
        "written="@
    }
}

/// The values in the line, in their order.
pub open spec fn field_value(d: Death, i: int) -> Seq<u8> {
    if i == 0 {
        Seq::empty()
    } else if i == 1 {
        padded(d.acked as nat, 1)
    } else if i == 2 {
        padded(d.op as nat, 1)
    } else if i == 3 {
        padded(flag_of(d.seal) as nat, 1)
    } else if i == 4 {
        padded(flag_of(d.compact) as nat, 1)
    } else if i == 5 {
        padded(d.parts as nat, 1)
    } else if i == 6 {
        padded(d.l0 as nat, 1)
    } else if i == 7 {
        d.wal@
    } else if i == 8 {
        padded(d.synced as nat, 1)
    } else {
        padded(d.written as nat, 1)
    }
}

/// One name with its value.
pub open spec fn field_of(d: Death, i: int) -> Seq<u8> {
    encode_utf8(field_name(i)) + field_value(d, i)
}

/// The line up to field `n`: the fields with a blank between them.
pub open spec fn death_line(d: Death, n: nat) -> Seq<u8>
    decreases n,
{
    if n == 0 {
        field_of(d, 0)
    } else {
        death_line(d, (n - 1) as nat) + seq![32u8] + field_of(d, n as int)
    }
}

fn name_text(i: usize) -> (s: &'static str)
    requires
        i < 10,
    ensures
        s@ == field_name(i as int),
{
    if i == 0 {
        "abort"
    } else if i == 1 {
        "acked="
    } else if i == 2 {
        "op="
    } else if i == 3 {
        "seal="
    } else if i == 4 {
        "compact="
    } else if i == 5 {
        "parts="
    } else if i == 6 {
        "l0="
    } else if i == 7 {
        "wal="
    } else if i == 8 {
        "synced="
    } else {
        "written="
    }
}

fn value_text(d: &Death, i: usize) -> (v: Vec<u8>)
    requires
        i < 10,
    ensures
        v@ == field_value(*d, i as int),
{
    if i == 0 {
        Vec::new()
    } else if i == 1 {
        decimal(d.acked, 1)
    } else if i == 2 {
        decimal(d.op, 1)
    } else if i == 3 {
        decimal(if d.seal {
            1
        } else {
            0
        }, 1)
    } else if i == 4 {
        decimal(if d.compact {
            1
        } else {
            0
        }, 1)
    } else if i == 5 {
        decimal(d.parts, 1)
    } else if i == 6 {
        decimal(d.l0, 1)
    } else if i == 7 {
        to_owned(&d.wal)
    } else if i == 8 {
        decimal(d.synced, 1)
    } else {
        decimal(d.written, 1)
    }
}

/// The line that a writer leaves behind, without the line's end.
pub fn abort_line(d: &Death) -> (out: Vec<u8>)
    ensures
        out@ == death_line(*d, 9),
{
    let mut out: Vec<u8> = Vec::new();
    push_bytes(&mut out, name_text(0).as_bytes());
    push_bytes(&mut out, &value_text(d, 0));
    proof {
        assert(out@ =~= field_of(*d, 0));
    }
    let mut i: usize = 1;
    while i < 10
        invariant
            1 <= i <= 10,
            out@ == death_line(*d, (i - 1) as nat),
        decreases 10 - i,
    {
        let ghost before = out@;
        out.push(32);
        push_bytes(&mut out, name_text(i).as_bytes());
        push_bytes(&mut out, &value_text(d, i));
        proof {
            assert(out@ =~= before + seq![32u8] + field_of(*d, i as int));
        }
        i = i + 1;
    }
    out
}

/// The line that tells of a committed batch, without the line's end.
pub open spec fn ack_text(n: u64) -> Seq<u8> {
    encode_utf8("ack "@) + padded(n as nat, 1)
}

/// The line that tells of a committed batch, without the line's end.
pub fn ack_line(n: u64) -> (out: Vec<u8>)
    ensures
        out@ == ack_text(n),
{
    let mut out: Vec<u8> = Vec::new();
    push_bytes(&mut out, "ack ".as_bytes());
    push_bytes(&mut out, &decimal(n, 1));
    proof {
        assert(out@ =~= ack_text(n));
    }
    out
}

// ---------------------------------------------------------------- its read --

/// How many batches the lines tell of: the number in the last line that tells
/// of one and reads as a number.
pub open spec fn acked_in(lines: Seq<Seq<u8>>) -> u64
    decreases lines.len(),
{
    if lines.len() == 0 {
        0
    } else {
        let before = acked_in(lines.drop_last());
        match behind_prefix(lines.last(), encode_utf8("ack "@)) {
            Some(n) => match number_of(trimmed(n)) {
                Some(v) => v,
                None => before,
            },
            None => before,
        }
    }
}

/// Whether a line is that of a death.
pub open spec fn is_death_line(line: Seq<u8>) -> bool {
    behind_prefix(line, encode_utf8("ack "@)) is None && behind_prefix(
        line,
        encode_utf8("abort "@),
    ) is Some
}

/// The last line that tells of a death.
pub open spec fn abort_in(lines: Seq<Seq<u8>>) -> Option<Seq<u8>>
    decreases lines.len(),
{
    if lines.len() == 0 {
        None
    } else if is_death_line(lines.last()) {
        Some(lines.last())
    } else {
        abort_in(lines.drop_last())
    }
}

/// What follows a name in the first field that starts with it.
pub open spec fn find_field(pieces: Seq<Seq<u8>>, name: Seq<u8>) -> Seq<u8>
    decreases pieces.len(),
{
    if pieces.len() == 0 {
        Seq::empty()
    } else {
        match behind_prefix(pieces[0], name) {
            Some(v) => v,
            None => find_field(pieces.drop_first(), name),
        }
    }
}

/// The value of field `i` of a line.
pub open spec fn line_field(line: Seq<u8>, i: int) -> Seq<u8> {
    find_field(split_at_byte(line, 32), encode_utf8(field_name(i)))
}

/// The number in field `i` of a line, or zero.
pub open spec fn line_number(line: Seq<u8>, i: int) -> u64 {
    match number_of(line_field(line, i)) {
        Some(v) => v,
        None => 0,
    }
}

/// What a writer told: the batches that it acknowledged, and how it died.
pub struct Report {
    /// Batches acknowledged.
    pub acked: u64,
    /// How it died; `None` if it ended without dying.
    pub death: Option<Death>,
}

/// Whether a line tells of a death as `d` does. A line without an operation
/// counts as the first one's.
pub open spec fn tells(line: Seq<u8>, d: Death) -> bool {
    &&& d.acked == line_number(line, 1)
    &&& d.op == if line_number(line, 2) == 0 {
        1
    } else {
        line_number(line, 2)
    }
    &&& d.seal == (line_number(line, 3) == 1)
    &&& d.compact == (line_number(line, 4) == 1)
    &&& d.parts == line_number(line, 5)
    &&& d.l0 == line_number(line, 6)
    &&& d.wal@ == line_field(line, 7)
    &&& d.synced == line_number(line, 8)
    &&& d.written == line_number(line, 9)
}

fn get_field(pieces: &Vec<Vec<u8>>, name: &str) -> (v: Vec<u8>)
    ensures
        v@ == find_field(key_seqs(pieces@), encode_utf8(name@)),
{
    let mut i: usize = 0;
    proof {
        assert(key_seqs(pieces@).skip(0) =~= key_seqs(pieces@));
    }
    while i < pieces.len()
        invariant
            i <= pieces@.len(),
            find_field(key_seqs(pieces@), encode_utf8(name@)) == find_field(
                key_seqs(pieces@).skip(i as int),
                encode_utf8(name@),
            ),
        decreases pieces.len() - i,
    {
        let ghost rest = key_seqs(pieces@).skip(i as int);
        assert(rest[0] == pieces@[i as int]@);
        match strip(&pieces[i], name.as_bytes()) {
            Some(v) => {
                return to_owned(v);
            },
            None => {},
        }
        proof {
            assert(rest.drop_first() =~= key_seqs(pieces@).skip(i + 1));
        }
        i = i + 1;
    }
    Vec::new()
}

fn get_number(pieces: &Vec<Vec<u8>>, name: &str) -> (n: u64)
    ensures
        n == match number_of(find_field(key_seqs(pieces@), encode_utf8(name@))) {
            Some(v) => v,
            None => 0,
        },
{
    let v: Vec<u8> = get_field(pieces, name);
    match parse_number(&v) {
        Some(n) => n,
        None => 0,
    }
}

/// Reads the line of a death.
pub fn read_death(line: &[u8]) -> (d: Death)
    ensures
        tells(line@, d),
{
    let pieces: Vec<Vec<u8>> = split_bytes(line, 32);
    let op: u64 = get_number(&pieces, name_text(2));
    Death {
        acked: get_number(&pieces, name_text(1)),
        op: if op == 0 {
            1
        } else {
            op
        },
        seal: get_number(&pieces, name_text(3)) == 1,
        compact: get_number(&pieces, name_text(4)) == 1,
        parts: get_number(&pieces, name_text(5)),
        l0: get_number(&pieces, name_text(6)),
        wal: get_field(&pieces, name_text(7)),
        synced: get_number(&pieces, name_text(8)),
        written: get_number(&pieces, name_text(9)),
    }
}

/// Reads what a writer told.
pub fn read_report(output: &[u8]) -> (r: Report)
    ensures
        r.acked == acked_in(lines_of(output@)),
        r.death is Some <==> abort_in(lines_of(output@)) is Some,
        r.death matches Some(d) ==> tells(abort_in(lines_of(output@))->0, d),
{
    let all: Vec<Vec<u8>> = lines(output);
    let mut acked: u64 = 0;
    let mut found: Option<usize> = None;
    let ghost seqs = key_seqs(all@);
    let mut i: usize = 0;
    proof {
        assert(seqs.take(0) =~= Seq::<Seq<u8>>::empty());
    }
    while i < all.len()
        invariant
            i <= all@.len(),
            seqs == key_seqs(all@),
            acked == acked_in(seqs.take(i as int)),
            match found {
                Some(at) => at < i && abort_in(seqs.take(i as int)) == Some(seqs[at as int]),
                None => abort_in(seqs.take(i as int)) is None,
            },
        decreases all.len() - i,
    {
        proof {
            assert(seqs.take(i + 1).drop_last() =~= seqs.take(i as int));
            assert(seqs.take(i + 1).last() == all@[i as int]@);
        }
        match strip(&all[i], "ack ".as_bytes()) {
            Some(n) => {
                match parse_number(trim(n)) {
                    Some(v) => {
                        acked = v;
                    },
                    None => {},
                }
            },
            None => match strip(&all[i], "abort ".as_bytes()) {
                Some(_) => {
                    found = Some(i);
                },
                None => {},
            },
        }
        i = i + 1;
    }
    proof {
        assert(seqs.take(i as int) =~= seqs);
    }
    match found {
        Some(at) => Report { acked, death: Some(read_death(&all[at])) },
        None => Report { acked, death: None },
    }
}

// ------------------------------------------------------------------- laws --

/// What the first two bytes of each name are.
spec fn name_head(i: int) -> (u8, u8) {
    if i == 0 {
        (97, 98)
    } else if i == 1 {
        (97, 99)
    } else if i == 2 {
        (111, 112)
    } else if i == 3 {
        (115, 101)
    } else if i == 4 {
        (99, 111)
    } else if i == 5 {
        (112, 97)
    } else if i == 6 {
        (108, 48)
    } else if i == 7 {
        (119, 97)
    } else if i == 8 {
        (115, 121)
    } else {
        (119, 114)
    }
}

/// Names hold neither blanks nor line ends, and start with bytes of their own.
proof fn lemma_name(i: int)
    requires
        0 <= i < 10,
    ensures
        encode_utf8(field_name(i)).len() >= 2,
        encode_utf8(field_name(i))[0] == name_head(i).0,
        encode_utf8(field_name(i))[1] == name_head(i).1,
        lacks(encode_utf8(field_name(i)), 32),
        lacks(encode_utf8(field_name(i)), 10),
{
    reveal_strlit("abort");
    reveal_strlit("acked=");
    reveal_strlit("op=");
    reveal_strlit("seal=");
    reveal_strlit("compact=");
    reveal_strlit("parts=");
    reveal_strlit("l0=");
    reveal_strlit("wal=");
    reveal_strlit("synced=");
    reveal_strlit("written=");
    let c = field_name(i);
    is_ascii_chars_encode_utf8(c);
    let e = encode_utf8(c);
    assert forall|k: int| 0 <= k < e.len() implies #[trigger] e[k] != 32 && e[k] != 10 by {
        assert(c[k] as u8 == e[k]);
        assert(c[k] != ' ' && c[k] != '\n');
    }
    assert(c[0] as u8 == e[0]);
    assert(c[1] as u8 == e[1]);
}

/// Numbers hold neither blanks nor line ends.
proof fn lemma_number_text(n: u64)
    ensures
        padded(n as nat, 1).len() >= 1,
        forall|k: int|
            0 <= k < padded(n as nat, 1).len() ==> crate::text::is_digit(
                #[trigger] padded(n as nat, 1)[k],
            ),
{
    let w = crate::digits::decimal_width(n as nat);
    assert(w >= 1);
    lemma_fixed_digits_value(n as nat, w);
    assert(padded(n as nat, 1) == crate::digits::fixed_digits(n as nat, w, 10));
}

/// Fields hold no blanks, and no line ends, as far as the path does not.
proof fn lemma_field_lacks(d: Death, i: int, b: u8)
    requires
        0 <= i < 10,
        b == 32 || b == 10,
        lacks(d.wal@, b),
    ensures
        lacks(field_of(d, i), b),
{
    lemma_name(i);
    lemma_number_text(d.acked);
    lemma_number_text(d.op);
    lemma_number_text(flag_of(d.seal));
    lemma_number_text(flag_of(d.compact));
    lemma_number_text(d.parts);
    lemma_number_text(d.l0);
    lemma_number_text(d.synced);
    lemma_number_text(d.written);
    let n = encode_utf8(field_name(i));
    let v = field_value(d, i);
    assert(lacks(v, b));
    assert forall|k: int| 0 <= k < field_of(d, i).len() implies #[trigger] field_of(d, i)[k]
        != b by {
        if k < n.len() {
            assert(n[k] != b);
        } else {
            assert(v[k - n.len()] != b);
        }
    }
}

/// The line splits into its fields.
proof fn lemma_line_splits(d: Death, n: nat)
    requires
        n < 10,
        lacks(d.wal@, 32),
    ensures
        split_at_byte(death_line(d, n), 32) == Seq::new(n + 1, |i: int| field_of(d, i)),
    decreases n,
{
    lemma_field_lacks(d, n as int, 32);
    if n == 0 {
        let f = field_of(d, 0);
        crate::text::lemma_first_at(f, 32, f.len());
        assert(split_at_byte(f, 32) =~= Seq::new(1, |i: int| field_of(d, i)));
    } else {
        lemma_line_splits(d, (n - 1) as nat);
        lemma_split_grows(death_line(d, (n - 1) as nat), field_of(d, n as int), 32);
        assert(Seq::new(n, |i: int| field_of(d, i)).push(field_of(d, n as int)) =~= Seq::new(
            n + 1,
            |i: int| field_of(d, i),
        ));
    }
}

/// A name is found where it stands, if no field before starts with it.
proof fn lemma_found(pieces: Seq<Seq<u8>>, name: Seq<u8>, at: int, v: Seq<u8>)
    requires
        0 <= at < pieces.len(),
        forall|i: int| 0 <= i < at ==> behind_prefix(#[trigger] pieces[i], name) is None,
        behind_prefix(pieces[at], name) == Some(v),
    ensures
        find_field(pieces, name) == v,
    decreases at,
{
    if at > 0 {
        assert(behind_prefix(pieces[0], name) is None);
        let t = pieces.drop_first();
        assert forall|i: int| 0 <= i < at - 1 implies behind_prefix(
            #[trigger] t[i],
            name,
        ) is None by {
            assert(t[i] == pieces[i + 1]);
        }
        lemma_found(t, name, at - 1, v);
    }
}

/// The line gives back the value of each name.
proof fn lemma_line_field(d: Death, at: int)
    requires
        0 <= at < 10,
        lacks(d.wal@, 32),
    ensures
        line_field(death_line(d, 9), at) == field_value(d, at),
{
    lemma_line_splits(d, 9);
    let pieces = Seq::new(10, |i: int| field_of(d, i));
    let name = encode_utf8(field_name(at));
    lemma_name(at);
    assert forall|i: int| 0 <= i < at implies behind_prefix(#[trigger] pieces[i], name) is None by {
        lemma_name(i);
        let f = field_of(d, i);
        assert(f[0] == name_head(i).0 && f[1] == name_head(i).1);
        if name.len() <= f.len() {
            assert(f.take(name.len() as int)[0] == f[0]);
            assert(f.take(name.len() as int)[1] == f[1]);
        }
    }
    let f = field_of(d, at);
    assert(f.take(name.len() as int) =~= name);
    assert(f.skip(name.len() as int) =~= field_value(d, at));
    assert(pieces[at] == f);
    lemma_found(pieces, name, at, field_value(d, at));
}

/// A line that says no number somewhere tells of nought there: of no batch, of the first
/// operation, and of nothing in flight.
pub proof fn lemma_unsaid_is_nought(line: Seq<u8>, d: Death)
    requires
        tells(line, d),
    ensures
        number_of(line_field(line, 1)) is None ==> d.acked == 0,
        number_of(line_field(line, 2)) is None ==> d.op == 1,
        number_of(line_field(line, 3)) is None ==> !d.seal,
        number_of(line_field(line, 4)) is None ==> !d.compact,
        number_of(line_field(line, 5)) is None ==> d.parts == 0,
        number_of(line_field(line, 6)) is None ==> d.l0 == 0,
        number_of(line_field(line, 8)) is None ==> d.synced == 0,
        number_of(line_field(line, 9)) is None ==> d.written == 0,
        d.op > 0,
{
}

/// A death is told and read back as it was, as long as the log's path holds no
/// blank.
pub proof fn lemma_death_round_trip(d: Death)
    requires
        lacks(d.wal@, 32),
        d.op >= 1,
    ensures
        tells(death_line(d, 9), d),
{
    lemma_line_field(d, 1);
    lemma_line_field(d, 2);
    lemma_line_field(d, 3);
    lemma_line_field(d, 4);
    lemma_line_field(d, 5);
    lemma_line_field(d, 6);
    lemma_line_field(d, 7);
    lemma_line_field(d, 8);
    lemma_line_field(d, 9);
    lemma_decimal_reads_back(d.acked);
    lemma_decimal_reads_back(d.op);
    lemma_decimal_reads_back(flag_of(d.seal));
    lemma_decimal_reads_back(flag_of(d.compact));
    lemma_decimal_reads_back(d.parts);
    lemma_decimal_reads_back(d.l0);
    lemma_decimal_reads_back(d.synced);
    lemma_decimal_reads_back(d.written);
}

/// All that a writer tells: batches from `i` to `n`, then its death.
pub open spec fn transcript(i: nat, n: nat, d: Death) -> Seq<u8>
    decreases n + 1 - i,
{
    if i > n {
        death_line(d, 9) + seq![10u8]
    } else {
        ack_text(i as u64) + seq![10u8] + transcript(i + 1, n, d)
    }
}

/// The lines of batches `i` to `n`.
spec fn ack_lines(i: nat, n: nat) -> Seq<Seq<u8>> {
    Seq::new((n + 1 - i) as nat, |k: int| ack_text((i + k) as u64))
}

/// What a line that tells of a batch is made of.
proof fn lemma_ack_text(n: u64)
    ensures
        lacks(ack_text(n), 10),
        without_return(ack_text(n)) == ack_text(n),
        behind_prefix(ack_text(n), encode_utf8("ack "@)) == Some(padded(n as nat, 1)),
        trimmed(padded(n as nat, 1)) == padded(n as nat, 1),
        behind_prefix(ack_text(n), encode_utf8("abort "@)) is None,
{
    reveal_strlit("ack ");
    reveal_strlit("abort ");
    is_ascii_chars_encode_utf8("ack "@);
    is_ascii_chars_encode_utf8("abort "@);
    lemma_number_text(n);
    let a = encode_utf8("ack "@);
    let p = padded(n as nat, 1);
    let t = ack_text(n);
    assert("ack "@[0] as u8 == a[0] && "ack "@[1] as u8 == a[1] && "ack "@[2] as u8 == a[2]
        && "ack "@[3] as u8 == a[3]);
    assert("abort "@[1] as u8 == encode_utf8("abort "@)[1]);
    assert forall|k: int| 0 <= k < t.len() implies #[trigger] t[k] != 10 by {
        if k >= 4 {
            assert(t[k] == p[k - 4]);
        }
    }
    assert(t.last() == p.last());
    assert(t.take(4) =~= a);
    assert(t.skip(4) =~= p);
    assert(t[1] == 99);
    let b = encode_utf8("abort "@);
    if b.len() <= t.len() {
        assert(t.take(b.len() as int)[1] == t[1]);
    }
}

/// The line of a death is a line, and not that of a batch.
proof fn lemma_death_line(d: Death)
    requires
        lacks(d.wal@, 10),
    ensures
        lacks(death_line(d, 9), 10),
        without_return(death_line(d, 9)) == death_line(d, 9),
        is_death_line(death_line(d, 9)),
{
    lemma_line_lacks(d, 9);
    let l = death_line(d, 9);
    lemma_number_text(d.written);
    let w = padded(d.written as nat, 1);
    assert(l.last() == w.last());
    lemma_line_starts(d, 9);
    reveal_strlit("ack ");
    reveal_strlit("abort ");
    reveal_strlit("abort");
    is_ascii_chars_encode_utf8("ack "@);
    is_ascii_chars_encode_utf8("abort "@);
    is_ascii_chars_encode_utf8("abort"@);
    let a = encode_utf8("ack "@);
    assert("ack "@[1] as u8 == a[1]);
    let name = encode_utf8("abort"@);
    assert("abort"@[1] as u8 == name[1]);
    assert(l[1] == name[1]);
    if a.len() <= l.len() {
        assert(l.take(a.len() as int)[1] == l[1]);
    }
    let b = encode_utf8("abort "@);
    assert forall|k: int| 0 <= k < 6 implies l.take(6)[k] == b[k] by {
        assert("abort "@[k] as u8 == b[k]);
        if k < 5 {
            assert("abort"@[k] as u8 == name[k]);
            assert("abort"@[k] == "abort "@[k]);
            assert(l[k] == name[k]);
        }
    }
    assert(l.take(6) =~= b);
}

/// The line holds no line end.
proof fn lemma_line_lacks(d: Death, n: nat)
    requires
        n < 10,
        lacks(d.wal@, 10),
    ensures
        lacks(death_line(d, n), 10),
    decreases n,
{
    lemma_field_lacks(d, n as int, 10);
    if n > 0 {
        lemma_line_lacks(d, (n - 1) as nat);
        let a = death_line(d, (n - 1) as nat);
        let f = field_of(d, n as int);
        let l = death_line(d, n);
        assert forall|k: int| 0 <= k < l.len() implies #[trigger] l[k] != 10 by {
            if k < a.len() {
                assert(l[k] == a[k]);
            } else if k > a.len() {
                assert(l[k] == f[k - a.len() - 1]);
            }
        }
    }
}

/// The line starts with its first name and a blank.
proof fn lemma_line_starts(d: Death, n: nat)
    requires
        1 <= n < 10,
    ensures
        death_line(d, n).len() >= 6,
        forall|k: int| 0 <= k < 5 ==> death_line(d, n)[k] == encode_utf8("abort"@)[k],
        death_line(d, n)[5] == 32,
    decreases n,
{
    reveal_strlit("abort");
    is_ascii_chars_encode_utf8("abort"@);
    if n == 1 {
        assert(death_line(d, 0) == field_of(d, 0));
        assert(field_of(d, 0) =~= encode_utf8("abort"@));
    } else {
        lemma_line_starts(d, (n - 1) as nat);
    }
}

#[verifier::spinoff_prover]
#[verifier::rlimit(40)]
proof fn lemma_transcript_lines(i: nat, n: nat, d: Death)
    requires
        lacks(d.wal@, 10),
        i <= n + 1,
    ensures
        lines_of(transcript(i, n, d)) == ack_lines(i, n).push(death_line(d, 9)),
    decreases n + 1 - i,
{
    if i > n {
        lemma_death_line(d);
        let l = death_line(d, 9);
        assert(l + seq![10u8] =~= l + seq![10u8] + Seq::<u8>::empty());
        lemma_lines_start(l, Seq::empty());
        assert(seq![l] + lines_of(Seq::empty()) =~= ack_lines(i, n).push(l));
    } else {
        lemma_ack_text(i as u64);
        lemma_lines_start(ack_text(i as u64), transcript(i + 1, n, d));
        lemma_transcript_lines(i + 1, n, d);
        assert(seq![ack_text(i as u64)] + ack_lines(i + 1, n).push(death_line(d, 9)) =~= ack_lines(
            i,
            n,
        ).push(death_line(d, 9)));
    }
}

proof fn lemma_acks_count(n: nat)
    requires
        n <= u64::MAX,
    ensures
        acked_in(ack_lines(1, n)) == n,
        abort_in(ack_lines(1, n)) is None,
    decreases n,
{
    if n == 0 {
        assert(ack_lines(1, n) =~= Seq::<Seq<u8>>::empty());
    } else {
        lemma_acks_count((n - 1) as nat);
        lemma_ack_text(n as u64);
        lemma_decimal_reads_back(n as u64);
        assert(ack_lines(1, n).drop_last() =~= ack_lines(1, (n - 1) as nat));
        assert(ack_lines(1, n).last() == ack_text(n as u64));
    }
}

/// Whoever reads all that a writer told learns how many batches it
/// acknowledged, and how it died, as long as the log's path holds neither a
/// blank nor a line end.
pub proof fn lemma_report_round_trip(n: u64, d: Death)
    requires
        lacks(d.wal@, 32),
        lacks(d.wal@, 10),
        d.op >= 1,
    ensures
        acked_in(lines_of(transcript(1, n as nat, d))) == n,
        abort_in(lines_of(transcript(1, n as nat, d))) is Some,
        tells(abort_in(lines_of(transcript(1, n as nat, d)))->0, d),
{
    lemma_transcript_lines(1, n as nat, d);
    lemma_acks_count(n as nat);
    lemma_death_line(d);
    lemma_death_round_trip(d);
    let all = ack_lines(1, n as nat).push(death_line(d, 9));
    assert(all.drop_last() =~= ack_lines(1, n as nat));
    assert(all.last() == death_line(d, 9));
}

} // verus!
