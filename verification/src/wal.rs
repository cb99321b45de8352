//! The bytes of a log: framed records and the frame that closes a batch; and
//! records with their keys inline, one behind the other.

use crate::bytes::{le_bytes, le_value, lemma_le32, push_bytes, push_le32, push_le64, read_le32};
use crate::kvbench::{db_key, db_key_of};
use vstd::prelude::*;

verus! {

/// What closes a batch takes this many bytes.
pub const COMMIT_FRAME: usize = 17;

/// A framed record: the length of its body, room for a checksum, its number,
/// its kind, the length of its key, the key and the value.
pub open spec fn record_frame(seq: u64, key: Seq<u8>, value: Seq<u8>) -> Seq<u8> {
    le_bytes((10 + key.len() + value.len()) as nat, 4) + le_bytes(0, 4) + le_bytes(seq as nat, 8)
        + seq![0u8, key.len() as u8] + key + value
}

/// The frame that closes a batch, so that a replay applies it whole or not at
/// all.
pub open spec fn commit_frame(seq: u64) -> Seq<u8> {
    le_bytes(9, 4) + le_bytes(0, 4) + le_bytes(seq as nat, 8) + seq![2u8]
}

/// Appends a framed record.
pub fn push_record(buf: &mut Vec<u8>, seq: u64, key: &[u8], value: &[u8])
    requires
        key@.len() <= 255,
        10 + key@.len() + value@.len() <= u32::MAX,
    ensures
        final(buf)@ == old(buf)@ + record_frame(seq, key@, value@),
{
    let ghost start = buf@;
    let mut f: Vec<u8> = Vec::new();
    push_le32(&mut f, (10 + key.len() + value.len()) as u32);
    proof {
        assert(f@ =~= le_bytes((10 + key@.len() + value@.len()) as nat, 4));
    }
    push_le32(&mut f, 0);
    push_le64(&mut f, seq);
    let ghost head = f@;
    f.push(0);
    f.push(key.len() as u8);
    proof {
        assert(f@ =~= head + seq![0u8, key@.len() as u8]);
    }
    push_bytes(&mut f, key);
    push_bytes(&mut f, value);
    push_bytes(buf, &f);
}

/// Appends the frame that closes a batch.
pub fn push_commit(buf: &mut Vec<u8>, seq: u64)
    ensures
        final(buf)@ == old(buf)@ + commit_frame(seq),
{
    let mut f: Vec<u8> = Vec::new();
    push_le32(&mut f, 9);
    proof {
        assert(f@ =~= le_bytes(9, 4));
    }
    push_le32(&mut f, 0);
    push_le64(&mut f, seq);
    let ghost head = f@;
    f.push(2);
    proof {
        assert(f@ =~= head + seq![2u8]);
    }
    push_bytes(buf, &f);
}

/// Every frame tells where the next one starts: eight bytes and its body's
/// length behind its own start. The closing frame is seventeen bytes.
pub proof fn lemma_frames_tell_length(seq: u64, key: Seq<u8>, value: Seq<u8>)
    requires
        key.len() <= 255,
        10 + key.len() + value.len() <= u32::MAX,
    ensures
        record_frame(seq, key, value).len() == 8 + le_value(record_frame(seq, key, value).take(4)),
        commit_frame(seq).len() == 8 + le_value(commit_frame(seq).take(4)),
        commit_frame(seq).len() == COMMIT_FRAME,
{
    let n = (10 + key.len() + value.len()) as u32;
    lemma_le32(n);
    lemma_le32(0);
    lemma_le32(9);
    crate::bytes::lemma_le64(seq);
    assert(record_frame(seq, key, value).take(4) =~= le_bytes(n as nat, 4));
    assert(commit_frame(seq).take(4) =~= le_bytes(9, 4));
}

/// What a frame holds and where: its length behind the eight bytes of its head, the sum,
/// which is nought, its number, its kind, and a record's key behind the key's length, and
/// value.
pub proof fn lemma_frame_parts(seq: u64, key: Seq<u8>, value: Seq<u8>)
    requires
        key.len() <= 255,
        10 + key.len() + value.len() <= u32::MAX,
    ensures
        ({
            let r = record_frame(seq, key, value);
            &&& r.len() == 18 + key.len() + value.len()
            &&& le_value(r.subrange(0, 4)) == 10 + key.len() + value.len()
            &&& le_value(r.subrange(4, 8)) == 0
            &&& le_value(r.subrange(8, 16)) == seq
            &&& r[16] == 0
            &&& r[17] == key.len()
            &&& r.subrange(18, 18 + key.len() as int) == key
            &&& r.subrange(18 + key.len() as int, r.len() as int) == value
        }),
        ({
            let c = commit_frame(seq);
            &&& c.len() == 17
            &&& le_value(c.subrange(0, 4)) == 9
            &&& le_value(c.subrange(4, 8)) == 0
            &&& le_value(c.subrange(8, 16)) == seq
            &&& c[16] == 2
        }),
{
    let n = (10 + key.len() + value.len()) as u32;
    lemma_le32(n);
    lemma_le32(0);
    lemma_le32(9);
    crate::bytes::lemma_le64(seq);
    lemma_frame_len(seq, key, value);
    let r = record_frame(seq, key, value);
    let c = commit_frame(seq);
    assert(r.subrange(0, 4) =~= le_bytes(n as nat, 4));
    assert(r.subrange(4, 8) =~= le_bytes(0, 4));
    assert(r.subrange(8, 16) =~= le_bytes(seq as nat, 8));
    assert(r.subrange(18, 18 + key.len() as int) =~= key);
    assert(r.subrange(18 + key.len() as int, r.len() as int) =~= value);
    assert(c.subrange(0, 4) =~= le_bytes(9, 4));
    assert(c.subrange(4, 8) =~= le_bytes(0, 4));
    assert(c.subrange(8, 16) =~= le_bytes(seq as nat, 8));
}

/// A log that is written batch by batch, from key zero on, as far as it has
/// come.
pub struct RawLog {
    /// The keys of one batch.
    pub batch: u64,
    /// Whether a frame closes every batch.
    pub close: bool,
    /// The records that were given.
    pub done: u64,
    /// The number of the next frame.
    pub seq: u64,
    /// The frames of the batch that is not full yet.
    pub pending: Vec<u8>,
}

/// A log by what it holds.
pub struct RawView {
    /// The records that were given.
    pub done: int,
    /// The number of the next frame.
    pub seq: int,
    /// The frames of the batch that is not full yet.
    pub pending: Seq<u8>,
}

/// What closes a batch: a frame, or nothing.
pub open spec fn closing(seq: int, close: bool) -> Seq<u8> {
    if close {
        commit_frame(seq as u64)
    } else {
        Seq::empty()
    }
}

/// A log with one more record, and what is then written of it: a batch that is
/// full, whole.
pub open spec fn raw_step(v: RawView, value: Seq<u8>, batch: int, close: bool) -> (
    RawView,
    Seq<u8>,
) {
    let frames = v.pending + record_frame(v.seq as u64, db_key_of(v.done as u64), value);
    if (v.done + 1) % batch == 0 {
        (
            RawView {
                done: v.done + 1,
                seq: v.seq + 1 + if close {
                    1int
                } else {
                    0
                },
                pending: Seq::empty(),
            },
            frames + closing(v.seq + 1, close),
        )
    } else {
        (RawView { done: v.done + 1, seq: v.seq + 1, pending: frames }, Seq::empty())
    }
}

impl View for RawLog {
    type V = RawView;

    open spec fn view(&self) -> RawView {
        RawView { done: self.done as int, seq: self.seq as int, pending: self.pending@ }
    }
}

impl RawLog {
    /// A log with nothing in it.
    pub fn new(batch: u64, close: bool) -> (l: RawLog)
        ensures
            l@ == (RawView { done: 0, seq: 0, pending: Seq::empty() }),
            l.batch == batch,
            l.close == close,
    {
        RawLog { batch, close, done: 0, seq: 0, pending: Vec::new() }
    }

    /// Takes the value of the next key, and gives back what is to be written:
    /// the whole batch, where this was its last record.
    pub fn push(&mut self, value: &[u8]) -> (w: Option<Vec<u8>>)
        requires
            old(self).batch > 0,
            old(self).done < u64::MAX,
            old(self).seq < u64::MAX - 1,
            value@.len() + 26 <= u32::MAX,
        ensures
            final(self).batch == old(self).batch,
            final(self).close == old(self).close,
            final(self)@ == raw_step(
                old(self)@,
                value@,
                old(self).batch as int,
                old(self).close,
            ).0,
            w is Some <==> (old(self).done + 1) % (old(self).batch as int) == 0,
            w matches Some(bytes) ==> bytes@ == raw_step(
                old(self)@,
                value@,
                old(self).batch as int,
                old(self).close,
            ).1,
    {
        proof {
            crate::digits::lemma_digits_len(self.done as nat, 16, 10);
        }
        let k: Vec<u8> = db_key(self.done);
        push_record(&mut self.pending, self.seq, &k, value);
        self.seq = self.seq + 1;
        self.done = self.done + 1;
        if self.done % self.batch != 0 {
            return None;
        }
        let mut out: Vec<u8> = Vec::new();
        push_bytes(&mut out, &self.pending);
        proof {
            assert(out@ =~= self.pending@);
        }
        if self.close {
            push_commit(&mut out, self.seq);
            self.seq = self.seq + 1;
        } else {
            proof {
                assert(out@ + Seq::<u8>::empty() =~= out@);
            }
        }
        self.pending = Vec::new();
        proof {
            assert(self.pending@ =~= Seq::empty());
        }
        Some(out)
    }
}

/// The log after the first `n` values, and all that was written by then.
pub open spec fn raw_after(values: Seq<Seq<u8>>, batch: int, close: bool, n: nat) -> (
    RawView,
    Seq<u8>,
)
    decreases n,
{
    if n == 0 {
        (RawView { done: 0, seq: 0, pending: Seq::empty() }, Seq::empty())
    } else {
        let (v, file) = raw_after(values, batch, close, (n - 1) as nat);
        let (next, more) = raw_step(v, values[n - 1], batch, close);
        (next, file + more)
    }
}

/// Closing every batch costs seventeen bytes for each that is full, and nothing
/// else: a batch that is not full is written in neither log.
pub proof fn lemma_closing_costs(values: Seq<Seq<u8>>, batch: int, n: nat)
    requires
        batch > 0,
        n <= values.len(),
        n <= u64::MAX,
    ensures
        raw_after(values, batch, true, n).1.len() - raw_after(values, batch, false, n).1.len()
            == COMMIT_FRAME * (n as int / batch),
        raw_after(values, batch, true, n).0.pending.len() == raw_after(
            values,
            batch,
            false,
            n,
        ).0.pending.len(),
        n as int % batch == 0 ==> raw_after(values, batch, true, n).0.pending.len() == 0,
        raw_after(values, batch, true, n).0.done == n,
        raw_after(values, batch, false, n).0.done == n,
    decreases n,
{
    if n == 0 {
        vstd::arithmetic::div_mod::lemma_small_mod(0, batch as nat);
        vstd::arithmetic::div_mod::lemma_basic_div(0, batch);
    } else {
        lemma_closing_costs(values, batch, (n - 1) as nat);
        let a = raw_after(values, batch, true, (n - 1) as nat).0;
        let b = raw_after(values, batch, false, (n - 1) as nat).0;
        let key = db_key_of((n - 1) as u64);
        lemma_frame_len(a.seq as u64, key, values[n - 1]);
        lemma_frame_len(b.seq as u64, key, values[n - 1]);
        lemma_frame_len((a.seq + 1) as u64, key, values[n - 1]);
        lemma_next_div(n - 1, batch);
    }
}

/// A number takes as many bytes as asked for.
proof fn lemma_le_len(x: nat, w: nat)
    ensures
        le_bytes(x, w).len() == w,
    decreases w,
{
    reveal_with_fuel(le_bytes, 2);
    if w > 0 {
        lemma_le_len(x / 256, (w - 1) as nat);
    }
}

/// How long frames are.
proof fn lemma_frame_len(seq: u64, key: Seq<u8>, value: Seq<u8>)
    ensures
        record_frame(seq, key, value).len() == 18 + key.len() + value.len(),
        commit_frame(seq).len() == COMMIT_FRAME,
{
    lemma_le_len((10 + key.len() + value.len()) as nat, 4);
    lemma_le_len(0, 4);
    lemma_le_len(9, 4);
    lemma_le_len(seq as nat, 8);
}

/// What the first `n` records and the frames that close their batches are in a row, every
/// frame with its number.
pub open spec fn frames_in_a_row(values: Seq<Seq<u8>>, batch: int, close: bool, n: nat) -> Seq<u8>
    decreases n,
{
    if n == 0 {
        Seq::empty()
    } else {
        let i = n - 1;
        let number = if close {
            i + i / batch
        } else {
            i
        };
        let record = frames_in_a_row(values, batch, close, i as nat) + record_frame(
            number as u64,
            db_key_of(i as u64),
            values[i],
        );
        if close && n as int % batch == 0 {
            record + commit_frame((number + 1) as u64)
        } else {
            record
        }
    }
}

/// A log holds the records in order, under the keys from nought on, with a closing frame
/// behind every batch where that is asked for, and the frames are numbered one after the
/// other. What is not in the file yet is the batch that is not full.
pub proof fn lemma_log_is_frames_in_a_row(
    values: Seq<Seq<u8>>,
    batch: int,
    close: bool,
    n: nat,
)
    requires
        batch > 0,
        n <= values.len(),
    ensures
        ({
            let (v, file) = raw_after(values, batch, close, n);
            &&& file + v.pending == frames_in_a_row(values, batch, close, n)
            &&& n as int % batch == 0 ==> v.pending.len() == 0
            &&& v.done == n
            &&& v.seq == if close {
                n + n as int / batch
            } else {
                n as int
            }
        }),
    decreases n,
{
    if n > 0 {
        let i = (n - 1) as nat;
        lemma_log_is_frames_in_a_row(values, batch, close, i);
        lemma_next_div(i as int, batch);
        let (v, file) = raw_after(values, batch, close, i);
        let (next, more) = raw_step(v, values[i as int], batch, close);
        assert(file + more + next.pending =~= frames_in_a_row(values, batch, close, n));
    } else {
        vstd::arithmetic::div_mod::lemma_small_mod(0, batch as nat);
        vstd::arithmetic::div_mod::lemma_div_of0(batch);
        let (v, file) = raw_after(values, batch, close, n);
        assert(file + v.pending =~= Seq::<u8>::empty());
    }
}

/// The quotient grows where a multiple is reached.
proof fn lemma_next_div(k: int, n: int)
    requires
        0 <= k,
        n > 0,
    ensures
        (k + 1) / n == k / n + if (k + 1) % n == 0 {
            1int
        } else {
            0
        },
{
    vstd::arithmetic::div_mod::lemma_fundamental_div_mod(k, n);
    vstd::arithmetic::div_mod::lemma_mod_bound(k, n);
    let q = k / n;
    let r = k % n;
    assert(k == q * n + r) by (nonlinear_arith)
        requires
            k == n * q + r,
    ;
    if r + 1 < n {
        vstd::arithmetic::div_mod::lemma_fundamental_div_mod_converse(k + 1, n, q, r + 1);
    } else {
        assert((q + 1) * n == q * n + n) by (nonlinear_arith);
        vstd::arithmetic::div_mod::lemma_fundamental_div_mod_converse(k + 1, n, q + 1, 0);
    }
}

// ------------------------------------------------------------ inline keys --

/// A record with its key inline.
pub open spec fn inline_record(key: Seq<u8>, value: Seq<u8>) -> Seq<u8> {
    le_bytes(key.len(), 4) + key + le_bytes(value.len(), 4) + value
}

/// The first `n` records, under the keys from zero on.
pub open spec fn inline_records(values: Seq<Vec<u8>>, n: nat) -> Seq<u8>
    decreases n,
{
    if n == 0 {
        Seq::empty()
    } else {
        inline_records(values, (n - 1) as nat) + inline_record(
            db_key_of((n - 1) as u64),
            values[n - 1]@,
        )
    }
}

/// Where record `i` starts.
pub open spec fn inline_start(values: Seq<Vec<u8>>, i: int) -> int {
    inline_records(values, i as nat).len() as int
}

/// How long a record is.
proof fn lemma_inline_len(key: Seq<u8>, value: Seq<u8>)
    requires
        key.len() <= u32::MAX,
        value.len() <= u32::MAX,
    ensures
        inline_record(key, value).len() == 8 + key.len() + value.len(),
{
    lemma_le32(key.len() as u32);
    lemma_le32(value.len() as u32);
}

/// Records one behind the other, in key order, and where each of them starts.
pub fn inline_file(values: &Vec<Vec<u8>>) -> (r: (Vec<u8>, Vec<u64>))
    requires
        forall|i: int| 0 <= i < values@.len() ==> (#[trigger] values@[i])@.len() <= u32::MAX,
    ensures
        r.0@ == inline_records(values@, values@.len()),
        r.1@.len() == values@.len(),
        forall|i: int|
            0 <= i < values@.len() ==> #[trigger] r.1@[i] == inline_start(values@, i),
{
    let mut out: Vec<u8> = Vec::new();
    let mut offsets: Vec<u64> = Vec::new();
    let mut i: usize = 0;
    while i < values.len()
        invariant
            i <= values@.len(),
            forall|i: int| 0 <= i < values@.len() ==> (#[trigger] values@[i])@.len() <= u32::MAX,
            out@ == inline_records(values@, i as nat),
            offsets@.len() == i,
            forall|j: int| 0 <= j < i ==> #[trigger] offsets@[j] == inline_start(values@, j),
        decreases values.len() - i,
    {
        proof {
            crate::digits::lemma_digits_len(i as nat, 16, 10);
            assert(values@[i as int]@.len() <= u32::MAX);
            assert(out@.len() == out.len());
        }
        offsets.push(out.len() as u64);
        let k: Vec<u8> = db_key(i as u64);
        let mut one: Vec<u8> = Vec::new();
        push_le32(&mut one, k.len() as u32);
        proof {
            assert(one@ =~= le_bytes(k@.len(), 4));
        }
        push_bytes(&mut one, &k);
        push_le32(&mut one, values[i].len() as u32);
        push_bytes(&mut one, &values[i]);
        push_bytes(&mut out, &one);
        i = i + 1;
    }
    (out, offsets)
}

/// What a sweep came to.
#[derive(Clone, Copy, PartialEq, Eq, Structural, Debug)]
pub struct Swept {
    /// The records that it visited.
    pub visited: u64,
    /// The bytes of their keys and values.
    pub bytes: u64,
}

/// What a sweep of `n` records from `p` on comes to: it stops where no length
/// is left to read.
pub open spec fn sweep_of(file: Seq<u8>, p: int, n: nat) -> (int, int)
    decreases n,
{
    if n == 0 || p + 4 > file.len() {
        (0, 0)
    } else {
        let kl = le_value(file.subrange(p, p + 4)) as int;
        let vl = le_value(file.subrange(p + 4 + kl, p + 8 + kl)) as int;
        let rest = sweep_of(file, p + 8 + kl + vl, (n - 1) as nat);
        (rest.0 + 1, rest.1 + kl + vl)
    }
}

/// Whether every record that a sweep visits is whole.
pub open spec fn sweepable(file: Seq<u8>, p: int, n: nat) -> bool
    decreases n,
{
    n == 0 || p + 4 > file.len() || {
        let kl = le_value(file.subrange(p, p + 4)) as int;
        let vl = le_value(file.subrange(p + 4 + kl, p + 8 + kl)) as int;
        &&& p + 8 + kl <= file.len()
        &&& p + 8 + kl + vl <= file.len()
        &&& sweepable(file, p + 8 + kl + vl, (n - 1) as nat)
    }
}

/// Visits `n` records from `p` on, or as many as there are.
pub fn sweep(file: &[u8], start: usize, n: usize) -> (s: Swept)
    requires
        start <= file@.len(),
        sweepable(file@, start as int, n as nat),
        n < u64::MAX,
    ensures
        (s.visited as int, s.bytes as int) == sweep_of(file@, start as int, n as nat),
{
    let mut p: usize = start;
    let mut left: usize = n;
    let mut s: Swept = Swept { visited: 0, bytes: 0 };
    let len: usize = file.len();
    while left > 0 && len >= 4 && p <= len - 4
        invariant
            left <= n,
            n < u64::MAX,
            len == file@.len(),
            start <= p <= len,
            sweepable(file@, p as int, left as nat),
            s.visited == n - left,
            s.bytes <= p - start,
            ({
                let rest = sweep_of(file@, p as int, left as nat);
                (s.visited + rest.0, s.bytes + rest.1) == sweep_of(
                    file@,
                    start as int,
                    n as nat,
                )
            }),
        decreases left,
    {
        let kl: usize = read_le32(file, p) as usize;
        let vl: usize = read_le32(file, p + 4 + kl) as usize;
        s.visited = s.visited + 1;
        s.bytes = s.bytes + kl as u64 + vl as u64;
        p = p + 8 + kl + vl;
        left = left - 1;
    }
    s
}

/// The bytes of the keys and values of records `i` to `j`.
pub open spec fn payload_between(values: Seq<Vec<u8>>, i: int, j: int) -> int
    decreases j - i,
{
    if j <= i {
        0
    } else {
        16 + values[i]@.len() + payload_between(values, i + 1, j)
    }
}

/// The records before `n` start the file.
proof fn lemma_inline_front(values: Seq<Vec<u8>>, i: int, n: nat)
    requires
        0 <= i <= n,
    ensures
        inline_start(values, i) <= inline_records(values, n).len(),
        inline_records(values, n).take(inline_start(values, i)) == inline_records(
            values,
            i as nat,
        ),
    decreases n - i,
{
    if i < n {
        lemma_inline_front(values, i, (n - 1) as nat);
        let a = inline_records(values, (n - 1) as nat);
        let b = inline_records(values, n);
        assert(b.take(inline_start(values, i)) =~= a.take(inline_start(values, i)));
    } else {
        assert(inline_records(values, n).take(inline_start(values, i)) =~= inline_records(
            values,
            i as nat,
        ));
    }
}

/// A sweep from where record `i` starts visits the records from there on, as
/// many as asked for or as there are, and adds up their keys and values.
pub proof fn lemma_sweep_visits_records(values: Seq<Vec<u8>>, i: int, n: nat)
    requires
        0 <= i <= values.len(),
        values.len() <= u64::MAX,
        forall|k: int| 0 <= k < values.len() ==> (#[trigger] values[k])@.len() <= u32::MAX,
    ensures
        ({
            let file = inline_records(values, values.len());
            let end = if i + n <= values.len() {
                i + n
            } else {
                values.len() as int
            };
            &&& sweepable(file, inline_start(values, i), n)
            &&& sweep_of(file, inline_start(values, i), n) == (
                end - i,
                payload_between(values, i, end),
            )
        }),
    decreases n,
{
    let file = inline_records(values, values.len());
    let p = inline_start(values, i);
    lemma_inline_front(values, i, values.len());
    if i == values.len() {
        assert(p == file.len());
    } else if n > 0 {
        let key = db_key_of(i as u64);
        let value = values[i]@;
        let rec = inline_record(key, value);
        crate::digits::lemma_digits_len(i as nat, 16, 10);
        lemma_inline_len(key, value);
        lemma_inline_front(values, i + 1, values.len());
        let q = inline_start(values, i + 1);
        assert(q == p + rec.len());
        let front = inline_records(values, (i + 1) as nat);
        assert(front == inline_records(values, i as nat) + rec);
        assert(file.take(q) == front);
        lemma_le32(16);
        lemma_le32(value.len() as u32);
        assert forall|k: int| 0 <= k < rec.len() implies file[p + k] == rec[k] by {
            assert(file.take(q)[p + k] == file[p + k]);
            assert(front[p + k] == rec[k]);
        }
        assert(file.subrange(p, p + 4) =~= le_bytes(16, 4)) by {
            assert(rec.take(4) =~= le_bytes(16, 4));
            assert forall|k: int| 0 <= k < 4 implies file[p + k] == rec.take(4)[k] by {}
        }
        let kl = 16int;
        assert(file.subrange(p + 4 + kl, p + 8 + kl) =~= le_bytes(value.len(), 4)) by {
            assert(rec.subrange(20, 24) =~= le_bytes(value.len(), 4));
            assert forall|k: int| 0 <= k < 4 implies file[p + 20 + k] == rec.subrange(20, 24)[k] by {
                assert(file[p + (20 + k)] == rec[20 + k]);
            }
        }
        lemma_sweep_visits_records(values, i + 1, (n - 1) as nat);
    }
}

} // verus!
