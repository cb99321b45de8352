//! Crashing a writer and judging what survived.
//!
//! The writer's stream of operations is a pure function of what was drawn, so
//! whoever judges knows the exact state after every batch. A recovered state
//! is right when it is the state after some prefix of the batches, and that
//! prefix lies in the window which the synchronisation policy allows.

use crate::bytes::{bytes_equal, key_seqs};
use crate::hash::GOLDEN;
use crate::kvbench::{db_key, db_key_of};
use crate::prefix::{be_bytes, be_prefix, lemma_be64, prefix8, prefix8_of, push_be64};
use crate::text::same_text;
use vstd::prelude::*;
use vstd::slice::slice_subrange;

verus! {

// -------------------------------------------------------------- operations --

/// One operation of the writer's stream.
#[derive(Clone, Copy, PartialEq, Eq, Structural, Debug)]
pub enum C4Op {
    /// Appends a value of `len` bytes to a key.
    Put { key: u64, len: usize },
    /// Deletes a key.
    Del { key: u64 },
}

/// The operation that a drawn number stands for. One in ten deletes; of the
/// rest one in twenty is too big to be kept inline.
pub open spec fn op_of(r: u64, keys: u64) -> C4Op {
    let key = r % keys;
    if (r >> 32) % 10 == 0 {
        C4Op::Del { key }
    } else if (r >> 40) % 20 == 0 {
        C4Op::Put { key, len: (300 + (r >> 44) % 700) as usize }
    } else {
        C4Op::Put { key, len: (24 + (r >> 44) % 73) as usize }
    }
}

/// The stream of operations: numbered from one, behind a placeholder.
pub open spec fn ops_of(draws: Seq<u64>, keys: u64) -> Seq<C4Op> {
    seq![C4Op::Del { key: 0 }] + draws.map_values(|r: u64| op_of(r, keys))
}

/// The stream of operations for the numbers that were drawn.
pub fn c4_ops(draws: &[u64], keys: u64) -> (ops: Vec<C4Op>)
    requires
        keys > 0,
    ensures
        ops@ == ops_of(draws@, keys),
{
    let mut ops: Vec<C4Op> = Vec::new();
    ops.push(C4Op::Del { key: 0 });
    let mut i: usize = 0;
    proof {
        assert(ops@ =~= ops_of(draws@.take(0), keys));
    }
    while i < draws.len()
        invariant
            i <= draws@.len(),
            keys > 0,
            ops@ == ops_of(draws@.take(i as int), keys),
        decreases draws.len() - i,
    {
        let r: u64 = draws[i];
        let key: u64 = r % keys;
        let op: C4Op = if (r >> 32) % 10 == 0 {
            C4Op::Del { key }
        } else if (r >> 40) % 20 == 0 {
            C4Op::Put { key, len: 300 + ((r >> 44) % 700) as usize }
        } else {
            C4Op::Put { key, len: 24 + ((r >> 44) % 73) as usize }
        };
        let ghost before = ops@;
        ops.push(op);
        proof {
            assert(op == op_of(r, keys));
            assert(ops@ =~= ops_of(draws@.take(i + 1), keys));
        }
        i = i + 1;
    }
    proof {
        assert(draws@.take(i as int) =~= draws@);
    }
    ops
}

/// Whether a stream can be run over `keys` keys: each operation names one of
/// them, and each value has room for what it says of itself.
pub open spec fn runnable(ops: Seq<C4Op>, keys: u64) -> bool {
    &&& ops.len() > 0
    &&& forall|i: int|
        0 <= i < ops.len() ==> match #[trigger] ops[i] {
            C4Op::Put { key, len } => key < keys && len >= 24,
            C4Op::Del { key } => key < keys,
        }
}

/// What a drawn number stands for. Its rest by the number of keys is the key; of the
/// digits above its low half one in ten deletes; else one in twenty puts three hundred
/// to a thousand bytes, and the others twenty-four to ninety-six.
pub proof fn lemma_drawn_operation(r: u64, keys: u64)
    requires
        keys > 0,
    ensures
        (r as int / 0x1_0000_0000) % 10 == 0 <==> op_of(r, keys) is Del,
        op_of(r, keys) matches C4Op::Del { key } ==> key == r % keys,
        op_of(r, keys) matches C4Op::Put { key, len } ==> {
            &&& key == r % keys
            &&& (r as int / 0x100_0000_0000) % 20 == 0 ==> len == 300 + (r as int
                / 0x1000_0000_0000) % 700
            &&& (r as int / 0x100_0000_0000) % 20 != 0 ==> len == 24 + (r as int
                / 0x1000_0000_0000) % 73
        },
{
    assert(r >> 32 == r / 0x1_0000_0000 && r >> 40 == r / 0x100_0000_0000 && r >> 44 == r
        / 0x1000_0000_0000) by (bit_vector);
}

/// Every stream that is drawn can be run.
pub proof fn lemma_drawn_is_runnable(draws: Seq<u64>, keys: u64)
    requires
        keys > 0,
    ensures
        runnable(ops_of(draws, keys), keys),
{
    let ops = ops_of(draws, keys);
    assert forall|i: int| 0 <= i < ops.len() implies match #[trigger] ops[i] {
        C4Op::Put { key, len } => key < keys && len >= 24,
        C4Op::Del { key } => key < keys,
    } by {
        if i > 0 {
            assert(ops[i] == op_of(draws[i - 1], keys));
        }
    }
}

// ------------------------------------------------------------------ values --

/// The tag of a value: its sequence number scattered, with the key.
pub open spec fn tag_of(seq: u64, key: u64) -> u64 {
    seq.wrapping_mul(GOLDEN) ^ key
}

/// The byte at place `j` of a value's filler.
pub open spec fn fill_byte(j: int, tag: u64) -> u8 {
    ((j * 31 + tag) % 256) as u8
}

/// A value: its sequence number, its key, a tag of both, and a filler.
pub open spec fn value_of(seq: u64, key: u64, len: nat) -> Seq<u8> {
    be_bytes(seq as nat, 8) + be_bytes(key as nat, 8) + be_bytes(tag_of(seq, key) as nat, 8)
        + Seq::new((len - 24) as nat, |j: int| fill_byte(j + 24, tag_of(seq, key)))
}

/// The filler's bytes from the low bytes of what they are made of.
proof fn lemma_fill_byte(j: int, tag: int)
    requires
        j >= 0,
        tag >= 0,
    ensures
        ((j % 256) * 31 + tag % 256) % 256 == (j * 31 + tag) % 256,
{
    vstd::arithmetic::div_mod::lemma_mul_mod_noop_left(j, 31, 256);
    vstd::arithmetic::div_mod::lemma_add_mod_noop((j % 256) * 31, tag % 256, 256);
    vstd::arithmetic::div_mod::lemma_add_mod_noop(j * 31, tag, 256);
}

/// Writes a value that names its own sequence number and key and carries a tag
/// of both, so that a value that was written can be told from one that was
/// assembled.
pub fn c4_value(seq: u64, key: u64, len: usize, out: &mut Vec<u8>)
    requires
        len >= 24,
    ensures
        final(out)@ == value_of(seq, key, len as nat),
{
    let tag: u64 = seq.wrapping_mul(GOLDEN) ^ key;
    let mut v: Vec<u8> = Vec::new();
    push_be64(&mut v, seq);
    proof {
        assert(v@ =~= be_bytes(seq as nat, 8));
        lemma_be64(seq);
        lemma_be64(key);
        lemma_be64(tag);
    }
    push_be64(&mut v, key);
    push_be64(&mut v, tag);
    let ghost head = v@;
    let mut j: usize = 24;
    while j < len
        invariant
            24 <= j <= len,
            v@ =~= head + Seq::new((j - 24) as nat, |i: int| fill_byte(i + 24, tag)),
        decreases len - j,
    {
        let b: u64 = ((j as u64 % 256) * 31 + tag % 256) % 256;
        proof {
            lemma_fill_byte(j as int, tag as int);
            assert(b as u8 == fill_byte(j as int, tag));
        }
        v.push(b as u8);
        j = j + 1;
    }
    *out = v;
}

/// A value is as long as asked for, and its first eight bytes are its sequence
/// number and the next eight its key.
pub proof fn lemma_value_names_itself(seq: u64, key: u64, len: nat)
    requires
        len >= 24,
    ensures
        value_of(seq, key, len).len() == len,
        prefix8_of(value_of(seq, key, len)) == seq,
        prefix8_of(value_of(seq, key, len).skip(8)) == key,
{
    lemma_be64(seq);
    lemma_be64(key);
    lemma_be64(tag_of(seq, key));
    let v = value_of(seq, key, len);
    let a = be_bytes(seq as nat, 8);
    let b = be_bytes(key as nat, 8);
    lemma_prefix_of_front(v, a, 8);
    lemma_prefix_of_front(v.skip(8), b, 8);
}

/// What a value holds behind its sequence number and its key: a tag, which with the key
/// taken out again is the sequence number scattered, and then bytes that go up by
/// thirty-one from the tag's last one on, round two hundred and fifty-six.
pub proof fn lemma_value_is_filled(seq: u64, key: u64, len: nat, j: int)
    requires
        len >= 24,
        24 <= j < len,
    ensures
        ({
            let v = value_of(seq, key, len);
            let tag = prefix8_of(v.skip(16)) as u64;
            &&& tag ^ key == (seq * 0x9E37_79B9_7F4A_7C15) % 0x1_0000_0000_0000_0000
            &&& v[j] == (v[23] + 31 * j) % 256
            &&& j > 24 ==> v[j] == (v[j - 1] + 31) % 256
        }),
{
    let tag = tag_of(seq, key);
    lemma_be64(seq);
    lemma_be64(key);
    lemma_be64(tag);
    let v = value_of(seq, key, len);
    let c = be_bytes(tag as nat, 8);
    lemma_prefix_of_front(v.skip(16), c, 8);
    assert(tag ^ key == (seq * 0x9E37_79B9_7F4A_7C15) % 0x1_0000_0000_0000_0000) by {
        let m = seq.wrapping_mul(GOLDEN);
        assert((m ^ key) ^ key == m) by (bit_vector);
    }
    assert(v[23] == c[7]);
    assert(c[7] == tag % 256) by {
        assert(c == be_bytes(tag as nat / 256, 7).push((tag as nat % 256) as u8));
        crate::prefix::lemma_be_len(tag as nat / 256, 7);
    }
    assert(v[j] == fill_byte(j, tag));
    lemma_fill_goes_on(j, tag as int);
    if j > 24 {
        assert(v[j - 1] == fill_byte(j - 1, tag));
    }
}

/// The filler from the tag's low byte, and from the byte before.
proof fn lemma_fill_goes_on(j: int, tag: int)
    requires
        j >= 1,
        tag >= 0,
    ensures
        (j * 31 + tag) % 256 == (tag % 256 + 31 * j) % 256,
        (j * 31 + tag) % 256 == (((j - 1) * 31 + tag) % 256 + 31) % 256,
{
    vstd::arithmetic::div_mod::lemma_add_mod_noop(tag, 31 * j, 256);
    vstd::arithmetic::div_mod::lemma_add_mod_noop_right(31 * j, tag, 256);
    vstd::arithmetic::div_mod::lemma_add_mod_noop_right(31, (j - 1) * 31 + tag, 256);
}

/// The first bytes of a text decide the number that they stand for.
proof fn lemma_prefix_of_front(s: Seq<u8>, front: Seq<u8>, n: nat)
    requires
        front.len() >= n,
        s.len() >= n,
        forall|i: int| 0 <= i < n ==> s[i] == front[i],
    ensures
        be_prefix(s, n) == be_prefix(front, n),
    decreases n,
{
    if n > 0 {
        lemma_prefix_of_front(s, front, (n - 1) as nat);
    }
}

/// No two values are the same bytes unless they are the same value.
pub proof fn lemma_values_differ(
    seq: u64,
    key: u64,
    len: nat,
    other_seq: u64,
    other_key: u64,
    other_len: nat,
)
    requires
        len >= 24,
        other_len >= 24,
        value_of(seq, key, len) == value_of(other_seq, other_key, other_len),
    ensures
        seq == other_seq,
        key == other_key,
        len == other_len,
{
    lemma_value_names_itself(seq, key, len);
    lemma_value_names_itself(other_seq, other_key, other_len);
}

/// The sequence number of a value that was read under key `k`, if the stream
/// wrote exactly those bytes there.
pub open spec fn written_as(ops: Seq<C4Op>, k: u64, v: Seq<u8>) -> Option<u64> {
    let seq = prefix8_of(v);
    if v.len() >= 24 && seq < ops.len() {
        match ops[seq as int] {
            C4Op::Put { key, len } => if key == k && v == value_of(seq as u64, key, len as nat) {
                Some(seq as u64)
            } else {
                None
            },
            C4Op::Del { .. } => None,
        }
    } else {
        None
    }
}

/// What the stream writes is recognised as what it wrote.
pub proof fn lemma_written_is_recognised(ops: Seq<C4Op>, seq: u64, key: u64, len: usize)
    requires
        seq < ops.len(),
        ops[seq as int] == (C4Op::Put { key, len }),
        len >= 24,
    ensures
        written_as(ops, key, value_of(seq, key, len as nat)) == Some(seq),
{
    lemma_value_names_itself(seq, key, len as nat);
}

/// Nothing but what the stream wrote under the key is recognised.
pub proof fn lemma_only_written_is_recognised(ops: Seq<C4Op>, k: u64, v: Seq<u8>)
    ensures
        written_as(ops, k, v) matches Some(s) ==> s < ops.len() && (ops[s as int] matches C4Op::Put {
            key,
            len,
        } && key == k && v == value_of(s, k, len as nat)),
{
    if written_as(ops, k, v) is Some {
        assert(prefix8_of(v) as u64 == prefix8_of(v)) by {
            lemma_prefix8_bound(v);
        }
    }
}

/// Eight bytes stand for a number of sixty-four bits.
proof fn lemma_prefix8_bound(v: Seq<u8>)
    ensures
        prefix8_of(v) <= u64::MAX,
{
    reveal_with_fuel(be_prefix, 9);
}

/// The sequence number of a value, if the stream wrote exactly those bytes.
pub fn check_value(ops: &[C4Op], k: u64, v: &[u8]) -> (r: Option<u64>)
    requires
        forall|i: int|
            0 <= i < ops@.len() ==> (#[trigger] ops@[i] matches C4Op::Put { len, .. } ==> len
                >= 24),
    ensures
        r == written_as(ops@, k, v@),
{
    if v.len() < 24 {
        return None;
    }
    let seq: u64 = prefix8(v);
    if seq >= ops.len() as u64 {
        return None;
    }
    match ops[seq as usize] {
        C4Op::Put { key, len } => {
            let mut want: Vec<u8> = Vec::new();
            c4_value(seq, key, len, &mut want);
            if key == k && bytes_equal(&want, v) {
                Some(seq)
            } else {
                None
            }
        },
        C4Op::Del { .. } => None,
    }
}

/// The sequence numbers of the values that the stream wrote, in the order read.
pub open spec fn recognised(ops: Seq<C4Op>, k: u64, values: Seq<Seq<u8>>) -> Seq<u64>
    decreases values.len(),
{
    if values.len() == 0 {
        Seq::empty()
    } else {
        let front = recognised(ops, k, values.drop_last());
        match written_as(ops, k, values.last()) {
            Some(seq) => front.push(seq),
            None => front,
        }
    }
}

/// What is read of a key piece by piece is recognised piece by piece, and each piece
/// adds its number or nothing.
pub proof fn lemma_recognised_in_order(
    ops: Seq<C4Op>,
    k: u64,
    a: Seq<Seq<u8>>,
    b: Seq<Seq<u8>>,
    v: Seq<u8>,
)
    ensures
        recognised(ops, k, a + b) == recognised(ops, k, a) + recognised(ops, k, b),
        written_as(ops, k, v) is None ==> recognised(ops, k, seq![v]) == Seq::<u64>::empty(),
        written_as(ops, k, v) matches Some(s) ==> recognised(ops, k, seq![v]) == seq![s],
    decreases b.len(),
{
    reveal_with_fuel(recognised, 2);
    assert(seq![v].drop_last() =~= Seq::<Seq<u8>>::empty());
    assert(seq![v].last() == v);
    if b.len() == 0 {
        assert(a + b =~= a);
        assert(recognised(ops, k, a) + recognised(ops, k, b) =~= recognised(ops, k, a));
    } else {
        assert((a + b).drop_last() =~= a + b.drop_last());
        assert((a + b).last() == b.last());
        lemma_recognised_in_order(ops, k, a, b.drop_last(), v);
        assert(recognised(ops, k, a + b) =~= recognised(ops, k, a) + recognised(ops, k, b));
    }
}

/// The values of one key, checked: the sequence numbers of those that the
/// stream wrote, and how many it did not.
pub fn check_key(ops: &[C4Op], k: u64, values: &Vec<Vec<u8>>) -> (r: (Vec<u64>, usize))
    requires
        forall|i: int|
            0 <= i < ops@.len() ==> (#[trigger] ops@[i] matches C4Op::Put { len, .. } ==> len
                >= 24),
    ensures
        r.0@ == recognised(ops@, k, key_seqs(values@)),
        r.1 == values@.len() - r.0@.len(),
{
    let mut seqs: Vec<u64> = Vec::new();
    let mut bad: usize = 0;
    let mut i: usize = 0;
    proof {
        assert(key_seqs(values@).take(0) =~= Seq::<Seq<u8>>::empty());
    }
    while i < values.len()
        invariant
            i <= values@.len(),
            bad + seqs@.len() == i,
            seqs@ == recognised(ops@, k, key_seqs(values@).take(i as int)),
            forall|i: int|
                0 <= i < ops@.len() ==> (#[trigger] ops@[i] matches C4Op::Put { len, .. } ==> len
                    >= 24),
        decreases values.len() - i,
    {
        proof {
            let t = key_seqs(values@).take(i + 1);
            assert(t.drop_last() =~= key_seqs(values@).take(i as int));
            assert(t.last() == values@[i as int]@);
        }
        match check_value(ops, k, &values[i]) {
            Some(seq) => {
                seqs.push(seq);
            },
            None => {
                bad = bad + 1;
            },
        }
        i = i + 1;
    }
    proof {
        assert(key_seqs(values@).take(i as int) =~= key_seqs(values@));
    }
    (seqs, bad)
}

/// The key and the sequence number that a scanned value names, if the key is
/// one of the keys and is the one that it was found under. A value too short
/// to hold a number counts as naming zero.
pub open spec fn scanned_as(keys: u64, k: Seq<u8>, v: Seq<u8>) -> Option<(u64, u64)> {
    let key = if v.len() >= 16 {
        prefix8_of(v.skip(8)) as u64
    } else {
        0
    };
    let seq = if v.len() >= 8 {
        prefix8_of(v) as u64
    } else {
        0
    };
    if key < keys && db_key_of(key) == k {
        Some((key, seq))
    } else {
        None
    }
}

/// A value that is scanned under its own key names the key and its sequence number, and
/// under any other key it names nothing.
pub proof fn lemma_scanned_names_itself(keys: u64, k: Seq<u8>, seq: u64, key: u64, len: nat)
    requires
        len >= 24,
    ensures
        scanned_as(keys, k, value_of(seq, key, len)) == if key < keys && db_key_of(key) == k {
            Some((key, seq))
        } else {
            None
        },
{
    lemma_value_names_itself(seq, key, len);
}

/// What a scanned value names whatever it is: the first eight bytes are the sequence number
/// and the next eight the key, and a number that it is too short for is nought.
pub proof fn lemma_scanned_goes_by_its_front(
    keys: u64,
    k: Seq<u8>,
    seq: u64,
    key: u64,
    rest: Seq<u8>,
)
    ensures
        scanned_as(keys, k, be_bytes(seq as nat, 8) + be_bytes(key as nat, 8) + rest) == if key
            < keys && db_key_of(key) == k {
            Some((key, seq))
        } else {
            None
        },
        rest.len() < 8 ==> scanned_as(keys, k, be_bytes(seq as nat, 8) + rest) == if 0 < keys
            && db_key_of(0) == k {
            Some((0u64, seq))
        } else {
            None
        },
        rest.len() < 8 ==> scanned_as(keys, k, rest) == if 0 < keys && db_key_of(0) == k {
            Some((0u64, 0u64))
        } else {
            None
        },
{
    lemma_be64(seq);
    lemma_be64(key);
    let (a, b) = (be_bytes(seq as nat, 8), be_bytes(key as nat, 8));
    let v = a + b + rest;
    lemma_prefix_of_front(v, a, 8);
    lemma_prefix_of_front(v.skip(8), b, 8);
    lemma_prefix_of_front(a + rest, a, 8);
}

/// The key and the sequence number that a scanned value names.
pub fn check_scanned(keys: u64, k: &[u8], v: &[u8]) -> (r: Option<(u64, u64)>)
    ensures
        r == scanned_as(keys, k@, v@),
{
    let key: u64 = if v.len() >= 16 {
        proof {
            assert(v@.subrange(8, v@.len() as int) =~= v@.skip(8));
        }
        prefix8(slice_subrange(v, 8, v.len()))
    } else {
        0
    };
    let seq: u64 = if v.len() >= 8 {
        prefix8(v)
    } else {
        0
    };
    if key < keys && bytes_equal(&db_key(key), k) {
        Some((key, seq))
    } else {
        None
    }
}

// ----------------------------------------------------------------- replays --

/// The sequence numbers that each key holds.
pub open spec fn states(s: Seq<Vec<u64>>) -> Seq<Seq<u64>> {
    s.map_values(|v: Vec<u64>| v@)
}

/// No key holds anything.
pub open spec fn nothing(keys: u64) -> Seq<Seq<u64>> {
    Seq::new(keys as nat, |i: int| Seq::<u64>::empty())
}

/// A state after one operation, which has number `i`.
pub open spec fn applied(s: Seq<Seq<u64>>, op: C4Op, i: u64) -> Seq<Seq<u64>> {
    match op {
        C4Op::Put { key, .. } => s.update(key as int, s[key as int].push(i)),
        C4Op::Del { key } => s.update(key as int, Seq::empty()),
    }
}

/// The state after the first `n` operations.
pub open spec fn state_after(ops: Seq<C4Op>, keys: u64, n: nat) -> Seq<Seq<u64>>
    decreases n,
{
    if n == 0 {
        nothing(keys)
    } else {
        applied(state_after(ops, keys, (n - 1) as nat), ops[n as int], n as u64)
    }
}

/// What a key holds after the first `n` operations: the numbers of the values
/// that were put to it and that no later one of these operations deleted, each
/// once and in the order in which they were put.
pub proof fn lemma_replay_keeps_undeleted(ops: Seq<C4Op>, keys: u64, n: nat, k: u64)
    requires
        runnable(ops, keys),
        n < ops.len() <= u64::MAX,
        k < keys,
    ensures
        state_after(ops, keys, n).len() == keys,
        forall|j: u64| #[trigger]
            state_after(ops, keys, n)[k as int].contains(j) <==> {
                &&& 1 <= j <= n
                &&& ops[j as int] matches C4Op::Put { key, .. } && key == k
                &&& forall|m: int| j < m <= n ==> #[trigger] ops[m] != (C4Op::Del { key: k })
            },
        forall|a: int, b: int|
            0 <= a < b < state_after(ops, keys, n)[k as int].len() ==> #[trigger] state_after(
                ops,
                keys,
                n,
            )[k as int][a] < #[trigger] state_after(ops, keys, n)[k as int][b],
    decreases n,
{
    let now = state_after(ops, keys, n);
    if n > 0 {
        let before = state_after(ops, keys, (n - 1) as nat);
        lemma_replay_keeps_undeleted(ops, keys, (n - 1) as nat, k);
        let op = ops[n as int];
        let was = before[k as int];
        let is = now[k as int];
        assert(before.len() == keys);
        if op matches C4Op::Put { key, .. } && key == k {
            assert(is == was.push(n as u64));
            assert(is[was.len() as int] == n as u64);
            assert forall|a: int| 0 <= a < was.len() implies #[trigger] was[a] < n by {
                assert(was.contains(was[a]));
            }
        }
        assert forall|j: u64| #[trigger] is.contains(j) <==> {
            &&& 1 <= j <= n
            &&& ops[j as int] matches C4Op::Put { key, .. } && key == k
            &&& forall|m: int| j < m <= n ==> #[trigger] ops[m] != (C4Op::Del { key: k })
        } by {
            let listed = was.contains(j);
            if is.contains(j) {
                let a = choose|a: int| 0 <= a < is.len() && is[a] == j;
                if a < was.len() && is != Seq::<u64>::empty() {
                    assert(was[a] == j);
                }
            }
            if listed && !(op matches C4Op::Del { key } && key == k) {
                let a = choose|a: int| 0 <= a < was.len() && was[a] == j;
                assert(is[a] == j);
            }
            if j < n && op == (C4Op::Del { key: k }) {
                assert(ops[n as int] == (C4Op::Del { key: k }));
            }
        }
    }
}

/// Whether a state is the one after `b` batches.
pub open spec fn is_prefix(ops: Seq<C4Op>, keys: u64, batch: u64, b: nat, got: Seq<Seq<u64>>) -> bool {
    state_after(ops, keys, b * batch as nat) == got
}

/// The batches, up to `b`, after which the state is `got`, in ascending order.
pub open spec fn prefixes(
    ops: Seq<C4Op>,
    keys: u64,
    batch: u64,
    b: nat,
    got: Seq<Seq<u64>>,
) -> Seq<u64>
    decreases b,
{
    let front = if b == 0 {
        Seq::empty()
    } else {
        prefixes(ops, keys, batch, (b - 1) as nat, got)
    };
    if is_prefix(ops, keys, batch, b, got) {
        front.push(b as u64)
    } else {
        front
    }
}

/// Every batch after which the state is `got` is listed, and no other.
pub proof fn lemma_prefixes_are_all(
    ops: Seq<C4Op>,
    keys: u64,
    batch: u64,
    b: nat,
    got: Seq<Seq<u64>>,
    p: u64,
)
    requires
        b <= u64::MAX,
    ensures
        prefixes(ops, keys, batch, b, got).contains(p) <==> p <= b && is_prefix(
            ops,
            keys,
            batch,
            p as nat,
            got,
        ),
        prefixes(ops, keys, batch, b, got).contains(p) <==> p <= b && state_after(
            ops,
            keys,
            (p * batch) as nat,
        ) == got,
    decreases b,
{
    let all = prefixes(ops, keys, batch, b, got);
    let front = if b == 0 {
        Seq::empty()
    } else {
        prefixes(ops, keys, batch, (b - 1) as nat, got)
    };
    if b > 0 {
        lemma_prefixes_are_all(ops, keys, batch, (b - 1) as nat, got, p);
    }
    if is_prefix(ops, keys, batch, b, got) {
        assert(all == front.push(b as u64));
        if front.contains(p) {
            let i = choose|i: int| 0 <= i < front.len() && front[i] == p;
            assert(all[i] == p);
        }
        if p == b {
            assert(all[front.len() as int] == p);
        }
        if all.contains(p) {
            let i = choose|i: int| 0 <= i < all.len() && all[i] == p;
            if i < front.len() {
                assert(front[i] == p);
            }
        }
    }
}

/// Two lists in strictly ascending order that hold the same numbers are one.
proof fn lemma_ascending_alike(a: Seq<u64>, b: Seq<u64>)
    requires
        forall|i: int, j: int| 0 <= i < j < a.len() ==> a[i] < a[j],
        forall|i: int, j: int| 0 <= i < j < b.len() ==> b[i] < b[j],
        forall|x: u64| #[trigger] a.contains(x) <==> b.contains(x),
    ensures
        a == b,
    decreases a.len(),
{
    if a.len() == 0 {
        if b.len() > 0 {
            assert(a.contains(b[0]));
        }
        assert(a =~= b);
    } else {
        assert(a.contains(a.last()));
        assert(b.len() > 0);
        assert(b.contains(b.last()) && a.contains(b.last()));
        let i = choose|i: int| 0 <= i < b.len() && b[i] == a.last();
        let j = choose|j: int| 0 <= j < a.len() && a[j] == b.last();
        assert(a.last() == b.last()) by {
            assert(i == b.len() - 1 || b[i] < b[b.len() - 1]);
            assert(j == a.len() - 1 || a[j] < a[a.len() - 1]);
        }
        let c = a.drop_last();
        let d = b.drop_last();
        assert forall|x: u64| #[trigger] c.contains(x) <==> d.contains(x) by {
            if c.contains(x) {
                let p = choose|p: int| 0 <= p < c.len() && c[p] == x;
                assert(a[p] == x && a[p] < a[a.len() - 1]);
                assert(a.contains(x));
                let q = choose|q: int| 0 <= q < b.len() && b[q] == x;
                assert(d[q] == x);
            }
            if d.contains(x) {
                let p = choose|p: int| 0 <= p < d.len() && d[p] == x;
                assert(b[p] == x && b[p] < b[b.len() - 1]);
                assert(b.contains(x));
                assert(a.contains(x));
                let q = choose|q: int| 0 <= q < a.len() && a[q] == x;
                assert(c[q] == x);
            }
        }
        lemma_ascending_alike(c, d);
        assert(a =~= c.push(a.last()));
        assert(b =~= d.push(b.last()));
    }
}

/// The listed batches are in ascending order.
proof fn lemma_prefixes_ascend(
    ops: Seq<C4Op>,
    keys: u64,
    batch: u64,
    b: nat,
    got: Seq<Seq<u64>>,
)
    requires
        b <= u64::MAX,
    ensures
        forall|x: int, y: int|
            0 <= x < y < prefixes(ops, keys, batch, b, got).len() ==> #[trigger] prefixes(
                ops,
                keys,
                batch,
                b,
                got,
            )[x] < #[trigger] prefixes(ops, keys, batch, b, got)[y],
    decreases b,
{
    if b > 0 {
        let front = prefixes(ops, keys, batch, (b - 1) as nat, got);
        lemma_prefixes_ascend(ops, keys, batch, (b - 1) as nat, got);
        assert forall|x: int| 0 <= x < front.len() implies #[trigger] front[x] < b by {
            assert(front.contains(front[x]));
            lemma_prefixes_are_all(ops, keys, batch, (b - 1) as nat, got, front[x]);
        }
    }
}

/// What a match is. A batch is listed exactly if it starts before the death, and
/// every key was recovered with the values that were put to it up to the batch's
/// end and not deleted again by then, in their order. The list is ascending.
pub proof fn lemma_matches_are_recoveries(
    ops: Seq<C4Op>,
    keys: u64,
    batch: u64,
    died_at: u64,
    got: Seq<Seq<u64>>,
    p: u64,
)
    requires
        batch > 0,
        died_at >= 1,
        runnable(ops, keys),
        batches_until(died_at, batch) * batch < ops.len() <= u64::MAX,
    ensures
        prefixes(ops, keys, batch, batches_until(died_at, batch), got).contains(p) <==> {
            &&& (p - 1) * batch < died_at
            &&& got.len() == keys
            &&& forall|k: int, a: int, b: int|
                0 <= k < keys && 0 <= a < b < got[k].len() ==> #[trigger] got[k][a]
                    < #[trigger] got[k][b]
            &&& forall|k: u64, j: u64|
                k < keys ==> (#[trigger] got[k as int].contains(j) <==> {
                    &&& 1 <= j <= p * batch
                    &&& ops[j as int] matches C4Op::Put { key, .. } && key == k
                    &&& forall|m: int|
                        j < m <= p * batch ==> #[trigger] ops[m] != (C4Op::Del { key: k })
                })
        },
        forall|x: int, y: int|
            0 <= x < y < prefixes(ops, keys, batch, batches_until(died_at, batch), got).len()
                ==> #[trigger] prefixes(
                ops,
                keys,
                batch,
                batches_until(died_at, batch),
                got,
            )[x] < #[trigger] prefixes(ops, keys, batch, batches_until(died_at, batch), got)[y],
{
    let total = batches_until(died_at, batch);
    let d = died_at - 1;
    vstd::arithmetic::div_mod::lemma_fundamental_div_mod(d, batch as int);
    vstd::arithmetic::div_mod::lemma_mod_bound(d, batch as int);
    let q = d / (batch as int);
    assert(0 <= q <= d) by (nonlinear_arith)
        requires
            q == d / (batch as int),
            batch > 0,
            d >= 0,
    ;
    lemma_prefixes_are_all(ops, keys, batch, total, got, p);
    lemma_prefixes_ascend(ops, keys, batch, total, got);
    assert(p <= q + 1 <==> (p - 1) * batch < died_at) by {
        if p <= q + 1 {
            assert((p - 1) * batch <= batch * q) by (nonlinear_arith)
                requires
                    p - 1 <= q,
                    batch > 0,
            ;
        } else {
            assert((p - 1) * batch >= batch * q + batch) by (nonlinear_arith)
                requires
                    p - 1 >= q + 1,
                    batch > 0,
            ;
        }
    }
    if p <= total {
        let n = (p * batch) as nat;
        assert(0 <= p * batch <= total * batch) by (nonlinear_arith)
            requires
                p <= total,
                batch > 0,
        ;
        let now = state_after(ops, keys, n);
        if keys > 0 {
            lemma_replay_keeps_undeleted(ops, keys, n, 0);
        } else {
            assert(ops[0] matches C4Op::Put { key, .. } ==> key < keys);
        }
        assert forall|k: u64| #![trigger now[k as int]] k < keys implies {
            &&& forall|j: u64| #[trigger]
                now[k as int].contains(j) <==> {
                    &&& 1 <= j <= n
                    &&& ops[j as int] matches C4Op::Put { key, .. } && key == k
                    &&& forall|m: int| j < m <= n ==> #[trigger] ops[m] != (C4Op::Del { key: k })
                }
            &&& forall|a: int, b: int|
                0 <= a < b < now[k as int].len() ==> #[trigger] now[k as int][a]
                    < #[trigger] now[k as int][b]
        } by {
            lemma_replay_keeps_undeleted(ops, keys, n, k);
        }
        if got.len() == keys && (forall|k: int, a: int, b: int|
            0 <= k < keys && 0 <= a < b < got[k].len() ==> #[trigger] got[k][a]
                < #[trigger] got[k][b]) && (forall|k: u64, j: u64|
            k < keys ==> (#[trigger] got[k as int].contains(j) <==> {
                &&& 1 <= j <= p * batch
                &&& ops[j as int] matches C4Op::Put { key, .. } && key == k
                &&& forall|m: int|
                    j < m <= p * batch ==> #[trigger] ops[m] != (C4Op::Del { key: k })
            })) {
            assert forall|k: int| 0 <= k < keys implies now[k] == got[k] by {
                let key = k as u64;
                assert(now[key as int] == now[k]);
                assert forall|x: u64| #[trigger] now[k].contains(x) <==> got[k].contains(x) by {
                    assert(now[key as int].contains(x) <==> got[key as int].contains(x));
                }
                assert forall|i: int, j: int| 0 <= i < j < now[k].len() implies now[k][i]
                    < now[k][j] by {
                    assert(now[key as int][i] < now[key as int][j]);
                }
                assert forall|i: int, j: int| 0 <= i < j < got[k].len() implies got[k][i]
                    < got[k][j] by {}
                lemma_ascending_alike(now[k], got[k]);
            }
            assert(now =~= got);
        }
        if now == got {
            assert forall|k: int, a: int, b: int|
                0 <= k < keys && 0 <= a < b < got[k].len() implies #[trigger] got[k][a]
                < #[trigger] got[k][b] by {
                let key = k as u64;
                assert(now[key as int][a] < now[key as int][b]);
            }
        }
    }
}

/// Whether two states hold the same sequence numbers under every key.
pub fn same_state(a: &Vec<Vec<u64>>, b: &Vec<Vec<u64>>) -> (r: bool)
    ensures
        r == (states(a@) == states(b@)),
{
    if a.len() != b.len() {
        assert(states(a@).len() != states(b@).len());
        return false;
    }
    let mut k: usize = 0;
    while k < a.len()
        invariant
            k <= a@.len(),
            a@.len() == b@.len(),
            forall|j: int| 0 <= j < k ==> (#[trigger] a@[j])@ == b@[j]@,
        decreases a.len() - k,
    {
        let x: &Vec<u64> = &a[k];
        let y: &Vec<u64> = &b[k];
        if x.len() != y.len() {
            assert(states(a@)[k as int] != states(b@)[k as int]);
            return false;
        }
        let mut i: usize = 0;
        while i < x.len()
            invariant
                i <= x@.len(),
                x@.len() == y@.len(),
                k < a@.len(),
                a@.len() == b@.len(),
                x == a@[k as int],
                y == b@[k as int],
                forall|j: int| 0 <= j < i ==> #[trigger] x@[j] == y@[j],
            decreases x.len() - i,
        {
            if x[i] != y[i] {
                assert(states(a@)[k as int][i as int] != states(b@)[k as int][i as int]);
                return false;
            }
            i = i + 1;
        }
        assert(a@[k as int]@ =~= b@[k as int]@);
        k = k + 1;
    }
    assert(states(a@) =~= states(b@));
    true
}

/// Applies one operation of the stream to a state.
fn apply(model: &mut Vec<Vec<u64>>, op: C4Op, i: u64)
    requires
        match op {
            C4Op::Put { key, .. } => key < old(model)@.len(),
            C4Op::Del { key } => key < old(model)@.len(),
        },
    ensures
        states(final(model)@) == applied(states(old(model)@), op, i),
        final(model)@.len() == old(model)@.len(),
{
    let ghost before = model@;
    assert(model@.len() == model.len());
    match op {
        C4Op::Put { key, .. } => {
            model[key as usize].push(i);
            proof {
                assert(states(model@) =~= applied(states(before), op, i));
            }
        },
        C4Op::Del { key } => {
            model.set(key as usize, Vec::new());
            proof {
                assert(states(model@) =~= applied(states(before), op, i));
            }
        },
    }
}

/// How many batches the writer can have committed when it died before operation
/// `died_at`: those before it, and the one that it was in.
pub open spec fn batches_until(died_at: u64, batch: u64) -> nat {
    ((died_at - 1) / (batch as int) + 1) as nat
}

/// The batches after which the stream's state is the one that was recovered.
pub fn matching_batches(
    ops: &[C4Op],
    keys: u64,
    batch: u64,
    died_at: u64,
    got: &Vec<Vec<u64>>,
) -> (matches: Vec<u64>)
    requires
        batch > 0,
        died_at >= 1,
        runnable(ops@, keys),
        keys <= usize::MAX,
        batches_until(died_at, batch) * batch < ops@.len(),
    ensures
        matches@ == prefixes(ops@, keys, batch, batches_until(died_at, batch), states(got@)),
{
    let mut model: Vec<Vec<u64>> = Vec::new();
    let mut k: u64 = 0;
    while k < keys
        invariant
            k <= keys,
            states(model@) =~= nothing(k),
        decreases keys - k,
    {
        let ghost before = states(model@);
        model.push(Vec::new());
        k = k + 1;
        proof {
            assert(states(model@) =~= before.push(Seq::empty()));
        }
    }
    let ghost goal = states(got@);
    let mut matches: Vec<u64> = Vec::new();
    proof {
        assert(0 * batch as nat == 0) by (nonlinear_arith);
    }
    if same_state(&model, got) {
        matches.push(0);
    }
    proof {
        assert(matches@ =~= prefixes(ops@, keys, batch, 0, goal));
    }
    let total: u64 = (died_at - 1) / batch + 1;
    let mut b: u64 = 0;
    let mut i: usize = 1;
    proof {
        assert(model@.len() == states(model@).len());
        assert(ops@.len() == ops.len());
    }
    while b < total
        invariant
            b <= total,
            batch > 0,
            total == batches_until(died_at, batch),
            total * batch < ops@.len(),
            ops@.len() <= usize::MAX,
            i == b * batch + 1,
            runnable(ops@, keys),
            model@.len() == keys,
            goal == states(got@),
            states(model@) == state_after(ops@, keys, (b * batch) as nat),
            matches@ == prefixes(ops@, keys, batch, b as nat, goal),
        decreases total - b,
    {
        proof {
            assert((b + 1) * batch <= total * batch) by (nonlinear_arith)
                requires
                    b < total,
            ;
            assert((b + 1) * batch == b * batch + batch) by (nonlinear_arith);
        }
        let mut j: u64 = 0;
        while j < batch
            invariant
                j <= batch,
                i == b * batch + 1 + j,
                b * batch + batch < ops@.len(),
                ops@.len() <= usize::MAX,
                runnable(ops@, keys),
                model@.len() == keys,
                states(model@) == state_after(ops@, keys, (i - 1) as nat),
            decreases batch - j,
        {
            let op: C4Op = ops[i];
            assert(op == ops@[i as int]);
            apply(&mut model, op, i as u64);
            i = i + 1;
            j = j + 1;
        }
        b = b + 1;
        if same_state(&model, got) {
            matches.push(b);
        }
    }
    matches
}

// ----------------------------------------------------------------- windows --

/// How many commits go by between two synchronisations, where not every one
/// is synchronised.
pub const EVERY_N: u64 = 8;

/// The synchronisation policies that are tried.
#[derive(Clone, Copy, PartialEq, Eq, Structural, Debug)]
pub enum SyncArm {
    /// Every commit is synchronised.
    Always,
    /// One commit in eight is synchronised.
    EveryN,
}

/// The policy of a name: every one in eight unless it is the other's.
pub fn sync_arm(name: &str) -> (a: SyncArm)
    ensures
        a == if name@ == "always"@ {
            SyncArm::Always
        } else {
            SyncArm::EveryN
        },
{
    if same_text(name, "always") {
        SyncArm::Always
    } else {
        SyncArm::EveryN
    }
}

/// The fewest batches that may survive.
pub open spec fn fewest(arm: SyncArm, acked: u64) -> u64 {
    match arm {
        SyncArm::Always => acked,
        SyncArm::EveryN => if acked >= 7 {
            (acked - 7) as u64
        } else {
            0
        },
    }
}

/// What a recovered state came to.
#[derive(Clone, Copy, PartialEq, Eq, Structural, Debug)]
pub enum Outcome {
    /// It is the state after no prefix of the batches.
    NoPrefix,
    /// Acknowledged batches are gone beyond what the policy allows: this many
    /// batches survived.
    Lost { best: u64 },
    /// It is past the acknowledged batches and the one in flight.
    Past { best: u64 },
    /// It is in the window; this many batches survived.
    Within { best: u64 },
}

/// The largest of the numbers that are at most `hi`.
pub open spec fn largest_upto(s: Seq<u64>, hi: int) -> Option<u64>
    decreases s.len(),
{
    if s.len() == 0 {
        None
    } else {
        let front = largest_upto(s.drop_last(), hi);
        if s.last() <= hi && (front is None || s.last() > front->0) {
            Some(s.last())
        } else {
            front
        }
    }
}

/// Whether some prefix lies in the window.
pub open spec fn some_within(matches: Seq<u64>, lo: int, hi: int) -> bool {
    exists|i: int| 0 <= i < matches.len() && lo <= #[trigger] matches[i] <= hi
}

/// What the prefixes that a recovered state is equal to come to.
pub open spec fn outcome_of(matches: Seq<u64>, arm: SyncArm, acked: u64) -> Outcome {
    let lo = fewest(arm, acked) as int;
    let hi = acked + 1;
    if matches.len() == 0 {
        Outcome::NoPrefix
    } else if some_within(matches, lo, hi) {
        Outcome::Within { best: largest_upto(matches, hi)->0 }
    } else {
        let best = largest_upto(matches, u64::MAX as int)->0;
        if best < lo {
            Outcome::Lost { best }
        } else {
            Outcome::Past { best }
        }
    }
}

/// What `largest_upto` is: one of the numbers, and no smaller than any other.
pub proof fn lemma_largest_upto(s: Seq<u64>, hi: int)
    ensures
        largest_upto(s, hi) matches Some(m) ==> s.contains(m) && m <= hi,
        forall|i: int|
            0 <= i < s.len() && #[trigger] s[i] <= hi ==> largest_upto(s, hi) is Some && s[i]
                <= largest_upto(s, hi)->0,
    decreases s.len(),
{
    if s.len() > 0 {
        let t = s.drop_last();
        lemma_largest_upto(t, hi);
        assert forall|i: int| 0 <= i < s.len() && #[trigger] s[i] <= hi implies largest_upto(
            s,
            hi,
        ) is Some && s[i] <= largest_upto(s, hi)->0 by {
            if i < t.len() {
                assert(t[i] == s[i]);
            }
        }
        if let Some(m) = largest_upto(s, hi) {
            if largest_upto(t, hi) == Some(m) && t.contains(m) {
                let i = choose|i: int| 0 <= i < t.len() && t[i] == m;
                assert(s[i] == m);
            } else {
                assert(s[s.len() - 1] == m);
            }
        }
    }
}

fn find_largest(s: &[u64], hi: u64) -> (r: Option<u64>)
    ensures
        r == largest_upto(s@, hi as int),
{
    let mut best: Option<u64> = None;
    let mut i: usize = 0;
    proof {
        assert(s@.take(0) =~= Seq::<u64>::empty());
    }
    while i < s.len()
        invariant
            i <= s@.len(),
            best == largest_upto(s@.take(i as int), hi as int),
        decreases s.len() - i,
    {
        proof {
            assert(s@.take(i + 1).drop_last() =~= s@.take(i as int));
        }
        let v: u64 = s[i];
        let better: bool = match best {
            None => true,
            Some(b) => v > b,
        };
        if v <= hi && better {
            best = Some(v);
        }
        i = i + 1;
    }
    proof {
        assert(s@.take(i as int) =~= s@);
    }
    best
}

/// What the prefixes that a recovered state is equal to come to.
pub fn judge(matches: &[u64], arm: SyncArm, acked: u64) -> (o: Outcome)
    requires
        acked < u64::MAX,
    ensures
        o == outcome_of(matches@, arm, acked),
{
    let lo: u64 = match arm {
        SyncArm::Always => acked,
        SyncArm::EveryN => acked.saturating_sub(EVERY_N - 1),
    };
    let hi: u64 = acked + 1;
    if matches.len() == 0 {
        return Outcome::NoPrefix;
    }
    let near: Option<u64> = find_largest(matches, hi);
    let far: Option<u64> = find_largest(matches, u64::MAX);
    proof {
        lemma_largest_upto(matches@, hi as int);
        lemma_largest_upto(matches@, u64::MAX as int);
        assert(matches@[0] <= u64::MAX);
    }
    match near {
        Some(p) => {
            if p >= lo {
                proof {
                    let i = choose|i: int| 0 <= i < matches@.len() && matches@[i] == p;
                    assert(lo <= matches@[i] <= hi);
                }
                return Outcome::Within { best: p };
            }
        },
        None => {},
    }
    assert(!some_within(matches@, lo as int, hi as int));
    match far {
        Some(best) => {
            if best < lo {
                Outcome::Lost { best }
            } else {
                Outcome::Past { best }
            }
        },
        None => Outcome::NoPrefix,
    }
}

/// What a judgement says of the batches that match. Where none does there is no
/// prefix. In the window is what has lost at most the batches that may be lost,
/// none or seven, and is at most one past the acknowledged ones: the best such
/// batch is told. Where no batch is there, the best of all is told, and whether
/// it is short of the window or past it.
pub proof fn lemma_judged(matches: Seq<u64>, arm: SyncArm, acked: u64)
    ensures
        ({
            let o = outcome_of(matches, arm, acked);
            let slack: int = if arm is Always {
                0
            } else {
                7
            };
            &&& o is NoPrefix <==> matches.len() == 0
            &&& o is Within <==> exists|i: int|
                0 <= i < matches.len() && #[trigger] matches[i] <= acked + 1 && acked
                    <= matches[i] + slack
            &&& o matches Outcome::Within { best } ==> {
                &&& matches.contains(best)
                &&& best <= acked + 1
                &&& acked <= best + slack
                &&& forall|i: int|
                    0 <= i < matches.len() && #[trigger] matches[i] <= acked + 1 ==> matches[i]
                        <= best
            }
            &&& o matches Outcome::Lost { best } ==> {
                &&& matches.contains(best)
                &&& best + slack < acked
                &&& forall|i: int| 0 <= i < matches.len() ==> #[trigger] matches[i] <= best
            }
            &&& o matches Outcome::Past { best } ==> {
                &&& matches.contains(best)
                &&& best > acked + 1
                &&& forall|i: int| 0 <= i < matches.len() ==> #[trigger] matches[i] <= best
            }
        }),
{
    lemma_largest_upto(matches, acked + 1);
    lemma_largest_upto(matches, u64::MAX as int);
    let lo = fewest(arm, acked) as int;
    if matches.len() > 0 {
        assert(matches[0] <= u64::MAX);
    }
    if some_within(matches, lo, acked + 1) {
        let i = choose|i: int| 0 <= i < matches.len() && lo <= #[trigger] matches[i] <= acked + 1;
        assert(matches[i] <= acked + 1);
    } else if matches.len() > 0 {
        let best = largest_upto(matches, u64::MAX as int)->0;
        let i = choose|i: int| 0 <= i < matches.len() && matches[i] == best;
        assert(!(lo <= matches[i] <= acked + 1));
    }
}

/// A state in the window has lost at most the batches that the policy allows:
/// none, or seven.
pub proof fn lemma_window_bounds_loss(matches: Seq<u64>, arm: SyncArm, acked: u64)
    requires
        outcome_of(matches, arm, acked) is Within,
    ensures
        outcome_of(matches, arm, acked)->Within_best <= acked + 1,
        acked - outcome_of(matches, arm, acked)->Within_best <= match arm {
            SyncArm::Always => 0int,
            SyncArm::EveryN => EVERY_N - 1,
        },
{
    let lo = fewest(arm, acked) as int;
    let hi = acked + 1;
    lemma_largest_upto(matches, hi);
    let i = choose|i: int| 0 <= i < matches.len() && lo <= #[trigger] matches[i] <= hi;
    assert(matches[i] <= hi);
}

} // verus!
