//! Mutability and reading as of an earlier state, under both policies of
//! keeping what was overwritten.

use crate::bytes::{bytes_equal, key_seqs, push_bytes};
use crate::digits::{decimal, padded};
use crate::text::{behind_prefix, strip};
use vstd::prelude::*;
use vstd::utf8::{encode_utf8, is_ascii_chars_encode_utf8};

verus! {

/// How many keys there are.
pub const KEYS: usize = 1000;

/// Keys below this one are overwritten.
pub const OVERWRITTEN: usize = 333;

/// Keys below this one, and not below the other, are deleted.
pub const DELETED: usize = 666;

/// The key of a number: a letter and at least eight decimal digits.
pub open spec fn key_of(k: nat) -> Seq<u8> {
    seq![107u8] + padded(k, 8)
}

/// The key of a number.
pub fn key(k: usize) -> (out: Vec<u8>)
    ensures
        out@ == key_of(k as nat),
{
    let mut out: Vec<u8> = Vec::new();
    out.push(107);
    push_bytes(&mut out, &decimal(k as u64, 8));
    proof {
        assert(out@ =~= key_of(k as nat));
    }
    out
}

/// The stages of a key's value.
#[derive(Clone, Copy, PartialEq, Eq, Structural, Debug)]
pub enum Stage {
    /// What was first appended.
    First,
    /// What overwrote it.
    Second,
    /// What the churn puts, padded so that the slot is worth reusing.
    Churn,
}

/// The value of a key at a stage.
pub open spec fn value_of(stage: Stage, k: nat) -> Seq<u8> {
    match stage {
        Stage::First => encode_utf8("v1-"@) + padded(k, 1),
        Stage::Second => encode_utf8("v2-"@) + padded(k, 1),
        Stage::Churn => encode_utf8("v3-"@) + padded(k, 1) + encode_utf8(
            "-padded-out-so-the-slot-is-worth-reusing"@,
        ),
    }
}

/// The value of a key at a stage.
pub fn value(stage: Stage, k: usize) -> (out: Vec<u8>)
    ensures
        out@ == value_of(stage, k as nat),
{
    let mut out: Vec<u8> = Vec::new();
    let start: &str = match stage {
        Stage::First => "v1-",
        Stage::Second => "v2-",
        Stage::Churn => "v3-",
    };
    push_bytes(&mut out, start.as_bytes());
    proof {
        assert(out@ =~= encode_utf8(start@));
    }
    push_bytes(&mut out, &decimal(k as u64, 1));
    if stage == Stage::Churn {
        push_bytes(&mut out, "-padded-out-so-the-slot-is-worth-reusing".as_bytes());
    }
    out
}

/// Whether a key holds one value, that of a stage.
pub open spec fn holds_only(got: Seq<Seq<u8>>, stage: Stage, k: nat) -> bool {
    got == seq![value_of(stage, k)]
}

/// Whether a key holds one value, that of a stage.
pub fn holds_stage(got: &Vec<Vec<u8>>, stage: Stage, k: usize) -> (r: bool)
    ensures
        r == holds_only(key_seqs(got@), stage, k as nat),
{
    if got.len() != 1 {
        assert(key_seqs(got@).len() == got@.len());
        return false;
    }
    let want: Vec<u8> = value(stage, k);
    let r: bool = bytes_equal(&got[0], &want);
    proof {
        if r {
            assert(key_seqs(got@) =~= seq![value_of(stage, k as nat)]);
        } else {
            assert(key_seqs(got@)[0] != value_of(stage, k as nat));
        }
    }
    r
}

/// Whether the current state gives a key what overwriting and deleting left it
/// with: the second value, nothing, or the first value. The churn comes after
/// that and puts a value of its own under every key, so it leaves no key so.
pub open spec fn current_is_right(k: nat, got: Seq<Seq<u8>>) -> bool {
    if k < OVERWRITTEN {
        holds_only(got, Stage::Second, k)
    } else if k < DELETED {
        got.len() == 0
    } else {
        holds_only(got, Stage::First, k)
    }
}

/// A key that holds what the churn put is not as overwriting and deleting left
/// it.
pub proof fn lemma_churned_is_otherwise(k: nat, got: Seq<Seq<u8>>)
    requires
        holds_only(got, Stage::Churn, k),
    ensures
        !current_is_right(k, got),
{
    reveal_strlit("v1-");
    reveal_strlit("v2-");
    reveal_strlit("v3-");
    is_ascii_chars_encode_utf8("v1-"@);
    is_ascii_chars_encode_utf8("v2-"@);
    is_ascii_chars_encode_utf8("v3-"@);
    assert("v1-"@[1] as u8 == encode_utf8("v1-"@)[1]);
    assert("v2-"@[1] as u8 == encode_utf8("v2-"@)[1]);
    assert("v3-"@[1] as u8 == encode_utf8("v3-"@)[1]);
    assert(value_of(Stage::First, k)[1] == 49);
    assert(value_of(Stage::Second, k)[1] == 50);
    assert(value_of(Stage::Churn, k)[1] == 51);
    assert(got[0] == value_of(Stage::Churn, k));
    if holds_only(got, Stage::First, k) {
        assert(got[0] == value_of(Stage::First, k));
    }
    if holds_only(got, Stage::Second, k) {
        assert(got[0] == value_of(Stage::Second, k));
    }
}

/// Of the keys from `lo` to `hi`, how many the current state is right about.
pub open spec fn right_between(reads: Seq<Vec<Vec<u8>>>, lo: nat, hi: nat) -> nat
    decreases hi,
{
    if hi <= lo {
        0
    } else {
        right_between(reads, lo, (hi - 1) as nat) + if current_is_right(
            (hi - 1) as nat,
            key_seqs(reads[hi - 1]@),
        ) {
            1nat
        } else {
            0nat
        }
    }
}

/// Reads are counted one by one: a range's right ones are those of its two parts, and all
/// of them are counted exactly if every one is right. What is right of a key is what its
/// third of the keys was left with: the second value alone, nothing, or the first alone.
pub proof fn lemma_right_ones_are_counted(
    reads: Seq<Vec<Vec<u8>>>,
    lo: nat,
    mid: nat,
    hi: nat,
)
    requires
        lo <= mid <= hi,
    ensures
        right_between(reads, lo, hi) == right_between(reads, lo, mid) + right_between(
            reads,
            mid,
            hi,
        ),
        right_between(reads, lo, hi) <= hi - lo,
        right_between(reads, lo, hi) == hi - lo <==> forall|k: int|
            lo <= k < hi ==> ({
                let got = key_seqs((#[trigger] reads[k])@);
                &&& k < 333 ==> got == seq![value_of(Stage::Second, k as nat)]
                &&& 333 <= k < 666 ==> got.len() == 0
                &&& 666 <= k ==> got == seq![value_of(Stage::First, k as nat)]
            }),
    decreases
            hi,
            (if mid < hi {
                0int
            } else {
                1
            }),
{
    if mid < hi {
        let last = (hi - 1) as nat;
        lemma_right_ones_are_counted(reads, lo, mid, last);
        let ok = current_is_right(last, key_seqs(reads[last as int]@));
        if right_between(reads, lo, hi) == hi - lo {
            assert(ok);
            assert forall|k: int| lo <= k < hi implies ({
                let got = key_seqs((#[trigger] reads[k])@);
                &&& k < 333 ==> got == seq![value_of(Stage::Second, k as nat)]
                &&& 333 <= k < 666 ==> got.len() == 0
                &&& 666 <= k ==> got == seq![value_of(Stage::First, k as nat)]
            }) by {
                if k < last {
                    assert(right_between(reads, lo, last) == last - lo);
                }
            }
        }
    } else if lo < hi {
        lemma_right_ones_are_counted(reads, lo, lo, hi);
    }
}

fn count_right(reads: &Vec<Vec<Vec<u8>>>, lo: usize, hi: usize) -> (n: usize)
    requires
        lo <= hi <= reads@.len(),
    ensures
        n == right_between(reads@, lo as nat, hi as nat),
        n <= hi - lo,
{
    let mut n: usize = 0;
    let mut k: usize = lo;
    while k < hi
        invariant
            lo <= k <= hi <= reads@.len(),
            n == right_between(reads@, lo as nat, k as nat),
            n <= k - lo,
        decreases hi - k,
    {
        let got: &Vec<Vec<u8>> = &reads[k];
        let right: bool = if k < OVERWRITTEN {
            holds_stage(got, Stage::Second, k)
        } else if k < DELETED {
            got.len() == 0
        } else {
            holds_stage(got, Stage::First, k)
        };
        if right {
            n = n + 1;
        }
        k = k + 1;
    }
    n
}

/// What the current state got right, of the overwritten, the deleted and the
/// untouched keys.
pub fn current_tally(reads: &Vec<Vec<Vec<u8>>>) -> (r: (usize, usize, usize))
    requires
        reads@.len() == KEYS,
    ensures
        r.0 == right_between(reads@, 0, OVERWRITTEN as nat),
        r.1 == right_between(reads@, OVERWRITTEN as nat, DELETED as nat),
        r.2 == right_between(reads@, DELETED as nat, KEYS as nat),
{
    (
        count_right(reads, 0, OVERWRITTEN),
        count_right(reads, OVERWRITTEN, DELETED),
        count_right(reads, DELETED, KEYS),
    )
}

/// What reading a key as of an earlier state came to.
pub enum PastRead {
    /// The values that were read.
    Values(Vec<Vec<u8>>),
    /// The read was refused, with this message.
    Refused(Vec<u8>),
}

/// What an earlier state gave back.
pub struct PastTally {
    /// Keys that held their first value.
    pub readable: usize,
    /// Keys refused because their range was overwritten.
    pub by_range: usize,
    /// Keys refused by the decoder.
    pub by_decode: usize,
}

/// Whether a read of an earlier state gave the key its first value.
pub open spec fn past_readable(r: PastRead, k: nat) -> bool {
    r matches PastRead::Values(v) && holds_only(key_seqs(v@), Stage::First, k)
}

/// Whether a read was refused because the range was overwritten.
pub open spec fn refused_by_range(r: PastRead) -> bool {
    r matches PastRead::Refused(m) && behind_prefix(
        m@,
        encode_utf8("this value was stored"@),
    ) is Some
}

/// Whether a read was refused for another reason.
pub open spec fn refused_by_decode(r: PastRead) -> bool {
    r is Refused && !refused_by_range(r)
}

/// How many of the first `n` reads are of each sort.
pub open spec fn past_counts(reads: Seq<PastRead>, n: nat) -> (nat, nat, nat)
    decreases n,
{
    if n == 0 {
        (0, 0, 0)
    } else {
        let (a, b, c) = past_counts(reads, (n - 1) as nat);
        let r = reads[n - 1];
        (
            if past_readable(r, (n - 1) as nat) {
                a + 1
            } else {
                a
            },
            if refused_by_range(r) {
                b + 1
            } else {
                b
            },
            if refused_by_decode(r) {
                c + 1
            } else {
                c
            },
        )
    }
}

/// Reads of the past are told apart: each one is counted as readable, as refused for its
/// range, as refused by the decoder, or not at all, and never twice. All are counted as
/// readable exactly if each holds the first value alone.
pub proof fn lemma_past_reads_are_told_apart(reads: Seq<PastRead>, n: nat)
    requires
        n <= reads.len(),
    ensures
        past_counts(reads, n).0 + past_counts(reads, n).1 + past_counts(reads, n).2 <= n,
        past_counts(reads, n).0 == n <==> forall|k: int|
            0 <= k < n ==> ((#[trigger] reads[k]) matches PastRead::Values(v) && key_seqs(v@)
                == seq![value_of(Stage::First, k as nat)]),
        past_counts(reads, n).1 + past_counts(reads, n).2 == n <==> forall|k: int|
            0 <= k < n ==> (#[trigger] reads[k]) is Refused,
    decreases n,
{
    if n > 0 {
        lemma_past_reads_are_told_apart(reads, (n - 1) as nat);
        let last = reads[n - 1];
    }
}

/// What an earlier state gave back, key by key.
pub fn past_tally(reads: &Vec<PastRead>) -> (t: PastTally)
    ensures
        (t.readable as nat, t.by_range as nat, t.by_decode as nat) == past_counts(
            reads@,
            reads@.len(),
        ),
{
    let mut t: PastTally = PastTally { readable: 0, by_range: 0, by_decode: 0 };
    let mut k: usize = 0;
    while k < reads.len()
        invariant
            k <= reads@.len(),
            t.readable + t.by_range + t.by_decode <= k,
            (t.readable as nat, t.by_range as nat, t.by_decode as nat) == past_counts(
                reads@,
                k as nat,
            ),
        decreases reads.len() - k,
    {
        match &reads[k] {
            PastRead::Values(v) => {
                if holds_stage(v, Stage::First, k) {
                    t.readable = t.readable + 1;
                }
            },
            PastRead::Refused(m) => {
                match strip(m, "this value was stored".as_bytes()) {
                    Some(_) => {
                        t.by_range = t.by_range + 1;
                    },
                    None => {
                        t.by_decode = t.by_decode + 1;
                    },
                }
            },
        }
        k = k + 1;
    }
    t
}

} // verus!
