//! Sustained mixed load against a working set of constant size: appends that
//! fragment keys, replacements that supersede them, deletes that leave
//! tombstones.

use crate::bytes::push_bytes;
use crate::digits::{decimal, padded};
use crate::prefix::{be_bytes, push_be64};
use crate::rng::{xorshift_after, Rng};
use vstd::prelude::*;

verus! {

/// How far apart the keys are whose values are weighed.
pub const LIVE_STRIDE: u64 = 211;

/// The key of a number: a letter and at least nine decimal digits.
pub open spec fn key_of(k: u64) -> Seq<u8> {
    seq![107u8] + padded(k as nat, 9)
}

/// The key of a number.
pub fn key(k: u64) -> (out: Vec<u8>)
    ensures
        out@ == key_of(k),
{
    let mut out: Vec<u8> = Vec::new();
    out.push(107);
    push_bytes(&mut out, &decimal(k, 9));
    proof {
        assert(out@ =~= key_of(k));
    }
    out
}

/// What a step of the load does to its key.
#[derive(Clone, Copy, PartialEq, Eq, Structural, Debug)]
pub enum SoakOp {
    /// Adds a value to the key.
    Append,
    /// Replaces what the key holds.
    Put,
    /// Removes the key.
    Delete,
}

/// Of a hundred steps eighty append, fifteen replace and five delete.
pub open spec fn soak_op_of(r: u64) -> SoakOp {
    if r % 100 < 80 {
        SoakOp::Append
    } else if r % 100 < 95 {
        SoakOp::Put
    } else {
        SoakOp::Delete
    }
}

/// One step of the load.
pub struct SoakStep {
    /// The number of the key.
    pub key: u64,
    /// The value, where the step writes one.
    pub value: Vec<u8>,
    /// What is done.
    pub op: SoakOp,
}

/// The value of a step: eight bytes of a drawn number, then a filler.
pub open spec fn soak_value(r: u64, size: nat) -> Seq<u8> {
    be_bytes(r as nat, 8) + Seq::new((size - 8) as nat, |i: int| 118u8)
}

/// The next step, from the next three numbers.
pub fn soak_step(rng: &mut Rng, keys: u64, value_size: usize) -> (s: SoakStep)
    requires
        keys > 0,
        value_size >= 8,
    ensures
        s.key == xorshift_after(old(rng).0, 1) % keys,
        s.value@ == soak_value(xorshift_after(old(rng).0, 2), value_size as nat),
        s.op == soak_op_of(xorshift_after(old(rng).0, 3)),
        final(rng).0 == xorshift_after(old(rng).0, 3),
{
    proof {
        reveal_with_fuel(xorshift_after, 4);
    }
    let k: u64 = rng.next() % keys;
    let r: u64 = rng.next();
    let mut value: Vec<u8> = Vec::new();
    push_be64(&mut value, r);
    push_bytes(&mut value, &vec![118u8; value_size - 8]);
    proof {
        crate::prefix::lemma_be64(r);
        assert(value@ =~= soak_value(r, value_size as nat));
    }
    let d: u64 = rng.next() % 100;
    let op: SoakOp = if d < 80 {
        SoakOp::Append
    } else if d < 95 {
        SoakOp::Put
    } else {
        SoakOp::Delete
    };
    SoakStep { key: k, value, op }
}

/// What a step does: eighty in a hundred append, fifteen put and five delete. What it
/// writes starts with the number drawn for it, and goes on with one letter.
pub proof fn lemma_soak_step_says(r: u64, size: nat, i: int)
    requires
        size >= 8,
        8 <= i < size,
    ensures
        soak_op_of(r) is Append <==> r % 100 < 80,
        soak_op_of(r) is Put <==> 80 <= r % 100 < 95,
        soak_op_of(r) is Delete <==> 95 <= r % 100,
        soak_value(r, size).len() == size,
        crate::prefix::prefix8_of(soak_value(r, size).take(8)) == r,
        soak_value(r, size)[i] == 118,
{
    crate::prefix::lemma_be64(r);
    assert(soak_value(r, size).take(8) =~= be_bytes(r as nat, 8));
}

} // verus!
