//! What a reader does with a file that is not quite what was written: where the
//! damage lands, what it does to the bytes, and what the reads say.
//!
//! The damage is of the sort that happens in the field: a flipped bit, a run of
//! zeros, and a run of foreign bytes, which is also aimed at the index and at
//! the live payload.

use crate::bytes::{bytes_equal, key_seqs, le_value, read_le64};
use crate::crash::{c4_value, value_of};
use crate::verdict::{verdict, verdict_of, Verdict};
use vstd::prelude::*;

verus! {

/// The bytes of the first page, which is never damaged: it is checksummed.
pub const FIRST_PAGE: usize = 4096;

/// The bytes at the end of the file that damage does not start in.
pub const LAST_BYTES: usize = 64;

/// The most bytes that one damage touches.
pub const LONGEST_RUN: usize = 48;

/// How many sorts of damage there are.
pub const MODELS: usize = 5;

// ----------------------------------------------------------------- the file --

/// The value that the file holds for key `k` at depth `d`, of `keys` keys.
pub open spec fn stored_value(k: u64, d: nat, keys: u64, size: nat) -> Seq<u8> {
    value_of((k + d * keys) as u64, k, size)
}

/// The value that the file holds for key `k` at depth `d`, of `keys` keys.
pub fn segment_value(k: u64, d: u64, keys: u64, size: usize) -> (v: Vec<u8>)
    requires
        size >= 24,
        k + d * keys <= u64::MAX,
    ensures
        v@ == stored_value(k, d as nat, keys, size as nat),
{
    let mut v: Vec<u8> = Vec::new();
    proof {
        assert(d * keys >= 0) by (nonlinear_arith);
    }
    c4_value(k + d * keys, k, size, &mut v);
    v
}

/// A number of a superblock: field `i` of slot `slot`.
pub open spec fn superblock_field(file: Seq<u8>, slot: int, i: int) -> nat {
    le_value(file.subrange(slot * 512 + i * 8, slot * 512 + i * 8 + 8))
}

/// The slot of the superblock that counts: the one of the higher generation.
pub open spec fn live_slot(file: Seq<u8>) -> int {
    if superblock_field(file, 1, 0) > superblock_field(file, 0, 0) {
        1
    } else {
        0
    }
}

/// Where the index lies, as the superblock tells it: its offset and its size.
pub open spec fn index_span_of(file: Seq<u8>) -> Option<(nat, nat)> {
    let off = superblock_field(file, live_slot(file), 3);
    let stored = superblock_field(file, live_slot(file), 4);
    if off > 0 && stored > 0 && off + stored <= file.len() {
        Some((off, stored))
    } else {
        None
    }
}

/// Where the index lies, as the superblock tells it.
pub fn index_span(file: &[u8]) -> (r: Option<(usize, usize)>)
    requires
        file@.len() >= 520,
        live_slot(file@) == 1 ==> file@.len() >= 552,
    ensures
        r is Some <==> index_span_of(file@) is Some,
        r matches Some((off, stored)) ==> index_span_of(file@) == Some(
            (off as nat, stored as nat),
        ),
{
    let newer: bool = read_le64(file, 512) > read_le64(file, 0);
    let base: usize = if newer {
        512
    } else {
        0
    };
    let off: u64 = read_le64(file, base + 24);
    let stored: u64 = read_le64(file, base + 32);
    let len: u64 = file.len() as u64;
    if off > 0 && stored > 0 && off <= len && stored <= len - off {
        Some((off as usize, stored as usize))
    } else {
        None
    }
}

/// The extents that hold payload: past the first page, and not empty.
pub open spec fn payload_of(extents: Seq<(u64, u64)>) -> Seq<(u64, u64)> {
    extents.filter(|e: (u64, u64)| e.0 >= 4096 && e.1 > 0)
}

/// The extents that hold payload.
pub fn payload_ranges(extents: &[(u64, u64)]) -> (out: Vec<(u64, u64)>)
    ensures
        out@ == payload_of(extents@),
{
    let mut out: Vec<(u64, u64)> = Vec::new();
    let mut i: usize = 0;
    let ghost keep = |e: (u64, u64)| e.0 >= 4096 && e.1 > 0;
    proof {
        assert(extents@.take(0) =~= Seq::<(u64, u64)>::empty());
        reveal(Seq::filter);
    }
    while i < extents.len()
        invariant
            i <= extents@.len(),
            keep == (|e: (u64, u64)| e.0 >= 4096 && e.1 > 0),
            out@ == extents@.take(i as int).filter(keep),
        decreases extents.len() - i,
    {
        proof {
            reveal(Seq::filter);
            assert(extents@.take(i + 1).drop_last() =~= extents@.take(i as int));
        }
        let e: (u64, u64) = extents[i];
        if e.0 >= 4096 && e.1 > 0 {
            out.push(e);
        }
        i = i + 1;
    }
    proof {
        assert(extents@.take(i as int) =~= extents@);
    }
    out
}

// --------------------------------------------------------------- the damage --

/// What a file is damaged by, from the numbers that were drawn: the sort of
/// damage, and where it starts; `used` numbers told it.
pub struct Aim {
    /// The sort of damage.
    pub model: usize,
    /// Where it starts.
    pub off: usize,
    /// How many of the drawn numbers were taken.
    pub used: usize,
}

/// Damage of the sort that the first number tells: five sorts where there is
/// payload to aim at, and four where there is none.
pub open spec fn model_of(draw: u64, payload: Seq<(u64, u64)>) -> int {
    if payload.len() == 0 {
        (draw % 4) as int
    } else {
        (draw % 5) as int
    }
}

/// Where damage of a sort starts.
pub open spec fn start_of(
    model: int,
    len: int,
    index: Option<(usize, usize)>,
    payload: Seq<(u64, u64)>,
    draws: Seq<u64>,
) -> int {
    if model == 4 {
        let (off, n) = payload[draws[1] as int % payload.len() as int];
        off + draws[2] % n
    } else {
        match index {
            Some((off, n)) if model == 3 => off + draws[1] as int % (n as int),
            _ => FIRST_PAGE + draws[1] as int % (len - FIRST_PAGE - LAST_BYTES),
        }
    }
}

/// How many numbers tell the sort and the place.
pub open spec fn aim_used(model: int) -> int {
    if model == 4 {
        3
    } else {
        2
    }
}

/// Whether everything that damage may be aimed at lies in a file of `len` bytes.
pub open spec fn targets_fit(
    len: int,
    index: Option<(usize, usize)>,
    payload: Seq<(u64, u64)>,
) -> bool {
    &&& len > FIRST_PAGE + LAST_BYTES
    &&& index matches Some((off, n)) ==> n > 0 && off + n <= len
    &&& forall|i: int|
        0 <= i < payload.len() ==> (#[trigger] payload[i]).1 > 0 && payload[i].0 + payload[i].1
            <= len
}

/// Takes aim: the sort of damage and where it starts.
pub fn aim(
    len: usize,
    index: Option<(usize, usize)>,
    payload: &[(u64, u64)],
    draws: &[u64],
) -> (a: Aim)
    requires
        targets_fit(len as int, index, payload@),
        draws@.len() >= 3,
    ensures
        a.model == model_of(draws@[0], payload@),
        a.off == start_of(a.model as int, len as int, index, payload@, draws@),
        a.used == aim_used(a.model as int),
        a.model < MODELS,
        a.off < len,
{
    let model: usize = if payload.len() == 0 {
        (draws[0] % 4) as usize
    } else {
        (draws[0] % 5) as usize
    };
    let room: u64 = (len - FIRST_PAGE - LAST_BYTES) as u64;
    if model == 4 {
        let at: usize = (draws[1] % payload.len() as u64) as usize;
        let e: (u64, u64) = payload[at];
        assert(payload@[at as int] == e);
        let off: u64 = e.0 + draws[2] % e.1;
        Aim { model, off: off as usize, used: 3 }
    } else if model == 3 {
        match index {
            Some((io, isz)) => {
                let o: usize = (draws[1] % isz as u64) as usize;
                Aim { model, off: io + o, used: 2 }
            },
            None => {
                let o: usize = (draws[1] % room) as usize;
                Aim { model, off: FIRST_PAGE + o, used: 2 }
            },
        }
    } else {
        let o: usize = (draws[1] % room) as usize;
        Aim { model, off: FIRST_PAGE + o, used: 2 }
    }
}

/// The end of a run that starts at `off`, of up to forty-eight bytes.
pub open spec fn run_end(off: int, draw: u64, len: int) -> int {
    let end = off + 1 + draw % 48;
    if end < len {
        end
    } else {
        len
    }
}

/// The bytes after damage of a sort at `off`, told by the numbers in `draws`.
pub open spec fn damaged(file: Seq<u8>, model: int, off: int, draws: Seq<u64>) -> Seq<u8> {
    if model == 0 {
        file.update(off, file[off] ^ (1u8 << ((draws[0] % 8) as u8)))
    } else if model == 1 {
        Seq::new(
            file.len(),
            |i: int|
                if off <= i < run_end(off, draws[0], file.len() as int) {
                    0u8
                } else {
                    file[i]
                },
        )
    } else {
        Seq::new(
            file.len(),
            |i: int|
                if off <= i < run_end(off, draws[0], file.len() as int) {
                    (draws[1 + i - off] % 256) as u8
                } else {
                    file[i]
                },
        )
    }
}

/// How many numbers the damage itself takes.
pub open spec fn damage_used(len: int, model: int, off: int, draws: Seq<u64>) -> int {
    if model < 2 {
        1
    } else {
        1 + run_end(off, draws[0], len) - off
    }
}

/// Damages a file: a flipped bit, a run of zeros or a run of foreign bytes.
/// The result is the bytes, and how many of the drawn numbers were taken.
pub fn damage(file: &[u8], model: usize, off: usize, draws: &[u64]) -> (r: (Vec<u8>, usize))
    requires
        off < file@.len(),
        file@.len() <= usize::MAX - LONGEST_RUN,
        draws@.len() > LONGEST_RUN,
    ensures
        r.0@ == damaged(file@, model as int, off as int, draws@),
        r.1 == damage_used(file@.len() as int, model as int, off as int, draws@),
{
    let len: usize = file.len();
    let mut bytes: Vec<u8> = crate::bytes::to_owned(file);
    if model == 0 {
        let bit: u8 = (draws[0] % 8) as u8;
        let b: u8 = bytes[off] ^ (1u8 << bit);
        bytes.set(off, b);
        return (bytes, 1);
    }
    let far: usize = off + 1 + (draws[0] % 48) as usize;
    let end: usize = if far < len {
        far
    } else {
        len
    };
    let mut i: usize = off;
    while i < end
        invariant
            off <= i <= end <= len,
            end - off <= LONGEST_RUN,
            len == file@.len(),
            bytes@.len() == len,
            draws@.len() > LONGEST_RUN,
            forall|j: int|
                0 <= j < len ==> #[trigger] bytes@[j] == if off <= j < i {
                    if model == 1 {
                        0u8
                    } else {
                        (draws@[1 + j - off] % 256) as u8
                    }
                } else {
                    file@[j]
                },
        decreases end - i,
    {
        let b: u8 = if model == 1 {
            0
        } else {
            (draws[1 + (i - off)] % 256) as u8
        };
        bytes.set(i, b);
        i = i + 1;
    }
    proof {
        assert(bytes@ =~= damaged(file@, model as int, off as int, draws@));
    }
    if model == 1 {
        (bytes, 1)
    } else {
        (bytes, 1 + (end - off))
    }
}

/// Damage keeps the file's length, starts where it was aimed and touches no
/// more than forty-eight bytes.
pub proof fn lemma_damage_is_local(file: Seq<u8>, model: int, off: int, draws: Seq<u64>, i: int)
    requires
        0 <= off < file.len(),
        0 <= i < file.len(),
    ensures
        damaged(file, model, off, draws).len() == file.len(),
        i < off || i >= off + LONGEST_RUN ==> damaged(file, model, off, draws)[i] == file[i],
{
}

/// The first page is spared, wherever the index and the payload lie past it.
pub proof fn lemma_first_page_is_spared(
    file: Seq<u8>,
    index: Option<(usize, usize)>,
    payload: Seq<(u64, u64)>,
    aimed: Seq<u64>,
    draws: Seq<u64>,
    i: int,
)
    requires
        targets_fit(file.len() as int, index, payload),
        index matches Some((off, n)) ==> off >= FIRST_PAGE,
        forall|j: int| 0 <= j < payload.len() ==> (#[trigger] payload[j]).0 >= FIRST_PAGE,
        aimed.len() >= 3,
        0 <= i < FIRST_PAGE,
    ensures
        ({
            let model = model_of(aimed[0], payload);
            let off = start_of(model, file.len() as int, index, payload, aimed);
            damaged(file, model, off, draws)[i] == file[i]
        }),
{
    let model = model_of(aimed[0], payload);
    let off = start_of(model, file.len() as int, index, payload, aimed);
    let room = file.len() - FIRST_PAGE - LAST_BYTES;
    vstd::arithmetic::div_mod::lemma_mod_bound(aimed[1] as int, room);
    if model == 4 {
        let at = aimed[1] as int % payload.len() as int;
        vstd::arithmetic::div_mod::lemma_mod_bound(aimed[1] as int, payload.len() as int);
        assert(payload[at].0 >= FIRST_PAGE && payload[at].1 > 0);
    } else if let Some((io, n)) = index {
        vstd::arithmetic::div_mod::lemma_mod_bound(aimed[1] as int, n as int);
    }
    assert(off >= FIRST_PAGE);
}

/// A flipped bit always changes the file.
pub proof fn lemma_flip_changes(file: Seq<u8>, off: int, draws: Seq<u64>)
    requires
        0 <= off < file.len(),
    ensures
        damaged(file, 0, off, draws) != file,
{
    let b = file[off];
    let s = (draws[0] % 8) as u8;
    assert(b ^ (1u8 << s) != b) by (bit_vector)
        requires
            s < 8,
    ;
    assert(damaged(file, 0, off, draws)[off] != file[off]);
}

// ---------------------------------------------------------------- the reads --

/// Where damage is aimed: into a payload extent, into the index, or anywhere behind
/// the first page and short of the last bytes; and every byte there can be hit.
pub proof fn lemma_aim_hits_its_target(
    len: int,
    index: Option<(usize, usize)>,
    payload: Seq<(u64, u64)>,
    draws: Seq<u64>,
    model: int,
)
    requires
        targets_fit(len, index, payload),
        draws.len() >= 3,
        model == 4 ==> payload.len() > 0,
    ensures
        ({
            let off = start_of(model, len, index, payload, draws);
            &&& model == 4 ==> exists|i: int|
                0 <= i < payload.len() && (#[trigger] payload[i]).0 <= off < payload[i].0
                    + payload[i].1
            &&& model == 3 ==> (index matches Some((at, n)) ==> at <= off < at + n)
            &&& model < 3 || (model == 3 && index is None) ==> 4096 <= off < len - 64
        }),
        payload.len() == 0 ==> 0 <= model_of(draws[0], payload) < 4,
        payload.len() > 0 ==> 0 <= model_of(draws[0], payload) < 5,
{
    if model == 4 {
        let i = draws[1] as int % payload.len() as int;
        vstd::arithmetic::div_mod::lemma_mod_bound(draws[1] as int, payload.len() as int);
        let p = payload[i];
        vstd::arithmetic::div_mod::lemma_mod_bound(draws[2] as int, p.1 as int);
        assert(payload[i].0 <= start_of(model, len, index, payload, draws) < payload[i].0
            + payload[i].1);
    } else {
        if let Some((at, n)) = index {
            vstd::arithmetic::div_mod::lemma_mod_bound(draws[1] as int, n as int);
        }
        vstd::arithmetic::div_mod::lemma_mod_bound(
            draws[1] as int,
            len - FIRST_PAGE - LAST_BYTES,
        );
    }
}

/// Every place that damage may be aimed at is hit by some draw.
pub proof fn lemma_every_target_can_be_hit(
    len: int,
    index: Option<(usize, usize)>,
    payload: Seq<(u64, u64)>,
    draws: Seq<u64>,
    x: int,
)
    requires
        targets_fit(len, index, payload),
        draws.len() >= 3,
        len <= u64::MAX,
    ensures
        draws[1] == x - 4096 && 4096 <= x < len - 64 ==> start_of(0, len, index, payload, draws)
            == x,
        index matches Some((at, n)) ==> (draws[1] == x - at && at <= x < at + n ==> start_of(
            3,
            len,
            index,
            payload,
            draws,
        ) == x),
        draws[1] < payload.len() && payload[draws[1] as int].0 <= x < payload[draws[1] as int].0
            + payload[draws[1] as int].1 && draws[2] == x - payload[draws[1] as int].0 ==> start_of(
            4,
            len,
            index,
            payload,
            draws,
        ) == x,
{
    if draws[1] == x - 4096 && 4096 <= x < len - 64 {
        vstd::arithmetic::div_mod::lemma_small_mod(
            draws[1] as nat,
            (len - FIRST_PAGE - LAST_BYTES) as nat,
        );
    }
    if let Some((at, n)) = index {
        if draws[1] == x - at && at <= x < at + n {
            vstd::arithmetic::div_mod::lemma_small_mod(draws[1] as nat, n as nat);
        }
    }
    if draws[1] < payload.len() {
        vstd::arithmetic::div_mod::lemma_small_mod(draws[1] as nat, payload.len());
        let p = payload[draws[1] as int];
        if p.0 <= x < p.0 + p.1 && draws[2] == x - p.0 {
            vstd::arithmetic::div_mod::lemma_small_mod(draws[2] as nat, p.1 as nat);
        }
    }
}

/// What damage does. A flip changes one byte by one of its eight bits, the one that
/// was drawn. A run is one to forty-eight bytes long, or up to the end of the file: it
/// is nought, or it is what was drawn, a byte of each number.
pub proof fn lemma_damage_says(file: Seq<u8>, off: int, draws: Seq<u64>, model: int, i: int)
    requires
        0 <= off < file.len(),
        0 <= i < file.len(),
        draws.len() > 48,
    ensures
        ({
            let end = off + 1 + draws[0] % 48;
            let now = damaged(file, model, off, draws);
            &&& now.len() == file.len()
            &&& model == 0 && i != off ==> now[i] == file[i]
            &&& model == 0 && i == off ==> {
                let bit = vstd::arithmetic::power2::pow2((draws[0] % 8) as nat);
                now[i] == file[i] + bit || now[i] == file[i] - bit
            }
            &&& model == 1 ==> now[i] == if off <= i < end {
                0
            } else {
                file[i]
            }
            &&& model >= 2 ==> now[i] == if off <= i < end {
                (draws[1 + i - off] % 256) as u8
            } else {
                file[i]
            }
        }),
{
    if model == 0 && i == off {
        vstd::arithmetic::power2::lemma2_to64();
        let b = file[off];
        let s = (draws[0] % 8) as u8;
        assert(b ^ (1u8 << s) == b + (1u8 << s) || b ^ (1u8 << s) == b - (1u8 << s)) by (bit_vector)
            requires
                s < 8,
        ;
        assert(1u8 << 0u8 == 1 && 1u8 << 1u8 == 2 && 1u8 << 2u8 == 4 && 1u8 << 3u8 == 8 && 1u8
            << 4u8 == 16 && 1u8 << 5u8 == 32 && 1u8 << 6u8 == 64 && 1u8 << 7u8 == 128)
            by (bit_vector);
        assert((1u8 << s) as int == vstd::arithmetic::power2::pow2((draws[0] % 8) as nat));
    }
}

/// Whether the value at place `d` of a key is what was written there.
pub open spec fn place_is_right(
    k: u64,
    keys: u64,
    depth: nat,
    size: nat,
    got: Seq<Seq<u8>>,
    d: nat,
) -> bool {
    d < depth && d < got.len() && got[d as int] == stored_value(k, d, keys, size)
}

/// Of the first `n` places of a key, how many do not hold what was written.
pub open spec fn wrong_places(
    k: u64,
    keys: u64,
    depth: nat,
    size: nat,
    got: Seq<Seq<u8>>,
    n: nat,
) -> nat
    decreases n,
{
    if n == 0 {
        0
    } else {
        wrong_places(k, keys, depth, size, got, (n - 1) as nat) + if place_is_right(
            k,
            keys,
            depth,
            size,
            got,
            (n - 1) as nat,
        ) {
            0nat
        } else {
            1nat
        }
    }
}

/// How many values of a key are not, byte for byte, what was written: those
/// that differ, those that are missing and those that are too many.
pub fn wrong_values(
    k: u64,
    keys: u64,
    depth: u64,
    size: usize,
    got: &Vec<Vec<u8>>,
) -> (n: u64)
    requires
        size >= 24,
        k + depth * keys <= u64::MAX,
    ensures
        n == wrong_places(
            k,
            keys,
            depth as nat,
            size as nat,
            key_seqs(got@),
            if got@.len() > depth {
                got@.len()
            } else {
                depth as nat
            },
        ),
{
    let total: u64 = if got.len() as u64 > depth {
        got.len() as u64
    } else {
        depth
    };
    let mut n: u64 = 0;
    let mut d: u64 = 0;
    while d < total
        invariant
            d <= total,
            n <= d,
            size >= 24,
            k + depth * keys <= u64::MAX,
            n == wrong_places(k, keys, depth as nat, size as nat, key_seqs(got@), d as nat),
        decreases total - d,
    {
        let mut right: bool = false;
        if d < depth && d < got.len() as u64 {
            proof {
                assert(d * keys <= depth * keys) by (nonlinear_arith)
                    requires
                        d < depth,
                ;
            }
            let want: Vec<u8> = segment_value(k, d, keys, size);
            assert(key_seqs(got@)[d as int] == got@[d as int]@);
            right = bytes_equal(&got[d as usize], &want);
        }
        assert(right == place_is_right(
            k,
            keys,
            depth as nat,
            size as nat,
            key_seqs(got@),
            d as nat,
        ));
        if !right {
            n = n + 1;
        }
        d = d + 1;
    }
    n
}

/// What was read of a key is counted as right throughout exactly if it is all that was
/// stored, in order, and nothing else; and never are more places wrong than there are.
pub proof fn lemma_nothing_wrong_is_all_right(
    k: u64,
    keys: u64,
    depth: nat,
    size: nat,
    got: Seq<Seq<u8>>,
)
    ensures
        ({
            let n = if got.len() > depth {
                got.len()
            } else {
                depth
            };
            &&& wrong_places(k, keys, depth, size, got, n) == 0 <==> got.len() == depth && forall|
                d: int,
            |
                0 <= d < depth ==> #[trigger] got[d] == value_of((k + d * keys) as u64, k, size)
            &&& wrong_places(k, keys, depth, size, got, n) <= n
        }),
{
    let n = if got.len() > depth {
        got.len()
    } else {
        depth
    };
    lemma_wrong_places(k, keys, depth, size, got, n);
    if wrong_places(k, keys, depth, size, got, n) == 0 {
        if got.len() != depth {
            let m = if got.len() < depth {
                got.len()
            } else {
                depth
            };
            assert(place_is_right(k, keys, depth, size, got, m));
        }
        assert forall|d: int| 0 <= d < depth implies #[trigger] got[d] == value_of(
            (k + d * keys) as u64,
            k,
            size,
        ) by {
            assert(place_is_right(k, keys, depth, size, got, d as nat));
        }
    } else if got.len() == depth && forall|d: int|
        0 <= d < depth ==> #[trigger] got[d] == value_of((k + d * keys) as u64, k, size) {
        assert forall|d: nat| d < n implies #[trigger] place_is_right(
            k,
            keys,
            depth,
            size,
            got,
            d,
        ) by {
            assert(got[d as int] == value_of((k + d * keys) as u64, k, size));
        }
    }
}

/// No place is counted exactly if every place is right.
proof fn lemma_wrong_places(
    k: u64,
    keys: u64,
    depth: nat,
    size: nat,
    got: Seq<Seq<u8>>,
    n: nat,
)
    ensures
        wrong_places(k, keys, depth, size, got, n) <= n,
        wrong_places(k, keys, depth, size, got, n) == 0 <==> forall|d: nat|
            d < n ==> #[trigger] place_is_right(k, keys, depth, size, got, d),
    decreases n,
{
    if n > 0 {
        lemma_wrong_places(k, keys, depth, size, got, (n - 1) as nat);
    }
}

/// What reading a damaged file came to.
#[derive(Clone, Copy, PartialEq, Eq, Structural, Debug)]
pub enum ReadOutcome {
    /// The process would have gone down.
    Panicked,
    /// The reader said that something was wrong.
    Errored,
    /// Everything was read, with this many values that were not what was
    /// written.
    Read { wrong: u64 },
}

/// What the trials came to, by the sort of damage.
pub struct DamageTally {
    /// Trials in which the damage changed nothing.
    pub no_op: u64,
    /// Panics by sort.
    pub panicked: Vec<u64>,
    /// Errors by sort.
    pub errored: Vec<u64>,
    /// Reads without complaint by sort.
    pub clean: Vec<u64>,
    /// Reads that gave wrong values.
    pub served_corrupt: u64,
    /// Wrong values in all.
    pub wrong: u64,
}

/// The sum of counts.
pub open spec fn total_of(s: Seq<u64>) -> nat
    decreases s.len(),
{
    if s.len() == 0 {
        0
    } else {
        total_of(s.drop_last()) + s.last() as nat
    }
}

fn total(s: &Vec<u64>) -> (n: u128)
    requires
        s@.len() == MODELS,
    ensures
        n == total_of(s@),
{
    proof {
        reveal_with_fuel(total_of, 6);
        let t = s@;
        assert(t.drop_last().last() == t[3]);
        assert(t.drop_last().drop_last().last() == t[2]);
        assert(t.drop_last().drop_last().drop_last().last() == t[1]);
        assert(t.drop_last().drop_last().drop_last().drop_last().last() == t[0]);
    }
    s[0] as u128 + s[1] as u128 + s[2] as u128 + s[3] as u128 + s[4] as u128
}

impl DamageTally {
    /// Each sort of damage has its counts.
    pub open spec fn wf(self) -> bool {
        &&& self.panicked@.len() == MODELS
        &&& self.errored@.len() == MODELS
        &&& self.clean@.len() == MODELS
        &&& self.served_corrupt <= total_of(self.clean@)
    }

    /// Nothing counted yet.
    pub fn new() -> (t: DamageTally)
        ensures
            t.wf(),
            t.no_op == 0 && t.served_corrupt == 0 && t.wrong == 0,
            t.panicked@ == Seq::new(MODELS as nat, |i: int| 0u64),
            t.errored@ == Seq::new(MODELS as nat, |i: int| 0u64),
            t.clean@ == Seq::new(MODELS as nat, |i: int| 0u64),
    {
        DamageTally {
            no_op: 0,
            panicked: vec![0u64; MODELS],
            errored: vec![0u64; MODELS],
            clean: vec![0u64; MODELS],
            served_corrupt: 0,
            wrong: 0,
        }
    }

    /// Counts a trial in which the damage changed nothing.
    pub fn note_no_op(&mut self)
        requires
            old(self).wf(),
            old(self).no_op < u64::MAX,
        ensures
            final(self).wf(),
            final(self).no_op == old(self).no_op + 1,
            final(self).panicked@ == old(self).panicked@,
            final(self).errored@ == old(self).errored@,
            final(self).clean@ == old(self).clean@,
            final(self).served_corrupt == old(self).served_corrupt,
            final(self).wrong == old(self).wrong,
    {
        self.no_op = self.no_op + 1;
    }

    /// Counts what reading a damaged file came to.
    pub fn note(&mut self, model: usize, o: ReadOutcome)
        requires
            old(self).wf(),
            model < MODELS,
            old(self).panicked@[model as int] < u64::MAX,
            old(self).errored@[model as int] < u64::MAX,
            old(self).clean@[model as int] < u64::MAX,
            old(self).served_corrupt < u64::MAX,
            o matches ReadOutcome::Read { wrong } ==> old(self).wrong + wrong <= u64::MAX,
        ensures
            final(self).wf(),
            final(self).no_op == old(self).no_op,
            final(self).panicked@ == if o is Panicked {
                raised(old(self).panicked@, model as int)
            } else {
                old(self).panicked@
            },
            final(self).errored@ == if o is Errored {
                raised(old(self).errored@, model as int)
            } else {
                old(self).errored@
            },
            final(self).clean@ == if o is Read {
                raised(old(self).clean@, model as int)
            } else {
                old(self).clean@
            },
            final(self).served_corrupt == old(self).served_corrupt + if o
                matches ReadOutcome::Read { wrong } && wrong > 0 {
                1int
            } else {
                0
            },
            final(self).wrong == old(self).wrong + match o {
                ReadOutcome::Read { wrong } => wrong as int,
                _ => 0,
            },
    {
        match o {
            ReadOutcome::Panicked => {
                let n: u64 = self.panicked[model];
                self.panicked.set(model, n + 1);
            },
            ReadOutcome::Errored => {
                let n: u64 = self.errored[model];
                self.errored.set(model, n + 1);
            },
            ReadOutcome::Read { wrong } => {
                let n: u64 = self.clean[model];
                proof {
                    lemma_raised(self.clean@, model as int);
                }
                self.clean.set(model, n + 1);
                if wrong > 0 {
                    self.served_corrupt = self.served_corrupt + 1;
                }
                self.wrong = self.wrong + wrong;
            },
        }
    }

    /// Trials that counted: panics, errors and reads.
    pub fn trials(&self) -> (n: u128)
        requires
            self.wf(),
        ensures
            n == total_of(self.panicked@) + total_of(self.errored@) + total_of(self.clean@),
    {
        proof {
            reveal_with_fuel(total_of, 6);
        }
        total(&self.panicked) + total(&self.errored) + total(&self.clean)
    }

    /// What the trials say: a damaged file gives an error and never a panic,
    /// and a read gives what was written or an error.
    pub fn verdicts(&self) -> (r: (Verdict, Verdict))
        requires
            self.wf(),
        ensures
            r.0 == verdict_of(true, total_of(self.panicked@) == 0),
            r.1 == verdict_of(true, self.served_corrupt == 0),
    {
        (verdict(true, total(&self.panicked) == 0), verdict(true, self.served_corrupt == 0))
    }
}

/// One count raised by one.
pub open spec fn raised(s: Seq<u64>, i: int) -> Seq<u64> {
    s.update(i, (s[i] + 1) as u64)
}

/// Raising one count raises the sum.
proof fn lemma_raised(s: Seq<u64>, i: int)
    requires
        0 <= i < s.len(),
        s[i] < u64::MAX,
    ensures
        total_of(raised(s, i)) == total_of(s) + 1,
    decreases s.len(),
{
    let r = raised(s, i);
    if i == s.len() - 1 {
        assert(r.drop_last() =~= s.drop_last());
    } else {
        lemma_raised(s.drop_last(), i);
        assert(r.drop_last() =~= raised(s.drop_last(), i));
    }
}

/// What two lists come to together is what they come to one by one.
pub proof fn lemma_totals_add_up(a: Seq<u64>, b: Seq<u64>)
    ensures
        total_of(a + b) == total_of(a) + total_of(b),
        a.len() == 1 ==> total_of(a) == a[0],
    decreases b.len(),
{
    reveal_with_fuel(total_of, 2);
    if b.len() == 0 {
        assert(a + b =~= a);
    } else {
        lemma_totals_add_up(a, b.drop_last());
        assert((a + b).drop_last() =~= a + b.drop_last());
    }
}

/// Where the file says what is live: the slot of the two with the higher number is, the
/// first where they have the same, and the index lies where that slot's fourth and fifth
/// words say, if that is within the file.
pub proof fn lemma_live_slot_is_newest(file: Seq<u8>)
    requires
        file.len() >= 552,
    ensures
        ({
            let first = le_value(file.subrange(0, 8));
            let second = le_value(file.subrange(512, 520));
            let (off, stored) = if second > first {
                (le_value(file.subrange(536, 544)), le_value(file.subrange(544, 552)))
            } else {
                (le_value(file.subrange(24, 32)), le_value(file.subrange(32, 40)))
            };
            &&& live_slot(file) == 1 <==> second > first
            &&& live_slot(file) == 0 <==> second <= first
            &&& index_span_of(file) is Some <==> off > 0 && stored > 0 && off + stored
                <= file.len()
            &&& index_span_of(file) is Some ==> index_span_of(file) == Some((off, stored))
        }),
{
}

/// What is payload of two lists is the payload of both, in order, and an extent is payload
/// exactly if it holds something and lies behind the first page.
pub proof fn lemma_payload_is_picked(a: Seq<(u64, u64)>, b: Seq<(u64, u64)>)
    ensures
        payload_of(a + b) == payload_of(a) + payload_of(b),
        a.len() == 1 && a[0].0 >= 4096 && a[0].1 > 0 ==> payload_of(a) == a,
        a.len() == 1 && (a[0].0 < 4096 || a[0].1 == 0) ==> payload_of(a).len() == 0,
    decreases b.len(),
{
    reveal(Seq::filter);
    reveal_with_fuel(Seq::filter, 2);
    let test = |e: (u64, u64)| e.0 >= 4096 && e.1 > 0;
    if a.len() == 1 {
        assert(a.drop_last() =~= Seq::<(u64, u64)>::empty());
        assert(a.drop_last().filter(test) =~= Seq::<(u64, u64)>::empty());
        if test(a[0]) {
            assert(payload_of(a) =~= a);
        }
    }
    if b.len() == 0 {
        assert(a + b =~= a);
        assert(payload_of(b) =~= Seq::<(u64, u64)>::empty());
        assert(payload_of(a) + payload_of(b) =~= payload_of(a));
    } else {
        let t = b.drop_last();
        lemma_payload_is_picked(a, t);
        assert((a + b).drop_last() =~= a + t);
        assert(payload_of(a + b) =~= payload_of(a) + payload_of(b));
    }
}

/// Aiming and damaging go by the draws that they count as used, to the last of them, and by
/// no others.
pub proof fn lemma_draws_are_counted(
    file: Seq<u8>,
    index: Option<(usize, usize)>,
    payload: Seq<(u64, u64)>,
    model: int,
    off: int,
    a: Seq<u64>,
    b: Seq<u64>,
)
    requires
        0 <= off < file.len(),
        0 <= model < 5,
        a.len() > 48,
        b.len() > 48,
        a[0] == b[0],
    ensures
        aim_used(model) == if model == 4 {
            3int
        } else {
            2
        },
        (forall|i: int| 0 <= i < aim_used(model) ==> a[i] == b[i]) ==> start_of(
            model,
            file.len() as int,
            index,
            payload,
            a,
        ) == start_of(model, file.len() as int, index, payload, b),
        1 <= damage_used(file.len() as int, model, off, a) <= 49,
        model < 2 ==> damage_used(file.len() as int, model, off, a) == 1,
        model >= 2 ==> {
            let used = damage_used(file.len() as int, model, off, a);
            &&& used >= 2
            &&& off + used - 1 <= file.len()
            &&& damaged(file, model, off, a)[off + used - 2] == a[used - 1] % 256
            &&& off + used - 1 < file.len() ==> used == 2 + a[0] % 48
        },
        (forall|i: int|
            0 <= i < damage_used(file.len() as int, model, off, a) ==> a[i] == b[i]) ==> damaged(
            file,
            model,
            off,
            a,
        ) == damaged(file, model, off, b),
{
    if forall|i: int| 0 <= i < damage_used(file.len() as int, model, off, a) ==> a[i] == b[i] {
        assert(damaged(file, model, off, a) =~= damaged(file, model, off, b));
    }
}

} // verus!
