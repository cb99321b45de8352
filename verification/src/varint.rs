//! Unsigned integers in groups of seven bits, least significant group first,
//! the high bit of a byte saying that another follows.

use vstd::arithmetic::power2::{lemma_pow2_adds, lemma_pow2_strictly_increases, pow2};
use vstd::bits::lemma_u64_shl_is_mul;
use vstd::prelude::*;

verus! {

/// The encoding of `x`.
pub open spec fn uv_bytes(x: nat) -> Seq<u8>
    decreases x,
{
    if x < 128 {
        seq![x as u8]
    } else {
        seq![(x % 128 + 128) as u8] + uv_bytes(x / 128)
    }
}

/// The number that a run of groups stands for, whatever their high bits say.
pub open spec fn uv_value(s: Seq<u8>) -> nat
    decreases s.len(),
{
    if s.len() == 0 {
        0
    } else {
        (s[0] % 128) as nat + 128 * uv_value(s.drop_first())
    }
}

/// How many bytes a read at the start of `s` consumes: up to and including the
/// first byte without the high bit, and never more than `most` or all of `s`.
pub open spec fn uv_taken(s: Seq<u8>, most: nat) -> nat
    decreases most,
{
    if s.len() == 0 || most == 0 {
        0
    } else if s[0] < 128 {
        1
    } else {
        1 + uv_taken(s.drop_first(), (most - 1) as nat)
    }
}

/// The most bytes that a read consumes: ten groups cover sixty-four bits.
pub const UV_MOST: usize = 10;

/// The bytes of `buf` from offset `p` on; none when `p` is past the end.
pub open spec fn tail(buf: Seq<u8>, p: int) -> Seq<u8> {
    if 0 <= p <= buf.len() {
        buf.subrange(p, buf.len() as int)
    } else {
        Seq::empty()
    }
}

/// A read never consumes more than there is, nor more than the most.
pub proof fn lemma_uv_taken_bound(s: Seq<u8>, most: nat)
    ensures
        uv_taken(s, most) <= s.len(),
        uv_taken(s, most) <= most,
    decreases most,
{
    if s.len() > 0 && most > 0 && s[0] >= 128 {
        lemma_uv_taken_bound(s.drop_first(), (most - 1) as nat);
    }
}

/// The value of a run of groups grows by the new group's weight.
proof fn lemma_uv_value_push(s: Seq<u8>, b: u8)
    ensures
        uv_value(s.push(b)) == uv_value(s) + (b % 128) as nat * pow2(7 * s.len()),
    decreases s.len(),
{
    assert(s.push(b)[0] == if s.len() == 0 { b } else { s[0] });
    if s.len() == 0 {
        assert(s.push(b).drop_first() =~= s);
        assert(uv_value(s) == 0);
        assert(pow2(7 * s.len()) == 1) by {
            vstd::arithmetic::power2::lemma2_to64();
        }
    } else {
        let t = s.drop_first();
        assert(s.push(b).drop_first() =~= t.push(b));
        lemma_uv_value_push(t, b);
        let c = (b % 128) as nat;
        let w = pow2(7 * t.len());
        lemma_pow2_adds(7, 7 * t.len());
        assert(pow2(7) == 128) by {
            vstd::arithmetic::power2::lemma2_to64();
        }
        assert(7 + 7 * t.len() == 7 * s.len());
        assert(128 * (c * w) == c * (128 * w)) by (nonlinear_arith);
    }
}

/// Or-ing a group in above the bits that are already there adds its weight.
proof fn lemma_or_group(v: u64, c: u64, sh: u64)
    requires
        sh <= 56,
        c < 128,
        v < pow2(sh as nat),
    ensures
        v | (c << sh) == v + c * pow2(sh as nat),
        v + c * pow2(sh as nat) < pow2((sh + 7) as nat),
        pow2((sh + 7) as nat) <= pow2(63),
{
    let w = pow2(sh as nat);
    vstd::arithmetic::power2::lemma2_to64();
    vstd::arithmetic::power2::lemma2_to64_rest();
    if sh < 56 {
        lemma_pow2_strictly_increases(sh as nat, 56);
        lemma_pow2_strictly_increases((sh + 7) as nat, 63);
    }
    assert(1 * w <= 0x100_0000_0000_0000);
    assert(c * w <= 127 * 0x100_0000_0000_0000) by (nonlinear_arith)
        requires
            c <= 127,
            w <= 0x100_0000_0000_0000,
    ;
    lemma_u64_shl_is_mul(1, sh);
    lemma_u64_shl_is_mul(c, sh);
    assert(v | (c << sh) == v + (c << sh)) by (bit_vector)
        requires
            sh <= 56,
            c < 128,
            v < (1u64 << sh),
    ;
    lemma_pow2_adds(7, sh as nat);
    assert(v + c * w < 128 * w) by (nonlinear_arith)
        requires
            v < w,
            c <= 127,
    ;
}

/// Appends the encoding of `v` to `out`.
pub fn put_uv(out: &mut Vec<u8>, v: u64)
    ensures
        final(out)@ == old(out)@ + uv_bytes(v as nat),
{
    let mut v: u64 = v;
    let ghost v0 = v as nat;
    while v >= 0x80
        invariant
            old(out)@ + uv_bytes(v0) == out@ + uv_bytes(v as nat),
        decreases v,
    {
        let ghost before = out@;
        out.push((v % 128 + 128) as u8);
        proof {
            let w = v as nat;
            assert(uv_bytes(w) == seq![(w % 128 + 128) as u8] + uv_bytes(w / 128));
            assert(before + uv_bytes(w) =~= out@ + uv_bytes(w / 128));
        }
        v = v / 128;
    }
    out.push(v as u8);
    proof {
        assert(out@ =~= old(out)@ + uv_bytes(v0));
    }
}

/// Reads one number from `buf` at `*p` and moves `*p` past what was consumed.
///
/// The bytes consumed are those up to and including the first one without the
/// high bit, ten at the most, and no more than there are. Bits beyond the
/// sixty-fourth are dropped.
pub fn get_uv(buf: &[u8], p: &mut usize) -> (v: u64)
    ensures
        *final(p) == *old(p) + uv_taken(tail(buf@, *old(p) as int), UV_MOST as nat),
        v == uv_value(
            tail(buf@, *old(p) as int).take(
                uv_taken(tail(buf@, *old(p) as int), UV_MOST as nat) as int,
            ),
        ) % pow2(64),
{
    let mut v: u64 = 0;
    let mut shift: u64 = 0;
    let ghost start = *p as int;
    let ghost whole = tail(buf@, start);
    let ghost mut i: nat = 0;
    proof {
        vstd::arithmetic::power2::lemma2_to64();
        vstd::arithmetic::power2::lemma2_to64_rest();
        lemma_uv_taken_bound(whole, UV_MOST as nat);
        assert(whole.take(0) =~= Seq::<u8>::empty());
        assert(whole.skip(0) =~= whole);
    }
    while *p < buf.len()
        invariant
            *p == start + i,
            i <= 9,
            shift == 7 * i,
            whole == tail(buf@, start),
            i > 0 ==> start + i <= buf@.len(),
            i <= whole.len(),
            v < pow2(shift as nat),
            v == uv_value(whole.take(i as int)),
            uv_taken(whole, UV_MOST as nat) == i + uv_taken(
                whole.skip(i as int),
                (UV_MOST - i) as nat,
            ),
            pow2(64) == 0x1_0000_0000_0000_0000,
            pow2(63) == 0x8000_0000_0000_0000,
            0 <= start,
            *old(p) == start,
        decreases buf.len() - *p,
    {
        let b: u8 = buf[*p];
        let c: u64 = (b % 128) as u64;
        let ghost before = v;
        assert(whole.skip(i as int)[0] == b);
        proof {
            assert(whole.take(i as int).push(b) =~= whole.take(i as int + 1));
            lemma_uv_value_push(whole.take(i as int), b);
            assert(whole.skip(i as int).drop_first() =~= whole.skip(i as int + 1));
            if shift <= 56 {
                lemma_or_group(v, c, shift);
            } else {
                assert(v | (c << 63u64) == v + (c % 2) * 0x8000_0000_0000_0000) by (bit_vector)
                    requires
                        v < 0x8000_0000_0000_0000,
                        c < 128,
                ;
                assert((v + c * 0x8000_0000_0000_0000) % 0x1_0000_0000_0000_0000 == v + (c % 2)
                    * 0x8000_0000_0000_0000);
            }
        }
        *p = *p + 1;
        v = v | (c << shift);
        if b < 0x80 {
            return v;
        }
        shift = shift + 7;
        proof {
            i = i + 1;
        }
        if shift >= 64 {
            return v;
        }
    }
    proof {
        assert(whole.skip(i as int).len() == 0);
        lemma_pow2_strictly_increases(shift as nat, 64);
    }
    v
}

/// The encoding is never empty, and every byte but its last says that another
/// follows.
pub proof fn lemma_uv_bytes_shape(x: nat)
    ensures
        uv_bytes(x).len() >= 1,
        uv_bytes(x).last() < 128,
        forall|i: int| 0 <= i < uv_bytes(x).len() - 1 ==> uv_bytes(x)[i] >= 128,
        uv_value(uv_bytes(x)) == x,
    decreases x,
{
    if x < 128 {
        assert(uv_bytes(x).drop_first() =~= Seq::<u8>::empty());
        assert(uv_value(Seq::<u8>::empty()) == 0);
    } else {
        lemma_uv_bytes_shape(x / 128);
        assert(uv_bytes(x).drop_first() =~= uv_bytes(x / 128));
        let b = (x % 128 + 128) as u8;
        assert(b % 128 == x % 128);
    }
}

/// The encoding takes a byte for every seven bits, at the most.
pub proof fn lemma_uv_bytes_len(x: nat, n: nat)
    requires
        n >= 1,
        x < pow2(7 * n),
    ensures
        uv_bytes(x).len() <= n,
    decreases n,
{
    vstd::arithmetic::power2::lemma2_to64();
    if x >= 128 {
        assert(n > 1);
        lemma_pow2_adds(7, (7 * (n - 1)) as nat);
        lemma_uv_bytes_len(x / 128, (n - 1) as nat);
    }
}

/// A read at the start of an encoding consumes exactly that encoding.
proof fn lemma_uv_taken_encoding(x: nat, rest: Seq<u8>, most: nat)
    requires
        uv_bytes(x).len() <= most,
    ensures
        uv_taken(uv_bytes(x) + rest, most) == uv_bytes(x).len(),
    decreases x,
{
    lemma_uv_bytes_shape(x);
    if x >= 128 {
        assert((uv_bytes(x) + rest).drop_first() =~= uv_bytes(x / 128) + rest);
        lemma_uv_taken_encoding(x / 128, rest, (most - 1) as nat);
    }
}

/// What was written reads back: where the encoding of a `u64` lies, a read
/// there gives that number and stops right behind the encoding.
pub proof fn lemma_uv_round_trip(buf: Seq<u8>, at: int, x: u64)
    requires
        crate::bytes::lies_at(buf, at, uv_bytes(x as nat)),
    ensures
        uv_taken(tail(buf, at), UV_MOST as nat) == uv_bytes(x as nat).len(),
        uv_value(tail(buf, at).take(uv_taken(tail(buf, at), UV_MOST as nat) as int)) % pow2(64)
            == x,
{
    let e = uv_bytes(x as nat);
    crate::bytes::lemma_lies(buf, at, e);
    vstd::arithmetic::power2::lemma2_to64();
    vstd::arithmetic::power2::lemma2_to64_rest();
    lemma_pow2_strictly_increases(64, 70);
    lemma_uv_bytes_len(x as nat, 10);
    let rest = buf.subrange(at + e.len(), buf.len() as int);
    assert(tail(buf, at) =~= e + rest) by {
        assert(buf.subrange(at, at + e.len()) =~= e);
        assert forall|i: int| 0 <= i < e.len() implies tail(buf, at)[i] == e[i] by {
            assert(buf.subrange(at, at + e.len())[i] == e[i]);
        }
    }
    lemma_uv_taken_encoding(x as nat, rest, UV_MOST as nat);
    assert((e + rest).take(e.len() as int) =~= e);
    lemma_uv_bytes_shape(x as nat);
}

} // verus!
