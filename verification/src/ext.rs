//! How an extent is written: as four variable-length integers, or as four
//! fixed little-endian words.

use crate::bytes::{
    le_bytes, le_value, lemma_le16, lemma_le32, lemma_lies, lemma_lies_split, lies_at, push_le32, read_le16, read_le32,
};
use crate::layout::Ext4;
use crate::varint::{get_uv, lemma_uv_round_trip, put_uv, uv_bytes};
use vstd::prelude::*;
use vstd::slice::slice_subrange;

verus! {

/// The bytes of an extent: fixed words, or variable-length integers.
#[verifier::opaque]
pub open spec fn ext_bytes(e: Ext4, fixed: bool) -> Seq<u8> {
    if fixed {
        le_bytes(e.block as nat, 4) + (le_bytes(e.off as nat, 4) + (le_bytes(e.len as nat, 4)
            + le_bytes(e.last as nat, 4)))
    } else {
        uv_bytes(e.block as nat) + (uv_bytes(e.off as nat) + (uv_bytes(e.len as nat) + uv_bytes(
            e.last as nat,
        )))
    }
}

/// An extent takes at least four bytes, and sixteen when its words are fixed.
pub proof fn lemma_ext_bytes_len(e: Ext4, fixed: bool)
    ensures
        ext_bytes(e, fixed).len() >= 4,
        fixed ==> ext_bytes(e, fixed).len() == 16,
{
    reveal(ext_bytes);
    lemma_le32(e.block);
    lemma_le32(e.off);
    lemma_le32(e.len);
    lemma_le32(e.last);
    crate::varint::lemma_uv_bytes_shape(e.block as nat);
    crate::varint::lemma_uv_bytes_shape(e.off as nat);
    crate::varint::lemma_uv_bytes_shape(e.len as nat);
    crate::varint::lemma_uv_bytes_shape(e.last as nat);
}

/// Two extents that lie at the same place are the same.
pub proof fn lemma_ext_unique(buf: Seq<u8>, p: int, fixed: bool, x: Ext4, y: Ext4)
    requires
        lies_at(buf, p, ext_bytes(x, fixed)),
        lies_at(buf, p, ext_bytes(y, fixed)),
    ensures
        x == y,
{
    reveal(ext_bytes);
    if fixed {
        lemma_words_lie(buf, p, x);
        lemma_words_lie(buf, p, y);
    } else {
        let (a, b, c, d) = (
            uv_bytes(x.block as nat),
            uv_bytes(x.off as nat),
            uv_bytes(x.len as nat),
            uv_bytes(x.last as nat),
        );
        let (e, f, g, h) = (
            uv_bytes(y.block as nat),
            uv_bytes(y.off as nat),
            uv_bytes(y.len as nat),
            uv_bytes(y.last as nat),
        );
        lemma_lies_split(buf, p, a, b + (c + d));
        lemma_lies_split(buf, p, e, f + (g + h));
        lemma_uv_round_trip(buf, p, x.block as u64);
        lemma_uv_round_trip(buf, p, y.block as u64);
        lemma_lies_split(buf, p + a.len(), b, c + d);
        lemma_lies_split(buf, p + a.len(), f, g + h);
        lemma_uv_round_trip(buf, p + a.len(), x.off as u64);
        lemma_uv_round_trip(buf, p + a.len(), y.off as u64);
        lemma_lies_split(buf, p + a.len() + b.len(), c, d);
        lemma_lies_split(buf, p + a.len() + b.len(), g, h);
        lemma_uv_round_trip(buf, p + a.len() + b.len(), x.len as u64);
        lemma_uv_round_trip(buf, p + a.len() + b.len(), y.len as u64);
        lemma_uv_round_trip(buf, p + a.len() + b.len() + c.len(), x.last as u64);
        lemma_uv_round_trip(buf, p + a.len() + b.len() + c.len(), y.last as u64);
    }
}

/// Where the four fixed words of an extent lie, and what they read as.
proof fn lemma_words_lie(buf: Seq<u8>, p: int, e: Ext4)
    requires
        lies_at(buf, p, ext_bytes(e, true)),
    ensures
        p + 16 <= buf.len(),
        lies_at(buf, p, le_bytes(e.block as nat, 4)),
        lies_at(buf, p + 4, le_bytes(e.off as nat, 4)),
        lies_at(buf, p + 8, le_bytes(e.len as nat, 4)),
        lies_at(buf, p + 12, le_bytes(e.last as nat, 4)),
        le_value(buf.subrange(p, p + 4)) == e.block,
        le_value(buf.subrange(p + 4, p + 8)) == e.off,
        le_value(buf.subrange(p + 8, p + 12)) == e.len,
        le_value(buf.subrange(p + 12, p + 16)) == e.last,
{
    let (a, b, c, d) = (
        le_bytes(e.block as nat, 4),
        le_bytes(e.off as nat, 4),
        le_bytes(e.len as nat, 4),
        le_bytes(e.last as nat, 4),
    );
    lemma_le32(e.block);
    lemma_le32(e.off);
    lemma_le32(e.len);
    lemma_le32(e.last);
    reveal(ext_bytes);
    lemma_lies_split(buf, p, a, b + (c + d));
    lemma_lies_split(buf, p + 4, b, c + d);
    lemma_lies_split(buf, p + 8, c, d);
    lemma_lies(buf, p, a);
    lemma_lies(buf, p + 4, b);
    lemma_lies(buf, p + 8, c);
    lemma_lies(buf, p + 12, d);
}

/// Appends an extent.
pub fn put_ext(out: &mut Vec<u8>, e: Ext4, fixed: bool)
    ensures
        final(out)@ == old(out)@ + ext_bytes(e, fixed),
{
    if fixed {
        push_le32(out, e.block);
        push_le32(out, e.off);
        push_le32(out, e.len);
        push_le32(out, e.last);
    } else {
        put_uv(out, e.block as u64);
        put_uv(out, e.off as u64);
        put_uv(out, e.len as u64);
        put_uv(out, e.last as u64);
    }
    proof {
        reveal(ext_bytes);
        assert(out@ =~= old(out)@ + ext_bytes(e, fixed));
    }
}

/// Reads a number that is known to lie at `*p`, and moves past it.
pub(crate) fn get_known_uv(buf: &[u8], p: &mut usize, Ghost(x): Ghost<u64>) -> (v: u64)
    requires
        lies_at(buf@, *old(p) as int, uv_bytes(x as nat)),
    ensures
        v == x,
        *final(p) == *old(p) + uv_bytes(x as nat).len(),
{
    proof {
        lemma_uv_round_trip(buf@, *p as int, x);
    }
    get_uv(buf, p)
}

/// Reads a word that is known to lie at `at`.
pub(crate) fn get_known_le32(buf: &[u8], at: usize, Ghost(x): Ghost<u32>) -> (v: u32)
    requires
        lies_at(buf@, at as int, le_bytes(x as nat, 4)),
    ensures
        v == x,
{
    proof {
        lemma_le32(x);
        lemma_lies(buf@, at as int, le_bytes(x as nat, 4));
    }
    read_le32(buf, at)
}

/// Reads sixteen bits that are known to lie at `at`.
pub(crate) fn get_known_le16(buf: &[u8], at: usize, Ghost(x): Ghost<u16>) -> (v: u16)
    requires
        lies_at(buf@, at as int, le_bytes(x as nat, 2)),
    ensures
        v == x,
{
    proof {
        lemma_le16(x);
        lemma_lies(buf@, at as int, le_bytes(x as nat, 2));
    }
    read_le16(buf, at)
}

/// The bytes that are known to lie at `at`.
pub(crate) fn get_known_bytes<'a>(buf: &'a [u8], at: usize, n: usize, Ghost(s): Ghost<Seq<u8>>) -> (r:
    &'a [u8])
    requires
        lies_at(buf@, at as int, s),
        s.len() == n,
    ensures
        r@ == s,
{
    proof {
        lemma_lies(buf@, at as int, s);
        assert(buf@.len() == buf.len());
    }
    slice_subrange(buf, at, at + n)
}

/// Reads the extent that is known to lie at `p`, and says where it ends.
pub(crate) fn get_ext(buf: &[u8], p: usize, fixed: bool, Ghost(e): Ghost<Ext4>) -> (r: (Ext4, usize))
    requires
        lies_at(buf@, p as int, ext_bytes(e, fixed)),
    ensures
        r.0 == e,
        r.1 == p + ext_bytes(e, fixed).len(),
{
    proof {
        lemma_ext_bytes_len(e, fixed);
        lemma_lies(buf@, p as int, ext_bytes(e, fixed));
        reveal(ext_bytes);
        assert(buf@.len() == buf.len());
    }
    if fixed {
        proof {
            lemma_words_lie(buf@, p as int, e);
        }
        let block: u32 = get_known_le32(buf, p, Ghost(e.block));
        let off: u32 = get_known_le32(buf, p + 4, Ghost(e.off));
        let len: u32 = get_known_le32(buf, p + 8, Ghost(e.len));
        let last: u32 = get_known_le32(buf, p + 12, Ghost(e.last));
        (Ext4 { block, off, len, last }, p + 16)
    } else {
        let mut q: usize = p;
        proof {
            let (a, b, c, d) = (
                uv_bytes(e.block as nat),
                uv_bytes(e.off as nat),
                uv_bytes(e.len as nat),
                uv_bytes(e.last as nat),
            );
            lemma_lies_split(buf@, p as int, a, b + (c + d));
            lemma_lies_split(buf@, p + a.len(), b, c + d);
            lemma_lies_split(buf@, p + a.len() + b.len(), c, d);
        }
        let block: u32 = get_known_uv(buf, &mut q, Ghost(e.block as u64)) as u32;
        let off: u32 = get_known_uv(buf, &mut q, Ghost(e.off as u64)) as u32;
        let len: u32 = get_known_uv(buf, &mut q, Ghost(e.len as u64)) as u32;
        let last: u32 = get_known_uv(buf, &mut q, Ghost(e.last as u64)) as u32;
        (Ext4 { block, off, len, last }, q)
    }
}

/// An extent takes at most twenty bytes.
pub proof fn lemma_ext_bytes_most(e: Ext4, fixed: bool)
    ensures
        ext_bytes(e, fixed).len() <= 20,
{
    reveal(ext_bytes);
    lemma_ext_bytes_len(e, fixed);
    vstd::arithmetic::power2::lemma2_to64();
    assert(vstd::arithmetic::power2::pow2(35) == 0x8_0000_0000) by {
        vstd::arithmetic::power2::lemma2_to64_rest();
    }
    crate::varint::lemma_uv_bytes_len(e.block as nat, 5);
    crate::varint::lemma_uv_bytes_len(e.off as nat, 5);
    crate::varint::lemma_uv_bytes_len(e.len as nat, 5);
    crate::varint::lemma_uv_bytes_len(e.last as nat, 5);
}

} // verus!
