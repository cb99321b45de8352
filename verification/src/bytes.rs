//! Byte strings: their order, their common prefixes, fixed-width integers in
//! them, and the relation "this piece lies at that offset".

use vstd::prelude::*;

verus! {

/// The byte strings behind a slice of owned keys.
pub open spec fn key_seqs(keys: Seq<Vec<u8>>) -> Seq<Seq<u8>> {
    Seq::new(keys.len(), |i: int| keys[i]@)
}

// ------------------------------------------------------- common prefixes --

/// The length of the longest common prefix of two byte strings.
pub open spec fn lcp(a: Seq<u8>, b: Seq<u8>) -> nat
    decreases a.len(),
{
    if a.len() > 0 && b.len() > 0 && a[0] == b[0] {
        1 + lcp(a.drop_first(), b.drop_first())
    } else {
        0
    }
}

/// What the length of the longest common prefix says of the two strings.
pub proof fn lemma_lcp(a: Seq<u8>, b: Seq<u8>)
    ensures
        lcp(a, b) <= a.len(),
        lcp(a, b) <= b.len(),
        forall|i: int| 0 <= i < lcp(a, b) ==> a[i] == b[i],
        lcp(a, b) < a.len() && lcp(a, b) < b.len() ==> a[lcp(a, b) as int] != b[lcp(a, b) as int],
    decreases a.len(),
{
    if a.len() > 0 && b.len() > 0 && a[0] == b[0] {
        let ta = a.drop_first();
        let tb = b.drop_first();
        lemma_lcp(ta, tb);
        assert forall|i: int| 0 <= i < lcp(a, b) implies a[i] == b[i] by {
            if i > 0 {
                assert(ta[i - 1] == tb[i - 1]);
            }
        }
        let p = lcp(ta, tb) as int;
        if p < ta.len() && p < tb.len() {
            assert(a[p + 1] == ta[p]);
            assert(b[p + 1] == tb[p]);
        }
    }
}

/// A common prefix that cannot be extended is the longest one.
pub proof fn lemma_lcp_unique(a: Seq<u8>, b: Seq<u8>, p: nat)
    requires
        p <= a.len(),
        p <= b.len(),
        forall|i: int| 0 <= i < p ==> a[i] == b[i],
        p < a.len() && p < b.len() ==> a[p as int] != b[p as int],
    ensures
        lcp(a, b) == p,
{
    lemma_lcp(a, b);
    let q = lcp(a, b);
    if q < p {
        assert(a[q as int] == b[q as int]);
    }
    if p < q {
        assert(a[p as int] == b[p as int]);
    }
}

/// The length of the longest common prefix of `a` and `b`.
pub fn common_prefix(a: &[u8], b: &[u8]) -> (p: usize)
    ensures
        p == lcp(a@, b@),
{
    let mut p: usize = 0;
    while p < a.len() && p < b.len() && a[p] == b[p]
        invariant
            p <= a.len(),
            p <= b.len(),
            forall|i: int| 0 <= i < p ==> a@[i] == b@[i],
        decreases a.len() - p,
    {
        p = p + 1;
    }
    proof {
        lemma_lcp_unique(a@, b@, p as nat);
    }
    p
}

// ------------------------------------------------------------------ order --

/// Byte strings in dictionary order, a proper prefix before what extends it.
pub open spec fn bytes_lt(a: Seq<u8>, b: Seq<u8>) -> bool {
    let p = lcp(a, b) as int;
    p < b.len() && (p == a.len() || a[p] < b[p])
}

/// `a` is not after `b` in dictionary order.
pub open spec fn bytes_le(a: Seq<u8>, b: Seq<u8>) -> bool {
    !bytes_lt(b, a)
}

/// Every string comes strictly before the one that follows it.
pub open spec fn strictly_sorted(keys: Seq<Seq<u8>>) -> bool {
    forall|i: int, j: int| 0 <= i < j < keys.len() ==> bytes_lt(#[trigger] keys[i], #[trigger] keys[j])
}

/// The longest common prefix does not depend on the order of the arguments.
pub proof fn lemma_lcp_symmetric(a: Seq<u8>, b: Seq<u8>)
    ensures
        lcp(a, b) == lcp(b, a),
{
    lemma_lcp(b, a);
    lemma_lcp_unique(a, b, lcp(b, a));
}

/// Dictionary order is total: exactly one of before, equal and after holds.
pub proof fn lemma_order_total(a: Seq<u8>, b: Seq<u8>)
    ensures
        bytes_lt(a, b) || a == b || bytes_lt(b, a),
        !(bytes_lt(a, b) && bytes_lt(b, a)),
        a == b ==> !bytes_lt(a, b),
{
    lemma_lcp(a, b);
    lemma_lcp_symmetric(a, b);
    let p = lcp(a, b);
    if p == a.len() && p == b.len() {
        assert(a =~= b);
    }
    if a == b {
        lemma_lcp_unique(a, a, a.len());
    }
}

/// Dictionary order is transitive.
pub proof fn lemma_order_transitive(a: Seq<u8>, b: Seq<u8>, c: Seq<u8>)
    requires
        bytes_lt(a, b),
        bytes_lt(b, c),
    ensures
        bytes_lt(a, c),
{
    lemma_lcp(a, b);
    lemma_lcp(b, c);
    let p = lcp(a, b);
    let q = lcp(b, c);
    let m = if p < q { p } else { q };
    assert forall|i: int| 0 <= i < m implies a[i] == c[i] by {
        assert(a[i] == b[i]);
        assert(b[i] == c[i]);
    }
    if p < q {
        assert(b[p as int] == c[p as int]);
    } else if q < p {
        assert(a[q as int] == b[q as int]);
    }
    lemma_lcp_unique(a, c, m);
}

/// Not-after is transitive, and strict as soon as one side is.
pub proof fn lemma_le_transitive(a: Seq<u8>, b: Seq<u8>, c: Seq<u8>)
    requires
        bytes_le(a, b),
        bytes_le(b, c),
    ensures
        bytes_le(a, c),
        bytes_lt(a, b) || bytes_lt(b, c) ==> bytes_lt(a, c),
{
    lemma_order_total(a, b);
    lemma_order_total(b, c);
    lemma_order_total(a, c);
    if bytes_lt(a, b) && bytes_lt(b, c) {
        lemma_order_transitive(a, b, c);
    }
}

/// A string between two others has what those two share.
pub proof fn lemma_between_shares_prefix(a: Seq<u8>, k: Seq<u8>, b: Seq<u8>)
    requires
        bytes_le(a, k),
        bytes_le(k, b),
    ensures
        lcp(a, b) <= k.len(),
        k.take(lcp(a, b) as int) == a.take(lcp(a, b) as int),
        lcp(a, k) >= lcp(a, b),
{
    let p = lcp(a, b) as int;
    lemma_lcp(a, b);
    lemma_lcp(a, k);
    lemma_lcp(k, b);
    lemma_lcp_symmetric(a, k);
    lemma_lcp_symmetric(k, b);
    let q = lcp(a, k) as int;
    let r = lcp(k, b) as int;
    if q < p {
        // They part before the shared prefix ends, so `k` is on the wrong side
        // of `b` as well.
        assert(a[q] == b[q]);
        if q == k.len() {
            assert(bytes_lt(k, a));
        } else {
            assert(a[q] < k[q]);
            assert forall|i: int| 0 <= i < q implies k[i] == b[i] by {
                assert(a[i] == k[i] && a[i] == b[i]);
            }
            lemma_lcp_unique(k, b, q as nat);
            assert(bytes_lt(b, k));
        }
    }
    assert(k.take(p) =~= a.take(p));
}

/// Whether `a` comes strictly before `b` in dictionary order.
pub fn bytes_less(a: &[u8], b: &[u8]) -> (r: bool)
    ensures
        r == bytes_lt(a@, b@),
{
    let p: usize = common_prefix(a, b);
    proof {
        lemma_lcp(a@, b@);
    }
    p < b.len() && (p == a.len() || a[p] < b[p])
}

/// Whether two byte strings are the same.
pub fn bytes_equal(a: &[u8], b: &[u8]) -> (r: bool)
    ensures
        r == (a@ == b@),
{
    if a.len() != b.len() {
        return false;
    }
    let mut i: usize = 0;
    while i < a.len()
        invariant
            i <= a.len(),
            a.len() == b.len(),
            forall|j: int| 0 <= j < i ==> a@[j] == b@[j],
        decreases a.len() - i,
    {
        if a[i] != b[i] {
            return false;
        }
        i = i + 1;
    }
    assert(a@ =~= b@);
    true
}

// ------------------------------------------------------------ bytes lying --

/// `piece` lies in `whole` at offset `at`.
#[verifier::opaque]
pub open spec fn lies_at(whole: Seq<u8>, at: int, piece: Seq<u8>) -> bool {
    &&& 0 <= at
    &&& at + piece.len() <= whole.len()
    &&& whole.subrange(at, at + piece.len()) == piece
}

/// What it means for a piece to lie somewhere.
pub proof fn lemma_lies(whole: Seq<u8>, at: int, piece: Seq<u8>)
    ensures
        lies_at(whole, at, piece) <==> {
            &&& 0 <= at
            &&& at + piece.len() <= whole.len()
            &&& whole.subrange(at, at + piece.len()) == piece
        },
{
    reveal(lies_at);
}

/// Two pieces in a row lie at an offset when each lies in its place.
pub proof fn lemma_lies_split(whole: Seq<u8>, at: int, a: Seq<u8>, b: Seq<u8>)
    ensures
        lies_at(whole, at, a + b) <==> lies_at(whole, at, a) && lies_at(whole, at + a.len(), b),
{
    reveal(lies_at);
    if lies_at(whole, at, a + b) {
        assert(whole.subrange(at, at + a.len()) =~= (a + b).subrange(0, a.len() as int));
        assert((a + b).subrange(0, a.len() as int) =~= a);
        assert(whole.subrange(at + a.len(), at + a.len() + b.len()) =~= (a + b).subrange(
            a.len() as int,
            (a + b).len() as int,
        ));
        assert((a + b).subrange(a.len() as int, (a + b).len() as int) =~= b);
    }
    if lies_at(whole, at, a) && lies_at(whole, at + a.len(), b) {
        assert(whole.subrange(at, at + a.len() + b.len()) =~= whole.subrange(at, at + a.len())
            + whole.subrange(at + a.len(), at + a.len() + b.len()));
    }
}

/// Each of two pieces in a row lies in its place.
pub proof fn lemma_lies_cut(whole: Seq<u8>, at: int, a: Seq<u8>, b: Seq<u8>)
    requires
        lies_at(whole, at, a + b),
    ensures
        lies_at(whole, at, a),
        lies_at(whole, at + a.len(), b),
{
    lemma_lies_split(whole, at, a, b);
}

/// What lies in a string still lies there when the string grows at its end.
pub proof fn lemma_lies_grow(whole: Seq<u8>, more: Seq<u8>, at: int, piece: Seq<u8>)
    requires
        lies_at(whole, at, piece),
    ensures
        lies_at(whole + more, at, piece),
{
    reveal(lies_at);
    assert((whole + more).subrange(at, at + piece.len()) =~= whole.subrange(at, at + piece.len()));
}

/// What lies inside a piece lies inside whatever holds the piece.
pub proof fn lemma_lies_inside(
    whole: Seq<u8>,
    at: int,
    piece: Seq<u8>,
    inner_at: int,
    inner: Seq<u8>,
)
    requires
        lies_at(whole, at, piece),
        lies_at(piece, inner_at, inner),
    ensures
        lies_at(whole, at + inner_at, inner),
{
    reveal(lies_at);
    assert(whole.subrange(at + inner_at, at + inner_at + inner.len()) =~= piece.subrange(
        inner_at,
        inner_at + inner.len(),
    ));
}

/// Appending a piece puts it at the old end.
pub proof fn lemma_lies_append(whole: Seq<u8>, piece: Seq<u8>)
    ensures
        lies_at(whole + piece, whole.len() as int, piece),
{
    reveal(lies_at);
    assert((whole + piece).subrange(whole.len() as int, (whole + piece).len() as int) =~= piece);
}

// -------------------------------------------------- fixed-width integers --

/// `x` as `n` bytes, least significant first.
#[verifier::opaque]
pub open spec fn le_bytes(x: nat, n: nat) -> Seq<u8>
    decreases n,
{
    if n == 0 {
        Seq::empty()
    } else {
        seq![(x % 256) as u8] + le_bytes(x / 256, (n - 1) as nat)
    }
}

/// The number whose bytes, least significant first, are `s`.
pub open spec fn le_value(s: Seq<u8>) -> nat
    decreases s.len(),
{
    if s.len() == 0 {
        0
    } else {
        s[0] as nat + 256 * le_value(s.drop_first())
    }
}

/// Two bytes read back as the number they were written from.
pub proof fn lemma_le16(x: u16)
    ensures
        le_bytes(x as nat, 2) =~= seq![(x % 256) as u8, (x / 256) as u8],
        le_value(le_bytes(x as nat, 2)) == x,
{
    reveal_with_fuel(le_bytes, 3);
    lemma_le_value2(le_bytes(x as nat, 2));
}

/// Four bytes read back as the number they were written from.
pub proof fn lemma_le32(x: u32)
    ensures
        le_bytes(x as nat, 4) =~= seq![
            (x % 256) as u8,
            (x / 256 % 256) as u8,
            (x / 65536 % 256) as u8,
            (x / 16777216) as u8,
        ],
        le_value(le_bytes(x as nat, 4)) == x,
{
    reveal_with_fuel(le_bytes, 5);
    lemma_le_value4(le_bytes(x as nat, 4));
}

/// The value of two bytes.
pub proof fn lemma_le_value2(s: Seq<u8>)
    requires
        s.len() == 2,
    ensures
        le_value(s) == s[0] + 256 * s[1],
{
    reveal_with_fuel(le_value, 3);
}

/// The value of four bytes.
pub proof fn lemma_le_value4(s: Seq<u8>)
    requires
        s.len() == 4,
    ensures
        le_value(s) == s[0] + 256 * s[1] + 65536 * s[2] + 16777216 * s[3],
{
    reveal_with_fuel(le_value, 5);
}

/// The value of eight bytes.
pub proof fn lemma_le_value8(s: Seq<u8>)
    requires
        s.len() == 8,
    ensures
        le_value(s) == s[0] + 0x100 * s[1] + 0x1_0000 * s[2] + 0x100_0000 * s[3] + 0x1_0000_0000
            * s[4] + 0x100_0000_0000 * s[5] + 0x1_0000_0000_0000 * s[6] + 0x100_0000_0000_0000
            * s[7],
{
    reveal_with_fuel(le_value, 9);
}

/// Eight bytes are the four of the low half, then the four of the high half.
proof fn lemma_le64_halves(x: u64)
    ensures
        le_bytes(x as nat, 8) =~= le_bytes((x % 0x1_0000_0000) as nat, 4) + le_bytes(
            (x / 0x1_0000_0000) as nat,
            4,
        ),
{
    let n = x as nat;
    let h = n / 0x1_0000_0000;
    let l = n % 0x1_0000_0000;
    let n1 = n / 256;
    let n2 = n1 / 256;
    let n3 = n2 / 256;
    let l1 = l / 256;
    let l2 = l1 / 256;
    let l3 = l2 / 256;
    assert(n == 0x1_0000_0000 * h + l);
    assert(n1 == 0x100_0000 * h + l1 && n % 256 == l % 256);
    assert(n2 == 0x1_0000 * h + l2 && n1 % 256 == l1 % 256);
    assert(n3 == 0x100 * h + l3 && n2 % 256 == l2 % 256);
    assert(n3 / 256 == h && n3 % 256 == l3);
    reveal(le_bytes);
    assert(le_bytes(n, 8) =~= seq![(l % 256) as u8] + le_bytes(n1, 7));
    assert(le_bytes(n1, 7) =~= seq![(l1 % 256) as u8] + le_bytes(n2, 6));
    assert(le_bytes(n2, 6) =~= seq![(l2 % 256) as u8] + le_bytes(n3, 5));
    assert(le_bytes(n3, 5) =~= seq![(l3 % 256) as u8] + le_bytes(h, 4));
    assert(le_bytes(l, 4) =~= seq![(l % 256) as u8] + le_bytes(l1, 3));
    assert(le_bytes(l1, 3) =~= seq![(l1 % 256) as u8] + le_bytes(l2, 2));
    assert(le_bytes(l2, 2) =~= seq![(l2 % 256) as u8] + le_bytes(l3, 1));
    assert(le_bytes(l3, 1) =~= seq![(l3 % 256) as u8] + le_bytes(l3 / 256, 0));
}

/// Eight bytes read back as the number they were written from.
pub proof fn lemma_le64(x: u64)
    ensures
        le_bytes(x as nat, 8).len() == 8,
        le_value(le_bytes(x as nat, 8)) == x,
{
    lemma_le64_halves(x);
    let s = le_bytes(x as nat, 8);
    let low = (x % 0x1_0000_0000) as u32;
    let high = (x / 0x1_0000_0000) as u32;
    lemma_le32(low);
    lemma_le32(high);
    lemma_le_value8(s);
    lemma_le_value4(le_bytes(low as nat, 4));
    lemma_le_value4(le_bytes(high as nat, 4));
}

/// Appends two bytes, least significant first.
pub fn push_le16(out: &mut Vec<u8>, x: u16)
    ensures
        final(out)@ == old(out)@ + le_bytes(x as nat, 2),
{
    proof {
        lemma_le16(x);
    }
    out.push((x % 256) as u8);
    out.push((x / 256) as u8);
}

/// Appends four bytes, least significant first.
pub fn push_le32(out: &mut Vec<u8>, x: u32)
    ensures
        final(out)@ == old(out)@ + le_bytes(x as nat, 4),
{
    proof {
        lemma_le32(x);
    }
    out.push((x % 256) as u8);
    out.push((x / 256 % 256) as u8);
    out.push((x / 65536 % 256) as u8);
    out.push((x / 16777216) as u8);
}

/// Appends eight bytes, least significant first.
pub fn push_le64(out: &mut Vec<u8>, x: u64)
    ensures
        final(out)@ == old(out)@ + le_bytes(x as nat, 8),
{
    proof {
        lemma_le64_halves(x);
    }
    push_le32(out, (x % 0x1_0000_0000) as u32);
    push_le32(out, (x / 0x1_0000_0000) as u32);
    proof {
        assert(out@ =~= old(out)@ + le_bytes(x as nat, 8));
    }
}

/// The two bytes at `at`, least significant first.
pub fn read_le16(buf: &[u8], at: usize) -> (x: u16)
    requires
        at + 2 <= buf@.len(),
    ensures
        x == le_value(buf@.subrange(at as int, at + 2)),
{
    proof {
        lemma_le_value2(buf@.subrange(at as int, at + 2));
    }
    buf[at] as u16 + 256 * (buf[at + 1] as u16)
}

/// The four bytes at `at`, least significant first.
pub fn read_le32(buf: &[u8], at: usize) -> (x: u32)
    requires
        at + 4 <= buf@.len(),
    ensures
        x == le_value(buf@.subrange(at as int, at + 4)),
{
    proof {
        lemma_le_value4(buf@.subrange(at as int, at + 4));
    }
    buf[at] as u32 + 256 * (buf[at + 1] as u32) + 65536 * (buf[at + 2] as u32) + 16777216 * (buf[at
        + 3] as u32)
}

/// The eight bytes at `at`, least significant first.
pub fn read_le64(buf: &[u8], at: usize) -> (x: u64)
    requires
        at + 8 <= buf@.len(),
    ensures
        x == le_value(buf@.subrange(at as int, at + 8)),
{
    proof {
        lemma_le_value8(buf@.subrange(at as int, at + 8));
    }
    let n: usize = buf.len();
    assert(at + 8 <= n);
    let low: u64 = read_le32(buf, at) as u64;
    let high: u64 = read_le32(buf, at + 4) as u64;
    proof {
        lemma_le_value4(buf@.subrange(at as int, at + 4));
        lemma_le_value4(buf@.subrange(at + 4, at + 8));
    }
    low + 0x1_0000_0000 * high
}

/// Appends a byte string.
pub fn push_bytes(out: &mut Vec<u8>, s: &[u8])
    ensures
        final(out)@ == old(out)@ + s@,
{
    out.extend_from_slice(s);
    proof {
        assert(out@ =~= old(out)@ + s@);
    }
}

/// An owned copy of a byte string.
pub fn to_owned(s: &[u8]) -> (v: Vec<u8>)
    ensures
        v@ == s@,
{
    let mut v: Vec<u8> = Vec::with_capacity(s.len());
    push_bytes(&mut v, s);
    proof {
        assert(v@ =~= s@);
    }
    v
}

} // verus!
