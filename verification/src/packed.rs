//! Sorted keys, each stored as what it adds to the one before, with every
//! sixteenth stored whole. A search runs over those restarts by an eight-byte
//! prefix and reads the bytes only where two prefixes tie.

use crate::bytes::{
    bytes_equal, bytes_le, bytes_less, bytes_lt, common_prefix, lcp, lemma_between_shares_prefix,
    lemma_lcp, lemma_lcp_unique, lemma_le_transitive, lemma_lies, lemma_lies_append,
    lemma_lies_cut, lemma_lies_grow, lemma_order_total, lies_at, push_bytes, strictly_sorted,
};
use crate::ext::{ext_bytes, get_ext, get_known_bytes, get_known_uv, lemma_ext_bytes_len, put_ext};
use crate::flat::RESTART_EVERY;
use crate::layout::{
    entries_of, first_match, keys_of, lemma_first_match_none, own_byte, scan_end, sum_range, Entry, Ext4,
    Layout,
};
use crate::prefix::{lemma_prefix8_order, prefix8, prefix8_of};
use crate::varint::{lemma_uv_bytes_shape, put_uv, uv_bytes};
use crate::memory::{bytes_of, shrink, Memory, Rooms, Scale, Weighed};
use vstd::layout::size_of;
use vstd::prelude::*;
use vstd::slice::slice_subrange;

verus! {

/// The longest key that a lookup decodes.
pub const KEY_LIMIT: usize = 128;

// --------------------------------------------------------------- records --

/// How many bytes entry `i` takes over from the one before: none at a restart.
pub open spec fn shared_of(es: Seq<Entry>, i: int) -> nat {
    if i % 16 == 0 {
        0
    } else {
        lcp(es[i].0, es[i - 1].0)
    }
}

/// What entry `i` adds to the bytes that it takes over.
pub open spec fn suffix_of(es: Seq<Entry>, i: int) -> Seq<u8> {
    es[i].0.subrange(shared_of(es, i) as int, es[i].0.len() as int)
}

/// The record of entry `i`: bytes taken over, bytes added, the added bytes, the
/// extent.
pub open spec fn packed_record(es: Seq<Entry>, i: int) -> Seq<u8> {
    uv_bytes(shared_of(es, i)) + (uv_bytes(suffix_of(es, i).len()) + (suffix_of(es, i) + ext_bytes(
        es[i].1,
        false,
    )))
}

/// The first `n` records in a row.
#[verifier::opaque]
pub open spec fn packed_blob(es: Seq<Entry>, n: nat) -> Seq<u8>
    decreases n,
{
    if n == 0 {
        Seq::empty()
    } else {
        packed_blob(es, (n - 1) as nat) + packed_record(es, n - 1)
    }
}

/// Where record `i` starts.
pub open spec fn packed_off(es: Seq<Entry>, i: int) -> int {
    packed_blob(es, i as nat).len() as int
}

/// What an entry takes over is no longer than its key.
proof fn lemma_shared(es: Seq<Entry>, i: int)
    requires
        0 <= i < es.len(),
    ensures
        shared_of(es, i) <= es[i].0.len(),
        suffix_of(es, i).len() == es[i].0.len() - shared_of(es, i),
{
    if i % 16 != 0 {
        lemma_lcp(es[i].0, es[i - 1].0);
    }
}

/// Each record lies where the ones before it end.
proof fn lemma_packed_lies(es: Seq<Entry>, n: nat, i: int)
    requires
        0 <= i < n <= es.len(),
    ensures
        lies_at(packed_blob(es, n), packed_off(es, i), packed_record(es, i)),
        packed_off(es, i) + packed_record(es, i).len() == packed_off(es, i + 1),
        packed_off(es, i + 1) <= packed_blob(es, n).len(),
        packed_record(es, i).len() >= 6,
    decreases n,
{
    reveal(packed_blob);
    let before = packed_blob(es, (n - 1) as nat);
    let rec = packed_record(es, n - 1);
    lemma_uv_bytes_shape(shared_of(es, i));
    lemma_uv_bytes_shape(suffix_of(es, i).len());
    lemma_ext_bytes_len(es[i].1, false);
    if i == n - 1 {
        lemma_lies_append(before, rec);
    } else {
        lemma_packed_lies(es, (n - 1) as nat, i);
        lemma_lies_grow(before, rec, packed_off(es, i), packed_record(es, i));
    }
}

/// Six bytes a record bound the number of records.
proof fn lemma_packed_count(es: Seq<Entry>, n: nat)
    requires
        n <= es.len(),
    ensures
        6 * n <= packed_blob(es, n).len(),
    decreases n,
{
    if n > 0 {
        lemma_packed_count(es, (n - 1) as nat);
        lemma_packed_lies(es, n, n - 1);
    }
}

/// Records further on start further on.
proof fn lemma_packed_off_order(es: Seq<Entry>, i: int, j: int)
    requires
        0 <= i <= j <= es.len(),
    ensures
        packed_off(es, i) + 6 * (j - i) <= packed_off(es, j),
    decreases j - i,
{
    if i < j {
        lemma_packed_off_order(es, i, j - 1);
        lemma_packed_lies(es, j as nat, j - 1);
    }
}

/// The parts of record `i`, by where they lie.
spec fn record_parts(blob: Seq<u8>, es: Seq<Entry>, i: int) -> bool {
    let off = packed_off(es, i);
    let a = uv_bytes(shared_of(es, i));
    let b = uv_bytes(suffix_of(es, i).len());
    let s = suffix_of(es, i);
    let x = ext_bytes(es[i].1, false);
    &&& lies_at(blob, off, a)
    &&& lies_at(blob, off + a.len(), b)
    &&& lies_at(blob, off + a.len() + b.len(), s)
    &&& lies_at(blob, off + a.len() + b.len() + s.len(), x)
    &&& off + a.len() + b.len() + s.len() + x.len() == packed_off(es, i + 1)
    &&& packed_off(es, i + 1) <= blob.len()
    &&& s.len() + shared_of(es, i) == es[i].0.len()
    &&& shared_of(es, i) <= es[i].0.len()
}

proof fn lemma_record_parts(es: Seq<Entry>, n: nat, i: int)
    requires
        0 <= i < n <= es.len(),
    ensures
        record_parts(packed_blob(es, n), es, i),
{
    let blob = packed_blob(es, n);
    let off = packed_off(es, i);
    let a = uv_bytes(shared_of(es, i));
    let b = uv_bytes(suffix_of(es, i).len());
    let s = suffix_of(es, i);
    let x = ext_bytes(es[i].1, false);
    lemma_packed_lies(es, n, i);
    lemma_shared(es, i);
    lemma_lies_cut(blob, off, a, b + (s + x));
    lemma_lies_cut(blob, off + a.len(), b, s + x);
    lemma_lies_cut(blob, off + a.len() + b.len(), s, x);
}

// -------------------------------------------------------------- restarts --

/// How many bytes all the keys share, by their first and last.
pub open spec fn common_len(es: Seq<Entry>) -> nat {
    if es.len() == 0 {
        0
    } else {
        lcp(es[0].0, es.last().0)
    }
}

/// What is left of a key behind `n` bytes.
pub open spec fn behind(key: Seq<u8>, n: nat) -> Seq<u8> {
    if n <= key.len() {
        key.subrange(n as int, key.len() as int)
    } else {
        Seq::empty()
    }
}

/// The key of restart `r`.
pub open spec fn restart_key_of(es: Seq<Entry>, r: int) -> Seq<u8> {
    es[16 * r].0
}

/// The prefix number of restart `r`: of its key behind what all keys share.
pub open spec fn restart_prefix(es: Seq<Entry>, r: int) -> nat {
    prefix8_of(behind(restart_key_of(es, r), common_len(es)))
}

/// How many restarts `n` entries have.
pub open spec fn restart_count(n: int) -> int {
    (n + 15) / 16
}

/// The last of the first `m` restarts whose key is not after `key`.
pub open spec fn last_restart(es: Seq<Entry>, m: int, key: Seq<u8>) -> Option<int>
    decreases m,
{
    if m <= 0 {
        None
    } else if bytes_le(restart_key_of(es, m - 1), key) {
        Some(m - 1)
    } else {
        last_restart(es, m - 1, key)
    }
}

/// A restart that is not after the key, with only later ones behind it, is the
/// last.
proof fn lemma_last_restart_at(es: Seq<Entry>, m: int, key: Seq<u8>, r: int)
    requires
        0 <= r < m,
        bytes_le(restart_key_of(es, r), key),
        forall|q: int| r < q < m ==> !bytes_le(#[trigger] restart_key_of(es, q), key),
    ensures
        last_restart(es, m, key) == Some(r),
    decreases m,
{
    if r < m - 1 {
        assert(!bytes_le(restart_key_of(es, m - 1), key));
        lemma_last_restart_at(es, m - 1, key, r);
    }
}

/// Where every restart is after the key there is none.
proof fn lemma_last_restart_none(es: Seq<Entry>, m: int, key: Seq<u8>)
    requires
        forall|q: int| 0 <= q < m ==> !bytes_le(#[trigger] restart_key_of(es, q), key),
    ensures
        last_restart(es, m, key) is None,
    decreases m,
{
    if m > 0 {
        assert(!bytes_le(restart_key_of(es, m - 1), key));
        lemma_last_restart_none(es, m - 1, key);
    }
}

/// What is found on the way from entry `i` up to `stop`: the key's extent,
/// unless a key of more bytes than a lookup decodes comes first.
pub open spec fn walk(es: Seq<Entry>, i: int, stop: int, key: Seq<u8>) -> Option<Ext4>
    decreases stop - i,
{
    if i >= stop || es[i].0.len() > KEY_LIMIT {
        None
    } else if es[i].0 == key {
        Some(es[i].1)
    } else if bytes_lt(key, es[i].0) {
        None
    } else {
        walk(es, i + 1, stop, key)
    }
}

/// Where the records of restart `r` end.
pub open spec fn block_end(n: int, r: int) -> int {
    if 16 * r + 16 <= n {
        16 * r + 16
    } else {
        n
    }
}

/// What a lookup finds: from the last restart that is not after the key.
pub open spec fn packed_found(es: Seq<Entry>, key: Seq<u8>) -> Option<Ext4> {
    match last_restart(es, restart_count(es.len() as int), key) {
        Some(r) => walk(es, 16 * r, block_end(es.len() as int, r), key),
        None => None,
    }
}

/// The bucket of a prefix number in a table over its top `bits` bits.
pub open spec fn bucket_of(p: u64, bits: u32) -> int {
    (p >> (64 - bits) as u64) as int
}

/// `start` splits the restarts at bucket `b`: those before it have lower
/// buckets, the others not.
pub open spec fn splits_at(restarts: Seq<(u64, u32)>, bits: u32, b: int, start: int) -> bool {
    &&& 0 <= start <= restarts.len()
    &&& forall|r: int| 0 <= r < start ==> bucket_of((#[trigger] restarts[r]).0, bits) < b
    &&& forall|r: int|
        start <= r < restarts.len() ==> bucket_of((#[trigger] restarts[r]).0, bits) >= b
}

/// The first of the first `n` restarts in bucket `b`; the mark of none where
/// there is none.
pub open spec fn first_in_bucket(restarts: Seq<(u64, u32)>, bits: u32, b: int, n: nat) -> u32
    decreases n,
{
    if n == 0 {
        u32::MAX
    } else {
        let before = first_in_bucket(restarts, bits, b, (n - 1) as nat);
        if before == u32::MAX && bucket_of(restarts[n - 1].0, bits) == b {
            (n - 1) as u32
        } else {
            before
        }
    }
}

/// What the table has for bucket `b`: the first restart in it, what the next
/// bucket has where it is empty, and the number of restarts past the last one.
pub open spec fn radix_entry(restarts: Seq<(u64, u32)>, bits: u32, b: int, buckets: int) -> u32
    decreases buckets - b,
{
    let first = first_in_bucket(restarts, bits, b, restarts.len());
    if b >= buckets {
        restarts.len() as u32
    } else if first == u32::MAX {
        radix_entry(restarts, bits, b + 1, buckets)
    } else {
        first
    }
}

/// Sorted keys in prefix-compressed records.
pub struct Packed {
    /// Bytes common to every key, skipped before the prefix is taken.
    pub lcp: usize,
    pub blob: Vec<u8>,
    /// Prefix number and byte offset of each restart.
    pub restarts: Vec<(u64, u32)>,
    /// The first restart of each bucket of the prefix's top bits, when enabled.
    pub radix: Vec<u32>,
    pub radix_bits: u32,
    /// The entries that were written.
    pub model: Ghost<Seq<Entry>>,
}

/// The records can be addressed by thirty-two bits.
pub open spec fn packed_fits(es: Seq<Entry>) -> bool {
    packed_blob(es, es.len()).len() <= u32::MAX
}

impl Packed {
    /// The bytes are the records of the entries, and the restarts say where
    /// they are.
    pub open spec fn laid_out(self) -> bool {
        let es = self.model@;
        &&& packed_fits(es)
        &&& forall|i: int| 0 <= i < es.len() ==> (#[trigger] es[i]).0.len() <= usize::MAX
        &&& self.blob@ == packed_blob(es, es.len())
        &&& self.lcp == common_len(es)
        &&& self.restarts@.len() == restart_count(es.len() as int)
        &&& forall|r: int|
            0 <= r < self.restarts@.len() ==> (#[trigger] self.restarts@[r]).0 == restart_prefix(
                es,
                r,
            ) && self.restarts@[r].1 == packed_off(es, 16 * r)
    }

    /// The parts are those that the entries give, whether or not offsets fit
    /// their thirty-two bits.
    pub open spec fn written(self, radix_bits: u32) -> bool {
        let es = self.model@;
        &&& self.blob@ == packed_blob(es, es.len())
        &&& self.lcp == common_len(es)
        &&& self.restarts@.len() == restart_count(es.len() as int)
        &&& forall|r: int|
            0 <= r < self.restarts@.len() ==> (#[trigger] self.restarts@[r]).0 == restart_prefix(
                es,
                r,
            ) && self.restarts@[r].1 == packed_off(es, 16 * r) as u32
        &&& self.radix_bits == radix_bits
        &&& self.radix@.len() == if radix_bits == 0 {
            0
        } else {
            (1u64 << radix_bits as u64) + 1
        }
        &&& forall|b: int|
            0 <= b < self.radix@.len() ==> #[trigger] self.radix@[b] == radix_entry(
                self.restarts@,
                radix_bits,
                b,
                (1u64 << radix_bits as u64) as int,
            )
    }

    /// The records are laid out, their keys are sorted, and the table over the
    /// restarts splits them by bucket.
    pub open spec fn whole(self) -> bool {
        &&& self.laid_out()
        &&& strictly_sorted(keys_of(self.model@))
        &&& self.radix_bits < 64
        &&& self.radix_bits > 0 ==> {
            &&& self.radix@.len() == (1u64 << self.radix_bits as u64) + 1
            &&& forall|b: int|
                0 <= b < self.radix@.len() ==> splits_at(
                    self.restarts@,
                    self.radix_bits,
                    b,
                    #[trigger] self.radix@[b] as int,
                )
        }
    }

    /// What entry `i` contributes to a scan: its block, and the first byte of
    /// what its key adds.
    pub open spec fn term(self, i: int) -> u64 {
        let e = self.model@[i];
        let s = suffix_of(self.model@, i);
        (e.1.block as u64).wrapping_add(
            if s.len() > 0 {
                s[0] as u64
            } else {
                0
            },
        )
    }

    /// What a scan reads of an entry: its block, and the first byte of its key that
    /// the entry before does not share, every sixteenth key being kept whole.
    pub proof fn lemma_scan_reads(self, i: int) -> (from: int)
        requires
            0 <= i < self.model@.len(),
        ensures
            ({
                let key = self.model@[i].0;
                &&& 0 <= from <= key.len()
                &&& self.term(i) == self.model@[i].1.block + own_byte(key, from)
                &&& if i % 16 == 0 {
                    from == 0
                } else {
                    let before = self.model@[i - 1].0;
                    &&& from <= before.len()
                    &&& key.take(from) == before.take(from)
                    &&& from < key.len() && from < before.len() ==> key[from] != before[from]
                }
            }),
    {
        let es = self.model@;
        let from = shared_of(es, i) as int;
        if i % 16 != 0 {
            lemma_lcp(es[i].0, es[i - 1].0);
            assert(es[i].0.take(from) =~= es[i - 1].0.take(from));
        }
        from
    }

    /// The name of the layout.
    pub fn describe(&self) -> (s: &'static str)
        ensures
            s@ == if self.radix_bits > 0 {
                "packed+radix"@
            } else {
                "packed"@
            },
    {
        if self.radix_bits > 0 {
            "packed+radix"
        } else {
            "packed"
        }
    }

    /// The record of entry `i`, which starts at `p`: bytes taken over, where
    /// the added bytes lie and how many they are, the extent, and where the
    /// next record starts.
    fn record(&self, p: usize, Ghost(i): Ghost<int>) -> (r: (usize, usize, usize, Ext4, usize))
        requires
            self.laid_out(),
            0 <= i < self.model@.len(),
            p == packed_off(self.model@, i),
        ensures
            r.0 == shared_of(self.model@, i),
            r.2 == suffix_of(self.model@, i).len(),
            r.0 + r.2 == self.model@[i].0.len(),
            lies_at(self.blob@, r.1 as int, suffix_of(self.model@, i)),
            r.1 + r.2 <= self.blob@.len(),
            r.3 == self.model@[i].1,
            r.4 == packed_off(self.model@, i + 1),
            r.4 > p,
            r.4 <= self.blob@.len(),
    {
        let ghost es = self.model@;
        proof {
            lemma_record_parts(es, es.len(), i);
            lemma_packed_lies(es, es.len(), i);
            assert(es[i].0.len() <= usize::MAX);
        }
        let mut q: usize = p;
        let shared: usize = get_known_uv(
            &self.blob,
            &mut q,
            Ghost(shared_of(es, i) as u64),
        ) as usize;
        let suffix: usize = get_known_uv(
            &self.blob,
            &mut q,
            Ghost(suffix_of(es, i).len() as u64),
        ) as usize;
        let at: usize = q;
        proof {
            lemma_lies(self.blob@, at as int, suffix_of(es, i));
            assert(self.blob@.len() == self.blob.len());
        }
        let (e, next) = get_ext(&self.blob, at + suffix, false, Ghost(es[i].1));
        (shared, at, suffix, e, next)
    }

    /// The key of restart `i`.
    pub fn restart_key(&self, i: usize) -> (k: &[u8])
        requires
            self.laid_out(),
            i < self.restarts@.len(),
        ensures
            k@ == restart_key_of(self.model@, i as int),
    {
        let p: usize = self.restarts[i].1 as usize;
        let (_, at, suffix, _, _) = self.record(p, Ghost(16 * i as int));
        proof {
            let es = self.model@;
            assert(suffix_of(es, 16 * i as int) =~= es[16 * i as int].0);
        }
        get_known_bytes(&self.blob, at, suffix, Ghost(suffix_of(self.model@, 16 * i as int)))
    }
}

// ---------------------------------------------------------------- search --

/// Every key has what the first and the last share.
proof fn lemma_shares_common(es: Seq<Entry>, i: int)
    requires
        strictly_sorted(keys_of(es)),
        0 <= i < es.len(),
    ensures
        common_len(es) <= es[i].0.len(),
        es[i].0.take(common_len(es) as int) == es[0].0.take(common_len(es) as int),
{
    let ks = keys_of(es);
    let n = es.len() - 1;
    assert(ks[0] == es[0].0 && ks[i] == es[i].0 && ks[n] == es.last().0);
    lemma_order_total(ks[0], ks[i]);
    lemma_order_total(ks[i], ks[n]);
    lemma_between_shares_prefix(es[0].0, es[i].0, es.last().0);
}

/// Behind equal beginnings, strings order as they do whole.
proof fn lemma_behind_order(a: Seq<u8>, b: Seq<u8>, c: nat)
    requires
        c <= a.len(),
        c <= b.len(),
        a.take(c as int) == b.take(c as int),
    ensures
        bytes_lt(a, b) <==> bytes_lt(behind(a, c), behind(b, c)),
{
    let x = behind(a, c);
    let y = behind(b, c);
    let p = lcp(x, y);
    lemma_lcp(x, y);
    assert forall|i: int| 0 <= i < c + p implies a[i] == b[i] by {
        if i < c {
            assert(a.take(c as int)[i] == a[i] && b.take(c as int)[i] == b[i]);
        } else {
            assert(x[i - c] == a[i] && y[i - c] == b[i]);
            assert(x[i - c] == y[i - c]);
        }
    }
    if p < x.len() && p < y.len() {
        assert(a[(c + p) as int] == x[p as int] && b[(c + p) as int] == y[p as int]);
    }
    lemma_lcp_unique(a, b, c + p);
}

/// A larger bucket is behind a larger number.
proof fn lemma_bucket_order(p: u64, q: u64, bits: u32)
    requires
        0 < bits < 64,
        p <= q,
    ensures
        bucket_of(p, bits) <= bucket_of(q, bits),
        0 <= bucket_of(q, bits) < (1u64 << bits as u64),
{
    let s = (64 - bits) as u64;
    let n = bits as u64;
    assert(p >> s <= q >> s) by (bit_vector)
        requires
            p <= q,
            s < 64,
    ;
    assert(q >> s < (1u64 << n)) by (bit_vector)
        requires
            0 < n < 64,
            s == 64 - n,
    ;
}

impl Packed {
    /// Restarts further on have later keys.
    proof fn lemma_restarts_sorted(self, q: int, r: int)
        requires
            self.whole(),
            0 <= q < r < self.restarts@.len(),
        ensures
            bytes_lt(restart_key_of(self.model@, q), restart_key_of(self.model@, r)),
    {
        let ks = keys_of(self.model@);
        assert(ks[16 * q] == restart_key_of(self.model@, q));
        assert(ks[16 * r] == restart_key_of(self.model@, r));
    }

    /// If a restart is not after the key, neither are the ones before it.
    proof fn lemma_restart_le(self, q: int, r: int, key: Seq<u8>)
        requires
            self.whole(),
            0 <= q <= r < self.restarts@.len(),
            bytes_le(restart_key_of(self.model@, r), key),
        ensures
            bytes_le(restart_key_of(self.model@, q), key),
    {
        if q < r {
            self.lemma_restarts_sorted(q, r);
            lemma_order_total(restart_key_of(self.model@, q), restart_key_of(self.model@, r));
            lemma_le_transitive(
                restart_key_of(self.model@, q),
                restart_key_of(self.model@, r),
                key,
            );
        }
    }

    /// Where prefix numbers differ, they order a restart against a key that
    /// has the shared bytes.
    proof fn lemma_prefix_decides(self, r: int, key: Seq<u8>)
        requires
            self.whole(),
            0 <= r < self.restarts@.len(),
            self.lcp <= key.len(),
            key.take(self.lcp as int) == self.model@[0].0.take(self.lcp as int),
        ensures
            restart_prefix(self.model@, r) > prefix8_of(behind(key, self.lcp as nat)) ==> !bytes_le(
                restart_key_of(self.model@, r),
                key,
            ),
            restart_prefix(self.model@, r) < prefix8_of(behind(key, self.lcp as nat)) ==> bytes_le(
                restart_key_of(self.model@, r),
                key,
            ),
    {
        let es = self.model@;
        let k = restart_key_of(es, r);
        let c = common_len(es);
        lemma_shares_common(es, 16 * r);
        lemma_behind_order(k, key, c);
        lemma_behind_order(key, k, c);
        let x = behind(k, c);
        let y = behind(key, c);
        lemma_order_total(x, y);
        lemma_order_total(k, key);
        if bytes_le(x, y) {
            lemma_prefix8_order(x, y);
        }
        if bytes_le(y, x) {
            lemma_prefix8_order(y, x);
        }
    }

    /// There are fewer entries than thirty-two bits count.
    pub proof fn lemma_count(self)
        requires
            self.laid_out(),
        ensures
            self.model@.len() < u32::MAX,
    {
        lemma_packed_count(self.model@, self.model@.len());
    }

    /// Whether restart `mid` is after `key`, whose prefix number is `k8`.
    fn restart_after(&self, mid: usize, key: &[u8], k8: u64) -> (after: bool)
        requires
            self.whole(),
            mid < self.restarts@.len(),
            self.lcp <= key@.len(),
            key@.take(self.lcp as int) == self.model@[0].0.take(self.lcp as int),
            k8 == prefix8_of(behind(key@, self.lcp as nat)),
        ensures
            after == !bytes_le(restart_key_of(self.model@, mid as int), key@),
    {
        let p: u64 = self.restarts[mid].0;
        proof {
            self.lemma_prefix_decides(mid as int, key@);
        }
        if p != k8 {
            p > k8
        } else {
            bytes_less(key, self.restart_key(mid))
        }
    }

    /// The last restart whose key is not after `key`.
    pub fn seek_restart(&self, key: &[u8]) -> (r: Option<usize>)
        requires
            self.whole(),
        ensures
            r is Some <==> last_restart(
                self.model@,
                self.restarts@.len() as int,
                key@,
            ) is Some,
            r matches Some(i) ==> last_restart(self.model@, self.restarts@.len() as int, key@)
                == Some(i as int),
    {
        let ghost es = self.model@;
        let ghost m = self.restarts@.len() as int;
        if self.restarts.len() == 0 {
            return None;
        }
        // A key without the shared bytes is before or after all of them.
        let first: &[u8] = self.restart_key(0);
        let q: usize = common_prefix(key, first);
        proof {
            lemma_lcp(key@, first@);
            lemma_lcp(es[0].0, es.last().0);
        }
        if q < self.lcp {
            let before: bool = q == key.len() || key[q] < first[q];
            proof {
                assert forall|r: int| 0 <= r < m implies bytes_le(
                    #[trigger] restart_key_of(es, r),
                    key@,
                ) == !before by {
                    let k = restart_key_of(es, r);
                    lemma_shares_common(es, 16 * r);
                    assert forall|i: int| 0 <= i <= q implies k[i] == first@[i] by {
                        assert(k.take(self.lcp as int)[i] == first@.take(self.lcp as int)[i]);
                    }
                    lemma_lcp_unique(key@, k, q as nat);
                }
                if before {
                    lemma_last_restart_none(es, m, key@);
                } else {
                    assert(bytes_le(restart_key_of(es, m - 1), key@));
                    lemma_last_restart_at(es, m, key@, m - 1);
                }
            }
            if before {
                return None;
            } else {
                return Some(self.restarts.len() - 1);
            }
        }
        proof {
            assert(key@.take(self.lcp as int) =~= first@.take(self.lcp as int));
        }
        let k8: u64 = prefix8(slice_subrange(key, self.lcp, key.len()));
        let (start, end) = self.window(key, k8);
        let mut lo: usize = start;
        let mut hi: usize = end;
        let mut best: Option<usize> = None;
        while lo < hi
            invariant
                self.whole(),
                es == self.model@,
                m == self.restarts@.len(),
                self.lcp <= key@.len(),
                key@.take(self.lcp as int) == es[0].0.take(self.lcp as int),
                k8 == prefix8_of(behind(key@, self.lcp as nat)),
                start <= lo <= hi <= m,
                lo == start ==> best is None,
                lo > start ==> best == Some((lo - 1) as usize) && bytes_le(
                    restart_key_of(es, lo - 1),
                    key@,
                ),
                forall|r: int| hi <= r < m ==> !bytes_le(#[trigger] restart_key_of(es, r), key@),
            decreases hi - lo,
        {
            let mid: usize = lo + (hi - lo) / 2;
            if self.restart_after(mid, key, k8) {
                proof {
                    assert forall|r: int| mid <= r < m implies !bytes_le(
                        #[trigger] restart_key_of(es, r),
                        key@,
                    ) by {
                        if bytes_le(restart_key_of(es, r), key@) {
                            self.lemma_restart_le(mid as int, r, key@);
                        }
                    }
                }
                hi = mid;
            } else {
                best = Some(mid);
                lo = mid + 1;
            }
        }
        proof {
            if best is Some {
                lemma_last_restart_at(es, m, key@, lo - 1);
            } else {
                if start > 0 {
                    assert(bytes_le(restart_key_of(es, start as int), key@));
                    assert(start < m);
                }
                lemma_last_restart_none(es, m, key@);
            }
        }
        best
    }

    /// A window of restarts that holds the last one not after `key`: all behind
    /// it are after the key, and unless it starts at the first restart, its own
    /// first is not.
    fn window(&self, key: &[u8], k8: u64) -> (w: (usize, usize))
        requires
            self.whole(),
            self.restarts@.len() > 0,
            self.lcp <= key@.len(),
            key@.take(self.lcp as int) == self.model@[0].0.take(self.lcp as int),
            k8 == prefix8_of(behind(key@, self.lcp as nat)),
        ensures
            w.0 <= w.1 <= self.restarts@.len(),
            w.0 > 0 ==> w.0 < self.restarts@.len() && bytes_le(
                restart_key_of(self.model@, w.0 as int),
                key@,
            ),
            forall|r: int|
                w.1 <= r < self.restarts@.len() ==> !bytes_le(
                    #[trigger] restart_key_of(self.model@, r),
                    key@,
                ),
    {
        if self.radix_bits == 0 {
            return (0, self.restarts.len());
        }
        let ghost es = self.model@;
        let ghost m = self.restarts@.len() as int;
        let b: usize = (k8 >> ((64 - self.radix_bits) as u64)) as usize;
        proof {
            lemma_bucket_order(k8, k8, self.radix_bits);
            assert(self.radix@.len() == self.radix.len());
            assert(splits_at(self.restarts@, self.radix_bits, b as int, self.radix@[b as int] as int));
            assert(splits_at(
                self.restarts@,
                self.radix_bits,
                b + 1,
                self.radix@[b + 1] as int,
            ));
        }
        // The bucket's own start can be past the key, so begin one back.
        let at: usize = self.radix[b] as usize;
        let start: usize = if at > 0 {
            at - 1
        } else {
            0
        };
        let past: usize = self.radix[b + 1] as usize;
        let end: usize = if past < self.restarts.len() {
            past + 1
        } else {
            self.restarts.len()
        };
        proof {
            if at > 0 {
                // Its bucket is lower than the key's, so its prefix is smaller.
                let p = self.restarts@[at - 1].0;
                if p >= k8 {
                    lemma_bucket_order(k8, p, self.radix_bits);
                }
                self.lemma_prefix_decides(at - 1, key@);
            }
            assert forall|r: int| end <= r < m implies !bytes_le(
                #[trigger] restart_key_of(es, r),
                key@,
            ) by {
                let p = self.restarts@[r].0;
                if p <= k8 {
                    lemma_bucket_order(p, k8, self.radix_bits);
                }
                self.lemma_prefix_decides(r, key@);
            }
            if past < at {
                // The buckets are split in order.
                assert(bucket_of(self.restarts@[past as int].0, self.radix_bits) >= b + 1);
                assert(bucket_of(self.restarts@[past as int].0, self.radix_bits) < b);
            }
        }
        (start, end)
    }
}

// ---------------------------------------------------------------- lookup --

/// Puts the added bytes behind the `shared` ones that `cur` starts with.
fn extend_key(cur: &mut [u8; 128], shared: usize, added: &[u8])
    requires
        shared + added@.len() <= 128,
    ensures
        final(cur)@.take(shared + added@.len()) == old(cur)@.take(shared as int) + added@,
{
    let mut j: usize = 0;
    let n: usize = added.len();
    while j < n
        invariant
            j <= n,
            n == added@.len(),
            shared + n <= 128,
            forall|i: int| 0 <= i < shared ==> cur@[i] == old(cur)@[i],
            forall|i: int| 0 <= i < j ==> cur@[shared + i] == added@[i],
        decreases n - j,
    {
        cur[shared + j] = added[j];
        j = j + 1;
    }
    proof {
        assert(cur@.take(shared + n) =~= old(cur)@.take(shared as int) + added@);
    }
}

/// Decoding entry `i` behind the entry before it gives its key.
proof fn lemma_decoded(es: Seq<Entry>, i: int, before: Seq<u8>, now: Seq<u8>)
    requires
        0 <= i < es.len(),
        i % 16 != 0 ==> es[i - 1].0.len() <= before.len() && before.take(
            es[i - 1].0.len() as int,
        ) == es[i - 1].0,
        shared_of(es, i) <= before.len(),
        now == before.take(shared_of(es, i) as int) + suffix_of(es, i),
    ensures
        now == es[i].0,
{
    let k = es[i].0;
    let s = shared_of(es, i) as int;
    lemma_shared(es, i);
    if i % 16 != 0 {
        let p = es[i - 1].0;
        lemma_lcp(k, p);
        assert forall|j: int| 0 <= j < s implies before[j] == k[j] by {
            assert(before.take(p.len() as int)[j] == p[j]);
        }
    }
    assert(now =~= k);
}

impl Packed {
    /// What is found from restart `start` on.
    fn lookup_from(&self, start: usize, key: &[u8]) -> (r: Option<Ext4>)
        requires
            self.laid_out(),
            start < self.restarts@.len(),
        ensures
            r == walk(
                self.model@,
                16 * start as int,
                block_end(self.model@.len() as int, start as int),
                key@,
            ),
    {
        let ghost es = self.model@;
        let ghost n = es.len() as int;
        let ghost stop = block_end(n, start as int);
        let mut p: usize = self.restarts[start].1 as usize;
        assert(self.restarts@.len() == self.restarts.len());
        let end: usize = if start + 1 < self.restarts.len() {
            self.restarts[start + 1].1 as usize
        } else {
            self.blob.len()
        };
        assert(end == packed_off(es, stop));
        let mut cur: [u8; 128] = [0u8; 128];
        let ghost mut i: int = 16 * start as int;
        while p < end
            invariant
                self.laid_out(),
                es == self.model@,
                n == es.len(),
                start < self.restarts@.len(),
                stop == block_end(n, start as int),
                end == packed_off(es, stop),
                16 * start <= i <= stop,
                p == packed_off(es, i),
                i > 16 * start ==> es[i - 1].0.len() <= 128 && cur@.take(
                    es[i - 1].0.len() as int,
                ) == es[i - 1].0,
                walk(es, 16 * start as int, stop, key@) == walk(es, i, stop, key@),
            decreases stop - i,
        {
            assert(i < stop);
            let (shared, at, suffix, e, next) = self.record(p, Ghost(i));
            if suffix > 128 || shared > 128 - suffix {
                return None;
            }
            let added: &[u8] = get_known_bytes(&self.blob, at, suffix, Ghost(suffix_of(es, i)));
            let ghost before = cur@;
            extend_key(&mut cur, shared, added);
            let len: usize = shared + suffix;
            proof {
                lemma_decoded(es, i, before, cur@.take(len as int));
            }
            let k: &[u8] = slice_subrange(vstd::array::array_as_slice(&cur), 0, len);
            assert(k@ =~= cur@.take(len as int));
            proof {
                lemma_order_total(k@, key@);
            }
            if bytes_equal(k, key) {
                return Some(e);
            }
            if bytes_less(key, k) {
                return None;
            }
            p = next;
            proof {
                i = i + 1;
            }
        }
        proof {
            if i < stop {
                lemma_packed_off_order(es, i, stop);
            }
        }
        None
    }

    /// The extent of the entry at `rank` if its key is `key`. Keys that are
    /// longer than a lookup decodes hide themselves and what follows them up to
    /// the next restart.
    pub fn at_rank(&self, rank: usize, key: &[u8]) -> (r: Option<Ext4>)
        requires
            self.laid_out(),
        ensures
            r == if rank < self.model@.len() && self.model@[rank as int].0 == key@
                && decodable(self.model@, rank as int) {
                Some(self.model@[rank as int].1)
            } else {
                None
            },
    {
        let ghost es = self.model@;
        let r: usize = rank / RESTART_EVERY;
        let skip: usize = rank % RESTART_EVERY;
        if r >= self.restarts.len() {
            return None;
        }
        let mut p: usize = self.restarts[r].1 as usize;
        let mut cur: [u8; 128] = [0u8; 128];
        let mut step: usize = 0;
        let ghost first = 16 * r as int;
        while step <= skip
            invariant
                self.laid_out(),
                es == self.model@,
                r == rank / 16,
                skip == rank % 16,
                r < self.restarts@.len(),
                first == 16 * r,
                step <= skip,
                first + step <= es.len(),
                p == packed_off(es, first + step),
                step > 0 ==> es[first + step - 1].0.len() <= 128 && cur@.take(
                    es[first + step - 1].0.len() as int,
                ) == es[first + step - 1].0,
                forall|j: int| first <= j < first + step ==> (#[trigger] es[j]).0.len() <= 128,
            decreases skip + 1 - step,
        {
            let ghost i = first + step;
            if p >= self.blob.len() {
                proof {
                    if i < es.len() {
                        lemma_packed_lies(es, es.len(), i);
                    }
                }
                return None;
            }
            let (shared, at, suffix, e, next) = self.record(p, Ghost(i));
            if suffix > 128 || shared > 128 - suffix {
                assert(es[i].0.len() > 128);
                return None;
            }
            let added: &[u8] = get_known_bytes(&self.blob, at, suffix, Ghost(suffix_of(es, i)));
            let ghost before = cur@;
            extend_key(&mut cur, shared, added);
            let len: usize = shared + suffix;
            proof {
                lemma_decoded(es, i, before, cur@.take(len as int));
            }
            if step == skip {
                let k: &[u8] = slice_subrange(vstd::array::array_as_slice(&cur), 0, len);
                assert(k@ =~= cur@.take(len as int));
                if bytes_equal(k, key) {
                    return Some(e);
                } else {
                    return None;
                }
            }
            p = next;
            step = step + 1;
        }
        None
    }
}

/// No key from the restart before `rank` up to it is too long to decode.
pub open spec fn decodable(es: Seq<Entry>, rank: int) -> bool {
    forall|j: int| rank - rank % 16 <= j <= rank ==> (#[trigger] es[j]).0.len() <= KEY_LIMIT
}

// ---------------------------------------------------------------- build --

/// Fills the table over the top bits of the prefix numbers: each bucket gets
/// the first restart in it, and an empty one what the next bucket has.
fn radix_table(restarts: &Vec<(u64, u32)>, radix_bits: u32) -> (radix: Vec<u32>)
    requires
        0 < radix_bits < usize::BITS,
        radix_bits < 64,
    ensures
        radix@.len() == (1u64 << radix_bits as u64) + 1,
        forall|b: int|
            0 <= b < radix@.len() ==> #[trigger] radix@[b] == radix_entry(
                restarts@,
                radix_bits,
                b,
                (1u64 << radix_bits as u64) as int,
            ),
        restarts@.len() < u32::MAX && (forall|q: int, r: int|
            0 <= q <= r < restarts@.len() ==> (#[trigger] restarts@[q]).0 <= (
            #[trigger] restarts@[r]).0) ==> forall|b: int|
            0 <= b < radix@.len() ==> splits_at(
                restarts@,
                radix_bits,
                b,
                #[trigger] radix@[b] as int,
            ),
{
    let ghost m = restarts@.len() as int;
    let ghost ok = m < u32::MAX && (forall|q: int, r: int|
        0 <= q <= r < m ==> (#[trigger] restarts@[q]).0 <= (#[trigger] restarts@[r]).0);
    let buckets: usize = bucket_count(radix_bits);
    let mut radix: Vec<u32> = vec![u32::MAX; buckets + 1];
    let mut j: usize = 0;
    while j < restarts.len()
        invariant
            j <= m,
            m == restarts@.len(),
            0 < radix_bits < 64,
            buckets == (1u64 << radix_bits as u64),
            radix@.len() == buckets + 1,
            forall|b: int|
                0 <= b <= buckets ==> #[trigger] radix@[b] == first_in_bucket(
                    restarts@,
                    radix_bits,
                    b,
                    j as nat,
                ),
            ok ==> m < u32::MAX,
            ok ==> forall|b: int|
                0 <= b <= buckets ==> {
                    ||| #[trigger] radix@[b] == u32::MAX && forall|r: int|
                        0 <= r < j ==> bucket_of((#[trigger] restarts@[r]).0, radix_bits) != b
                    ||| radix@[b] < j && bucket_of(restarts@[radix@[b] as int].0, radix_bits) == b
                        && forall|r: int|
                        0 <= r < radix@[b] ==> bucket_of(
                            (#[trigger] restarts@[r]).0,
                            radix_bits,
                        ) != b
                },
        decreases restarts.len() - j,
    {
        let p: u64 = restarts[j].0;
        proof {
            lemma_bucket_order(p, p, radix_bits);
        }
        let b: usize = (p >> ((64 - radix_bits) as u64)) as usize;
        if radix[b] == u32::MAX {
            radix.set(b, j as u32);
        }
        j = j + 1;
    }
    radix.set(buckets, restarts.len() as u32);
    let mut b: usize = buckets;
    proof {
        if ok {
            assert forall|r: int| 0 <= r < m implies bucket_of(
                (#[trigger] restarts@[r]).0,
                radix_bits,
            ) < buckets by {
                lemma_bucket_order(restarts@[r].0, restarts@[r].0, radix_bits);
            }
        }
    }
    while b > 0
        invariant
            b <= buckets,
            m == restarts@.len(),
            0 < radix_bits < 64,
            buckets == (1u64 << radix_bits as u64),
            radix@.len() == buckets + 1,
            forall|c: int|
                b <= c <= buckets ==> #[trigger] radix@[c] == radix_entry(
                    restarts@,
                    radix_bits,
                    c,
                    buckets as int,
                ),
            forall|c: int|
                0 <= c < b ==> #[trigger] radix@[c] == first_in_bucket(
                    restarts@,
                    radix_bits,
                    c,
                    m as nat,
                ),
            ok ==> m < u32::MAX && (forall|q: int, r: int|
                0 <= q <= r < m ==> (#[trigger] restarts@[q]).0 <= (#[trigger] restarts@[r]).0),
            ok ==> forall|c: int|
                b <= c <= buckets ==> splits_at(
                    restarts@,
                    radix_bits,
                    c,
                    #[trigger] radix@[c] as int,
                ),
            ok ==> forall|c: int|
                0 <= c < b ==> {
                    ||| #[trigger] radix@[c] == u32::MAX && forall|r: int|
                        0 <= r < m ==> bucket_of((#[trigger] restarts@[r]).0, radix_bits) != c
                    ||| radix@[c] < m && bucket_of(restarts@[radix@[c] as int].0, radix_bits) == c
                        && forall|r: int|
                        0 <= r < radix@[c] ==> bucket_of(
                            (#[trigger] restarts@[r]).0,
                            radix_bits,
                        ) != c
                },
        decreases b,
    {
        let ghost before = radix@;
        b = b - 1;
        if radix[b] == u32::MAX {
            let next: u32 = radix[b + 1];
            radix.set(b, next);
        }
        proof {
            if ok {
                lemma_backfill(restarts@, radix_bits, b as int, before, radix@);
                assert forall|c: int| b <= c <= buckets implies splits_at(
                    restarts@,
                    radix_bits,
                    c,
                    #[trigger] radix@[c] as int,
                ) by {
                    if c > b {
                        assert(radix@[c] == before[c]);
                    }
                }
            }
        }
    }
    radix
}

/// A bucket's first restart splits there, and so does the next bucket's start
/// where the bucket is empty.
proof fn lemma_backfill(
    restarts: Seq<(u64, u32)>,
    bits: u32,
    b: int,
    before: Seq<u32>,
    after: Seq<u32>,
)
    requires
        0 < bits < 64,
        restarts.len() < u32::MAX,
        forall|q: int, r: int|
            0 <= q <= r < restarts.len() ==> (#[trigger] restarts[q]).0 <= (
            #[trigger] restarts[r]).0,
        0 <= b,
        b + 1 < before.len(),
        splits_at(restarts, bits, b + 1, before[b + 1] as int),
        ({
            ||| before[b] == u32::MAX && forall|r: int|
                0 <= r < restarts.len() ==> bucket_of((#[trigger] restarts[r]).0, bits) != b
            ||| before[b] < restarts.len() && bucket_of(restarts[before[b] as int].0, bits) == b
                && forall|r: int|
                0 <= r < before[b] ==> bucket_of((#[trigger] restarts[r]).0, bits) != b
        }),
        after == if before[b] == u32::MAX {
            before.update(b, before[b + 1])
        } else {
            before
        },
    ensures
        splits_at(restarts, bits, b, after[b] as int),
{
    let start = after[b] as int;
    if before[b] == u32::MAX {
        assert forall|r: int| 0 <= r < start implies bucket_of((#[trigger] restarts[r]).0, bits)
            < b by {
            assert(bucket_of(restarts[r].0, bits) < b + 1);
        }
    } else {
        assert forall|r: int| 0 <= r < start implies bucket_of((#[trigger] restarts[r]).0, bits)
            < b by {
            lemma_bucket_order(restarts[r].0, restarts[start].0, bits);
        }
        assert forall|r: int| start <= r < restarts.len() implies bucket_of(
            (#[trigger] restarts[r]).0,
            bits,
        ) >= b by {
            lemma_bucket_order(restarts[start].0, restarts[r].0, bits);
        }
    }
}

/// Two to the power of `bits`.
fn bucket_count(bits: u32) -> (n: usize)
    requires
        0 < bits < usize::BITS,
        bits < 64,
    ensures
        n == (1u64 << bits as u64),
        n < usize::MAX,
{
    let n: usize = 1usize << (bits as usize);
    proof {
        let b = bits as usize;
        let c = bits as u64;
        assert((1usize << b) as u64 == (1u64 << c)) by (bit_vector)
            requires
                b < usize::BITS,
                b as u64 == c,
        ;
        assert((1usize << b) % 2 == 0) by (bit_vector)
            requires
                b < usize::BITS,
                0 < b,
        ;
    }
    n
}

impl Packed {
    /// Writes the records of the keys with their extents. The keys are to be
    /// sorted; the index is whole when they are and the records can be
    /// addressed by thirty-two bits.
    pub fn build(keys: &[Vec<u8>], exts: &[Ext4], radix_bits: u32) -> (r: Packed)
        requires
            keys@.len() <= exts@.len(),
            radix_bits < usize::BITS,
            radix_bits < 64,
        ensures
            r.model@ == entries_of(keys@, exts@),
            r.radix_bits == radix_bits,
            r.written(radix_bits),
            packed_fits(r.model@) ==> r.laid_out(),
            packed_fits(r.model@) && strictly_sorted(keys_of(r.model@)) ==> r.whole(),
    {
        let ghost es = entries_of(keys@, exts@);
        let lcp_len: usize = if keys.len() > 0 {
            assert(es[0].0 == keys@[0]@ && es.last().0 == keys@[keys@.len() - 1]@);
            common_prefix(&keys[0], &keys[keys.len() - 1])
        } else {
            0
        };
        let mut blob: Vec<u8> = Vec::new();
        let mut restarts: Vec<(u64, u32)> = Vec::with_capacity(keys.len() / RESTART_EVERY + 1);
        let mut i: usize = 0;
        proof {
            reveal(packed_blob);
        }
        while i < keys.len()
            invariant
                i <= keys@.len(),
                keys@.len() <= exts@.len(),
                es == entries_of(keys@, exts@),
                lcp_len == common_len(es),
                blob@ == packed_blob(es, i as nat),
                restarts@.len() == restart_count(i as int),
                forall|r: int|
                    0 <= r < restarts@.len() ==> (#[trigger] restarts@[r]).0 == restart_prefix(
                        es,
                        r,
                    ) && restarts@[r].1 == packed_off(es, 16 * r) as u32,
            decreases keys.len() - i,
        {
            let k: &Vec<u8> = &keys[i];
            assert(es[i as int].0 == k@);
            let restart: bool = i % RESTART_EVERY == 0;
            if restart {
                let skip: usize = if lcp_len < k.len() {
                    lcp_len
                } else {
                    k.len()
                };
                let rest: &[u8] = slice_subrange(k, skip, k.len());
                proof {
                    assert(rest@ =~= behind(k@, common_len(es)));
                    assert(16 * (i as int / 16) == i);
                }
                restarts.push((prefix8(rest), blob.len() as u32));
            }
            let shared: usize = if restart {
                0
            } else {
                assert(es[i - 1].0 == keys@[i - 1]@);
                common_prefix(k, &keys[i - 1])
            };
            proof {
                lemma_shared(es, i as int);
            }
            put_uv(&mut blob, shared as u64);
            put_uv(&mut blob, (k.len() - shared) as u64);
            push_bytes(&mut blob, slice_subrange(k, shared, k.len()));
            put_ext(&mut blob, exts[i], false);
            proof {
                reveal(packed_blob);
                assert(blob@ =~= packed_blob(es, i as nat) + packed_record(es, i as int));
            }
            i = i + 1;
        }
        let mut radix: Vec<u32> = Vec::new();
        if radix_bits > 0 {
            radix = radix_table(&restarts, radix_bits);
        }
        shrink(&mut blob);
        shrink(&mut restarts);
        let r = Packed { lcp: lcp_len, blob, restarts, radix, radix_bits, model: Ghost(es) };
        proof {
            if packed_fits(es) {
                assert forall|i: int| 0 <= i < es.len() implies (#[trigger] es[i]).0.len()
                    <= usize::MAX by {
                    assert(keys@[i]@.len() == keys@[i].len());
                }
                lemma_built_whole(r);
            }
        }
        r
    }

    /// Adds up what `n` entries from position `start` on contribute.
    pub fn scan(&self, start: usize, n: usize) -> (acc: u64)
        requires
            self.laid_out(),
        ensures
            acc == sum_range(
                |i: int| self.term(i),
                start as int,
                scan_end(start as int, n as int, self.model@.len() as int),
            ),
    {
        let ghost es = self.model@;
        let ghost terms = |i: int| self.term(i);
        let r: usize = start / RESTART_EVERY;
        proof {
            lemma_packed_count(es, es.len());
        }
        if r >= self.restarts.len() {
            return 0;
        }
        let mut p: usize = self.restarts[r].1 as usize;
        let mut acc: u64 = 0;
        let mut seen: usize = 0;
        let mut idx: usize = r * RESTART_EVERY;
        while p < self.blob.len() && seen < n
            invariant
                self.laid_out(),
                es == self.model@,
                terms == (|i: int| self.term(i)),
                idx <= es.len(),
                p == packed_off(es, idx as int),
                seen == if idx >= start {
                    idx - start
                } else {
                    0
                },
                seen <= n,
                acc == sum_range(terms, start as int, idx as int),
                es.len() <= u32::MAX,
            decreases es.len() - idx,
        {
            proof {
                lemma_packed_off_order(es, idx as int, es.len() as int);
            }
            let (_, at, suffix, e, next) = self.record(p, Ghost(idx as int));
            let kb: u64 = if suffix > 0 {
                get_known_bytes(
                    &self.blob,
                    at,
                    suffix,
                    Ghost(suffix_of(es, idx as int)),
                )[0] as u64
            } else {
                0
            };
            proof {
                assert(terms(idx as int) == self.term(idx as int));
            }
            p = next;
            if idx >= start {
                acc = acc.wrapping_add((e.block as u64).wrapping_add(kb));
                seen = seen + 1;
            }
            idx = idx + 1;
        }
        proof {
            if idx < es.len() {
                lemma_packed_off_order(es, idx as int, es.len() as int);
            }
        }
        acc
    }
}

/// A built index is laid out, and whole over sorted keys.
proof fn lemma_built_whole(r: Packed)
    requires
        packed_fits(r.model@),
        forall|i: int| 0 <= i < r.model@.len() ==> (#[trigger] r.model@[i]).0.len() <= usize::MAX,
        r.blob@ == packed_blob(r.model@, r.model@.len()),
        r.lcp == common_len(r.model@),
        r.restarts@.len() == restart_count(r.model@.len() as int),
        forall|q: int|
            0 <= q < r.restarts@.len() ==> (#[trigger] r.restarts@[q]).0 == restart_prefix(
                r.model@,
                q,
            ) && r.restarts@[q].1 == packed_off(r.model@, 16 * q) as u32,
        r.radix_bits < 64,
        r.radix_bits > 0 ==> r.radix@.len() == (1u64 << r.radix_bits as u64) + 1,
        r.radix_bits > 0 ==> (r.restarts@.len() < u32::MAX && (forall|q: int, t: int|
            0 <= q <= t < r.restarts@.len() ==> (#[trigger] r.restarts@[q]).0 <= (
            #[trigger] r.restarts@[t]).0) ==> forall|b: int|
            0 <= b < r.radix@.len() ==> splits_at(
                r.restarts@,
                r.radix_bits,
                b,
                #[trigger] r.radix@[b] as int,
            )),
    ensures
        r.laid_out(),
        strictly_sorted(keys_of(r.model@)) ==> r.whole(),
{
    let es = r.model@;
    let ks = keys_of(es);
    lemma_packed_count(es, es.len());
    assert forall|q: int| 0 <= q < r.restarts@.len() implies (#[trigger] r.restarts@[q]).1
        == packed_off(es, 16 * q) by {
        lemma_packed_off_order(es, 16 * q, es.len() as int);
    }
    assert forall|q: int, t: int|
        strictly_sorted(ks) && 0 <= q <= t < r.restarts@.len() implies (
    #[trigger] r.restarts@[q]).0 <= (#[trigger] r.restarts@[t]).0 by {
        if q < t {
            let (a, b) = (restart_key_of(es, q), restart_key_of(es, t));
            assert(ks[16 * q] == a && ks[16 * t] == b);
            let c = common_len(es);
            lemma_shares_common(es, 16 * q);
            lemma_shares_common(es, 16 * t);
            lemma_behind_order(a, b, c);
            lemma_order_total(behind(a, c), behind(b, c));
            lemma_prefix8_order(behind(a, c), behind(b, c));
        }
    }
}

impl Weighed for Packed {
    /// The records, the restarts and the table over them.
    open spec fn memory(&self) -> Memory {
        Memory::nothing().with(self.blob@.len(), 1).with(self.restarts@.len(), size_of::<(u64, u32)>() as int).with(self.radix@.len(), 4)
    }

    fn list_rooms(&self, r: &mut Rooms) {
        let ghost before = r.parts@;
        r.vector(&self.blob, 1);
        r.vector(&self.restarts, std::mem::size_of::<(u64, u32)>());
        r.vector(&self.radix, 4);
        proof {
            assert(r.parts@ =~= before + self.memory().parts);
        }
    }

    fn weigh_on(&self, s: &mut Scale<'_>) {
        let ghost before = s.made@;
        s.vector(Ghost(self.blob@.len()), 1);
        s.vector(Ghost(self.restarts@.len()), std::mem::size_of::<(u64, u32)>());
        s.vector(Ghost(self.radix@.len()), 4);
        proof {
            assert(s.made@ =~= before.and(self.memory()));
        }
    }
}

impl Layout for Packed {
    open spec fn wf(&self) -> bool {
        self.whole()
    }

    open spec fn entries(&self) -> Seq<Entry> {
        self.model@
    }

    open spec fn found(&self, key: Seq<u8>) -> Option<Ext4> {
        packed_found(self.model@, key)
    }

    open spec fn scan_term(&self, i: int) -> u64 {
        self.term(i)
    }

    open spec fn scannable(&self, start: int, n: int) -> bool {
        true
    }

    open spec fn label(&self) -> Seq<char> {
        if self.radix_bits > 0 {
            "packed+radix"@
        } else {
            "packed"@
        }
    }

    fn name(&self) -> (s: &'static str) {
        self.describe()
    }

    fn logical_bytes(&self) -> (n: usize) {
        bytes_of(self)
    }

    fn lookup(&self, key: &[u8]) -> (r: Option<Ext4>) {
        match self.seek_restart(key) {
            Some(start) => {
                proof {
                    lemma_last_restart_bound(
                        self.model@,
                        self.restarts@.len() as int,
                        key@,
                    );
                }
                self.lookup_from(start, key)
            },
            None => None,
        }
    }

    fn scan_from(&self, start: usize, n: usize) -> (acc: u64) {
        proof {
            assert((|i: int| self.scan_term(i)) =~= (|i: int| self.term(i)));
        }
        self.scan(start, n)
    }
}

/// The last restart is one of those that were asked about, and none behind it
/// qualifies.
proof fn lemma_last_restart_bound(es: Seq<Entry>, m: int, key: Seq<u8>)
    ensures
        last_restart(es, m, key) matches Some(r) ==> 0 <= r < m && bytes_le(
            restart_key_of(es, r),
            key,
        ) && forall|q: int| r < q < m ==> !bytes_le(#[trigger] restart_key_of(es, q), key),
        last_restart(es, m, key) is None ==> forall|q: int|
            0 <= q < m ==> !bytes_le(#[trigger] restart_key_of(es, q), key),
    decreases m,
{
    if m > 0 {
        lemma_last_restart_bound(es, m - 1, key);
    }
}

/// A walk over short sorted keys finds a key exactly where it is.
proof fn lemma_walk(es: Seq<Entry>, i: int, stop: int, key: Seq<u8>)
    requires
        strictly_sorted(keys_of(es)),
        0 <= i <= stop <= es.len(),
        forall|j: int| 0 <= j < es.len() ==> (#[trigger] es[j]).0.len() <= KEY_LIMIT,
    ensures
        forall|j: int|
            i <= j < stop && (#[trigger] es[j]).0 == key ==> walk(es, i, stop, key) == Some(
                es[j].1,
            ),
        (forall|j: int| i <= j < stop ==> (#[trigger] es[j]).0 != key) ==> walk(
            es,
            i,
            stop,
            key,
        ) is None,
    decreases stop - i,
{
    if i < stop {
        let ks = keys_of(es);
        lemma_walk(es, i + 1, stop, key);
        lemma_order_total(es[i].0, key);
        assert forall|j: int| i < j < stop && (#[trigger] es[j]).0 == key implies bytes_lt(
            es[i].0,
            key,
        ) by {
            assert(ks[i] == es[i].0 && ks[j] == es[j].0);
        }
    }
}

/// Over sorted keys that a lookup can decode, a lookup finds every key's own
/// extent and nothing else.
pub proof fn lemma_packed_found(es: Seq<Entry>, key: Seq<u8>)
    requires
        strictly_sorted(keys_of(es)),
        forall|j: int| 0 <= j < es.len() ==> (#[trigger] es[j]).0.len() <= KEY_LIMIT,
    ensures
        packed_found(es, key) == first_match(es, key),
{
    let n = es.len() as int;
    let m = restart_count(n);
    let ks = keys_of(es);
    lemma_last_restart_bound(es, m, key);
    if exists|j: int| 0 <= j < n && (#[trigger] es[j]).0 == key {
        let j = choose|j: int| 0 <= j < n && (#[trigger] es[j]).0 == key;
        let q = j / 16;
        assert(ks[j] == key && ks[16 * q] == restart_key_of(es, q));
        lemma_order_total(restart_key_of(es, q), key);
        assert(bytes_le(restart_key_of(es, q), key));
        let r = last_restart(es, m, key)->0;
        if r > q {
            // Its restart comes after the key, since the key is before it.
            assert(ks[16 * r] == restart_key_of(es, r));
            lemma_order_total(restart_key_of(es, r), key);
        }
        assert(r == q);
        lemma_walk(es, 16 * r, block_end(n, r), key);
        crate::layout::lemma_first_match_sorted(es, key, j);
    } else {
        assert forall|j: int| 0 <= j < n implies (#[trigger] es[j]).0 != key by {}
        lemma_first_match_none(es, key);
        if last_restart(es, m, key) is Some {
            let r = last_restart(es, m, key)->0;
            lemma_walk(es, 16 * r, block_end(n, r), key);
        }
    }
}

/// Records of keys of at most `most` bytes take at most that and thirty.
pub proof fn lemma_packed_size(es: Seq<Entry>, n: nat, most: nat)
    requires
        n <= es.len(),
        most <= u32::MAX,
        forall|i: int| 0 <= i < es.len() ==> (#[trigger] es[i]).0.len() <= most,
    ensures
        packed_blob(es, n).len() <= n * (most + 30),
    decreases n,
{
    reveal(packed_blob);
    if n > 0 {
        lemma_packed_size(es, (n - 1) as nat, most);
        let i = n - 1;
        assert(es[i].0.len() <= most);
        lemma_shared(es, i);
        vstd::arithmetic::power2::lemma2_to64();
        vstd::arithmetic::power2::lemma2_to64_rest();
        crate::varint::lemma_uv_bytes_len(shared_of(es, i), 5);
        crate::varint::lemma_uv_bytes_len(suffix_of(es, i).len(), 5);
        crate::ext::lemma_ext_bytes_most(es[i].1, false);
        assert(n * (most + 30) == (n - 1) * (most + 30) + most + 30) by (nonlinear_arith);
    } else {
        assert(n * (most + 30) == 0) by (nonlinear_arith)
            requires
                n == 0,
        ;
    }
}

} // verus!
