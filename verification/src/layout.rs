//! What every index layout is: a set of keys with their extents, that can be
//! looked up by key and scanned in order.

use crate::bytes::strictly_sorted;
use crate::memory::Weighed;
use vstd::prelude::*;

verus! {

/// Where a key's records lie: block, offset, length, last-record offset.
#[derive(Clone, Copy, PartialEq, Eq, Debug, Structural)]
pub struct Ext4 {
    pub block: u32,
    pub off: u32,
    pub len: u32,
    pub last: u32,
}

impl Default for Ext4 {
    fn default() -> (e: Ext4)
        ensures
            e == (Ext4 { block: 0, off: 0, len: 0, last: 0 }),
    {
        Ext4 { block: 0, off: 0, len: 0, last: 0 }
    }
}

/// A key with its extent.
pub type Entry = (Seq<u8>, Ext4);

/// The keys with their extents, as far as both lists go.
pub open spec fn entries_of(keys: Seq<Vec<u8>>, exts: Seq<Ext4>) -> Seq<Entry> {
    Seq::new(
        if keys.len() <= exts.len() {
            keys.len()
        } else {
            exts.len()
        },
        |i: int| (keys[i]@, exts[i]),
    )
}

/// The keys of a list of entries.
pub open spec fn keys_of(entries: Seq<Entry>) -> Seq<Seq<u8>> {
    Seq::new(entries.len(), |i: int| entries[i].0)
}

/// The extent of the first entry under `key`, if there is one.
pub open spec fn first_match(entries: Seq<Entry>, key: Seq<u8>) -> Option<Ext4>
    decreases entries.len(),
{
    if entries.len() == 0 {
        None
    } else if entries[0].0 == key {
        Some(entries[0].1)
    } else {
        first_match(entries.drop_first(), key)
    }
}

/// The first entry under a key is what is found.
pub proof fn lemma_first_match_at(entries: Seq<Entry>, key: Seq<u8>, j: int)
    requires
        0 <= j < entries.len(),
        entries[j].0 == key,
        forall|i: int| 0 <= i < j ==> (#[trigger] entries[i]).0 != key,
    ensures
        first_match(entries, key) == Some(entries[j].1),
    decreases entries.len(),
{
    if j > 0 {
        assert(entries[0].0 != key);
        let t = entries.drop_first();
        assert forall|i: int| 0 <= i < j - 1 implies (#[trigger] t[i]).0 != key by {
            assert(t[i] == entries[i + 1]);
        }
        lemma_first_match_at(t, key, j - 1);
    }
}

/// A key that no entry has is not found.
pub proof fn lemma_first_match_none(entries: Seq<Entry>, key: Seq<u8>)
    requires
        forall|i: int| 0 <= i < entries.len() ==> (#[trigger] entries[i]).0 != key,
    ensures
        first_match(entries, key) is None,
    decreases entries.len(),
{
    if entries.len() > 0 {
        let t = entries.drop_first();
        assert(entries[0].0 != key);
        assert forall|i: int| 0 <= i < t.len() implies (#[trigger] t[i]).0 != key by {
            assert(t[i] == entries[i + 1]);
        }
        lemma_first_match_none(t, key);
    }
}

/// Over distinct sorted keys a lookup gives a key's own extent, whichever entry
/// it is.
pub proof fn lemma_first_match_sorted(entries: Seq<Entry>, key: Seq<u8>, j: int)
    requires
        strictly_sorted(keys_of(entries)),
        0 <= j < entries.len(),
        entries[j].0 == key,
    ensures
        first_match(entries, key) == Some(entries[j].1),
{
    let ks = keys_of(entries);
    assert forall|i: int| 0 <= i < j implies (#[trigger] entries[i]).0 != key by {
        assert(ks[i] == entries[i].0 && ks[j] == entries[j].0);
        crate::bytes::lemma_order_total(ks[i], ks[j]);
    }
    lemma_first_match_at(entries, key, j);
}

/// The extent of the last entry under `key`, if there is one.
pub open spec fn last_match(entries: Seq<Entry>, key: Seq<u8>) -> Option<Ext4>
    decreases entries.len(),
{
    if entries.len() == 0 {
        None
    } else if entries.last().0 == key {
        Some(entries.last().1)
    } else {
        last_match(entries.drop_last(), key)
    }
}

/// The last entry under a key is what is found from the end.
pub proof fn lemma_last_match_at(entries: Seq<Entry>, key: Seq<u8>, j: int)
    requires
        0 <= j < entries.len(),
        entries[j].0 == key,
        forall|i: int| j < i < entries.len() ==> (#[trigger] entries[i]).0 != key,
    ensures
        last_match(entries, key) == Some(entries[j].1),
    decreases entries.len(),
{
    if j < entries.len() - 1 {
        assert(entries[entries.len() - 1].0 != key);
        lemma_last_match_at(entries.drop_last(), key, j);
    }
}

/// A key that no entry has is not found from the end either.
pub proof fn lemma_last_match_none(entries: Seq<Entry>, key: Seq<u8>)
    requires
        forall|i: int| 0 <= i < entries.len() ==> (#[trigger] entries[i]).0 != key,
    ensures
        last_match(entries, key) is None,
    decreases entries.len(),
{
    if entries.len() > 0 {
        assert(entries[entries.len() - 1].0 != key);
        lemma_last_match_none(entries.drop_last(), key);
    }
}

/// Over distinct keys the first and the last entry under a key are the same.
pub proof fn lemma_matches_agree(entries: Seq<Entry>, key: Seq<u8>)
    requires
        keys_of(entries).no_duplicates(),
    ensures
        last_match(entries, key) == first_match(entries, key),
{
    let ks = keys_of(entries);
    if exists|j: int| 0 <= j < entries.len() && (#[trigger] entries[j]).0 == key {
        let j = choose|j: int| 0 <= j < entries.len() && (#[trigger] entries[j]).0 == key;
        assert forall|i: int| 0 <= i < entries.len() && i != j implies (#[trigger] entries[i]).0
            != key by {
            assert(ks[i] == entries[i].0 && ks[j] == entries[j].0);
        }
        lemma_first_match_at(entries, key, j);
        lemma_last_match_at(entries, key, j);
    } else {
        assert forall|i: int| 0 <= i < entries.len() implies (#[trigger] entries[i]).0 != key by {}
        lemma_first_match_none(entries, key);
        lemma_last_match_none(entries, key);
    }
}

/// The sum of `terms[start..end]`, dropping what exceeds sixty-four bits.
pub open spec fn sum_range(terms: spec_fn(int) -> u64, start: int, end: int) -> u64
    decreases end - start,
{
    if end <= start {
        0
    } else {
        sum_range(terms, start, end - 1).wrapping_add(terms(end - 1))
    }
}

/// The byte of a key behind its first `from`; zero where there is none.
pub open spec fn own_byte(key: Seq<u8>, from: int) -> int {
    if 0 <= from < key.len() {
        key[from] as int
    } else {
        0
    }
}

/// Where a scan of `n` entries from `start` on ends among `len` entries.
pub open spec fn scan_end(start: int, n: int, len: int) -> int {
    if start + n <= len {
        start + n
    } else {
        len
    }
}

/// A range adds up piece by piece: nothing for no entries, an entry's own number
/// for one, and the sum of both pieces for a range that is cut anywhere.
pub proof fn lemma_sum_is_of_pieces(terms: spec_fn(int) -> u64, a: int, b: int, c: int)
    requires
        a <= b <= c,
    ensures
        sum_range(terms, a, a) == 0,
        sum_range(terms, a, a + 1) == terms(a),
        sum_range(terms, a, c) == sum_range(terms, a, b).wrapping_add(sum_range(terms, b, c)),
    decreases c - b,
{
    reveal_with_fuel(sum_range, 2);
    if b < c {
        lemma_sum_is_of_pieces(terms, a, b, c - 1);
    }
}

/// Every entry of a range counts: two lists of numbers that differ at one place
/// of it and agree at all others add up to different sums.
pub proof fn lemma_sum_counts_every_entry(
    one: spec_fn(int) -> u64,
    other: spec_fn(int) -> u64,
    a: int,
    i: int,
    c: int,
)
    requires
        a <= i < c,
        one(i) != other(i),
        forall|j: int| a <= j < c && j != i ==> #[trigger] one(j) == other(j),
    ensures
        sum_range(one, a, c) != sum_range(other, a, c),
    decreases c - a,
{
    if i == c - 1 {
        lemma_sum_alike(one, other, a, c - 1);
    } else {
        lemma_sum_counts_every_entry(one, other, a, i, c - 1);
        assert(one(c - 1) == other(c - 1));
    }
}

/// Lists that agree add up alike.
proof fn lemma_sum_alike(one: spec_fn(int) -> u64, other: spec_fn(int) -> u64, a: int, c: int)
    requires
        forall|j: int| a <= j < c ==> #[trigger] one(j) == other(j),
    ensures
        sum_range(one, a, c) == sum_range(other, a, c),
    decreases c - a,
{
    if a < c {
        lemma_sum_alike(one, other, a, c - 1);
        assert(one(c - 1) == other(c - 1));
    }
}

/// A scan visits as many entries as asked for, or all that are left; and two scans
/// one behind the other visit what one over both visits.
pub proof fn lemma_scans_join(terms: spec_fn(int) -> u64, start: int, n: int, m: int, len: int)
    requires
        0 <= start <= len,
        0 <= n,
        0 <= m,
    ensures
        start + n <= len ==> scan_end(start, n, len) - start == n,
        start + n > len ==> scan_end(start, n, len) - start == len - start,
        sum_range(terms, start, scan_end(start, n + m, len)) == sum_range(
            terms,
            start,
            scan_end(start, n, len),
        ).wrapping_add(
            sum_range(
                terms,
                scan_end(start, n, len),
                scan_end(scan_end(start, n, len), m, len),
            ),
        ),
{
    let mid = scan_end(start, n, len);
    if start + n <= len {
        lemma_sum_is_of_pieces(terms, start, mid, scan_end(mid, m, len));
    } else {
        lemma_sum_is_of_pieces(terms, start, len, len);
    }
}

/// Adding two summands one after the other is adding their sum.
pub proof fn lemma_wrapping_two(acc: u64, a: u64, b: u64)
    ensures
        acc.wrapping_add(a).wrapping_add(b) == acc.wrapping_add(a.wrapping_add(b)),
        acc.wrapping_add(b).wrapping_add(a) == acc.wrapping_add(a.wrapping_add(b)),
{
}

/// An index over keys and extents.
pub trait Layout: Weighed {
    /// The structure is whole: its parts say the same of the same entries.
    spec fn wf(&self) -> bool;

    /// The keys with their extents, in the order in which they were loaded.
    spec fn entries(&self) -> Seq<Entry>;

    /// What a lookup of `key` finds.
    spec fn found(&self, key: Seq<u8>) -> Option<Ext4>;

    /// What entry `i` contributes to a scan.
    spec fn scan_term(&self, i: int) -> u64;

    /// A scan of `n` entries from `start` on can be made.
    spec fn scannable(&self, start: int, n: int) -> bool;

    /// The name under which measurements of this layout are reported.
    spec fn label(&self) -> Seq<char>;

    /// The name under which measurements of this layout are reported.
    fn name(&self) -> (s: &'static str)
        ensures
            s@ == self.label(),
    ;

    /// The bytes that the structure occupies, by its own accounting. Its vectors
    /// may have room to spare; how much, the allocator decides. What it comes to
    /// for each of their rooms, `bytes_at` says.
    fn logical_bytes(&self) -> (n: usize)
        ensures
            self.memory().sized(),
            self.memory().takes(n as int),
    ;

    /// The extent of `key`, if it is in the index.
    fn lookup(&self, key: &[u8]) -> (r: Option<Ext4>)
        requires
            self.wf(),
        ensures
            r == self.found(key@),
    ;

    /// Visits `n` entries in order from position `start` and adds up what they
    /// contribute. A scan touches the key of every entry as well as its extent,
    /// as a reader that hands both on does: an entry contributes its block and a
    /// byte of what is kept of its key.
    fn scan_from(&self, start: usize, n: usize) -> (acc: u64)
        requires
            self.wf(),
            self.scannable(start as int, n as int),
        ensures
            acc == sum_range(
                |i: int| self.scan_term(i),
                start as int,
                scan_end(start as int, n as int, self.entries().len() as int),
            ),
    ;
}

} // verus!
