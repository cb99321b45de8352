//! The shapes that a store is left in before it is measured, and what a store
//! must answer after its log was torn.

use crate::bytes::push_bytes;
use crate::digits::{decimal, padded};
use crate::verdict::{verdict, verdict_of, Verdict};
use vstd::prelude::*;

verus! {

/// The least size at which a table is sealed.
pub const LEAST_SEAL: u64 = 1_048_576;

/// The keys that the routed shape leaves in memory.
pub const MEMTABLE_KEYS: u64 = 1000;

/// The shape that a store is left in before it is scanned.
#[derive(Clone, Copy, PartialEq, Eq, Structural, Debug)]
pub enum ScanShape {
    /// Everything is merged into partitions.
    Routed,
    /// Everything is merged but the last keys, which are in memory.
    RoutedMemtable,
    /// Sealed segments that nothing merged.
    Unmerged,
    /// What the filling left: segments and half a table in memory.
    Undrained,
    /// Everything is in memory.
    Memtable,
}

/// How a store is opened and filled to get its shape.
#[derive(Clone, Copy, PartialEq, Eq, Structural, Debug)]
pub struct StorePlan {
    /// The size at which a table is sealed, or nothing where it never is.
    pub seal_bytes: Option<u64>,
    /// The size of a partition.
    pub partition_bytes: u64,
    /// Whether segments are merged.
    pub compact: bool,
    /// The keys that are written first.
    pub load: u64,
    /// The end of the keys that are written behind the merge.
    pub end: u64,
}

/// The size at which a table of so many keys is sealed: two sevenths of it,
/// which leaves three seals and half a seal in memory.
pub open spec fn seal_of(keys: int, value_size: int) -> int {
    let s = keys * (value_size + 16) * 2 / 7;
    if s < LEAST_SEAL {
        LEAST_SEAL as int
    } else {
        s
    }
}

/// How a store gets its shape.
pub open spec fn plan_of(shape: ScanShape, keys: int, value_size: int) -> StorePlan {
    let seal = seal_of(keys, value_size);
    StorePlan {
        seal_bytes: if shape is Memtable {
            None
        } else {
            Some(seal as u64)
        },
        partition_bytes: (seal * 2) as u64,
        compact: !(shape is Unmerged),
        load: match shape {
            ScanShape::RoutedMemtable => (keys - MEMTABLE_KEYS) as u64,
            ScanShape::Memtable => (keys * 3 / 7) as u64,
            _ => keys as u64,
        },
        end: if shape is Memtable {
            (keys * 3 / 7) as u64
        } else {
            keys as u64
        },
    }
}

/// How a store gets its shape.
pub fn scan_store(shape: ScanShape, keys: u64, value_size: u64) -> (p: StorePlan)
    requires
        keys * (value_size + 16) * 4 <= u64::MAX,
        shape is RoutedMemtable ==> keys >= MEMTABLE_KEYS,
    ensures
        p == plan_of(shape, keys as int, value_size as int),
{
    proof {
        assert(keys * 16 <= keys * (value_size + 16)) by (nonlinear_arith);
        assert(keys > 0 ==> value_size + 16 <= keys * (value_size + 16)) by (nonlinear_arith);
    }
    let bytes: u64 = if keys == 0 {
        proof {
            assert(keys * (value_size + 16) == 0) by (nonlinear_arith)
                requires
                    keys == 0,
            ;
        }
        0
    } else {
        keys * (value_size + 16)
    };
    let two: u64 = bytes * 2 / 7;
    let seal: u64 = if two < LEAST_SEAL {
        LEAST_SEAL
    } else {
        two
    };
    let part: u64 = keys * 3 / 7;
    match shape {
        ScanShape::Routed => StorePlan {
            seal_bytes: Some(seal),
            partition_bytes: seal * 2,
            compact: true,
            load: keys,
            end: keys,
        },
        ScanShape::RoutedMemtable => StorePlan {
            seal_bytes: Some(seal),
            partition_bytes: seal * 2,
            compact: true,
            load: keys - MEMTABLE_KEYS,
            end: keys,
        },
        ScanShape::Unmerged => StorePlan {
            seal_bytes: Some(seal),
            partition_bytes: seal * 2,
            compact: false,
            load: keys,
            end: keys,
        },
        ScanShape::Undrained => StorePlan {
            seal_bytes: Some(seal),
            partition_bytes: seal * 2,
            compact: true,
            load: keys,
            end: keys,
        },
        ScanShape::Memtable => StorePlan {
            seal_bytes: None,
            partition_bytes: seal * 2,
            compact: true,
            load: part,
            end: part,
        },
    }
}

/// Where a table is large enough, a filled store holds three seals and half a
/// seal: three are full, and the fourth never is.
pub proof fn lemma_three_seals_and_a_half(keys: int, value_size: int)
    requires
        keys >= 0,
        value_size >= 0,
        seal_of(keys, value_size) > LEAST_SEAL,
    ensures
        ({
            let seal = seal_of(keys, value_size);
            let bytes = keys * (value_size + 16);
            &&& 7 * seal <= 2 * bytes < 7 * seal + 7
            &&& 3 * seal <= bytes
            &&& bytes < 4 * seal
        }),
{
    let t = keys * (value_size + 16) * 2;
    assert(t == 2 * (keys * (value_size + 16))) by (nonlinear_arith)
        requires
            t == keys * (value_size + 16) * 2,
    ;
}

/// What tells the shapes apart. All but one seal, at two sevenths of the data or a
/// mebibyte, and partitions are two seals; all but one merge. All keys are loaded before
/// the scans, but a thousand are left for after a flush in one shape, and in another
/// three sevenths of the keys are all there are.
pub proof fn lemma_shapes_differ(shape: ScanShape, keys: int, value_size: int)
    requires
        0 <= keys,
        0 <= value_size,
        keys * (value_size + 16) * 4 <= u64::MAX,
        keys <= u64::MAX,
        shape is RoutedMemtable ==> keys >= 1000,
    ensures
        ({
            let p = plan_of(shape, keys, value_size);
            let bytes = keys * (value_size + 16);
            &&& p.seal_bytes is None <==> shape is Memtable
            &&& p.seal_bytes matches Some(s) ==> s >= 0x10_0000 && (s == 0x10_0000 || 7 * s <= 2
                * bytes < 7 * s + 7) && p.partition_bytes == 2 * s
            &&& p.seal_bytes matches Some(s) ==> (2 * bytes >= 7 * 0x10_0000 ==> 7 * s <= 2 * bytes
                < 7 * s + 7)
            &&& p.compact <==> shape !is Unmerged
            &&& shape is RoutedMemtable ==> p.load + 1000 == p.end == keys
            &&& shape is Memtable ==> p.load == p.end && 7 * p.load <= 3 * keys < 7 * p.load + 7
            &&& shape !is RoutedMemtable && shape !is Memtable ==> p.load == p.end == keys
        }),
{
    let t = keys * (value_size + 16) * 2;
    assert(t == 2 * (keys * (value_size + 16)) && keys * (value_size + 16) * 4 == 2 * t)
        by (nonlinear_arith)
        requires
            t == keys * (value_size + 16) * 2,
    ;
}

/// How many segments call for a merge, where none ever does at zero.
pub fn merge_trigger(trigger: usize) -> (t: usize)
    ensures
        t == if trigger == 0 {
            usize::MAX
        } else {
            trigger
        },
{
    if trigger == 0 {
        usize::MAX
    } else {
        trigger
    }
}

/// The values of a key: every sixteenth key is long.
pub fn run_of(key: u64, run: u64, long_run: u64) -> (n: u64)
    ensures
        n == if key % 16 == 0 {
            long_run
        } else {
            run
        },
{
    if key % 16 == 0 {
        long_run
    } else {
        run
    }
}

// ----------------------------------------------------------------- regions --

/// Where the scans of one region start: from `lo`, before `hi`.
#[derive(Clone, Copy, PartialEq, Eq, Structural, Debug)]
pub struct Region {
    /// The first start.
    pub lo: u64,
    /// The end of the starts.
    pub hi: u64,
}

/// What comes before `len` keys of the end.
pub open spec fn short_of(end: int, len: int) -> int {
    if len > end {
        0
    } else {
        end - len
    }
}

/// Where scans of `scan_len` keys start: in what is sealed, and in what is in
/// memory.
pub fn regions(load: u64, unsealed: u64, scan_len: u64) -> (r: (Region, Region))
    requires
        unsealed <= load,
    ensures
        r.0.lo == 0,
        r.0.hi == short_of(load - unsealed, scan_len as int),
        r.1.lo == load - unsealed,
        r.1.hi == short_of(load as int, scan_len as int),
{
    let sealed: u64 = load - unsealed;
    let a: u64 = if scan_len > sealed {
        0
    } else {
        sealed - scan_len
    };
    let b: u64 = if scan_len > load {
        0
    } else {
        load - scan_len
    };
    (Region { lo: 0, hi: a }, Region { lo: sealed, hi: b })
}

/// A scan that starts in a region stays in what the region is of: no scan of
/// the sealed region reaches memory, and none runs past the last key.
pub proof fn lemma_region_holds_scan(load: int, unsealed: int, scan_len: int, start: int)
    requires
        0 <= unsealed <= load,
        scan_len >= 0,
    ensures
        0 <= start < short_of(load - unsealed, scan_len) ==> start + scan_len <= load - unsealed,
        load - unsealed <= start < short_of(load, scan_len) ==> start + scan_len <= load,
{
}

/// How many starts a region has.
pub fn region_width(r: Region) -> (w: u64)
    ensures
        w == short_of(r.hi as int, r.lo as int),
{
    if r.lo > r.hi {
        0
    } else {
        r.hi - r.lo
    }
}

/// The start of a region at an offset; nothing past its end.
pub fn region_start(r: Region, offset: u64) -> (s: Option<u64>)
    ensures
        s == if offset < r.hi - r.lo {
            Some((r.lo + offset) as u64)
        } else {
            None
        },
        s matches Some(x) ==> r.lo <= x < r.hi,
{
    if offset < region_width(r) {
        Some(r.lo + offset)
    } else {
        None
    }
}

// ---------------------------------------------------------------- the tail --

/// The key of one commit: a letter and at least three digits.
pub open spec fn tail_key_of(c: int) -> Seq<u8> {
    seq![107u8] + padded(c as nat, 3)
}

/// The key of one commit.
pub fn tail_key(c: u64) -> (k: Vec<u8>)
    ensures
        k@ == tail_key_of(c as int),
{
    let mut k: Vec<u8> = Vec::new();
    k.push(107);
    let d: Vec<u8> = decimal(c, 3);
    push_bytes(&mut k, &d);
    k
}

/// The commits that a barrier covers, when every `every`-th one has one.
pub open spec fn covered(commits: int, every: int) -> int {
    commits - commits % every
}

/// Whether an unsynced tail was lost whole: what a barrier covers is there
/// once, what was torn is gone, and nothing is there twice.
pub open spec fn tail_is_whole(counts: Seq<u64>, every: int) -> bool {
    &&& forall|c: int|
        0 <= c < covered(counts.len() as int, every) ==> #[trigger] counts[c] == 1
    &&& counts[counts.len() - 1] == 0
    &&& forall|c: int| 0 <= c < counts.len() ==> #[trigger] counts[c] <= 1
}

/// The verdict on an unsynced tail, by how many values each commit's key has
/// after the log was torn inside the last one.
pub fn tail_verdict(counts: &Vec<u64>, every: usize) -> (v: Verdict)
    requires
        every > 0,
        counts@.len() > 0,
    ensures
        v == verdict_of(true, tail_is_whole(counts@, every as int)),
{
    let n: usize = counts.len();
    proof {
        vstd::arithmetic::div_mod::lemma_mod_decreases(n as nat, every as nat);
    }
    let synced: usize = n - n % every;
    let mut c: usize = 0;
    while c < n
        invariant
            c <= n,
            n == counts@.len(),
            synced == covered(n as int, every as int),
            forall|i: int| 0 <= i < c && i < synced ==> #[trigger] counts@[i] == 1,
            forall|i: int| 0 <= i < c ==> #[trigger] counts@[i] <= 1,
        decreases n - c,
    {
        if counts[c] > 1 || (c < synced && counts[c] != 1) {
            proof {
                assert(!tail_is_whole(counts@, every as int));
            }
            return verdict(true, false);
        }
        c = c + 1;
    }
    verdict(true, counts[n - 1] == 0)
}

/// Fewer commits than the period of the barrier are ever at risk.
pub proof fn lemma_tail_is_short(commits: int, every: int)
    requires
        commits >= 0,
        every > 0,
    ensures
        0 <= covered(commits, every) <= commits,
        commits - covered(commits, every) < every,
        covered(commits, every) % every == 0,
{
    vstd::arithmetic::div_mod::lemma_fundamental_div_mod(commits, every);
    vstd::arithmetic::div_mod::lemma_mod_bound(commits, every);
    let q = commits / every;
    assert(commits - commits % every == q * every) by (nonlinear_arith)
        requires
            commits == every * q + commits % every,
    ;
    vstd::arithmetic::div_mod::lemma_div_pos_is_pos(commits, every);
    assert(q * every >= 0) by (nonlinear_arith)
        requires
            q >= 0,
            every > 0,
    ;
    vstd::arithmetic::div_mod::lemma_mod_multiples_basic(q, every);
}

/// A tail that was lost whole has none of the torn commit, and of no commit more than one:
/// a second one, or one of what was torn, or one less of what a barrier covers, is not whole.
pub proof fn lemma_tail_is_whole(counts: Seq<u64>, every: int, c: int)
    requires
        every > 0,
        0 <= c < counts.len(),
        tail_is_whole(counts, every),
    ensures
        counts[counts.len() - 1] == 0,
        counts[c] == 0 || counts[c] == 1,
        c + counts.len() as int % every < counts.len() ==> counts[c] == 1,
        !tail_is_whole(counts.update(c, 2), every),
        !tail_is_whole(counts.update(counts.len() - 1, 1), every),
        c + counts.len() as int % every < counts.len() ==> !tail_is_whole(
            counts.update(c, 0),
            every,
        ),
{
    let n = counts.len() as int;
    assert(counts.update(c, 2)[c] == 2);
    assert(counts.update(n - 1, 1)[n - 1] == 1);
    if c + n % every < n {
        assert(counts.update(c, 0)[c] == 0);
    }
}

} // verus!
