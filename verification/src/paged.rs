//! Records grouped into pages of a fixed count. A page stores the prefix that
//! its keys share once, and a directory through which any of its records is
//! reached in one step.

use crate::bytes::{
    bytes_equal, common_prefix, lcp, lemma_between_shares_prefix, le_bytes, le_value, lemma_lcp, lemma_le16, lemma_lies,
    lemma_lies_append, lemma_lies_cut, lemma_lies_grow, lemma_lies_inside, lemma_order_total, lies_at, push_bytes,
    push_le16, strictly_sorted,
};
use crate::ext::{
    ext_bytes, get_ext, get_known_bytes, get_known_le16, lemma_ext_unique, put_ext,
};
use crate::layout::{entries_of, keys_of, own_byte, scan_end, sum_range, Entry, Ext4};
use crate::memory::{bytes_of, shrink, Memory, Rooms, Scale, Weighed};
use vstd::prelude::*;
use vstd::slice::slice_subrange;

verus! {

// ------------------------------------------------------------- one page --

/// The length of the prefix that a page stores once: what its first and last
/// key have in common.
pub open spec fn page_prefix(group: Seq<Entry>) -> nat {
    lcp(group[0].0, group.last().0)
}

/// The record of an entry in a page whose shared prefix is `prefix` long.
pub open spec fn page_record(e: Entry, prefix: nat, fixed: bool) -> Seq<u8> {
    le_bytes(((e.0.len() - prefix) as u16) as nat, 2) + (e.0.subrange(
        prefix as int,
        e.0.len() as int,
    ) + ext_bytes(e.1, fixed))
}

/// The first `n` records of a page in a row.
#[verifier::opaque]
pub open spec fn page_records(group: Seq<Entry>, n: nat, fixed: bool) -> Seq<u8>
    decreases n,
{
    if n == 0 {
        Seq::empty()
    } else {
        page_records(group, (n - 1) as nat, fixed) + page_record(
            group[n - 1],
            page_prefix(group),
            fixed,
        )
    }
}

/// Where record `j` lies, counted from the start of its page.
pub open spec fn slot_off(group: Seq<Entry>, j: int, fixed: bool) -> int {
    4 + page_prefix(group) as int + 2 * group.len() + page_records(group, j as nat, fixed).len()
}

/// The first `n` entries of a page's directory.
#[verifier::opaque]
pub open spec fn page_slots(group: Seq<Entry>, n: nat, fixed: bool) -> Seq<u8>
    decreases n,
{
    if n == 0 {
        Seq::empty()
    } else {
        page_slots(group, (n - 1) as nat, fixed) + le_bytes(
            (slot_off(group, n - 1, fixed) as u16) as nat,
            2,
        )
    }
}

/// A page: prefix length, count, the prefix, the directory, the records.
pub open spec fn page_bytes(group: Seq<Entry>, fixed: bool) -> Seq<u8> {
    le_bytes((page_prefix(group) as u16) as nat, 2) + (le_bytes((group.len() as u16) as nat, 2) + (
    group[0].0.take(page_prefix(group) as int) + (page_slots(group, group.len(), fixed)
        + page_records(group, group.len(), fixed))))
}

/// The keys of a page have its prefix, and every number in the page fits the
/// sixteen bits that it is kept in.
#[verifier::opaque]
pub open spec fn page_fits(group: Seq<Entry>, fixed: bool) -> bool {
    let p = page_prefix(group);
    &&& 0 < group.len() <= u16::MAX
    &&& p <= u16::MAX
    &&& forall|j: int|
        0 <= j < group.len() ==> {
            &&& p <= (#[trigger] group[j]).0.len() <= p + u16::MAX
            &&& group[j].0.take(p as int) == group[0].0.take(p as int)
            &&& slot_off(group, j, fixed) <= u16::MAX
        }
}

/// Each record of a page lies where the ones before it end.
proof fn lemma_page_records(group: Seq<Entry>, n: nat, j: int, fixed: bool)
    requires
        0 <= j < n,
    ensures
        lies_at(
            page_records(group, n, fixed),
            page_records(group, j as nat, fixed).len() as int,
            page_record(group[j], page_prefix(group), fixed),
        ),
    decreases n,
{
    reveal(page_records);
    let before = page_records(group, (n - 1) as nat, fixed);
    let rec = page_record(group[n - 1], page_prefix(group), fixed);
    if j == n - 1 {
        lemma_lies_append(before, rec);
    } else {
        lemma_page_records(group, (n - 1) as nat, j, fixed);
        lemma_lies_grow(
            before,
            rec,
            page_records(group, j as nat, fixed).len() as int,
            page_record(group[j], page_prefix(group), fixed),
        );
    }
}

/// A page's directory takes two bytes a record.
proof fn lemma_page_slots_len(group: Seq<Entry>, n: nat, fixed: bool)
    ensures
        page_slots(group, n, fixed).len() == 2 * n,
    decreases n,
{
    reveal(page_slots);
    if n > 0 {
        lemma_page_slots_len(group, (n - 1) as nat, fixed);
        lemma_le16(slot_off(group, n - 1, fixed) as u16);
    }
}

/// Directory entry `j` lies at twice `j`.
proof fn lemma_page_slots(group: Seq<Entry>, n: nat, j: int, fixed: bool)
    requires
        0 <= j < n,
    ensures
        lies_at(
            page_slots(group, n, fixed),
            2 * j,
            le_bytes((slot_off(group, j, fixed) as u16) as nat, 2),
        ),
    decreases n,
{
    reveal(page_slots);
    let before = page_slots(group, (n - 1) as nat, fixed);
    let last = le_bytes((slot_off(group, n - 1, fixed) as u16) as nat, 2);
    lemma_page_slots_len(group, (n - 1) as nat, fixed);
    if j == n - 1 {
        lemma_lies_append(before, last);
    } else {
        lemma_page_slots(group, (n - 1) as nat, j, fixed);
        lemma_lies_grow(
            before,
            last,
            2 * j,
            le_bytes((slot_off(group, j, fixed) as u16) as nat, 2),
        );
    }
}

/// Where the parts of a page lie, for a page that starts at `base`.
proof fn lemma_page_parts(whole: Seq<u8>, base: int, group: Seq<Entry>, fixed: bool)
    requires
        lies_at(whole, base, page_bytes(group, fixed)),
        group.len() > 0,
        page_prefix(group) <= u16::MAX,
        group.len() <= u16::MAX,
    ensures
        lies_at(whole, base, le_bytes(page_prefix(group), 2)),
        lies_at(whole, base + 2, le_bytes(group.len(), 2)),
        lies_at(whole, base + 4, group[0].0.take(page_prefix(group) as int)),
        lies_at(whole, base + 4 + page_prefix(group), page_slots(group, group.len(), fixed)),
        lies_at(
            whole,
            base + 4 + page_prefix(group) + 2 * group.len(),
            page_records(group, group.len(), fixed),
        ),
{
    let p = page_prefix(group);
    let n = group.len();
    let a = le_bytes((p as u16) as nat, 2);
    let b = le_bytes((n as u16) as nat, 2);
    let c = group[0].0.take(p as int);
    let s = page_slots(group, n, fixed);
    let r = page_records(group, n, fixed);
    lemma_lcp(group[0].0, group.last().0);
    lemma_le16(p as u16);
    lemma_le16(n as u16);
    lemma_page_slots_len(group, n, fixed);
    lemma_lies_cut(whole, base, a, b + (c + (s + r)));
    lemma_lies_cut(whole, base + 2, b, c + (s + r));
    lemma_lies_cut(whole, base + 4, c, s + r);
    lemma_lies_cut(whole, base + 4 + p, s, r);
}

/// Where the parts of record `j` lie, for a page that starts at `base`.
proof fn lemma_record_parts(whole: Seq<u8>, base: int, group: Seq<Entry>, j: int, fixed: bool)
    requires
        0 <= j < group.len(),
        lies_at(whole, base + 4 + page_prefix(group), page_slots(group, group.len(), fixed)),
        lies_at(
            whole,
            base + 4 + page_prefix(group) + 2 * group.len(),
            page_records(group, group.len(), fixed),
        ),
        slot_off(group, j, fixed) <= u16::MAX,
        page_prefix(group) <= group[j].0.len() <= page_prefix(group) + u16::MAX,
    ensures
        ({
            let p = page_prefix(group) as int;
            let e = group[j];
            let at = base + slot_off(group, j, fixed);
            let suffix = e.0.subrange(p, e.0.len() as int);
            &&& lies_at(whole, base + 4 + p + 2 * j, le_bytes(slot_off(group, j, fixed) as nat, 2))
            &&& lies_at(whole, at, le_bytes(suffix.len(), 2))
            &&& lies_at(whole, at + 2, suffix)
            &&& lies_at(whole, at + 2 + suffix.len(), ext_bytes(e.1, fixed))
        }),
{
    let p = page_prefix(group);
    let e = group[j];
    let n = group.len();
    lemma_page_slots(group, n, j, fixed);
    lemma_page_records(group, n, j, fixed);
    lemma_lies_inside(
        whole,
        base + 4 + p,
        page_slots(group, n, fixed),
        2 * j,
        le_bytes((slot_off(group, j, fixed) as u16) as nat, 2),
    );
    let rec = page_record(e, p, fixed);
    lemma_lies_inside(
        whole,
        base + 4 + p + 2 * n,
        page_records(group, n, fixed),
        page_records(group, j as nat, fixed).len() as int,
        rec,
    );
    let at = base + slot_off(group, j, fixed);
    let suffix = e.0.subrange(p as int, e.0.len() as int);
    let k = le_bytes(((e.0.len() - p) as u16) as nat, 2);
    let x = ext_bytes(e.1, fixed);
    lemma_le16((e.0.len() - p) as u16);
    lemma_lies_cut(whole, at, k, suffix + x);
    lemma_lies_cut(whole, at + 2, suffix, x);
}

// ------------------------------------------------------------ many pages --

/// The entries of page `g` when pages hold `pp` entries each.
pub open spec fn page_group(es: Seq<Entry>, g: int, pp: int) -> Seq<Entry> {
    es.subrange(
        g * pp,
        if (g + 1) * pp <= es.len() {
            (g + 1) * pp
        } else {
            es.len() as int
        },
    )
}

/// The first `g` pages in a row.
#[verifier::opaque]
pub open spec fn paged_bytes_of(es: Seq<Entry>, g: nat, pp: int, fixed: bool) -> Seq<u8>
    decreases g,
{
    if g == 0 {
        Seq::empty()
    } else {
        paged_bytes_of(es, (g - 1) as nat, pp, fixed) + page_bytes(
            page_group(es, g - 1, pp),
            fixed,
        )
    }
}

/// Where page `g` starts.
pub open spec fn page_off(es: Seq<Entry>, g: int, pp: int, fixed: bool) -> int {
    paged_bytes_of(es, g as nat, pp, fixed).len() as int
}

/// How many pages `n` entries fill, `pp` to a page.
pub open spec fn page_count(n: int, pp: int) -> int {
    (n + pp - 1) / pp
}

/// Every page fits, and starts at an offset of thirty-two bits.
pub open spec fn paged_fits(es: Seq<Entry>, pp: int, fixed: bool) -> bool {
    forall|g: int|
        0 <= g < page_count(es.len() as int, pp) ==> {
            &&& page_fits(#[trigger] page_group(es, g, pp), fixed)
            &&& page_off(es, g, pp, fixed) <= u32::MAX
        }
}

/// Page `g` lies where the pages before it end.
proof fn lemma_pages_lie(es: Seq<Entry>, n: nat, g: int, pp: int, fixed: bool)
    requires
        0 <= g < n,
    ensures
        lies_at(
            paged_bytes_of(es, n, pp, fixed),
            page_off(es, g, pp, fixed),
            page_bytes(page_group(es, g, pp), fixed),
        ),
    decreases n,
{
    reveal(paged_bytes_of);
    let before = paged_bytes_of(es, (n - 1) as nat, pp, fixed);
    let page = page_bytes(page_group(es, n - 1, pp), fixed);
    if g == n - 1 {
        lemma_lies_append(before, page);
    } else {
        lemma_pages_lie(es, (n - 1) as nat, g, pp, fixed);
        lemma_lies_grow(
            before,
            page,
            page_off(es, g, pp, fixed),
            page_bytes(page_group(es, g, pp), fixed),
        );
    }
}

/// The page of a rank, and the rank's place in it.
proof fn lemma_rank_page(n: int, pp: int, rank: int)
    requires
        pp > 0,
        0 <= rank < n,
    ensures
        0 <= rank / pp < page_count(n, pp),
        (rank / pp) * pp + rank % pp == rank,
        0 <= rank % pp < pp,
        rank < (rank / pp + 1) * pp,
{
    vstd::arithmetic::div_mod::lemma_fundamental_div_mod(rank, pp);
    vstd::arithmetic::div_mod::lemma_mod_bound(rank, pp);
    let g = rank / pp;
    assert(g * pp == pp * g) by (nonlinear_arith);
    assert((g + 1) * pp == g * pp + pp) by (nonlinear_arith);
    vstd::arithmetic::div_mod::lemma_div_pos_is_pos(rank, pp);
    // n + pp - 1 >= rank + pp, so one more page than `g` fits below it.
    vstd::arithmetic::div_mod::lemma_div_is_ordered(rank + pp, n + pp - 1, pp);
    vstd::arithmetic::div_mod::lemma_div_plus_one(rank, pp);
    assert((rank + pp) / pp == g + 1);
}

/// A page beyond the last has no entries.
proof fn lemma_page_beyond(n: int, pp: int, rank: int)
    requires
        pp > 0,
        0 <= n <= rank,
        rank / pp < page_count(n, pp),
    ensures
        (rank / pp) * pp < n,
        rank % pp >= n - (rank / pp) * pp,
        (rank / pp + 1) * pp > n,
        (rank / pp) * pp + rank % pp == rank,
        rank % pp < pp,
{
    vstd::arithmetic::div_mod::lemma_fundamental_div_mod(rank, pp);
    vstd::arithmetic::div_mod::lemma_mod_bound(rank, pp);
    let g = rank / pp;
    assert(g * pp == pp * g) by (nonlinear_arith);
    assert((g + 1) * pp == g * pp + pp) by (nonlinear_arith);
    let m = n + pp - 1;
    let c = page_count(n, pp);
    vstd::arithmetic::div_mod::lemma_fundamental_div_mod(m, pp);
    vstd::arithmetic::div_mod::lemma_mod_bound(m, pp);
    assert((g + 1) * pp <= c * pp) by (nonlinear_arith)
        requires
            g + 1 <= c,
            pp > 0,
    ;
    assert(c * pp == pp * c) by (nonlinear_arith);
}

/// The page-organised records, shared by every layout that uses one.
pub struct PagedBlob {
    /// Records per page.
    pub per_page: usize,
    /// Extents written as four fixed words rather than as variable-length
    /// integers.
    pub fixed: bool,
    pub pages: Vec<u8>,
    /// Byte offset of each page. Pages are packed end to end.
    pub page_dir: Vec<u32>,
    pub len: usize,
    /// The entries that were written.
    pub model: Ghost<Seq<Entry>>,
}

/// Every key of a page has its first `n` bytes in common with the others.
pub open spec fn all_start_alike(group: Seq<Entry>, n: int) -> bool {
    forall|i: int, j: int|
        0 <= i < group.len() && 0 <= j < group.len() ==> {
            &&& n <= (#[trigger] group[i]).0.len()
            &&& group[i].0.take(n) == (#[trigger] group[j]).0.take(n)
        }
}

/// The first `from` bytes of key `i` are those that all keys of its page share,
/// where pages hold `pp` keys, and no more bytes are shared by all.
pub open spec fn shared_on_page(es: Seq<Entry>, i: int, pp: int, from: int) -> bool {
    &&& forall|j: int|
        0 <= j < es.len() && j / pp == i / pp ==> from <= (#[trigger] es[j]).0.len()
            && es[j].0.take(from) == es[i].0.take(from)
    &&& forall|q: int| q > from ==> #[trigger] some_differs(es, i, pp, q)
}

/// Whether some key of the page of key `i` does not start with its first `q` bytes.
pub open spec fn some_differs(es: Seq<Entry>, i: int, pp: int, q: int) -> bool {
    exists|j: int|
        0 <= j < es.len() && j / pp == i / pp && ((#[trigger] es[j]).0.len() < q || es[j].0.take(q)
            != es[i].0.take(q))
}

impl Weighed for PagedBlob {
    /// The pages and their directory.
    open spec fn memory(&self) -> Memory {
        Memory::nothing().with(self.pages@.len(), 1).with(self.page_dir@.len(), 4)
    }

    fn list_rooms(&self, r: &mut Rooms) {
        let ghost before = r.parts@;
        r.vector(&self.pages, 1);
        r.vector(&self.page_dir, 4);
        proof {
            assert(r.parts@ =~= before + self.memory().parts);
        }
    }

    fn weigh_on(&self, s: &mut Scale<'_>) {
        let ghost before = s.made@;
        s.vector(Ghost(self.pages@.len()), 1);
        s.vector(Ghost(self.page_dir@.len()), 4);
        proof {
            assert(s.made@ =~= before.and(self.memory()));
        }
    }
}

impl PagedBlob {
    /// The bytes are the pages of the entries, and all that is kept in fewer
    /// bits fits.
    pub open spec fn wf(self) -> bool {
        let es = self.model@;
        let pp = self.per_page as int;
        let n = page_count(es.len() as int, pp);
        &&& pp > 0
        &&& self.len == es.len()
        &&& self.pages@ == paged_bytes_of(es, n as nat, pp, self.fixed)
        &&& self.page_dir@.len() == n
        &&& paged_fits(es, pp, self.fixed)
        &&& forall|g: int|
            0 <= g < n ==> #[trigger] self.page_dir@[g] == page_off(es, g, pp, self.fixed)
    }

    /// The parts are those that the entries give, whether or not offsets fit
    /// their thirty-two bits.
    pub open spec fn written(self) -> bool {
        let es = self.model@;
        let pp = self.per_page as int;
        let n = page_count(es.len() as int, pp);
        &&& self.len == es.len()
        &&& self.pages@ == paged_bytes_of(es, n as nat, pp, self.fixed)
        &&& self.page_dir@.len() == n
        &&& forall|g: int|
            0 <= g < n ==> #[trigger] self.page_dir@[g] == page_off(es, g, pp, self.fixed) as u32
    }

    /// The page's start, the length of its prefix, and the record's place, of
    /// the entry at `rank`.
    pub open spec fn place(self, rank: int) -> (int, int, int) {
        let pp = self.per_page as int;
        let g = rank / pp;
        let group = page_group(self.model@, g, pp);
        let base = page_off(self.model@, g, pp, self.fixed);
        (base, page_prefix(group) as int, base + slot_off(group, rank % pp, self.fixed))
    }

    /// What entry `i` contributes to a scan: its block, and the first byte of
    /// its key past the page's prefix.
    pub open spec fn term(self, i: int) -> u64 {
        let e = self.model@[i];
        let p = self.place(i).1;
        (e.1.block as u64).wrapping_add(
            if e.0.len() > p {
                e.0[p] as u64
            } else {
                0
            },
        )
    }

    /// Where the parts of an entry's record lie.
    pub proof fn lemma_place(self, rank: int)
        requires
            self.wf(),
            0 <= rank < self.model@.len(),
        ensures
            ({
                let es = self.model@;
                let pp = self.per_page as int;
                let g = rank / pp;
                let j = rank % pp;
                let group = page_group(es, g, pp);
                let (base, prefix, at) = self.place(rank);
                let e = es[rank];
                let suffix = e.0.subrange(prefix, e.0.len() as int);
                &&& 0 <= g < self.page_dir@.len()
                &&& self.page_dir@[g] == base
                &&& j < group.len() <= u16::MAX
                &&& group[j] == e
                &&& prefix <= u16::MAX
                &&& prefix <= e.0.len() <= prefix + u16::MAX
                &&& e.0.take(prefix) == group[0].0.take(prefix)
                &&& slot_off(group, j, self.fixed) <= u16::MAX
                &&& lies_at(self.pages@, base, le_bytes(prefix as nat, 2))
                &&& lies_at(self.pages@, base + 2, le_bytes(group.len(), 2))
                &&& lies_at(self.pages@, base + 4, e.0.take(prefix))
                &&& lies_at(
                    self.pages@,
                    base + 4 + prefix + 2 * j,
                    le_bytes((at - base) as nat, 2),
                )
                &&& lies_at(self.pages@, at, le_bytes(suffix.len(), 2))
                &&& lies_at(self.pages@, at + 2, suffix)
                &&& lies_at(self.pages@, at + 2 + suffix.len(), ext_bytes(e.1, self.fixed))
            }),
    {
        let es = self.model@;
        let pp = self.per_page as int;
        let n = page_count(es.len() as int, pp);
        lemma_rank_page(es.len() as int, pp, rank);
        let g = rank / pp;
        let j = rank % pp;
        let group = page_group(es, g, pp);
        assert(page_fits(group, self.fixed));
        reveal(page_fits);
        assert(group[j] == es[rank]);
        lemma_pages_lie(es, n as nat, g, pp, self.fixed);
        let base = page_off(es, g, pp, self.fixed);
        lemma_page_parts(self.pages@, base, group, self.fixed);
        lemma_record_parts(self.pages@, base, group, j, self.fixed);
    }

    /// What the place of an entry says: its page starts where the directory has
    /// it, what follows the page's head is the longest start that the page's
    /// keys have in common, and the record tells how long the rest of its key
    /// is.
    pub proof fn lemma_located(self, rank: int)
        requires
            self.wf(),
            0 <= rank < self.model@.len(),
        ensures
            ({
                let (base, prefix, at) = self.place(rank);
                let group = page_group(self.model@, rank / self.per_page as int, self.per_page as int);
                let key = self.model@[rank].0;
                &&& self.page_dir@[rank / self.per_page as int] == base
                &&& 0 <= base
                &&& base + 4 + prefix <= self.pages@.len()
                &&& at + 2 <= self.pages@.len()
                &&& 0 <= prefix <= key.len()
                &&& self.pages@.subrange(base + 4, base + 4 + prefix) == key.take(prefix)
                &&& le_value(self.pages@.subrange(at, at + 2)) == key.len() - prefix
                &&& all_start_alike(group, prefix)
                &&& forall|q: int| q > prefix ==> !#[trigger] all_start_alike(group, q)
            }),
    {
        self.lemma_place(rank);
        let pp = self.per_page as int;
        let (base, prefix, at) = self.place(rank);
        let g = rank / pp;
        let group = page_group(self.model@, g, pp);
        let key = self.model@[rank].0;
        let suffix = key.subrange(prefix, key.len() as int);
        lemma_lies(self.pages@, base + 4, key.take(prefix));
        lemma_lies(self.pages@, at, le_bytes(suffix.len(), 2));
        lemma_le16(suffix.len() as u16);
        assert(page_fits(group, self.fixed));
        reveal(page_fits);
        lemma_lcp(group[0].0, group.last().0);
        assert forall|q: int| q > prefix implies !#[trigger] all_start_alike(group, q) by {
            if all_start_alike(group, q) {
                let (a, b) = (group[0].0, group[group.len() - 1].0);
                assert(a.take(q)[prefix] == b.take(q)[prefix]);
            }
        }
    }

    /// What a scan reads of an entry: its block, and the first byte of its key that
    /// the keys of its page do not all share.
    pub proof fn lemma_scan_reads(self, i: int) -> (from: int)
        requires
            self.wf(),
            0 <= i < self.model@.len(),
        ensures
            0 <= from <= self.model@[i].0.len(),
            self.term(i) == self.model@[i].1.block + own_byte(self.model@[i].0, from),
            shared_on_page(self.model@, i, self.per_page as int, from),
    {
        let es = self.model@;
        let pp = self.per_page as int;
        let g = i / pp;
        let group = page_group(es, g, pp);
        self.lemma_place(i);
        self.lemma_located(i);
        let from = self.place(i).1;
        let lo = g * pp;
        assert((g + 1) * pp == lo + pp) by (nonlinear_arith)
            requires
                lo == g * pp,
        ;
        assert forall|j: int| 0 <= j < es.len() && j / pp == g implies lo <= j < lo + group.len()
            && #[trigger] es[j] == group[j - lo] by {
            vstd::arithmetic::div_mod::lemma_fundamental_div_mod(j, pp);
            vstd::arithmetic::div_mod::lemma_mod_bound(j, pp);
            assert(pp * g == g * pp) by (nonlinear_arith);
        }
        assert(es[i] == group[i - lo]);
        assert forall|j: int| 0 <= j < es.len() && j / pp == g implies from <= (
        #[trigger] es[j]).0.len() && es[j].0.take(from) == es[i].0.take(from) by {
            assert(es[j] == group[j - lo]);
        }
        assert forall|q: int| q > from implies #[trigger] some_differs(es, i, pp, q) by {
            assert(!all_start_alike(group, q));
            let (a, b) = choose|a: int, b: int|
                0 <= a < group.len() && 0 <= b < group.len() && !(q <= (#[trigger] group[a]).0.len()
                    && group[a].0.take(q) == (#[trigger] group[b]).0.take(q));
            assert(es[lo + a] == group[a] && es[lo + b] == group[b]);
            assert(pp * g == g * pp) by (nonlinear_arith);
            vstd::arithmetic::div_mod::lemma_fundamental_div_mod_converse(lo + a, pp, g, a);
            vstd::arithmetic::div_mod::lemma_fundamental_div_mod_converse(lo + b, pp, g, b);
            if es[lo + a].0.len() >= q && es[lo + a].0.take(q) == es[i].0.take(q) {
                assert(es[lo + b].0.take(q) != es[i].0.take(q));
            }
        }
        from
    }

    /// The bytes that the pages and their directory occupy.
    pub fn bytes(&self) -> (n: usize)
        ensures
            self.memory().sized(),
            self.memory().takes(n as int),
    {
        bytes_of(self)
    }

    /// A record and what leads to it lie within the pages.
    pub proof fn lemma_place_bounds(self, rank: int)
        requires
            self.wf(),
            0 <= rank < self.model@.len(),
        ensures
            ({
                let (base, prefix, at) = self.place(rank);
                let pp = self.per_page as int;
                &&& 0 <= rank / pp < self.page_dir@.len()
                &&& 0 <= base
                &&& 0 <= prefix
                &&& base + 4 + prefix + 2 * (rank % pp) + 2 <= self.pages@.len()
                &&& base <= at
                &&& at + 2 <= self.pages@.len()
            }),
    {
        let (base, prefix, at) = self.place(rank);
        let pp = self.per_page as int;
        let e = self.model@[rank];
        let suffix = e.0.subrange(prefix, e.0.len() as int);
        self.lemma_place(rank);
        lemma_le16((at - base) as u16);
        lemma_le16(suffix.len() as u16);
        lemma_lies(
            self.pages@,
            base + 4 + prefix + 2 * (rank % pp),
            le_bytes((at - base) as nat, 2),
        );
        lemma_lies(self.pages@, at, le_bytes(suffix.len(), 2));
    }

    /// Two records at the same place are of the same entry.
    proof fn lemma_same_place(self, i: int, j: int)
        requires
            self.wf(),
            0 <= i < self.model@.len(),
            0 <= j < self.model@.len(),
            self.place(i) == self.place(j),
        ensures
            self.model@[i] == self.model@[j],
    {
        let (base, prefix, at) = self.place(i);
        let (a, b) = (self.model@[i], self.model@[j]);
        self.lemma_place(i);
        self.lemma_place(j);
        let sa = a.0.subrange(prefix, a.0.len() as int);
        let sb = b.0.subrange(prefix, b.0.len() as int);
        lemma_le16(sa.len() as u16);
        lemma_le16(sb.len() as u16);
        lemma_lies(self.pages@, at, le_bytes(sa.len(), 2));
        lemma_lies(self.pages@, at, le_bytes(sb.len(), 2));
        assert(sa.len() == sb.len());
        lemma_lies(self.pages@, at + 2, sa);
        lemma_lies(self.pages@, at + 2, sb);
        lemma_lies(self.pages@, base + 4, a.0.take(prefix));
        lemma_lies(self.pages@, base + 4, b.0.take(prefix));
        assert(a.0 =~= a.0.take(prefix) + sa);
        assert(b.0 =~= b.0.take(prefix) + sb);
        lemma_ext_unique(self.pages@, at + 2 + sa.len(), self.fixed, a.1, b.1);
    }

    /// Where the head of page `g` lies.
    proof fn lemma_page_head(self, g: int)
        requires
            self.wf(),
            0 <= g < self.page_dir@.len(),
        ensures
            ({
                let es = self.model@;
                let pp = self.per_page as int;
                let group = page_group(es, g, pp);
                let base = page_off(es, g, pp, self.fixed);
                &&& self.page_dir@[g] == base
                &&& group.len() <= u16::MAX
                &&& page_prefix(group) <= u16::MAX
                &&& lies_at(self.pages@, base, le_bytes(page_prefix(group), 2))
                &&& lies_at(self.pages@, base + 2, le_bytes(group.len(), 2))
                &&& base + 4 <= self.pages@.len()
            }),
    {
        let es = self.model@;
        let pp = self.per_page as int;
        let n = page_count(es.len() as int, pp);
        let group = page_group(es, g, pp);
        assert(page_fits(group, self.fixed));
        reveal(page_fits);
        lemma_pages_lie(es, n as nat, g, pp, self.fixed);
        let base = page_off(es, g, pp, self.fixed);
        lemma_page_parts(self.pages@, base, group, self.fixed);
        lemma_le16(group.len() as u16);
        lemma_lies(self.pages@, base + 2, le_bytes(group.len(), 2));
    }

    /// Where the record at `rank` lies: the start of its page, the length of
    /// the page's prefix, and its own offset. `None` past the last record.
    pub fn locate(&self, rank: usize) -> (r: Option<(usize, usize, usize)>)
        requires
            self.wf(),
        ensures
            r is Some <==> rank < self.model@.len(),
            r matches Some((base, prefix, at)) ==> (base as int, prefix as int, at as int)
                == self.place(rank as int),
    {
        let page: usize = rank / self.per_page;
        let slot: usize = rank % self.per_page;
        let ghost n = self.model@.len() as int;
        let ghost pp = self.per_page as int;
        let ghost group = page_group(self.model@, page as int, pp);
        proof {
            if rank < n {
                lemma_rank_page(n, pp, rank as int);
            }
        }
        if page >= self.page_dir.len() {
            return None;
        }
        proof {
            self.lemma_page_head(page as int);
            assert(self.pages@.len() == self.pages.len());
            if rank >= n {
                lemma_page_beyond(n, pp, rank as int);
            }
        }
        let base: usize = self.page_dir[page] as usize;
        let prefix: usize = get_known_le16(
            &self.pages,
            base,
            Ghost(page_prefix(group) as u16),
        ) as usize;
        let count: usize = get_known_le16(&self.pages, base + 2, Ghost(group.len() as u16)) as usize;
        if slot >= count {
            return None;
        }
        proof {
            self.lemma_place(rank as int);
            lemma_le16(slot_off(group, slot as int, self.fixed) as u16);
            lemma_lies(
                self.pages@,
                base + 4 + prefix + 2 * slot,
                le_bytes(slot_off(group, slot as int, self.fixed) as nat, 2),
            );
            lemma_lies(
                self.pages@,
                base + slot_off(group, slot as int, self.fixed),
                le_bytes((self.model@[rank as int].0.len() - prefix) as nat, 2),
            );
        }
        let slot_base: usize = base + 4 + prefix;
        let off: usize = get_known_le16(
            &self.pages,
            slot_base + 2 * slot,
            Ghost(slot_off(group, slot as int, self.fixed) as u16),
        ) as usize;
        Some((base, prefix, base + off))
    }

    /// The extent of the record that `locate` placed, if its key is `key`.
    pub fn matches(&self, base: usize, prefix: usize, at: usize, key: &[u8]) -> (r: Option<Ext4>)
        requires
            self.wf(),
            exists|i: int|
                0 <= i < self.model@.len() && #[trigger] self.place(i) == (
                    base as int,
                    prefix as int,
                    at as int,
                ),
        ensures
            forall|i: int|
                0 <= i < self.model@.len() && #[trigger] self.place(i) == (
                    base as int,
                    prefix as int,
                    at as int,
                ) ==> r == if self.model@[i].0 == key@ {
                    Some(self.model@[i].1)
                } else {
                    None
                },
    {
        let ghost i = choose|i: int|
            0 <= i < self.model@.len() && #[trigger] self.place(i) == (
                base as int,
                prefix as int,
                at as int,
            );
        let ghost k = self.model@[i].0;
        let ghost suffix = k.subrange(prefix as int, k.len() as int);
        proof {
            self.lemma_place(i);
            lemma_le16(suffix.len() as u16);
            lemma_lies(self.pages@, at as int, le_bytes(suffix.len(), 2));
            lemma_lies(self.pages@, at + 2, suffix);
            lemma_lies(self.pages@, base + 4, k.take(prefix as int));
            assert(self.pages@.len() == self.pages.len());
            assert(k =~= k.take(prefix as int) + suffix);
        }
        let sl: usize = get_known_le16(&self.pages, at, Ghost(suffix.len() as u16)) as usize;
        let p: usize = at + 2;
        let same: bool = key.len() == prefix + sl && bytes_equal(
            slice_subrange(key, 0, prefix),
            get_known_bytes(&self.pages, base + 4, prefix, Ghost(k.take(prefix as int))),
        ) && bytes_equal(
            slice_subrange(key, prefix, key.len()),
            get_known_bytes(&self.pages, p, sl, Ghost(suffix)),
        );
        proof {
            if same {
                assert(key@ =~= key@.subrange(0, prefix as int) + key@.subrange(
                    prefix as int,
                    key@.len() as int,
                ));
                assert(key@ =~= k);
            }
            if key@ == k {
                assert(key@.subrange(0, prefix as int) =~= k.take(prefix as int));
            }
            assert forall|i2: int|
                0 <= i2 < self.model@.len() && #[trigger] self.place(i2) == (
                    base as int,
                    prefix as int,
                    at as int,
                ) implies self.model@[i2] == self.model@[i] by {
                self.lemma_same_place(i, i2);
            }
        }
        if same {
            Some(get_ext(&self.pages, p + sl, self.fixed, Ghost(self.model@[i].1)).0)
        } else {
            None
        }
    }

    /// Adds up what `n` entries from position `start` on contribute.
    pub fn scan(&self, start: usize, n: usize) -> (acc: u64)
        requires
            self.wf(),
            start + n <= usize::MAX,
        ensures
            acc == sum_range(
                |i: int| self.term(i),
                start as int,
                scan_end(start as int, n as int, self.model@.len() as int),
            ),
    {
        let ghost terms = |i: int| self.term(i);
        let end: usize = if start + n <= self.len {
            start + n
        } else {
            self.len
        };
        let mut acc: u64 = 0;
        let mut rank: usize = start;
        while rank < end
            invariant
                self.wf(),
                end <= self.model@.len(),
                start <= rank,
                rank <= end || rank == start,
                terms == (|i: int| self.term(i)),
                acc == sum_range(terms, start as int, rank as int),
            decreases end - rank,
        {
            let ghost e = self.model@[rank as int];
            let located: Option<(usize, usize, usize)> = self.locate(rank);
            let (_, prefix, at) = match located {
                Some(x) => x,
                None => {
                    return acc;
                },
            };
            let ghost suffix = e.0.subrange(prefix as int, e.0.len() as int);
            proof {
                self.lemma_place(rank as int);
                lemma_le16(suffix.len() as u16);
                lemma_lies(self.pages@, at as int, le_bytes(suffix.len(), 2));
                lemma_lies(self.pages@, at + 2, suffix);
                assert(self.pages@.len() == self.pages.len());
            }
            let sl: usize = get_known_le16(&self.pages, at, Ghost(suffix.len() as u16)) as usize;
            let kb: u64 = if sl > 0 {
                get_known_bytes(&self.pages, at + 2, sl, Ghost(suffix))[0] as u64
            } else {
                0
            };
            let (x, _) = get_ext(&self.pages, at + 2 + sl, self.fixed, Ghost(e.1));
            acc = acc.wrapping_add((x.block as u64).wrapping_add(kb));
            proof {
                assert(terms(rank as int) == self.term(rank as int));
            }
            rank = rank + 1;
        }
        acc
    }

    /// Pages with variable-length extents.
    pub fn build(keys: &[Vec<u8>], exts: &[Ext4], per_page: usize) -> (r: PagedBlob)
        requires
            keys@.len() <= exts@.len(),
            per_page > 0,
            prefixes_within(entries_of(keys@, exts@), per_page as int),
        ensures
            r.model@ == entries_of(keys@, exts@),
            r.per_page == per_page,
            !r.fixed,
            r.written(),
            paged_fits(r.model@, per_page as int, false) ==> r.wf(),
    {
        Self::build_with(keys, exts, per_page, false)
    }

    /// Pages with fixed-width extents.
    pub fn build_fixed(keys: &[Vec<u8>], exts: &[Ext4], per_page: usize) -> (r: PagedBlob)
        requires
            keys@.len() <= exts@.len(),
            per_page > 0,
            prefixes_within(entries_of(keys@, exts@), per_page as int),
        ensures
            r.model@ == entries_of(keys@, exts@),
            r.per_page == per_page,
            r.fixed,
            r.written(),
            paged_fits(r.model@, per_page as int, true) ==> r.wf(),
    {
        Self::build_with(keys, exts, per_page, true)
    }

    /// Writes the pages of the keys with their extents, `per_page` records to a
    /// page. The blob is whole when what is kept in sixteen and thirty-two bits
    /// fits there and the keys of each page share its prefix, as sorted keys do.
    pub fn build_with(keys: &[Vec<u8>], exts: &[Ext4], per_page: usize, fixed: bool) -> (r:
        PagedBlob)
        requires
            keys@.len() <= exts@.len(),
            per_page > 0,
            prefixes_within(entries_of(keys@, exts@), per_page as int),
        ensures
            r.model@ == entries_of(keys@, exts@),
            r.per_page == per_page,
            r.fixed == fixed,
            r.written(),
            paged_fits(r.model@, per_page as int, fixed) ==> r.wf(),
    {
        let ghost es = entries_of(keys@, exts@);
        let ghost pp = per_page as int;
        let mut pages: Vec<u8> = Vec::new();
        let mut page_dir: Vec<u32> = Vec::new();
        let mut lo: usize = 0;
        let ghost mut g: int = 0;
        proof {
            reveal(paged_bytes_of);
            assert(0 * pp == 0) by (nonlinear_arith);
        }
        while lo < keys.len()
            invariant
                per_page > 0,
                pp == per_page,
                es == entries_of(keys@, exts@),
                keys@.len() <= exts@.len(),
                prefixes_within(es, pp),
                0 <= g,
                lo <= keys@.len(),
                lo < keys@.len() ==> lo == g * pp,
                lo == keys@.len() ==> (g - 1) * pp < lo <= g * pp,
                pages@ == paged_bytes_of(es, g as nat, pp, fixed),
                page_dir@.len() == g,
                forall|h: int|
                    0 <= h < g ==> #[trigger] page_dir@[h] == page_off(es, h, pp, fixed) as u32,
            decreases keys.len() - lo,
        {
            let end: usize = if per_page < keys.len() - lo {
                lo + per_page
            } else {
                keys.len()
            };
            let ghost group = page_group(es, g, pp);
            proof {
                assert((g + 1) * pp == g * pp + pp) by (nonlinear_arith);
                assert(group.len() == end - lo);
                assert forall|j: int| 0 <= j < group.len() implies #[trigger] group[j] == (
                    keys@[lo + j]@,
                    exts@[lo + j],
                ) by {
                    assert(group[j] == es[lo + j]);
                }
                lemma_page_counted(es.len() as int, pp, g);
                assert forall|j: int| 0 <= j < group.len() implies page_prefix(group) <= (
                #[trigger] group[j]).0.len() by {
                    assert(page_group(es, g, pp)[j] == group[j]);
                }
            }
            page_dir.push(pages.len() as u32);
            push_page(&mut pages, keys, exts, lo, end, fixed, Ghost(group));
            proof {
                reveal(paged_bytes_of);
                g = g + 1;
                assert((g - 1) * pp == g * pp - pp) by (nonlinear_arith);
            }
            lo = end;
        }
        proof {
            lemma_page_total(keys@.len() as int, pp, g);
            if paged_fits(es, pp, fixed) {
                assert forall|h: int| 0 <= h < g implies #[trigger] page_dir@[h] == page_off(
                    es,
                    h,
                    pp,
                    fixed,
                ) by {
                    assert(page_fits(page_group(es, h, pp), fixed));
                }
            }
        }
        shrink(&mut pages);
        shrink(&mut page_dir);
        PagedBlob {
            per_page,
            fixed,
            pages,
            page_dir,
            len: keys.len(),
            model: Ghost(es),
        }
    }
}

/// No key of a page is shorter than what the page's first and last key share.
pub open spec fn prefixes_within(es: Seq<Entry>, pp: int) -> bool {
    forall|g: int, j: int|
        #![trigger page_group(es, g, pp)[j]]
        0 <= g < page_count(es.len() as int, pp) && 0 <= j < page_group(es, g, pp).len()
            ==> page_prefix(page_group(es, g, pp)) <= page_group(es, g, pp)[j].0.len()
}

/// Sorted keys have what the first and the last key of their page share.
pub proof fn lemma_sorted_prefixes_within(es: Seq<Entry>, pp: int)
    requires
        pp > 0,
        strictly_sorted(keys_of(es)),
    ensures
        prefixes_within(es, pp),
        forall|g: int, j: int|
            #![trigger page_group(es, g, pp)[j]]
            0 <= g < page_count(es.len() as int, pp) && 0 <= j < page_group(es, g, pp).len() ==> {
                let group = page_group(es, g, pp);
                let p = page_prefix(group) as int;
                group[j].0.take(p) == group[0].0.take(p)
            },
{
    let n = es.len() as int;
    let ks = keys_of(es);
    assert forall|g: int, j: int|
        #![trigger page_group(es, g, pp)[j]]
        0 <= g < page_count(n, pp) && 0 <= j < page_group(es, g, pp).len() implies {
        let group = page_group(es, g, pp);
        let p = page_prefix(group) as int;
        p <= group[j].0.len() && group[j].0.take(p) == group[0].0.take(p)
    } by {
        let group = page_group(es, g, pp);
        let p = page_prefix(group) as int;
        let lo = g * pp;
        assert(lo >= 0) by (nonlinear_arith)
            requires
                g >= 0,
                pp > 0,
                lo == g * pp,
        ;
        let last = group.len() - 1;
        lemma_page_start(n, pp, g);
        assert((g + 1) * pp == lo + pp) by (nonlinear_arith)
            requires
                lo == g * pp,
        ;
        assert(group[0] == es[lo] && group[j] == es[lo + j] && group[last] == es[lo + last]);
        assert(ks[lo] == group[0].0 && ks[lo + j] == group[j].0 && ks[lo + last] == group[last].0);
        lemma_order_total(group[0].0, group[j].0);
        lemma_order_total(group[j].0, group[last].0);
        lemma_between_shares_prefix(group[0].0, group[j].0, group[last].0);
    }
}

/// A counted page starts before the end.
proof fn lemma_page_start(n: int, pp: int, g: int)
    requires
        pp > 0,
        0 <= g < page_count(n, pp),
    ensures
        g * pp < n,
{
    let m = n + pp - 1;
    let c = page_count(n, pp);
    vstd::arithmetic::div_mod::lemma_fundamental_div_mod(m, pp);
    vstd::arithmetic::div_mod::lemma_mod_bound(m, pp);
    assert((g + 1) * pp <= c * pp) by (nonlinear_arith)
        requires
            g + 1 <= c,
            pp > 0,
    ;
    assert(c * pp == pp * c) by (nonlinear_arith);
    assert((g + 1) * pp == g * pp + pp) by (nonlinear_arith);
}

/// The pages that were counted off are all there are.
proof fn lemma_page_total(n: int, pp: int, g: int)
    requires
        pp > 0,
        n >= 0,
        g >= 0,
        n == 0 ==> g == 0 || (g - 1) * pp < n <= g * pp,
        n > 0 ==> (g - 1) * pp < n <= g * pp,
    ensures
        g == page_count(n, pp),
{
    let m = n + pp - 1;
    assert((g - 1) * pp == g * pp - pp) by (nonlinear_arith);
    assert(g * pp == pp * g) by (nonlinear_arith);
    vstd::arithmetic::div_mod::lemma_fundamental_div_mod_converse(m, pp, g, m - g * pp);
}

/// A page that starts before the end is one of those that are counted.
proof fn lemma_page_counted(n: int, pp: int, g: int)
    requires
        pp > 0,
        0 <= g,
        g * pp < n,
    ensures
        g < page_count(n, pp),
{
    assert(g * pp >= 0) by (nonlinear_arith)
        requires
            g >= 0,
            pp > 0,
    ;
    lemma_rank_page(n, pp, g * pp);
    assert(g * pp == pp * g) by (nonlinear_arith);
    vstd::arithmetic::div_mod::lemma_div_multiples_vanish(g, pp);
}

/// `n` zero bytes.
spec fn zeros(n: nat) -> Seq<u8> {
    Seq::new(n, |i: int| 0u8)
}

/// Appends the page of the keys from `lo` up to `end`.
fn push_page(
    pages: &mut Vec<u8>,
    keys: &[Vec<u8>],
    exts: &[Ext4],
    lo: usize,
    end: usize,
    fixed: bool,
    Ghost(group): Ghost<Seq<Entry>>,
)
    requires
        lo < end <= keys@.len(),
        keys@.len() <= exts@.len(),
        group.len() == end - lo,
        forall|j: int|
            0 <= j < group.len() ==> #[trigger] group[j] == (keys@[lo + j]@, exts@[lo + j]),
        forall|j: int| 0 <= j < group.len() ==> page_prefix(group) <= (#[trigger] group[j]).0.len(),
    ensures
        final(pages)@ == old(pages)@ + page_bytes(group, fixed),
{
    let ghost start = pages@;
    let base: usize = pages.len();
    assert(group[0].0 == keys@[lo as int]@ && group.last().0 == keys@[end - 1]@);
    let prefix: usize = common_prefix(&keys[lo], &keys[end - 1]);
    let count: usize = end - lo;
    let ghost gp = page_prefix(group);
    proof {
        lemma_lcp(group[0].0, group.last().0);
        lemma_le16(prefix as u16);
        lemma_le16(count as u16);
    }
    push_le16(pages, prefix as u16);
    push_le16(pages, count as u16);
    push_bytes(pages, slice_subrange(&keys[lo], 0, prefix));
    let slot_base: usize = pages.len();
    let ghost head = pages@;
    proof {
        assert(head =~= start + (le_bytes((gp as u16) as nat, 2) + (le_bytes(
            (group.len() as u16) as nat,
            2,
        ) + group[0].0.take(gp as int))));
        assert(head.len() == start.len() + 4 + gp);
    }
    let mut j: usize = 0;
    while j < count
        invariant
            j <= count,
            pages@ == head + zeros(2 * j as nat),
        decreases count - j,
    {
        pages.push(0);
        pages.push(0);
        proof {
            assert(pages@ =~= head + zeros(2 * (j + 1) as nat));
        }
        j = j + 1;
    }
    let ghost body = pages@;
    let mut offs: Vec<u16> = Vec::new();
    let mut j: usize = 0;
    proof {
        reveal(page_records);
        assert(body =~= body + page_records(group, 0, fixed));
    }
    while j < count
        invariant
            j <= count,
            count == end - lo,
            count == group.len(),
            end <= keys@.len() <= exts@.len(),
            forall|j: int|
                0 <= j < group.len() ==> #[trigger] group[j] == (keys@[lo + j]@, exts@[lo + j]),
            forall|j: int| 0 <= j < group.len() ==> gp <= (#[trigger] group[j]).0.len(),
            gp == page_prefix(group),
            prefix == gp,
            base == start.len(),
            body.len() == start.len() + 4 + gp + 2 * group.len(),
            pages@ == body + page_records(group, j as nat, fixed),
            offs@.len() == j,
            forall|i: int| 0 <= i < j ==> #[trigger] offs@[i] == slot_off(group, i, fixed) as u16,
        decreases count - j,
    {
        let k: &Vec<u8> = &keys[lo + j];
        assert(group[j as int] == (keys@[lo + j]@, exts@[lo + j]));
        offs.push((pages.len() - base) as u16);
        push_le16(pages, (k.len() - prefix) as u16);
        push_bytes(pages, slice_subrange(k, prefix, k.len()));
        put_ext(pages, exts[lo + j], fixed);
        proof {
            reveal(page_records);
            assert(pages@ =~= body + (page_records(group, j as nat, fixed) + page_record(
                group[j as int],
                gp,
                fixed,
            )));
        }
        j = j + 1;
    }
    let ghost recs = page_records(group, group.len(), fixed);
    let mut j: usize = 0;
    proof {
        reveal(page_slots);
        assert(pages@ =~= head + page_slots(group, 0, fixed) + zeros(2 * count as nat) + recs);
    }
    while j < count
        invariant
            j <= count,
            count == group.len(),
            offs@.len() == count,
            slot_base == head.len(),
            pages@ == head + page_slots(group, j as nat, fixed) + zeros((2 * (count - j)) as nat)
                + recs,
            forall|i: int|
                0 <= i < count ==> #[trigger] offs@[i] == slot_off(group, i, fixed) as u16,
        decreases count - j,
    {
        let off: u16 = offs[j];
        let ghost was = pages@;
        proof {
            lemma_page_slots_len(group, j as nat, fixed);
            lemma_le16(off);
            assert(pages@.len() == pages.len());
        }
        pages.set(slot_base + 2 * j, (off % 256) as u8);
        pages.set(slot_base + 2 * j + 1, (off / 256) as u8);
        proof {
            reveal(page_slots);
            let s = page_slots(group, j as nat, fixed);
            let two = le_bytes(off as nat, 2);
            assert(page_slots(group, (j + 1) as nat, fixed) == s + two);
            assert(pages@ =~= head + (s + two) + zeros((2 * (count - j - 1)) as nat) + recs);
        }
        j = j + 1;
    }
    proof {
        let s = page_slots(group, group.len(), fixed);
        assert(pages@ =~= start + page_bytes(group, fixed));
    }
}

/// The records of a page of keys of at most `most` bytes take at most that and
/// twenty-two each.
proof fn lemma_page_records_size(group: Seq<Entry>, n: nat, fixed: bool, most: nat)
    requires
        n <= group.len(),
        forall|j: int|
            0 <= j < group.len() ==> page_prefix(group) <= (#[trigger] group[j]).0.len() <= most,
    ensures
        page_records(group, n, fixed).len() <= n * (most + 22),
    decreases n,
{
    reveal(page_records);
    if n > 0 {
        lemma_page_records_size(group, (n - 1) as nat, fixed, most);
        let e = group[n - 1];
        assert(page_prefix(group) <= e.0.len() <= most);
        lemma_le16((e.0.len() - page_prefix(group)) as u16);
        crate::ext::lemma_ext_bytes_most(e.1, fixed);
        assert(n * (most + 22) == (n - 1) * (most + 22) + most + 22) by (nonlinear_arith);
    } else {
        assert(n * (most + 22) == 0) by (nonlinear_arith)
            requires
                n == 0,
        ;
    }
}

/// A page of keys of at most `most` bytes takes at most that and four, and that
/// and twenty-four for every record.
proof fn lemma_page_size(group: Seq<Entry>, fixed: bool, most: nat)
    requires
        group.len() > 0,
        forall|j: int|
            0 <= j < group.len() ==> page_prefix(group) <= (#[trigger] group[j]).0.len() <= most,
    ensures
        page_bytes(group, fixed).len() <= 4 + most + group.len() * (most + 24),
{
    let n = group.len();
    let p = page_prefix(group);
    assert(p <= group[0].0.len() <= most);
    lemma_lcp(group[0].0, group.last().0);
    lemma_le16(p as u16);
    lemma_le16(n as u16);
    lemma_page_slots_len(group, n, fixed);
    lemma_page_records_size(group, n, fixed, most);
    assert(n * (most + 24) == n * (most + 22) + 2 * n) by (nonlinear_arith);
}

/// The first `g` pages of keys of at most `most` bytes take at most that and
/// four each, and that and twenty-four for every record.
proof fn lemma_pages_size(es: Seq<Entry>, g: int, pp: int, fixed: bool, most: nat)
    requires
        pp > 0,
        0 <= g < page_count(es.len() as int, pp),
        prefixes_within(es, pp),
        forall|i: int| 0 <= i < es.len() ==> (#[trigger] es[i]).0.len() <= most,
    ensures
        page_off(es, g, pp, fixed) <= g * (4 + most) + (g * pp) * (most + 24),
    decreases g,
{
    reveal(paged_bytes_of);
    let n = es.len() as int;
    if g > 0 {
        lemma_pages_size(es, g - 1, pp, fixed, most);
        lemma_page_start(n, pp, g);
        let group = page_group(es, g - 1, pp);
        let lo = (g - 1) * pp;
        assert(lo >= 0 && lo + pp == g * pp) by (nonlinear_arith)
            requires
                g >= 1,
                pp > 0,
                lo == (g - 1) * pp,
        ;
        assert(group.len() == pp);
        assert forall|j: int| 0 <= j < group.len() implies page_prefix(group) <= (
        #[trigger] group[j]).0.len() <= most by {
            assert(page_group(es, g - 1, pp)[j] == es[lo + j]);
        }
        lemma_page_size(group, fixed, most);
        assert(g * (4 + most) == (g - 1) * (4 + most) + 4 + most) by (nonlinear_arith);
        assert((g * pp) * (most + 24) == lo * (most + 24) + pp * (most + 24)) by (nonlinear_arith)
            requires
                lo + pp == g * pp,
        ;
    } else {
        assert(g * (4 + most) + (g * pp) * (most + 24) == 0) by (nonlinear_arith)
            requires
                g == 0,
        ;
    }
}

/// Sorted keys of at most `most` bytes fit their pages where the pages are
/// small enough for sixteen bits and there are few enough for thirty-two.
pub proof fn lemma_short_keys_fit(es: Seq<Entry>, pp: int, fixed: bool, most: nat)
    requires
        pp > 0,
        strictly_sorted(keys_of(es)),
        forall|i: int| 0 <= i < es.len() ==> (#[trigger] es[i]).0.len() <= most,
        4 + most + pp * (most + 24) <= u16::MAX,
        es.len() * (2 * most + 28) <= u32::MAX,
    ensures
        prefixes_within(es, pp),
        paged_fits(es, pp, fixed),
{
    let n = es.len() as int;
    lemma_sorted_prefixes_within(es, pp);
    assert forall|g: int| 0 <= g < page_count(n, pp) implies {
        &&& page_fits(#[trigger] page_group(es, g, pp), fixed)
        &&& page_off(es, g, pp, fixed) <= u32::MAX
    } by {
        let group = page_group(es, g, pp);
        let lo = g * pp;
        lemma_page_start(n, pp, g);
        assert(lo >= 0 && (g + 1) * pp == lo + pp && lo >= g) by (nonlinear_arith)
            requires
                g >= 0,
                pp > 0,
                lo == g * pp,
        ;
        assert(0 < group.len() <= pp);
        let p = page_prefix(group);
        assert forall|j: int| 0 <= j < group.len() implies p <= (#[trigger] group[j]).0.len()
            <= most by {
            assert(page_group(es, g, pp)[j] == es[lo + j]);
        }
        assert(p <= group[0].0.len());
        assert(pp <= pp * (most + 24)) by (nonlinear_arith)
            requires
                pp > 0,
        ;
        reveal(page_fits);
        assert forall|j: int| 0 <= j < group.len() implies {
            &&& p <= (#[trigger] group[j]).0.len() <= p + u16::MAX
            &&& group[j].0.take(p as int) == group[0].0.take(p as int)
            &&& slot_off(group, j, fixed) <= u16::MAX
        } by {
            assert(page_group(es, g, pp)[j] == es[lo + j]);
            lemma_page_records_size(group, j as nat, fixed, most);
            assert(j * (most + 22) + 2 * group.len() <= pp * (most + 24)) by (nonlinear_arith)
                requires
                    0 <= j <= group.len() <= pp,
            ;
        }
        lemma_pages_size(es, g, pp, fixed, most);
        assert(g * (4 + most) + (g * pp) * (most + 24) <= n * (2 * most + 28)) by (nonlinear_arith)
            requires
                0 <= g <= g * pp,
                g * pp < n,
                most >= 0,
        ;
    }
}

} // verus!
