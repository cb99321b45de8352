//! One page of the tree: a kind, a count, records one after the other, and at
//! the tail of the page a directory of where they start.

use crate::bytes::{
    le_bytes, lemma_le16, lemma_lies, lemma_lies_append, lemma_lies_cut, lemma_lies_grow,
    lemma_lies_inside, lies_at, push_bytes, push_le16,
};
use vstd::prelude::*;

verus! {

/// A record's key, and what follows it.
pub type Rec = (Seq<u8>, Seq<u8>);

/// A record: key length, key, payload.
pub open spec fn rec_bytes(r: Rec) -> Seq<u8> {
    le_bytes((r.0.len() as u16) as nat, 2) + (r.0 + r.1)
}

/// The first `n` records in a row.
#[verifier::opaque]
pub open spec fn recs_bytes(recs: Seq<Rec>, n: nat) -> Seq<u8>
    decreases n,
{
    if n == 0 {
        Seq::empty()
    } else {
        recs_bytes(recs, (n - 1) as nat) + rec_bytes(recs[n - 1])
    }
}

/// Where record `i` starts in its page.
pub open spec fn rec_off(recs: Seq<Rec>, i: int) -> int {
    3 + recs_bytes(recs, i as nat).len() as int
}

/// The directory entries of the first `n` records.
#[verifier::opaque]
pub open spec fn dir_bytes(recs: Seq<Rec>, n: nat) -> Seq<u8>
    decreases n,
{
    if n == 0 {
        Seq::empty()
    } else {
        dir_bytes(recs, (n - 1) as nat) + le_bytes((rec_off(recs, n - 1) as u16) as nat, 2)
    }
}

/// `n` zero bytes.
pub open spec fn padding(n: nat) -> Seq<u8> {
    Seq::new(n, |i: int| 0u8)
}

/// How many bytes the records and their directory take in a page.
pub open spec fn page_used(recs: Seq<Rec>) -> int {
    3 + recs_bytes(recs, recs.len()).len() as int + 2 * recs.len()
}

/// A page's kind, count and records.
pub open spec fn page_body(kind: u8, recs: Seq<Rec>) -> Seq<u8> {
    seq![kind] + (le_bytes((recs.len() as u16) as nat, 2) + recs_bytes(recs, recs.len()))
}

/// Bytes made `n` long: zeros follow a shorter run, and a longer one is cut.
pub open spec fn fitted(s: Seq<u8>, n: int) -> Seq<u8> {
    if n <= s.len() {
        s.take(n)
    } else {
        s + padding((n - s.len()) as nat)
    }
}

/// A page of the given size: the body up to the directory, then the directory.
/// A record that does not fit is cut where the directory starts.
pub open spec fn tree_page(kind: u8, recs: Seq<Rec>, size: int) -> Seq<u8> {
    fitted(page_body(kind, recs), size - 2 * recs.len()) + dir_bytes(recs, recs.len())
}

/// The records fit the page, and all that is kept in sixteen bits fits there.
pub open spec fn page_holds(recs: Seq<Rec>, size: int) -> bool {
    &&& page_used(recs) <= size <= 0x1_0000
    &&& recs.len() > 0
}

/// A directory takes two bytes a record.
proof fn lemma_dir_len(recs: Seq<Rec>, n: nat)
    ensures
        dir_bytes(recs, n).len() == 2 * n,
    decreases n,
{
    reveal(dir_bytes);
    if n > 0 {
        lemma_dir_len(recs, (n - 1) as nat);
        lemma_le16(rec_off(recs, n - 1) as u16);
    }
}

/// Directory entry `i` lies at twice `i`.
proof fn lemma_dir_lies(recs: Seq<Rec>, n: nat, i: int)
    requires
        0 <= i < n,
    ensures
        lies_at(dir_bytes(recs, n), 2 * i, le_bytes((rec_off(recs, i) as u16) as nat, 2)),
    decreases n,
{
    reveal(dir_bytes);
    let before = dir_bytes(recs, (n - 1) as nat);
    let last = le_bytes((rec_off(recs, n - 1) as u16) as nat, 2);
    lemma_dir_len(recs, (n - 1) as nat);
    if i == n - 1 {
        lemma_lies_append(before, last);
    } else {
        lemma_dir_lies(recs, (n - 1) as nat, i);
        lemma_lies_grow(before, last, 2 * i, le_bytes((rec_off(recs, i) as u16) as nat, 2));
    }
}

/// Record `i` lies where the ones before it end, and takes at least two bytes.
pub proof fn lemma_recs_lie(recs: Seq<Rec>, n: nat, i: int)
    requires
        0 <= i < n,
    ensures
        lies_at(recs_bytes(recs, n), rec_off(recs, i) - 3, rec_bytes(recs[i])),
        rec_off(recs, i) + 2 <= rec_off(recs, i + 1) <= rec_off(recs, n as int),
        rec_off(recs, i + 1) == rec_off(recs, i) + 2 + recs[i].0.len() + recs[i].1.len(),
    decreases n,
{
    reveal(recs_bytes);
    lemma_le16(recs[i].0.len() as u16);
    let before = recs_bytes(recs, (n - 1) as nat);
    let last = rec_bytes(recs[n - 1]);
    lemma_le16(recs[n - 1].0.len() as u16);
    if i == n - 1 {
        lemma_lies_append(before, last);
    } else {
        lemma_recs_lie(recs, (n - 1) as nat, i);
        lemma_lies_grow(before, last, rec_off(recs, i) - 3, rec_bytes(recs[i]));
    }
}

/// A page takes its size.
pub proof fn lemma_page_len(kind: u8, recs: Seq<Rec>, size: int)
    requires
        2 * recs.len() <= size,
    ensures
        tree_page(kind, recs, size).len() == size,
{
    lemma_dir_len(recs, recs.len());
}

/// What a page that lies at `base` says: its kind and count, and for record `i`
/// its directory entry, key length, key and payload.
pub proof fn lemma_page_says(
    pages: Seq<u8>,
    base: int,
    kind: u8,
    recs: Seq<Rec>,
    size: int,
    i: int,
)
    requires
        lies_at(pages, base, tree_page(kind, recs, size)),
        page_holds(recs, size),
        0 <= i < recs.len(),
    ensures
        0 <= base,
        base + size <= pages.len(),
        pages[base] == kind,
        recs.len() <= u16::MAX,
        lies_at(pages, base + 1, le_bytes(recs.len(), 2)),
        rec_off(recs, i) <= u16::MAX,
        lies_at(
            pages,
            base + size - 2 * recs.len() + 2 * i,
            le_bytes(rec_off(recs, i) as nat, 2),
        ),
        recs[i].0.len() <= u16::MAX,
        lies_at(pages, base + rec_off(recs, i), le_bytes(recs[i].0.len(), 2)),
        lies_at(pages, base + rec_off(recs, i) + 2, recs[i].0),
        lies_at(pages, base + rec_off(recs, i) + 2 + recs[i].0.len(), recs[i].1),
{
    let n = recs.len();
    let k = seq![kind];
    let c = le_bytes((n as u16) as nat, 2);
    let r = recs_bytes(recs, n);
    let z = padding((size - page_used(recs)) as nat);
    let d = dir_bytes(recs, n);
    lemma_dir_len(recs, n);
    lemma_recs_lie(recs, n, i);
    lemma_recs_count(recs, n);
    assert(n <= u16::MAX && rec_off(recs, i) <= u16::MAX && recs[i].0.len() <= u16::MAX);
    lemma_le16(n as u16);
    assert(tree_page(kind, recs, size) =~= k + (c + (r + (z + d))));
    lemma_lies_cut(pages, base, k, c + (r + (z + d)));
    lemma_lies_cut(pages, base + 1, c, r + (z + d));
    lemma_lies_cut(pages, base + 3, r, z + d);
    lemma_lies_cut(pages, base + 3 + r.len(), z, d);
    lemma_lies(pages, base, k);
    assert(pages.subrange(base, base + 1)[0] == kind);
    lemma_lies(pages, base + 3 + r.len() + z.len(), d);
    lemma_dir_lies(recs, n, i);
    lemma_lies_inside(
        pages,
        base + size - 2 * n,
        d,
        2 * i,
        le_bytes((rec_off(recs, i) as u16) as nat, 2),
    );
    lemma_lies_inside(pages, base + 3, r, rec_off(recs, i) - 3, rec_bytes(recs[i]));
    let at = base + rec_off(recs, i);
    let l = le_bytes((recs[i].0.len() as u16) as nat, 2);
    lemma_le16(recs[i].0.len() as u16);
    lemma_lies_cut(pages, at, l, recs[i].0 + recs[i].1);
    lemma_lies_cut(pages, at + 2, recs[i].0, recs[i].1);
}

/// Two bytes a record bound the number of records.
proof fn lemma_recs_count(recs: Seq<Rec>, n: nat)
    ensures
        2 * n <= recs_bytes(recs, n).len(),
    decreases n,
{
    if n > 0 {
        lemma_recs_count(recs, (n - 1) as nat);
        lemma_recs_lie(recs, n, n - 1);
    }
}

/// A page under construction: the head with its count still open, and the
/// records so far.
pub open spec fn open_page(
    pages: Seq<u8>,
    before: Seq<u8>,
    kind: u8,
    recs: Seq<Rec>,
    slots: Seq<u16>,
) -> bool {
    &&& pages == before + (seq![kind, 0u8, 0u8] + recs_bytes(recs, recs.len()))
    &&& slots.len() == recs.len()
    &&& forall|i: int| 0 <= i < slots.len() ==> #[trigger] slots[i] == rec_off(recs, i) as u16
}

/// Starts a page.
pub(crate) fn start_page(pages: &mut Vec<u8>, kind: u8) -> (slots: Vec<u16>)
    ensures
        open_page(final(pages)@, old(pages)@, kind, Seq::empty(), slots@),
{
    pages.push(kind);
    pages.push(0);
    pages.push(0);
    proof {
        reveal(recs_bytes);
        assert(pages@ =~= old(pages)@ + (seq![kind, 0u8, 0u8] + recs_bytes(
            Seq::<Rec>::empty(),
            0,
        )));
    }
    Vec::new()
}

/// Adding a record leaves the ones before as they are.
pub proof fn lemma_recs_push(recs: Seq<Rec>, r: Rec, n: nat)
    requires
        n <= recs.len(),
    ensures
        recs_bytes(recs.push(r), n) == recs_bytes(recs, n),
    decreases n,
{
    reveal(recs_bytes);
    if n > 0 {
        lemma_recs_push(recs, r, (n - 1) as nat);
        assert(recs.push(r)[n - 1] == recs[n - 1]);
    }
}

/// Adds a record, whose payload has been encoded, to the page at `base`.
pub(crate) fn add_record(
    pages: &mut Vec<u8>,
    slots: &mut Vec<u16>,
    base: usize,
    key: &[u8],
    payload: &[u8],
    Ghost(before): Ghost<Seq<u8>>,
    Ghost(kind): Ghost<u8>,
    Ghost(recs): Ghost<Seq<Rec>>,
)
    requires
        open_page(old(pages)@, before, kind, recs, old(slots)@),
        base == before.len(),
    ensures
        open_page(
            final(pages)@,
            before,
            kind,
            recs.push((key@, payload@)),
            final(slots)@,
        ),
        final(pages)@.len() == old(pages)@.len() + 2 + key@.len() + payload@.len(),
{
    let ghost r = (key@, payload@);
    let ghost was = pages@;
    slots.push((pages.len() - base) as u16);
    push_le16(pages, key.len() as u16);
    push_bytes(pages, key);
    push_bytes(pages, payload);
    proof {
        let now = recs.push(r);
        lemma_le16(key@.len() as u16);
        lemma_recs_push(recs, r, recs.len());
        assert(recs_bytes(now, now.len()) == recs_bytes(recs, recs.len()) + rec_bytes(r)) by {
            reveal(recs_bytes);
        }
        assert(pages@ =~= before + (seq![kind, 0u8, 0u8] + recs_bytes(now, now.len())));
        assert forall|i: int| 0 <= i < slots@.len() implies #[trigger] slots@[i] == rec_off(
            now,
            i,
        ) as u16 by {
            lemma_recs_push(recs, r, i as nat);
        }
    }
}

/// Writes the count, pads the page and appends the directory. A page whose
/// records do not fit is cut to its size.
pub(crate) fn finish_page(
    pages: &mut Vec<u8>,
    slots: &Vec<u16>,
    base: usize,
    size: usize,
    Ghost(before): Ghost<Seq<u8>>,
    Ghost(kind): Ghost<u8>,
    Ghost(recs): Ghost<Seq<Rec>>,
)
    requires
        open_page(old(pages)@, before, kind, recs, slots@),
        base == before.len(),
        base + size <= usize::MAX,
        2 * slots@.len() <= size,
    ensures
        final(pages)@ == before + tree_page(kind, recs, size as int),
{
    let count: u16 = slots.len() as u16;
    let ghost body = recs_bytes(recs, recs.len());
    proof {
        lemma_le16(count);
        assert(pages@.len() == pages.len());
    }
    pages.set(base + 1, (count % 256) as u8);
    pages.set(base + 2, (count / 256) as u8);
    proof {
        assert(pages@ =~= before + page_body(kind, recs));
    }
    let ghost head = pages@;
    let dir: usize = base + size - 2 * slots.len();
    pages.resize(dir, 0);
    let ghost padded = pages@;
    proof {
        let cut = fitted(page_body(kind, recs), size - 2 * recs.len());
        assert(padded =~= before + cut) by {
            assert forall|i: int| 0 <= i < padded.len() implies padded[i] == (before
                + cut)[i] by {
                if dir > head.len() && i < head.len() {
                    assert(padded.subrange(0, head.len() as int)[i] == padded[i]);
                }
            }
        }
    }
    let mut i: usize = 0;
    proof {
        reveal(dir_bytes);
        assert(padded =~= padded + dir_bytes(recs, 0));
    }
    while i < slots.len()
        invariant
            i <= slots@.len(),
            slots@.len() == recs.len(),
            forall|j: int| 0 <= j < slots@.len() ==> #[trigger] slots@[j] == rec_off(
                recs,
                j,
            ) as u16,
            pages@ == padded + dir_bytes(recs, i as nat),
        decreases slots.len() - i,
    {
        push_le16(pages, slots[i]);
        proof {
            reveal(dir_bytes);
            assert(pages@ =~= padded + dir_bytes(recs, (i + 1) as nat));
        }
        i = i + 1;
    }
    proof {
        assert(pages@ =~= before + tree_page(kind, recs, size as int));
    }
}

} // verus!
