//! A bulk-loaded, page-based B+tree in one flat buffer. Leaves come first, in
//! key order, then each level of branches over the one below. Separators are
//! full keys.

use crate::btree_page::{
    add_record, finish_page, lemma_page_len, lemma_page_says, open_page, page_holds, rec_off,
    recs_bytes, start_page, tree_page, Rec,
};
use crate::bytes::{
    bytes_le, bytes_less, bytes_lt, le_bytes, le_value, lemma_le16, lemma_le32, lemma_lies,
    lemma_lies_append, lemma_lies_grow, lemma_order_total, lies_at, push_le32, read_le16,
    read_le32, strictly_sorted, to_owned,
};
use crate::ext::{ext_bytes, get_ext, lemma_ext_bytes_len, put_ext};
use crate::layout::{
    entries_of, first_match, keys_of, lemma_first_match_none, lemma_first_match_sorted,
    lemma_wrapping_two, sum_range, Entry, Ext4, Layout,
};
use crate::memory::{bytes_of, shrink, Memory, Rooms, Scale, Weighed};
use vstd::arithmetic::div_mod::{lemma_div_multiples_vanish, lemma_mod_multiples_basic};
use vstd::prelude::*;
use vstd::slice::slice_subrange;

verus! {

// ----------------------------------------------------- filling the pages --

/// From which to which record a page goes.
pub type Span = (int, int);

/// Where a page ends that has taken `cnt` records of `used` bytes and comes to
/// record `i`: it takes a record while the record and its directory entry fit,
/// and always one.
pub open spec fn page_take(sizes: Seq<int>, i: int, used: int, cnt: int, size: int) -> int
    decreases sizes.len() - i,
{
    if i >= sizes.len() {
        i
    } else if cnt > 0 && 3 + used + sizes[i] + 2 * (cnt + 1) > size {
        i
    } else {
        page_take(sizes, i + 1, used + sizes[i], cnt + 1, size)
    }
}

/// A page ends no earlier than where it has come to, and takes one record.
pub proof fn lemma_page_take(sizes: Seq<int>, i: int, used: int, cnt: int, size: int)
    requires
        0 <= i <= sizes.len(),
    ensures
        i <= page_take(sizes, i, used, cnt, size) <= sizes.len(),
        i < sizes.len() && cnt <= 0 ==> i < page_take(sizes, i, used, cnt, size),
    decreases sizes.len() - i,
{
    if i < sizes.len() {
        lemma_page_take(sizes, i + 1, used + sizes[i], cnt + 1, size);
    }
}

/// The pages that take the records from `i` on.
pub open spec fn page_spans(sizes: Seq<int>, i: int, size: int) -> Seq<Span>
    decreases sizes.len() - i,
{
    if i < 0 || i >= sizes.len() {
        Seq::empty()
    } else {
        proof {
            lemma_page_take(sizes, i, 0, 0, size);
        }
        let e = page_take(sizes, i, 0, 0, size);
        seq![(i, e)] + page_spans(sizes, e, size)
    }
}

/// The pages follow one another without a gap, from `from` to `to`.
#[verifier::opaque]
pub open spec fn spans_cover(spans: Seq<Span>, from: int, to: int) -> bool {
    &&& spans.len() > 0 ==> spans[0].0 == from
    &&& spans.len() == 0 ==> from == to
    &&& forall|t: int|
        0 <= t < spans.len() ==> {
            &&& (#[trigger] spans[t]).0 < spans[t].1
            &&& spans[t].1 == if t + 1 < spans.len() {
                spans[t + 1].0
            } else {
                to
            }
        }
}

/// What it means to follow one another, at one page.
proof fn lemma_cover_at(spans: Seq<Span>, from: int, to: int, t: int)
    requires
        spans_cover(spans, from, to),
        0 <= t < spans.len(),
    ensures
        t == 0 ==> spans[t].0 == from,
        spans[t].0 < spans[t].1,
        spans[t].1 == if t + 1 < spans.len() {
            spans[t + 1].0
        } else {
            to
        },
{
    reveal(spans_cover);
}

proof fn lemma_page_spans(sizes: Seq<int>, i: int, size: int)
    requires
        0 <= i <= sizes.len(),
    ensures
        spans_cover(page_spans(sizes, i, size), i, sizes.len() as int),
        i < sizes.len() ==> page_spans(sizes, i, size).len() > 0,
        forall|t: int|
            0 <= t < page_spans(sizes, i, size).len() ==> {
                let s = #[trigger] page_spans(sizes, i, size)[t];
                s.1 == page_take(sizes, s.0, 0, 0, size)
            },
    decreases sizes.len() - i,
{
    reveal(spans_cover);
    if i < sizes.len() {
        lemma_page_take(sizes, i, 0, 0, size);
        let e = page_take(sizes, i, 0, 0, size);
        lemma_page_spans(sizes, e, size);
        let all = page_spans(sizes, i, size);
        let rest = page_spans(sizes, e, size);
        assert forall|t: int| 0 <= t < all.len() implies {
            &&& (#[trigger] all[t]).0 < all[t].1
            &&& all[t].1 == if t + 1 < all.len() {
                all[t + 1].0
            } else {
                sizes.len() as int
            }
            &&& all[t].1 == page_take(sizes, all[t].0, 0, 0, size)
        } by {
            if t > 0 {
                assert(all[t] == rest[t - 1]);
                if t + 1 < all.len() {
                    assert(all[t + 1] == rest[t]);
                }
            } else if all.len() > 1 {
                assert(all[1] == rest[0]);
            }
        }
    }
}

/// Pages further on start further on.
proof fn lemma_spans_order(spans: Seq<Span>, from: int, to: int, a: int, b: int)
    requires
        spans_cover(spans, from, to),
        0 <= a <= b < spans.len(),
    ensures
        spans[a].0 + (b - a) <= spans[b].0,
        from <= spans[a].0,
        spans[b].1 <= to,
    decreases b - a, spans.len() - b, a,
{
    if a < b {
        lemma_spans_order(spans, from, to, a, b - 1);
        lemma_cover_at(spans, from, to, b - 1);
        lemma_spans_order(spans, from, to, b, b);
    } else {
        lemma_spans_start(spans, from, to, a);
        lemma_spans_stop(spans, from, to, a);
    }
}

proof fn lemma_spans_start(spans: Seq<Span>, from: int, to: int, a: int)
    requires
        spans_cover(spans, from, to),
        0 <= a < spans.len(),
    ensures
        from <= spans[a].0,
    decreases a,
{
    if a > 0 {
        lemma_spans_start(spans, from, to, a - 1);
        lemma_cover_at(spans, from, to, a - 1);
    } else {
        lemma_cover_at(spans, from, to, 0);
    }
}

proof fn lemma_spans_stop(spans: Seq<Span>, from: int, to: int, a: int)
    requires
        spans_cover(spans, from, to),
        0 <= a < spans.len(),
    ensures
        spans[a].1 <= to,
    decreases spans.len() - a,
{
    lemma_cover_at(spans, from, to, a);
    if a + 1 < spans.len() {
        lemma_spans_stop(spans, from, to, a + 1);
        lemma_cover_at(spans, from, to, a + 1);
    }
}

// ---------------------------------------------------------------- levels --

/// One level of the tree: which records each page takes from the level below,
/// and which entry comes first under it.
pub struct Level {
    pub spans: Seq<Span>,
    pub firsts: Seq<int>,
}

/// The bytes that the leaf records take.
pub open spec fn leaf_sizes(es: Seq<Entry>) -> Seq<int> {
    Seq::new(es.len(), |i: int| 18 + es[i].0.len() as int)
}

/// The bytes that the branch records over a level take.
pub open spec fn branch_sizes(es: Seq<Entry>, firsts: Seq<int>) -> Seq<int> {
    Seq::new(firsts.len(), |c: int| 6 + es[firsts[c]].0.len() as int)
}

/// The leaves.
pub open spec fn leaf_level(es: Seq<Entry>, size: int) -> Level {
    let spans = page_spans(leaf_sizes(es), 0, size);
    Level { spans, firsts: Seq::new(spans.len(), |t: int| spans[t].0) }
}

/// The branches over a level.
pub open spec fn up_level(es: Seq<Entry>, below: Level, size: int) -> Level {
    let spans = page_spans(branch_sizes(es, below.firsts), 0, size);
    Level { spans, firsts: Seq::new(spans.len(), |t: int| below.firsts[spans[t].0]) }
}

/// A level and those over it, up to a single page.
#[verifier::opaque]
pub open spec fn tree_levels(es: Seq<Entry>, lv: Level, size: int) -> Seq<Level>
    decreases lv.firsts.len(),
{
    let up = up_level(es, lv, size);
    if lv.firsts.len() <= 1 || up.firsts.len() >= lv.firsts.len() {
        seq![lv]
    } else {
        seq![lv] + tree_levels(es, up, size)
    }
}

/// Each level over this one has fewer pages than the one below it.
#[verifier::opaque]
pub open spec fn shrinks(es: Seq<Entry>, lv: Level, size: int) -> bool
    decreases lv.firsts.len(),
{
    let up = up_level(es, lv, size);
    lv.firsts.len() <= 1 || (up.firsts.len() < lv.firsts.len() && shrinks(es, up, size))
}

/// The levels of the tree over the entries.
#[verifier::opaque]
pub open spec fn levels_of(es: Seq<Entry>, size: int) -> Seq<Level> {
    tree_levels(es, leaf_level(es, size), size)
}

/// Levels are each over the one below, and end in a single page.
proof fn lemma_levels(es: Seq<Entry>, lv: Level, size: int)
    requires
        shrinks(es, lv, size),
        lv.firsts.len() > 0,
    ensures
        ({
            let all = tree_levels(es, lv, size);
            &&& all.len() > 0
            &&& all[0] == lv
            &&& all.last().firsts.len() == 1
            &&& forall|k: int| 0 <= k < all.len() - 1 ==> (#[trigger] all[k]).firsts.len() > 1
            &&& forall|k: int| 0 < k < all.len() ==> #[trigger] all[k] == up_level(
                es,
                all[k - 1],
                size,
            )
        }),
    decreases lv.firsts.len(),
{
    reveal(shrinks);
    reveal(tree_levels);
    if lv.firsts.len() > 1 {
        let up = up_level(es, lv, size);
        lemma_page_spans(branch_sizes(es, lv.firsts), 0, size);
        lemma_levels(es, up, size);
        let all = tree_levels(es, lv, size);
        let rest = tree_levels(es, up, size);
        assert forall|k: int| 0 < k < all.len() implies #[trigger] all[k] == up_level(
            es,
            all[k - 1],
            size,
        ) by {
            assert(all[k] == rest[k - 1]);
            if k > 1 {
                assert(all[k - 1] == rest[k - 2]);
            }
        }
        assert(all.last() == rest.last());
        assert forall|k: int| 0 <= k < all.len() - 1 implies (#[trigger] all[k]).firsts.len()
            > 1 by {
            if k > 0 {
                assert(all[k] == rest[k - 1]);
            }
        }
    }
}

/// A level's pages cover the records below it, and their first entries are
/// in order.
pub open spec fn level_sound(lv: Level, n: int) -> bool {
    &&& lv.firsts.len() == lv.spans.len() > 0
    &&& lv.firsts[0] == 0
    &&& forall|t: int| 0 <= t < lv.firsts.len() ==> 0 <= #[trigger] lv.firsts[t] < n
    &&& forall|a: int, b: int|
        0 <= a < b < lv.firsts.len() ==> #[trigger] lv.firsts[a] < #[trigger] lv.firsts[b]
}

proof fn lemma_leaf_level(es: Seq<Entry>, size: int)
    requires
        es.len() > 0,
    ensures
        level_sound(leaf_level(es, size), es.len() as int),
        spans_cover(leaf_level(es, size).spans, 0, es.len() as int),
{
    let lv = leaf_level(es, size);
    let n = es.len() as int;
    lemma_page_spans(leaf_sizes(es), 0, size);
    lemma_cover_at(lv.spans, 0, n, 0);
    assert forall|t: int| 0 <= t < lv.firsts.len() implies 0 <= #[trigger] lv.firsts[t] < n by {
        lemma_spans_order(lv.spans, 0, n, t, t);
        lemma_cover_at(lv.spans, 0, n, t);
    }
    assert forall|a: int, b: int| 0 <= a < b < lv.firsts.len() implies #[trigger] lv.firsts[a]
        < #[trigger] lv.firsts[b] by {
        lemma_spans_order(lv.spans, 0, n, a, b);
    }
}

proof fn lemma_up_level(es: Seq<Entry>, below: Level, size: int)
    requires
        level_sound(below, es.len() as int),
    ensures
        level_sound(up_level(es, below, size), es.len() as int),
        spans_cover(up_level(es, below, size).spans, 0, below.firsts.len() as int),
{
    let lv = up_level(es, below, size);
    let n = es.len() as int;
    let m = below.firsts.len() as int;
    lemma_page_spans(branch_sizes(es, below.firsts), 0, size);
    lemma_cover_at(lv.spans, 0, m, 0);
    assert forall|t: int| 0 <= t < lv.firsts.len() implies 0 <= #[trigger] lv.firsts[t] < n by {
        lemma_spans_order(lv.spans, 0, m, t, t);
        lemma_cover_at(lv.spans, 0, m, t);
    }
    assert forall|a: int, b: int| 0 <= a < b < lv.firsts.len() implies #[trigger] lv.firsts[a]
        < #[trigger] lv.firsts[b] by {
        lemma_spans_order(lv.spans, 0, m, a, b);
        lemma_spans_order(lv.spans, 0, m, b, b);
        lemma_cover_at(lv.spans, 0, m, b);
    }
}

/// Every level of the tree is sound, and covers the level below.
proof fn lemma_level_at(es: Seq<Entry>, size: int, k: int)
    requires
        es.len() > 0,
        shrinks(es, leaf_level(es, size), size),
        0 <= k < levels_of(es, size).len(),
    ensures
        level_sound(levels_of(es, size)[k], es.len() as int),
        k == 0 ==> levels_of(es, size)[0] == leaf_level(es, size) && spans_cover(
            levels_of(es, size)[0].spans,
            0,
            es.len() as int,
        ),
        k > 0 ==> levels_of(es, size)[k] == up_level(es, levels_of(es, size)[k - 1], size)
            && spans_cover(
            levels_of(es, size)[k].spans,
            0,
            levels_of(es, size)[k - 1].firsts.len() as int,
        ),
        levels_of(es, size).last().firsts.len() == 1,
        k < levels_of(es, size).len() - 1 ==> levels_of(es, size)[k].firsts.len() > 1,
    decreases k,
{
    reveal(levels_of);
    lemma_leaf_level(es, size);
    lemma_levels(es, leaf_level(es, size), size);
    if k > 0 {
        lemma_level_at(es, size, k - 1);
        lemma_up_level(es, levels_of(es, size)[k - 1], size);
    }
}

// ----------------------------------------------------------------- pages --

/// How many pages the first `k` levels have.
pub open spec fn pages_below(levels: Seq<Level>, k: int) -> int
    decreases k,
{
    if k <= 0 {
        0
    } else {
        pages_below(levels, k - 1) + levels[k - 1].spans.len()
    }
}

/// Where page `t` of level `k` starts.
pub open spec fn page_base(levels: Seq<Level>, k: int, t: int, size: int) -> int {
    (pages_below(levels, k) + t) * size
}

/// The records of page `t` of level `k`: entries in a leaf, separators with
/// their children in a branch.
pub open spec fn page_recs(es: Seq<Entry>, levels: Seq<Level>, k: int, t: int, size: int) -> Seq<
    Rec,
> {
    let (lo, hi) = levels[k].spans[t];
    if k == 0 {
        Seq::new((hi - lo) as nat, |i: int| (es[lo + i].0, ext_bytes(es[lo + i].1, true)))
    } else {
        Seq::new(
            (hi - lo) as nat,
            |i: int|
                (
                    es[levels[k - 1].firsts[lo + i]].0,
                    le_bytes((page_base(levels, k - 1, lo + i, size) as u32) as nat, 4),
                ),
        )
    }
}

/// The kind byte of the pages of a level.
pub open spec fn kind_of(k: int) -> u8 {
    if k == 0 {
        0
    } else {
        1
    }
}

/// The pages of the first `k` levels, each as its kind and records.
#[verifier::opaque]
pub open spec fn page_list(es: Seq<Entry>, levels: Seq<Level>, k: int, size: int) -> Seq<
    (u8, Seq<Rec>),
>
    decreases k,
{
    if k <= 0 {
        Seq::empty()
    } else {
        page_list(es, levels, k - 1, size) + level_list(es, levels, k - 1, size)
    }
}

/// The pages of level `k`.
pub open spec fn level_list(es: Seq<Entry>, levels: Seq<Level>, k: int, size: int) -> Seq<
    (u8, Seq<Rec>),
> {
    Seq::new(
        levels[k].spans.len(),
        |t: int| (kind_of(k), page_recs(es, levels, k, t, size)),
    )
}

/// The listed pages lie one after the other.
pub open spec fn laid(pages: Seq<u8>, list: Seq<(u8, Seq<Rec>)>, size: int) -> bool {
    &&& pages.len() == list.len() * size
    &&& forall|g: int|
        0 <= g < list.len() ==> lies_at(
            pages,
            g * size,
            tree_page((#[trigger] list[g]).0, list[g].1, size),
        )
}

/// Page `t` of level `k` is in the list behind the pages of the levels below.
proof fn lemma_page_list(es: Seq<Entry>, levels: Seq<Level>, n: int, k: int, t: int, size: int)
    requires
        0 <= k < n,
        0 <= t < levels[k].spans.len(),
    ensures
        page_list(es, levels, n, size).len() == pages_below(levels, n),
        0 <= pages_below(levels, k),
        pages_below(levels, k) + t < pages_below(levels, n),
        page_list(es, levels, n, size)[pages_below(levels, k) + t] == (
            kind_of(k),
            page_recs(es, levels, k, t, size),
        ),
    decreases n,
{
    reveal(page_list);
    lemma_page_list_len(es, levels, n, size);
    lemma_page_list_len(es, levels, n - 1, size);
    lemma_page_list_len(es, levels, k, size);
    if k < n - 1 {
        lemma_page_list(es, levels, n - 1, k, t, size);
    }
}

proof fn lemma_page_list_len(es: Seq<Entry>, levels: Seq<Level>, n: int, size: int)
    requires
        0 <= n,
    ensures
        page_list(es, levels, n, size).len() == pages_below(levels, n),
        0 <= pages_below(levels, n),
    decreases n,
{
    reveal(page_list);
    if n > 0 {
        lemma_page_list_len(es, levels, n - 1, size);
    }
}

/// One more page behind the others.
proof fn lemma_laid_push(
    before: Seq<u8>,
    after: Seq<u8>,
    list: Seq<(u8, Seq<Rec>)>,
    page: (u8, Seq<Rec>),
    size: int,
)
    requires
        size > 0,
        laid(before, list, size),
        2 * page.1.len() <= size,
        after == before + tree_page(page.0, page.1, size),
    ensures
        laid(after, list.push(page), size),
{
    let now = list.push(page);
    assert(now.len() * size == list.len() * size + size) by (nonlinear_arith)
        requires
            now.len() == list.len() + 1,
    ;
    let more = tree_page(page.0, page.1, size);
    lemma_page_len(page.0, page.1, size);
    assert forall|g: int| 0 <= g < now.len() implies lies_at(
        after,
        g * size,
        tree_page((#[trigger] now[g]).0, now[g].1, size),
    ) by {
        if g < list.len() {
            assert(now[g] == list[g]);
            lemma_lies_grow(before, more, g * size, tree_page(list[g].0, list[g].1, size));
        } else {
            lemma_lies_append(before, more);
        }
    }
}

// ------------------------------------------------------------------ tree --

/// A bulk-loaded B+tree.
pub struct BTree {
    pub pages: Vec<u8>,
    pub page_size: usize,
    pub root: usize,
    /// Levels from root to leaf.
    pub height: usize,
    /// Leaves come before branches, so an ordered scan is a walk up to here.
    pub leaf_end: usize,
    /// The entries that were loaded.
    pub model: Ghost<Seq<Entry>>,
}

/// Sorted entries whose pages all fit: every record fits a page by itself, and
/// offsets fit the bits that they are kept in.
pub open spec fn tree_fits(es: Seq<Entry>, size: int) -> bool {
    let levels = levels_of(es, size);
    &&& strictly_sorted(keys_of(es))
    &&& size <= 0x1_0000
    &&& forall|i: int| 0 <= i < es.len() ==> (#[trigger] es[i]).0.len() + 23 <= size
    &&& pages_below(levels, levels.len() as int) * size <= u32::MAX
}

/// The first entry under page `t` of a level, or the number of entries past
/// the last page.
pub open spec fn first_under(lv: Level, t: int, n: int) -> int {
    if t < lv.firsts.len() {
        lv.firsts[t]
    } else {
        n
    }
}

impl BTree {
    /// The levels of the tree.
    pub open spec fn levels(self) -> Seq<Level> {
        levels_of(self.model@, self.page_size as int)
    }

    /// The records of page `t` of level `k`.
    pub open spec fn recs(self, k: int, t: int) -> Seq<Rec> {
        page_recs(self.model@, self.levels(), k, t, self.page_size as int)
    }

    /// Where page `t` of level `k` starts.
    pub open spec fn base(self, k: int, t: int) -> int {
        page_base(self.levels(), k, t, self.page_size as int)
    }

    /// The pages are those of the tree over the entries.
    #[verifier::opaque]
    pub open spec fn whole(self) -> bool {
        let es = self.model@;
        let size = self.page_size as int;
        let levels = self.levels();
        let list = page_list(es, levels, levels.len() as int, size);
        &&& es.len() > 0
        &&& size > 0
        &&& shrinks(es, leaf_level(es, size), size)
        &&& strictly_sorted(keys_of(es))
        &&& self.height == levels.len()
        &&& laid(self.pages@, list, size)
        &&& forall|g: int| 0 <= g < list.len() ==> page_holds((#[trigger] list[g]).1, size)
        &&& pages_below(levels, levels.len() as int) * size <= u32::MAX
        &&& self.root == self.base(levels.len() - 1, 0)
        &&& self.leaf_end == levels[0].spans.len() * size
    }

    /// How many records the page at `base` tells.
    pub open spec fn count_in(self, base: int) -> nat {
        le_value(self.pages@.subrange(base + 1, base + 3))
    }

    /// Where directory entry `i` of the page at `base` points, when the page has
    /// `count` of them.
    pub open spec fn slot_in(self, base: int, count: int, i: int) -> int {
        let dir = base + self.page_size - 2 * count;
        base + le_value(self.pages@.subrange(dir + 2 * i, dir + 2 * i + 2))
    }

    /// The key of the record at `at`.
    pub open spec fn key_in(self, at: int) -> Seq<u8> {
        self.pages@.subrange(at + 2, at + 2 + le_value(self.pages@.subrange(at, at + 2)))
    }

    /// The keys of the page at `base`, in the order of its directory.
    pub open spec fn keys_in(self, base: int) -> Seq<Seq<u8>> {
        let count = self.count_in(base);
        Seq::new(count, |i: int| self.key_in(self.slot_in(base, count as int, i)))
    }

    /// How many records the first `t` pages tell together.
    pub open spec fn counts_upto(self, t: nat) -> nat
        decreases t,
    {
        if t == 0 {
            0
        } else {
            self.counts_upto((t - 1) as nat) + self.count_in((t - 1) * self.page_size)
        }
    }

    /// The keys of the first `t` pages, one page after the other.
    pub open spec fn keys_upto(self, t: nat) -> Seq<Seq<u8>>
        decreases t,
    {
        if t == 0 {
            Seq::empty()
        } else {
            self.keys_upto((t - 1) as nat) + self.keys_in((t - 1) * self.page_size)
        }
    }

    /// What page `t` of level `k` says of its record `i`.
    proof fn lemma_page(self, k: int, t: int, i: int)
        requires
            self.whole(),
            0 <= k < self.levels().len(),
            0 <= t < self.levels()[k].spans.len(),
            0 <= i < self.recs(k, t).len(),
        ensures
            ({
                let base = self.base(k, t);
                let recs = self.recs(k, t);
                let size = self.page_size as int;
                &&& 0 <= base <= u32::MAX
                &&& base + size <= self.pages@.len()
                &&& self.pages@[base] == kind_of(k)
                &&& recs.len() <= u16::MAX
                &&& 2 * recs.len() <= size
                &&& lies_at(self.pages@, base + 1, le_bytes(recs.len(), 2))
                &&& rec_off(recs, i) <= u16::MAX
                &&& lies_at(
                    self.pages@,
                    base + size - 2 * recs.len() + 2 * i,
                    le_bytes(rec_off(recs, i) as nat, 2),
                )
                &&& recs[i].0.len() <= u16::MAX
                &&& lies_at(self.pages@, base + rec_off(recs, i), le_bytes(recs[i].0.len(), 2))
                &&& lies_at(self.pages@, base + rec_off(recs, i) + 2, recs[i].0)
                &&& lies_at(
                    self.pages@,
                    base + rec_off(recs, i) + 2 + recs[i].0.len(),
                    recs[i].1,
                )
            }),
    {
        reveal(BTree::whole);
        let es = self.model@;
        let size = self.page_size as int;
        let levels = self.levels();
        let n = levels.len() as int;
        let list = page_list(es, levels, n, size);
        lemma_page_list(es, levels, n, k, t, size);
        let g = pages_below(levels, k) + t;
        assert(page_holds(list[g].1, size));
        lemma_page_says(self.pages@, g * size, kind_of(k), self.recs(k, t), size, i);
        assert(g * size <= pages_below(levels, n) * size) by (nonlinear_arith)
            requires
                g <= pages_below(levels, n),
                size > 0,
        ;
    }

    /// Every page has a record, as many as it takes from the level below.
    proof fn lemma_recs_len(self, k: int, t: int)
        requires
            self.whole(),
            0 <= k < self.levels().len(),
            0 <= t < self.levels()[k].spans.len(),
        ensures
            self.recs(k, t).len() == self.levels()[k].spans[t].1 - self.levels()[k].spans[t].0,
            self.recs(k, t).len() > 0,
    {
        reveal(BTree::whole);
        lemma_level_at(self.model@, self.page_size as int, k);
        let below = if k == 0 {
            self.model@.len() as int
        } else {
            self.levels()[k - 1].firsts.len() as int
        };
        lemma_cover_at(self.levels()[k].spans, 0, below, t);
    }

    /// Where the directory entry `i` of the page at `base` points.
    pub fn slot(&self, base: usize, count: usize, i: usize) -> (at: usize)
        requires
            base + self.page_size <= self.pages@.len(),
            i < count,
            2 * count <= self.page_size,
            self.slot_in(base as int, count as int, i as int) <= usize::MAX,
        ensures
            at == self.slot_in(base as int, count as int, i as int),
    {
        assert(self.pages@.len() == self.pages.len());
        let dir: usize = base + self.page_size - 2 * count;
        base + read_le16(&self.pages, dir + 2 * i) as usize
    }

    /// The key of the record at `at`.
    pub fn key_at(&self, at: usize) -> (k: &[u8])
        requires
            at + 2 <= self.pages@.len(),
            at + 2 + le_value(self.pages@.subrange(at as int, at + 2)) <= self.pages@.len(),
        ensures
            k@ == self.key_in(at as int),
    {
        assert(self.pages@.len() == self.pages.len());
        let kl: usize = read_le16(&self.pages, at) as usize;
        slice_subrange(&self.pages, at + 2, at + 2 + kl)
    }

    /// Where record `i` of page `t` of level `k` lies, and its key.
    fn record(&self, base: usize, count: usize, i: usize, Ghost(k): Ghost<int>, Ghost(t): Ghost<
        int,
    >) -> (r: (usize, &[u8]))
        requires
            self.whole(),
            0 <= k < self.levels().len(),
            0 <= t < self.levels()[k].spans.len(),
            base == self.base(k, t),
            count == self.recs(k, t).len(),
            i < count,
        ensures
            r.0 == base + rec_off(self.recs(k, t), i as int),
            r.1@ == self.recs(k, t)[i as int].0,
            r.0 + 2 + r.1@.len() <= self.pages@.len(),
    {
        let ghost recs = self.recs(k, t);
        let ghost off = rec_off(recs, i as int);
        proof {
            self.lemma_page(k, t, i as int);
            lemma_le16(off as u16);
            lemma_le16(recs[i as int].0.len() as u16);
            lemma_lies(
                self.pages@,
                base + self.page_size - 2 * count + 2 * i,
                le_bytes(off as nat, 2),
            );
            lemma_lies(self.pages@, base + off, le_bytes(recs[i as int].0.len(), 2));
            lemma_lies(self.pages@, base + off + 2, recs[i as int].0);
            assert(self.pages@.len() == self.pages.len());
            lemma_lies(
                self.pages@,
                base + off + 2 + recs[i as int].0.len(),
                recs[i as int].1,
            );
        }
        let e: usize = base + read_le16(
            &self.pages,
            base + self.page_size - 2 * count + 2 * i,
        ) as usize;
        (e, self.key_at(e))
    }

    /// How many records the page at `base` has, by its head.
    fn count_at(&self, base: usize, Ghost(k): Ghost<int>, Ghost(t): Ghost<int>) -> (count: usize)
        requires
            self.whole(),
            0 <= k < self.levels().len(),
            0 <= t < self.levels()[k].spans.len(),
            base == self.base(k, t),
        ensures
            count == self.recs(k, t).len(),
            count > 0,
            base + 3 <= self.pages@.len(),
            self.pages@[base as int] == kind_of(k),
    {
        proof {
            self.lemma_recs_len(k, t);
            self.lemma_page(k, t, 0);
            lemma_le16(self.recs(k, t).len() as u16);
            lemma_lies(self.pages@, base + 1, le_bytes(self.recs(k, t).len(), 2));
            assert(self.pages@.len() == self.pages.len());
        }
        read_le16(&self.pages, base + 1) as usize
    }

    /// The entry that record `i` of page `t` of level `k` is about: the entry
    /// itself in a leaf, the first one under the child in a branch.
    spec fn entry_of(self, k: int, t: int, i: int) -> int {
        let lo = self.levels()[k].spans[t].0;
        if k == 0 {
            lo + i
        } else {
            self.levels()[k - 1].firsts[lo + i]
        }
    }

    /// The records of a page are about entries in order.
    proof fn lemma_entries(self, k: int, t: int, a: int, b: int)
        requires
            self.whole(),
            0 <= k < self.levels().len(),
            0 <= t < self.levels()[k].spans.len(),
            0 <= a <= b < self.recs(k, t).len(),
        ensures
            0 <= self.entry_of(k, t, a) <= self.entry_of(k, t, b) < self.model@.len(),
            a < b ==> self.entry_of(k, t, a) < self.entry_of(k, t, b),
            self.recs(k, t)[a].0 == self.model@[self.entry_of(k, t, a)].0,
            self.recs(k, t)[b].0 == self.model@[self.entry_of(k, t, b)].0,
            a < b ==> bytes_lt(self.recs(k, t)[a].0, self.recs(k, t)[b].0),
    {
        reveal(BTree::whole);
        let es = self.model@;
        let size = self.page_size as int;
        let levels = self.levels();
        let (lo, hi) = levels[k].spans[t];
        let ks = keys_of(es);
        self.lemma_recs_len(k, t);
        lemma_level_at(es, size, k);
        if k == 0 {
            lemma_spans_order(levels[0].spans, 0, es.len() as int, t, t);
        } else {
            lemma_level_at(es, size, k - 1);
            lemma_spans_order(levels[k].spans, 0, levels[k - 1].firsts.len() as int, t, t);
            assert(0 <= levels[k - 1].firsts[lo + a] < es.len());
            assert(0 <= levels[k - 1].firsts[lo + b] < es.len());
        }
        let (x, y) = (self.entry_of(k, t, a), self.entry_of(k, t, b));
        assert(ks[x] == es[x].0 && ks[y] == es[y].0);
    }

    /// The last child whose separator is not after `key`.
    fn choose_child(
        &self,
        base: usize,
        count: usize,
        key: &[u8],
        Ghost(k): Ghost<int>,
        Ghost(t): Ghost<int>,
    ) -> (r: Option<usize>)
        requires
            self.whole(),
            0 <= k < self.levels().len(),
            0 <= t < self.levels()[k].spans.len(),
            base == self.base(k, t),
            count == self.recs(k, t).len(),
        ensures
            r matches Some(m) ==> m < count && bytes_le(self.recs(k, t)[m as int].0, key@)
                && forall|c: int|
                m < c < count ==> bytes_lt(key@, (#[trigger] self.recs(k, t)[c]).0),
            r is None ==> forall|c: int|
                0 <= c < count ==> bytes_lt(key@, (#[trigger] self.recs(k, t)[c]).0),
    {
        let ghost recs = self.recs(k, t);
        let mut lo: usize = 0;
        let mut hi: usize = count;
        let mut chosen: Option<usize> = None;
        while lo < hi
            invariant
                self.whole(),
                0 <= k < self.levels().len(),
                0 <= t < self.levels()[k].spans.len(),
                base == self.base(k, t),
                recs == self.recs(k, t),
                count == recs.len(),
                lo <= hi <= count,
                lo == 0 ==> chosen is None,
                lo > 0 ==> chosen == Some((lo - 1) as usize) && bytes_le(recs[lo - 1].0, key@),
                forall|c: int| hi <= c < count ==> bytes_lt(key@, (#[trigger] recs[c]).0),
            decreases hi - lo,
        {
            let mid: usize = lo + (hi - lo) / 2;
            let (_, sep) = self.record(base, count, mid, Ghost(k), Ghost(t));
            if bytes_less(key, sep) {
                proof {
                    assert forall|c: int| mid <= c < count implies bytes_lt(
                        key@,
                        (#[trigger] recs[c]).0,
                    ) by {
                        if c > mid {
                            self.lemma_entries(k, t, mid as int, c);
                            crate::bytes::lemma_order_transitive(
                                key@,
                                recs[mid as int].0,
                                recs[c].0,
                            );
                        }
                    }
                }
                hi = mid;
            } else {
                chosen = Some(mid);
                lo = mid + 1;
            }
        }
        chosen
    }

    /// The extent of `key` in the leaf at `base`, if it is there.
    fn find_in_leaf(&self, base: usize, count: usize, key: &[u8], Ghost(t): Ghost<int>) -> (r:
        Option<Ext4>)
        requires
            self.whole(),
            0 < self.levels().len(),
            0 <= t < self.levels()[0].spans.len(),
            base == self.base(0, t),
            count == self.recs(0, t).len(),
        ensures
            r matches Some(e) ==> exists|i: int|
                0 <= i < count && (#[trigger] self.recs(0, t)[i]).0 == key@ && e
                    == self.model@[self.entry_of(0, t, i)].1,
            r is None ==> forall|i: int|
                0 <= i < count ==> (#[trigger] self.recs(0, t)[i]).0 != key@,
    {
        let ghost recs = self.recs(0, t);
        let mut lo: usize = 0;
        let mut hi: usize = count;
        while lo < hi
            invariant
                self.whole(),
                0 < self.levels().len(),
                0 <= t < self.levels()[0].spans.len(),
                base == self.base(0, t),
                recs == self.recs(0, t),
                count == recs.len(),
                lo <= hi <= count,
                forall|i: int| 0 <= i < lo ==> bytes_lt((#[trigger] recs[i]).0, key@),
                forall|i: int| hi <= i < count ==> bytes_lt(key@, (#[trigger] recs[i]).0),
            decreases hi - lo,
        {
            let mid: usize = lo + (hi - lo) / 2;
            let (e, k) = self.record(base, count, mid, Ghost(0), Ghost(t));
            proof {
                lemma_order_total(k@, key@);
            }
            if bytes_less(k, key) {
                proof {
                    assert forall|i: int| 0 <= i < mid + 1 implies bytes_lt(
                        (#[trigger] recs[i]).0,
                        key@,
                    ) by {
                        if i < mid {
                            self.lemma_entries(0, t, i, mid as int);
                            crate::bytes::lemma_order_transitive(
                                recs[i].0,
                                recs[mid as int].0,
                                key@,
                            );
                        }
                    }
                }
                lo = mid + 1;
            } else if bytes_less(key, k) {
                proof {
                    assert forall|i: int| mid <= i < count implies bytes_lt(
                        key@,
                        (#[trigger] recs[i]).0,
                    ) by {
                        if i > mid {
                            self.lemma_entries(0, t, mid as int, i);
                            crate::bytes::lemma_order_transitive(
                                key@,
                                recs[mid as int].0,
                                recs[i].0,
                            );
                        }
                    }
                }
                hi = mid;
            } else {
                proof {
                    self.lemma_page(0, t, mid as int);
                    assert(recs[mid as int].0 == key@);
                    assert(self.pages@.len() == self.pages.len());
                }
                let (x, _) = get_ext(
                    &self.pages,
                    e + 2 + k.len(),
                    true,
                    Ghost(self.model@[self.entry_of(0, t, mid as int)].1),
                );
                return Some(x);
            }
        }
        proof {
            assert forall|i: int| 0 <= i < count implies (#[trigger] recs[i]).0 != key@ by {
                lemma_order_total(recs[i].0, key@);
                assert(i < lo || hi <= i);
            }
        }
        None
    }

    /// What the levels of a whole tree are to each other.
    proof fn lemma_linked(self, k: int)
        requires
            self.whole(),
            0 <= k < self.levels().len(),
        ensures
            strictly_sorted(keys_of(self.model@)),
            level_sound(self.levels()[k], self.model@.len() as int),
            k == 0 ==> {
                &&& spans_cover(self.levels()[0].spans, 0, self.model@.len() as int)
                &&& forall|t: int|
                    0 <= t < self.levels()[0].spans.len() ==> #[trigger] self.levels()[0].firsts[t]
                        == self.levels()[0].spans[t].0
            },
            k > 0 ==> {
                &&& level_sound(self.levels()[k - 1], self.model@.len() as int)
                &&& spans_cover(
                    self.levels()[k].spans,
                    0,
                    self.levels()[k - 1].firsts.len() as int,
                )
                &&& forall|t: int|
                    0 <= t < self.levels()[k].spans.len() ==> #[trigger] self.levels()[k].firsts[t]
                        == self.levels()[k - 1].firsts[self.levels()[k].spans[t].0]
            },
    {
        reveal(BTree::whole);
        lemma_level_at(self.model@, self.page_size as int, k);
        if k > 0 {
            lemma_level_at(self.model@, self.page_size as int, k - 1);
        }
    }

    /// Every entry under `key` is under page `t` of level `k`.
    spec fn narrowed(self, key: Seq<u8>, k: int, t: int) -> bool {
        let n = self.model@.len() as int;
        let lv = self.levels()[k];
        forall|j: int|
            0 <= j < n && (#[trigger] self.model@[j]).0 == key ==> first_under(lv, t, n) <= j
                < first_under(lv, t + 1, n)
    }

    /// The root has everything under it.
    proof fn lemma_root(self, key: Seq<u8>)
        requires
            self.whole(),
        ensures
            self.levels().len() > 0,
            self.levels().len() == self.height,
            self.levels().last().spans.len() == 1,
            self.root == self.base(self.levels().len() - 1, 0),
            self.narrowed(key, self.levels().len() - 1, 0),
    {
        reveal(BTree::whole);
        let es = self.model@;
        let size = self.page_size as int;
        lemma_leaf_level(es, size);
        assert(self.levels().len() > 0) by {
            reveal(levels_of);
            lemma_levels(es, leaf_level(es, size), size);
        }
        let k = self.levels().len() - 1;
        lemma_level_at(es, size, k);
    }

    /// The child that was chosen has everything under it that its page had.
    proof fn lemma_descend(self, key: Seq<u8>, k: int, t: int, m: int)
        requires
            self.whole(),
            0 < k < self.levels().len(),
            0 <= t < self.levels()[k].spans.len(),
            0 <= m < self.recs(k, t).len(),
            self.narrowed(key, k, t),
            bytes_le(self.recs(k, t)[m].0, key),
            forall|c: int|
                m < c < self.recs(k, t).len() ==> bytes_lt(key, (#[trigger] self.recs(k, t)[c]).0),
        ensures
            ({
                let c = self.levels()[k].spans[t].0 + m;
                &&& 0 <= c < self.levels()[k - 1].spans.len()
                &&& self.narrowed(key, k - 1, c)
            }),
    {
        let es = self.model@;
        let n = es.len() as int;
        let levels = self.levels();
        let (lo, hi) = levels[k].spans[t];
        let below = levels[k - 1];
        let ks = keys_of(es);
        let c = lo + m;
        self.lemma_recs_len(k, t);
        self.lemma_linked(k);
        lemma_spans_order(levels[k].spans, 0, below.firsts.len() as int, t, t);
        lemma_cover_at(levels[k].spans, 0, below.firsts.len() as int, t);
        assert forall|j: int| 0 <= j < n && (#[trigger] es[j]).0 == key implies first_under(
            below,
            c,
            n,
        ) <= j < first_under(below, c + 1, n) by {
            let f = below.firsts[c];
            self.lemma_entries(k, t, m, m);
            assert(ks[j] == key && ks[f] == self.recs(k, t)[m].0);
            if j < f {
                lemma_order_total(ks[j], ks[f]);
            }
            if m + 1 < self.recs(k, t).len() {
                let g = below.firsts[c + 1];
                self.lemma_entries(k, t, m + 1, m + 1);
                assert(ks[g] == self.recs(k, t)[m + 1].0);
                assert(bytes_lt(key, self.recs(k, t)[m + 1].0));
                if g <= j {
                    lemma_order_total(ks[g], ks[j]);
                }
            } else {
                assert(c + 1 == hi);
            }
        }
    }

    /// Where every separator is after the key, the key is not there.
    proof fn lemma_before_all(self, key: Seq<u8>, k: int, t: int)
        requires
            self.whole(),
            0 <= k < self.levels().len(),
            0 <= t < self.levels()[k].spans.len(),
            self.narrowed(key, k, t),
            forall|c: int|
                0 <= c < self.recs(k, t).len() ==> bytes_lt(key, (#[trigger] self.recs(k, t)[c]).0),
        ensures
            first_match(self.model@, key) is None,
    {
        let es = self.model@;
        let levels = self.levels();
        let ks = keys_of(es);
        self.lemma_recs_len(k, t);
        self.lemma_linked(k);
        self.lemma_entries(k, t, 0, 0);
        let f = levels[k].firsts[t];
        assert(f == self.entry_of(k, t, 0));
        assert(bytes_lt(key, self.recs(k, t)[0].0));
        assert forall|j: int| 0 <= j < es.len() implies (#[trigger] es[j]).0 != key by {
            if es[j].0 == key {
                assert(f <= j);
                assert(ks[j] == key && ks[f] == self.recs(k, t)[0].0);
                lemma_order_total(ks[f], ks[j]);
            }
        }
        lemma_first_match_none(es, key);
    }

    /// What a leaf says decides what is found.
    proof fn lemma_leaf_decides(self, key: Seq<u8>, t: int, r: Option<Ext4>)
        requires
            self.whole(),
            0 < self.levels().len(),
            0 <= t < self.levels()[0].spans.len(),
            self.narrowed(key, 0, t),
            r matches Some(e) ==> exists|i: int|
                0 <= i < self.recs(0, t).len() && (#[trigger] self.recs(0, t)[i]).0 == key && e
                    == self.model@[self.entry_of(0, t, i)].1,
            r is None ==> forall|i: int|
                0 <= i < self.recs(0, t).len() ==> (#[trigger] self.recs(0, t)[i]).0 != key,
        ensures
            r == first_match(self.model@, key),
    {
        let es = self.model@;
        let size = self.page_size as int;
        let (lo, hi) = self.levels()[0].spans[t];
        self.lemma_recs_len(0, t);
        if r is Some {
            reveal(BTree::whole);
            let i = choose|i: int|
                0 <= i < self.recs(0, t).len() && (#[trigger] self.recs(0, t)[i]).0 == key && r->0
                    == self.model@[self.entry_of(0, t, i)].1;
            self.lemma_entries(0, t, i, i);
            lemma_first_match_sorted(es, key, lo + i);
        } else {
            assert forall|j: int| 0 <= j < es.len() implies (#[trigger] es[j]).0 != key by {
                if es[j].0 == key {
                    assert(lo <= j < hi) by {
                        self.lemma_leaf_span(t);
                    }
                    self.lemma_entries(0, t, j - lo, j - lo);
                    assert(self.recs(0, t)[j - lo].0 == key);
                }
            }
            lemma_first_match_none(es, key);
        }
    }

    /// The child that record `m` of the branch at `at` points to.
    fn child_of(
        &self,
        at: usize,
        count: usize,
        m: usize,
        Ghost(k): Ghost<int>,
        Ghost(t): Ghost<int>,
    ) -> (child: usize)
        requires
            self.whole(),
            0 < k < self.levels().len(),
            0 <= t < self.levels()[k].spans.len(),
            at == self.base(k, t),
            count == self.recs(k, t).len(),
            m < count,
        ensures
            child == self.base(k - 1, self.levels()[k].spans[t].0 + m),
    {
        let (e, sep) = self.record(at, count, m, Ghost(k), Ghost(t));
        let ghost c = self.levels()[k].spans[t].0 + m;
        proof {
            self.lemma_recs_len(k, t);
            self.lemma_page(k, t, m as int);
            self.lemma_child_base(k, t, m as int);
            let x = self.base(k - 1, c) as u32;
            lemma_le32(x);
            lemma_lies(self.pages@, e + 2 + sep@.len(), le_bytes(x as nat, 4));
            assert(self.pages@.len() == self.pages.len());
        }
        read_le32(&self.pages, e + 2 + sep.len()) as usize
    }

    /// A child's offset fits the bits that it is kept in.
    proof fn lemma_child_base(self, k: int, t: int, m: int)
        requires
            self.whole(),
            0 < k < self.levels().len(),
            0 <= t < self.levels()[k].spans.len(),
            0 <= m < self.recs(k, t).len(),
        ensures
            ({
                let c = self.levels()[k].spans[t].0 + m;
                &&& 0 <= c < self.levels()[k - 1].spans.len()
                &&& 0 <= self.base(k - 1, c) <= u32::MAX
            }),
    {
        self.lemma_recs_len(k, t);
        let c = self.levels()[k].spans[t].0 + m;
        assert(0 <= c < self.levels()[k - 1].spans.len()) by {
            reveal(BTree::whole);
            let size = self.page_size as int;
            lemma_level_at(self.model@, size, k);
            lemma_level_at(self.model@, size, k - 1);
            lemma_spans_order(
                self.levels()[k].spans,
                0,
                self.levels()[k - 1].firsts.len() as int,
                t,
                t,
            );
        }
        self.lemma_recs_len(k - 1, c);
        self.lemma_page(k - 1, c, 0);
    }

    /// What entry `i` contributes to a scan: its block and its key's first byte.
    pub open spec fn term(self, i: int) -> u64 {
        let e = self.model@[i];
        (e.1.block as u64).wrapping_add(
            if e.0.len() > 0 {
                e.0[0] as u64
            } else {
                0
            },
        )
    }
}

impl Weighed for BTree {
    /// The pages.
    open spec fn memory(&self) -> Memory {
        Memory::nothing().with(self.pages@.len(), 1)
    }

    fn list_rooms(&self, r: &mut Rooms) {
        let ghost before = r.parts@;
        r.vector(&self.pages, 1);
        proof {
            assert(r.parts@ =~= before + self.memory().parts);
        }
    }

    fn weigh_on(&self, s: &mut Scale<'_>) {
        let ghost before = s.made@;
        s.vector(Ghost(self.pages@.len()), 1);
        proof {
            assert(s.made@ =~= before.and(self.memory()));
        }
    }
}

impl Layout for BTree {
    open spec fn wf(&self) -> bool {
        self.whole()
    }

    open spec fn entries(&self) -> Seq<Entry> {
        self.model@
    }

    open spec fn found(&self, key: Seq<u8>) -> Option<Ext4> {
        first_match(self.model@, key)
    }

    open spec fn scan_term(&self, i: int) -> u64 {
        self.term(i)
    }

    open spec fn scannable(&self, start: int, n: int) -> bool {
        true
    }

    open spec fn label(&self) -> Seq<char> {
        "btree"@
    }

    fn name(&self) -> (s: &'static str) {
        "btree"
    }

    fn logical_bytes(&self) -> (n: usize) {
        bytes_of(self)
    }

    fn lookup(&self, key: &[u8]) -> (r: Option<Ext4>) {
        let mut at: usize = self.root;
        let ghost mut k: int = self.levels().len() - 1;
        let ghost mut t: int = 0;
        proof {
            self.lemma_root(key@);
        }
        loop
            invariant
                self.whole(),
                0 <= k < self.levels().len(),
                0 <= t < self.levels()[k].spans.len(),
                at == self.base(k, t),
                self.narrowed(key@, k, t),
            decreases k,
        {
            let count: usize = self.count_at(at, Ghost(k), Ghost(t));
            let kind: u8 = self.pages[at];
            if kind == 1 {
                let m: usize = match self.choose_child(at, count, key, Ghost(k), Ghost(t)) {
                    Some(m) => m,
                    None => {
                        proof {
                            self.lemma_before_all(key@, k, t);
                        }
                        return None;
                    },
                };
                proof {
                    self.lemma_descend(key@, k, t, m as int);
                }
                at = self.child_of(at, count, m, Ghost(k), Ghost(t));
                proof {
                    t = self.levels()[k].spans[t].0 + m;
                    k = k - 1;
                }
            } else {
                let r: Option<Ext4> = self.find_in_leaf(at, count, key, Ghost(t));
                proof {
                    self.lemma_leaf_decides(key@, t, r);
                }
                return r;
            }
        }
    }

    fn scan_from(&self, start: usize, n: usize) -> (acc: u64) {
        let ghost es = self.model@;
        let ghost terms = |i: int| self.scan_term(i);
        let mut acc: u64 = 0;
        let mut seen: usize = 0;
        let mut idx: usize = 0;
        let mut base: usize = 0;
        let ghost mut t: int = 0;
        let ghost leaves = self.levels()[0].spans.len() as int;
        proof {
            self.lemma_scan_frame();
            assert(0 * self.page_size == 0) by (nonlinear_arith);
        }
        while base < self.leaf_end && seen < n
            invariant
                self.whole(),
                es == self.model@,
                es.len() <= u32::MAX,
                terms == (|i: int| self.scan_term(i)),
                0 < self.levels().len(),
                leaves == self.levels()[0].spans.len(),
                self.page_size > 0,
                self.leaf_end == leaves * self.page_size,
                self.leaf_end <= u32::MAX,
                self.page_size <= u32::MAX,
                0 <= t <= leaves,
                base == t * self.page_size,
                seen < n ==> idx == first_under(self.levels()[0], t, es.len() as int),
                idx <= es.len(),
                seen == if idx >= start {
                    idx - start
                } else {
                    0
                },
                seen <= n,
                acc == sum_range(terms, start as int, idx as int),
            decreases leaves - t,
        {
            proof {
                assert(t < leaves) by (nonlinear_arith)
                    requires
                        base < self.leaf_end,
                        base == t * self.page_size,
                        self.leaf_end == leaves * self.page_size,
                        self.page_size > 0,
                ;
                assert(self.base(0, t) == base) by {
                    assert((0 + t) * self.page_size == t * self.page_size);
                }
            }
            let count: usize = self.count_at(base, Ghost(0), Ghost(t));
            let ghost lo = self.levels()[0].spans[t].0;
            proof {
                self.lemma_recs_len(0, t);
                self.lemma_leaf_span(t);
            }
            let mut i: usize = 0;
            while i < count && seen < n
                invariant
                    self.whole(),
                    es == self.model@,
                    es.len() <= u32::MAX,
                    terms == (|i: int| self.scan_term(i)),
                    0 < self.levels().len(),
                    0 <= t < self.levels()[0].spans.len(),
                    base == self.base(0, t),
                    count == self.recs(0, t).len(),
                    lo == self.levels()[0].spans[t].0,
                    0 <= lo,
                    lo + count <= es.len(),
                    i <= count,
                    idx == lo + i,
                    seen == if idx >= start {
                        idx - start
                    } else {
                        0
                    },
                    seen <= n,
                    acc == sum_range(terms, start as int, idx as int),
                decreases count - i,
            {
                if idx >= start {
                    let (e, k) = self.record(base, count, i, Ghost(0), Ghost(t));
                    proof {
                        self.lemma_page(0, t, i as int);
                        assert(self.pages@.len() == self.pages.len());
                        assert(terms(idx as int) == self.scan_term(idx as int));
                    }
                    let (x, _) = get_ext(
                        &self.pages,
                        e + 2 + k.len(),
                        true,
                        Ghost(es[idx as int].1),
                    );
                    let first: u64 = if k.len() > 0 {
                        k[0] as u64
                    } else {
                        0
                    };
                    let ghost before = acc;
                    let block: u64 = x.block as u64;
                    acc = acc.wrapping_add(block).wrapping_add(first);
                    proof {
                        lemma_wrapping_two(before, block, first);
                        assert(k@ == es[idx as int].0);
                    }
                    seen = seen + 1;
                }
                idx = idx + 1;
                i = i + 1;
            }
            proof {
                assert((t + 1) * self.page_size == t * self.page_size + self.page_size)
                    by (nonlinear_arith);
                assert((t + 1) * self.page_size <= leaves * self.page_size) by (nonlinear_arith)
                    requires
                        t + 1 <= leaves,
                        self.page_size > 0,
                ;
                t = t + 1;
            }
            base = base + self.page_size;
        }
        proof {
            if seen < n {
                assert(t == leaves) by (nonlinear_arith)
                    requires
                        base >= self.leaf_end,
                        base == t * self.page_size,
                        self.leaf_end == leaves * self.page_size,
                        self.page_size > 0,
                        0 <= t <= leaves,
                ;
            }
        }
        acc
    }
}

impl BTree {
    /// What a scan needs to know of the whole.
    proof fn lemma_scan_frame(self)
        requires
            self.whole(),
        ensures
            0 < self.levels().len(),
            self.page_size > 0,
            self.leaf_end == self.levels()[0].spans.len() * self.page_size,
            self.leaf_end <= u32::MAX,
            self.page_size <= u32::MAX,
            self.model@.len() <= u32::MAX,
            first_under(self.levels()[0], 0, self.model@.len() as int) == 0,
            self.levels()[0].firsts.len() == self.levels()[0].spans.len(),
    {
        reveal(BTree::whole);
        let es = self.model@;
        let size = self.page_size as int;
        let levels = self.levels();
        self.lemma_root(Seq::empty());
        lemma_level_at(es, size, 0);
        let n = levels.len() as int;
        let total = pages_below(levels, n);
        let leaves = levels[0].spans.len() as int;
        lemma_pages_below(levels, 1, n);
        assert(pages_below(levels, 1) == leaves) by {
            assert(pages_below(levels, 0) == 0);
        }
        assert(leaves * size <= total * size) by (nonlinear_arith)
            requires
                leaves <= total,
                size > 0,
        ;
        assert(size <= leaves * size) by (nonlinear_arith)
            requires
                leaves >= 1,
                size > 0,
        ;
        self.lemma_leaf_records(leaves);
    }

    /// Where leaf `t` starts and ends among the entries.
    proof fn lemma_leaf_span(self, t: int)
        requires
            self.whole(),
            0 < self.levels().len(),
            0 <= t < self.levels()[0].spans.len(),
        ensures
            ({
                let lv = self.levels()[0];
                let n = self.model@.len() as int;
                &&& 0 <= lv.spans[t].0
                &&& lv.spans[t].1 <= n
                &&& first_under(lv, t, n) == lv.spans[t].0
                &&& first_under(lv, t + 1, n) == lv.spans[t].1
            }),
    {
        reveal(BTree::whole);
        lemma_level_at(self.model@, self.page_size as int, 0);
        lemma_spans_order(self.levels()[0].spans, 0, self.model@.len() as int, t, t);
        lemma_cover_at(self.levels()[0].spans, 0, self.model@.len() as int, t);
    }

    /// The first `t` leaves hold no more entries than bytes.
    proof fn lemma_leaf_records(self, t: int)
        requires
            self.whole(),
            0 < self.levels().len(),
            0 <= t <= self.levels()[0].spans.len(),
        ensures
            first_under(self.levels()[0], t, self.model@.len() as int) <= t * self.page_size,
        decreases t,
    {
        if t > 0 {
            self.lemma_leaf_records(t - 1);
            self.lemma_leaf_span(t - 1);
            self.lemma_recs_len(0, t - 1);
            self.lemma_page(0, t - 1, 0);
            assert(t * self.page_size == (t - 1) * self.page_size + self.page_size)
                by (nonlinear_arith);
        } else {
            reveal(BTree::whole);
            lemma_level_at(self.model@, self.page_size as int, 0);
            assert(0 * self.page_size == 0) by (nonlinear_arith);
        }
    }
}

// ------------------------------------------------------------------ shape --

impl BTree {
    /// What a page says when it is read by its head and its directory: the
    /// records that were put into it.
    proof fn lemma_page_reads(self, k: int, t: int)
        requires
            self.whole(),
            0 <= k < self.levels().len(),
            0 <= t < self.levels()[k].spans.len(),
        ensures
            self.count_in(self.base(k, t)) == self.recs(k, t).len(),
            self.keys_in(self.base(k, t)) == Seq::new(
                self.recs(k, t).len(),
                |i: int| self.recs(k, t)[i].0,
            ),
    {
        let base = self.base(k, t);
        let recs = self.recs(k, t);
        let n = recs.len() as int;
        let size = self.page_size as int;
        self.lemma_recs_len(k, t);
        self.lemma_page(k, t, 0);
        lemma_le16(n as u16);
        lemma_lies(self.pages@, base + 1, le_bytes(recs.len(), 2));
        assert forall|i: int| 0 <= i < n implies #[trigger] self.key_in(self.slot_in(base, n, i))
            == recs[i].0 by {
            self.lemma_page(k, t, i);
            let off = rec_off(recs, i);
            lemma_le16(off as u16);
            lemma_le16(recs[i].0.len() as u16);
            lemma_lies(self.pages@, base + size - 2 * n + 2 * i, le_bytes(off as nat, 2));
            lemma_lies(self.pages@, base + off, le_bytes(recs[i].0.len(), 2));
            lemma_lies(self.pages@, base + off + 2, recs[i].0);
        }
        assert(self.keys_in(base) =~= Seq::new(recs.len(), |i: int| recs[i].0));
    }

    /// The first `t` leaves hold the entries before the next leaf.
    proof fn lemma_leaves_upto(self, t: nat)
        requires
            self.whole(),
            0 < self.levels().len(),
            t <= self.levels()[0].spans.len(),
        ensures
            ({
                let first = first_under(self.levels()[0], t as int, self.model@.len() as int);
                &&& 0 <= first <= self.model@.len()
                &&& self.counts_upto(t) == first
                &&& self.keys_upto(t) == keys_of(self.model@).take(first)
            }),
        decreases t,
    {
        let lv = self.levels()[0];
        let n = self.model@.len() as int;
        let ks = keys_of(self.model@);
        if t == 0 {
            self.lemma_scan_frame();
            assert(ks.take(0) =~= Seq::<Seq<u8>>::empty());
        } else {
            self.lemma_leaves_upto((t - 1) as nat);
            self.lemma_leaf_span(t - 1);
            self.lemma_recs_len(0, t - 1);
            self.lemma_page_reads(0, t - 1);
            assert(self.base(0, t - 1) == (t - 1) * self.page_size) by {
                assert(pages_below(self.levels(), 0) == 0);
            }
            let (lo, hi) = lv.spans[t - 1];
            let recs = self.recs(0, t - 1);
            assert forall|i: int| 0 <= i < recs.len() implies (#[trigger] recs[i]).0 == ks[lo
                + i] by {}
            assert(ks.take(lo) + Seq::new(recs.len(), |i: int| recs[i].0) =~= ks.take(hi));
        }
    }

    /// The leaves hold the keys: read page by page up to where the leaves end,
    /// each by its directory, they are the keys that were loaded, in order, none
    /// missing, repeated or cut short.
    pub proof fn lemma_leaves_hold_keys(self)
        requires
            self.whole(),
        ensures
            self.page_size > 0,
            self.keys_upto((self.leaf_end / self.page_size) as nat) == keys_of(self.model@),
            self.counts_upto((self.leaf_end / self.page_size) as nat) == self.model@.len(),
    {
        self.lemma_scan_frame();
        let leaves = self.levels()[0].spans.len();
        self.lemma_leaves_upto(leaves);
        lemma_div_multiples_vanish(leaves as int, self.page_size as int);
        assert(self.page_size * leaves == leaves * self.page_size) by (nonlinear_arith);
        let ks = keys_of(self.model@);
        assert(ks.take(ks.len() as int) =~= ks);
    }

    /// The shape of the pages: they are whole pages, leaves before branches, the
    /// root is the last of them, and a single leaf is the root itself.
    pub proof fn lemma_shape(self)
        requires
            self.whole(),
        ensures
            self.page_size > 0,
            self.pages@.len() as int % self.page_size as int == 0,
            self.leaf_end as int % self.page_size as int == 0,
            0 < self.leaf_end <= self.pages@.len(),
            forall|g: int|
                #![trigger self.pages@[g * self.page_size]]
                0 <= g && g * self.page_size < self.pages@.len() ==> self.pages@[g
                    * self.page_size] == if g * self.page_size < self.leaf_end {
                    0u8
                } else {
                    1u8
                },
            self.root == self.pages@.len() - self.page_size,
            self.height == 1 <==> self.leaf_end == self.page_size,
    {
        self.lemma_scan_frame();
        let size = self.page_size as int;
        let es = self.model@;
        let levels = self.levels();
        let n = levels.len() as int;
        let leaves = levels[0].spans.len() as int;
        let total = pages_below(levels, n);
        assert(shrinks(es, leaf_level(es, size), size) && es.len() > 0 && laid(
            self.pages@,
            page_list(es, levels, n, size),
            size,
        ) && self.height == n && self.root == self.base(n - 1, 0)) by {
            reveal(BTree::whole);
        }
        lemma_page_list_len(es, levels, n, size);
        lemma_level_at(es, size, n - 1);
        lemma_level_at(es, size, 0);
        lemma_pages_below(levels, 1, n);
        assert(pages_below(levels, 0) == 0);
        assert(pages_below(levels, 1) == leaves);
        lemma_mod_multiples_basic(total, size);
        lemma_mod_multiples_basic(leaves, size);
        assert(0 < leaves * size <= total * size) by (nonlinear_arith)
            requires
                0 < leaves <= total,
                size > 0,
        ;
        assert forall|g: int|
            #![trigger self.pages@[g * self.page_size]]
            0 <= g && g * self.page_size < self.pages@.len() implies self.pages@[g
            * self.page_size] == if g * self.page_size < self.leaf_end {
            0u8
        } else {
            1u8
        } by {
            assert(g < total) by (nonlinear_arith)
                requires
                    g * size < total * size,
                    size > 0,
            ;
            let (k, t) = lemma_list_place(levels, n, g);
            self.lemma_recs_len(k, t);
            self.lemma_page(k, t, 0);
            lemma_pages_below(levels, 0, k);
            if k > 0 {
                lemma_pages_below(levels, 1, k);
                assert(g * size >= leaves * size) by (nonlinear_arith)
                    requires
                        g >= leaves,
                        size > 0,
                ;
            } else {
                assert(g * size < leaves * size) by (nonlinear_arith)
                    requires
                        g < leaves,
                        size > 0,
                ;
            }
        }
        assert(total == pages_below(levels, n - 1) + 1);
        assert((total - 1) * size == total * size - size) by (nonlinear_arith);
        assert(leaves == 1 <==> leaves * size == size) by (nonlinear_arith)
            requires
                leaves > 0,
                size > 0,
        ;
    }
}

/// Where a branch holds two separators, the tree over a level closes.
proof fn lemma_two_close(es: Seq<Entry>, lv: Level, size: int, most: int)
    requires
        level_sound(lv, es.len() as int),
        forall|i: int| 0 <= i < es.len() ==> (#[trigger] es[i]).0.len() <= most,
        2 * most + 19 <= size,
        most >= 0,
    ensures
        shrinks(es, lv, size),
    decreases lv.firsts.len(),
{
    reveal(shrinks);
    if lv.firsts.len() > 1 {
        let sizes = branch_sizes(es, lv.firsts);
        assert forall|j: int| 0 <= j < sizes.len() implies #[trigger] sizes[j] <= most + 6 by {
            assert(0 <= lv.firsts[j] < es.len());
            assert(es[lv.firsts[j]].0.len() <= most);
        }
        lemma_spans_few(sizes, 0, size, most + 6, 2);
        lemma_up_level(es, lv, size);
        lemma_two_close(es, up_level(es, lv, size), size, most);
    }
}

/// A tree closes where a page holds two separators of the longest key.
pub proof fn lemma_tree_closes(es: Seq<Entry>, size: int, most: int)
    requires
        es.len() > 0,
        forall|i: int| 0 <= i < es.len() ==> (#[trigger] es[i]).0.len() <= most,
        2 * most + 19 <= size,
        most >= 0,
    ensures
        shrinks(es, leaf_level(es, size), size),
{
    lemma_leaf_level(es, size);
    lemma_two_close(es, leaf_level(es, size), size, most);
}

/// More levels have no fewer pages.
proof fn lemma_pages_below(levels: Seq<Level>, a: int, b: int)
    requires
        0 <= a <= b,
    ensures
        pages_below(levels, a) <= pages_below(levels, b),
    decreases b - a,
{
    if a < b {
        lemma_pages_below(levels, a, b - 1);
    }
}

// ----------------------------------------------------------------- build --

/// What holds after a page of `recs` was put behind `before`.
spec fn page_put(before: Seq<u8>, after: Seq<u8>, kind: u8, recs: Seq<Rec>, size: int) -> bool {
    &&& 2 * recs.len() <= size
    &&& after == before + tree_page(kind, recs, size)
}

/// The leaf records of the entries from `lo` up to `hi`.
spec fn leaf_recs(es: Seq<Entry>, lo: int, hi: int) -> Seq<Rec> {
    Seq::new((hi - lo) as nat, |i: int| (es[lo + i].0, ext_bytes(es[lo + i].1, true)))
}

/// The branch records of the children from `lo` up to `hi`.
spec fn branch_recs(level: Seq<(Vec<u8>, u32)>, lo: int, hi: int) -> Seq<Rec> {
    Seq::new((hi - lo) as nat, |i: int| (level[lo + i].0@, le_bytes(level[lo + i].1 as nat, 4)))
}

/// The bytes that the branch records over a list of children take.
spec fn child_sizes(level: Seq<(Vec<u8>, u32)>) -> Seq<int> {
    Seq::new(level.len(), |c: int| 6 + level[c].0@.len() as int)
}

/// Puts a leaf behind the pages, from entry `lo` on, and says where it ends.
fn push_leaf(pages: &mut Vec<u8>, keys: &[Vec<u8>], exts: &[Ext4], lo: usize, size: usize) -> (end:
    usize)
    requires
        lo < keys@.len() <= exts@.len(),
        2 <= size,
        old(pages)@.len() + size <= usize::MAX,
    ensures
        end == page_take(
            leaf_sizes(entries_of(keys@, exts@)),
            lo as int,
            0,
            0,
            size as int,
        ),
        lo < end <= keys@.len(),
        page_put(
            old(pages)@,
            final(pages)@,
            0,
            leaf_recs(entries_of(keys@, exts@), lo as int, end as int),
            size as int,
        ),
{
    let ghost es = entries_of(keys@, exts@);
    let ghost sizes = leaf_sizes(es);
    let ghost before = pages@;
    let base: usize = pages.len();
    let mut slots: Vec<u16> = start_page(pages, 0);
    let mut i: usize = lo;
    let mut full: bool = false;
    proof {
        reveal(recs_bytes);
        assert(leaf_recs(es, lo as int, lo as int) =~= Seq::<Rec>::empty());
    }
    while i < keys.len() && !full
        invariant
            lo <= i <= keys@.len(),
            keys@.len() <= exts@.len(),
            lo < keys@.len(),
            es == entries_of(keys@, exts@),
            sizes == leaf_sizes(es),
            base == before.len(),
            2 <= size,
            open_page(pages@, before, 0, leaf_recs(es, lo as int, i as int), slots@),
            slots@.len() == i - lo,
            i - lo >= 2 ==> pages@.len() - base + 2 * (i - lo) <= size,
            !full ==> page_take(sizes, lo as int, 0, 0, size as int) == page_take(
                sizes,
                i as int,
                pages@.len() - base - 3,
                i - lo,
                size as int,
            ),
            full ==> page_take(sizes, lo as int, 0, 0, size as int) == i,
            full ==> i > lo,
        decreases keys.len() - i, !full as int,
    {
        let used: u128 = (pages.len() - base) as u128;
        let need: u128 = 2 + keys[i].len() as u128 + 16;
        let with: u128 = used + need + 2 * (slots.len() as u128 + 1);
        assert(es[i as int].0 == keys@[i as int]@);
        if with > size as u128 && slots.len() > 0 {
            full = true;
        } else {
            let mut payload: Vec<u8> = Vec::new();
            put_ext(&mut payload, exts[i], true);
            let ghost recs = leaf_recs(es, lo as int, i as int);
            proof {
                lemma_ext_bytes_len(exts@[i as int], true);
                assert(payload@ =~= ext_bytes(exts@[i as int], true));
            }
            add_record(
                pages,
                &mut slots,
                base,
                &keys[i],
                &payload,
                Ghost(before),
                Ghost(0u8),
                Ghost(recs),
            );
            proof {
                assert(recs.push((keys@[i as int]@, payload@)) =~= leaf_recs(
                    es,
                    lo as int,
                    i + 1,
                ));
            }
            i = i + 1;
        }
    }
    finish_page(
        pages,
        &slots,
        base,
        size,
        Ghost(before),
        Ghost(0u8),
        Ghost(leaf_recs(es, lo as int, i as int)),
    );
    i
}

/// Puts a branch behind the pages, from child `lo` on, and says where it ends.
fn push_branch(pages: &mut Vec<u8>, level: &Vec<(Vec<u8>, u32)>, lo: usize, size: usize) -> (end:
    usize)
    requires
        lo < level@.len(),
        2 <= size,
        old(pages)@.len() + size <= usize::MAX,
    ensures
        end == page_take(child_sizes(level@), lo as int, 0, 0, size as int),
        lo < end <= level@.len(),
        page_put(
            old(pages)@,
            final(pages)@,
            1,
            branch_recs(level@, lo as int, end as int),
            size as int,
        ),
{
    let ghost sizes = child_sizes(level@);
    let ghost before = pages@;
    let base: usize = pages.len();
    let mut slots: Vec<u16> = start_page(pages, 1);
    let mut i: usize = lo;
    let mut full: bool = false;
    proof {
        reveal(recs_bytes);
        assert(branch_recs(level@, lo as int, lo as int) =~= Seq::<Rec>::empty());
    }
    while i < level.len() && !full
        invariant
            lo <= i <= level@.len(),
            lo < level@.len(),
            sizes == child_sizes(level@),
            base == before.len(),
            2 <= size,
            open_page(pages@, before, 1, branch_recs(level@, lo as int, i as int), slots@),
            slots@.len() == i - lo,
            i - lo >= 2 ==> pages@.len() - base + 2 * (i - lo) <= size,
            !full ==> page_take(sizes, lo as int, 0, 0, size as int) == page_take(
                sizes,
                i as int,
                pages@.len() - base - 3,
                i - lo,
                size as int,
            ),
            full ==> page_take(sizes, lo as int, 0, 0, size as int) == i,
            full ==> i > lo,
        decreases level.len() - i, !full as int,
    {
        let used: u128 = (pages.len() - base) as u128;
        let need: u128 = 2 + level[i].0.len() as u128 + 4;
        let with: u128 = used + need + 2 * (slots.len() as u128 + 1);
        if with > size as u128 && slots.len() > 0 {
            full = true;
        } else {
            let mut payload: Vec<u8> = Vec::new();
            push_le32(&mut payload, level[i].1);
            let ghost recs = branch_recs(level@, lo as int, i as int);
            proof {
                lemma_le32(level@[i as int].1);
                assert(payload@ =~= le_bytes(level@[i as int].1 as nat, 4));
            }
            add_record(
                pages,
                &mut slots,
                base,
                &level[i].0,
                &payload,
                Ghost(before),
                Ghost(1u8),
                Ghost(recs),
            );
            proof {
                assert(recs.push((level@[i as int].0@, payload@)) =~= branch_recs(
                    level@,
                    lo as int,
                    i + 1,
                ));
            }
            i = i + 1;
        }
    }
    finish_page(
        pages,
        &slots,
        base,
        size,
        Ghost(before),
        Ghost(1u8),
        Ghost(branch_recs(level@, lo as int, i as int)),
    );
    i
}

/// The list of separators and children stands for level `k`.
spec fn stands_for(
    level: Seq<(Vec<u8>, u32)>,
    es: Seq<Entry>,
    levels: Seq<Level>,
    k: int,
    size: int,
) -> bool {
    &&& level.len() == levels[k].spans.len() == levels[k].firsts.len()
    &&& forall|c: int|
        0 <= c < level.len() ==> {
            &&& (#[trigger] level[c]).0@ == es[levels[k].firsts[c]].0
            &&& level[c].1 == page_base(levels, k, c, size) as u32
        }
}

/// The pages of one level, taken one at a time from a list of sizes.
proof fn lemma_spans_step(sizes: Seq<int>, spans: Seq<Span>, t: int, i: int, size: int)
    requires
        0 <= i < sizes.len(),
        0 <= t <= spans.len(),
        spans.skip(t) == page_spans(sizes, i, size),
    ensures
        t < spans.len(),
        spans[t] == (i, page_take(sizes, i, 0, 0, size)),
        spans.skip(t + 1) == page_spans(sizes, page_take(sizes, i, 0, 0, size), size),
{
    let e = page_take(sizes, i, 0, 0, size);
    let here = page_spans(sizes, i, size);
    assert(here == seq![(i, e)] + page_spans(sizes, e, size));
    assert(here.len() > 0);
    assert(spans.skip(t)[0] == spans[t]);
    assert(spans.skip(t + 1) =~= here.skip(1));
    assert(here.skip(1) =~= page_spans(sizes, e, size));
}

/// A page that is one of so many starts where it still fits the buffer.
proof fn lemma_page_room(levels: Seq<Level>, k: int, t: int, size: int, most: int)
    requires
        0 <= k < levels.len(),
        0 <= t < levels[k].spans.len(),
        size > 0,
        pages_below(levels, levels.len() as int) * size <= most,
    ensures
        0 <= pages_below(levels, k),
        page_base(levels, k, t, size) + size <= most,
        (pages_below(levels, k) + t + 1) * size == page_base(levels, k, t, size) + size,
{
    let g = pages_below(levels, k) + t;
    lemma_pages_below(levels, 0, k);
    lemma_pages_below(levels, k + 1, levels.len() as int);
    let total = pages_below(levels, levels.len() as int);
    assert((g + 1) * size <= total * size) by (nonlinear_arith)
        requires
            g + 1 <= total,
            size > 0,
    ;
    assert((g + 1) * size == g * size + size) by (nonlinear_arith);
}

/// Writes the leaves.
fn build_leaves(keys: &[Vec<u8>], exts: &[Ext4], size: usize) -> (r: (
    Vec<u8>,
    Vec<(Vec<u8>, u32)>,
))
    requires
        0 < keys@.len() <= exts@.len(),
        2 <= size,
        shrinks(
            entries_of(keys@, exts@),
            leaf_level(entries_of(keys@, exts@), size as int),
            size as int,
        ),
        ({
            let levels = levels_of(entries_of(keys@, exts@), size as int);
            pages_below(levels, levels.len() as int) * size <= usize::MAX
        }),
    ensures
        ({
            let es = entries_of(keys@, exts@);
            let levels = levels_of(es, size as int);
            &&& laid(r.0@, page_list(es, levels, 1, size as int), size as int)
            &&& stands_for(r.1@, es, levels, 0, size as int)
        }),
{
    let ghost es = entries_of(keys@, exts@);
    let ghost levels = levels_of(es, size as int);
    let ghost sizes = leaf_sizes(es);
    let ghost list = level_list(es, levels, 0, size as int);
    let ghost spans = levels[0].spans;
    let mut pages: Vec<u8> = Vec::new();
    let mut level: Vec<(Vec<u8>, u32)> = Vec::new();
    let mut i: usize = 0;
    proof {
        lemma_leaf_level(es, size as int);
        assert(levels.len() > 0) by {
            reveal(levels_of);
            lemma_levels(es, leaf_level(es, size as int), size as int);
        }
        lemma_level_at(es, size as int, 0);
        assert(spans.skip(0) =~= page_spans(sizes, 0, size as int));
        assert(list.take(0) =~= Seq::<(u8, Seq<Rec>)>::empty());
        assert(0 * size == 0) by (nonlinear_arith);
    }
    while i < keys.len()
        invariant
            i <= keys@.len(),
            keys@.len() <= exts@.len(),
            2 <= size,
            es == entries_of(keys@, exts@),
            levels == levels_of(es, size as int),
            levels.len() > 0,
            pages_below(levels, levels.len() as int) * size <= usize::MAX,
            spans == levels[0].spans,
            levels[0] == leaf_level(es, size as int),
            sizes == leaf_sizes(es),
            list == level_list(es, levels, 0, size as int),
            level@.len() <= spans.len(),
            spans.skip(level@.len() as int) == page_spans(sizes, i as int, size as int),
            laid(pages@, list.take(level@.len() as int), size as int),
            forall|c: int|
                0 <= c < level@.len() ==> {
                    &&& (#[trigger] level@[c]).0@ == es[levels[0].firsts[c]].0
                    &&& level@[c].1 == page_base(levels, 0, c, size as int) as u32
                },
        decreases keys.len() - i,
    {
        let ghost t = level@.len() as int;
        let ghost before = pages@;
        let base: usize = pages.len();
        proof {
            lemma_spans_step(sizes, spans, t, i as int, size as int);
            lemma_page_room(levels, 0, t, size as int, usize::MAX as int);
            assert(base == page_base(levels, 0, t, size as int)) by {
                assert(pages_below(levels, 0) == 0);
            }
            assert(es[i as int].0 == keys@[i as int]@);
            assert(levels[0].firsts[t] == i);
        }
        let first: Vec<u8> = to_owned(&keys[i]);
        let end: usize = push_leaf(&mut pages, keys, exts, i, size);
        proof {
            let recs = leaf_recs(es, i as int, end as int);
            assert(page_recs(es, levels, 0, t, size as int) =~= recs);
            assert(list.take(t + 1) =~= list.take(t).push((0u8, recs)));
            lemma_laid_push(before, pages@, list.take(t), (0u8, recs), size as int);
        }
        level.push((first, base as u32));
        i = end;
    }
    proof {
        let t = level@.len() as int;
        assert(spans.skip(t).len() == 0);
        assert(list.take(t) =~= list);
        reveal_with_fuel(page_list, 2);
        assert(page_list(es, levels, 1, size as int) =~= list);
    }
    (pages, level)
}

/// Writes the branches over a level.
fn build_above(
    pages: &mut Vec<u8>,
    level: &Vec<(Vec<u8>, u32)>,
    size: usize,
    Ghost(es): Ghost<Seq<Entry>>,
    Ghost(k): Ghost<int>,
) -> (up: Vec<(Vec<u8>, u32)>)
    requires
        es.len() > 0,
        2 <= size,
        shrinks(es, leaf_level(es, size as int), size as int),
        0 < k < levels_of(es, size as int).len(),
        ({
            let levels = levels_of(es, size as int);
            &&& pages_below(levels, levels.len() as int) * size <= usize::MAX
            &&& laid(old(pages)@, page_list(es, levels, k, size as int), size as int)
            &&& stands_for(level@, es, levels, k - 1, size as int)
        }),
    ensures
        ({
            let levels = levels_of(es, size as int);
            &&& laid(final(pages)@, page_list(es, levels, k + 1, size as int), size as int)
            &&& stands_for(up@, es, levels, k, size as int)
        }),
{
    let ghost levels = levels_of(es, size as int);
    let ghost sizes = branch_sizes(es, levels[k - 1].firsts);
    let ghost list = level_list(es, levels, k, size as int);
    let ghost spans = levels[k].spans;
    let ghost done = page_list(es, levels, k, size as int);
    let mut up: Vec<(Vec<u8>, u32)> = Vec::new();
    let mut j: usize = 0;
    proof {
        lemma_level_at(es, size as int, k);
        lemma_level_at(es, size as int, k - 1);
        lemma_page_list_len(es, levels, k, size as int);
        assert(child_sizes(level@) =~= sizes);
        assert(spans.skip(0) =~= page_spans(sizes, 0, size as int));
        assert(done + list.take(0) =~= done);
    }
    while j < level.len()
        invariant
            j <= level@.len(),
            2 <= size,
            0 < k < levels.len(),
            pages_below(levels, levels.len() as int) * size <= usize::MAX,
            stands_for(level@, es, levels, k - 1, size as int),
            child_sizes(level@) == sizes,
            spans == levels[k].spans,
            levels[k] == up_level(es, levels[k - 1], size as int),
            sizes == branch_sizes(es, levels[k - 1].firsts),
            list == level_list(es, levels, k, size as int),
            done.len() == pages_below(levels, k),
            up@.len() <= spans.len(),
            spans.skip(up@.len() as int) == page_spans(sizes, j as int, size as int),
            laid(pages@, done + list.take(up@.len() as int), size as int),
            forall|c: int|
                0 <= c < up@.len() ==> {
                    &&& (#[trigger] up@[c]).0@ == es[levels[k].firsts[c]].0
                    &&& up@[c].1 == page_base(levels, k, c, size as int) as u32
                },
        decreases level.len() - j,
    {
        let ghost t = up@.len() as int;
        let ghost before = pages@;
        let base: usize = pages.len();
        proof {
            lemma_spans_step(sizes, spans, t, j as int, size as int);
            lemma_page_room(levels, k, t, size as int, usize::MAX as int);
            assert((done + list.take(t)).len() == pages_below(levels, k) + t);
            assert(levels[k].firsts[t] == levels[k - 1].firsts[j as int]);
        }
        let first: Vec<u8> = to_owned(&level[j].0);
        let end: usize = push_branch(pages, level, j, size);
        proof {
            let recs = branch_recs(level@, j as int, end as int);
            let want = page_recs(es, levels, k, t, size as int);
            assert(want =~= recs) by {
                assert forall|i: int| 0 <= i < recs.len() implies want[i] == recs[i] by {
                    assert(level@[j + i].0@ == es[levels[k - 1].firsts[j + i]].0);
                }
            }
            assert(done + list.take(t + 1) =~= (done + list.take(t)).push((1u8, recs)));
            lemma_laid_push(before, pages@, done + list.take(t), (1u8, recs), size as int);
        }
        up.push((first, base as u32));
        j = end;
    }
    proof {
        let t = up@.len() as int;
        assert(spans.skip(t).len() == 0);
        assert(list.take(t) =~= list);
        reveal(page_list);
        assert(page_list(es, levels, k + 1, size as int) =~= done + list);
    }
    up
}

/// Each level of the tree has fewer pages than the one below.
proof fn lemma_shrinks_at(es: Seq<Entry>, size: int, k: int)
    requires
        es.len() > 0,
        shrinks(es, leaf_level(es, size), size),
        0 < k < levels_of(es, size).len(),
    ensures
        levels_of(es, size)[k].firsts.len() < levels_of(es, size)[k - 1].firsts.len(),
{
    reveal(levels_of);
    lemma_leaf_level(es, size);
    lemma_shrinks_from(es, leaf_level(es, size), size, k);
}

proof fn lemma_shrinks_from(es: Seq<Entry>, lv: Level, size: int, k: int)
    requires
        shrinks(es, lv, size),
        lv.firsts.len() > 0,
        0 < k < tree_levels(es, lv, size).len(),
    ensures
        tree_levels(es, lv, size)[k].firsts.len() < tree_levels(es, lv, size)[k - 1].firsts.len(),
    decreases lv.firsts.len(),
{
    reveal(shrinks);
    reveal(tree_levels);
    let up = up_level(es, lv, size);
    let all = tree_levels(es, lv, size);
    let rest = tree_levels(es, up, size);
    assert(all == seq![lv] + rest);
    lemma_page_spans(branch_sizes(es, lv.firsts), 0, size);
    lemma_levels(es, up, size);
    assert(all[k] == rest[k - 1]);
    if k > 1 {
        assert(all[k - 1] == rest[k - 2]);
        lemma_shrinks_from(es, up, size, k - 1);
    }
}

/// The sum of the sizes from `lo` up to `hi`.
spec fn sum_sizes(sizes: Seq<int>, lo: int, hi: int) -> int
    decreases hi - lo,
{
    if hi <= lo {
        0
    } else {
        sum_sizes(sizes, lo, hi - 1) + sizes[hi - 1]
    }
}

proof fn lemma_sum_front(sizes: Seq<int>, lo: int, hi: int)
    requires
        lo < hi,
    ensures
        sum_sizes(sizes, lo, hi) == sizes[lo] + sum_sizes(sizes, lo + 1, hi),
    decreases hi - lo,
{
    if lo + 1 < hi {
        lemma_sum_front(sizes, lo, hi - 1);
    } else {
        assert(sum_sizes(sizes, lo, hi - 1) == 0);
        assert(sum_sizes(sizes, lo + 1, hi) == 0);
    }
}

/// Where every record fits a page by itself, what a page takes fits it.
proof fn lemma_take_fits(sizes: Seq<int>, i: int, used: int, cnt: int, size: int)
    requires
        0 <= i <= sizes.len(),
        forall|j: int| 0 <= j < sizes.len() ==> #[trigger] sizes[j] + 5 <= size,
        cnt >= 0,
        cnt == 0 ==> used == 0,
        cnt > 0 ==> 3 + used + 2 * cnt <= size,
        size >= 3,
    ensures
        ({
            let e = page_take(sizes, i, used, cnt, size);
            3 + used + sum_sizes(sizes, i, e) + 2 * (cnt + e - i) <= size
        }),
    decreases sizes.len() - i,
{
    lemma_page_take(sizes, i, used, cnt, size);
    let e = page_take(sizes, i, used, cnt, size);
    if i < sizes.len() && !(cnt > 0 && 3 + used + sizes[i] + 2 * (cnt + 1) > size) {
        assert(sizes[i] + 5 <= size);
        lemma_take_fits(sizes, i + 1, used + sizes[i], cnt + 1, size);
        lemma_page_take(sizes, i + 1, used + sizes[i], cnt + 1, size);
        lemma_sum_front(sizes, i, e);
    } else {
        assert(e == i);
    }
}

/// The records of a page take the sum of their sizes.
proof fn lemma_recs_size(recs: Seq<Rec>, n: nat, sizes: Seq<int>, lo: int)
    requires
        n <= recs.len(),
        forall|i: int|
            0 <= i < n ==> sizes[lo + i] == 2 + (#[trigger] recs[i]).0.len() + recs[i].1.len(),
    ensures
        recs_bytes(recs, n).len() == sum_sizes(sizes, lo, lo + n),
    decreases n,
{
    reveal(recs_bytes);
    if n > 0 {
        lemma_recs_size(recs, (n - 1) as nat, sizes, lo);
        crate::btree_page::lemma_recs_lie(recs, n, n - 1);
        assert(sizes[lo + (n - 1)] == 2 + recs[n - 1].0.len() + recs[n - 1].1.len());
    }
}

/// Where records fit by themselves, every page of the tree holds what it takes.
proof fn lemma_page_holds(es: Seq<Entry>, size: int, k: int, t: int)
    requires
        es.len() > 0,
        shrinks(es, leaf_level(es, size), size),
        tree_fits(es, size),
        0 <= k < levels_of(es, size).len(),
        0 <= t < levels_of(es, size)[k].spans.len(),
    ensures
        page_holds(page_recs(es, levels_of(es, size), k, t, size), size),
{
    let levels = levels_of(es, size);
    let recs = page_recs(es, levels, k, t, size);
    let (lo, hi) = levels[k].spans[t];
    lemma_level_at(es, size, k);
    assert(es[0].0.len() + 23 <= size);
    if k == 0 {
        let sizes = leaf_sizes(es);
        lemma_page_spans(sizes, 0, size);
        lemma_cover_at(levels[0].spans, 0, es.len() as int, t);
        lemma_spans_order(levels[0].spans, 0, es.len() as int, t, t);
        assert(page_spans(sizes, 0, size)[t] == levels[0].spans[t]);
        assert forall|j: int| 0 <= j < sizes.len() implies #[trigger] sizes[j] + 5 <= size by {
            assert(es[j].0.len() + 23 <= size);
        }
        lemma_take_fits(sizes, lo, 0, 0, size);
        assert forall|i: int| 0 <= i < recs.len() implies sizes[lo + i] == 2 + (
        #[trigger] recs[i]).0.len() + recs[i].1.len() by {
            lemma_ext_bytes_len(es[lo + i].1, true);
        }
        lemma_recs_size(recs, recs.len(), sizes, lo);
    } else {
        let below = levels[k - 1];
        let sizes = branch_sizes(es, below.firsts);
        lemma_level_at(es, size, k - 1);
        lemma_page_spans(sizes, 0, size);
        lemma_cover_at(levels[k].spans, 0, below.firsts.len() as int, t);
        lemma_spans_order(levels[k].spans, 0, below.firsts.len() as int, t, t);
        assert(page_spans(sizes, 0, size)[t] == levels[k].spans[t]);
        assert forall|j: int| 0 <= j < sizes.len() implies #[trigger] sizes[j] + 5 <= size by {
            assert(0 <= below.firsts[j] < es.len());
            assert(es[below.firsts[j]].0.len() + 23 <= size);
        }
        lemma_take_fits(sizes, lo, 0, 0, size);
        assert forall|i: int| 0 <= i < recs.len() implies sizes[lo + i] == 2 + (
        #[trigger] recs[i]).0.len() + recs[i].1.len() by {
            lemma_le32(page_base(levels, k - 1, lo + i, size) as u32);
        }
        lemma_recs_size(recs, recs.len(), sizes, lo);
    }
}

/// Which page of which level a place in the list is.
proof fn lemma_list_place(levels: Seq<Level>, n: int, g: int) -> (r: (int, int))
    requires
        0 <= n <= levels.len(),
        0 <= g < pages_below(levels, n),
    ensures
        0 <= r.0 < n,
        0 <= r.1 < levels[r.0].spans.len(),
        g == pages_below(levels, r.0) + r.1,
    decreases n,
{
    if g >= pages_below(levels, n - 1) {
        (n - 1, g - pages_below(levels, n - 1))
    } else {
        lemma_list_place(levels, n - 1, g)
    }
}

/// A loaded tree whose pages fit is whole.
proof fn lemma_tree_whole(r: BTree)
    requires
        r.model@.len() > 0,
        r.page_size >= 2,
        shrinks(
            r.model@,
            leaf_level(r.model@, r.page_size as int),
            r.page_size as int,
        ),
        tree_fits(r.model@, r.page_size as int),
        r.height == r.levels().len(),
        r.leaf_end == r.levels()[0].spans.len() * r.page_size,
        r.root == r.base(r.levels().len() - 1, 0) as u32,
        laid(
            r.pages@,
            page_list(r.model@, r.levels(), r.levels().len() as int, r.page_size as int),
            r.page_size as int,
        ),
    ensures
        r.whole(),
{
    reveal(BTree::whole);
    let es = r.model@;
    let size = r.page_size as int;
    let levels = r.levels();
    let n = levels.len() as int;
    let list = page_list(es, levels, n, size);
    lemma_page_list_len(es, levels, n, size);
    assert forall|g: int| 0 <= g < list.len() implies page_holds((#[trigger] list[g]).1, size) by {
        let (k, t) = lemma_list_place(levels, n, g);
        lemma_page_list(es, levels, n, k, t, size);
        lemma_page_holds(es, size, k, t);
    }
    lemma_leaf_level(es, size);
    assert(n > 0) by {
        reveal(levels_of);
        lemma_levels(es, leaf_level(es, size), size);
    }
    lemma_level_at(es, size, n - 1);
    lemma_page_room(levels, n - 1, 0, size, u32::MAX as int);
    lemma_pages_below(levels, 0, n - 1);
    assert(0 <= pages_below(levels, n - 1) * size) by (nonlinear_arith)
        requires
            pages_below(levels, n - 1) >= 0,
            size > 0,
    ;
}

impl BTree {
    /// Loads the keys with their extents into pages of the given size. A level
    /// of branches has to have fewer pages than the one below it, or the tree
    /// never comes to a root. The tree is whole over sorted keys whose records
    /// fit a page.
    pub fn build(keys: &[Vec<u8>], exts: &[Ext4], page_size: usize) -> (r: BTree)
        requires
            0 < keys@.len() <= exts@.len(),
            2 <= page_size,
            shrinks(
                entries_of(keys@, exts@),
                leaf_level(entries_of(keys@, exts@), page_size as int),
                page_size as int,
            ),
            ({
                let levels = levels_of(entries_of(keys@, exts@), page_size as int);
                pages_below(levels, levels.len() as int) * page_size <= usize::MAX
            }),
        ensures
            r.model@ == entries_of(keys@, exts@),
            r.page_size == page_size,
            r.height == r.levels().len(),
            r.leaf_end == r.levels()[0].spans.len() * page_size,
            r.root == r.base(r.levels().len() - 1, 0) as u32,
            laid(
                r.pages@,
                page_list(r.model@, r.levels(), r.levels().len() as int, page_size as int),
                page_size as int,
            ),
            tree_fits(r.model@, page_size as int) ==> r.whole(),
    {
        let ghost es = entries_of(keys@, exts@);
        let ghost levels = levels_of(es, page_size as int);
        proof {
            lemma_leaf_level(es, page_size as int);
            assert(levels.len() > 0) by {
                reveal(levels_of);
                lemma_levels(es, leaf_level(es, page_size as int), page_size as int);
            }
            lemma_level_at(es, page_size as int, 0);
        }
        let (mut pages, mut level) = build_leaves(keys, exts, page_size);
        let leaf_end: usize = pages.len();
        let mut height: usize = 1;
        proof {
            assert(level@.len() == level.len());
            lemma_page_list_len(es, levels, 1, page_size as int);
            assert(pages_below(levels, 1) == levels[0].spans.len()) by {
                assert(pages_below(levels, 0) == 0);
            }
        }
        while level.len() > 1
            invariant
                es.len() > 0,
                2 <= page_size,
                shrinks(es, leaf_level(es, page_size as int), page_size as int),
                levels == levels_of(es, page_size as int),
                pages_below(levels, levels.len() as int) * page_size <= usize::MAX,
                1 <= height <= levels.len(),
                height <= usize::MAX,
                laid(
                    pages@,
                    page_list(es, levels, height as int, page_size as int),
                    page_size as int,
                ),
                stands_for(level@, es, levels, height - 1, page_size as int),
                height + level@.len() <= levels[0].spans.len() + 1,
                levels[0].spans.len() <= usize::MAX,
            decreases levels.len() - height,
        {
            proof {
                lemma_level_at(es, page_size as int, height - 1);
                assert(height < levels.len());
                lemma_level_at(es, page_size as int, height as int);
                lemma_shrinks_at(es, page_size as int, height as int);
            }
            let up: Vec<(Vec<u8>, u32)> = build_above(
                &mut pages,
                &level,
                page_size,
                Ghost(es),
                Ghost(height as int),
            );
            level = up;
            height = height + 1;
        }
        proof {
            lemma_level_at(es, page_size as int, height - 1);
        }
        let root: usize = level[0].1 as usize;
        shrink(&mut pages);
        let r = BTree { pages, page_size, root, height, leaf_end, model: Ghost(es) };
        proof {
            if tree_fits(es, page_size as int) {
                lemma_tree_whole(r);
            }
        }
        r
    }
}

// ------------------------------------------------------ how many pages --

/// A page takes `m` records of at most `s` bytes where so many fit, or all that
/// are left.
proof fn lemma_take_many(
    sizes: Seq<int>,
    i: int,
    used: int,
    cnt: int,
    size: int,
    s: int,
    m: int,
)
    requires
        0 <= i <= sizes.len(),
        0 <= cnt <= m,
        used <= cnt * s,
        3 + m * (s + 2) <= size,
        s >= 0,
        forall|j: int| 0 <= j < sizes.len() ==> #[trigger] sizes[j] <= s,
    ensures
        page_take(sizes, i, used, cnt, size) >= if i + m - cnt <= sizes.len() {
            i + m - cnt
        } else {
            sizes.len() as int
        },
    decreases sizes.len() - i,
{
    lemma_page_take(sizes, i, used, cnt, size);
    if i < sizes.len() && cnt < m {
        assert(sizes[i] <= s);
        assert(3 + used + sizes[i] + 2 * (cnt + 1) <= size && used + sizes[i] <= (cnt + 1) * s)
            by (nonlinear_arith)
            requires
                used <= cnt * s,
                sizes[i] <= s,
                cnt + 1 <= m,
                s >= 0,
                3 + m * (s + 2) <= size,
        ;
        lemma_take_many(sizes, i + 1, used + sizes[i], cnt + 1, size, s, m);
    }
}

/// Every page but the last takes `m` records where so many fit.
proof fn lemma_spans_few(sizes: Seq<int>, i: int, size: int, s: int, m: int)
    requires
        0 <= i <= sizes.len(),
        m > 0,
        3 + m * (s + 2) <= size,
        s >= 0,
        forall|j: int| 0 <= j < sizes.len() ==> #[trigger] sizes[j] <= s,
    ensures
        page_spans(sizes, i, size).len() * m <= sizes.len() - i + m - 1,
    decreases sizes.len() - i,
{
    if i < sizes.len() {
        lemma_page_take(sizes, i, 0, 0, size);
        lemma_take_many(sizes, i, 0, 0, size, s, m);
        let e = page_take(sizes, i, 0, 0, size);
        lemma_spans_few(sizes, e, size, s, m);
        let rest = page_spans(sizes, e, size).len() as int;
        assert((rest + 1) * m == rest * m + m) by (nonlinear_arith);
        if e == sizes.len() {
            assert(page_spans(sizes, e, size).len() == 0);
            assert(0 * m == 0);
        }
    } else {
        assert(0 * m == 0);
    }
}

/// What comes over a level, counted with it.
proof fn lemma_pages_over(lv: Level, rest: Seq<Level>, k: int)
    requires
        0 <= k <= rest.len(),
    ensures
        pages_below(seq![lv] + rest, k + 1) == lv.spans.len() + pages_below(rest, k),
    decreases k,
{
    if k > 0 {
        lemma_pages_over(lv, rest, k - 1);
        assert((seq![lv] + rest)[k] == rest[k - 1]);
    } else {
        assert(pages_below(seq![lv] + rest, 0) == 0);
    }
}

/// Over a level of pages that hold three records or more, the tree closes, with
/// fewer pages over the level than in it.
proof fn lemma_few_over(es: Seq<Entry>, lv: Level, size: int, most: int)
    requires
        level_sound(lv, es.len() as int),
        forall|i: int| 0 <= i < es.len() ==> (#[trigger] es[i]).0.len() <= most,
        3 + 3 * (most + 8) <= size,
        most >= 0,
    ensures
        shrinks(es, lv, size),
        pages_below(tree_levels(es, lv, size), tree_levels(es, lv, size).len() as int) <= 2
            * lv.firsts.len() - 1,
    decreases lv.firsts.len(),
{
    reveal(shrinks);
    reveal(tree_levels);
    let all = tree_levels(es, lv, size);
    if lv.firsts.len() > 1 {
        let sizes = branch_sizes(es, lv.firsts);
        assert forall|j: int| 0 <= j < sizes.len() implies #[trigger] sizes[j] <= most + 6 by {
            assert(0 <= lv.firsts[j] < es.len());
            assert(es[lv.firsts[j]].0.len() <= most);
        }
        lemma_spans_few(sizes, 0, size, most + 6, 3);
        let up = up_level(es, lv, size);
        lemma_up_level(es, lv, size);
        lemma_few_over(es, up, size, most);
        let rest = tree_levels(es, up, size);
        lemma_pages_over(lv, rest, rest.len() as int);
    } else {
        assert(all =~= seq![lv]);
        assert(pages_below(all, 0) == 0);
        assert(pages_below(all, 1) == pages_below(all, 0) + lv.spans.len());
    }
}

/// A tree over keys of at most `most` bytes, whose leaves hold `m` records, is
/// closed and has at most twice as many pages as leaves.
pub proof fn lemma_short_keys_close(es: Seq<Entry>, size: int, most: int, m: int)
    requires
        es.len() > 0,
        forall|i: int| 0 <= i < es.len() ==> (#[trigger] es[i]).0.len() <= most,
        most >= 0,
        m >= 3,
        3 + m * (most + 20) <= size,
    ensures
        shrinks(es, leaf_level(es, size), size),
        (pages_below(levels_of(es, size), levels_of(es, size).len() as int) + 1) * m <= 2 * (
        es.len() + m - 1),
{
    reveal(levels_of);
    let sizes = leaf_sizes(es);
    let lv = leaf_level(es, size);
    assert forall|j: int| 0 <= j < sizes.len() implies #[trigger] sizes[j] <= most + 18 by {
        assert(es[j].0.len() <= most);
    }
    lemma_spans_few(sizes, 0, size, most + 18, m);
    lemma_leaf_level(es, size);
    assert(3 + 3 * (most + 8) <= 3 + m * (most + 20)) by (nonlinear_arith)
        requires
            m >= 3,
            most >= 0,
    ;
    lemma_few_over(es, lv, size, most);
    let total = pages_below(levels_of(es, size), levels_of(es, size).len() as int);
    let leaves = lv.firsts.len() as int;
    assert((total + 1) * m <= 2 * (leaves * m)) by (nonlinear_arith)
        requires
            total <= 2 * leaves - 1,
            m >= 2,
    ;
}

} // verus!
