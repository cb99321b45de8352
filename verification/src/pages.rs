//! Byte ranges of an object, and the pages that a cache fetches for them.

use crate::sort::{in_order, lemma_same_values, sorted, Pair, Sortable};
use std::collections::BTreeSet;
use vstd::prelude::*;

verus! {

// ------------------------------------------------------------------ ranges --

/// The end of a range.
pub open spec fn end_of(r: (u64, u64)) -> int {
    r.0 + r.1
}

/// Whether some range holds byte `x`.
pub open spec fn covers(ranges: Seq<(u64, u64)>, x: int) -> bool {
    exists|i: int| 0 <= i < ranges.len() && (#[trigger] ranges[i]).0 <= x < end_of(ranges[i])
}

/// Ranges that end within what offsets can tell.
pub open spec fn addressable(ranges: Seq<(u64, u64)>) -> bool {
    forall|i: int| 0 <= i < ranges.len() ==> end_of(#[trigger] ranges[i]) <= u64::MAX
}

/// Ranges that are in order, not empty, and do not touch.
pub open spec fn apart(ranges: Seq<(u64, u64)>) -> bool {
    &&& forall|i: int| 0 <= i < ranges.len() ==> (#[trigger] ranges[i]).1 > 0
    &&& forall|i: int, j: int|
        0 <= i < j < ranges.len() ==> end_of(#[trigger] ranges[i]) < (#[trigger] ranges[j]).0
}

/// Two lists of ranges that are apart and hold the same bytes are the same.
pub proof fn lemma_apart_unique(a: Seq<(u64, u64)>, b: Seq<(u64, u64)>)
    requires
        apart(a),
        apart(b),
        forall|x: int| covers(a, x) <==> covers(b, x),
    ensures
        a == b,
    decreases a.len(),
{
    if a.len() == 0 {
        if b.len() > 0 {
            let x = b[0].0 as int;
            assert(b[0].0 <= x < end_of(b[0]));
            assert(covers(b, x));
        }
        assert(a =~= b);
    } else if b.len() == 0 {
        let x = a[0].0 as int;
        assert(a[0].0 <= x < end_of(a[0]));
        assert(covers(a, x));
    } else {
        lemma_first_range(a, b);
        lemma_first_range(b, a);
        let (p, q) = (a.drop_first(), b.drop_first());
        assert(apart(p)) by {
            assert forall|i: int| 0 <= i < p.len() implies (#[trigger] p[i]).1 > 0 by {
                assert(p[i] == a[i + 1]);
            }
            assert forall|i: int, j: int| 0 <= i < j < p.len() implies end_of(#[trigger] p[i]) < (
            #[trigger] p[j]).0 by {
                assert(p[i] == a[i + 1] && p[j] == a[j + 1]);
            }
        }
        assert(apart(q)) by {
            assert forall|i: int| 0 <= i < q.len() implies (#[trigger] q[i]).1 > 0 by {
                assert(q[i] == b[i + 1]);
            }
            assert forall|i: int, j: int| 0 <= i < j < q.len() implies end_of(#[trigger] q[i]) < (
            #[trigger] q[j]).0 by {
                assert(q[i] == b[i + 1] && q[j] == b[j + 1]);
            }
        }
        assert forall|x: int| covers(p, x) <==> covers(q, x) by {
            lemma_covers_rest(a, x);
            lemma_covers_rest(b, x);
        }
        lemma_apart_unique(p, q);
        assert(a =~= seq![a[0]] + p);
        assert(b =~= seq![b[0]] + q);
    }
}

/// The ranges behind the first hold what the first does not.
proof fn lemma_covers_rest(a: Seq<(u64, u64)>, x: int)
    requires
        apart(a),
        a.len() > 0,
    ensures
        covers(a.drop_first(), x) <==> covers(a, x) && x >= end_of(a[0]),
{
    let p = a.drop_first();
    if covers(p, x) {
        let i = choose|i: int| 0 <= i < p.len() && (#[trigger] p[i]).0 <= x < end_of(p[i]);
        assert(p[i] == a[i + 1]);
        assert(end_of(a[0]) < a[i + 1].0);
    }
    if covers(a, x) && x >= end_of(a[0]) {
        let i = choose|i: int| 0 <= i < a.len() && (#[trigger] a[i]).0 <= x < end_of(a[i]);
        assert(i > 0);
        assert(p[i - 1] == a[i]);
    }
}

/// The first range of either list is the first range of the other.
proof fn lemma_first_range(a: Seq<(u64, u64)>, b: Seq<(u64, u64)>)
    requires
        apart(a),
        apart(b),
        a.len() > 0,
        b.len() > 0,
        forall|x: int| covers(a, x) <==> covers(b, x),
    ensures
        a[0].0 >= b[0].0,
        a[0].0 == b[0].0 ==> end_of(a[0]) <= end_of(b[0]),
{
    let x = a[0].0 as int;
    assert(a[0].0 <= x < end_of(a[0]));
    assert(covers(a, x) && covers(b, x));
    let j = choose|j: int| 0 <= j < b.len() && (#[trigger] b[j]).0 <= x < end_of(b[j]);
    if j > 0 {
        assert(end_of(b[0]) < b[j].0);
    }
    if a[0].0 == b[0].0 && end_of(a[0]) > end_of(b[0]) {
        let y = end_of(b[0]);
        assert(a[0].0 <= y < end_of(a[0]));
        assert(covers(a, y) && covers(b, y));
        let k = choose|k: int| 0 <= k < b.len() && (#[trigger] b[k]).0 <= y < end_of(b[k]);
        if k > 0 {
            assert(end_of(b[0]) < b[k].0);
        }
    }
}

/// Whether some pair of an offset and a length holds byte `x`.
spec fn pairs_cover(pairs: Seq<Pair>, x: int) -> bool {
    exists|i: int|
        0 <= i < pairs.len() && (#[trigger] pairs[i]).a <= x < pairs[i].a + pairs[i].b
}

/// The ranges that hold a byte, as pairs of an offset and a length.
fn full_ranges(ranges: &[(u64, u64)]) -> (out: Vec<Pair>)
    requires
        addressable(ranges@),
    ensures
        forall|x: int| covers(ranges@, x) <==> pairs_cover(out@, x),
        forall|i: int|
            0 <= i < out@.len() ==> (#[trigger] out@[i]).b > 0 && out@[i].a + out@[i].b
                <= u64::MAX,
{
    let mut out: Vec<Pair> = Vec::new();
    let mut i: usize = 0;
    while i < ranges.len()
        invariant
            i <= ranges@.len(),
            addressable(ranges@),
            forall|x: int| covers(ranges@.take(i as int), x) <==> pairs_cover(out@, x),
            forall|j: int|
                0 <= j < out@.len() ==> (#[trigger] out@[j]).b > 0 && out@[j].a + out@[j].b
                    <= u64::MAX,
        decreases ranges.len() - i,
    {
        let r: (u64, u64) = ranges[i];
        let ghost before = out@;
        assert(end_of(ranges@[i as int]) <= u64::MAX);
        if r.1 > 0 {
            out.push(Pair { a: r.0, b: r.1 });
        }
        proof {
            let t = ranges@.take(i + 1);
            let u = ranges@.take(i as int);
            assert forall|x: int| covers(t, x) <==> pairs_cover(out@, x) by {
                if covers(t, x) {
                    let k = choose|k: int|
                        0 <= k < t.len() && (#[trigger] t[k]).0 <= x < end_of(t[k]);
                    if k < i {
                        assert(u[k] == t[k]);
                        assert(covers(u, x));
                        assert(pairs_cover(before, x));
                        let m = choose|m: int|
                            0 <= m < before.len() && (#[trigger] before[m]).a <= x < before[m].a
                                + before[m].b;
                        assert(out@[m] == before[m]);
                    } else {
                        assert(out@[before.len() as int].a <= x);
                    }
                }
                if pairs_cover(out@, x) {
                    let m = choose|m: int|
                        0 <= m < out@.len() && (#[trigger] out@[m]).a <= x < out@[m].a + out@[m].b;
                    if m < before.len() {
                        assert(before[m] == out@[m]);
                        assert(pairs_cover(before, x));
                        assert(covers(u, x));
                        let k = choose|k: int|
                            0 <= k < u.len() && (#[trigger] u[k]).0 <= x < end_of(u[k]);
                        assert(t[k] == u[k]);
                    } else {
                        assert(t[i as int].0 <= x < end_of(t[i as int]));
                    }
                }
            }
        }
        i = i + 1;
    }
    proof {
        assert(ranges@.take(i as int) =~= ranges@);
    }
    out
}

/// Pairs with the same values hold the same bytes.
proof fn lemma_same_cover(a: Seq<Pair>, b: Seq<Pair>, x: int)
    requires
        a.to_multiset() == b.to_multiset(),
        pairs_cover(a, x),
    ensures
        pairs_cover(b, x),
{
    let i = choose|i: int| 0 <= i < a.len() && (#[trigger] a[i]).a <= x < a[i].a + a[i].b;
    assert(a.contains(a[i]));
    lemma_same_values(a, b, a[i]);
    let j = choose|j: int| 0 <= j < b.len() && b[j] == a[i];
    assert(b[j].a <= x < b[j].a + b[j].b);
}

/// The same bytes in as few ranges as can be, in order: ranges that overlap or
/// touch become one, and empty ones are dropped.
pub fn merge_ranges(ranges: &[(u64, u64)]) -> (out: Vec<(u64, u64)>)
    requires
        addressable(ranges@),
    ensures
        apart(out@),
        addressable(out@),
        forall|x: int| covers(out@, x) <==> covers(ranges@, x),
{
    let full: Vec<Pair> = full_ranges(ranges);
    let v: Vec<Pair> = sorted(&full);
    proof {
        assert forall|x: int| pairs_cover(v@, x) <==> covers(ranges@, x) by {
            if pairs_cover(v@, x) {
                lemma_same_cover(v@, full@, x);
            }
            if pairs_cover(full@, x) {
                lemma_same_cover(full@, v@, x);
            }
        }
        assert forall|i: int| 0 <= i < v@.len() implies (#[trigger] v@[i]).b > 0 && v@[i].a
            + v@[i].b <= u64::MAX by {
            assert(v@.contains(v@[i]));
            lemma_same_values(v@, full@, v@[i]);
            let j = choose|j: int| 0 <= j < full@.len() && full@[j] == v@[i];
            assert(full@[j].b > 0);
        }
    }
    let mut out: Vec<(u64, u64)> = Vec::new();
    let mut i: usize = 0;
    while i < v.len()
        invariant
            i <= v@.len(),
            in_order(v@),
            forall|j: int|
                0 <= j < v@.len() ==> (#[trigger] v@[j]).b > 0 && v@[j].a + v@[j].b <= u64::MAX,
            apart(out@),
            addressable(out@),
            i > 0 ==> out@.len() > 0 && out@.last().0 <= v@[i - 1].a,
            i == 0 ==> out@.len() == 0,
            forall|x: int| covers(out@, x) <==> pairs_cover(v@.take(i as int), x),
        decreases v.len() - i,
    {
        let r: Pair = v[i];
        let ghost before = out@;
        assert(v@[i as int] == r);
        let n: usize = out.len();
        let mut joined: bool = false;
        if n > 0 {
            proof {
                assert(v@[i - 1].not_after(v@[i as int]));
                assert(end_of(out@[n - 1]) <= u64::MAX);
            }
            let last: (u64, u64) = out[n - 1];
            if r.a <= last.0 + last.1 {
                let end: u64 = if r.a + r.b > last.0 + last.1 {
                    r.a + r.b
                } else {
                    last.0 + last.1
                };
                out.set(n - 1, (last.0, end - last.0));
                joined = true;
            }
        }
        if !joined {
            out.push((r.a, r.b));
        }
        proof {
            lemma_merge_step(before, out@, v@, i as int, joined);
        }
        i = i + 1;
    }
    proof {
        assert(v@.take(i as int) =~= v@);
    }
    out
}

/// One step of merging keeps what was merged, adds the next range, and keeps
/// the ranges apart.
proof fn lemma_merge_step(
    before: Seq<(u64, u64)>,
    after: Seq<(u64, u64)>,
    v: Seq<Pair>,
    i: int,
    joined: bool,
)
    requires
        0 <= i < v.len(),
        apart(before),
        addressable(before),
        v[i].b > 0,
        v[i].a + v[i].b <= u64::MAX,
        before.len() > 0 ==> before.last().0 <= v[i].a,
        forall|x: int| covers(before, x) <==> pairs_cover(v.take(i), x),
        joined ==> before.len() > 0 && v[i].a <= end_of(before.last()) && after == before.update(
            before.len() - 1,
            (
                before.last().0,
                ((if v[i].a + v[i].b > end_of(before.last()) {
                    v[i].a + v[i].b
                } else {
                    end_of(before.last())
                }) - before.last().0) as u64,
            ),
        ),
        !joined ==> (before.len() == 0 || v[i].a > end_of(before.last())) && after == before.push(
            (v[i].a, v[i].b),
        ),
    ensures
        apart(after),
        addressable(after),
        forall|x: int| covers(after, x) <==> pairs_cover(v.take(i + 1), x),
{
    let r = v[i];
    let t = v.take(i + 1);
    let u = v.take(i);
    let n = before.len();
    assert forall|x: int| covers(after, x) <==> (covers(before, x) || r.a <= x < r.a + r.b) by {
        if covers(after, x) {
            let k = choose|k: int|
                0 <= k < after.len() && (#[trigger] after[k]).0 <= x < end_of(after[k]);
            if joined && k == n - 1 {
                if x < end_of(before[n - 1]) {
                    assert(before[n - 1].0 <= x < end_of(before[n - 1]));
                }
            } else if k < n {
                assert(before[k] == after[k]);
            }
        }
        if covers(before, x) {
            let k = choose|k: int|
                0 <= k < before.len() && (#[trigger] before[k]).0 <= x < end_of(before[k]);
            assert(after[k].0 <= x < end_of(after[k]));
        }
        if r.a <= x < r.a + r.b {
            if joined {
                assert(after[n - 1].0 <= x < end_of(after[n - 1]));
            } else {
                assert(after[n as int].0 <= x < end_of(after[n as int]));
            }
        }
    }
    assert forall|x: int| pairs_cover(t, x) <==> (pairs_cover(u, x) || r.a <= x < r.a + r.b) by {
        if pairs_cover(t, x) {
            let k = choose|k: int| 0 <= k < t.len() && (#[trigger] t[k]).a <= x < t[k].a + t[k].b;
            if k < i {
                assert(u[k] == t[k]);
            }
        }
        if pairs_cover(u, x) {
            let k = choose|k: int| 0 <= k < u.len() && (#[trigger] u[k]).a <= x < u[k].a + u[k].b;
            assert(t[k] == u[k]);
        }
        if r.a <= x < r.a + r.b {
            assert(t[i].a <= x < t[i].a + t[i].b);
        }
    }
}

/// What lies in a plan of one range: the ranges that neither start before it nor end behind
/// it, the empty ones among them.
pub proof fn lemma_inside_one_range(r: (u64, u64), held: (u64, u64))
    requires
        held.1 > 0,
    ensures
        inside(r, seq![held]) <==> held.0 <= r.0 && r.0 + r.1 <= held.0 + held.1,
{
    let plan = seq![held];
    assert forall|x: int| #[trigger] covers(plan, x) <==> held.0 <= x < held.0 + held.1 by {
        if held.0 <= x < held.0 + held.1 {
            assert(plan[0] == held);
        }
    }
    if r.1 > 0 {
        if inside(r, plan) {
            assert(covers(plan, r.0 as int));
            assert(covers(plan, end_of(r) - 1));
        }
    }
}

/// What two lists hold together is what they hold one by one.
pub proof fn lemma_bytes_add_up(a: Seq<(u64, u64)>, b: Seq<(u64, u64)>)
    ensures
        bytes_in(a + b) == bytes_in(a) + bytes_in(b),
        a.len() == 1 ==> bytes_in(a) == a[0].1,
    decreases b.len(),
{
    reveal_with_fuel(bytes_in, 2);
    if b.len() == 0 {
        assert(a + b =~= a);
    } else {
        lemma_bytes_add_up(a, b.drop_last());
        assert((a + b).drop_last() =~= a + b.drop_last());
    }
}

/// Merging what is merged already changes nothing.
pub proof fn lemma_merge_is_stable(ranges: Seq<(u64, u64)>, merged: Seq<(u64, u64)>)
    requires
        apart(ranges),
        apart(merged),
        forall|x: int| covers(merged, x) <==> covers(ranges, x),
    ensures
        merged == ranges,
{
    lemma_apart_unique(merged, ranges);
}

/// The lengths of ranges, added up.
pub open spec fn bytes_in(ranges: Seq<(u64, u64)>) -> nat
    decreases ranges.len(),
{
    if ranges.len() == 0 {
        0
    } else {
        bytes_in(ranges.drop_last()) + ranges.last().1 as nat
    }
}

/// The lengths of the first ranges do not exceed those of all.
proof fn lemma_bytes_in_grows(ranges: Seq<(u64, u64)>, i: int)
    requires
        0 <= i <= ranges.len(),
    ensures
        bytes_in(ranges.take(i)) <= bytes_in(ranges),
    decreases ranges.len() - i,
{
    if i == ranges.len() {
        assert(ranges.take(i) =~= ranges);
    } else {
        lemma_bytes_in_grows(ranges, i + 1);
        assert(ranges.take(i + 1).drop_last() =~= ranges.take(i));
    }
}

/// The lengths of ranges, added up.
pub fn range_bytes(ranges: &[(u64, u64)]) -> (n: u64)
    requires
        bytes_in(ranges@) <= u64::MAX,
    ensures
        n == bytes_in(ranges@),
{
    let mut n: u64 = 0;
    let mut i: usize = 0;
    proof {
        assert(ranges@.take(0) =~= Seq::<(u64, u64)>::empty());
    }
    while i < ranges.len()
        invariant
            i <= ranges@.len(),
            bytes_in(ranges@) <= u64::MAX,
            n == bytes_in(ranges@.take(i as int)),
        decreases ranges.len() - i,
    {
        proof {
            lemma_bytes_in_grows(ranges@, i + 1);
            assert(ranges@.take(i + 1).drop_last() =~= ranges@.take(i as int));
        }
        n = n + ranges[i].1;
        i = i + 1;
    }
    proof {
        assert(ranges@.take(i as int) =~= ranges@);
    }
    n
}

/// Merged ranges never add up to more than offsets can tell.
pub proof fn lemma_apart_bytes(ranges: Seq<(u64, u64)>)
    requires
        apart(ranges),
        addressable(ranges),
    ensures
        bytes_in(ranges) <= u64::MAX,
        ranges.len() > 0 ==> bytes_in(ranges) <= end_of(ranges.last()),
    decreases ranges.len(),
{
    if ranges.len() > 0 {
        let t = ranges.drop_last();
        assert(apart(t)) by {
            assert forall|i: int| 0 <= i < t.len() implies (#[trigger] t[i]).1 > 0 by {
                assert(t[i] == ranges[i]);
            }
            assert forall|i: int, j: int| 0 <= i < j < t.len() implies end_of(#[trigger] t[i]) < (
            #[trigger] t[j]).0 by {
                assert(t[i] == ranges[i] && t[j] == ranges[j]);
            }
        }
        assert(addressable(t)) by {
            assert forall|i: int| 0 <= i < t.len() implies end_of(#[trigger] t[i]) <= u64::MAX by {
                assert(t[i] == ranges[i]);
            }
        }
        lemma_apart_bytes(t);
        if t.len() > 0 {
            assert(end_of(ranges[t.len() - 1]) < ranges[t.len() as int].0);
        }
        assert(end_of(ranges[t.len() as int]) <= u64::MAX);
    }
}

/// Whether every byte of a range is held by the plan. An empty range must lie
/// at, or right behind, a byte that the plan holds.
pub open spec fn inside(r: (u64, u64), plan: Seq<(u64, u64)>) -> bool {
    if r.1 > 0 {
        forall|x: int| r.0 <= x < end_of(r) ==> #[trigger] covers(plan, x)
    } else {
        covers(plan, r.0 as int) || covers(plan, r.0 - 1)
    }
}

/// A range lies in one of the merged ranges just when all of its bytes are
/// held.
proof fn lemma_inside_merged(r: (u64, u64), merged: Seq<(u64, u64)>)
    requires
        apart(merged),
    ensures
        inside(r, merged) <==> exists|j: int|
            0 <= j < merged.len() && (#[trigger] merged[j]).0 <= r.0 && end_of(r) <= end_of(
                merged[j],
            ),
{
    if inside(r, merged) {
        let x: int = if covers(merged, r.0 as int) {
            r.0 as int
        } else {
            r.0 - 1
        };
        if r.1 > 0 {
            assert(covers(merged, r.0 as int));
        }
        let j = choose|j: int|
            0 <= j < merged.len() && (#[trigger] merged[j]).0 <= x < end_of(merged[j]);
        if end_of(r) > end_of(merged[j]) {
            let y = end_of(merged[j]);
            if r.1 > 0 {
                assert(r.0 <= y < end_of(r));
                assert(covers(merged, y));
                let k = choose|k: int|
                    0 <= k < merged.len() && (#[trigger] merged[k]).0 <= y < end_of(merged[k]);
                if k > j {
                    assert(end_of(merged[j]) < merged[k].0);
                } else if k < j {
                    assert(end_of(merged[k]) < merged[j].0);
                }
            }
        }
        assert(merged[j].0 <= r.0 && end_of(r) <= end_of(merged[j]));
    }
    if exists|j: int|
        0 <= j < merged.len() && (#[trigger] merged[j]).0 <= r.0 && end_of(r) <= end_of(
            merged[j],
        ) {
        let j = choose|j: int|
            0 <= j < merged.len() && (#[trigger] merged[j]).0 <= r.0 && end_of(r) <= end_of(
                merged[j],
            );
        assert(merged[j].1 > 0);
        if r.1 > 0 {
            assert forall|x: int| r.0 <= x < end_of(r) implies #[trigger] covers(merged, x) by {
                assert(merged[j].0 <= x < end_of(merged[j]));
            }
        } else if r.0 < end_of(merged[j]) {
            assert(merged[j].0 <= r.0 < end_of(merged[j]));
            assert(covers(merged, r.0 as int));
        } else {
            assert(merged[j].0 <= r.0 - 1 < end_of(merged[j]));
            assert(covers(merged, r.0 - 1));
        }
    }
}

/// Whether every range that was read lies inside the plan: fetching the plan
/// was enough.
pub fn within(got: &[(u64, u64)], plan: &[(u64, u64)]) -> (r: bool)
    requires
        addressable(got@),
        addressable(plan@),
    ensures
        r == (forall|i: int| 0 <= i < got@.len() ==> inside(#[trigger] got@[i], plan@)),
{
    let merged: Vec<(u64, u64)> = merge_ranges(plan);
    let mut i: usize = 0;
    while i < got.len()
        invariant
            i <= got@.len(),
            addressable(got@),
            apart(merged@),
            addressable(merged@),
            forall|x: int| covers(merged@, x) <==> covers(plan@, x),
            forall|k: int| 0 <= k < i ==> inside(#[trigger] got@[k], plan@),
        decreases got.len() - i,
    {
        let g: (u64, u64) = got[i];
        proof {
            assert(end_of(got@[i as int]) <= u64::MAX);
            lemma_inside_merged(g, merged@);
            assert(inside(g, merged@) <==> inside(g, plan@)) by {
                assert forall|x: int| covers(merged@, x) == covers(plan@, x) by {}
            }
        }
        let mut found: bool = false;
        let mut j: usize = 0;
        while j < merged.len() && !found
            invariant
                j <= merged@.len(),
                addressable(merged@),
                end_of(g) <= u64::MAX,
                found ==> exists|k: int|
                    0 <= k < merged@.len() && (#[trigger] merged@[k]).0 <= g.0 && end_of(g)
                        <= end_of(merged@[k]),
                !found ==> forall|k: int|
                    0 <= k < j ==> !((#[trigger] merged@[k]).0 <= g.0 && end_of(g) <= end_of(
                        merged@[k],
                    )),
            decreases merged.len() - j,
        {
            let m: (u64, u64) = merged[j];
            assert(end_of(merged@[j as int]) <= u64::MAX);
            if m.0 <= g.0 && g.0 + g.1 <= m.0 + m.1 {
                assert(merged@[j as int].0 <= g.0);
                found = true;
            }
            j = j + 1;
        }
        if !found {
            assert(!inside(got@[i as int], plan@));
            return false;
        }
        i = i + 1;
    }
    true
}

// ------------------------------------------------------------------- pages --

/// The last byte of a range that an object of `len` bytes has.
pub open spec fn last_byte(r: (u64, u64), len: u64) -> int {
    let top = if len == 0 {
        0
    } else {
        len - 1
    };
    if end_of(r) - 1 < top {
        end_of(r) - 1
    } else {
        top
    }
}

/// Whether a range needs page `p` of an object.
pub open spec fn touches(r: (u64, u64), len: u64, page: u64, p: int) -> bool {
    r.1 > 0 && r.0 as int / page as int <= p <= last_byte(r, len) / page as int
}

/// Whether some range needs page `p` of an object.
pub open spec fn touched(ranges: Seq<(u64, u64)>, len: u64, page: u64, p: int) -> bool {
    exists|i: int| 0 <= i < ranges.len() && touches(#[trigger] ranges[i], len, page, p)
}

/// The bytes of page `p`: whole but for the last one.
pub open spec fn page_len(len: u64, page: u64, p: int) -> int {
    if len - p * page < page {
        len - p * page
    } else {
        page as int
    }
}

/// How many pages an object has; an empty one has an empty page.
pub open spec fn pages_in(len: u64, page: u64) -> nat {
    (last_byte((0, u64::MAX), len) / page as int + 1) as nat
}

/// The bytes of those of the first `n` pages that are in a set.
pub open spec fn page_sum(set: Set<u64>, len: u64, page: u64, n: nat) -> int
    decreases n,
{
    if n == 0 {
        0
    } else {
        page_sum(set, len, page, (n - 1) as nat) + if set.contains((n - 1) as u64) {
            page_len(len, page, n - 1)
        } else {
            0
        }
    }
}

/// One page more is its bytes more.
proof fn lemma_page_sum_insert(set: Set<u64>, len: u64, page: u64, n: nat, p: u64)
    requires
        n <= u64::MAX + 1,
        !set.contains(p),
    ensures
        page_sum(set.insert(p), len, page, n) == page_sum(set, len, page, n) + if p < n {
            page_len(len, page, p as int)
        } else {
            0
        },
    decreases n,
{
    if n > 0 {
        lemma_page_sum_insert(set, len, page, (n - 1) as nat, p);
        let last = (n - 1) as u64;
        assert(set.insert(p).contains(last) == (set.contains(last) || last == p));
    }
}

/// Pages never hold more than the object does.
proof fn lemma_page_sum_bound(set: Set<u64>, len: u64, page: u64, n: nat)
    requires
        page > 0,
        n <= pages_in(len, page),
    ensures
        0 <= page_sum(set, len, page, n) <= len,
        page_sum(set, len, page, n) <= n * page,
    decreases n,
{
    if n > 0 {
        lemma_page_sum_bound(set, len, page, (n - 1) as nat);
        lemma_page_starts(len, page, n - 1);
        assert(n * page == (n - 1) * page + page) by (nonlinear_arith);
    } else {
        assert(n * page == 0) by (nonlinear_arith)
            requires
                n == 0,
        ;
    }
}

/// Every page starts within its object.
pub proof fn lemma_page_starts(len: u64, page: u64, p: int)
    requires
        page > 0,
        0 <= p < pages_in(len, page),
    ensures
        p * page <= len,
        p * page <= u64::MAX,
        pages_in(len, page) <= u64::MAX + 1,
        0 <= page_len(len, page, p) <= page,
        len > 0 ==> p * page < len,
{
    let top = last_byte((0, u64::MAX), len);
    let q = top / page as int;
    vstd::arithmetic::div_mod::lemma_fundamental_div_mod(top, page as int);
    vstd::arithmetic::div_mod::lemma_mod_bound(top, page as int);
    assert(p * page <= q * page) by (nonlinear_arith)
        requires
            p <= q,
            page > 0,
    ;
    assert(page * q == q * page) by (nonlinear_arith);
    vstd::arithmetic::div_mod::lemma_div_is_ordered_by_denominator(top, 1, page as int);
    assert(q <= top);
}

/// A range touches the pages that it shares a byte with, as far as the object goes, and no
/// others; a range of no bytes touches none.
pub proof fn lemma_touched_pages_share_bytes(r: (u64, u64), len: u64, page: u64, p: int)
    requires
        page > 0,
        0 <= p,
        r.0 < len,
    ensures
        touches(r, len, page, p) <==> {
            let end = if r.0 + r.1 < len {
                r.0 + r.1
            } else {
                len as int
            };
            r.1 > 0 && p * page < end && r.0 < (p + 1) * page
        },
{
    let last = last_byte(r, len);
    let (a, b) = (r.0 as int / page as int, last / page as int);
    vstd::arithmetic::div_mod::lemma_fundamental_div_mod(r.0 as int, page as int);
    vstd::arithmetic::div_mod::lemma_mod_bound(r.0 as int, page as int);
    vstd::arithmetic::div_mod::lemma_fundamental_div_mod(last, page as int);
    vstd::arithmetic::div_mod::lemma_mod_bound(last, page as int);
    let (x, y) = (r.0 as int % page as int, last % page as int);
    assert(p <= b <==> p * page <= last) by (nonlinear_arith)
        requires
            last == page * b + y,
            0 <= y < page,
    ;
    assert(a <= p <==> r.0 < (p + 1) * page) by (nonlinear_arith)
        requires
            r.0 == page * a + x,
            0 <= x < page,
    ;
}

/// The pages of an object: as many as cover it, all whole but the last, which has the
/// rest; together they are the object.
pub proof fn lemma_pages_are_the_object(len: u64, page: u64, set: Set<u64>)
    requires
        page > 0,
        len > 0,
        forall|p: u64| p < pages_in(len, page) ==> #[trigger] set.contains(p),
    ensures
        (pages_in(len, page) - 1) * page < len <= pages_in(len, page) * page,
        page_sum(set, len, page, pages_in(len, page)) == len,
{
    let top = len - 1;
    let q = top / page as int;
    vstd::arithmetic::div_mod::lemma_fundamental_div_mod(top, page as int);
    vstd::arithmetic::div_mod::lemma_mod_bound(top, page as int);
    assert(page * q == q * page && (q + 1) * page == q * page + page) by (nonlinear_arith);
    lemma_page_starts(len, page, q);
    lemma_whole_pages(len, page, set, q as nat);
}

/// The first pages are whole.
proof fn lemma_whole_pages(len: u64, page: u64, set: Set<u64>, n: nat)
    requires
        page > 0,
        n < pages_in(len, page) <= u64::MAX + 1,
        n * page <= len,
        forall|p: u64| p < pages_in(len, page) ==> #[trigger] set.contains(p),
    ensures
        page_sum(set, len, page, n) == n * page,
    decreases n,
{
    if n > 0 {
        assert(n * page == (n - 1) * page + page) by (nonlinear_arith);
        lemma_whole_pages(len, page, set, (n - 1) as nat);
        assert(set.contains((n - 1) as u64));
    } else {
        assert(n * page == 0) by (nonlinear_arith)
            requires
                n == 0,
        ;
    }
}

/// One more page adds its bytes: those that the object has of it.
pub proof fn lemma_page_adds_its_bytes(set: Set<u64>, len: u64, page: u64, p: u64)
    requires
        page > 0,
        p < pages_in(len, page),
        !set.contains(p),
    ensures
        page_sum(set.insert(p), len, page, pages_in(len, page)) - page_sum(
            set,
            len,
            page,
            pages_in(len, page),
        ) == if (p + 1) * page <= len {
            page as int
        } else {
            len - p * page
        },
{
    lemma_page_starts(len, page, p as int);
    lemma_page_sum_insert(set, len, page, pages_in(len, page), p);
    assert((p + 1) * page == p * page + page) by (nonlinear_arith);
}

/// Adds a page to a set, and tells whether it is new.
fn add_page(set: &mut BTreeSet<u64>, p: u64) -> (fresh: bool)
    ensures
        final(set)@ == old(set)@.insert(p),
        fresh == !old(set)@.contains(p),
{
    broadcast use {vstd::std_specs::btree::group_btree_axioms, vstd::laws_cmp::group_laws_cmp};

    set.insert(p)
}

/// Whether a page is in a set.
pub fn has_page(set: &BTreeSet<u64>, p: u64) -> (r: bool)
    ensures
        r == set@.contains(p),
{
    broadcast use {vstd::std_specs::btree::group_btree_axioms, vstd::laws_cmp::group_laws_cmp};

    set.contains(&p)
}

/// The pages that some range needs.
pub open spec fn touched_set(ranges: Seq<(u64, u64)>, len: u64, page: u64) -> Set<u64> {
    Set::new(|p: u64| touched(ranges, len, page, p as int))
}

/// The pages of a set lie in an object.
pub open spec fn in_object(set: Set<u64>, len: u64, page: u64) -> bool {
    forall|p: u64| #[trigger] set.contains(p) ==> p < pages_in(len, page)
}

/// Fetches the pages of one range that are not there yet, and tells how many
/// bytes that was.
fn fetch_one(resident: &mut BTreeSet<u64>, r: (u64, u64), len: u64, page: u64) -> (new: u64)
    requires
        page > 0,
        end_of(r) <= u64::MAX,
        in_object(old(resident)@, len, page),
    ensures
        forall|p: u64| #[trigger]
            final(resident)@.contains(p) <==> old(resident)@.contains(p) || touches(
                r,
                len,
                page,
                p as int,
            ),
        in_object(final(resident)@, len, page),
        new == page_sum(final(resident)@, len, page, pages_in(len, page)) - page_sum(
            old(resident)@,
            len,
            page,
            pages_in(len, page),
        ),
{
    let ghost start = resident@;
    let ghost n = pages_in(len, page);
    if r.1 == 0 {
        return 0;
    }
    let top: u64 = if len == 0 {
        0
    } else {
        len - 1
    };
    let reach: u64 = r.0 + r.1 - 1;
    let last: u64 = if reach < top {
        reach
    } else {
        top
    };
    let stop: u64 = last / page;
    let mut p: u64 = r.0 / page;
    let mut new: u64 = 0;
    proof {
        assert(last == last_byte(r, len));
        vstd::arithmetic::div_mod::lemma_div_is_ordered(last as int, top as int, page as int);
        assert(stop < n);
        vstd::arithmetic::div_mod::lemma_div_is_ordered_by_denominator(
            last as int,
            1,
            page as int,
        );
        assert(stop <= last < u64::MAX);
        assert forall|q: u64| #[trigger] resident@.contains(q) <==> start.contains(q) || (touches(
            r,
            len,
            page,
            q as int,
        ) && q < p) by {}
    }
    while p <= stop
        invariant
            page > 0,
            r.1 > 0,
            n == pages_in(len, page),
            stop < n,
            stop < u64::MAX,
            stop as int == last_byte(r, len) / page as int,
            r.0 as int / page as int <= p,
            in_object(resident@, len, page),
            forall|q: u64| #[trigger]
                resident@.contains(q) <==> start.contains(q) || (touches(r, len, page, q as int)
                    && q < p),
            new == page_sum(resident@, len, page, n) - page_sum(start, len, page, n),
            in_object(start, len, page),
        decreases stop + 1 - p,
    {
        let ghost before = resident@;
        proof {
            lemma_page_starts(len, page, p as int);
        }
        if add_page(resident, p) {
            proof {
                lemma_page_sum_insert(before, len, page, n, p);
                lemma_page_sum_bound(resident@, len, page, n);
                lemma_page_sum_bound(start, len, page, n);
            }
            let left: u64 = len - p * page;
            let size: u64 = if left < page {
                left
            } else {
                page
            };
            new = new + size;
        } else {
            proof {
                assert(before.insert(p) =~= before);
            }
        }
        proof {
            assert(touches(r, len, page, p as int));
        }
        p = p + 1;
    }
    new
}

/// Fetches the pages of ranges that are not there yet, and tells how many bytes
/// that was.
pub fn fetch(resident: &mut BTreeSet<u64>, ranges: &[(u64, u64)], len: u64, page: u64) -> (new: u64)
    requires
        page > 0,
        addressable(ranges@),
        in_object(old(resident)@, len, page),
    ensures
        final(resident)@ == old(resident)@.union(touched_set(ranges@, len, page)),
        in_object(final(resident)@, len, page),
        new == page_sum(final(resident)@, len, page, pages_in(len, page)) - page_sum(
            old(resident)@,
            len,
            page,
            pages_in(len, page),
        ),
{
    let ghost start = resident@;
    let ghost n = pages_in(len, page);
    let mut new: u64 = 0;
    let mut i: usize = 0;
    while i < ranges.len()
        invariant
            i <= ranges@.len(),
            page > 0,
            n == pages_in(len, page),
            addressable(ranges@),
            in_object(resident@, len, page),
            forall|p: u64| #[trigger]
                resident@.contains(p) <==> start.contains(p) || touched(
                    ranges@.take(i as int),
                    len,
                    page,
                    p as int,
                ),
            new == page_sum(resident@, len, page, n) - page_sum(start, len, page, n),
        decreases ranges.len() - i,
    {
        let ghost before = resident@;
        let r: (u64, u64) = ranges[i];
        assert(end_of(ranges@[i as int]) <= u64::MAX);
        let more: u64 = fetch_one(resident, r, len, page);
        proof {
            lemma_page_sum_bound(resident@, len, page, n);
            lemma_page_sum_bound(start, len, page, n);
            assert forall|p: u64| touched(ranges@.take(i + 1), len, page, p as int) <==> touched(
                ranges@.take(i as int),
                len,
                page,
                p as int,
            ) || touches(r, len, page, p as int) by {
                lemma_touched_next(ranges@, i as int, len, page, p as int);
            }
        }
        new = new + more;
        i = i + 1;
    }
    proof {
        assert(ranges@.take(i as int) =~= ranges@);
        assert(resident@ =~= start.union(touched_set(ranges@, len, page)));
    }
    new
}

proof fn lemma_touched_next(ranges: Seq<(u64, u64)>, i: int, len: u64, page: u64, p: int)
    requires
        0 <= i < ranges.len(),
    ensures
        touched(ranges.take(i + 1), len, page, p) <==> touched(ranges.take(i), len, page, p)
            || touches(ranges[i], len, page, p),
{
    let (t, u) = (ranges.take(i + 1), ranges.take(i));
    if touched(t, len, page, p) {
        let k = choose|k: int| 0 <= k < t.len() && touches(#[trigger] t[k], len, page, p);
        if k < i {
            assert(u[k] == t[k]);
        }
    }
    if touched(u, len, page, p) {
        let k = choose|k: int| 0 <= k < u.len() && touches(#[trigger] u[k], len, page, p);
        assert(t[k] == u[k]);
    }
    if touches(ranges[i], len, page, p) {
        assert(t[i] == ranges[i]);
    }
}

/// The bytes of the pages that ranges need.
pub open spec fn paged_bytes_of(ranges: Seq<(u64, u64)>, len: u64, page: u64) -> int {
    page_sum(touched_set(ranges, len, page), len, page, pages_in(len, page))
}

/// The bytes that a cache fetches to satisfy ranges: whole pages, each once,
/// the last one cut off at the object's end.
pub fn paged_bytes(ranges: &[(u64, u64)], object_len: u64, page: u64) -> (n: u64)
    requires
        page > 0,
        addressable(ranges@),
    ensures
        n == paged_bytes_of(ranges@, object_len, page),
{
    let mut resident: BTreeSet<u64> = BTreeSet::new();
    proof {
        lemma_page_sum_empty(object_len, page, pages_in(object_len, page));
    }
    let n: u64 = fetch(&mut resident, ranges, object_len, page);
    proof {
        assert(Set::<u64>::empty().union(touched_set(ranges@, object_len, page)) =~= touched_set(
            ranges@,
            object_len,
            page,
        ));
    }
    n
}

/// No pages are no bytes.
pub proof fn lemma_page_sum_empty(len: u64, page: u64, n: nat)
    ensures
        page_sum(Set::empty(), len, page, n) == 0,
    decreases n,
{
    if n > 0 {
        lemma_page_sum_empty(len, page, (n - 1) as nat);
    }
}

/// What is fetched never exceeds the object.
pub proof fn lemma_page_sum_within(set: Set<u64>, len: u64, page: u64)
    requires
        page > 0,
    ensures
        0 <= page_sum(set, len, page, pages_in(len, page)) <= len,
{
    lemma_page_sum_bound(set, len, page, pages_in(len, page));
}

/// Pages never hold more than the object does, however the ranges lie.
pub proof fn lemma_paged_bytes_bound(ranges: Seq<(u64, u64)>, len: u64, page: u64)
    requires
        page > 0,
    ensures
        0 <= paged_bytes_of(ranges, len, page) <= len,
{
    lemma_page_sum_bound(touched_set(ranges, len, page), len, page, pages_in(len, page));
}

} // verus!
