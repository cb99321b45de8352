//! The key sets that the layouts are measured over, by their shape.

use crate::bytes::{
    bytes_equal, bytes_lt, key_seqs, lemma_le_transitive, lemma_order_total,
    strictly_sorted, to_owned,
};
use crate::digits::{decimal, digits, fixed_digits, padded};
use crate::hash::GOLDEN;
use crate::layout::Ext4;
use crate::sort::{in_order, lemma_same_values, sorted, Sortable};
use crate::text::same_text;
use std::collections::HashSet;
use vstd::prelude::*;

verus! {

broadcast use vstd::std_specs::hash::group_hash_axioms;

/// How keys are distributed.
#[derive(Clone, Copy, PartialEq, Eq, Debug, Structural)]
pub enum Shape {
    /// Sixteen zero-padded decimal digits: dense and smooth.
    Decimal16,
    /// Sixteen hex characters of a random number: uniform over the key space.
    RandomHex,
    /// Dense islands separated by large gaps.
    Clustered,
}

impl Shape {
    /// The shape of a name.
    pub open spec fn named(s: Seq<char>) -> Option<Shape> {
        if s == "decimal16"@ {
            Some(Shape::Decimal16)
        } else if s == "randomhex"@ {
            Some(Shape::RandomHex)
        } else if s == "clustered"@ {
            Some(Shape::Clustered)
        } else {
            None
        }
    }

    /// The name of the shape.
    pub open spec fn name_of(self) -> Seq<char> {
        match self {
            Shape::Decimal16 => "decimal16"@,
            Shape::RandomHex => "randomhex"@,
            Shape::Clustered => "clustered"@,
        }
    }

    /// The shape that a name stands for, if any.
    pub fn parse(s: &str) -> (r: Option<Shape>)
        ensures
            r == Shape::named(s@),
    {
        if same_text(s, "decimal16") {
            Some(Shape::Decimal16)
        } else if same_text(s, "randomhex") {
            Some(Shape::RandomHex)
        } else if same_text(s, "clustered") {
            Some(Shape::Clustered)
        } else {
            None
        }
    }

    /// The name of the shape.
    pub fn as_str(&self) -> (s: &'static str)
        ensures
            s@ == self.name_of(),
    {
        match self {
            Shape::Decimal16 => "decimal16",
            Shape::RandomHex => "randomhex",
            Shape::Clustered => "clustered",
        }
    }
}

/// A shape's name stands for that shape.
pub proof fn lemma_shape_round_trip(s: Shape)
    ensures
        Shape::named(s.name_of()) == Some(s),
{
    reveal_strlit("decimal16");
    reveal_strlit("randomhex");
    reveal_strlit("clustered");
    assert("decimal16"@[0] != "randomhex"@[0]);
    assert("decimal16"@[0] != "clustered"@[0]);
    assert("randomhex"@[0] != "clustered"@[0]);
}

/// How many islands a clustered set has.
pub const ISLANDS: u64 = 64;

/// Where island `i` starts.
pub open spec fn island_base(i: u64) -> u64 {
    (i.wrapping_mul(GOLDEN) >> 8) << 20
}

/// The values of a clustered set before duplicates are dropped: the islands in
/// order, `per` consecutive values in each.
pub open spec fn island_value(i: u64, j: u64) -> u64 {
    island_base(i).wrapping_add(j)
}

/// How many values an island has in a set of `n`.
pub open spec fn per_island(n: nat) -> nat {
    (n + 63) / 64
}

/// The distinct values that were met walking the islands, first come first, up
/// to `n` of them, after `i` whole islands and `j` values of the next.
pub open spec fn clustered_values(n: nat, i: nat, j: nat) -> Seq<u64>
    decreases i, j,
{
    if j > 0 {
        let before = clustered_values(n, i, (j - 1) as nat);
        let v = island_value(i as u64, (j - 1) as u64);
        if before.len() >= n || before.contains(v) {
            before
        } else {
            before.push(v)
        }
    } else if i > 0 {
        clustered_values(n, (i - 1) as nat, per_island(n))
    } else {
        Seq::empty()
    }
}

/// A number as sixteen hex characters.
pub open spec fn hex16(v: u64) -> Seq<u8> {
    fixed_digits(v as nat, 16, 16)
}

/// The keys of a shape, before sorting: `drawn` are the distinct random numbers
/// that a random set is made of.
pub open spec fn raw_keys(shape: Shape, n: nat, drawn: Seq<u64>) -> Seq<Seq<u8>> {
    match shape {
        Shape::Decimal16 => Seq::new(n, |i: int| padded(i as nat, 16)),
        Shape::RandomHex => Seq::new(n, |i: int| hex16(drawn[i])),
        Shape::Clustered => {
            let vs = clustered_values(n, ISLANDS as nat, 0);
            Seq::new(vs.len(), |i: int| hex16(vs[i]))
        },
    }
}

/// Distinct random numbers, in the order in which they were first drawn.
pub struct Draws {
    pub seen: HashSet<u64>,
    pub values: Vec<u64>,
}

impl Draws {
    /// Every number drawn is listed once.
    pub open spec fn wf(self) -> bool {
        &&& self.values@.no_duplicates()
        &&& forall|v: u64| #[trigger] self.seen@.contains(v) <==> self.values@.contains(v)
    }

    /// No numbers yet.
    pub fn new() -> (d: Draws)
        ensures
            d.wf(),
            d.values@ == Seq::<u64>::empty(),
    {
        Draws { seen: HashSet::new(), values: Vec::new() }
    }

    /// Takes a number in unless it was drawn before, and says which.
    pub fn offer(&mut self, v: u64) -> (fresh: bool)
        requires
            old(self).wf(),
        ensures
            final(self).wf(),
            fresh == !old(self).values@.contains(v),
            final(self).values@ == if fresh {
                old(self).values@.push(v)
            } else {
                old(self).values@
            },
    {
        let fresh: bool = self.seen.insert(v);
        if fresh {
            let ghost before = self.values@;
            self.values.push(v);
            proof {
                lemma_push_distinct(before, v);
                assert forall|u: u64| #[trigger] self.seen@.contains(u)
                    <==> self.values@.contains(u) by {
                    lemma_push_has(before, v, u);
                }
            }
        }
        fresh
    }
}

/// A pushed list holds what was there and what was pushed.
proof fn lemma_push_has(s: Seq<u64>, v: u64, u: u64)
    ensures
        s.push(v).contains(u) <==> s.contains(u) || u == v,
{
    if s.contains(u) {
        let t = choose|t: int| 0 <= t < s.len() && s[t] == u;
        assert(s.push(v)[t] == u);
    }
    if u == v {
        assert(s.push(v)[s.len() as int] == u);
    }
    if s.push(v).contains(u) && u != v {
        let t = choose|t: int| 0 <= t < s.push(v).len() && s.push(v)[t] == u;
        assert(s[t] == u);
    }
}

/// Pushing what is not there keeps a list distinct.
proof fn lemma_push_distinct(s: Seq<u64>, v: u64)
    requires
        s.no_duplicates(),
        !s.contains(v),
    ensures
        s.push(v).no_duplicates(),
{
    let t = s.push(v);
    assert forall|a: int, b: int| 0 <= a < t.len() && 0 <= b < t.len() && a != b implies t[a]
        != t[b] by {
        if a == s.len() {
            assert(s.contains(s[b]));
        } else if b == s.len() {
            assert(s.contains(s[a]));
        }
    }
}

/// The clustered values of a set of `n`.
fn clustered(n: usize) -> (values: Vec<u64>)
    ensures
        values@ == clustered_values(n as nat, ISLANDS as nat, 0),
{
    let per: u64 = (n as u64) / ISLANDS + if (n as u64) % ISLANDS > 0 {
        1
    } else {
        0
    };
    assert(per == per_island(n as nat));
    let mut draws: Draws = Draws::new();
    let mut i: u64 = 0;
    while i < ISLANDS
        invariant
            i <= ISLANDS,
            per == per_island(n as nat),
            draws.wf(),
            draws.values@ == clustered_values(n as nat, i as nat, 0),
        decreases ISLANDS - i,
    {
        let base: u64 = (i.wrapping_mul(GOLDEN) >> 8) << 20;
        let mut j: u64 = 0;
        while j < per
            invariant
                j <= per,
                base == island_base(i),
                draws.wf(),
                draws.values@ == clustered_values(n as nat, i as nat, j as nat),
            decreases per - j,
        {
            if draws.values.len() < n {
                let v: u64 = base.wrapping_add(j);
                let _ = draws.offer(v);
            }
            j = j + 1;
        }
        i = i + 1;
    }
    draws.values
}

/// Keys in order, each once.
pub fn sort_distinct(keys: &Vec<Vec<u8>>) -> (out: Vec<Vec<u8>>)
    ensures
        strictly_sorted(key_seqs(out@)),
        forall|k: Seq<u8>| #[trigger]
            key_seqs(out@).contains(k) <==> key_seqs(keys@).contains(k),
{
    let ghost raw = key_seqs(keys@);
    let mut views: Vec<&[u8]> = Vec::with_capacity(keys.len());
    let mut i: usize = 0;
    while i < keys.len()
        invariant
            i <= keys@.len(),
            views@.len() == i,
            forall|j: int| 0 <= j < i ==> (#[trigger] views@[j])@ == keys@[j]@,
        decreases keys.len() - i,
    {
        views.push(keys[i].as_slice());
        i = i + 1;
    }
    let order: Vec<&[u8]> = sorted(&views);
    let mut out: Vec<Vec<u8>> = Vec::with_capacity(order.len());
    let mut i: usize = 0;
    while i < order.len()
        invariant
            i <= order@.len(),
            in_order(order@),
            strictly_sorted(key_seqs(out@)),
            i > 0 ==> out@.len() > 0 && out@.last()@ == order@[i - 1]@,
            out@.len() > 0 ==> i > 0,
            forall|j: int| 0 <= j < i ==> key_seqs(out@).contains((#[trigger] order@[j])@),
            forall|t: int|
                0 <= t < out@.len() ==> exists|j: int|
                    0 <= j < i && (#[trigger] order@[j])@ == (#[trigger] out@[t])@,
        decreases order.len() - i,
    {
        let k: &[u8] = order[i];
        let fresh: bool = out.len() == 0 || !bytes_equal(&out[out.len() - 1], k);
        let ghost before = out@;
        if fresh {
            out.push(to_owned(k));
        }
        proof {
            let ks = key_seqs(before);
            let now = key_seqs(out@);
            if fresh {
                assert forall|a: int, b: int| 0 <= a < b < now.len() implies bytes_lt(
                    #[trigger] now[a],
                    #[trigger] now[b],
                ) by {
                    if b < before.len() {
                        assert(ks[a] == now[a] && ks[b] == now[b]);
                    } else {
                        let last = before.last()@;
                        assert(order@[i - 1].not_after(order@[i as int]));
                        lemma_order_total(last, k@);
                        if a < before.len() - 1 {
                            assert(ks[a] == now[a] && ks[before.len() - 1] == last);
                            lemma_order_total(ks[a], last);
                            lemma_le_transitive(ks[a], last, k@);
                        }
                    }
                }
            }
            assert forall|j: int| 0 <= j < i + 1 implies now.contains((#[trigger] order@[j])@) by {
                if j < i {
                    assert(ks.contains(order@[j]@));
                    let t = choose|t: int| 0 <= t < ks.len() && ks[t] == order@[j]@;
                    assert(now[t] == ks[t]);
                } else {
                    assert(now[out@.len() - 1] == k@);
                }
            }
            assert forall|t: int| 0 <= t < out@.len() implies exists|j: int|
                0 <= j < i + 1 && (#[trigger] order@[j])@ == (#[trigger] out@[t])@ by {
                if t < before.len() {
                    assert(out@[t] == before[t]);
                    let j = choose|j: int|
                        0 <= j < i && (#[trigger] order@[j])@ == (#[trigger] before[t])@;
                    assert(order@[j]@ == out@[t]@);
                } else {
                    assert(order@[i as int]@ == out@[t]@);
                }
            }
        }
        i = i + 1;
    }
    proof {
        let now = key_seqs(out@);
        assert forall|k: Seq<u8>| #[trigger] now.contains(k) <==> raw.contains(k) by {
            if now.contains(k) {
                let t = choose|t: int| 0 <= t < now.len() && now[t] == k;
                assert(out@[t]@ == k);
                let j = choose|j: int|
                    0 <= j < order@.len() && (#[trigger] order@[j])@ == (#[trigger] out@[t])@;
                lemma_same_values(order@, views@, order@[j]);
                assert(order@.contains(order@[j]));
                let q = choose|q: int| 0 <= q < views@.len() && views@[q] == order@[j];
                assert(raw[q] == k);
            }
            if raw.contains(k) {
                let q = choose|q: int| 0 <= q < raw.len() && raw[q] == k;
                assert(views@.contains(views@[q]));
                lemma_same_values(order@, views@, views@[q]);
                let j = choose|j: int| 0 <= j < order@.len() && order@[j] == views@[q];
                assert(now.contains(order@[j]@));
            }
        }
    }
    out
}

/// The keys of a set of `n` in a shape: distinct and sorted. A random set is
/// made of the first `n` of `drawn`, which are distinct.
pub fn make_keys(shape: Shape, n: usize, drawn: &Vec<u64>) -> (keys: Vec<Vec<u8>>)
    requires
        shape is RandomHex ==> drawn@.len() >= n,
    ensures
        strictly_sorted(key_seqs(keys@)),
        forall|k: Seq<u8>| #[trigger]
            key_seqs(keys@).contains(k) <==> raw_keys(shape, n as nat, drawn@).contains(k),
{
    let mut raw: Vec<Vec<u8>> = Vec::new();
    let ghost want = raw_keys(shape, n as nat, drawn@);
    match shape {
        Shape::Decimal16 => {
            let mut i: usize = 0;
            while i < n
                invariant
                    i <= n,
                    raw@.len() == i,
                    forall|j: int| 0 <= j < i ==> (#[trigger] raw@[j])@ == padded(j as nat, 16),
                decreases n - i,
            {
                raw.push(decimal(i as u64, 16));
                i = i + 1;
            }
        },
        Shape::RandomHex => {
            let mut i: usize = 0;
            while i < n
                invariant
                    i <= n <= drawn@.len(),
                    raw@.len() == i,
                    forall|j: int| 0 <= j < i ==> (#[trigger] raw@[j])@ == hex16(drawn@[j]),
                decreases n - i,
            {
                raw.push(digits(drawn[i], 16, 16));
                i = i + 1;
            }
        },
        Shape::Clustered => {
            let values: Vec<u64> = clustered(n);
            let mut i: usize = 0;
            while i < values.len()
                invariant
                    i <= values@.len(),
                    raw@.len() == i,
                    forall|j: int| 0 <= j < i ==> (#[trigger] raw@[j])@ == hex16(values@[j]),
                decreases values.len() - i,
            {
                raw.push(digits(values[i], 16, 16));
                i = i + 1;
            }
        },
    }
    proof {
        assert(key_seqs(raw@) =~= want);
    }
    sort_distinct(&raw)
}

/// An island starts at a multiple of two to the twentieth, and no two islands
/// start at the same place.
proof fn lemma_island_bases(i: u64, k: u64)
    requires
        i < 64,
        k < 64,
    ensures
        island_base(i) % 0x10_0000 == 0,
        island_base(0) == 0,
        island_base(i) == island_base(k) ==> i == k,
        island_base(i) == (((i * 0x9E37_79B9_7F4A_7C15) % 0x1_0000_0000_0000_0000) / 256
            * 0x10_0000) % 0x1_0000_0000_0000_0000,
{
    let g = GOLDEN;
    assert(g == 0x9E37_79B9_7F4A_7C15);
    let a = i.wrapping_mul(g);
    let b = k.wrapping_mul(g);
    assert(a == (i * g) as u64 && b == (k * g) as u64) by {
        assert((i * g) as u64 == (i * g) % 0x1_0000_0000_0000_0000 && (k * g) as u64 == (k * g)
            % 0x1_0000_0000_0000_0000) by (bit_vector);
    }
    assert(((a >> 8) << 20) % 0x10_0000 == 0 && (a >> 8) << 20 == ((a / 256) * 0x10_0000)
        % 0x1_0000_0000_0000_0000 && (0u64 >> 8) << 20 == 0) by (bit_vector);
    assert(0u64.wrapping_mul(g) == 0);
    assert((a >> 8) << 20 == (b >> 8) << 20 ==> i == k) by (bit_vector)
        requires
            a == (i * g) as u64,
            b == (k * g) as u64,
            g == 0x9E37_79B9_7F4A_7C15,
            i < 64,
            k < 64,
    ;
}

/// The value at place `t` of islands of `per` values in a row.
#[verifier::opaque]
spec fn row_value(per: int, t: int) -> int {
    island_base((t / per) as u64) + t % per
}

/// The islands in a row start where they should, and nothing comes twice.
proof fn lemma_row_value(per: int, i: int, j: int, t: int)
    requires
        0 <= i < 64,
        0 <= j < per <= 0x10_0000,
        0 <= t < i * per + j,
    ensures
        row_value(per, t) != row_value(per, i * per + j),
{
    reveal(row_value);
    let at = i * per + j;
    assert(per * i == i * per) by (nonlinear_arith);
    vstd::arithmetic::div_mod::lemma_fundamental_div_mod_converse(at, per, i, j);
    vstd::arithmetic::div_mod::lemma_fundamental_div_mod(t, per);
    vstd::arithmetic::div_mod::lemma_mod_bound(t, per);
    let (q, r) = (t / per, t % per);
    assert(0 <= q <= i) by (nonlinear_arith)
        requires
            t == per * q + r,
            0 <= r < per,
            0 <= t < i * per + per,
    ;
    lemma_island_bases(i as u64, q as u64);
    lemma_island_bases(q as u64, i as u64);
    if row_value(per, t) == row_value(per, at) {
        assert(r == j && island_base(q as u64) == island_base(i as u64));
        assert(per * q == i * per) by (nonlinear_arith)
            requires
                q == i,
        ;
    }
}

/// Value `j` of island `i`.
proof fn lemma_row_start(per: int, i: int, j: int)
    requires
        0 <= i < 64,
        0 <= j < per <= 0x10_0000,
    ensures
        row_value(per, i * per + j) == island_base(i as u64) + j,
        island_value(i as u64, j as u64) == island_base(i as u64) + j,
{
    reveal(row_value);
    assert(per * i == i * per) by (nonlinear_arith);
    vstd::arithmetic::div_mod::lemma_fundamental_div_mod_converse(i * per + j, per, i, j);
    lemma_island_bases(i as u64, i as u64);
}

/// The value at place `t` of the islands in a row.
proof fn lemma_islands_in_a_row(n: nat, i: nat, j: nat)
    requires
        0 < n <= 0x400_0000,
        i <= 64,
        i == 64 ==> j == 0,
        j <= per_island(n),
    ensures
        clustered_values(n, i, j).len() == if i * per_island(n) + j <= n {
            (i * per_island(n) + j) as nat
        } else {
            n
        },
        forall|t: int|
            0 <= t < clustered_values(n, i, j).len() ==> #[trigger] clustered_values(n, i, j)[t]
                == row_value(per_island(n) as int, t),
    decreases i, j,
{
    let per = per_island(n) as int;
    assert(0 < per <= 0x10_0000);
    let all = clustered_values(n, i, j);
    if j > 0 {
        let before = clustered_values(n, i, (j - 1) as nat);
        lemma_islands_in_a_row(n, i, (j - 1) as nat);
        let v = island_value(i as u64, (j - 1) as u64);
        let at = i * per + (j - 1);
        if before.len() < n {
            assert(before.len() == at);
            assert(v == row_value(per, at)) by {
                lemma_row_start(per, i as int, j - 1);
            }
            if before.contains(v) {
                let t = choose|t: int| 0 <= t < before.len() && before[t] == v;
                lemma_row_value(per, i as int, j - 1, t);
            }
            assert(all == before.push(v));
        }
    } else if i > 0 {
        lemma_islands_in_a_row(n, (i - 1) as nat, per_island(n));
        assert(i * per == (i - 1) * per + per) by (nonlinear_arith);
    } else {
        assert(0 * per == 0) by (nonlinear_arith);
    }
}

/// A clustered set is dense islands spread over the space. There are as many
/// values as asked for, no two of them the same. They come in runs of a
/// sixty-fourth of the set, rounded up: within a run each value is the one before
/// it and one; a run starts at a multiple of two to the twentieth, where no other
/// run starts, the golden ratio telling where.
pub proof fn lemma_islands_are_dense(n: nat)
    requires
        0 < n <= 0x400_0000,
    ensures
        ({
            let vs = clustered_values(n, 64, 0);
            let per = (n + 63) / 64;
            &&& vs.len() == n
            &&& vs.no_duplicates()
            &&& forall|t: int|
                0 < t < n && t % (per as int) != 0 ==> #[trigger] vs[t] == vs[t - 1] + 1
            &&& forall|t: int|
                0 <= t < n && t % (per as int) == 0 ==> #[trigger] vs[t] == ((((t / (per as int))
                    * 0x9E37_79B9_7F4A_7C15) % 0x1_0000_0000_0000_0000) / 256 * 0x10_0000)
                    % 0x1_0000_0000_0000_0000
            &&& forall|t: int, u: int|
                0 <= t < u < n && t % (per as int) == 0 && u % (per as int) == 0 ==> vs[t] != vs[u]
                    && #[trigger] vs[t] % 0x10_0000 == #[trigger] vs[u] % 0x10_0000 == 0
        }),
        raw_keys(Shape::Clustered, n, Seq::empty()) == Seq::new(
            n,
            |i: int| fixed_digits(clustered_values(n, 64, 0)[i] as nat, 16, 16),
        ),
{
    let vs = clustered_values(n, 64, 0);
    let per = per_island(n) as int;
    lemma_islands_in_a_row(n, 64, 0);
    assert forall|t: int, u: int| 0 <= t < n && 0 <= u < n && t != u implies vs[t] != vs[u] by {
        lemma_at_own_place(n, t, u);
    }
    assert forall|t: int| 0 < t < n && t % per != 0 implies #[trigger] vs[t] == vs[t - 1] + 1 by {
        lemma_goes_on(n, t);
    }
    assert forall|t: int| 0 <= t < n && t % per == 0 implies #[trigger] vs[t] == (((((t / per)
        * 0x9E37_79B9_7F4A_7C15) % 0x1_0000_0000_0000_0000) / 256 * 0x10_0000)
        % 0x1_0000_0000_0000_0000) by {
        lemma_place_in_a_row(n, t);
        lemma_island_bases((t / per) as u64, 0);
    }
    assert forall|t: int, u: int|
        0 <= t < u < n && t % per == 0 && u % per == 0 implies vs[t] != vs[u] && #[trigger] vs[t]
        % 0x10_0000 == #[trigger] vs[u] % 0x10_0000 == 0 by {
        lemma_at_own_place(n, t, u);
        lemma_place_in_a_row(n, t);
        lemma_place_in_a_row(n, u);
    }
    assert(raw_keys(Shape::Clustered, n, Seq::empty()) =~= Seq::new(
        n,
        |i: int| fixed_digits(vs[i] as nat, 16, 16),
    ));
}

/// What stands at a place: which island it is of, and how far into it.
proof fn lemma_place_in_a_row(n: nat, t: int)
    requires
        0 < n <= 0x400_0000,
        0 <= t < n,
    ensures
        ({
            let per = per_island(n) as int;
            let (q, r) = (t / per, t % per);
            &&& 0 < per <= 0x10_0000
            &&& 0 <= q < 64
            &&& 0 <= r < per
            &&& t == per * q + r
            &&& island_base(q as u64) % 0x10_0000 == 0
            &&& clustered_values(n, 64, 0).len() == n
            &&& clustered_values(n, 64, 0)[t] == island_base(q as u64) + r
        }),
{
    let per = per_island(n) as int;
    lemma_islands_in_a_row(n, 64, 0);
    assert(64 * per >= n);
    vstd::arithmetic::div_mod::lemma_fundamental_div_mod(t, per);
    vstd::arithmetic::div_mod::lemma_mod_bound(t, per);
    let (q, r) = (t / per, t % per);
    assert(0 <= q < 64) by (nonlinear_arith)
        requires
            t == per * q + r,
            0 <= r < per,
            0 <= t < 64 * per,
    ;
    lemma_island_bases(q as u64, q as u64);
    assert(clustered_values(n, 64, 0)[t] == row_value(per, t));
    reveal(row_value);
}

/// No value stands at two places.
proof fn lemma_at_own_place(n: nat, t: int, u: int)
    requires
        0 < n <= 0x400_0000,
        0 <= t < n,
        0 <= u < n,
        t != u,
    ensures
        clustered_values(n, 64, 0)[t] != clustered_values(n, 64, 0)[u],
{
    let per = per_island(n) as int;
    lemma_place_in_a_row(n, t);
    lemma_place_in_a_row(n, u);
    lemma_island_bases((t / per) as u64, (u / per) as u64);
}

/// Within an island the values go up by one.
proof fn lemma_goes_on(n: nat, t: int)
    requires
        0 < n <= 0x400_0000,
        0 < t < n,
        t % (per_island(n) as int) != 0,
    ensures
        clustered_values(n, 64, 0)[t] == clustered_values(n, 64, 0)[t - 1] + 1,
{
    let per = per_island(n) as int;
    lemma_place_in_a_row(n, t);
    lemma_place_in_a_row(n, t - 1);
    let (q, r) = (t / per, t % per);
    assert(per * q == q * per) by (nonlinear_arith);
    vstd::arithmetic::div_mod::lemma_fundamental_div_mod_converse(t - 1, per, q, r - 1);
}

/// A clustered set of some has one value at least, and never more than asked
/// for.
pub proof fn lemma_clustered_len(n: nat, i: nat, j: nat)
    ensures
        clustered_values(n, i, j).len() <= n,
        n > 0 && (i > 0 || j > 0) ==> clustered_values(n, i, j).len() > 0,
    decreases i, j,
{
    if j > 0 {
        lemma_clustered_len(n, i, (j - 1) as nat);
    } else if i > 0 {
        lemma_clustered_len(n, (i - 1) as nat, per_island(n));
    }
}

/// Distinct sorted keys are no more than the list that they are all from.
pub proof fn lemma_no_more_keys(keys: Seq<Seq<u8>>, raw: Seq<Seq<u8>>)
    requires
        strictly_sorted(keys),
        forall|k: Seq<u8>| #[trigger] keys.contains(k) ==> raw.contains(k),
    ensures
        keys.len() <= raw.len(),
{
    assert(keys.no_duplicates()) by {
        assert forall|a: int, b: int|
            0 <= a < keys.len() && 0 <= b < keys.len() && a != b implies keys[a] != keys[b] by {
            if a < b {
                crate::bytes::lemma_order_total(keys[a], keys[b]);
            } else {
                crate::bytes::lemma_order_total(keys[b], keys[a]);
            }
        }
    }
    keys.unique_seq_to_set();
    raw.lemma_cardinality_of_set();
    vstd::seq_lib::seq_to_set_is_finite(raw);
    assert(keys.to_set().subset_of(raw.to_set())) by {
        assert forall|k: Seq<u8>| keys.to_set().contains(k) implies raw.to_set().contains(k) by {
            assert(keys.contains(k));
        }
    }
    vstd::set_lib::lemma_len_subset(keys.to_set(), raw.to_set());
}

/// The extent of entry `i` of a generated set.
pub open spec fn made_ext(i: int) -> Ext4 {
    Ext4 { block: (i / 400) as u32, off: ((i % 400) * 160) as u32, len: 160, last: 140 }
}

/// Extents for `n` entries: blocks of four hundred records of a hundred and
/// sixty bytes.
pub fn make_exts(n: usize) -> (exts: Vec<Ext4>)
    ensures
        exts@.len() == n,
        forall|i: int| 0 <= i < n ==> #[trigger] exts@[i] == made_ext(i),
{
    let mut exts: Vec<Ext4> = Vec::with_capacity(n);
    let mut i: usize = 0;
    while i < n
        invariant
            i <= n,
            exts@.len() == i,
            forall|j: int| 0 <= j < i ==> #[trigger] exts@[j] == made_ext(j),
        decreases n - i,
    {
        exts.push(
            Ext4 {
                block: (i / 400) as u32,
                off: ((i % 400) * 160) as u32,
                len: 160,
                last: 140,
            },
        );
        i = i + 1;
    }
    exts
}

/// Extents lie one behind the other, each starting where the one before it ends, four
/// hundred to a block; the next block starts at its beginning.
pub proof fn lemma_exts_lie_end_to_end(i: int)
    requires
        0 <= i < 0x1_0000_0000,
    ensures
        made_ext(0).block == 0 && made_ext(0).off == 0,
        made_ext(i + 1).block == made_ext(i).block ==> made_ext(i + 1).off == made_ext(i).off
            + made_ext(i).len,
        made_ext(i + 1).block != made_ext(i).block ==> {
            &&& made_ext(i + 1).block == made_ext(i).block + 1
            &&& made_ext(i + 1).off == 0
            &&& made_ext(i).off + made_ext(i).len == 64_000
        },
        made_ext(i).off + made_ext(i).len <= 64_000,
        made_ext(i).len == 160 && made_ext(i).last == 140,
{
}

/// A key in decimal spells the number of its place, digit by digit; a key in hexadecimal
/// spells what was drawn for it.
pub proof fn lemma_keys_spell_numbers(n: nat, drawn: Seq<u64>, i: int, p: int)
    requires
        0 <= i < n <= 10_000_000_000_000_000,
        drawn.len() >= n,
        0 <= p < 16,
    ensures
        raw_keys(Shape::Decimal16, n, drawn).len() == n,
        raw_keys(Shape::RandomHex, n, drawn).len() == n,
        ({
            let key = raw_keys(Shape::Decimal16, n, drawn)[i];
            &&& key.len() == 16
            &&& key[p] == 48 + (i / vstd::arithmetic::power::pow(10, (15 - p) as nat)) % 10
        }),
        ({
            let key = raw_keys(Shape::RandomHex, n, drawn)[i];
            let d = (drawn[i] as int / vstd::arithmetic::power::pow(16, (15 - p) as nat)) % 16;
            &&& key.len() == 16
            &&& d < 10 ==> key[p] == 48 + d
            &&& d >= 10 ==> key[p] == 97 + (d - 10)
        }),
{
    assert(vstd::arithmetic::power::pow(10, 16) == 10_000_000_000_000_000) by {
        reveal_with_fuel(vstd::arithmetic::power::pow, 17);
    }
    crate::digits::lemma_padded_width(i as nat, 16);
    crate::digits::lemma_decimal_width(i as nat);
    crate::digits::lemma_digits_len(i as nat, crate::digits::decimal_width(i as nat), 10);
    crate::digits::lemma_digit_at(i as nat, 16, 10, p);
    crate::digits::lemma_digit_at(drawn[i] as nat, 16, 16, p);
}

} // verus!
