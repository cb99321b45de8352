//! The measurements of the index layouts: loading generated keys, holding a
//! layout to what it was loaded with, and the lookups and scans that are timed.

use crate::btree::lemma_short_keys_close;
use crate::bytes::{key_seqs, push_bytes, strictly_sorted};
use crate::digits::{decimal_width, lemma_digits_len};
use crate::flat::lemma_flat_size;
use crate::keyset::{
    clustered_values, lemma_clustered_len, lemma_no_more_keys, raw_keys, Shape, ISLANDS,
};
use crate::layout::{
    entries_of, keys_of, lemma_first_match_none, lemma_first_match_sorted, scan_end, sum_range,
    Ext4, Layout,
};
use crate::layouts::{
    build_layout, kind_name, layout_kind, lemma_layouts_agree, lemma_names_distinct, loadable,
    loads_whole, set_up, AnyLayout, LayoutKind, TREE_PAGE,
};
use crate::packed::lemma_packed_size;
use crate::paged::lemma_short_keys_fit;
use vstd::prelude::*;

verus! {

/// How many keys sixteen decimal digits tell apart.
pub const KEY_SPACE: u64 = 10_000_000_000_000_000;

/// The most records of a page that takes every generated key and every extent.
pub const MOST_PER_PAGE: usize = 1637;

/// The bytes of a generated key.
pub const KEY_BYTES: usize = 16;

/// Sorted keys of sixteen bytes.
pub open spec fn is_key_set(keys: Seq<Vec<u8>>) -> bool {
    &&& 0 < keys.len()
    &&& strictly_sorted(key_seqs(keys))
    &&& forall|i: int| 0 <= i < keys.len() ==> (#[trigger] keys[i])@.len() == KEY_BYTES
}

/// What is generated is such a set: the keys of every shape have sixteen bytes,
/// and there are no more than were asked for.
pub proof fn lemma_made_keys_are_set(shape: Shape, n: nat, drawn: Seq<u64>, keys: Seq<Vec<u8>>)
    requires
        0 < n <= KEY_SPACE,
        strictly_sorted(key_seqs(keys)),
        forall|k: Seq<u8>| #[trigger]
            key_seqs(keys).contains(k) <==> raw_keys(shape, n, drawn).contains(k),
    ensures
        is_key_set(keys),
        keys.len() <= n,
{
    let raw = raw_keys(shape, n, drawn);
    let ks = key_seqs(keys);
    lemma_clustered_len(n, ISLANDS as nat, 0);
    lemma_no_more_keys(ks, raw);
    assert(ks.contains(raw[0])) by {
        assert(raw.contains(raw[0]));
    }
    assert forall|i: int| 0 <= i < keys.len() implies (#[trigger] keys[i])@.len() == KEY_BYTES by {
        assert(ks[i] == keys[i]@);
        assert(ks.contains(ks[i]));
        let j = choose|j: int| 0 <= j < raw.len() && raw[j] == ks[i];
        lemma_raw_key(shape, n, drawn, j);
    }
}

/// A number below the key space takes at most sixteen decimal digits.
proof fn lemma_width_16(n: nat)
    requires
        n < KEY_SPACE,
    ensures
        decimal_width(n) <= 16,
{
    reveal_with_fuel(decimal_width, 9);
    let high = n / 100_000_000;
    assert(high < 100_000_000);
    assert(decimal_width(high) <= 8);
    if n >= 100_000_000 {
        assert(n / 10 / 10 / 10 / 10 / 10 / 10 / 10 / 10 == high);
        assert(decimal_width(n) == 8 + decimal_width(high));
    }
}

/// A generated key is sixteen digits or letters.
proof fn lemma_raw_key(shape: Shape, n: nat, drawn: Seq<u64>, i: int)
    requires
        0 <= i < raw_keys(shape, n, drawn).len(),
        n <= KEY_SPACE,
    ensures
        raw_keys(shape, n, drawn)[i].len() == KEY_BYTES,
{
    match shape {
        Shape::Decimal16 => {
            lemma_width_16(i as nat);
            lemma_digits_len(i as nat, 16, 10);
        },
        Shape::RandomHex => {
            lemma_digits_len(drawn[i] as nat, 16, 16);
        },
        Shape::Clustered => {
            let vs = clustered_values(n, ISLANDS as nat, 0);
            lemma_digits_len(vs[i] as nat, 16, 16);
        },
    }
}

/// How many generated keys a layout takes, whatever their extents are.
pub open spec fn most_keys(k: LayoutKind) -> int {
    match k {
        LayoutKind::HeapHash => if usize::MAX / 4 < u32::MAX {
            (usize::MAX / 4) as int
        } else {
            u32::MAX as int
        },
        LayoutKind::BTree => 59_000_000,
        LayoutKind::Packed | LayoutKind::PackedRadix | LayoutKind::HashPacked => 93_000_000,
        LayoutKind::HashFlat | LayoutKind::HashFlatFixed => 113_000_000,
        LayoutKind::HashPaged
        | LayoutKind::HashPagedFixed
        | LayoutKind::MphPaged
        | LayoutKind::MphPagedFixed
        | LayoutKind::MphBloomPaged => 71_000_000,
    }
}

/// A layout keeps its records on pages of a given number of them.
pub open spec fn on_pages(k: LayoutKind) -> bool {
    k is HashPaged || k is HashPagedFixed || k is MphPaged || k is MphPagedFixed
        || k is MphBloomPaged
}

/// A layout takes `n` generated keys, on pages of `per_page` records where it
/// has pages.
pub open spec fn has_room(k: LayoutKind, n: int, per_page: usize) -> bool {
    &&& n <= most_keys(k)
    &&& on_pages(k) ==> 0 < per_page <= MOST_PER_PAGE
}

/// Every layout takes every set of generated keys that it has room for, and is
/// whole then.
pub proof fn lemma_key_sets_load(k: LayoutKind, keys: Seq<Vec<u8>>, exts: Seq<Ext4>, per_page: usize)
    requires
        is_key_set(keys),
        exts.len() == keys.len(),
        has_room(k, keys.len() as int, per_page),
    ensures
        loadable(k, keys, exts, per_page),
        loads_whole(k, entries_of(keys, exts), per_page),
{
    let es = entries_of(keys, exts);
    let n = es.len();
    assert(keys_of(es) =~= key_seqs(keys));
    assert forall|i: int| 0 <= i < es.len() implies (#[trigger] es[i]).0.len() <= 16 by {
        assert(keys[i]@.len() == KEY_BYTES);
    }
    let pp = per_page as int;
    if on_pages(k) {
        assert(4 + 16nat + pp * (16nat + 24) <= u16::MAX) by (nonlinear_arith)
            requires
                pp <= 1637,
        ;
        assert(n * (2 * 16nat + 28) <= u32::MAX) by (nonlinear_arith)
            requires
                n <= 71_000_000,
        ;
    }
    match k {
        LayoutKind::HeapHash => {},
        LayoutKind::BTree => {
            lemma_short_keys_close(es, TREE_PAGE as int, 16, 113);
        },
        LayoutKind::Packed | LayoutKind::PackedRadix | LayoutKind::HashPacked => {
            lemma_packed_size(es, n, 16);
            assert(n * (16nat + 30) <= u32::MAX) by (nonlinear_arith)
                requires
                    n <= 93_000_000,
            ;
        },
        LayoutKind::HashFlat | LayoutKind::HashFlatFixed => {
            lemma_flat_size(es, n, k is HashFlatFixed, 16);
            assert(n * (16nat + 22) <= u32::MAX) by (nonlinear_arith)
                requires
                    n <= 113_000_000,
            ;
        },
        LayoutKind::HashPaged | LayoutKind::MphPaged | LayoutKind::MphBloomPaged => {
            lemma_short_keys_fit(es, pp, false, 16);
        },
        LayoutKind::HashPagedFixed | LayoutKind::MphPagedFixed => {
            lemma_short_keys_fit(es, pp, true, 16);
        },
    }
}

/// Whether the layout of a name takes `n` generated keys.
pub fn room_for(which: &str, n: usize, per_page: usize) -> (r: bool)
    ensures
        r == (forall|k: LayoutKind| #[trigger]
            kind_name(k) == which@ ==> has_room(k, n as int, per_page)),
{
    let kind: Option<LayoutKind> = layout_kind(which);
    proof {
        lemma_names_distinct();
    }
    let paged: bool = 0 < per_page && per_page <= MOST_PER_PAGE;
    match kind {
        None => true,
        Some(k) => {
            assert(kind_name(k) == which@);
            match k {
                LayoutKind::HeapHash => n <= usize::MAX / 4 && n as u64 <= u32::MAX as u64,
                LayoutKind::BTree => n <= 59_000_000,
                LayoutKind::Packed | LayoutKind::PackedRadix | LayoutKind::HashPacked => n
                    <= 93_000_000,
                LayoutKind::HashFlat | LayoutKind::HashFlatFixed => n <= 113_000_000,
                LayoutKind::HashPaged
                | LayoutKind::HashPagedFixed
                | LayoutKind::MphPaged
                | LayoutKind::MphPagedFixed
                | LayoutKind::MphBloomPaged => n <= 71_000_000 && paged,
            }
        },
    }
}

/// The layout of a name takes the keys whole: they are generated and it has room
/// for them, or its own limits hold.
pub open spec fn takes(which: Seq<char>, keys: Seq<Vec<u8>>, exts: Seq<Ext4>, per_page: usize) -> bool {
    ||| is_key_set(keys) && exts.len() == keys.len() && forall|k: LayoutKind| #[trigger]
        kind_name(k) == which ==> has_room(k, keys.len() as int, per_page)
    ||| forall|k: LayoutKind| #[trigger]
        kind_name(k) == which ==> loadable(k, keys, exts, per_page) && loads_whole(
            k,
            entries_of(keys, exts),
            per_page,
        )
}

/// Loads a set of keys into the layout of a name; nothing where no layout has
/// that name.
pub fn load_layout(which: &str, keys: &Vec<Vec<u8>>, exts: &Vec<Ext4>, per_page: usize) -> (r: Option<
    AnyLayout,
>)
    requires
        takes(which@, keys@, exts@, per_page),
    ensures
        r is Some <==> exists|k: LayoutKind| #[trigger] kind_name(k) == which@,
        r matches Some(l) ==> l.wf() && l.label() == which@ && l.entries() == entries_of(
            keys@,
            exts@,
        ) && set_up(l, per_page),
{
    let kind: Option<LayoutKind> = layout_kind(which);
    match kind {
        None => None,
        Some(k) => {
            proof {
                assert(kind_name(k) == which@);
                lemma_names_distinct();
                if is_key_set(keys@) && exts@.len() == keys@.len() && has_room(
                    k,
                    keys@.len() as int,
                    per_page,
                ) {
                    lemma_key_sets_load(k, keys@, exts@, per_page);
                }
            }
            Some(build_layout(which, keys, exts, per_page))
        },
    }
}

/// A layout that was loaded with a set of keys finds every key's own extent, and
/// nothing under any other key.
pub proof fn lemma_loaded_is_right(l: AnyLayout, keys: Seq<Vec<u8>>, exts: Seq<Ext4>)
    requires
        is_key_set(keys),
        exts.len() == keys.len(),
        l.wf(),
        l.entries() == entries_of(keys, exts),
    ensures
        forall|i: int| 0 <= i < keys.len() ==> l.found((#[trigger] keys[i])@) == Some(exts[i]),
        forall|key: Seq<u8>|
            !key_seqs(keys).contains(key) ==> #[trigger] l.found(key) is None,
{
    let es = l.entries();
    assert(keys_of(es) =~= key_seqs(keys));
    assert forall|j: int| 0 <= j < es.len() implies (#[trigger] es[j]).0.len()
        <= crate::packed::KEY_LIMIT by {
        assert(keys[j]@.len() == KEY_BYTES);
    }
    assert forall|i: int| 0 <= i < keys.len() implies l.found((#[trigger] keys[i])@) == Some(
        exts[i],
    ) by {
        lemma_layouts_agree(l, keys[i]@);
        lemma_first_match_sorted(es, keys[i]@, i);
    }
    assert forall|key: Seq<u8>| !key_seqs(keys).contains(key) implies #[trigger] l.found(
        key,
    ) is None by {
        lemma_layouts_agree(l, key);
        assert forall|i: int| 0 <= i < es.len() implies (#[trigger] es[i]).0 != key by {
            assert(key_seqs(keys)[i] == es[i].0);
        }
        lemma_first_match_none(es, key);
    }
}

// ------------------------------------------------------------- absent keys --

/// A key with its last byte put behind every digit and letter.
pub open spec fn absent_of(key: Seq<u8>) -> Seq<u8> {
    key.update(key.len() - 1, 126)
}

/// A key that no generated set has: one of its keys with another last byte.
pub fn absent_key(key: &[u8]) -> (k: Vec<u8>)
    requires
        key@.len() > 0,
    ensures
        k@ == absent_of(key@),
{
    let mut k: Vec<u8> = Vec::new();
    push_bytes(&mut k, key);
    let n: usize = k.len();
    k.set(n - 1, 126);
    k
}

/// A key with another last byte is in no set of the shapes.
pub proof fn lemma_absent_is_absent(shape: Shape, n: nat, drawn: Seq<u64>, key: Seq<u8>)
    requires
        shape is RandomHex ==> drawn.len() >= n,
        key.len() > 0,
    ensures
        !raw_keys(shape, n, drawn).contains(absent_of(key)),
{
    let raw = raw_keys(shape, n, drawn);
    let a = absent_of(key);
    if raw.contains(a) {
        let i = choose|i: int| 0 <= i < raw.len() && raw[i] == a;
        assert(raw[i].last() == 126);
        lemma_last_is_digit(shape, n, drawn, i);
    }
}

proof fn lemma_last_is_digit(shape: Shape, n: nat, drawn: Seq<u64>, i: int)
    requires
        0 <= i < raw_keys(shape, n, drawn).len(),
    ensures
        raw_keys(shape, n, drawn)[i].len() > 0 ==> raw_keys(shape, n, drawn)[i].last() < 126,
{
    match shape {
        Shape::Decimal16 => {
            let w = if decimal_width(i as nat) <= 16 {
                16
            } else {
                decimal_width(i as nat)
            };
            lemma_digits_len(i as nat, w, 10);
        },
        Shape::RandomHex => {
            lemma_digits_len(drawn[i] as nat, 16, 16);
        },
        Shape::Clustered => {
            let vs = clustered_values(n, ISLANDS as nat, 0);
            lemma_digits_len(vs[i] as nat, 16, 16);
        },
    }
}

// ---------------------------------------------------------------- the check --

/// How far apart the keys are that are checked, when about `samples` are.
pub open spec fn check_step(n: int, samples: int) -> int {
    if n / samples < 1 {
        1
    } else {
        n / samples
    }
}

/// Whether a layout answers a key with its own extent.
pub open spec fn answers<L: Layout>(l: L, keys: Seq<Vec<u8>>, exts: Seq<Ext4>, i: int) -> bool {
    l.found(keys[i]@) == Some(exts[i])
}

/// The first checked key that a layout answers wrongly, if there is one.
pub fn first_wrong<L: Layout>(l: &L, keys: &Vec<Vec<u8>>, exts: &Vec<Ext4>, samples: usize) -> (r: Option<
    usize,
>)
    requires
        l.wf(),
        samples > 0,
        exts@.len() == keys@.len(),
    ensures
        match r {
            Some(w) => {
                &&& w < keys@.len()
                &&& w as int % check_step(keys@.len() as int, samples as int) == 0
                &&& !answers(*l, keys@, exts@, w as int)
                &&& forall|i: int|
                    0 <= i < w && i % check_step(keys@.len() as int, samples as int) == 0
                        ==> #[trigger] answers(*l, keys@, exts@, i)
            },
            None => forall|i: int|
                0 <= i < keys@.len() && i % check_step(keys@.len() as int, samples as int) == 0
                    ==> #[trigger] answers(*l, keys@, exts@, i),
        },
{
    let n: usize = keys.len();
    let q: usize = n / samples;
    let step: usize = if q < 1 {
        1
    } else {
        q
    };
    let mut i: usize = 0;
    let mut done: bool = n == 0;
    proof {
        vstd::arithmetic::div_mod::lemma_small_mod(0, step as nat);
    }
    while !done
        invariant
            l.wf(),
            n == keys@.len() == exts@.len(),
            step > 0,
            step == check_step(n as int, samples as int),
            !done ==> i < n && i as int % step as int == 0,
            forall|j: int|
                0 <= j < n && (done || j < i) && j % (step as int) == 0 ==> #[trigger] answers(
                    *l,
                    keys@,
                    exts@,
                    j,
                ),
        decreases
            if done {
                0
            } else {
                n - i + 1
            },
    {
        let got: Option<Ext4> = l.lookup(&keys[i]);
        let right: bool = match got {
            Some(e) => e == exts[i],
            None => false,
        };
        if !right {
            return Some(i);
        }
        proof {
            assert forall|j: int|
                i < j < i + step && j % (step as int) == 0 implies #[trigger] answers(
                *l,
                keys@,
                exts@,
                j,
            ) by {
                lemma_between(i as int, j, step as int);
            }
            vstd::arithmetic::div_mod::lemma_mod_add_multiples_vanish(i as int, step as int);
            assert((step as int + i as int) % (step as int) == i as int % (step as int));
        }
        if n - i <= step {
            done = true;
        } else {
            i = i + step;
        }
    }
    None
}

proof fn lemma_between(i: int, j: int, step: int)
    requires
        step > 0,
        i >= 0,
        i % step == 0,
        i < j < i + step,
    ensures
        j % step != 0,
{
    vstd::arithmetic::div_mod::lemma_fundamental_div_mod(i, step);
    let q = i / step;
    assert(j == q * step + (j - i)) by (nonlinear_arith)
        requires
            i == step * q,
    ;
    vstd::arithmetic::div_mod::lemma_fundamental_div_mod_converse(j, step, q, j - i);
}

/// A loaded layout passes the check.
pub proof fn lemma_loaded_passes(l: AnyLayout, keys: Seq<Vec<u8>>, exts: Seq<Ext4>)
    requires
        is_key_set(keys),
        exts.len() == keys.len(),
        l.wf(),
        l.entries() == entries_of(keys, exts),
    ensures
        forall|i: int| 0 <= i < keys.len() ==> #[trigger] answers(l, keys, exts, i),
{
    lemma_loaded_is_right(l, keys, exts);
}

// ------------------------------------------------------------- the lookups --

/// The key that a draw picks.
pub open spec fn picked(draw: u64, n: int) -> int {
    (draw as usize) as int % n
}

/// The key that is looked up for a draw: the picked one, or an absent one made
/// of it.
pub open spec fn asked(keys: Seq<Vec<u8>>, draw: u64, miss: bool) -> Seq<u8> {
    let key = keys[picked(draw, keys.len() as int)]@;
    if miss {
        absent_of(key)
    } else {
        key
    }
}

/// How many of the first `n` draws find their key.
pub open spec fn found_in<L: Layout>(
    l: L,
    keys: Seq<Vec<u8>>,
    draws: Seq<u64>,
    miss: bool,
    n: nat,
) -> nat
    decreases n,
{
    if n == 0 {
        0
    } else {
        let before = found_in(l, keys, draws, miss, (n - 1) as nat);
        if l.found(asked(keys, draws[n - 1], miss)) is Some {
            before + 1
        } else {
            before
        }
    }
}

/// Looks up one key for each draw, and counts those that are found.
pub fn count_found<L: Layout>(l: &L, keys: &Vec<Vec<u8>>, draws: &Vec<u64>, miss: bool) -> (found: u64)
    requires
        l.wf(),
        keys@.len() > 0,
        forall|i: int| 0 <= i < keys@.len() ==> (#[trigger] keys@[i])@.len() > 0,
    ensures
        found == found_in(*l, keys@, draws@, miss, draws@.len()),
{
    let mut found: u64 = 0;
    let mut j: usize = 0;
    while j < draws.len()
        invariant
            l.wf(),
            keys@.len() > 0,
            forall|i: int| 0 <= i < keys@.len() ==> (#[trigger] keys@[i])@.len() > 0,
            j <= draws@.len(),
            found <= j,
            found == found_in(*l, keys@, draws@, miss, j as nat),
        decreases draws.len() - j,
    {
        let i: usize = (draws[j] as usize) % keys.len();
        let hit: bool = if miss {
            let k: Vec<u8> = absent_key(&keys[i]);
            l.lookup(&k).is_some()
        } else {
            l.lookup(&keys[i]).is_some()
        };
        if hit {
            found = found + 1;
        }
        j = j + 1;
    }
    found
}

/// Over a generated set every draw is a hit, and none is where absent keys are
/// asked for.
pub proof fn lemma_hits_and_misses(
    l: AnyLayout,
    keys: Seq<Vec<u8>>,
    exts: Seq<Ext4>,
    shape: Shape,
    count: nat,
    drawn: Seq<u64>,
    draws: Seq<u64>,
    n: nat,
)
    requires
        is_key_set(keys),
        exts.len() == keys.len(),
        l.wf(),
        l.entries() == entries_of(keys, exts),
        shape is RandomHex ==> drawn.len() >= count,
        forall|k: Seq<u8>| #[trigger]
            key_seqs(keys).contains(k) <==> raw_keys(shape, count, drawn).contains(k),
        n <= draws.len(),
    ensures
        found_in(l, keys, draws, false, n) == n,
        found_in(l, keys, draws, true, n) == 0,
    decreases n,
{
    if n > 0 {
        lemma_hits_and_misses(l, keys, exts, shape, count, drawn, draws, (n - 1) as nat);
        lemma_loaded_is_right(l, keys, exts);
        let i = picked(draws[n - 1], keys.len() as int);
        assert(keys[i]@.len() == KEY_BYTES);
        lemma_absent_is_absent(shape, count, drawn, keys[i]@);
        assert(!key_seqs(keys).contains(absent_of(keys[i]@)));
    }
}

// --------------------------------------------------------------- the scans --

/// The entries of a timed scan.
pub open spec fn scan_length(n: int) -> int {
    if n < 1000 {
        n
    } else {
        1000
    }
}

/// Where a draw starts a scan.
pub open spec fn scan_start(draw: u64, n: int) -> int {
    let room = n - scan_length(n);
    (draw as usize) as int % if room < 1 {
        1
    } else {
        room
    }
}

/// What the scans of the first `k` draws add up to.
pub open spec fn scans_sum<L: Layout>(l: L, n: int, draws: Seq<u64>, k: nat) -> u64
    decreases k,
{
    if k == 0 {
        0
    } else {
        let from = scan_start(draws[k - 1], n);
        scans_sum(l, n, draws, (k - 1) as nat).wrapping_add(
            sum_range(|i: int| l.scan_term(i), from, from + scan_length(n)),
        )
    }
}

/// Scans from each draw on, and adds up what the entries contribute.
pub fn sum_scans<L: Layout>(l: &L, n: usize, draws: &Vec<u64>) -> (acc: u64)
    requires
        l.wf(),
        l.entries().len() == n,
        forall|a: int, k: int|
            0 <= a && 0 <= k && a + k <= n ==> #[trigger] l.scannable(a, k),
    ensures
        acc == scans_sum(*l, n as int, draws@, draws@.len()),
{
    let len: usize = if n < 1000 {
        n
    } else {
        1000
    };
    let room: usize = if n - len < 1 {
        1
    } else {
        n - len
    };
    let mut acc: u64 = 0;
    let mut k: usize = 0;
    while k < draws.len()
        invariant
            l.wf(),
            l.entries().len() == n,
            forall|a: int, k: int|
            0 <= a && 0 <= k && a + k <= n ==> #[trigger] l.scannable(a, k),
            len == scan_length(n as int),
            room == if n - len < 1 {
                1
            } else {
                n - len
            },
            k <= draws@.len(),
            acc == scans_sum(*l, n as int, draws@, k as nat),
        decreases draws.len() - k,
    {
        let from: usize = (draws[k] as usize) % room;
        proof {
            assert(from + len <= n);
            assert(scan_end(from as int, len as int, n as int) == from + len);
            assert(l.scannable(from as int, len as int));
        }
        let one: u64 = l.scan_from(from, len);
        acc = acc.wrapping_add(one);
        k = k + 1;
    }
    acc
}

/// Every key can be asked for: a draw below the count asks for the key of that number, and
/// draws that lie a whole count apart ask for the same.
pub proof fn lemma_every_key_can_be_asked(draw: u64, n: int)
    requires
        0 < n,
        draw + n <= u64::MAX,
        draw + n <= usize::MAX,
    ensures
        0 <= picked(draw, n) < n,
        draw < n ==> picked(draw, n) == draw,
        picked((draw + n) as u64, n) == picked(draw, n),
{
    vstd::arithmetic::div_mod::lemma_mod_bound(draw as int, n);
    if draw < n {
        vstd::arithmetic::div_mod::lemma_small_mod(draw as nat, n as nat);
    }
    vstd::arithmetic::div_mod::lemma_mod_add_multiples_vanish(draw as int, n);
}

/// A scan takes a thousand entries, or all where there are fewer, lies wholly among the
/// entries, and can start at each entry that leaves it room behind it.
pub proof fn lemma_scans_lie_inside(draw: u64, n: int)
    requires
        0 < n,
        draw <= usize::MAX,
    ensures
        n >= 1000 ==> scan_length(n) == 1000,
        n <= 1000 ==> scan_length(n) == n,
        0 <= scan_start(draw, n),
        scan_start(draw, n) + scan_length(n) <= n,
        draw + scan_length(n) < n ==> scan_start(draw, n) == draw,
{
    let room = n - scan_length(n);
    if room >= 1 {
        vstd::arithmetic::div_mod::lemma_mod_bound(draw as int, room);
        if draw < room {
            vstd::arithmetic::div_mod::lemma_small_mod(draw as nat, room as nat);
        }
    } else {
        assert(draw as int % 1 == 0);
    }
}

/// A check looks at as many keys as it was asked for, spread evenly over all of them, and
/// at every key where there are not so many.
pub proof fn lemma_checks_are_spread(n: int, samples: int)
    requires
        0 < n,
        0 < samples,
    ensures
        check_step(n, samples) >= 1,
        n <= samples ==> check_step(n, samples) == 1,
        n >= samples ==> (samples - 1) * check_step(n, samples) < n,
        n >= samples ==> n < samples * (check_step(n, samples) + 1),
{
    let q = n / samples;
    vstd::arithmetic::div_mod::lemma_fundamental_div_mod(n, samples);
    vstd::arithmetic::div_mod::lemma_mod_bound(n, samples);
    let m = n % samples;
    if n < samples {
        vstd::arithmetic::div_mod::lemma_basic_div(n, samples);
    } else {
        assert(q >= 1 && (samples - 1) * q < n && n < samples * (q + 1) && (n == samples ==> q == 1))
            by (nonlinear_arith)
            requires
                n == samples * q + m,
                0 <= m < samples,
                n >= samples,
                samples > 0,
        ;
    }
}

/// The scans of some draws and the scans of others add up to those of both; one draw is one
/// scan from its start on.
pub proof fn lemma_scans_add_up<L: Layout>(l: L, n: int, a: Seq<u64>, b: Seq<u64>)
    ensures
        scans_sum(l, n, a + b, (a + b).len()) == scans_sum(l, n, a, a.len()).wrapping_add(
            scans_sum(l, n, b, b.len()),
        ),
        a.len() == 1 ==> scans_sum(l, n, a, 1) == sum_range(
            |i: int| l.scan_term(i),
            scan_start(a[0], n),
            scan_start(a[0], n) + scan_length(n),
        ),
    decreases b.len(),
{
    reveal_with_fuel(scans_sum, 2);
    if b.len() == 0 {
        assert(a + b =~= a);
    } else {
        let t = b.drop_last();
        lemma_scans_add_up(l, n, a, t);
        lemma_scans_go_by_draws(l, n, b, t, t.len());
        lemma_scans_go_by_draws(l, n, a + b, a + t, (a + t).len());
    }
}

/// What some draws give goes by these draws alone.
proof fn lemma_scans_go_by_draws<L: Layout>(l: L, n: int, a: Seq<u64>, b: Seq<u64>, k: nat)
    requires
        k <= a.len(),
        k <= b.len(),
        forall|i: int| 0 <= i < k ==> a[i] == b[i],
    ensures
        scans_sum(l, n, a, k) == scans_sum(l, n, b, k),
    decreases k,
{
    if k > 0 {
        lemma_scans_go_by_draws(l, n, a, b, (k - 1) as nat);
    }
}

} // verus!
