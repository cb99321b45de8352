//! The append benchmark: events drawn from a pool of distinct records, appended
//! to every key once a round in a permuted order.

use crate::bytes::{bytes_lt, lcp, lemma_lcp, lemma_lcp_unique, push_bytes};
use crate::digits::{
    decimal, digits, fixed_digits, lemma_digits_len, lemma_digits_order, padded,
};
use crate::hash::GOLDEN;
use crate::prefix::{be_bytes, push_be64};
use crate::rng::{xorshift, xorshift_after, Rng};
use vstd::prelude::*;
use vstd::utf8::{encode_utf8, is_ascii_chars_encode_utf8};

verus! {

/// How many records the pool holds.
pub const POOL: usize = 0x1_0000;

/// The key of a number: a letter and nine decimal digits.
pub open spec fn key_of(k: nat) -> Seq<u8> {
    seq![107u8] + fixed_digits(k, 9, 10)
}

/// The key of a number.
pub fn key_bytes(k: usize) -> (out: Vec<u8>)
    ensures
        out@ == key_of(k as nat),
{
    let mut out: Vec<u8> = Vec::new();
    out.push(107);
    let d: Vec<u8> = digits(k as u64, 9, 10);
    push_bytes(&mut out, &d);
    proof {
        assert(out@ =~= key_of(k as nat));
    }
    out
}

// ----------------------------------------------------------------- records --

/// What happened.
pub open spec fn event_name(i: int) -> Seq<u8> {
    encode_utf8(
        if i == 0 {
            "click"@
        } else if i == 1 {
            "view"@
        } else if i == 2 {
            "purchase"@
        } else if i == 3 {
            "scroll"@
        } else if i == 4 {
            "hover"@
        } else if i == 5 {
            "submit"@
        } else {
            "login"@
        },
    )
}

/// Where it happened.
pub open spec fn platform_name(i: int) -> Seq<u8> {
    encode_utf8(
        if i == 0 {
            "ios"@
        } else if i == 1 {
            "android"@
        } else if i == 2 {
            "web"@
        } else {
            "tv"@
        },
    )
}

/// One event as an object in text, from the five numbers that follow `x`.
pub open spec fn event_text(x: u64) -> Seq<u8> {
    let ts = 1_723_459_200_000 + xorshift_after(x, 1) % 86_400_000;
    let cents = xorshift_after(x, 4) % 100_000;
    encode_utf8("{\"ts\":"@) + padded(ts as nat, 1) + encode_utf8(",\"ev\":\""@) + event_name(
        (xorshift_after(x, 2) % 7) as int,
    ) + encode_utf8("\",\"plat\":\""@) + platform_name((xorshift_after(x, 3) % 4) as int)
        + encode_utf8("\",\"amt\":"@) + padded((cents / 100) as nat, 1) + encode_utf8("."@)
        + padded((cents % 100) as nat, 2) + encode_utf8(",\"ok\":"@) + encode_utf8(
        if xorshift_after(x, 5) % 2 == 0 {
            "true"@
        } else {
            "false"@
        },
    ) + encode_utf8("}"@)
}

fn push_text(out: &mut Vec<u8>, s: &str)
    ensures
        final(out)@ == old(out)@ + encode_utf8(s@),
{
    push_bytes(out, s.as_bytes());
}

fn push_event_name(out: &mut Vec<u8>, i: u64)
    requires
        i < 7,
    ensures
        final(out)@ == old(out)@ + event_name(i as int),
{
    let s: &str = if i == 0 {
        "click"
    } else if i == 1 {
        "view"
    } else if i == 2 {
        "purchase"
    } else if i == 3 {
        "scroll"
    } else if i == 4 {
        "hover"
    } else if i == 5 {
        "submit"
    } else {
        "login"
    };
    push_text(out, s);
}

fn push_platform_name(out: &mut Vec<u8>, i: u64)
    requires
        i < 4,
    ensures
        final(out)@ == old(out)@ + platform_name(i as int),
{
    let s: &str = if i == 0 {
        "ios"
    } else if i == 1 {
        "android"
    } else if i == 2 {
        "web"
    } else {
        "tv"
    };
    push_text(out, s);
}

/// Five steps of the generator, one by one.
proof fn lemma_five_steps(x: u64)
    ensures
        xorshift_after(x, 1) == xorshift(x),
        xorshift_after(x, 2) == xorshift(xorshift_after(x, 1)),
        xorshift_after(x, 3) == xorshift(xorshift_after(x, 2)),
        xorshift_after(x, 4) == xorshift(xorshift_after(x, 3)),
        xorshift_after(x, 5) == xorshift(xorshift_after(x, 4)),
{
    reveal_with_fuel(xorshift_after, 2);
}

/// The text of the next event.
fn next_event(rng: &mut Rng) -> (out: Vec<u8>)
    ensures
        out@ == event_text(old(rng).0),
        final(rng).0 == xorshift_after(old(rng).0, 5),
{
    let ghost x = rng.0;
    proof {
        lemma_five_steps(x);
    }
    let ts: u64 = 1_723_459_200_000 + rng.next() % 86_400_000;
    let ev: u64 = rng.next() % 7;
    let plat: u64 = rng.next() % 4;
    let cents: u64 = rng.next() % 100_000;
    let even: bool = rng.next() % 2 == 0;
    let mut out: Vec<u8> = Vec::new();
    push_text(&mut out, "{\"ts\":");
    proof {
        assert(out@ =~= encode_utf8("{\"ts\":"@));
    }
    push_bytes(&mut out, &decimal(ts, 1));
    push_text(&mut out, ",\"ev\":\"");
    push_event_name(&mut out, ev);
    push_text(&mut out, "\",\"plat\":\"");
    push_platform_name(&mut out, plat);
    push_text(&mut out, "\",\"amt\":");
    push_bytes(&mut out, &decimal(cents / 100, 1));
    push_text(&mut out, ".");
    push_bytes(&mut out, &decimal(cents % 100, 2));
    push_text(&mut out, ",\"ok\":");
    push_text(
        &mut out,
        if even {
            "true"
        } else {
            "false"
        },
    );
    push_text(&mut out, "}");
    out
}

/// Events until there are `size` bytes of them.
pub open spec fn events_from(have: Seq<u8>, x: u64, size: nat) -> Seq<u8>
    decreases
        if have.len() >= size {
            0
        } else {
            size - have.len()
        },
{
    if have.len() >= size {
        have
    } else {
        proof {
            lemma_event_text(x);
        }
        events_from(have + event_text(x), xorshift_after(x, 5), size)
    }
}

/// An event is some text.
pub proof fn lemma_event_text(x: u64)
    ensures
        event_text(x).len() > 0,
{
    let cents = xorshift_after(x, 4) % 100_000;
    crate::digits::lemma_digits_len((cents % 100) as nat, 2, 10);
    crate::digits::lemma_digits_len(
        (cents % 100) as nat,
        crate::digits::decimal_width((cents % 100) as nat),
        10,
    );
    assert(padded((cents % 100) as nat, 2).len() >= 2);
}

/// What the generator of a record starts from.
pub open spec fn record_seed(i: u64) -> u64 {
    i.wrapping_mul(GOLDEN) ^ 0xBEEF
}

/// A record of the pool.
pub open spec fn record_of(i: u64, size: nat) -> Seq<u8> {
    events_from(Seq::empty(), record_seed(i), size).take(size as int)
}

/// Events are not cut before they are long enough.
proof fn lemma_events_len(have: Seq<u8>, x: u64, size: nat)
    ensures
        events_from(have, x, size).len() >= size,
    decreases
        if have.len() >= size {
            0
        } else {
            size - have.len()
        },
{
    if have.len() < size {
        lemma_event_text(x);
        lemma_events_len(have + event_text(x), xorshift_after(x, 5), size);
    }
}

/// A key is ten bytes, and keys come in the order of their numbers.
pub proof fn lemma_keys_in_order(k: nat, m: nat)
    requires
        k < m < 1_000_000_000,
    ensures
        key_of(k).len() == 10,
        key_of(k)[0] == 107,
        bytes_lt(key_of(k), key_of(m)),
{
    lemma_digits_len(k, 9, 10);
    lemma_digits_len(m, 9, 10);
    assert(vstd::arithmetic::power::pow(10, 9) == 1_000_000_000) by {
        reveal_with_fuel(vstd::arithmetic::power::pow, 10);
    }
    lemma_digits_order(k, m, 9, 10);
    let (a, b) = (fixed_digits(k, 9, 10), fixed_digits(m, 9, 10));
    let (x, y) = (key_of(k), key_of(m));
    lemma_lcp(a, b);
    let n = lcp(a, b);
    assert forall|i: int| 0 <= i < n + 1 implies x[i] == y[i] by {
        if i > 0 {
            assert(a[i - 1] == b[i - 1]);
        }
    }
    lemma_lcp_unique(x, y, (n + 1) as nat);
}

/// No two kinds of event have one name, and no two platforms.
pub proof fn lemma_names_differ(i: int, j: int)
    requires
        0 <= i < j,
    ensures
        j < 7 ==> event_name(i) != event_name(j),
        j < 4 ==> platform_name(i) != platform_name(j),
{
    reveal_strlit("click");
    reveal_strlit("view");
    reveal_strlit("purchase");
    reveal_strlit("scroll");
    reveal_strlit("hover");
    reveal_strlit("submit");
    reveal_strlit("login");
    reveal_strlit("ios");
    reveal_strlit("android");
    reveal_strlit("web");
    reveal_strlit("tv");
    is_ascii_chars_encode_utf8("click"@);
    is_ascii_chars_encode_utf8("view"@);
    is_ascii_chars_encode_utf8("purchase"@);
    is_ascii_chars_encode_utf8("scroll"@);
    is_ascii_chars_encode_utf8("hover"@);
    is_ascii_chars_encode_utf8("submit"@);
    is_ascii_chars_encode_utf8("login"@);
    is_ascii_chars_encode_utf8("ios"@);
    is_ascii_chars_encode_utf8("android"@);
    is_ascii_chars_encode_utf8("web"@);
    is_ascii_chars_encode_utf8("tv"@);
    if j < 7 {
        let (a, b) = (event_name(i), event_name(j));
        assert("click"@[1] as u8 == encode_utf8("click"@)[1]);
        assert("hover"@[1] as u8 == encode_utf8("hover"@)[1]);
        assert("login"@[1] as u8 == encode_utf8("login"@)[1]);
        assert("login"@[0] as u8 == encode_utf8("login"@)[0]);
        assert("hover"@[0] as u8 == encode_utf8("hover"@)[0]);
        assert("scroll"@[1] as u8 == encode_utf8("scroll"@)[1]);
        assert("submit"@[1] as u8 == encode_utf8("submit"@)[1]);
        assert(a.len() != b.len() || a[1] != b[1] || a[0] != b[0]);
    }
    if j < 4 {
        let (a, b) = (platform_name(i), platform_name(j));
        assert("ios"@[0] as u8 == encode_utf8("ios"@)[0]);
        assert("web"@[0] as u8 == encode_utf8("web"@)[0]);
        assert(a.len() != b.len() || a[0] != b[0]);
    }
}

/// An event says when within the day it happened, what it was, where, and for how much:
/// the whole part and the hundredths of the amount make up what was drawn.
pub proof fn lemma_event_says(x: u64)
    ensures
        exists|ts: nat, ev: int, plat: int, whole: nat, part: nat, ok: bool| #[trigger]
            says(event_text(x), ts, ev, plat, whole, part, ok) && 0 <= ts - 1_723_459_200_000
                < 86_400_000 && (xorshift_after(x, 1) - (ts - 1_723_459_200_000)) % 86_400_000 == 0
                && 0 <= ev < 7 && (xorshift_after(x, 2) - ev) % 7 == 0 && 0 <= plat < 4 && (
            xorshift_after(x, 3) - plat) % 4 == 0 && part < 100 && whole < 1000 && (xorshift_after(
                x,
                4,
            ) - (whole * 100 + part)) % 100_000 == 0 && (ok <==> xorshift_after(x, 5) % 2 == 0),
{
    let ts = 1_723_459_200_000 + xorshift_after(x, 1) % 86_400_000;
    let ev = (xorshift_after(x, 2) % 7) as int;
    let plat = (xorshift_after(x, 3) % 4) as int;
    let cents = xorshift_after(x, 4) % 100_000;
    let ok = xorshift_after(x, 5) % 2 == 0;
    assert(says(
        event_text(x),
        ts as nat,
        ev,
        plat,
        (cents / 100) as nat,
        (cents % 100) as nat,
        ok,
    ));
}

/// The text of an event that says just this.
pub open spec fn says(
    text: Seq<u8>,
    ts: nat,
    ev: int,
    plat: int,
    whole: nat,
    part: nat,
    ok: bool,
) -> bool {
    text == encode_utf8("{\"ts\":"@) + padded(ts, 1) + encode_utf8(",\"ev\":\""@) + event_name(ev)
        + encode_utf8("\",\"plat\":\""@) + platform_name(plat) + encode_utf8("\",\"amt\":"@)
        + padded(whole, 1) + encode_utf8("."@) + padded(part, 2) + encode_utf8(",\"ok\":"@)
        + encode_utf8(
        if ok {
            "true"@
        } else {
            "false"@
        },
    ) + encode_utf8("}"@)
}

/// A longer record of the pool goes on where the shorter one stops, and every record
/// starts with the first event of its own draws.
pub proof fn lemma_records_go_on(i: u64, a: nat, b: nat)
    requires
        a <= b,
    ensures
        record_of(i, a).len() == a,
        record_of(i, b).take(a as int) == record_of(i, a),
        a > 0 && a <= event_text(record_seed(i)).len() ==> record_of(i, b).take(a as int)
            == event_text(record_seed(i)).take(a as int),
{
    let x = record_seed(i);
    let none = Seq::<u8>::empty();
    lemma_events_len(none, x, a);
    lemma_events_len(none, x, b);
    lemma_events_go_on(none, x, a, b);
    let (short, long) = (events_from(none, x, a), events_from(none, x, b));
    assert(record_of(i, b).take(a as int) =~= record_of(i, a)) by {
        assert forall|k: int| 0 <= k < a implies long[k] == short[k] by {
            assert(long.take(short.len() as int)[k] == short[k]);
        }
    }
    if a > 0 && a <= event_text(x).len() {
        let e = event_text(x);
        assert(none + e =~= e);
        assert(events_from(e, xorshift_after(x, 5), a) == e);
        assert(short == e);
    }
}

/// More bytes asked for are the same bytes and more of them.
proof fn lemma_events_go_on(have: Seq<u8>, x: u64, a: nat, b: nat)
    requires
        a <= b,
    ensures
        events_from(have, x, a).len() <= events_from(have, x, b).len(),
        have.len() <= events_from(have, x, b).len(),
        events_from(have, x, b).take(have.len() as int) == have,
        events_from(have, x, b).take(events_from(have, x, a).len() as int) == events_from(
            have,
            x,
            a,
        ),
    decreases
        if have.len() >= b {
            0
        } else {
            b - have.len()
        },
{
    let all = events_from(have, x, b);
    if have.len() >= b {
        assert(all.take(have.len() as int) =~= have);
    } else {
        let more = have + event_text(x);
        lemma_event_text(x);
        if have.len() < a {
            lemma_events_go_on(more, xorshift_after(x, 5), a, b);
        } else {
            lemma_events_go_on(more, xorshift_after(x, 5), 0, b);
        }
        assert(all.take(have.len() as int) =~= have) by {
            assert forall|k: int| 0 <= k < have.len() implies all[k] == have[k] by {
                assert(all.take(more.len() as int)[k] == more[k]);
            }
        }
    }
}

/// One record of the pool: events, cut off at `size` bytes.
pub fn pool_record(i: u64, size: usize) -> (v: Vec<u8>)
    ensures
        v@ == record_of(i, size as nat),
        v@.len() == size,
{
    let ghost seed = record_seed(i);
    let mut rng: Rng = Rng(i.wrapping_mul(GOLDEN) ^ 0xBEEF);
    let mut v: Vec<u8> = Vec::new();
    while v.len() < size
        invariant
            events_from(v@, rng.0, size as nat) == events_from(Seq::empty(), seed, size as nat),
        decreases
            if v.len() >= size {
                0
            } else {
                size - v.len()
            },
    {
        proof {
            lemma_event_text(rng.0);
        }
        let one: Vec<u8> = next_event(&mut rng);
        push_bytes(&mut v, &one);
    }
    proof {
        lemma_events_len(Seq::empty(), seed, size as nat);
    }
    v.truncate(size);
    proof {
        assert(v@ =~= record_of(i, size as nat));
    }
    v
}

/// Every record of the pool.
pub fn build_pool(value_size: usize) -> (pool: Vec<Vec<u8>>)
    ensures
        pool@.len() == POOL,
        forall|i: int| 0 <= i < POOL ==> (#[trigger] pool@[i])@ == record_of(i as u64, value_size as nat),
{
    let mut pool: Vec<Vec<u8>> = Vec::new();
    let mut i: usize = 0;
    while i < POOL
        invariant
            i <= POOL,
            pool@.len() == i,
            forall|j: int|
                0 <= j < i ==> (#[trigger] pool@[j])@ == record_of(j as u64, value_size as nat),
        decreases POOL - i,
    {
        pool.push(pool_record(i as u64, value_size));
        i = i + 1;
    }
    pool
}

// ------------------------------------------------------------- permutation --

/// Each number below `n` once.
pub open spec fn is_permutation(p: Seq<usize>, n: nat) -> bool {
    &&& p.len() == n
    &&& forall|i: int| 0 <= i < n ==> (#[trigger] p[i]) < n
    &&& forall|i: int, j: int| 0 <= i < j < n ==> #[trigger] p[i] != #[trigger] p[j]
}

/// Two places exchanged.
pub open spec fn exchanged(p: Seq<usize>, i: int, j: int) -> Seq<usize> {
    p.update(i, p[j]).update(j, p[i])
}

/// What is left of a shuffle at place `i`, with the generator at `x`.
pub open spec fn shuffled(p: Seq<usize>, x: u64, i: nat) -> Seq<usize>
    decreases i,
{
    if i == 0 {
        p
    } else {
        let y = xorshift(x);
        shuffled(exchanged(p, i as int, (y % ((i + 1) as u64)) as int), y, (i - 1) as nat)
    }
}

/// The order of appends over `n` keys.
pub open spec fn permutation_of(n: nat) -> Seq<usize> {
    let id = Seq::new(n, |i: int| i as usize);
    if n == 0 {
        id
    } else {
        shuffled(id, 4242, (n - 1) as nat)
    }
}

/// The order of appends over `n` keys: the same on every run, each key once.
pub fn permutation(n: usize) -> (p: Vec<usize>)
    ensures
        p@ == permutation_of(n as nat),
        is_permutation(p@, n as nat),
{
    let mut p: Vec<usize> = Vec::new();
    let mut i: usize = 0;
    while i < n
        invariant
            i <= n,
            p@ =~= Seq::new(i as nat, |j: int| j as usize),
        decreases n - i,
    {
        p.push(i);
        i = i + 1;
    }
    let mut rng: Rng = Rng(4242);
    if n == 0 {
        return p;
    }
    let mut i: usize = n - 1;
    while i > 0
        invariant
            i < n,
            n > 0,
            is_permutation(p@, n as nat),
            shuffled(p@, rng.0, i as nat) == permutation_of(n as nat),
        decreases i,
    {
        let ghost before = p@;
        let j: usize = (rng.next() % (i as u64 + 1)) as usize;
        let a: usize = p[i];
        let b: usize = p[j];
        p.set(i, b);
        p.set(j, a);
        proof {
            assert(p@ =~= exchanged(before, i as int, j as int));
        }
        i = i - 1;
    }
    p
}

/// The order of appends takes every key exactly once.
pub proof fn lemma_permutation(n: nat)
    requires
        n <= usize::MAX,
    ensures
        is_permutation(permutation_of(n), n),
{
    let id = Seq::new(n, |i: int| i as usize);
    if n > 0 {
        assert(is_permutation(id, n));
        lemma_shuffle_permutes(id, 4242, (n - 1) as nat);
    }
}

proof fn lemma_shuffle_permutes(p: Seq<usize>, x: u64, i: nat)
    requires
        is_permutation(p, p.len()),
        p.len() <= usize::MAX,
        i < p.len() || i == 0,
    ensures
        is_permutation(shuffled(p, x, i), p.len()),
    decreases i,
{
    if i > 0 {
        let y = xorshift(x);
        let j = (y % ((i + 1) as u64)) as int;
        let q = exchanged(p, i as int, j);
        assert(0 <= j <= i);
        assert(is_permutation(q, p.len())) by {
            assert forall|a: int, b: int| 0 <= a < b < q.len() implies #[trigger] q[a]
                != #[trigger] q[b] by {}
        }
        lemma_shuffle_permutes(q, y, (i - 1) as nat);
    }
}

// ------------------------------------------------------------------ rounds --

/// How the keys are shuffled: from the last place down, each place gets one of the keys
/// that are still without a place, the one that was drawn for it, and keeps it.
pub proof fn lemma_shuffle_draws_each_place(p: Seq<usize>, x: u64, i: nat)
    requires
        i < p.len() < u64::MAX,
    ensures
        shuffled(p, x, i).len() == p.len(),
        i > 0 ==> shuffled(p, x, i)[i as int] == p[xorshift(x) as int % (i + 1) as int],
        forall|k: int| i < k < p.len() ==> #[trigger] shuffled(p, x, i)[k] == p[k],
        p.len() > 1 ==> permutation_of(p.len()) == shuffled(
            Seq::new(p.len(), |k: int| k as usize),
            4242,
            (p.len() - 1) as nat,
        ),
    decreases i,
{
    if i > 0 {
        let y = xorshift(x);
        let j = (y % ((i + 1) as u64)) as int;
        let next = exchanged(p, i as int, j);
        lemma_shuffle_draws_each_place(next, y, (i - 1) as nat);
        assert(shuffled(p, x, i)[i as int] == next[i as int]);
    }
}

/// The key that turn `n` of a round appends to.
pub open spec fn turn_key(perm: Seq<usize>, round: nat, n: nat) -> usize {
    perm[((n + (round * 7919) % perm.len()) % perm.len()) as int]
}

/// The key that turn `n` of a round appends to.
pub fn append_key(perm: &[usize], round: usize, n: usize) -> (k: usize)
    requires
        n < perm@.len(),
        round * 7919 <= usize::MAX,
        2 * perm@.len() <= usize::MAX,
    ensures
        k == turn_key(perm@, round as nat, n as nat),
{
    let keys: usize = perm.len();
    let offset: usize = (round * 7919) % keys;
    perm[(n + offset) % keys]
}

/// Within a round no two turns append to the same key.
pub proof fn lemma_round_visits_once(perm: Seq<usize>, round: nat, m: nat, n: nat)
    requires
        is_permutation(perm, perm.len()),
        m < n < perm.len(),
    ensures
        turn_key(perm, round, m) != turn_key(perm, round, n),
{
    let len = perm.len();
    let off = (round * 7919) % len;
    vstd::arithmetic::div_mod::lemma_mod_bound((round * 7919) as int, len as int);
    let (a, b) = (m + off, n + off);
    assert(a < 2 * len && b < 2 * len);
    lemma_wrap(a as int, len as int);
    lemma_wrap(b as int, len as int);
    let (i, j) = ((a % len) as int, (b % len) as int);
    assert(i != j);
    if i < j {
        assert(perm[i] != perm[j]);
    } else {
        assert(perm[j] != perm[i]);
    }
}

proof fn lemma_wrap(a: int, len: int)
    requires
        0 <= a < 2 * len,
    ensures
        a % len == if a < len {
            a
        } else {
            a - len
        },
{
    if a < len {
        vstd::arithmetic::div_mod::lemma_small_mod(a as nat, len as nat);
    } else {
        vstd::arithmetic::div_mod::lemma_small_mod((a - len) as nat, len as nat);
        vstd::arithmetic::div_mod::lemma_mod_sub_multiples_vanish(a, len);
    }
}

/// A round starts where the one before did, seven thousand nine hundred and nineteen
/// places on, round the end; the first starts at the front.
pub proof fn lemma_rounds_start_apart(perm: Seq<usize>, round: nat, n: nat)
    requires
        n < perm.len(),
    ensures
        turn_key(perm, 0, n) == perm[n as int],
        turn_key(perm, round + 1, n) == turn_key(
            perm,
            round,
            ((n + 7919) as int % perm.len() as int) as nat,
        ),
{
    let len = perm.len() as int;
    vstd::arithmetic::div_mod::lemma_small_mod(n, perm.len());
    vstd::arithmetic::div_mod::lemma_small_mod(0, perm.len());
    let a = round * 7919;
    assert((round + 1) * 7919 == a + 7919);
    vstd::arithmetic::div_mod::lemma_add_mod_noop_right(n as int, a as int + 7919, len);
    vstd::arithmetic::div_mod::lemma_add_mod_noop(n as int + 7919, a as int, len);
    vstd::arithmetic::div_mod::lemma_mod_bound(n as int + 7919, len);
}

/// The record of the pool that a round appends to a key.
pub open spec fn pool_index_of(round: u64, k: u64) -> u64 {
    (round.wrapping_mul(2654435761) ^ k.wrapping_mul(40503)) & 0xffff
}

/// The record of the pool that a round appends to a key.
pub fn pool_index(round: u64, k: u64) -> (i: usize)
    ensures
        i == pool_index_of(round, k),
        i < POOL,
{
    let m: u64 = (round.wrapping_mul(2654435761) ^ k.wrapping_mul(40503)) & 0xffff;
    assert(m <= 0xffff) by (bit_vector)
        requires
            m == (round.wrapping_mul(2654435761) ^ k.wrapping_mul(40503)) & 0xffff,
    ;
    m as usize
}

/// The number that an append carries: the round above the key.
pub open spec fn sequence_of(round: u64, k: u64) -> u64 {
    (round << 32) | k
}

/// What a round appends to a key: a record whose first eight bytes are the
/// number of the append.
pub fn event_value(record: &[u8], round: u64, k: u64) -> (v: Vec<u8>)
    requires
        record@.len() >= 8,
    ensures
        v@ == be_bytes(sequence_of(round, k) as nat, 8) + record@.skip(8),
{
    let mut v: Vec<u8> = Vec::new();
    push_be64(&mut v, (round << 32) | k);
    push_bytes(&mut v, vstd::slice::slice_subrange(record, 8, record.len()));
    proof {
        assert(record@.subrange(8, record@.len() as int) =~= record@.skip(8));
    }
    v
}

/// The first turn of a thread's share.
pub open spec fn share_start(keys: nat, threads: nat, t: nat) -> nat {
    keys * t / threads
}

/// The turns of a round that fall to thread `t`.
pub fn share(keys: usize, threads: usize, t: usize) -> (r: (usize, usize))
    requires
        t < threads,
        keys * threads <= usize::MAX,
    ensures
        r.0 == share_start(keys as nat, threads as nat, t as nat),
        r.1 == share_start(keys as nat, threads as nat, (t + 1) as nat),
        r.0 <= r.1 <= keys,
{
    proof {
        assert(keys * t <= keys * (t + 1) <= keys * threads) by (nonlinear_arith)
            requires
                t < threads,
        ;
        vstd::arithmetic::div_mod::lemma_div_is_ordered(
            keys * t,
            keys * (t + 1),
            threads as int,
        );
        vstd::arithmetic::div_mod::lemma_div_is_ordered(
            keys * (t + 1),
            keys * threads,
            threads as int,
        );
        vstd::arithmetic::div_mod::lemma_div_by_multiple(keys as int, threads as int);
    }
    (keys * t / threads, keys * (t + 1) / threads)
}

/// The shares are the whole round: the first starts at its start, the last ends
/// at its end, and each starts where the one before it ends.
pub proof fn lemma_shares_cover(keys: nat, threads: nat)
    requires
        threads > 0,
    ensures
        share_start(keys, threads, 0) == 0,
        share_start(keys, threads, threads) == keys,
{
    assert(keys * 0 == 0) by (nonlinear_arith);
    vstd::arithmetic::div_mod::lemma_div_by_multiple(keys as int, threads as int);
    vstd::arithmetic::div_mod::lemma_div_of0(threads as int);
}

/// Shares follow one another, and no two differ by more than one key.
pub proof fn lemma_shares_are_fair(keys: nat, threads: nat, t: nat)
    requires
        t < threads,
    ensures
        share_start(keys, threads, t) <= share_start(keys, threads, t + 1) <= keys,
        keys / threads <= share_start(keys, threads, t + 1) - share_start(keys, threads, t)
            <= keys / threads + 1,
{
    let d = threads as int;
    let (q, r) = (keys as int / d, keys as int % d);
    let (a, b) = (keys * t, keys * (t + 1));
    assert(b == a + keys) by (nonlinear_arith)
        requires
            a == keys * t,
            b == keys * (t + 1),
    ;
    vstd::arithmetic::div_mod::lemma_fundamental_div_mod(keys as int, d);
    vstd::arithmetic::div_mod::lemma_mod_bound(keys as int, d);
    vstd::arithmetic::div_mod::lemma_fundamental_div_mod(a as int, d);
    vstd::arithmetic::div_mod::lemma_mod_bound(a as int, d);
    vstd::arithmetic::div_mod::lemma_fundamental_div_mod(b as int, d);
    vstd::arithmetic::div_mod::lemma_mod_bound(b as int, d);
    let (x, y) = (a as int / d, b as int / d);
    let (e, f) = (a as int % d, b as int % d);
    assert(q <= y - x <= q + 1) by (nonlinear_arith)
        requires
            keys == d * q + r,
            0 <= r < d,
            a == d * x + e,
            0 <= e < d,
            b == d * y + f,
            0 <= f < d,
            b == a + keys,
    ;
    assert(y <= keys && 0 <= q) by (nonlinear_arith)
        requires
            b == keys * (t + 1),
            t + 1 <= d,
            b == d * y + f,
            0 <= f < d,
            keys == d * q + r,
            0 <= r < d,
            keys >= 0,
    ;
}

/// The sequence number of an event has the round in its high half and the key in its low
/// half.
pub proof fn lemma_sequence_names_both(round: u64, k: u64)
    requires
        round <= u32::MAX,
        k <= u32::MAX,
    ensures
        sequence_of(round, k) == round * 0x1_0000_0000 + k,
{
    assert((round << 32) | k == round * 0x1_0000_0000 + k) by (bit_vector)
        requires
            round <= u32::MAX,
            k <= u32::MAX,
    ;
}

/// What comes behind a round that runs alone.
#[derive(Clone, Copy, PartialEq, Eq, Structural, Debug)]
pub struct RoundEnd {
    /// The state is made durable.
    pub checkpoint: bool,
    /// The process crashes, behind the checkpoint where there is one.
    pub crash: bool,
}

/// What comes behind a round: a checkpoint behind every `every`-th, and a crash
/// behind round `crash_after`. Neither where its number is zero.
pub fn after_round(round: usize, every: usize, crash_after: usize) -> (e: RoundEnd)
    requires
        round < usize::MAX,
    ensures
        e.checkpoint == (every > 0 && (round + 1) % (every as int) == 0),
        e.crash == (crash_after > 0 && round + 1 == crash_after),
{
    RoundEnd {
        checkpoint: every > 0 && (round + 1) % every == 0,
        crash: crash_after > 0 && round + 1 == crash_after,
    }
}

/// The keys that the reads sample.
pub fn sample(samples: usize, keys: usize) -> (s: Vec<usize>)
    requires
        keys > 0,
        samples * 7919 <= usize::MAX,
    ensures
        s@.len() == samples,
        forall|i: int| 0 <= i < samples ==> #[trigger] s@[i] == (i * 7919) % (keys as int),
{
    let mut s: Vec<usize> = Vec::new();
    let mut i: usize = 0;
    while i < samples
        invariant
            i <= samples,
            keys > 0,
            samples * 7919 <= usize::MAX,
            s@.len() == i,
            forall|j: int| 0 <= j < i ==> #[trigger] s@[j] == (j * 7919) % (keys as int),
        decreases samples - i,
    {
        s.push((i * 7919) % keys);
        i = i + 1;
    }
    s
}

/// Whether a key gives back what was appended to it: as many values as rounds,
/// the first of them the first round's.
pub fn key_is_whole(k: usize, rounds: usize, values: &Vec<Vec<u8>>) -> (r: bool)
    requires
        values@.len() > 0 ==> values@[0]@.len() >= 8,
    ensures
        r == (values@.len() == rounds && rounds > 0 && crate::prefix::prefix8_of(values@[0]@)
            == k),
{
    if values.len() != rounds || values.len() == 0 {
        return false;
    }
    crate::prefix::prefix8(&values[0]) == k as u64
}

/// Within a round every sixty-five thousand five hundred and thirty-six keys in a row use
/// each record of the pool once, and so does a key over as many rounds.
pub proof fn lemma_pool_is_used_evenly(r: u64, k: u64, s: u64, m: u64)
    ensures
        pool_index_of(r, k) < 0x1_0000,
        pool_index_of(r, k) == pool_index_of(r, m) <==> k % 0x1_0000 == m % 0x1_0000,
        pool_index_of(r, k) == pool_index_of(s, k) <==> r % 0x1_0000 == s % 0x1_0000,
{
    let (a, c) = (r.wrapping_mul(2654435761), s.wrapping_mul(2654435761));
    let (b, d) = (k.wrapping_mul(40503), m.wrapping_mul(40503));
    assert((a ^ b) & 0xffff < 0x1_0000 && (((a ^ b) & 0xffff == (a ^ d) & 0xffff) == (b % 0x1_0000
        == d % 0x1_0000)) && (((a ^ b) & 0xffff == (c ^ b) & 0xffff) == (a % 0x1_0000 == c
        % 0x1_0000))) by (bit_vector);
    lemma_low_half_tells_apart(k, m, 40503, 30599);
    lemma_low_half_tells_apart(r, s, 2654435761, 12113);
}

/// Sixteen low bits go over into sixteen low bits, one for one, under an odd factor.
proof fn lemma_low_half_tells_apart(x: u64, y: u64, f: u64, inverse: int)
    requires
        (f * inverse) % 0x1_0000 == 1,
    ensures
        x.wrapping_mul(f) % 0x1_0000 == y.wrapping_mul(f) % 0x1_0000 <==> x % 0x1_0000 == y
            % 0x1_0000,
{
    let n = 0x1_0000int;
    assert forall|z: u64|
        (#[trigger] z.wrapping_mul(f)) as int % n == (z * f) % n && ((z * f) % n * inverse) % n == z
            as int % n && (z as int % n * f) % n == (z * f) % n by {
        let p = z * f;
        assert(z.wrapping_mul(f) == p % 0x1_0000_0000_0000_0000);
        vstd::arithmetic::div_mod::lemma_mod_mod(p, n, 0x1_0000_0000_0000);
        vstd::arithmetic::div_mod::lemma_mul_mod_noop_left(p, inverse, n);
        assert(p * inverse == z * (f * inverse)) by (nonlinear_arith)
            requires
                p == z * f,
        ;
        vstd::arithmetic::div_mod::lemma_mul_mod_noop_right(z as int, f * inverse, n);
        vstd::arithmetic::div_mod::lemma_mul_mod_noop_left(z as int, f as int, n);
    }
    assert(x.wrapping_mul(f) as int % n == (x * f) % n);
    assert(y.wrapping_mul(f) as int % n == (y * f) % n);
}

} // verus!
