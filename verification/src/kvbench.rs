//! Single-value-per-key workloads in the shape of `db_bench`: sixteen-byte
//! keys, and values of which about half compresses.

use crate::bytes::push_bytes;
use crate::digits::{digits, fixed_digits, lemma_digits_len, lemma_digits_order};
use crate::rng::{lemma_steps_add_up, xorshift, xorshift_after, Rng};
use vstd::arithmetic::div_mod::lemma_div_multiples_vanish;
use vstd::prelude::*;

verus! {

/// The bytes of data that values are cut from.
pub const WINDOW: usize = 0x10_0000;

/// The key of a number: sixteen decimal digits.
pub open spec fn db_key_of(n: u64) -> Seq<u8> {
    fixed_digits(n as nat, 16, 10)
}

/// Sixteen decimal digits written into a buffer of the caller's.
pub fn db_key_into(n: u64, buf: &mut [u8; 16])
    ensures
        final(buf)@ == db_key_of(n),
{
    let mut v: u64 = n;
    let mut i: usize = 16;
    proof {
        assert(db_key_of(n) =~= fixed_digits(v as nat, i as nat, 10) + buf@.subrange(
            i as int,
            16,
        )) by {
            lemma_digits_len(n as nat, 16, 10);
        }
    }
    while i > 0
        invariant
            i <= 16,
            db_key_of(n) == fixed_digits(v as nat, i as nat, 10) + buf@.subrange(i as int, 16),
        decreases i,
    {
        let ghost before = buf@;
        let c: u8 = 48 + (v % 10) as u8;
        i = i - 1;
        buf[i] = c;
        proof {
            let high = fixed_digits((v / 10) as nat, i as nat, 10);
            assert(fixed_digits(v as nat, (i + 1) as nat, 10) == high.push(c));
            assert(high.push(c) + before.subrange(i + 1, 16) =~= high + buf@.subrange(
                i as int,
                16,
            ));
        }
        v = v / 10;
    }
    proof {
        assert(buf@.subrange(0, 16) =~= buf@);
        assert(fixed_digits(v as nat, 0, 10) + buf@ =~= buf@);
    }
}

/// The key of a number.
pub fn db_key(n: u64) -> (k: Vec<u8>)
    ensures
        k@ == db_key_of(n),
{
    digits(n, 16, 10)
}

/// Ten to the sixteenth.
pub const TEN16: u64 = 10_000_000_000_000_000;

/// Keys of ascending numbers ascend, as long as sixteen digits hold them.
pub proof fn lemma_db_key_order(m: u64, n: u64)
    requires
        m < n,
        n < TEN16,
    ensures
        crate::bytes::bytes_lt(db_key_of(m), db_key_of(n)),
        db_key_of(m) != db_key_of(n),
{
    lemma_ten16();
    lemma_digits_order(m as nat, n as nat, 16, 10);
    lemma_digits_len(m as nat, 16, 10);
    lemma_digits_len(n as nat, 16, 10);
    crate::bytes::lemma_lcp(db_key_of(m), db_key_of(n));
}

proof fn lemma_ten16()
    ensures
        vstd::arithmetic::power::pow(10, 16) == TEN16,
{
    vstd::arithmetic::power::lemma_pow1(10);
    vstd::arithmetic::power::lemma_pow_adds(10, 1, 1);
    vstd::arithmetic::power::lemma_pow_adds(10, 2, 2);
    vstd::arithmetic::power::lemma_pow_adds(10, 4, 4);
    vstd::arithmetic::power::lemma_pow_adds(10, 8, 8);
    let (a, b, c, d, e) = (
        vstd::arithmetic::power::pow(10, 1),
        vstd::arithmetic::power::pow(10, 2),
        vstd::arithmetic::power::pow(10, 4),
        vstd::arithmetic::power::pow(10, 8),
        vstd::arithmetic::power::pow(10, 16),
    );
    assert(e == 10_000_000_000_000_000) by (nonlinear_arith)
        requires
            a == 10,
            b == a * a,
            c == b * b,
            d == c * c,
            e == d * d,
    ;
}

// ------------------------------------------------------------------ values --

/// The half of a value that compresses: eight of one byte, eight of another.
pub open spec fn easy_half(size: nat) -> Seq<u8> {
    Seq::new(
        size / 2,
        |i: int|
            if i % 16 < 8 {
                97u8
            } else {
                98u8
            },
    )
}

/// `n` printable characters drawn from a generator that holds `x`.
pub open spec fn noise(x: u64, n: nat) -> Seq<u8>
    decreases n,
{
    if n == 0 {
        Seq::empty()
    } else {
        let y = xorshift(x);
        seq![(y % 94 + 33) as u8] + noise(y, (n - 1) as nat)
    }
}

/// A value of `size` bytes from a generator that holds `x`.
pub open spec fn value_from(x: u64, size: nat) -> Seq<u8> {
    easy_half(size) + noise(x, (size - size / 2) as nat)
}

/// A value, roughly half of it compressible.
pub fn make_value(rng: &mut Rng, size: usize) -> (v: Vec<u8>)
    ensures
        v@ == value_from(old(rng).0, size as nat),
        final(rng).0 == xorshift_after(old(rng).0, (size - size / 2) as nat),
{
    let ghost start = rng.0;
    let half: usize = size / 2;
    let mut v: Vec<u8> = Vec::new();
    while v.len() < half
        invariant
            v@.len() <= half,
            half == size / 2,
            rng.0 == start,
            v@ =~= easy_half(size as nat).take(v@.len() as int),
        decreases half - v.len(),
    {
        let c: u8 = if v.len() % 16 < 8 {
            97
        } else {
            98
        };
        v.push(c);
    }
    let n: usize = size - half;
    let mut done: usize = 0;
    proof {
        assert(v@ =~= easy_half(size as nat));
        assert(v@ + noise(rng.0, n as nat) =~= value_from(start, size as nat));
    }
    while v.len() < size
        invariant
            v@.len() == half + done,
            n == size - half,
            half <= size,
            done <= n,
            rng.0 == xorshift_after(start, done as nat),
            v@ + noise(rng.0, (n - done) as nat) == value_from(start, size as nat),
        decreases size - v.len(),
    {
        let ghost before = v@;
        let ghost x = rng.0;
        let r: u64 = rng.next();
        let c: u8 = (r % 94 + 33) as u8;
        v.push(c);
        proof {
            let rest = noise(r, (n - done - 1) as nat);
            assert(noise(x, (n - done) as nat) == seq![c] + rest);
            assert(before + (seq![c] + rest) =~= before.push(c) + rest);
        }
        done = done + 1;
    }
    proof {
        assert(v@ + noise(rng.0, 0) =~= v@);
    }
    v
}

/// A value is as long as asked for.
pub proof fn lemma_value_len(x: u64, size: nat)
    ensures
        value_from(x, size).len() == size,
{
    lemma_noise_len(x, (size - size / 2) as nat);
}

proof fn lemma_noise_len(x: u64, n: nat)
    ensures
        noise(x, n).len() == n,
    decreases n,
{
    if n > 0 {
        lemma_noise_len(xorshift(x), (n - 1) as nat);
    }
}

/// What values are cut from: whole values until there is a window and one value
/// more.
pub open spec fn window_from(have: Seq<u8>, x: u64, size: nat) -> Seq<u8>
    decreases
        if have.len() >= WINDOW + size {
            0
        } else {
            WINDOW + size - have.len()
        },
    when size > 0
{
    if have.len() >= WINDOW + size {
        have
    } else {
        proof {
            lemma_value_len(x, size);
        }
        window_from(
            have + value_from(x, size),
            xorshift_after(x, (size - size / 2) as nat),
            size,
        )
    }
}

/// What values are made of: half of letters in runs of eight, half of characters that
/// print, one of each number drawn.
pub proof fn lemma_value_is_half_noise(x: u64, size: nat, i: int)
    requires
        0 <= i < size,
    ensures
        value_from(x, size).len() == size,
        i < size / 2 ==> value_from(x, size)[i] == if (i / 8) % 2 == 0 {
            97u8
        } else {
            98u8
        },
        i >= size / 2 ==> value_from(x, size)[i] == 33 + xorshift_after(
            x,
            (i - size / 2 + 1) as nat,
        ) % 94,
{
    lemma_value_len(x, size);
    let half = (size / 2) as int;
    if i >= half {
        lemma_noise_at(x, (size - size / 2) as nat, i - half);
    }
}

/// Character `i` of the noise.
proof fn lemma_noise_at(x: u64, n: nat, i: int)
    requires
        0 <= i < n,
    ensures
        noise(x, n).len() == n,
        noise(x, n)[i] == 33 + xorshift_after(x, (i + 1) as nat) % 94,
    decreases n,
{
    lemma_noise_len(x, n);
    let y = xorshift(x);
    reveal_with_fuel(xorshift_after, 2);
    if i > 0 {
        lemma_noise_at(y, (n - 1) as nat, i - 1);
        crate::rng::lemma_steps_add_up(x, 1, i as nat);
        assert(xorshift_after(x, 1) == y);
    }
}

/// A window is values in a row, each made from where the one before left the generator,
/// until there is room for any value behind the window's end.
pub proof fn lemma_window_is_values(have: Seq<u8>, x: u64, size: nat)
    requires
        size > 0,
    ensures
        window_from(have, x, size).len() >= 0x10_0000 + size,
        have.len() < 0x10_0000 + size ==> window_from(have, x, size).len() < 0x10_0000 + 2 * size,
        window_from(have, x, size).take(have.len() as int) == have,
        have.len() < 0x10_0000 + size ==> window_from(have, x, size).subrange(
            have.len() as int,
            (have.len() + size) as int,
        ) == value_from(x, size) && window_from(have, x, size) == window_from(
            have + value_from(x, size),
            xorshift_after(x, (size - size / 2) as nat),
            size,
        ),
    decreases
        (if have.len() >= WINDOW + size {
            0
        } else {
            WINDOW + size - have.len()
        }),
{
    lemma_value_len(x, size);
    let all = window_from(have, x, size);
    if have.len() < WINDOW + size {
        let more = have + value_from(x, size);
        lemma_window_is_values(more, xorshift_after(x, (size - size / 2) as nat), size);
        let n = more.len() as int;
        assert(all.take(n) == more);
        assert(all.take(have.len() as int) =~= all.take(n).take(have.len() as int));
        assert(more.take(have.len() as int) =~= have);
        assert(all.subrange(have.len() as int, n) =~= all.take(n).subrange(have.len() as int, n));
        assert(more.subrange(have.len() as int, n) =~= value_from(x, size));
    } else {
        assert(all.take(have.len() as int) =~= have);
    }
}

/// How many numbers the values of a window take of their generator.
pub open spec fn window_draws(len: nat, size: nat) -> nat {
    (len / size) * ((size - size / 2) as nat)
}

/// One window of data, which values are cut from at an offset.
pub fn value_window(rng: &mut Rng, size: usize) -> (v: Vec<u8>)
    requires
        size > 0,
        WINDOW + 2 * size <= usize::MAX,
    ensures
        v@ == window_from(Seq::empty(), old(rng).0, size as nat),
        v@.len() >= WINDOW + size,
        final(rng).0 == xorshift_after(old(rng).0, window_draws(v@.len(), size as nat)),
{
    let ghost start = rng.0;
    let mut v: Vec<u8> = Vec::new();
    let ghost mut made: nat = 0;
    proof {
        assert(0 * ((size - size / 2) as nat) == 0) by (nonlinear_arith);
        assert(0 * size == 0) by (nonlinear_arith);
    }
    while v.len() < WINDOW + size
        invariant
            size > 0,
            WINDOW + 2 * size <= usize::MAX,
            window_from(v@, rng.0, size as nat) == window_from(Seq::empty(), start, size as nat),
            v@.len() == made * size,
            rng.0 == xorshift_after(start, made * ((size - size / 2) as nat)),
        decreases
            if v.len() >= WINDOW + size {
                0
            } else {
                WINDOW + size - v.len()
            },
    {
        proof {
            lemma_value_len(rng.0, size as nat);
        }
        let one: Vec<u8> = make_value(rng, size);
        push_bytes(&mut v, &one);
        proof {
            let draws = (size - size / 2) as nat;
            lemma_steps_add_up(start, made * draws, draws);
            assert((made + 1) * draws == made * draws + draws) by (nonlinear_arith);
            assert((made + 1) * size == made * size + size) by (nonlinear_arith);
            made = made + 1;
        }
    }
    proof {
        assert(v@.len() / (size as nat) == made) by {
            lemma_div_multiples_vanish(made as int, size as int);
            assert(made * size == size * made) by (nonlinear_arith);
        }
    }
    v
}

/// The key and the place in the window that a fill takes next.
pub fn fill_step(sequential: bool, i: u64, num: u64, rng: &mut Rng) -> (r: (u64, usize))
    requires
        num > 0,
    ensures
        sequential ==> {
            &&& r.0 == i
            &&& r.1 == xorshift(old(rng).0) % 0x10_0000
            &&& final(rng).0 == xorshift(old(rng).0)
        },
        !sequential ==> {
            &&& r.0 == xorshift(old(rng).0) % num
            &&& r.1 == xorshift(xorshift(old(rng).0)) % 0x10_0000
            &&& final(rng).0 == xorshift(xorshift(old(rng).0))
        },
        r.1 < WINDOW,
{
    let k: u64 = if sequential {
        i
    } else {
        rng.next() % num
    };
    let off: usize = (rng.next() % 0x10_0000) as usize;
    (k, off)
}

/// The key that a read takes next: past the populated range where it is to miss.
pub fn read_step(missing: bool, num: u64, rng: &mut Rng) -> (k: u64)
    requires
        num > 0,
        2 * num <= u64::MAX,
    ensures
        k == (if missing {
            num + xorshift(old(rng).0) % num
        } else {
            (xorshift(old(rng).0) % num) as int
        }),
        missing ==> k >= num,
        !missing ==> k < num,
        final(rng).0 == xorshift(old(rng).0),
{
    let r: u64 = rng.next() % num;
    if missing {
        num + r
    } else {
        r
    }
}

/// One more value in a window takes as many draws as half its bytes, rounded up.
pub proof fn lemma_window_draws(len: nat, size: nat)
    requires
        size > 0,
    ensures
        window_draws(0, size) == 0,
        len < size ==> window_draws(len, size) == 0,
        window_draws(len + size, size) == window_draws(len, size) + (size + 1) / 2,
{
    vstd::arithmetic::div_mod::lemma_div_plus_one(len as int, size as int);
    let d = (size - size / 2) as nat;
    assert(d == (size + 1) / 2);
    let q = len / size;
    assert((q + 1) * d == q * d + d) by (nonlinear_arith);
    if len < size {
        vstd::arithmetic::div_mod::lemma_basic_div(len as int, size as int);
        assert(0 * d == 0);
    }
    vstd::arithmetic::div_mod::lemma_div_of0(size as int);
    assert(0 * d == 0);
}

} // verus!
