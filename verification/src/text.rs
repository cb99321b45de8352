//! Text: names and arguments, numbers written in decimal, lines and fields.

use crate::bytes::{bytes_equal, key_seqs, to_owned};
use crate::digits::{decimal_width, digit_char, fixed_digits, lemma_digits_len};
use vstd::prelude::*;
use vstd::slice::slice_subrange;
use vstd::string::StringExecFns;
use vstd::utf8::{
    decode_first_scalar, encode_utf8, length_of_first_scalar, valid_first_scalar,
};

verus! {

/// Whether two texts are the same.
pub fn same_text(a: &str, b: &str) -> (r: bool)
    ensures
        r == (a@ == b@),
{
    a.to_owned() == b.to_owned()
}

// ---------------------------------------------------------------- numbers --

/// A decimal digit.
pub open spec fn is_digit(b: u8) -> bool {
    48 <= b <= 57
}

/// The number that a run of digits stands for.
pub open spec fn digits_value(s: Seq<u8>) -> nat
    decreases s.len(),
{
    if s.len() == 0 {
        0
    } else {
        digits_value(s.drop_last()) * 10 + (s.last() - 48) as nat
    }
}

/// A text without a plus sign before it.
pub open spec fn without_plus(s: Seq<u8>) -> Seq<u8> {
    if s.len() > 0 && s[0] == 43 {
        s.drop_first()
    } else {
        s
    }
}

/// A text of nothing but digits.
pub open spec fn all_digits(s: Seq<u8>) -> bool {
    forall|i: int| 0 <= i < s.len() ==> is_digit(#[trigger] s[i])
}

/// A number in decimal, with a plus sign before it or without.
pub open spec fn unsigned(s: Seq<u8>) -> Option<nat> {
    let body = without_plus(s);
    if body.len() > 0 && all_digits(body) {
        Some(digits_value(body))
    } else {
        None
    }
}

/// The number that a text stands for, as far as sixty-four bits hold it.
pub open spec fn number_of(s: Seq<u8>) -> Option<u64> {
    match unsigned(s) {
        Some(n) => if n <= u64::MAX {
            Some(n as u64)
        } else {
            None
        },
        None => None,
    }
}

/// More digits make no smaller number.
proof fn lemma_digits_grow(s: Seq<u8>, i: int)
    requires
        0 <= i <= s.len(),
        forall|j: int| 0 <= j < s.len() ==> is_digit(#[trigger] s[j]),
    ensures
        digits_value(s.take(i)) <= digits_value(s),
    decreases s.len() - i,
{
    if i == s.len() {
        assert(s.take(i) =~= s);
    } else {
        lemma_digits_grow(s, i + 1);
        assert(s.take(i + 1).drop_last() =~= s.take(i));
        assert(is_digit(s[i]));
    }
}

/// The number that a text stands for: digits, with a plus sign before them or
/// without. `None` for anything else, and for what exceeds sixty-four bits.
pub fn parse_number(s: &[u8]) -> (r: Option<u64>)
    ensures
        r == number_of(s@),
{
    let start: usize = if s.len() > 0 && s[0] == 43 {
        1
    } else {
        0
    };
    let ghost body = without_plus(s@);
    let n: usize = s.len() - start;
    if n == 0 {
        return None;
    }
    let mut i: usize = 0;
    while i < n
        invariant
            i <= n,
            n == body.len(),
            start + n == s@.len(),
            forall|j: int| 0 <= j < n ==> body[j] == s@[start + j],
            forall|j: int| 0 <= j < i ==> is_digit(#[trigger] body[j]),
            n > 0,
            start + n <= usize::MAX,
            body == without_plus(s@),
        decreases n - i,
    {
        let b: u8 = s[start + i];
        if b < 48 || b > 57 {
            assert(!is_digit(body[i as int]));
            return None;
        }
        i = i + 1;
    }
    let mut v: u64 = 0;
    let mut i: usize = 0;
    proof {
        assert(body.take(0) =~= Seq::<u8>::empty());
    }
    while i < n
        invariant
            i <= n,
            n == body.len(),
            n > 0,
            start + n == s@.len(),
            forall|j: int| 0 <= j < n ==> body[j] == s@[start + j],
            forall|j: int| 0 <= j < n ==> is_digit(#[trigger] body[j]),
            v == digits_value(body.take(i as int)),
            start + n <= usize::MAX,
            body == without_plus(s@),
        decreases n - i,
    {
        assert(is_digit(body[i as int]));
        let d: u64 = (s[start + i] - 48) as u64;
        proof {
            assert(body.take(i + 1).drop_last() =~= body.take(i as int));
            assert(body.take(i + 1).last() == body[i as int]);
        }
        if v > (u64::MAX - d) / 10 {
            proof {
                lemma_digits_grow(body, i + 1);
                assert(v * 10 + d > u64::MAX);
            }
            return None;
        }
        v = v * 10 + d;
        i = i + 1;
    }
    proof {
        assert(body.take(i as int) =~= body);
    }
    Some(v)
}

/// A number in decimal reads back as itself.
pub proof fn lemma_decimal_reads_back(n: u64)
    ensures
        number_of(crate::digits::padded(n as nat, 1)) == Some(n),
{
    let w = crate::digits::decimal_width(n as nat);
    lemma_fixed_digits_value(n as nat, w);
    lemma_width_covers(n as nat);
    let s = crate::digits::fixed_digits(n as nat, w, 10);
    assert(crate::digits::padded(n as nat, 1) == s) by {
        assert(w >= 1);
    }
    crate::digits::lemma_digits_len(n as nat, w, 10);
    assert(is_digit(s[0]));
}

/// What number a text stands for: each digit counts ten times what the one behind
/// it does. Only digits make a number, and a plus sign may stand before them.
pub proof fn lemma_number_of(s: Seq<u8>, d: u8)
    requires
        48 <= d <= 57,
    ensures
        number_of(seq![d]) == Some((d - 48) as u64),
        s.len() > 0 && s[0] != 43 && number_of(s) is Some ==> (number_of(s.push(d)) == if 10
            * number_of(s)->0 + (d - 48) <= u64::MAX {
            Some((10 * number_of(s)->0 + (d - 48)) as u64)
        } else {
            None
        }),
        s.len() > 0 && s[0] != 43 ==> number_of(seq![43u8] + s) == number_of(s),
        number_of(Seq::<u8>::empty()) is None,
        number_of(seq![43u8]) is None,
        (exists|i: int|
            0 <= i < s.len() && !(48 <= #[trigger] s[i] <= 57) && !(i == 0 && s[i] == 43))
            ==> number_of(s) is None,
{
    let one = seq![d];
    assert(one.drop_last() =~= Seq::<u8>::empty());
    assert(one[0] == d);
    assert(all_digits(one));
    assert(without_plus(one) == one);
    assert(digits_value(Seq::<u8>::empty()) == 0);
    assert(digits_value(one) == d - 48);
    if s.len() > 0 && s[0] != 43 {
        let t = s.push(d);
        assert(t.drop_last() =~= s);
        assert(without_plus(t) == t && without_plus(s) == s);
        if all_digits(s) {
            assert(all_digits(t));
            assert(digits_value(t) == digits_value(s) * 10 + (d - 48));
        }
        let p = seq![43u8] + s;
        assert(p.drop_first() =~= s);
        assert(without_plus(p) == s);
    }
    assert(seq![43u8].drop_first() =~= Seq::<u8>::empty());
    if exists|i: int|
        0 <= i < s.len() && !(48 <= #[trigger] s[i] <= 57) && !(i == 0 && s[i] == 43) {
        let i = choose|i: int|
            0 <= i < s.len() && !(48 <= #[trigger] s[i] <= 57) && !(i == 0 && s[i] == 43);
        let body = without_plus(s);
        if s[0] == 43 {
            assert(body[i - 1] == s[i]);
        } else {
            assert(body[i] == s[i]);
        }
        assert(!all_digits(body));
    }
}

/// Fixed decimal digits are digits, and stand for the number as far as they go.
pub proof fn lemma_fixed_digits_value(n: nat, w: nat)
    ensures
        crate::digits::fixed_digits(n, w, 10).len() == w,
        forall|i: int|
            0 <= i < w ==> is_digit(#[trigger] crate::digits::fixed_digits(n, w, 10)[i]),
        n < vstd::arithmetic::power::pow(10, w) ==> digits_value(
            crate::digits::fixed_digits(n, w, 10),
        ) == n,
    decreases w,
{
    vstd::arithmetic::power::lemma_pow0(10);
    if w > 0 {
        vstd::arithmetic::power::lemma_pow1(10);
        vstd::arithmetic::power::lemma_pow_adds(10, 1, (w - 1) as nat);
        lemma_fixed_digits_value(n / 10, (w - 1) as nat);
        let s = crate::digits::fixed_digits(n, w, 10);
        let t = crate::digits::fixed_digits(n / 10, (w - 1) as nat, 10);
        assert(s.drop_last() =~= t);
        let p = vstd::arithmetic::power::pow(10, (w - 1) as nat);
        if n < 10 * p {
            assert(n / 10 < p);
        }
    }
}

/// A number is below ten to the power of its width.
proof fn lemma_width_covers(n: nat)
    ensures
        n < vstd::arithmetic::power::pow(10, crate::digits::decimal_width(n)),
        crate::digits::decimal_width(n) >= 1,
    decreases n,
{
    vstd::arithmetic::power::lemma_pow1(10);
    if n >= 10 {
        lemma_width_covers(n / 10);
        let w = crate::digits::decimal_width(n / 10);
        vstd::arithmetic::power::lemma_pow_adds(10, 1, w);
    }
}

/// The characters of a number in decimal.
pub open spec fn decimal_text(n: nat) -> Seq<char>
    decreases n,
{
    if n < 10 {
        digit_text(n)
    } else {
        decimal_text(n / 10) + digit_text(n % 10)
    }
}

/// The character of a digit.
pub open spec fn digit_text(d: nat) -> Seq<char> {
    if d == 0 {
        "0"@
    } else if d == 1 {
        "1"@
    } else if d == 2 {
        "2"@
    } else if d == 3 {
        "3"@
    } else if d == 4 {
        "4"@
    } else if d == 5 {
        "5"@
    } else if d == 6 {
        "6"@
    } else if d == 7 {
        "7"@
    } else if d == 8 {
        "8"@
    } else {
        "9"@
    }
}

fn digit_str(d: u64) -> (s: &'static str)
    requires
        d < 10,
    ensures
        s@ == digit_text(d as nat),
{
    if d == 0 {
        "0"
    } else if d == 1 {
        "1"
    } else if d == 2 {
        "2"
    } else if d == 3 {
        "3"
    } else if d == 4 {
        "4"
    } else if d == 5 {
        "5"
    } else if d == 6 {
        "6"
    } else if d == 7 {
        "7"
    } else if d == 8 {
        "8"
    } else {
        "9"
    }
}

/// The characters of a number are its decimal digits, without a nought in front.
pub proof fn lemma_decimal_text(n: nat)
    ensures
        decimal_text(n).len() == decimal_width(n),
        forall|i: int|
            0 <= i < decimal_text(n).len() ==> #[trigger] decimal_text(n)[i] as int
                == fixed_digits(n, decimal_width(n), 10)[i],
    decreases n,
{
    reveal_strlit("0");
    reveal_strlit("1");
    reveal_strlit("2");
    reveal_strlit("3");
    reveal_strlit("4");
    reveal_strlit("5");
    reveal_strlit("6");
    reveal_strlit("7");
    reveal_strlit("8");
    reveal_strlit("9");
    let d = n % 10;
    assert(digit_text(d).len() == 1 && digit_text(d)[0] as int == 48 + d);
    if n < 10 {
        assert(fixed_digits(n / 10, 0, 10) =~= Seq::<u8>::empty());
        assert(fixed_digits(n, 1, 10) =~= seq![digit_char(n as int)]);
        assert(digit_text(n)[0] as int == 48 + n);
    } else {
        lemma_decimal_text(n / 10);
        lemma_digits_len(n / 10, decimal_width(n / 10), 10);
        let w = decimal_width(n / 10);
        assert forall|i: int| 0 <= i < decimal_text(n).len() implies #[trigger] decimal_text(
            n,
        )[i] as int == fixed_digits(n, decimal_width(n), 10)[i] by {
            if i < w {
                assert(decimal_text(n)[i] == decimal_text(n / 10)[i]);
            }
        }
    }
}

/// A number in decimal.
pub fn decimal_string(n: u64) -> (s: String)
    ensures
        s@ == decimal_text(n as nat),
    decreases n,
{
    if n < 10 {
        digit_str(n).to_owned()
    } else {
        let mut s: String = decimal_string(n / 10);
        s.append(digit_str(n % 10));
        s
    }
}

// -------------------------------------------------------- lines and fields --

/// Where `b` first is in `s`; the length of `s` if nowhere.
pub open spec fn first_at(s: Seq<u8>, b: u8) -> nat
    decreases s.len(),
{
    if s.len() == 0 || s[0] == b {
        0
    } else {
        1 + first_at(s.drop_first(), b)
    }
}

/// Where a byte first is, from what is known of the bytes before.
pub proof fn lemma_first_at(s: Seq<u8>, b: u8, p: nat)
    requires
        p <= s.len(),
        forall|i: int| 0 <= i < p ==> s[i] != b,
        p < s.len() ==> s[p as int] == b,
    ensures
        first_at(s, b) == p,
    decreases s.len(),
{
    if p > 0 {
        assert(s[0] != b);
        assert forall|i: int| 0 <= i < p - 1 implies s.drop_first()[i] != b by {
            assert(s[i + 1] != b);
        }
        lemma_first_at(s.drop_first(), b, (p - 1) as nat);
    }
}

/// Where a byte first is behind `from`.
fn find_from(s: &[u8], from: usize, b: u8) -> (p: usize)
    requires
        from <= s@.len(),
    ensures
        from <= p <= s@.len(),
        p - from == first_at(s@.subrange(from as int, s@.len() as int), b),
{
    let mut p: usize = from;
    while p < s.len() && s[p] != b
        invariant
            from <= p <= s@.len(),
            forall|i: int| from <= i < p ==> s@[i] != b,
        decreases s.len() - p,
    {
        p = p + 1;
    }
    proof {
        lemma_first_at(s@.subrange(from as int, s@.len() as int), b, (p - from) as nat);
    }
    p
}

/// The pieces of a text between separators: one more than there are
/// separators.
pub open spec fn split_at_byte(s: Seq<u8>, b: u8) -> Seq<Seq<u8>>
    decreases s.len(),
{
    let p = first_at(s, b) as int;
    if p >= s.len() {
        seq![s]
    } else {
        seq![s.take(p)] + split_at_byte(s.skip(p + 1), b)
    }
}

/// The lines of a text: ended by a line feed, which may have a carriage return
/// before it; the last one need not be ended.
pub open spec fn lines_of(s: Seq<u8>) -> Seq<Seq<u8>>
    decreases s.len(),
{
    let p = first_at(s, 10) as int;
    if s.len() == 0 {
        Seq::empty()
    } else if p >= s.len() {
        seq![s]
    } else {
        seq![without_return(s.take(p))] + lines_of(s.skip(p + 1))
    }
}

/// A line without a carriage return at its end.
pub open spec fn without_return(s: Seq<u8>) -> Seq<u8> {
    if s.len() > 0 && s.last() == 13 {
        s.drop_last()
    } else {
        s
    }
}

/// The pieces of a text between separators.
pub fn split_bytes(s: &[u8], b: u8) -> (out: Vec<Vec<u8>>)
    ensures
        key_seqs(out@) == split_at_byte(s@, b),
{
    let mut out: Vec<Vec<u8>> = Vec::new();
    let mut from: usize = 0;
    let ghost all = split_at_byte(s@, b);
    let n: usize = s.len();
    proof {
        assert(s@.subrange(0, n as int) =~= s@);
        assert(key_seqs(out@) + all =~= all);
    }
    loop
        invariant
            from <= n,
            n == s@.len(),
            all == split_at_byte(s@, b),
            key_seqs(out@) + split_at_byte(s@.subrange(from as int, n as int), b) == all,
        decreases n - from,
    {
        let p: usize = find_from(s, from, b);
        let ghost rest = s@.subrange(from as int, n as int);
        let ghost before = key_seqs(out@);
        let piece: Vec<u8> = to_owned(slice_subrange(s, from, p));
        out.push(piece);
        proof {
            assert(key_seqs(out@) =~= before.push(s@.subrange(from as int, p as int)));
        }
        if p >= n {
            proof {
                assert(s@.subrange(from as int, p as int) =~= rest);
                assert(split_at_byte(rest, b) =~= seq![rest]);
                assert(key_seqs(out@) =~= all);
            }
            return out;
        }
        proof {
            assert(s@.subrange(from as int, p as int) =~= rest.take(p - from));
            assert(s@.subrange(p + 1, n as int) =~= rest.skip(p - from + 1));
            assert(key_seqs(out@) + split_at_byte(rest.skip(p - from + 1), b) =~= all);
        }
        from = p + 1;
    }
}

/// The lines of a text.
pub fn lines(s: &[u8]) -> (out: Vec<Vec<u8>>)
    ensures
        key_seqs(out@) == lines_of(s@),
{
    let mut out: Vec<Vec<u8>> = Vec::new();
    let mut from: usize = 0;
    let ghost all = lines_of(s@);
    let n: usize = s.len();
    proof {
        assert(s@.subrange(0, n as int) =~= s@);
        assert(key_seqs(out@) + all =~= all);
    }
    while from < n
        invariant
            from <= n,
            n == s@.len(),
            all == lines_of(s@),
            key_seqs(out@) + lines_of(s@.subrange(from as int, n as int)) == all,
        decreases n - from,
    {
        let p: usize = find_from(s, from, 10);
        let ghost rest = s@.subrange(from as int, n as int);
        let ghost before = key_seqs(out@);
        if p >= n {
            out.push(to_owned(slice_subrange(s, from, p)));
            proof {
                assert(s@.subrange(from as int, p as int) =~= rest);
                assert(key_seqs(out@) =~= before.push(rest));
                assert(lines_of(rest) =~= seq![rest]);
                assert(key_seqs(out@) =~= all);
            }
            return out;
        }
        let end: usize = if p > from && s[p - 1] == 13 {
            p - 1
        } else {
            p
        };
        out.push(to_owned(slice_subrange(s, from, end)));
        proof {
            assert(s@.subrange(from as int, p as int) =~= rest.take(p - from));
            assert(s@.subrange(from as int, end as int) =~= without_return(rest.take(p - from)));
            assert(key_seqs(out@) =~= before.push(s@.subrange(from as int, end as int)));
            assert(s@.subrange(p + 1, n as int) =~= rest.skip(p - from + 1));
            assert(key_seqs(out@) + lines_of(rest.skip(p - from + 1)) =~= all);
        }
        from = p + 1;
    }
    proof {
        assert(s@.subrange(from as int, n as int) =~= Seq::<u8>::empty());
        assert(key_seqs(out@) =~= all);
    }
    out
}

/// Whether a byte is nowhere in a text.
pub open spec fn lacks(s: Seq<u8>, b: u8) -> bool {
    forall|i: int| 0 <= i < s.len() ==> #[trigger] s[i] != b
}

/// A separator and a piece behind a text make one piece more.
pub proof fn lemma_split_grows(a: Seq<u8>, c: Seq<u8>, b: u8)
    requires
        lacks(c, b),
    ensures
        split_at_byte(a + seq![b] + c, b) == split_at_byte(a, b).push(c),
    decreases a.len(),
{
    let whole = a + seq![b] + c;
    let p = first_at(a, b);
    lemma_first_at_is(a, b);
    assert forall|i: int| 0 <= i < p implies whole[i] != b by {
        assert(whole[i] == a[i]);
    }
    lemma_first_at(whole, b, p);
    if p == a.len() {
        assert(whole.take(p as int) =~= a);
        assert(whole.skip(p as int + 1) =~= c);
        lemma_first_at(c, b, c.len());
        assert(split_at_byte(c, b) == seq![c]);
        assert(split_at_byte(whole, b) =~= seq![a] + seq![c]);
        assert(seq![a] + seq![c] =~= seq![a].push(c));
    } else {
        assert(whole.take(p as int) =~= a.take(p as int));
        assert(whole.skip(p as int + 1) =~= a.skip(p as int + 1) + seq![b] + c);
        lemma_split_grows(a.skip(p as int + 1), c, b);
        assert(seq![a.take(p as int)] + split_at_byte(a.skip(p as int + 1), b).push(c) =~= (seq![
            a.take(p as int),
        ] + split_at_byte(a.skip(p as int + 1), b)).push(c));
    }
}

/// What is known of where a byte first is.
pub proof fn lemma_first_at_is(s: Seq<u8>, b: u8)
    ensures
        first_at(s, b) <= s.len(),
        forall|i: int| 0 <= i < first_at(s, b) ==> #[trigger] s[i] != b,
        first_at(s, b) < s.len() ==> s[first_at(s, b) as int] == b,
    decreases s.len(),
{
    if s.len() > 0 && s[0] != b {
        let t = s.drop_first();
        lemma_first_at_is(t, b);
        assert forall|i: int| 0 <= i < first_at(s, b) implies #[trigger] s[i] != b by {
            if i > 0 {
                assert(t[i - 1] == s[i]);
            }
        }
    }
}

/// A line and its end before a text make one line more.
pub proof fn lemma_lines_start(line: Seq<u8>, rest: Seq<u8>)
    requires
        lacks(line, 10),
    ensures
        lines_of(line + seq![10u8] + rest) == seq![without_return(line)] + lines_of(rest),
{
    let whole = line + seq![10u8] + rest;
    assert forall|i: int| 0 <= i < line.len() implies whole[i] != 10 by {
        assert(whole[i] == line[i]);
    }
    lemma_first_at(whole, 10, line.len());
    assert(whole.take(line.len() as int) =~= line);
    assert(whole.skip(line.len() as int + 1) =~= rest);
}

/// Pieces with a byte between each two of them.
pub open spec fn joined(pieces: Seq<Seq<u8>>, b: u8) -> Seq<u8>
    decreases pieces.len(),
{
    if pieces.len() == 0 {
        Seq::empty()
    } else if pieces.len() == 1 {
        pieces[0]
    } else {
        pieces[0] + seq![b] + joined(pieces.drop_first(), b)
    }
}

/// Splitting at a byte: no piece has the byte, and the pieces with the byte between
/// them are the text again.
pub proof fn lemma_split_is_undone(s: Seq<u8>, b: u8)
    ensures
        split_at_byte(s, b).len() >= 1,
        joined(split_at_byte(s, b), b) == s,
        forall|i: int, j: int|
            0 <= i < split_at_byte(s, b).len() && 0 <= j < split_at_byte(s, b)[i].len()
                ==> #[trigger] split_at_byte(s, b)[i][j] != b,
    decreases s.len(),
{
    lemma_first_at_is(s, b);
    let p = first_at(s, b) as int;
    let all = split_at_byte(s, b);
    if p < s.len() {
        let rest = split_at_byte(s.skip(p + 1), b);
        lemma_split_is_undone(s.skip(p + 1), b);
        assert(all == seq![s.take(p)] + rest);
        assert(all.drop_first() =~= rest);
        assert(all[0] == s.take(p));
        assert(joined(all, b) =~= s);
        assert forall|i: int, j: int| 0 <= i < all.len() && 0 <= j < all[i].len() implies
            #[trigger] all[i][j] != b by {
            if i > 0 {
                assert(all[i] == rest[i - 1]);
            }
        }
    } else {
        assert(all == seq![s]);
    }
}

/// Lines: the first ends at the first line feed, and a carriage return before it is
/// no part of the line. What is left behind the last line feed is a line if there
/// is anything.
pub proof fn lemma_lines(line: Seq<u8>, rest: Seq<u8>)
    requires
        forall|i: int| 0 <= i < line.len() ==> #[trigger] line[i] != 10,
    ensures
        lines_of(line + seq![13u8, 10u8] + rest) == seq![line] + lines_of(rest),
        line.len() == 0 || line.last() != 13 ==> lines_of(line + seq![10u8] + rest) == seq![line]
            + lines_of(rest),
        line.len() > 0 ==> lines_of(line) == seq![line],
        lines_of(Seq::<u8>::empty()) == Seq::<Seq<u8>>::empty(),
{
    lemma_lines_start(line, rest);
    let with = line.push(13);
    assert forall|i: int| 0 <= i < with.len() implies #[trigger] with[i] != 10 by {
        if i < line.len() {
            assert(with[i] == line[i]);
        }
    }
    lemma_lines_start(with, rest);
    assert(with + seq![10u8] + rest =~= line + seq![13u8, 10u8] + rest);
    assert(with.drop_last() =~= line);
    lemma_first_at_is(line, 10);
    if first_at(line, 10) < line.len() {
        assert(line[first_at(line, 10) as int] != 10);
    }
}

/// What follows a prefix, where a text starts with it.
pub open spec fn behind_prefix(s: Seq<u8>, prefix: Seq<u8>) -> Option<Seq<u8>> {
    if prefix.len() <= s.len() && s.take(prefix.len() as int) == prefix {
        Some(s.skip(prefix.len() as int))
    } else {
        None
    }
}

/// What follows a prefix, where a text starts with it.
pub fn strip<'a>(s: &'a [u8], prefix: &[u8]) -> (r: Option<&'a [u8]>)
    ensures
        r is Some <==> behind_prefix(s@, prefix@) is Some,
        r matches Some(t) ==> behind_prefix(s@, prefix@) == Some(t@),
{
    if prefix.len() <= s.len() && bytes_equal(slice_subrange(s, 0, prefix.len()), prefix) {
        proof {
            assert(s@.subrange(0, prefix@.len() as int) =~= s@.take(prefix@.len() as int));
            assert(s@.subrange(prefix@.len() as int, s@.len() as int) =~= s@.skip(
                prefix@.len() as int,
            ));
        }
        Some(slice_subrange(s, prefix.len(), s.len()))
    } else {
        proof {
            if prefix@.len() <= s@.len() {
                assert(s@.subrange(0, prefix@.len() as int) =~= s@.take(prefix@.len() as int));
            }
        }
        None
    }
}

/// White space, by the number of its character.
pub open spec fn is_white(c: u32) -> bool {
    ||| 0x9 <= c <= 0xD
    ||| c == 0x20 || c == 0x85 || c == 0xA0 || c == 0x1680
    ||| 0x2000 <= c <= 0x200A
    ||| c == 0x2028 || c == 0x2029 || c == 0x202F || c == 0x205F || c == 0x3000
}

/// White space of one byte.
pub open spec fn is_space_one(a: u8) -> bool {
    a == 32 || 9 <= a <= 13
}

/// White space of two bytes.
pub open spec fn is_space_two(a: u8, b: u8) -> bool {
    a == 0xC2 && (b == 0x85 || b == 0xA0)
}

/// White space of three bytes.
pub open spec fn is_space_three(a: u8, b: u8, c: u8) -> bool {
    ||| a == 0xE1 && b == 0x9A && c == 0x80
    ||| a == 0xE2 && b == 0x80 && (0x80 <= c <= 0x8A || c == 0xA8 || c == 0xA9 || c == 0xAF)
    ||| a == 0xE2 && b == 0x81 && c == 0x9F
    ||| a == 0xE3 && b == 0x80 && c == 0x80
}

/// How many bytes the white space takes that a text starts with; none where it
/// starts with something else.
pub open spec fn space_len(s: Seq<u8>) -> nat {
    if s.len() >= 1 && is_space_one(s[0]) {
        1
    } else if s.len() >= 2 && is_space_two(s[0], s[1]) {
        2
    } else if s.len() >= 3 && is_space_three(s[0], s[1], s[2]) {
        3
    } else {
        0
    }
}

/// How many bytes the white space takes that a text ends with; none where it
/// ends with something else.
pub open spec fn space_end(s: Seq<u8>) -> nat {
    let n = s.len() as int;
    if n >= 1 && is_space_one(s[n - 1]) {
        1
    } else if n >= 2 && is_space_two(s[n - 2], s[n - 1]) {
        2
    } else if n >= 3 && is_space_three(s[n - 3], s[n - 2], s[n - 1]) {
        3
    } else {
        0
    }
}

/// Bytes of white space are characters of white space: where a text starts with
/// a character, it starts with white space just where that character is, and
/// the white space is as long as the character.
pub proof fn lemma_space_is_white(s: Seq<u8>)
    requires
        s.len() > 0,
        valid_first_scalar(s),
    ensures
        space_len(s) == if is_white(decode_first_scalar(s)) {
            length_of_first_scalar(s)
        } else {
            0
        },
{
    let a = s[0];
    if a <= 0x7f {
        assert((a & 0x7F) as u32 == a) by (bit_vector)
            requires
                a <= 0x7f,
        ;
    } else if a <= 0xdf {
        let b = s[1];
        let c = (((a & 0x1F) as u32) << 6) | ((b & 0x3f) as u32);
        assert((c == 0x85 || c == 0xA0) == (a == 0xC2 && (b == 0x85 || b == 0xA0)) && c < 0x800)
            by (bit_vector)
            requires
                0xc0 <= a <= 0xdf,
                0x80 <= b <= 0xbf,
                c == (((a & 0x1F) as u32) << 6) | ((b & 0x3f) as u32),
        ;
    } else if a <= 0xef {
        let b = s[1];
        let d = s[2];
        let c = (((a & 0x0F) as u32) << 12) | (((b & 0x3f) as u32) << 6) | ((d & 0x3f) as u32);
        assert((c == 0x1680) == (a == 0xE1 && b == 0x9A && d == 0x80) && (c == 0x3000) == (a == 0xE3
            && b == 0x80 && d == 0x80) && (c == 0x205F) == (a == 0xE2 && b == 0x81 && d == 0x9F))
            by (bit_vector)
            requires
                0xe0 <= a <= 0xef,
                0x80 <= b <= 0xbf,
                0x80 <= d <= 0xbf,
                c == (((a & 0x0F) as u32) << 12) | (((b & 0x3f) as u32) << 6) | ((d & 0x3f) as u32),
        ;
        assert((0x2000 <= c <= 0x203F) == (a == 0xE2 && b == 0x80) && (a == 0xE2 && b == 0x80 ==> c
            == 0x1F80 + d)) by (bit_vector)
            requires
                0xe0 <= a <= 0xef,
                0x80 <= b <= 0xbf,
                0x80 <= d <= 0xbf,
                c == (((a & 0x0F) as u32) << 12) | (((b & 0x3f) as u32) << 6) | ((d & 0x3f) as u32),
        ;
    }
}

/// How many bytes the white space takes at `at`.
pub fn space_at(s: &[u8], at: usize) -> (n: usize)
    requires
        at <= s@.len(),
    ensures
        n == space_len(s@.skip(at as int)),
        at + n <= s@.len(),
{
    let left: usize = s.len() - at;
    if left >= 1 && one_byte(s[at]) {
        1
    } else if left >= 2 && two_bytes(s[at], s[at + 1]) {
        2
    } else if left >= 3 && three_bytes(s[at], s[at + 1], s[at + 2]) {
        3
    } else {
        0
    }
}

fn one_byte(a: u8) -> (r: bool)
    ensures
        r == is_space_one(a),
{
    a == 32 || (9 <= a && a <= 13)
}

fn two_bytes(a: u8, b: u8) -> (r: bool)
    ensures
        r == is_space_two(a, b),
{
    a == 0xC2 && (b == 0x85 || b == 0xA0)
}

fn three_bytes(a: u8, b: u8, c: u8) -> (r: bool)
    ensures
        r == is_space_three(a, b, c),
{
    (a == 0xE1 && b == 0x9A && c == 0x80) || (a == 0xE2 && b == 0x80 && ((0x80 <= c && c <= 0x8A)
        || c == 0xA8 || c == 0xA9 || c == 0xAF)) || (a == 0xE2 && b == 0x81 && c == 0x9F) || (a
        == 0xE3 && b == 0x80 && c == 0x80)
}

/// A text without the white space at its ends.
pub open spec fn trimmed(s: Seq<u8>) -> Seq<u8>
    decreases s.len(),
{
    if space_len(s) > 0 {
        trimmed(s.skip(space_len(s) as int))
    } else if space_end(s) > 0 {
        trimmed(s.take(s.len() - space_end(s)))
    } else {
        s
    }
}

/// A text without the white space at its ends.
pub fn trim<'a>(s: &'a [u8]) -> (r: &'a [u8])
    ensures
        r@ == trimmed(s@),
{
    let n: usize = s.len();
    let mut lo: usize = 0;
    proof {
        assert(s@.skip(0) =~= s@);
    }
    loop
        invariant_except_break
            lo <= n,
            n == s@.len(),
            trimmed(s@) == trimmed(s@.skip(lo as int)),
        ensures
            lo <= n,
            space_len(s@.skip(lo as int)) == 0,
            trimmed(s@) == trimmed(s@.skip(lo as int)),
        decreases n - lo,
    {
        let k: usize = space_at(s, lo);
        if k == 0 {
            break;
        }
        proof {
            assert(s@.skip(lo as int).skip(k as int) =~= s@.skip(lo + k));
        }
        lo = lo + k;
    }
    let mut hi: usize = n;
    proof {
        assert(s@.subrange(lo as int, hi as int) =~= s@.skip(lo as int));
    }
    loop
        invariant_except_break
            lo <= hi <= n,
            n == s@.len(),
            space_len(s@.subrange(lo as int, hi as int)) == 0,
            trimmed(s@) == trimmed(s@.subrange(lo as int, hi as int)),
        ensures
            lo <= hi <= n,
            trimmed(s@) == s@.subrange(lo as int, hi as int),
        decreases hi - lo,
    {
        let left: usize = hi - lo;
        let k: usize = if left >= 1 && one_byte(s[hi - 1]) {
            1
        } else if left >= 2 && two_bytes(s[hi - 2], s[hi - 1]) {
            2
        } else if left >= 3 && three_bytes(s[hi - 3], s[hi - 2], s[hi - 1]) {
            3
        } else {
            0
        };
        proof {
            let t = s@.subrange(lo as int, hi as int);
            assert(k == space_end(t));
            assert(t.take(t.len() - k) =~= s@.subrange(lo as int, hi - k));
        }
        if k == 0 {
            break;
        }
        hi = hi - k;
    }
    slice_subrange(s, lo, hi)
}

// -------------------------------------------------------------- arguments --

/// A run of white space.
pub open spec fn only_space(s: Seq<u8>) -> bool
    decreases s.len(),
{
    s.len() == 0 || (space_len(s) > 0 && only_space(s.skip(space_len(s) as int)))
}

/// White space behind white space.
proof fn lemma_space_joins(a: Seq<u8>, b: Seq<u8>)
    requires
        only_space(a),
        only_space(b),
    ensures
        only_space(a + b),
    decreases a.len(),
{
    if a.len() == 0 {
        assert(a + b =~= b);
    } else {
        let n = space_len(a) as int;
        let rest = a.skip(n);
        lemma_space_joins(rest, b);
        assert(n <= a.len());
        assert((a + b).skip(n) =~= rest + b);
        assert((a + b)[0] == a[0]);
        assert(n >= 2 ==> (a + b)[1] == a[1]);
        assert(n >= 3 ==> (a + b)[2] == a[2]);
        assert(space_len(a + b) == n);
    }
}

/// White space is seen at the end of a text as at its start: whatever stands before it, it
/// takes as many bytes as it has, and what is seen at the end is white space.
pub proof fn lemma_space_is_seen_at_both_ends(t: Seq<u8>, w: Seq<u8>)
    requires
        w.len() > 0,
        space_len(w) == w.len(),
    ensures
        space_end(t + w) == w.len(),
        space_len(w + t) == w.len(),
        space_end(t) > 0 ==> space_len(t.skip(t.len() - space_end(t))) == space_end(t),
{
    let (s, n) = (t + w, w.len() as int);
    assert(s[s.len() - 1] == w[n - 1]);
    assert(n >= 2 ==> s[s.len() - 2] == w[n - 2]);
    assert(n >= 3 ==> s[s.len() - 3] == w[n - 3]);
    let r = w + t;
    assert(r[0] == w[0]);
    assert(n >= 2 ==> r[1] == w[1]);
    assert(n >= 3 ==> r[2] == w[2]);
}

/// Trimming cuts off white space at both ends and nothing else: what is left is a
/// piece of the text, with a run of white space before it and one behind it, and
/// neither starts nor ends with any.
pub proof fn lemma_trim_cuts_space(s: Seq<u8>) -> (r: (Seq<u8>, Seq<u8>))
    ensures
        s == r.0 + trimmed(s) + r.1,
        only_space(r.0),
        only_space(r.1),
        space_len(trimmed(s)) == 0,
        space_end(trimmed(s)) == 0,
    decreases s.len(),
{
    let none = Seq::<u8>::empty();
    if space_len(s) > 0 {
        let n = space_len(s) as int;
        let (a, b) = lemma_trim_cuts_space(s.skip(n));
        let front = s.take(n);
        assert(front.skip(n) =~= none);
        assert(front[0] == s[0]);
        assert(n >= 2 ==> front[1] == s[1]);
        assert(n >= 3 ==> front[2] == s[2]);
        assert(space_len(front) == n);
        assert(only_space(none));
        assert(only_space(front));
        lemma_space_joins(front, a);
        assert(s =~= front + s.skip(n));
        assert(s =~= (front + a) + trimmed(s) + b);
        (front + a, b)
    } else if space_end(s) > 0 {
        let n = space_end(s) as int;
        let cut = s.len() - n;
        let (a, b) = lemma_trim_cuts_space(s.take(cut));
        let back = s.skip(cut);
        assert(back.skip(n) =~= none);
        assert(back[0] == s[cut]);
        assert(n >= 2 ==> back[1] == s[cut + 1]);
        assert(n >= 3 ==> back[2] == s[cut + 2]);
        assert(space_len(back) == n);
        assert(only_space(none));
        assert(only_space(back));
        lemma_space_joins(b, back);
        assert(s =~= s.take(cut) + back);
        assert(s =~= a + trimmed(s) + (b + back));
        (a, b + back)
    } else {
        assert(s =~= none + s + none);
        (none, none)
    }
}

/// The arguments of a run: names, each with its value behind it.
pub struct Args(pub Vec<String>);

/// Where a name is among the arguments; their number if nowhere.
pub open spec fn name_at(args: Seq<String>, n: Seq<char>) -> nat
    decreases args.len(),
{
    if args.len() == 0 || args[0]@ == n {
        0
    } else {
        1 + name_at(args.drop_first(), n)
    }
}

proof fn lemma_name_at(args: Seq<String>, n: Seq<char>, p: nat)
    requires
        p <= args.len(),
        forall|i: int| 0 <= i < p ==> (#[trigger] args[i])@ != n,
        p < args.len() ==> args[p as int]@ == n,
    ensures
        name_at(args, n) == p,
    decreases args.len(),
{
    if p > 0 {
        assert(args[0]@ != n);
        let t = args.drop_first();
        assert forall|i: int| 0 <= i < p - 1 implies (#[trigger] t[i])@ != n by {
            assert(t[i] == args[i + 1]);
        }
        lemma_name_at(t, n, (p - 1) as nat);
    }
}

/// The value behind the first argument of a name.
pub open spec fn value_of(args: Seq<String>, n: Seq<char>) -> Option<Seq<char>> {
    let p = name_at(args, n) as int;
    if p + 1 < args.len() {
        Some(args[p + 1]@)
    } else {
        None
    }
}

/// The value of an argument is what stands behind the first place where its name
/// stands.
pub proof fn lemma_value_is_behind_name(args: Seq<String>, n: Seq<char>, p: int)
    requires
        0 <= p < args.len(),
        args[p]@ == n,
        forall|i: int| 0 <= i < p ==> (#[trigger] args[i])@ != n,
    ensures
        p + 1 < args.len() ==> value_of(args, n) == Some(args[p + 1]@),
        p + 1 == args.len() ==> value_of(args, n) is None,
{
    lemma_name_at(args, n, p as nat);
}

/// An argument that is not named has no value.
pub proof fn lemma_unnamed_has_no_value(args: Seq<String>, n: Seq<char>)
    requires
        forall|i: int| 0 <= i < args.len() ==> (#[trigger] args[i])@ != n,
    ensures
        value_of(args, n) is None,
{
    lemma_name_at(args, n, args.len());
}

impl Args {
    /// The value behind the first argument of a name, if there is one.
    pub fn get(&self, n: &str) -> (r: Option<&str>)
        ensures
            r is Some <==> value_of(self.0@, n@) is Some,
            r matches Some(v) ==> value_of(self.0@, n@) == Some(v@),
    {
        let mut i: usize = 0;
        while i < self.0.len() && !same_text(self.0[i].as_str(), n)
            invariant
                i <= self.0@.len(),
                forall|j: int| 0 <= j < i ==> (#[trigger] self.0@[j])@ != n@,
            decreases self.0.len() - i,
        {
            i = i + 1;
        }
        proof {
            lemma_name_at(self.0@, n@, i as nat);
            assert(self.0@.len() == self.0.len());
        }
        if i < self.0.len() && i + 1 < self.0.len() {
            Some(self.0[i + 1].as_str())
        } else {
            None
        }
    }

    /// The number behind the first argument of a name, or a default where there
    /// is none or it does not read as a number of the machine's width.
    pub fn num(&self, n: &str, d: usize) -> (r: usize)
        ensures
            value_of(self.0@, n@) is None ==> r == d,
            value_of(self.0@, n@) matches Some(v) ==> r == match number_of(encode_utf8(v)) {
                Some(x) => if x <= usize::MAX {
                    x as usize
                } else {
                    d
                },
                None => d,
            },
    {
        match self.get(n) {
            Some(v) => match parse_number(v.as_bytes()) {
                Some(x) => if x <= usize::MAX as u64 {
                    x as usize
                } else {
                    d
                },
                None => d,
            },
            None => d,
        }
    }
}

} // verus!
