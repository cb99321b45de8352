//! A synthetic inverted index: attributes with a bounded number of values each,
//! and a posting per row and attribute, grouped by term and in byte order.

use crate::bytes::{
    bytes_lt, lcp, le_bytes, le_value, lemma_lcp, lemma_lcp_unique, push_bytes, push_le32,
    strictly_sorted,
};
use crate::digits::{digits, fixed_digits, lemma_digits_order};
use crate::hash::{fnv32, fnv32_of, FNV32_START};
use crate::sort::{in_order, sorted, Sortable};
use vstd::prelude::*;
use vstd::utf8::{encode_utf8, is_ascii_chars_encode_utf8};

verus! {

/// How many attributes are indexed.
pub const ATTRS: usize = 7;

/// How many attributes a segment has.
pub const SEG_ATTRS: usize = 4;

/// The bytes of a posting.
pub const POSTING_BYTES: usize = 4;

/// Runs up to this many bytes stay in their index record.
pub const INLINE_MAX: usize = 256;

/// The bytes of a segment's values.
pub const SEG_VALUE_BYTES: usize = 64;

/// What a browser downloads once and keeps.
pub const BUDGET_BYTES: u64 = 0x200_0000;

// ------------------------------------------------------------------- terms --

/// The name of an attribute.
pub open spec fn attr_name(f: int) -> Seq<char> {
    if f == 0 {
        "a0"@
    } else if f == 1 {
        "a1"@
    } else if f == 2 {
        "a2"@
    } else if f == 3 {
        "a3"@
    } else if f == 4 {
        "a4"@
    } else if f == 5 {
        "a5"@
    } else {
        "a6"@
    }
}

/// How many values an attribute has: a ladder over three orders of magnitude.
pub open spec fn attr_card(f: int) -> int {
    if f == 0 {
        8
    } else if f == 1 {
        24
    } else if f == 2 {
        64
    } else if f == 3 {
        210
    } else if f == 4 {
        500
    } else if f == 5 {
        2000
    } else {
        5000
    }
}

/// The name of an attribute and how many values it has.
pub fn attr(f: usize) -> (r: (&'static str, usize))
    requires
        f < ATTRS,
    ensures
        r.0@ == attr_name(f as int),
        r.1 == attr_card(f as int),
{
    if f == 0 {
        ("a0", 8)
    } else if f == 1 {
        ("a1", 24)
    } else if f == 2 {
        ("a2", 64)
    } else if f == 3 {
        ("a3", 210)
    } else if f == 4 {
        ("a4", 500)
    } else if f == 5 {
        ("a5", 2000)
    } else {
        ("a6", 5000)
    }
}

/// The name of a segment's attribute.
pub open spec fn seg_name(f: int) -> Seq<char> {
    if f == 0 {
        "b0"@
    } else if f == 1 {
        "b1"@
    } else if f == 2 {
        "b2"@
    } else {
        "b3"@
    }
}

/// How many values a segment's attribute has.
pub open spec fn seg_card(f: int) -> int {
    if f == 0 {
        8
    } else if f == 1 {
        6
    } else if f == 2 {
        30
    } else {
        60
    }
}

/// The name of a segment's attribute and how many values it has.
pub fn seg_attr(f: usize) -> (r: (&'static str, usize))
    requires
        f < SEG_ATTRS,
    ensures
        r.0@ == seg_name(f as int),
        r.1 == seg_card(f as int),
{
    if f == 0 {
        ("b0", 8)
    } else if f == 1 {
        ("b1", 6)
    } else if f == 2 {
        ("b2", 30)
    } else {
        ("b3", 60)
    }
}

/// A term: the attribute, an equals sign, and the value in eight digits.
pub open spec fn term_of(field: Seq<char>, i: nat) -> Seq<u8> {
    encode_utf8(field) + seq![61u8] + fixed_digits(i, 8, 10)
}

/// Writes a term.
pub fn term(field: &str, i: usize, out: &mut Vec<u8>)
    ensures
        final(out)@ == term_of(field@, i as nat),
{
    let mut v: Vec<u8> = Vec::new();
    push_bytes(&mut v, field.as_bytes());
    v.push(61);
    push_bytes(&mut v, &digits(i as u64, 8, 10));
    proof {
        assert(v@ =~= term_of(field@, i as nat));
    }
    *out = v;
}

/// Ten to the eighth.
proof fn lemma_ten8()
    ensures
        vstd::arithmetic::power::pow(10, 8) == 100_000_000,
{
    vstd::arithmetic::power::lemma_pow1(10);
    vstd::arithmetic::power::lemma_pow_adds(10, 1, 1);
    vstd::arithmetic::power::lemma_pow_adds(10, 2, 2);
    vstd::arithmetic::power::lemma_pow_adds(10, 4, 4);
    let (a, b, c, d) = (
        vstd::arithmetic::power::pow(10, 1),
        vstd::arithmetic::power::pow(10, 2),
        vstd::arithmetic::power::pow(10, 4),
        vstd::arithmetic::power::pow(10, 8),
    );
    assert(d == 100_000_000) by (nonlinear_arith)
        requires
            a == 10,
            b == a * a,
            c == b * b,
            d == c * c,
    ;
}

/// A text put before two others does not change their order.
proof fn lemma_prefixed_order(front: Seq<u8>, a: Seq<u8>, b: Seq<u8>)
    requires
        bytes_lt(a, b),
    ensures
        bytes_lt(front + a, front + b),
{
    lemma_lcp(a, b);
    let p = lcp(a, b);
    let (x, y) = (front + a, front + b);
    assert forall|i: int| 0 <= i < front.len() + p implies x[i] == y[i] by {
        if i >= front.len() {
            assert(a[i - front.len()] == b[i - front.len()]);
        }
    }
    lemma_lcp_unique(x, y, front.len() + p);
}

/// The terms of an attribute order as its values do.
pub proof fn lemma_term_order(field: Seq<char>, m: nat, n: nat)
    requires
        m < n,
        n < 100_000_000,
    ensures
        bytes_lt(term_of(field, m), term_of(field, n)),
{
    lemma_ten8();
    lemma_digits_order(m, n, 8, 10);
    lemma_prefixed_order(
        encode_utf8(field) + seq![61u8],
        fixed_digits(m, 8, 10),
        fixed_digits(n, 8, 10),
    );
}

/// The two bytes of an attribute's name.
proof fn lemma_attr_name(f: int)
    requires
        0 <= f < ATTRS,
    ensures
        encode_utf8(attr_name(f)) == seq![97u8, (48 + f) as u8],
{
    reveal_strlit("a0");
    reveal_strlit("a1");
    reveal_strlit("a2");
    reveal_strlit("a3");
    reveal_strlit("a4");
    reveal_strlit("a5");
    reveal_strlit("a6");
    let c = attr_name(f);
    is_ascii_chars_encode_utf8(c);
    assert(c[0] as u8 == encode_utf8(c)[0]);
    assert(c[1] as u8 == encode_utf8(c)[1]);
    assert(encode_utf8(c) =~= seq![97u8, (48 + f) as u8]);
}

/// The two bytes of a segment attribute's name.
proof fn lemma_seg_name(f: int)
    requires
        0 <= f < SEG_ATTRS,
    ensures
        encode_utf8(seg_name(f)) == seq![98u8, (48 + f) as u8],
{
    reveal_strlit("b0");
    reveal_strlit("b1");
    reveal_strlit("b2");
    reveal_strlit("b3");
    let c = seg_name(f);
    is_ascii_chars_encode_utf8(c);
    assert(c[0] as u8 == encode_utf8(c)[0]);
    assert(c[1] as u8 == encode_utf8(c)[1]);
    assert(encode_utf8(c) =~= seq![98u8, (48 + f) as u8]);
}

/// Texts that differ in their second byte, and not before, order by it.
proof fn lemma_second_byte(a: Seq<u8>, b: Seq<u8>)
    requires
        a.len() >= 2,
        b.len() >= 2,
        a[0] == b[0],
        a[1] < b[1],
    ensures
        bytes_lt(a, b),
{
    lemma_lcp_unique(a, b, 1);
}

/// The terms of an attribute come before those of the next.
pub proof fn lemma_attr_order(f: int, g: int, m: nat, n: nat)
    requires
        0 <= f < g < ATTRS,
    ensures
        bytes_lt(term_of(attr_name(f), m), term_of(attr_name(g), n)),
{
    lemma_attr_name(f);
    lemma_attr_name(g);
    lemma_second_byte(term_of(attr_name(f), m), term_of(attr_name(g), n));
}

/// The terms of a segment's attribute come before those of the next.
pub proof fn lemma_seg_attr_order(f: int, g: int, m: nat, n: nat)
    requires
        0 <= f < g < SEG_ATTRS,
    ensures
        bytes_lt(term_of(seg_name(f), m), term_of(seg_name(g), n)),
{
    lemma_seg_name(f);
    lemma_seg_name(g);
    lemma_second_byte(term_of(seg_name(f), m), term_of(seg_name(g), n));
}

/// The key that is no text: it sorts behind every term.
pub open spec fn binary_key_of() -> Seq<u8> {
    seq![0xffu8, 0xbf, 0x61]
}

/// The key that is no text.
pub fn binary_key() -> (k: Vec<u8>)
    ensures
        k@ == binary_key_of(),
{
    let mut k: Vec<u8> = Vec::new();
    k.push(0xff);
    k.push(0xbf);
    k.push(0x61);
    proof {
        assert(k@ =~= binary_key_of());
    }
    k
}

/// The key that is no text sorts behind every term.
pub proof fn lemma_binary_key_last(f: int, i: nat)
    requires
        0 <= f < ATTRS,
    ensures
        bytes_lt(term_of(attr_name(f), i), binary_key_of()),
{
    lemma_attr_name(f);
    lemma_lcp_unique(term_of(attr_name(f), i), binary_key_of(), 0);
}

// ---------------------------------------------------------------- postings --

/// A posting as one number: attribute, value and row, from the top down.
pub open spec fn word_of(f: int, i: int, row: int) -> int {
    f * 0x100_0000_0000_0000 + i * 0x1_0000_0000 + row
}

/// A posting's number is that of a posting.
pub open spec fn is_word(w: u64) -> bool {
    &&& word_attr(w) < ATTRS
    &&& word_value(w) < attr_card(word_attr(w))
}

/// The attribute of a posting.
pub open spec fn word_attr(w: u64) -> int {
    w as int / 0x100_0000_0000_0000
}

/// The value of a posting.
pub open spec fn word_value(w: u64) -> int {
    (w as int / 0x1_0000_0000) % 0x100_0000
}

/// The row of a posting.
pub open spec fn word_row(w: u64) -> int {
    w as int % 0x1_0000_0000
}

/// A posting's number tells its attribute, its value and its row.
pub proof fn lemma_word(f: int, i: int, row: int)
    requires
        0 <= f < ATTRS,
        0 <= i < attr_card(f),
        0 <= row < 0x1_0000_0000,
    ensures
        0 <= word_of(f, i, row) <= u64::MAX,
        word_attr(word_of(f, i, row) as u64) == f,
        word_value(word_of(f, i, row) as u64) == i,
        word_row(word_of(f, i, row) as u64) == row,
        is_word(word_of(f, i, row) as u64),
{
}

/// The postings of all rows, in the order of the rows: what value of each
/// attribute a row carries is in `picks`, attribute by attribute.
pub open spec fn words_of(picks: Seq<usize>) -> Seq<u64> {
    Seq::new(
        picks.len(),
        |k: int| word_of(k % ATTRS as int, picks[k] as int, k / ATTRS as int) as u64,
    )
}

/// Whether picks tell a value of each attribute, row by row.
pub open spec fn valid_picks(picks: Seq<usize>) -> bool {
    &&& picks.len() < ATTRS * 0x1_0000_0000
    &&& forall|k: int|
        0 <= k < picks.len() ==> (#[trigger] picks[k]) < attr_card(k % ATTRS as int)
}

/// The postings in the order of attribute, value and row.
pub fn sorted_pairs(picks: &[usize]) -> (pairs: Vec<u64>)
    requires
        valid_picks(picks@),
    ensures
        in_order(pairs@),
        pairs@.to_multiset() == words_of(picks@).to_multiset(),
        pairs@.len() == picks@.len(),
        forall|k: int| 0 <= k < pairs@.len() ==> is_word(#[trigger] pairs@[k]),
{
    let mut words: Vec<u64> = Vec::new();
    let mut k: usize = 0;
    let mut f: usize = 0;
    let mut row: u64 = 0;
    while k < picks.len()
        invariant
            k <= picks@.len(),
            valid_picks(picks@),
            f < ATTRS,
            k == row * ATTRS + f,
            words@ =~= words_of(picks@).take(k as int),
            forall|j: int| 0 <= j < words@.len() ==> is_word(#[trigger] words@[j]),
        decreases picks.len() - k,
    {
        proof {
            assert(k as int % ATTRS as int == f && k as int / ATTRS as int == row);
            assert(picks@[k as int] < attr_card(k as int % ATTRS as int));
            lemma_word(f as int, picks@[k as int] as int, row as int);
        }
        let w: u64 = f as u64 * 0x100_0000_0000_0000 + picks[k] as u64 * 0x1_0000_0000 + row;
        words.push(w);
        k = k + 1;
        f = f + 1;
        if f == ATTRS {
            f = 0;
            row = row + 1;
        }
    }
    proof {
        assert(words@ =~= words_of(picks@));
    }
    let pairs: Vec<u64> = sorted(&words);
    proof {
        assert forall|k: int| 0 <= k < pairs@.len() implies is_word(#[trigger] pairs@[k]) by {
            assert(pairs@.contains(pairs@[k]));
            crate::sort::lemma_same_values(pairs@, words@, pairs@[k]);
            let j = choose|j: int| 0 <= j < words@.len() && words@[j] == pairs@[k];
            assert(is_word(words@[j]));
        }
    }
    pairs
}

/// A term with the rows that carry it.
pub struct Term {
    /// The term.
    pub key: Vec<u8>,
    /// The rows, in order.
    pub rows: Vec<u32>,
}

/// A term with its rows, as they are meant.
pub ghost struct TermRows {
    pub key: Seq<u8>,
    pub rows: Seq<u32>,
}

/// What terms stand for.
pub open spec fn term_rows(terms: Seq<Term>) -> Seq<TermRows> {
    terms.map_values(|t: Term| TermRows { key: t.key@, rows: t.rows@ })
}

/// The head of a posting: its attribute and its value.
pub open spec fn word_head(w: u64) -> int {
    w as int / 0x1_0000_0000
}

/// The term of a posting.
pub open spec fn word_term(w: u64) -> Seq<u8> {
    term_of(attr_name(word_attr(w)), word_value(w) as nat)
}

/// Postings grouped: those with the same head as the one before go with it.
pub open spec fn grouped(words: Seq<u64>) -> Seq<TermRows>
    decreases words.len(),
{
    if words.len() == 0 {
        Seq::empty()
    } else {
        let front = grouped(words.drop_last());
        let w = words.last();
        let row = word_row(w) as u32;
        if words.len() > 1 && word_head(words[words.len() - 2]) == word_head(w) {
            front.update(
                front.len() - 1,
                TermRows { key: front.last().key, rows: front.last().rows.push(row) },
            )
        } else {
            front.push(TermRows { key: word_term(w), rows: seq![row] })
        }
    }
}

/// There is a group as soon as there is a posting, and the last group is the
/// last posting's.
proof fn lemma_grouped_last(words: Seq<u64>)
    requires
        words.len() > 0,
    ensures
        grouped(words).len() > 0,
        grouped(words).last().key == word_term(words.last()),
        grouped(words).last().rows.len() > 0,
    decreases words.len(),
{
    if words.len() > 1 {
        let t = words.drop_last();
        lemma_grouped_last(t);
        if word_head(t.last()) == word_head(words.last()) {
            let (a, b) = (t.last(), words.last());
            assert(word_attr(a) == word_head(a) / 0x100_0000);
            assert(word_attr(b) == word_head(b) / 0x100_0000);
        }
    }
}

/// Whether a term has a row among the groups.
pub open spec fn has_posting(groups: Seq<TermRows>, key: Seq<u8>, row: int) -> bool {
    exists|g: int|
        0 <= g < groups.len() && (#[trigger] groups[g]).key == key && exists|j: int|
            0 <= j < groups[g].rows.len() && #[trigger] groups[g].rows[j] == row
}

/// Grouping loses no posting and makes none up: a term has a row exactly if some word is
/// of that term and that row.
pub proof fn lemma_every_posting_is_grouped(words: Seq<u64>, key: Seq<u8>, row: int)
    ensures
        has_posting(grouped(words), key, row) <==> exists|k: int|
            0 <= k < words.len() && word_term(#[trigger] words[k]) == key && word_row(words[k])
                == row,
    decreases words.len(),
{
    if words.len() > 0 {
        let t = words.drop_last();
        let w = words.last();
        let front = grouped(t);
        let all = grouped(words);
        lemma_every_posting_is_grouped(t, key, row);
        lemma_grouped_last(words);
        let own = word_term(w) == key && word_row(w) == row;
        assert((exists|k: int|
            0 <= k < words.len() && word_term(#[trigger] words[k]) == key && word_row(words[k])
                == row) <==> own || exists|k: int|
            0 <= k < t.len() && word_term(#[trigger] t[k]) == key && word_row(t[k]) == row) by {
            if own {
                assert(words[words.len() - 1] == w);
            }
            if exists|k: int|
                0 <= k < t.len() && word_term(#[trigger] t[k]) == key && word_row(t[k]) == row {
                let k = choose|k: int|
                    0 <= k < t.len() && word_term(#[trigger] t[k]) == key && word_row(t[k]) == row;
                assert(words[k] == t[k]);
            }
            if exists|k: int|
                0 <= k < words.len() && word_term(#[trigger] words[k]) == key && word_row(words[k])
                    == row {
                let k = choose|k: int|
                    0 <= k < words.len() && word_term(#[trigger] words[k]) == key && word_row(
                        words[k],
                    ) == row;
                if k < t.len() {
                    assert(t[k] == words[k]);
                }
            }
        }
        let joins = words.len() > 1 && word_head(words[words.len() - 2]) == word_head(w);
        if joins {
            lemma_grouped_last(t);
        }
        let last = all.len() - 1;
        assert(own ==> has_posting(all, key, row)) by {
            if own {
                let rows = all[last].rows;
                assert(rows[rows.len() - 1] == row);
            }
        }
        assert(has_posting(front, key, row) ==> has_posting(all, key, row)) by {
            if has_posting(front, key, row) {
                let g = choose|g: int|
                    0 <= g < front.len() && (#[trigger] front[g]).key == key && exists|j: int|
                        0 <= j < front[g].rows.len() && #[trigger] front[g].rows[j] == row;
                let j = choose|j: int|
                    0 <= j < front[g].rows.len() && #[trigger] front[g].rows[j] == row;
                assert(all[g].rows[j] == row);
                assert(all[g].key == key);
            }
        }
        assert(has_posting(all, key, row) ==> own || has_posting(front, key, row)) by {
            if has_posting(all, key, row) {
                let g = choose|g: int|
                    0 <= g < all.len() && (#[trigger] all[g]).key == key && exists|j: int|
                        0 <= j < all[g].rows.len() && #[trigger] all[g].rows[j] == row;
                let j = choose|j: int|
                    0 <= j < all[g].rows.len() && #[trigger] all[g].rows[j] == row;
                if g < last || (joins && j < front[g].rows.len()) {
                    assert(front[g].rows[j] == row);
                    assert(front[g].key == key);
                }
            }
        }
    }
}

/// The rows of a term come in ascending order where the words are in order.
pub proof fn lemma_rows_ascend(words: Seq<u64>, g: int, i: int, j: int)
    requires
        in_order(words),
        0 <= g < grouped(words).len(),
        0 <= i <= j < grouped(words)[g].rows.len(),
    ensures
        grouped(words)[g].rows[i] <= grouped(words)[g].rows[j],
    decreases words.len(),
{
    if words.len() > 0 {
        let t = words.drop_last();
        let w = words.last();
        let front = grouped(t);
        assert(in_order(t));
        if words.len() > 1 && word_head(words[words.len() - 2]) == word_head(w) {
            lemma_grouped_last(t);
            lemma_last_row(t);
            if j < front[g].rows.len() {
                lemma_rows_ascend(t, g, i, j);
            } else if i < front[g].rows.len() {
                lemma_rows_ascend(t, g, i, front[g].rows.len() - 1);
                assert(t.last() <= w);
            }
        } else if g < front.len() {
            lemma_rows_ascend(t, g, i, j);
        }
    }
}

/// The last row of all is the last word's.
proof fn lemma_last_row(words: Seq<u64>)
    requires
        words.len() > 0,
    ensures
        grouped(words).len() > 0,
        grouped(words).last().rows.len() > 0,
        grouped(words).last().rows.last() == word_row(words.last()),
{
    lemma_grouped_last(words);
    if words.len() > 1 {
        lemma_grouped_last(words.drop_last());
    }
}

/// Every row has a word for each of the attributes, with the value that was picked for it:
/// the picks come row by row, seven to a row.
pub proof fn lemma_words_come_by_rows(picks: Seq<usize>, row: int, f: int)
    requires
        valid_picks(picks),
        0 <= row,
        0 <= f < 7,
        row * 7 + f < picks.len(),
    ensures
        ({
            let w = words_of(picks)[row * 7 + f];
            &&& word_row(w) == row
            &&& word_attr(w) == f
            &&& word_value(w) == picks[row * 7 + f]
            &&& word_term(w) == term_of(attr_name(f), picks[row * 7 + f] as nat)
        }),
{
    let k = row * 7 + f;
    assert(k / 7 == row && k % 7 == f);
    assert(picks[k] < attr_card(k % ATTRS as int));
    lemma_word(f, picks[k] as int, row);
}

/// Groups postings that are in order by their terms.
pub fn group_terms(pairs: &Vec<u64>) -> (terms: Vec<Term>)
    requires
        forall|k: int| 0 <= k < pairs@.len() ==> is_word(#[trigger] pairs@[k]),
    ensures
        term_rows(terms@) == grouped(pairs@),
{
    let mut terms: Vec<Term> = Vec::new();
    let mut k: usize = 0;
    proof {
        assert(pairs@.take(0) =~= Seq::<u64>::empty());
        assert(term_rows(terms@) =~= grouped(pairs@.take(0)));
    }
    while k < pairs.len()
        invariant
            k <= pairs@.len(),
            term_rows(terms@) == grouped(pairs@.take(k as int)),
            forall|j: int| 0 <= j < pairs@.len() ==> is_word(#[trigger] pairs@[j]),
        decreases pairs.len() - k,
    {
        let w: u64 = pairs[k];
        let ghost before = terms@;
        let ghost t = pairs@.take(k + 1);
        proof {
            assert(t.drop_last() =~= pairs@.take(k as int));
            assert(t.last() == w);
            assert(is_word(pairs@[k as int]));
            if k > 0 {
                assert(t[t.len() - 2] == pairs@[k - 1]);
                lemma_grouped_last(pairs@.take(k as int));
                assert(term_rows(before).len() == before.len());
            }
        }
        let head: u64 = w / 0x1_0000_0000;
        let row: u32 = (w % 0x1_0000_0000) as u32;
        let goes_on: bool = k > 0 && pairs[k - 1] / 0x1_0000_0000 == head;
        if goes_on {
            let n: usize = terms.len();
            terms[n - 1].rows.push(row);
            proof {
                let g = term_rows(before);
                assert(term_rows(terms@) =~= g.update(
                    g.len() - 1,
                    TermRows { key: g.last().key, rows: g.last().rows.push(row) },
                ));
            }
        } else {
            let f: usize = (head / 0x100_0000) as usize;
            let i: usize = (head % 0x100_0000) as usize;
            proof {
                assert(f == word_attr(w));
                assert(i == word_value(w));
            }
            let mut key: Vec<u8> = Vec::new();
            term(attr(f).0, i, &mut key);
            let mut rows: Vec<u32> = Vec::new();
            rows.push(row);
            let ghost one = TermRows { key: key@, rows: rows@ };
            terms.push(Term { key, rows });
            proof {
                assert(one.rows =~= seq![row]);
                assert(term_rows(terms@) =~= term_rows(before).push(one));
            }
        }
        k = k + 1;
    }
    proof {
        assert(pairs@.take(k as int) =~= pairs@);
    }
    terms
}

/// The terms of a grouping.
pub open spec fn group_keys(groups: Seq<TermRows>) -> Seq<Seq<u8>> {
    groups.map_values(|g: TermRows| g.key)
}

/// The term of a posting comes before that of one with a higher head.
proof fn lemma_head_order(a: u64, b: u64)
    requires
        is_word(a),
        is_word(b),
        word_head(a) < word_head(b),
    ensures
        bytes_lt(word_term(a), word_term(b)),
{
    assert(word_attr(a) == word_head(a) / 0x100_0000);
    assert(word_attr(b) == word_head(b) / 0x100_0000);
    if word_attr(a) < word_attr(b) {
        lemma_attr_order(
            word_attr(a),
            word_attr(b),
            word_value(a) as nat,
            word_value(b) as nat,
        );
    } else {
        lemma_term_order(attr_name(word_attr(a)), word_value(a) as nat, word_value(b) as nat);
    }
}

/// Of postings that are in order the terms come out in byte order, each once,
/// as the writer takes them.
pub proof fn lemma_terms_sorted(words: Seq<u64>)
    requires
        in_order(words),
        forall|k: int| 0 <= k < words.len() ==> is_word(#[trigger] words[k]),
    ensures
        strictly_sorted(group_keys(grouped(words))),
    decreases words.len(),
{
    if words.len() > 0 {
        let t = words.drop_last();
        assert(in_order(t)) by {
            assert forall|i: int, j: int| 0 <= i < j < t.len() implies (
            #[trigger] t[i]).not_after(#[trigger] t[j]) by {
                assert(t[i] == words[i] && t[j] == words[j]);
            }
        }
        assert forall|k: int| 0 <= k < t.len() implies is_word(#[trigger] t[k]) by {
            assert(t[k] == words[k]);
        }
        lemma_terms_sorted(t);
        let (g, h) = (grouped(words), grouped(t));
        let (gk, hk) = (group_keys(g), group_keys(h));
        if t.len() > 0 {
            lemma_grouped_last(t);
            assert(words[t.len() - 1].not_after(words[t.len() as int]));
            assert(is_word(words[t.len() - 1]) && is_word(words[t.len() as int]));
            if word_head(t.last()) == word_head(words.last()) {
                assert(gk =~= hk);
            } else {
                assert(word_head(t.last()) < word_head(words.last()));
                lemma_head_order(t.last(), words.last());
                assert(gk =~= hk.push(word_term(words.last())));
                assert forall|i: int, j: int| 0 <= i < j < gk.len() implies bytes_lt(
                    #[trigger] gk[i],
                    #[trigger] gk[j],
                ) by {
                    if j == hk.len() {
                        assert(hk[hk.len() - 1] == word_term(t.last()));
                        if i < hk.len() - 1 {
                            assert(bytes_lt(hk[i], hk[hk.len() - 1]));
                            crate::bytes::lemma_order_transitive(
                                hk[i],
                                hk[hk.len() - 1],
                                gk[j],
                            );
                        }
                    } else {
                        assert(hk[i] == gk[i] && hk[j] == gk[j]);
                    }
                }
            }
        } else {
            assert(gk.len() == 1);
        }
    }
}

/// How many postings the groups hold.
pub open spec fn posting_count(groups: Seq<TermRows>) -> nat
    decreases groups.len(),
{
    if groups.len() == 0 {
        0
    } else {
        posting_count(groups.drop_last()) + groups.last().rows.len()
    }
}

/// Grouping loses no posting and adds none.
pub proof fn lemma_grouping_keeps_count(words: Seq<u64>)
    ensures
        posting_count(grouped(words)) == words.len(),
    decreases words.len(),
{
    if words.len() > 0 {
        let t = words.drop_last();
        lemma_grouping_keeps_count(t);
        let (g, h) = (grouped(words), grouped(t));
        if t.len() > 0 {
            lemma_grouped_last(t);
        }
        if words.len() > 1 && word_head(words[words.len() - 2]) == word_head(words.last()) {
            assert(g.drop_last() =~= h.drop_last());
        } else {
            assert(g.drop_last() =~= h);
        }
    }
}

/// What is stored for a term's rows: the rows, or the distance of each from the
/// one before.
pub open spec fn stored_rows(rows: Seq<u32>, deltas: bool) -> Seq<u32> {
    Seq::new(
        rows.len(),
        |i: int|
            if !deltas {
                rows[i]
            } else if i == 0 {
                rows[i]
            } else {
                rows[i].wrapping_sub(rows[i - 1])
            },
    )
}

/// What is stored for a term's rows, posting by posting.
pub fn postings(rows: &[u32], deltas: bool) -> (out: Vec<Vec<u8>>)
    ensures
        out@.len() == rows@.len(),
        forall|i: int|
            0 <= i < out@.len() ==> (#[trigger] out@[i])@ == le_bytes(
                stored_rows(rows@, deltas)[i] as nat,
                4,
            ),
{
    let mut out: Vec<Vec<u8>> = Vec::new();
    let mut prev: u32 = 0;
    let mut i: usize = 0;
    while i < rows.len()
        invariant
            i <= rows@.len(),
            out@.len() == i,
            prev == if i == 0 {
                0u32
            } else {
                rows@[i - 1]
            },
            forall|j: int|
                0 <= j < i ==> (#[trigger] out@[j])@ == le_bytes(
                    stored_rows(rows@, deltas)[j] as nat,
                    4,
                ),
        decreases rows.len() - i,
    {
        let row: u32 = rows[i];
        let v: u32 = if deltas {
            row.wrapping_sub(prev)
        } else {
            row
        };
        prev = row;
        let mut one: Vec<u8> = Vec::new();
        push_le32(&mut one, v);
        proof {
            assert(one@ =~= le_bytes(v as nat, 4));
        }
        out.push(one);
        i = i + 1;
    }
    out
}

/// The rows that distances stand for, added up.
pub open spec fn rows_from(deltas: Seq<u32>) -> Seq<u32>
    decreases deltas.len(),
{
    if deltas.len() == 0 {
        Seq::empty()
    } else {
        let front = rows_from(deltas.drop_last());
        let prev = if front.len() == 0 {
            0u32
        } else {
            front.last()
        };
        front.push(prev.wrapping_add(deltas.last()))
    }
}

/// Distances add up to the rows that they were taken of.
pub proof fn lemma_deltas_round_trip(rows: Seq<u32>)
    ensures
        rows_from(stored_rows(rows, true)) == rows,
    decreases rows.len(),
{
    if rows.len() == 0 {
        assert(rows_from(stored_rows(rows, true)) =~= rows);
    } else {
        let t = rows.drop_last();
        lemma_deltas_round_trip(t);
        let s = stored_rows(rows, true);
        assert(s.drop_last() =~= stored_rows(t, true));
        let prev = if t.len() == 0 {
            0u32
        } else {
            t.last()
        };
        assert(s.last() == rows.last().wrapping_sub(prev));
        assert(prev.wrapping_add(rows.last().wrapping_sub(prev)) == rows.last());
        assert(rows_from(s) =~= rows);
    }
}

// ---------------------------------------------------------------- segments --

/// What is stored of ascending rows: the rows themselves, or the first and then how far
/// each lies behind the one before it.
pub proof fn lemma_stored_rows(rows: Seq<u32>, i: int)
    requires
        0 <= i < rows.len(),
    ensures
        stored_rows(rows, false) == rows,
        stored_rows(rows, true)[0] == rows[0],
        i > 0 && rows[i - 1] <= rows[i] ==> stored_rows(rows, true)[i] == rows[i] - rows[i - 1],
{
    assert(stored_rows(rows, false) =~= rows);
}

/// One step of the thirty-two-bit xorshift.
pub open spec fn xorshift32(x: u32) -> u32 {
    let a = x ^ (x << 13);
    let b = a ^ (a >> 17);
    b ^ (b << 5)
}

/// `n` bytes drawn from a generator that holds `x`.
pub open spec fn drawn_bytes(x: u32, n: nat) -> Seq<u8>
    decreases n,
{
    if n == 0 {
        Seq::empty()
    } else {
        let y = xorshift32(x);
        seq![(y % 256) as u8] + drawn_bytes(y, (n - 1) as nat)
    }
}

/// What the generator of a segment's value starts from.
pub open spec fn value_seed(key: Seq<u8>, ord: u32) -> u32 {
    fnv32_of(FNV32_START, key) ^ ord.wrapping_mul(0x9E37_79B9)
}

/// A segment's value: its ordinal, then bytes drawn for the key and it.
pub open spec fn seg_value_of(key: Seq<u8>, ord: u32) -> Seq<u8> {
    le_bytes(ord as nat, 4) + drawn_bytes(value_seed(key, ord), 60)
}

/// Writes a segment's value.
pub fn seg_value(key: &[u8], ord: u32, out: &mut [u8; 64])
    ensures
        final(out)@ == seg_value_of(key@, ord),
{
    let mut head: Vec<u8> = Vec::new();
    push_le32(&mut head, ord);
    let mut x: u32 = fnv32(FNV32_START, key) ^ ord.wrapping_mul(0x9E37_79B9);
    let ghost seed = x;
    let mut i: usize = 0;
    proof {
        crate::bytes::lemma_le32(ord);
        assert(head@ =~= le_bytes(ord as nat, 4));
    }
    while i < 4
        invariant
            i <= 4,
            head@.len() == 4,
            forall|j: int| 0 <= j < i ==> out@[j] == head@[j],
        decreases 4 - i,
    {
        out[i] = head[i];
        i = i + 1;
    }
    let mut n: usize = 4;
    proof {
        assert(out@.take(4) + drawn_bytes(x, 60) =~= seg_value_of(key@, ord));
    }
    while n < 64
        invariant
            4 <= n <= 64,
            out@.take(n as int) + drawn_bytes(x, (64 - n) as nat) == seg_value_of(key@, ord),
        decreases 64 - n,
    {
        let ghost before = out@;
        let ghost x0 = x;
        x = x ^ (x << 13);
        x = x ^ (x >> 17);
        x = x ^ (x << 5);
        let b: u8 = (x % 256) as u8;
        out[n] = b;
        proof {
            let rest = drawn_bytes(x, (64 - n - 1) as nat);
            assert(drawn_bytes(x0, (64 - n) as nat) == seq![b] + rest);
            assert(out@.take(n + 1) + rest =~= before.take(n as int) + (seq![b] + rest));
        }
        n = n + 1;
    }
    proof {
        assert(out@.take(64) + drawn_bytes(x, 0) =~= out@);
    }
}

/// A value is sixty-four bytes and starts with its number, so that values of one key are
/// all different; the draws behind it never run together.
pub proof fn lemma_seg_value_names_itself(key: Seq<u8>, ord: u32, other: u32)
    ensures
        seg_value_of(key, ord).len() == 64,
        le_value(seg_value_of(key, ord).take(4)) == ord,
        seg_value_of(key, ord)[4] == xorshift32(value_seed(key, ord)) % 256,
        seg_value_of(key, ord) == seg_value_of(key, other) ==> ord == other,
        xorshift32(ord) == xorshift32(other) ==> ord == other,
{
    lemma_drawn_len(value_seed(key, ord), 60);
    lemma_drawn_len(value_seed(key, other), 60);
    crate::bytes::lemma_le32(ord);
    crate::bytes::lemma_le32(other);
    assert(seg_value_of(key, ord).take(4) =~= le_bytes(ord as nat, 4));
    assert(seg_value_of(key, other).take(4) =~= le_bytes(other as nat, 4));
    assert(xorshift32(ord) == xorshift32(other) ==> ord == other) by (bit_vector);
}

/// As many bytes are drawn as are asked for.
proof fn lemma_drawn_len(x: u32, n: nat)
    ensures
        drawn_bytes(x, n).len() == n,
    decreases n,
{
    if n > 0 {
        lemma_drawn_len(xorshift32(x), (n - 1) as nat);
    }
}

/// What is drawn first is drawn whatever is drawn behind it: the bytes go on where the
/// earlier ones stopped.
pub proof fn lemma_draws_go_on(x: u32, a: nat, b: nat)
    requires
        a <= b,
    ensures
        drawn_bytes(x, b).len() == b,
        drawn_bytes(x, b).take(a as int) == drawn_bytes(x, a),
    decreases a,
{
    lemma_drawn_len(x, b);
    lemma_drawn_len(x, a);
    if a > 0 {
        let y = xorshift32(x);
        lemma_draws_go_on(y, (a - 1) as nat, (b - 1) as nat);
        let (long, short) = (drawn_bytes(y, (b - 1) as nat), drawn_bytes(y, (a - 1) as nat));
        assert forall|i: int| 0 <= i < a implies drawn_bytes(x, b)[i] == drawn_bytes(x, a)[i] by {
            if i > 0 {
                assert(long.take(a - 1)[i - 1] == short[i - 1]);
            }
        }
        assert(drawn_bytes(x, b).take(a as int) =~= drawn_bytes(x, a));
    } else {
        assert(drawn_bytes(x, b).take(a as int) =~= drawn_bytes(x, a));
    }
}

/// A term of a segment with the stride of its attribute.
pub struct SegTerm {
    /// The term.
    pub key: Vec<u8>,
    /// How many values the attribute has.
    pub card: usize,
    /// The value.
    pub value: usize,
}

/// The terms of a segment.
pub open spec fn seg_keys(terms: Seq<SegTerm>) -> Seq<Seq<u8>> {
    terms.map_values(|t: SegTerm| t.key@)
}

/// Whether a term is that of attribute `f`.
pub open spec fn is_seg_term(t: SegTerm, f: int) -> bool {
    &&& 0 <= f < SEG_ATTRS
    &&& t.card == seg_card(f)
    &&& t.value < t.card
    &&& t.key@ == term_of(seg_name(f), t.value as nat)
}

/// How many terms come before those of attribute `f`.
pub open spec fn terms_before(f: int) -> int {
    if f <= 0 {
        0
    } else if f == 1 {
        8
    } else if f == 2 {
        14
    } else if f == 3 {
        44
    } else {
        104
    }
}

/// The attribute of the term at a place.
pub open spec fn attr_at(k: int) -> int {
    if k < 8 {
        0
    } else if k < 14 {
        1
    } else if k < 44 {
        2
    } else {
        3
    }
}

/// Every term of a segment, in byte order.
pub fn segment_terms() -> (terms: Vec<SegTerm>)
    ensures
        terms@.len() == 104,
        forall|k: int|
            0 <= k < 104 ==> is_seg_term(#[trigger] terms@[k], attr_at(k)) && terms@[k].value == k
                - terms_before(attr_at(k)),
        strictly_sorted(seg_keys(terms@)),
{
    let mut terms: Vec<SegTerm> = Vec::new();
    let mut f: usize = 0;
    while f < SEG_ATTRS
        invariant
            f <= SEG_ATTRS,
            terms@.len() == terms_before(f as int),
            forall|k: int|
                0 <= k < terms@.len() ==> is_seg_term(#[trigger] terms@[k], attr_at(k))
                    && terms@[k].value == k - terms_before(attr_at(k)),
        decreases SEG_ATTRS - f,
    {
        let (name, card): (&str, usize) = seg_attr(f);
        let mut v: usize = 0;
        while v < card
            invariant
                f < SEG_ATTRS,
                v <= card,
                name@ == seg_name(f as int),
                card == seg_card(f as int),
                terms@.len() == terms_before(f as int) + v,
                forall|k: int|
                    0 <= k < terms@.len() ==> is_seg_term(#[trigger] terms@[k], attr_at(k))
                        && terms@[k].value == k - terms_before(attr_at(k)),
            decreases card - v,
        {
            let mut key: Vec<u8> = Vec::new();
            term(name, v, &mut key);
            terms.push(SegTerm { key, card, value: v });
            v = v + 1;
        }
        f = f + 1;
    }
    proof {
        let keys = seg_keys(terms@);
        assert forall|i: int, j: int| 0 <= i < j < keys.len() implies bytes_lt(
            #[trigger] keys[i],
            #[trigger] keys[j],
        ) by {
            assert(is_seg_term(terms@[i], attr_at(i)) && is_seg_term(terms@[j], attr_at(j)));
            if attr_at(i) == attr_at(j) {
                lemma_term_order(
                    seg_name(attr_at(i)),
                    terms@[i].value as nat,
                    terms@[j].value as nat,
                );
            } else {
                lemma_seg_attr_order(
                    attr_at(i),
                    attr_at(j),
                    terms@[i].value as nat,
                    terms@[j].value as nat,
                );
            }
        }
    }
    terms
}

/// The events that carry value `v` of an attribute with `card` values: every
/// `card`th one from `v` on, below `events`.
pub open spec fn carries(e: int, v: int, card: int, events: int) -> bool {
    0 <= e < events && e % card == v
}

/// The events that carry a value, in order.
pub fn segment_events(v: usize, card: usize, events: u64) -> (out: Vec<u64>)
    requires
        v < card,
        events + card <= u64::MAX,
    ensures
        forall|k: int| 0 <= k < out@.len() ==> #[trigger] out@[k] == v + k * card,
        forall|e: u64|
            carries(e as int, v as int, card as int, events as int) <==> #[trigger] out@.contains(e),
{
    let mut out: Vec<u64> = Vec::new();
    let mut e: u64 = v as u64;
    proof {
        assert(0 * card == 0) by (nonlinear_arith);
    }
    while e < events
        invariant
            v < card,
            events + card <= u64::MAX,
            e == v + out@.len() * card,
            forall|k: int| 0 <= k < out@.len() ==> #[trigger] out@[k] == v + k * card,
            forall|k: int| 0 <= k < out@.len() ==> #[trigger] out@[k] < events,
        decreases events + card - e,
    {
        out.push(e);
        proof {
            let n = out@.len() as int;
            assert(n * card == (n - 1) * card + card) by (nonlinear_arith);
        }
        e = e + card as u64;
    }
    proof {
        let n = out@.len() as int;
        assert forall|x: u64|
            carries(x as int, v as int, card as int, events as int) <==> #[trigger]
            out@.contains(x) by {
            if out@.contains(x) {
                let k = choose|k: int| 0 <= k < out@.len() && out@[k] == x;
                assert(card * k == k * card) by (nonlinear_arith);
                vstd::arithmetic::div_mod::lemma_fundamental_div_mod_converse(
                    x as int,
                    card as int,
                    k,
                    v as int,
                );
            }
            if carries(x as int, v as int, card as int, events as int) {
                let k = x as int / card as int;
                vstd::arithmetic::div_mod::lemma_fundamental_div_mod(x as int, card as int);
                vstd::arithmetic::div_mod::lemma_div_pos_is_pos(x as int, card as int);
                assert(card * k == k * card) by (nonlinear_arith);
                if k >= n {
                    assert(k * card >= n * card) by (nonlinear_arith)
                        requires
                            k >= n,
                            card > 0,
                    ;
                }
                assert(out@[k] == x);
            }
        }
    }
    out
}

/// Every event carries exactly one value of an attribute.
pub proof fn lemma_event_has_one_value(e: int, card: int, events: int, v: int)
    requires
        0 <= e < events,
        card > 0,
        0 <= v < card,
    ensures
        carries(e, e % card, card, events),
        0 <= e % card < card,
        carries(e, v, card, events) ==> v == e % card,
{
    vstd::arithmetic::div_mod::lemma_mod_bound(e, card);
}

/// The ranks that are asked for, of a dictionary of `keys` keys.
pub open spec fn probe_ranks_of(keys: int) -> Seq<usize> {
    let base = seq![0usize, 10, 25, 50, 75, 100].filter(|r: usize| r < keys);
    if keys <= 0 || (base.len() > 0 && base.last() == keys - 1) {
        base
    } else {
        base.push((keys - 1) as usize)
    }
}

/// Ranks across the dictionary of a segment, and its last one.
pub fn seg_probe_ranks(keys: usize) -> (out: Vec<usize>)
    ensures
        out@ == probe_ranks_of(keys as int),
        forall|i: int| 0 <= i < out@.len() ==> #[trigger] out@[i] < keys,
{
    let all: [usize; 6] = [0, 10, 25, 50, 75, 100];
    let mut out: Vec<usize> = Vec::new();
    let ghost keep = |r: usize| r < keys as int;
    let ghost whole = seq![0usize, 10, 25, 50, 75, 100];
    let mut i: usize = 0;
    proof {
        reveal(Seq::filter);
        assert(whole.take(0) =~= Seq::<usize>::empty());
    }
    while i < 6
        invariant
            i <= 6,
            keep == (|r: usize| r < keys as int),
            whole == seq![0usize, 10, 25, 50, 75, 100],
            all@ =~= whole,
            out@ == whole.take(i as int).filter(keep),
            forall|k: int| 0 <= k < out@.len() ==> #[trigger] out@[k] < keys,
        decreases 6 - i,
    {
        proof {
            reveal(Seq::filter);
            assert(whole.take(i + 1).drop_last() =~= whole.take(i as int));
        }
        let r: usize = all[i];
        if r < keys {
            out.push(r);
        }
        i = i + 1;
    }
    proof {
        assert(whole.take(6) =~= whole);
    }
    if keys > 0 {
        let n: usize = out.len();
        if n == 0 || out[n - 1] != keys - 1 {
            out.push(keys - 1);
        }
    }
    out
}

/// What is kept of an ascending list ascends, and holds what the list holds and the test
/// passes.
proof fn lemma_kept_ascend(all: Seq<usize>, keys: int)
    requires
        forall|i: int, j: int| 0 <= i < j < all.len() ==> all[i] < all[j],
    ensures
        ({
            let kept = all.filter(|r: usize| r < keys);
            &&& forall|i: int, j: int| 0 <= i < j < kept.len() ==> kept[i] < kept[j]
            &&& forall|r: usize| #[trigger] kept.contains(r) <==> all.contains(r) && r < keys
            &&& kept.len() > 0 ==> kept.last() <= all.last()
        }),
    decreases all.len(),
{
    reveal(Seq::filter);
    let test = |r: usize| r < keys;
    let kept = all.filter(test);
    if all.len() > 0 {
        let t = all.drop_last();
        lemma_kept_ascend(t, keys);
        let before = t.filter(test);
        assert(all.contains(all.last()));
        assert forall|r: usize| #[trigger] kept.contains(r) <==> all.contains(r) && r < keys by {
            assert(before.contains(r) <==> t.contains(r) && r < keys);
            if kept.contains(r) {
                let i = choose|i: int| 0 <= i < kept.len() && kept[i] == r;
                if i < before.len() {
                    assert(before[i] == r);
                    let k = choose|k: int| 0 <= k < t.len() && t[k] == r;
                    assert(all[k] == r);
                }
            }
            if all.contains(r) && r < keys {
                let k = choose|k: int| 0 <= k < all.len() && all[k] == r;
                if k < t.len() {
                    assert(t[k] == r);
                    let i = choose|i: int| 0 <= i < before.len() && before[i] == r;
                    assert(kept[i] == r);
                } else {
                    assert(kept[kept.len() - 1] == r);
                }
            }
        }
        if before.len() > 0 {
            assert(t.last() < all.last());
        }
    }
}

/// The ranks that are probed: of every set the ends, and the five in between as far as
/// there are so many keys, each once and in ascending order.
pub proof fn lemma_probe_ranks(keys: int, r: usize)
    requires
        0 < keys <= usize::MAX,
    ensures
        ({
            let ranks = probe_ranks_of(keys);
            &&& ranks.contains(r) <==> r < keys && (r == keys - 1 || r == 0 || r == 10 || r == 25
                || r == 50 || r == 75 || r == 100)
            &&& forall|i: int, j: int| 0 <= i < j < ranks.len() ==> ranks[i] < ranks[j]
        }),
{
    let all = seq![0usize, 10, 25, 50, 75, 100];
    let base = all.filter(|r: usize| r < keys);
    lemma_kept_ascend(all, keys);
    assert(all.contains(r) <==> r == 0 || r == 10 || r == 25 || r == 50 || r == 75 || r == 100) by {
        assert(all[0] == 0 && all[1] == 10 && all[2] == 25 && all[3] == 50 && all[4] == 75 && all[5]
            == 100);
    }
    assert(base.contains(r) <==> all.contains(r) && r < keys);
    let ranks = probe_ranks_of(keys);
    assert forall|i: int| 0 <= i < base.len() implies #[trigger] base[i] < keys by {
        assert(base.contains(base[i]));
    }
    if base.len() > 0 && base.last() == keys - 1 {
        assert(base[base.len() - 1] == keys - 1);
    } else {
        assert(ranks =~= base.push((keys - 1) as usize));
        assert(ranks[ranks.len() - 1] == keys - 1);
        if base.contains(r) {
            let i = choose|i: int| 0 <= i < base.len() && base[i] == r;
            assert(ranks[i] == r);
        }
        if ranks.contains(r) {
            let i = choose|i: int| 0 <= i < ranks.len() && ranks[i] == r;
            if i < base.len() {
                assert(base[i] == r);
            }
        }
    }
}

/// The terms of a segment lie one attribute behind the other: every attribute starts where
/// the one before it ends, and a term belongs to the attribute among whose terms it lies.
pub proof fn lemma_attributes_follow(f: int, k: int)
    requires
        0 <= f < 4,
        0 <= k < 104,
    ensures
        terms_before(0) == 0,
        terms_before(f + 1) == terms_before(f) + seg_card(f),
        terms_before(4) == 104,
        attr_at(k) == f <==> terms_before(f) <= k < terms_before(f + 1),
{
}

} // verus!
