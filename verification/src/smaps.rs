//! What the kernel says of a process's mappings: whether readahead is off on
//! those of a file.

use crate::bytes::{bytes_equal, key_seqs, to_owned};
use crate::digits::{digit_char, fixed_digits, lemma_digit_at, lemma_digits_len};
use crate::text::{behind_prefix, lines, lines_of, space_at, space_len, strip};
use vstd::prelude::*;
use vstd::slice::slice_subrange;
use vstd::utf8::encode_utf8;

verus! {

/// Where the first white space is; the length if nowhere.
pub open spec fn first_space(s: Seq<u8>) -> nat
    decreases s.len(),
{
    if s.len() == 0 || space_len(s) > 0 {
        0
    } else {
        1 + first_space(s.drop_first())
    }
}

/// The words of a text: what lies between white space.
pub open spec fn words_of(s: Seq<u8>) -> Seq<Seq<u8>>
    decreases s.len(),
{
    if s.len() == 0 {
        Seq::empty()
    } else if space_len(s) > 0 {
        words_of(s.skip(space_len(s) as int))
    } else {
        proof {
            lemma_first_space(s);
        }
        let p = first_space(s) as int;
        seq![s.take(p)] + words_of(s.skip(p))
    }
}

/// What is known of where the first white space is.
pub proof fn lemma_first_space(s: Seq<u8>)
    ensures
        first_space(s) <= s.len(),
        s.len() > 0 && space_len(s) == 0 ==> first_space(s) > 0,
        first_space(s) < s.len() ==> space_len(s.skip(first_space(s) as int)) > 0,
        forall|i: int| 0 <= i < first_space(s) ==> space_len(#[trigger] s.skip(i)) == 0,
    decreases s.len(),
{
    assert(s.skip(0) =~= s);
    if s.len() > 0 && space_len(s) == 0 {
        let t = s.drop_first();
        lemma_first_space(t);
        assert(t.skip(first_space(t) as int) =~= s.skip(first_space(s) as int));
        assert forall|i: int| 0 <= i < first_space(s) implies space_len(#[trigger] s.skip(i))
            == 0 by {
            if i > 0 {
                assert(t.skip(i - 1) =~= s.skip(i));
            }
        }
    }
}

/// Where nothing before is white space and this is, the first one is.
pub proof fn lemma_first_space_is(s: Seq<u8>, p: nat)
    requires
        p <= s.len(),
        forall|i: int| 0 <= i < p ==> space_len(#[trigger] s.skip(i)) == 0,
        p < s.len() ==> space_len(s.skip(p as int)) > 0,
    ensures
        first_space(s) == p,
{
    lemma_first_space(s);
    if first_space(s) < p {
        assert(space_len(s.skip(first_space(s) as int)) == 0);
    } else if p < first_space(s) {
        assert(space_len(s.skip(p as int)) > 0);
    }
}

/// The words of a text.
pub fn words(s: &[u8]) -> (out: Vec<Vec<u8>>)
    ensures
        key_seqs(out@) == words_of(s@),
{
    let mut out: Vec<Vec<u8>> = Vec::new();
    let n: usize = s.len();
    let mut at: usize = 0;
    proof {
        assert(s@.skip(0) =~= s@);
        assert(key_seqs(out@) + words_of(s@) =~= words_of(s@));
    }
    while at < n
        invariant
            at <= n,
            n == s@.len(),
            key_seqs(out@) + words_of(s@.skip(at as int)) == words_of(s@),
        decreases n - at,
    {
        let ghost rest = s@.skip(at as int);
        let k: usize = space_at(s, at);
        if k > 0 {
            proof {
                assert(rest.skip(k as int) =~= s@.skip(at + k));
            }
            at = at + k;
        } else {
            let mut p: usize = at + 1;
            while p < n && space_at(s, p) == 0
                invariant
                    at < p <= n,
                    n == s@.len(),
                    forall|i: int| at <= i < p ==> space_len(#[trigger] s@.skip(i)) == 0,
                decreases n - p,
            {
                p = p + 1;
            }
            let ghost before = key_seqs(out@);
            proof {
                assert forall|i: int| 0 <= i < p - at implies space_len(#[trigger] rest.skip(i))
                    == 0 by {
                    assert(rest.skip(i) =~= s@.skip(at + i));
                }
                assert(rest.skip(p - at) =~= s@.skip(p as int));
                lemma_first_space_is(rest, (p - at) as nat);
                assert(rest.take(p - at) =~= s@.subrange(at as int, p as int));
            }
            out.push(to_owned(slice_subrange(s, at, p)));
            proof {
                assert(key_seqs(out@) =~= before.push(s@.subrange(at as int, p as int)));
                assert(key_seqs(out@) + words_of(s@.skip(p as int)) =~= before + (seq![
                    s@.subrange(at as int, p as int),
                ] + words_of(s@.skip(p as int))));
            }
            at = p;
        }
    }
    proof {
        assert(s@.skip(at as int) =~= Seq::<u8>::empty());
        assert(key_seqs(out@) =~= words_of(s@));
    }
    out
}

/// A digit to the base sixteen.
pub open spec fn is_hex(b: u8) -> bool {
    (48 <= b <= 57) || (65 <= b <= 70) || (97 <= b <= 102)
}

/// Whether a word is a span of addresses: digits to the base sixteen and
/// hyphens, with at least one hyphen.
pub open spec fn is_span(w: Seq<u8>) -> bool {
    &&& w.contains(45)
    &&& forall|i: int| 0 <= i < w.len() ==> is_hex(#[trigger] w[i]) || w[i] == 45
}

/// Whether a line starts a mapping: its first word is a span of addresses.
pub open spec fn is_mapping(line: Seq<u8>) -> bool {
    words_of(line).len() > 0 && is_span(words_of(line)[0])
}

fn spans(w: &[u8]) -> (r: bool)
    ensures
        r == is_span(w@),
{
    let mut hyphen: bool = false;
    let mut i: usize = 0;
    while i < w.len()
        invariant
            i <= w@.len(),
            hyphen == exists|j: int| 0 <= j < i && w@[j] == 45,
            forall|j: int| 0 <= j < i ==> is_hex(#[trigger] w@[j]) || w@[j] == 45,
        decreases w.len() - i,
    {
        let b: u8 = w[i];
        if b == 45 {
            assert(w@[i as int] == 45);
            hyphen = true;
        } else if !((48 <= b && b <= 57) || (65 <= b && b <= 70) || (97 <= b && b <= 102)) {
            assert(!is_hex(w@[i as int]) && w@[i as int] != 45);
            return false;
        }
        i = i + 1;
    }
    proof {
        if w@.contains(45) {
            let j = choose|j: int| 0 <= j < w@.len() && w@[j] == 45;
            assert(0 <= j < i && w@[j] == 45);
        }
    }
    hyphen
}

/// Whether a text lies somewhere in another.
pub open spec fn holds(s: Seq<u8>, needle: Seq<u8>) -> bool {
    exists|i: int|
        0 <= i && i + needle.len() <= s.len() && #[trigger] s.subrange(i, i + needle.len())
            == needle
}

/// Whether a text lies somewhere in another.
pub fn holds_text(s: &[u8], needle: &[u8]) -> (r: bool)
    ensures
        r == holds(s@, needle@),
{
    if needle.len() > s.len() {
        return false;
    }
    let last: usize = s.len() - needle.len();
    let mut i: usize = 0;
    loop
        invariant
            i <= last,
            last + needle@.len() == s@.len(),
            needle@.len() <= s@.len(),
            s@.len() <= usize::MAX,
            forall|j: int|
                0 <= j < i ==> #[trigger] s@.subrange(j, j + needle@.len()) != needle@,
        decreases last - i,
    {
        if bytes_equal(slice_subrange(s, i, i + needle.len()), needle) {
            assert(s@.subrange(i as int, i + needle@.len()) == needle@);
            return true;
        }
        if i == last {
            proof {
                assert forall|j: int| 0 <= j && j + needle@.len() <= s@.len() implies #[trigger]
                s@.subrange(j, j + needle@.len()) != needle@ by {
                    if j == i {
                    }
                }
            }
            return false;
        }
        i = i + 1;
    }
}

/// What has been gathered after some lines.
pub ghost struct Gathered {
    /// Whether readahead is off, mapping by mapping.
    pub flags: Seq<bool>,
    /// Whether the mapping at hand is of the file.
    pub wanted: bool,
    /// Whether the kernel told any flags at all.
    pub told: bool,
}

/// Whether a line of flags tells that readahead is off.
pub open spec fn tells_random(rest: Seq<u8>) -> bool {
    words_of(rest).contains(encode_utf8("rr"@))
}

/// What has been gathered after some lines, of the mappings of a file.
pub open spec fn gather(lines: Seq<Seq<u8>>, needle: Seq<u8>) -> Gathered
    decreases lines.len(),
{
    if lines.len() == 0 {
        Gathered { flags: Seq::empty(), wanted: false, told: false }
    } else {
        let g = gather(lines.drop_last(), needle);
        let line = lines.last();
        match behind_prefix(line, encode_utf8("VmFlags:"@)) {
            Some(rest) => Gathered {
                flags: if g.wanted {
                    g.flags.push(tells_random(rest))
                } else {
                    g.flags
                },
                wanted: false,
                told: true,
            },
            None => if is_mapping(line) {
                Gathered { wanted: holds(line, needle), ..g }
            } else {
                g
            },
        }
    }
}

/// Words, one by one: white space before a word is skipped, and a word goes up to
/// the next white space or the end.
pub proof fn lemma_words_one_by_one(s: Seq<u8>, p: int)
    requires
        0 <= p <= s.len(),
        forall|i: int| 0 <= i < p ==> space_len(#[trigger] s.skip(i)) == 0,
        p < s.len() ==> space_len(s.skip(p)) > 0,
    ensures
        words_of(Seq::<u8>::empty()) == Seq::<Seq<u8>>::empty(),
        p > 0 ==> words_of(s) == seq![s.take(p)] + words_of(s.skip(p)),
        p == 0 && s.len() > 0 ==> words_of(s) == words_of(s.skip(space_len(s) as int)),
{
    lemma_first_space_is(s, p as nat);
    assert(s.skip(0) =~= s);
    if p > 0 {
        assert(space_len(s.skip(0)) == 0);
    }
}

/// What one mapping adds: where its first line names the file, the flags line says
/// by the word `rr` whether readahead is off for it. A mapping of another file adds
/// nothing, and neither do the lines in between.
pub proof fn lemma_mapping_adds_its_flag(
    before: Seq<Seq<u8>>,
    head: Seq<u8>,
    between: Seq<Seq<u8>>,
    flags: Seq<u8>,
    needle: Seq<u8>,
)
    requires
        is_mapping(head),
        behind_prefix(head, encode_utf8("VmFlags:"@)) is None,
        forall|i: int|
            0 <= i < between.len() ==> !is_mapping(#[trigger] between[i]) && behind_prefix(
                between[i],
                encode_utf8("VmFlags:"@),
            ) is None,
    ensures
        ({
            let line = encode_utf8("VmFlags:"@) + flags;
            let g = gather(before, needle);
            let now = gather(before + seq![head] + between + seq![line], needle);
            &&& now.told
            &&& !now.wanted
            &&& holds(head, needle) ==> now.flags == g.flags.push(
                words_of(flags).contains(encode_utf8("rr"@)),
            )
            &&& !holds(head, needle) ==> now.flags == g.flags
        }),
    decreases between.len(),
{
    let name = encode_utf8("VmFlags:"@);
    let line = name + flags;
    let opened = before + seq![head];
    assert(opened.drop_last() =~= before);
    lemma_between_adds_nothing(opened, between, needle);
    let all = opened + between + seq![line];
    assert(all.drop_last() =~= opened + between);
    assert(line.take(name.len() as int) =~= name);
    assert(line.skip(name.len() as int) =~= flags);
}

/// Lines that are neither a mapping's first nor its flags change nothing.
proof fn lemma_between_adds_nothing(
    before: Seq<Seq<u8>>,
    between: Seq<Seq<u8>>,
    needle: Seq<u8>,
)
    requires
        forall|i: int|
            0 <= i < between.len() ==> !is_mapping(#[trigger] between[i]) && behind_prefix(
                between[i],
                encode_utf8("VmFlags:"@),
            ) is None,
    ensures
        gather(before + between, needle) == gather(before, needle),
    decreases between.len(),
{
    if between.len() == 0 {
        assert(before + between =~= before);
    } else {
        let less = between.drop_last();
        assert forall|i: int| 0 <= i < less.len() implies !is_mapping(#[trigger] less[i])
            && behind_prefix(less[i], encode_utf8("VmFlags:"@)) is None by {
            assert(less[i] == between[i]);
        }
        lemma_between_adds_nothing(before, less, needle);
        assert((before + between).drop_last() =~= before + less);
        assert((before + between).last() == between[between.len() - 1]);
    }
}

fn has_word(list: &Vec<Vec<u8>>, w: &[u8]) -> (r: bool)
    ensures
        r == key_seqs(list@).contains(w@),
{
    let mut i: usize = 0;
    while i < list.len()
        invariant
            i <= list@.len(),
            forall|j: int| 0 <= j < i ==> key_seqs(list@)[j] != w@,
        decreases list.len() - i,
    {
        assert(key_seqs(list@)[i as int] == list@[i as int]@);
        if bytes_equal(&list[i], w) {
            return true;
        }
        i = i + 1;
    }
    false
}

/// Whether readahead is off on each mapping of a file whose line holds
/// `needle`. `None` where the kernel tells no flags.
pub fn smaps_random(text: &[u8], needle: &[u8]) -> (r: Option<Vec<bool>>)
    ensures
        r is Some <==> gather(lines_of(text@), needle@).told,
        r matches Some(f) ==> f@ == gather(lines_of(text@), needle@).flags,
{
    let all: Vec<Vec<u8>> = lines(text);
    let ghost seqs = key_seqs(all@);
    let mut flags: Vec<bool> = Vec::new();
    let mut wanted: bool = false;
    let mut told: bool = false;
    let mut i: usize = 0;
    proof {
        assert(seqs.take(0) =~= Seq::<Seq<u8>>::empty());
        assert(flags@ =~= gather(seqs.take(0), needle@).flags);
    }
    while i < all.len()
        invariant
            i <= all@.len(),
            seqs == key_seqs(all@),
            flags@ == gather(seqs.take(i as int), needle@).flags,
            wanted == gather(seqs.take(i as int), needle@).wanted,
            told == gather(seqs.take(i as int), needle@).told,
        decreases all.len() - i,
    {
        proof {
            assert(seqs.take(i + 1).drop_last() =~= seqs.take(i as int));
            assert(seqs.take(i + 1).last() == all@[i as int]@);
        }
        match strip(&all[i], "VmFlags:".as_bytes()) {
            Some(rest) => {
                told = true;
                if wanted {
                    let list: Vec<Vec<u8>> = words(rest);
                    flags.push(has_word(&list, "rr".as_bytes()));
                    wanted = false;
                }
            },
            None => {
                let list: Vec<Vec<u8>> = words(&all[i]);
                assert(key_seqs(list@).len() == list@.len());
                if list.len() > 0 {
                    assert(key_seqs(list@)[0] == list@[0]@);
                    if spans(&list[0]) {
                        wanted = holds_text(&all[i], needle);
                    }
                }
            },
        }
        i = i + 1;
    }
    proof {
        assert(seqs.take(i as int) =~= seqs);
    }
    if told {
        Some(flags)
    } else {
        None
    }
}

/// A span is two numbers in hexadecimal with a dash between them, in small letters or in
/// capitals; a word with any other byte is none, and neither is one without a dash.
pub proof fn lemma_span_is_two_numbers(a: nat, b: nat, v: nat, w: nat, other: Seq<u8>)
    ensures
        is_span(fixed_digits(a, v, 16) + seq![45u8] + fixed_digits(b, w, 16)),
        forall|d: int| 10 <= d < 16 ==> is_hex(#[trigger] digit_char(d)) && is_hex(
            (digit_char(d) - 32) as u8,
        ),
        (exists|i: int|
            0 <= i < other.len() && !((48 <= #[trigger] other[i] <= 57) || (65 <= other[i] <= 70)
                || (97 <= other[i] <= 102) || other[i] == 45)) ==> !is_span(other),
        (forall|i: int| 0 <= i < other.len() ==> #[trigger] other[i] != 45) ==> !is_span(other),
{
    let s = fixed_digits(a, v, 16) + seq![45u8] + fixed_digits(b, w, 16);
    lemma_digits_len(a, v, 16);
    lemma_digits_len(b, w, 16);
    assert(s[v as int] == 45);
    assert forall|i: int| 0 <= i < s.len() implies is_hex(#[trigger] s[i]) || s[i] == 45 by {
        if i < v {
            lemma_digit_at(a, v, 16, i);
        } else if i > v {
            lemma_digit_at(b, w, 16, i - v - 1);
        }
    }
    if exists|i: int|
        0 <= i < other.len() && !((48 <= #[trigger] other[i] <= 57) || (65 <= other[i] <= 70) || (97
            <= other[i] <= 102) || other[i] == 45) {
        let i = choose|i: int|
            0 <= i < other.len() && !((48 <= #[trigger] other[i] <= 57) || (65 <= other[i] <= 70)
                || (97 <= other[i] <= 102) || other[i] == 45);
        assert(!is_hex(other[i]) && other[i] != 45);
    }
}

} // verus!
