//! What the layout measurements report of themselves: what a child process says
//! of its memory, what lookups touch, and the names of what is compared.

use crate::bytes::{bytes_equal, key_seqs, push_bytes};
use crate::digits::{decimal, decimal_width, padded};
use crate::layouts::{kind_name, LayoutKind};
use crate::smaps::{lemma_first_space_is, words, words_of};
use crate::text::{
    lemma_decimal_reads_back, lemma_fixed_digits_value, number_of, parse_number,
    space_len,
};
use vstd::prelude::*;
use vstd::slice::slice_subrange;
use vstd::utf8::{encode_utf8, is_ascii_chars_encode_utf8};

verus! {

// ------------------------------------------------------------------ memory --

/// Where a text first lies in another.
pub open spec fn text_at(s: Seq<u8>, needle: Seq<u8>) -> Option<nat>
    decreases s.len(),
{
    if s.len() < needle.len() {
        None
    } else if s.take(needle.len() as int) == needle {
        Some(0)
    } else if s.len() == 0 {
        None
    } else {
        match text_at(s.drop_first(), needle) {
            None => None,
            Some(p) => Some(p + 1),
        }
    }
}

/// Where a text first lies in another, if it does.
pub fn find_text(s: &[u8], needle: &[u8]) -> (r: Option<usize>)
    ensures
        match r {
            Some(p) => text_at(s@, needle@) == Some(p as nat) && p + needle@.len() <= s@.len(),
            None => text_at(s@, needle@) is None,
        },
{
    let n: usize = s.len();
    let m: usize = needle.len();
    let mut i: usize = 0;
    proof {
        assert(s@.skip(0) =~= s@);
    }
    while i <= n && m <= n - i
        invariant
            i <= n,
            n == s@.len(),
            m == needle@.len(),
            match text_at(s@.skip(i as int), needle@) {
                Some(p) => text_at(s@, needle@) == Some((p + i) as nat),
                None => text_at(s@, needle@) is None,
            },
        decreases n - i,
    {
        let ghost rest = s@.skip(i as int);
        proof {
            assert(rest.take(m as int) =~= s@.subrange(i as int, i + m));
        }
        if bytes_equal(slice_subrange(s, i, i + m), needle) {
            return Some(i);
        }
        if i == n {
            return None;
        }
        proof {
            assert(rest.drop_first() =~= s@.skip(i + 1));
        }
        i = i + 1;
    }
    None
}

/// A text does not lie where one of its bytes is missing.
proof fn lemma_text_missing(s: Seq<u8>, needle: Seq<u8>, k: int)
    requires
        0 <= k < needle.len(),
        forall|i: int| 0 <= i < s.len() ==> #[trigger] s[i] != needle[k],
    ensures
        text_at(s, needle) is None,
    decreases s.len(),
{
    if s.len() >= needle.len() {
        if s.take(needle.len() as int) == needle {
            assert(s.take(needle.len() as int)[k] == s[k]);
        }
        let t = s.drop_first();
        assert forall|i: int| 0 <= i < t.len() implies #[trigger] t[i] != needle[k] by {
            assert(t[i] == s[i + 1]);
        }
        lemma_text_missing(t, needle, k);
    }
}

/// What is found is the first place where the needle lies, and nothing is found
/// only where it lies nowhere.
pub proof fn lemma_text_at_is_first(s: Seq<u8>, needle: Seq<u8>)
    ensures
        text_at(s, needle) matches Some(p) ==> p + needle.len() <= s.len() && s.subrange(
            p as int,
            (p + needle.len()) as int,
        ) == needle,
        forall|q: int|
            0 <= q && q + needle.len() <= s.len() && #[trigger] s.subrange(q, q + needle.len())
                == needle ==> text_at(s, needle) is Some && text_at(s, needle)->0 <= q,
    decreases s.len(),
{
    let n = needle.len() as int;
    if s.len() >= n {
        assert(s.take(n) =~= s.subrange(0, n));
        if s.take(n) != needle && s.len() > 0 {
            let t = s.drop_first();
            lemma_text_at_is_first(t, needle);
            if let Some(p) = text_at(t, needle) {
                assert(t.subrange(p as int, p + n) =~= s.subrange(p as int + 1, p + 1 + n));
            }
            assert forall|q: int|
                0 <= q && q + n <= s.len() && #[trigger] s.subrange(q, q + n) == needle implies text_at(
                s,
                needle,
            ) is Some && text_at(s, needle)->0 <= q by {
                assert(q > 0);
                assert(t.subrange(q - 1, q - 1 + n) =~= s.subrange(q, q + n));
            }
        }
    }
}

/// What comes before the number.
pub const RSS_NAME: &'static str = "rss_bytes=";

/// What a structure added to a process's memory.
pub open spec fn grown_by(before: int, after: int) -> int {
    if after < before {
        0
    } else {
        after - before
    }
}

/// The line in which a process tells what a structure added to its memory,
/// without the line's end.
pub open spec fn rss_text(before: u64, after: u64) -> Seq<u8> {
    encode_utf8(RSS_NAME@) + (padded(grown_by(before as int, after as int) as nat, 1) + (
    encode_utf8(" before="@) + (padded(before as nat, 1) + (encode_utf8(" after="@) + padded(
        after as nat,
        1,
    )))))
}

/// The line in which a process tells what a structure added to its memory,
/// without the line's end.
pub fn rss_line(before: u64, after: u64) -> (out: Vec<u8>)
    ensures
        out@ == rss_text(before, after),
{
    let grown: u64 = if after < before {
        0
    } else {
        after - before
    };
    let mut out: Vec<u8> = Vec::new();
    push_bytes(&mut out, RSS_NAME.as_bytes());
    push_bytes(&mut out, &decimal(grown, 1));
    push_bytes(&mut out, " before=".as_bytes());
    push_bytes(&mut out, &decimal(before, 1));
    push_bytes(&mut out, " after=".as_bytes());
    push_bytes(&mut out, &decimal(after, 1));
    proof {
        assert(out@ =~= rss_text(before, after));
    }
    out
}

/// What is told of the memory: the first word behind the name.
pub open spec fn rss_of(s: Seq<u8>) -> Option<u64> {
    let name = encode_utf8(RSS_NAME@);
    match text_at(s, name) {
        None => None,
        Some(p) => {
            let rest = s.skip(p as int + name.len());
            let piece = match text_at(rest, name) {
                None => rest,
                Some(q) => rest.take(q as int),
            };
            if words_of(piece).len() == 0 {
                None
            } else {
                number_of(words_of(piece)[0])
            }
        },
    }
}

/// Reads what a process told of its memory.
pub fn read_rss(s: &[u8]) -> (r: Option<u64>)
    ensures
        r == rss_of(s@),
{
    let name: &[u8] = RSS_NAME.as_bytes();
    match find_text(s, name) {
        None => None,
        Some(p) => {
            let n: usize = s.len();
            assert(p + name@.len() <= n);
            let rest: &[u8] = slice_subrange(s, p + name.len(), n);
            proof {
                assert(rest@ =~= s@.skip(p + name@.len()));
            }
            let end: usize = match find_text(rest, name) {
                None => rest.len(),
                Some(q) => q,
            };
            let piece: &[u8] = slice_subrange(rest, 0, end);
            proof {
                assert(piece@ =~= rest@.take(end as int));
                assert(rest@.take(rest@.len() as int) =~= rest@);
            }
            let ws: Vec<Vec<u8>> = words(piece);
            proof {
                assert(key_seqs(ws@).len() == ws@.len());
            }
            if ws.len() == 0 {
                None
            } else {
                proof {
                    assert(key_seqs(ws@)[0] == ws@[0]@);
                }
                parse_number(&ws[0])
            }
        },
    }
}

/// What a process tells of its memory is read back.
pub proof fn lemma_rss_round_trip(before: u64, after: u64)
    ensures
        rss_of(rss_text(before, after)) == Some(
            grown_by(before as int, after as int) as u64,
        ),
{
    let name = encode_utf8(RSS_NAME@);
    let b = encode_utf8(" before="@);
    let a = encode_utf8(" after="@);
    reveal_strlit("rss_bytes=");
    reveal_strlit(" before=");
    reveal_strlit(" after=");
    is_ascii_chars_encode_utf8(RSS_NAME@);
    is_ascii_chars_encode_utf8(" before="@);
    is_ascii_chars_encode_utf8(" after="@);
    let g = grown_by(before as int, after as int) as u64;
    let d = padded(g as nat, 1);
    let db = padded(before as nat, 1);
    let da = padded(after as nat, 1);
    lemma_decimal_reads_back(g);
    lemma_all_digits(g);
    lemma_all_digits(before);
    lemma_all_digits(after);
    let rest = d + (b + (db + (a + da)));
    let s = rss_text(before, after);
    assert(s.take(name.len() as int) =~= name);
    assert(s.skip(0int + name.len()) =~= rest);
    assert(name[1] == 115);
    assert forall|i: int| 0 <= i < rest.len() implies #[trigger] rest[i] != name[1] by {
        let x = d.len() as int;
        let y = x + b.len();
        let z = y + db.len();
        let w = z + a.len();
        if i < x {
            assert(rest[i] == d[i]);
        } else if i < y {
            assert(rest[i] == b[i - x]);
        } else if i < z {
            assert(rest[i] == db[i - y]);
        } else if i < w {
            assert(rest[i] == a[i - z]);
        } else {
            assert(rest[i] == da[i - w]);
        }
    }
    lemma_text_missing(rest, name, 1);
    assert forall|i: int| 0 <= i < d.len() implies space_len(#[trigger] rest.skip(i)) == 0 by {
        assert(rest.skip(i)[0] == d[i]);
    }
    assert(rest.skip(d.len() as int)[0] == b[0]);
    assert(rest[d.len() as int] == b[0]);
    lemma_first_space_is(rest, d.len());
    assert(rest.take(d.len() as int) =~= d);
    assert(rest[0] == d[0]);
    assert(words_of(rest)[0] == d);
}

proof fn lemma_all_digits(n: u64)
    ensures
        padded(n as nat, 1).len() > 0,
        forall|i: int|
            0 <= i < padded(n as nat, 1).len() ==> 48 <= #[trigger] padded(n as nat, 1)[i] <= 57,
{
    let w = decimal_width(n as nat);
    let v = if w > 1 {
        w
    } else {
        1
    };
    lemma_fixed_digits_value(n as nat, v);
}

// ------------------------------------------------------------------ traces --

/// What the lookups of a layout touch, added up.
#[derive(Clone, Copy, PartialEq, Eq, Structural, Debug)]
pub struct TraceTotals {
    /// Distinct lines, lookup by lookup.
    pub lines: u64,
    /// Distinct pages, lookup by lookup.
    pub pages: u64,
    /// Reads.
    pub reads: u64,
}

impl TraceTotals {
    /// Nothing yet.
    pub fn new() -> (t: TraceTotals)
        ensures
            t == (TraceTotals { lines: 0, pages: 0, reads: 0 }),
    {
        TraceTotals { lines: 0, pages: 0, reads: 0 }
    }

    /// Adds one lookup.
    pub fn note(&mut self, lines: u64, pages: u64, reads: u64)
        requires
            old(self).lines + lines <= u64::MAX,
            old(self).pages + pages <= u64::MAX,
            old(self).reads + reads <= u64::MAX,
        ensures
            *final(self) == (TraceTotals {
                lines: (old(self).lines + lines) as u64,
                pages: (old(self).pages + pages) as u64,
                reads: (old(self).reads + reads) as u64,
            }),
    {
        self.lines = self.lines + lines;
        self.pages = self.pages + pages;
        self.reads = self.reads + reads;
    }
}

// ------------------------------------------------------------------- names --

/// A layout's name without plus signs.
pub open spec fn plain_name(s: Seq<u8>) -> Seq<u8> {
    Seq::new(
        s.len(),
        |i: int|
            if s[i] == 43 {
                45u8
            } else {
                s[i]
            },
    )
}

/// The name under which two layouts are compared: of both of them, so that two
/// comparisons never share a file.
pub open spec fn pair_name_of(a: Seq<u8>, b: Seq<u8>) -> Seq<u8> {
    encode_utf8("f10-pair-"@) + (plain_name(a) + (encode_utf8("-vs-"@) + plain_name(b)))
}

fn push_plain(out: &mut Vec<u8>, s: &[u8])
    ensures
        final(out)@ == old(out)@ + plain_name(s@),
{
    let ghost before = out@;
    let mut i: usize = 0;
    while i < s.len()
        invariant
            i <= s@.len(),
            out@ =~= before + plain_name(s@).take(i as int),
        decreases s.len() - i,
    {
        let c: u8 = s[i];
        out.push(
            if c == 43 {
                45
            } else {
                c
            },
        );
        i = i + 1;
    }
    proof {
        assert(plain_name(s@).take(i as int) =~= plain_name(s@));
    }
}

/// The name under which two layouts are compared.
pub fn pair_name(a: &[u8], b: &[u8]) -> (out: Vec<u8>)
    ensures
        out@ == pair_name_of(a@, b@),
{
    let mut out: Vec<u8> = Vec::new();
    push_bytes(&mut out, "f10-pair-".as_bytes());
    push_plain(&mut out, a);
    push_bytes(&mut out, "-vs-".as_bytes());
    push_plain(&mut out, b);
    proof {
        assert(out@ =~= pair_name_of(a@, b@));
    }
    out
}

/// The length of a layout's name and its second letter: no two layouts share both.
spec fn mark_of(k: LayoutKind) -> (int, int) {
    match k {
        LayoutKind::HeapHash => (9, 101),
        LayoutKind::BTree => (5, 116),
        LayoutKind::Packed => (6, 97),
        LayoutKind::PackedRadix => (12, 97),
        LayoutKind::HashPacked => (11, 97),
        LayoutKind::HashFlat => (9, 97),
        LayoutKind::HashFlatFixed => (14, 97),
        LayoutKind::HashPaged => (10, 97),
        LayoutKind::HashPagedFixed => (15, 97),
        LayoutKind::MphPaged => (9, 112),
        LayoutKind::MphPagedFixed => (14, 112),
        LayoutKind::MphBloomPaged => (15, 112),
    }
}

/// What the name of a layout looks like: it bears its mark, no dash ends it, and behind no
/// dash in it is the letter that starts what joins two names.
proof fn lemma_layout_name(k: LayoutKind)
    ensures
        ({
            let s = plain_name(encode_utf8(kind_name(k)));
            &&& s.len() == mark_of(k).0
            &&& s[1] == mark_of(k).1
            &&& forall|i: int|
                0 <= i < s.len() && #[trigger] s[i] == 45 ==> i + 1 < s.len() && s[i + 1] != 118
        }),
{
    reveal_strlit("heap-hash");
    reveal_strlit("btree");
    reveal_strlit("packed");
    reveal_strlit("packed+radix");
    reveal_strlit("hash+packed");
    reveal_strlit("hash+flat");
    reveal_strlit("hash+flatfixed");
    reveal_strlit("hash+paged");
    reveal_strlit("hash+pagedfixed");
    reveal_strlit("mph+paged");
    reveal_strlit("mph+pagedfixed");
    reveal_strlit("mph+bloom+paged");
    let c = kind_name(k);
    is_ascii_chars_encode_utf8(c);
    let s = plain_name(encode_utf8(c));
    assert(c[1] as u8 == encode_utf8(c)[1]);
    assert forall|i: int| 0 <= i < s.len() && #[trigger] s[i] == 45 implies i + 1 < s.len() && s[i
        + 1] != 118 by {
        assert(c[i] as u8 == encode_utf8(c)[i]);
        if i + 1 < s.len() {
            assert(c[i + 1] as u8 == encode_utf8(c)[i + 1]);
        }
    }
}

/// Two comparisons of layouts never have the same name.
pub proof fn lemma_pairs_have_names_of_their_own(
    a: LayoutKind,
    b: LayoutKind,
    c: LayoutKind,
    d: LayoutKind,
)
    ensures
        pair_name_of(encode_utf8(kind_name(a)), encode_utf8(kind_name(b))) == pair_name_of(
            encode_utf8(kind_name(c)),
            encode_utf8(kind_name(d)),
        ) ==> a == c && b == d,
{
    let (p, q) = (plain_name(encode_utf8(kind_name(a))), plain_name(encode_utf8(kind_name(b))));
    let (r, s) = (plain_name(encode_utf8(kind_name(c))), plain_name(encode_utf8(kind_name(d))));
    let front = encode_utf8("f10-pair-"@);
    let mid = encode_utf8("-vs-"@);
    lemma_layout_name(a);
    lemma_layout_name(b);
    lemma_layout_name(c);
    lemma_layout_name(d);
    reveal_strlit("-vs-");
    is_ascii_chars_encode_utf8("-vs-"@);
    assert("-vs-"@[0] as u8 == mid[0] && "-vs-"@[1] as u8 == mid[1]);
    assert(mid.len() == 4 && mid[0] == 45 && mid[1] == 118);
    let (x, y) = (front + (p + (mid + q)), front + (r + (mid + s)));
    if x == y {
        let f = front.len() as int;
        assert(x.skip(f) =~= p + (mid + q));
        assert(y.skip(f) =~= r + (mid + s));
        let (t, u) = (p + (mid + q), r + (mid + s));
        assert(t == u);
        if p.len() < r.len() {
            let n = p.len() as int;
            assert(t[n] == 45 && t[n + 1] == 118);
            assert(u[n] == r[n]);
            assert(u[n + 1] == r[n + 1]);
        } else if r.len() < p.len() {
            let n = r.len() as int;
            assert(u[n] == 45 && u[n + 1] == 118);
            assert(t[n] == p[n]);
            assert(t[n + 1] == p[n + 1]);
        } else {
            assert(t[1] == p[1] && u[1] == r[1]);
            let n = p.len() as int + 4;
            assert(t.skip(n) =~= q);
            assert(u.skip(n) =~= s);
        }
    }
}

/// How many records a page holds in the settings that are swept.
pub fn page_settings() -> (v: Vec<usize>)
    ensures
        v@ == seq![8usize, 16, 32, 64, 128, 256],
{
    let mut v: Vec<usize> = Vec::new();
    v.push(8);
    v.push(16);
    v.push(32);
    v.push(64);
    v.push(128);
    v.push(256);
    v
}

/// Where the derived setting is among those that are swept; the first where it
/// is not among them.
pub fn derived_at(settings: &Vec<usize>, derived: usize) -> (i: usize)
    ensures
        settings@.contains(derived) ==> i < settings@.len() && settings@[i as int] == derived
            && forall|j: int| 0 <= j < i ==> #[trigger] settings@[j] != derived,
        !settings@.contains(derived) ==> i == 0,
{
    let mut i: usize = 0;
    while i < settings.len()
        invariant
            i <= settings@.len(),
            forall|j: int| 0 <= j < i ==> #[trigger] settings@[j] != derived,
        decreases settings.len() - i,
    {
        if settings[i] == derived {
            return i;
        }
        i = i + 1;
    }
    0
}

} // verus!
