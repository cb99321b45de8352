//! Sources of bytes that keep count: one that remembers every read, and one
//! that stands for a browser's cache, into which bytes come only in whole
//! pages and in waves.

use crate::bytes::to_owned;
use crate::pages::{
    addressable, end_of, fetch, has_page, in_object, last_byte, lemma_page_starts,
    lemma_page_sum_empty, lemma_touched_pages_share_bytes, page_sum, pages_in, touched_set, touches,
};
use std::collections::BTreeSet;
use vstd::prelude::*;
use vstd::slice::slice_subrange;

verus! {

/// Why a read failed.
#[derive(Clone, Copy, PartialEq, Eq, Structural, Debug)]
pub enum ReadError {
    /// The object is shorter than that.
    Short,
    /// This page was not fetched before.
    NotEnsured { page: u64 },
}

// --------------------------------------------------------------- recording --

/// A source that remembers every read.
pub struct Recording {
    /// The object.
    pub data: Vec<u8>,
    /// The offset and the length of every read.
    pub log: Vec<(u64, u64)>,
}

impl Recording {
    /// Reads `n` bytes at `off`, and remembers it, also where the object is too
    /// short for it.
    pub fn read_at(&mut self, off: u64, n: usize) -> (r: Result<Vec<u8>, ReadError>)
        ensures
            final(self).data == old(self).data,
            final(self).log@ == old(self).log@.push((off, n as u64)),
            off + n > old(self).data@.len() ==> r == Err::<Vec<u8>, ReadError>(ReadError::Short),
            off + n <= old(self).data@.len() ==> r is Ok && r->Ok_0@ == old(
                self,
            ).data@.subrange(off as int, off + n),
    {
        self.log.push((off, n as u64));
        let len: u64 = self.data.len() as u64;
        if off > len || n as u64 > len - off {
            return Err(ReadError::Short);
        }
        let at: usize = off as usize;
        Ok(to_owned(slice_subrange(&self.data, at, at + n)))
    }
}

/// The reads since a mark, and a new mark.
pub fn reads_since(log: &[(u64, u64)], mark: usize) -> (r: (Vec<(u64, u64)>, usize))
    requires
        mark <= log@.len(),
    ensures
        r.0@ == log@.skip(mark as int),
        r.1 == log@.len(),
{
    let mut out: Vec<(u64, u64)> = Vec::new();
    let mut i: usize = mark;
    while i < log.len()
        invariant
            mark <= i <= log@.len(),
            out@ =~= log@.subrange(mark as int, i as int),
        decreases log.len() - i,
    {
        out.push(log[i]);
        i = i + 1;
    }
    proof {
        assert(out@ =~= log@.skip(mark as int));
    }
    (out, i)
}

// -------------------------------------------------------------------- host --

/// What a host has fetched, and in how many waves.
pub ghost struct Fetched {
    pub len: u64,
    pub page: u64,
    pub resident: Set<u64>,
    pub waves: int,
    pub bytes: int,
}

impl Fetched {
    /// What is counted is what is there.
    pub open spec fn wf(self) -> bool {
        &&& self.page > 0
        &&& in_object(self.resident, self.len, self.page)
        &&& self.bytes == page_sum(
            self.resident,
            self.len,
            self.page,
            pages_in(self.len, self.page),
        )
    }

    /// Nothing fetched yet.
    pub open spec fn nothing(len: u64, page: u64) -> Fetched {
        Fetched { len, page, resident: Set::empty(), waves: 0, bytes: 0 }
    }

    /// The pages that ranges need, but for those that start past the end.
    pub open spec fn needed(self, ranges: Seq<(u64, u64)>) -> Set<u64> {
        Set::new(
            |p: u64|
                exists|i: int|
                    0 <= i < ranges.len() && (#[trigger] ranges[i]).0 < self.len && touches(
                        ranges[i],
                        self.len,
                        self.page,
                        p as int,
                    ),
        )
    }

    /// What is fetched once ranges are there: a wave if any page is new.
    pub open spec fn ensured(self, ranges: Seq<(u64, u64)>) -> Fetched {
        let all = self.resident.union(self.needed(ranges));
        let bytes = page_sum(all, self.len, self.page, pages_in(self.len, self.page));
        Fetched {
            resident: all,
            waves: if bytes > self.bytes {
                self.waves + 1
            } else {
                self.waves
            },
            bytes,
            ..self
        }
    }

    /// Whether all pages of a range are there.
    pub open spec fn readable(self, off: int, n: int) -> bool {
        forall|p: u64|
            off / self.page as int <= p <= (off + n - 1) / self.page as int ==> #[trigger]
                self.resident.contains(p)
    }
}

/// What making ranges readable does: afterwards exactly the pages are there that were
/// there before or that some range shares a byte with, and it took one wave if any of them
/// was new and none else.
pub proof fn lemma_ensure_fetches_what_is_missing(
    s: Fetched,
    ranges: Seq<(u64, u64)>,
    p: u64,
)
    requires
        s.wf(),
        s.len > 0,
    ensures
        s.ensured(ranges).resident.contains(p) <==> s.resident.contains(p) || exists|i: int|
            0 <= i < ranges.len() && (#[trigger] ranges[i]).0 < s.len && ranges[i].1 > 0 && p
                * s.page < ranges[i].0 + ranges[i].1 && p * s.page < s.len && ranges[i].0 < (p + 1)
                * s.page,
        s.ensured(ranges).waves == s.waves <==> s.ensured(ranges).resident == s.resident,
        s.ensured(ranges).waves == s.waves || s.ensured(ranges).waves == s.waves + 1,
        s.ensured(ranges).len == s.len && s.ensured(ranges).page == s.page,
{
    let after = s.ensured(ranges);
    assert forall|i: int| 0 <= i < ranges.len() && (#[trigger] ranges[i]).0 < s.len implies (touches(
        ranges[i],
        s.len,
        s.page,
        p as int,
    ) <==> ranges[i].1 > 0 && p * s.page < ranges[i].0 + ranges[i].1 && p * s.page < s.len
        && ranges[i].0 < (p + 1) * s.page) by {
        lemma_touched_pages_share_bytes(ranges[i], s.len, s.page, p as int);
    }
    let n = pages_in(s.len, s.page);
    assert forall|q: u64| after.resident.contains(q) implies q < n by {
        if !s.resident.contains(q) {
            assert(s.needed(ranges).contains(q));
            let i = choose|i: int|
                0 <= i < ranges.len() && (#[trigger] ranges[i]).0 < s.len && touches(
                    ranges[i],
                    s.len,
                    s.page,
                    q as int,
                );
            lemma_page_in_object(ranges[i], s.len, s.page, q as int);
        }
    }
    lemma_page_sum_grows(s.resident, after.resident, s.len, s.page, n);
    if after.resident == s.resident {
        assert(after.bytes == s.bytes);
    } else {
        if forall|q: u64| after.resident.contains(q) ==> s.resident.contains(q) {
            assert(after.resident =~= s.resident);
        }
        let q = choose|q: u64| after.resident.contains(q) && !s.resident.contains(q);
        assert(q < n);
    }
}

/// What a range touches is within the object.
proof fn lemma_page_in_object(r: (u64, u64), len: u64, page: u64, p: int)
    requires
        page > 0,
        touches(r, len, page, p),
    ensures
        p < pages_in(len, page),
{
    let top = last_byte((0, u64::MAX), len);
    vstd::arithmetic::div_mod::lemma_div_is_ordered(last_byte(r, len), top, page as int);
}

/// More pages hold more bytes.
proof fn lemma_page_sum_grows(a: Set<u64>, b: Set<u64>, len: u64, page: u64, n: nat)
    requires
        page > 0,
        len > 0,
        n <= pages_in(len, page) <= u64::MAX + 1,
        forall|p: u64| a.contains(p) ==> #[trigger] b.contains(p),
    ensures
        page_sum(a, len, page, n) <= page_sum(b, len, page, n),
        (exists|p: u64| p < n && #[trigger] b.contains(p) && !a.contains(p)) ==> page_sum(
            a,
            len,
            page,
            n,
        ) < page_sum(b, len, page, n),
    decreases n,
{
    if n > 0 {
        lemma_page_sum_grows(a, b, len, page, (n - 1) as nat);
        let last = (n - 1) as u64;
        lemma_page_starts(len, page, n - 1);
        assert(a.contains(last) ==> b.contains(last));
        if exists|p: u64| p < n && #[trigger] b.contains(p) && !a.contains(p) {
            let p = choose|p: u64| p < n && #[trigger] b.contains(p) && !a.contains(p);
            if p < n - 1 {
                assert(b.contains(p) && !a.contains(p));
            }
        }
    }
}

/// What is there is not fetched again: no wave and no bytes.
pub proof fn lemma_ensure_twice(s: Fetched, ranges: Seq<(u64, u64)>)
    requires
        s.wf(),
    ensures
        s.ensured(ranges).ensured(ranges) == s.ensured(ranges),
{
    let once = s.ensured(ranges);
    assert(once.needed(ranges) =~= s.needed(ranges));
    assert(once.resident.union(once.needed(ranges)) =~= once.resident);
}

/// What was asked for can be read.
pub proof fn lemma_ensured_is_readable(s: Fetched, off: u64, n: u64)
    requires
        s.wf(),
        n > 0,
        off + n <= s.len,
    ensures
        s.ensured(seq![(off, n)]).readable(off as int, n as int),
{
    let ranges = seq![(off, n)];
    let once = s.ensured(ranges);
    assert(last_byte((off, n), s.len) == off + n - 1);
    assert forall|p: u64|
        off as int / s.page as int <= p <= (off + n - 1) / s.page as int implies #[trigger]
        once.resident.contains(p) by {
        assert(ranges[0].0 < s.len && touches(ranges[0], s.len, s.page, p as int));
        assert(s.needed(ranges).contains(p));
    }
}

/// What can be read stays readable.
pub proof fn lemma_ensure_keeps(s: Fetched, ranges: Seq<(u64, u64)>, off: int, n: int)
    requires
        s.readable(off, n),
    ensures
        s.ensured(ranges).readable(off, n),
{
}

/// A browser's cache over an object.
pub struct Host {
    data: Vec<u8>,
    page: u64,
    resident: BTreeSet<u64>,
    waves: u64,
    bytes: u64,
}

impl View for Host {
    type V = Fetched;

    closed spec fn view(&self) -> Fetched {
        Fetched {
            len: self.data@.len() as u64,
            page: self.page,
            resident: self.resident@,
            waves: self.waves as int,
            bytes: self.bytes as int,
        }
    }
}

impl Host {
    /// The object.
    pub closed spec fn object(self) -> Seq<u8> {
        self.data@
    }

    /// What is counted is what is there.
    pub open spec fn wf(self) -> bool {
        &&& self@.wf()
        &&& self@.len == self.object().len()
    }

    /// A cache with nothing in it.
    pub fn new(data: Vec<u8>, page: u64) -> (h: Host)
        requires
            page > 0,
        ensures
            h.wf(),
            h.object() == data@,
            h@ == Fetched::nothing(data@.len() as u64, page),
    {
        let h: Host = Host { data, page, resident: BTreeSet::new(), waves: 0, bytes: 0 };
        proof {
            assert(h.data@.len() == h.data.len());
            lemma_page_sum_empty(h@.len, page, pages_in(h@.len, page));
            assert(h.resident@ =~= Set::empty());
        }
        h
    }

    /// Fetches what ranges need and is not there, in one wave if there is any.
    pub fn ensure(&mut self, ranges: &[(u64, u64)])
        requires
            old(self).wf(),
            addressable(ranges@),
            old(self)@.waves < u64::MAX,
        ensures
            final(self).wf(),
            final(self).object() == old(self).object(),
            final(self)@ == old(self)@.ensured(ranges@),
    {
        let len: u64 = self.data.len() as u64;
        let ghost start = self@;
        assert(self.data@.len() == self.data.len());
        let mut kept: Vec<(u64, u64)> = Vec::new();
        let mut i: usize = 0;
        while i < ranges.len()
            invariant
                i <= ranges@.len(),
                addressable(ranges@),
                addressable(kept@),
                forall|k: int| 0 <= k < kept@.len() ==> (#[trigger] kept@[k]).0 < len,
                forall|k: int|
                    0 <= k < kept@.len() ==> ranges@.contains(#[trigger] kept@[k]),
                forall|k: int|
                    0 <= k < i && (#[trigger] ranges@[k]).0 < len ==> kept@.contains(ranges@[k]),
            decreases ranges.len() - i,
        {
            let r: (u64, u64) = ranges[i];
            let ghost before = kept@;
            assert(end_of(ranges@[i as int]) <= u64::MAX);
            if r.0 < len {
                kept.push(r);
                proof {
                    assert(ranges@[i as int] == r);
                    assert forall|k: int| 0 <= k < kept@.len() implies end_of(#[trigger] kept@[k])
                        <= u64::MAX by {
                        if k < before.len() {
                            assert(kept@[k] == before[k]);
                        }
                    }
                    assert forall|k: int|
                        0 <= k < i + 1 && (#[trigger] ranges@[k]).0 < len implies kept@.contains(
                        ranges@[k],
                    ) by {
                        if k < i {
                            let m = choose|m: int| 0 <= m < before.len() && before[m] == ranges@[k];
                            assert(kept@[m] == ranges@[k]);
                        } else {
                            assert(kept@[before.len() as int] == ranges@[k]);
                        }
                    }
                }
            }
            i = i + 1;
        }
        let page: u64 = self.page;
        let new: u64 = fetch(&mut self.resident, &kept, len, page);
        proof {
            let s = start.needed(ranges@);
            let t = touched_set(kept@, len, page);
            assert(s =~= t) by {
                assert forall|p: u64| s.contains(p) <==> t.contains(p) by {
                    if s.contains(p) {
                        let k = choose|k: int|
                            0 <= k < ranges@.len() && (#[trigger] ranges@[k]).0 < len && touches(
                                ranges@[k],
                                len,
                                page,
                                p as int,
                            );
                        let m = choose|m: int| 0 <= m < kept@.len() && kept@[m] == ranges@[k];
                        assert(touches(kept@[m], len, page, p as int));
                    }
                    if t.contains(p) {
                        let m = choose|m: int|
                            0 <= m < kept@.len() && touches(
                                #[trigger] kept@[m],
                                len,
                                page,
                                p as int,
                            );
                        assert(ranges@.contains(kept@[m]));
                        let k = choose|k: int| 0 <= k < ranges@.len() && ranges@[k] == kept@[m];
                        assert(ranges@[k].0 < len);
                    }
                }
            }
            assert(self.resident@ == start.resident.union(s));
            crate::pages::lemma_page_sum_within(self.resident@, len, page);
        }
        if new > 0 {
            self.waves = self.waves + 1;
            self.bytes = self.bytes + new;
        }
    }

    /// Waves and bytes so far.
    pub fn mark(&self) -> (r: (u64, u64))
        ensures
            r.0 == self@.waves,
            r.1 == self@.bytes,
    {
        (self.waves, self.bytes)
    }

    /// The bytes of the object.
    pub fn len(&self) -> (n: u64)
        requires
            self.wf(),
        ensures
            n == self.object().len(),
    {
        self.data.len() as u64
    }

    /// Reads `n` bytes at `off`. What was not fetched before cannot be read.
    pub fn read_at(&self, off: u64, n: usize) -> (r: Result<Vec<u8>, ReadError>)
        requires
            self.wf(),
        ensures
            off + n > self.object().len() ==> r == Err::<Vec<u8>, ReadError>(ReadError::Short),
            off + n <= self.object().len() && (n == 0 || self@.readable(off as int, n as int))
                ==> r is Ok && r->Ok_0@ == self.object().subrange(off as int, off + n),
            off + n <= self.object().len() && n > 0 && !self@.readable(off as int, n as int) ==> {
                &&& r matches Err(ReadError::NotEnsured { page: p })
                &&& off as int / self@.page as int <= p <= (off + n - 1) / self@.page as int
                &&& !self@.resident.contains(p)
                &&& forall|q: u64|
                    off as int / self@.page as int <= q < p ==> #[trigger]
                        self@.resident.contains(q)
            },
    {
        let len: u64 = self.data.len() as u64;
        assert(self.data@.len() == self.data.len());
        if off > len || n as u64 > len - off {
            return Err(ReadError::Short);
        }
        let at: usize = off as usize;
        if n == 0 {
            return Ok(to_owned(slice_subrange(&self.data, at, at + n)));
        }
        let stop: u64 = (off + n as u64 - 1) / self.page;
        let mut p: u64 = off / self.page;
        proof {
            vstd::arithmetic::div_mod::lemma_div_is_ordered_by_denominator(
                off + n - 1,
                1,
                self.page as int,
            );
        }
        while p <= stop
            invariant
                self.wf(),
                off as int / self@.page as int <= p,
                self.page == self@.page,
                stop as int == (off + n - 1) / self@.page as int,
                stop < u64::MAX,
                n > 0,
                off + n <= self.object().len(),
                self.resident@ == self@.resident,
                forall|q: u64|
                    off as int / self@.page as int <= q < p ==> #[trigger]
                        self@.resident.contains(q),
            decreases stop + 1 - p,
        {
            if !has_page(&self.resident, p) {
                return Err(ReadError::NotEnsured { page: p });
            }
            p = p + 1;
        }
        assert(self@.readable(off as int, n as int));
        Ok(to_owned(slice_subrange(&self.data, at, at + n)))
    }
}

// ------------------------------------------------------------------ search --

/// Waves and bytes of one cold search, step by step.
#[derive(Clone, Copy, PartialEq, Eq, Structural, Debug)]
pub struct Search {
    pub open_waves: u64,
    pub open_bytes: u64,
    pub lookup_waves: u64,
    pub lookup_bytes: u64,
    pub postings_waves: u64,
    pub postings_bytes: u64,
    pub postings: u64,
}

/// The steps of a search, from the marks behind each of them.
pub fn search_steps(
    open: (u64, u64),
    lookup: (u64, u64),
    read: (u64, u64),
    postings: u64,
) -> (s: Search)
    requires
        open.0 <= lookup.0 <= read.0,
        open.1 <= lookup.1 <= read.1,
    ensures
        s.open_waves == open.0 && s.open_bytes == open.1,
        s.open_waves + s.lookup_waves == lookup.0,
        s.open_bytes + s.lookup_bytes == lookup.1,
        s.open_waves + s.lookup_waves + s.postings_waves == read.0,
        s.open_bytes + s.lookup_bytes + s.postings_bytes == read.1,
        s.postings == postings,
{
    Search {
        open_waves: open.0,
        open_bytes: open.1,
        lookup_waves: lookup.0 - open.0,
        lookup_bytes: lookup.1 - open.1,
        postings_waves: read.0 - lookup.0,
        postings_bytes: read.1 - lookup.1,
        postings,
    }
}

/// What nothing was fetched for has no page and cost nothing, and as soon as a byte is
/// wanted that is in the object, that takes a wave.
pub proof fn lemma_nothing_costs_nothing(len: u64, page: u64, ranges: Seq<(u64, u64)>, i: int)
    requires
        page > 0,
        len > 0,
    ensures
        ({
            let s = Fetched::nothing(len, page);
            &&& s.waves == 0 && s.bytes == 0
            &&& s.len == len && s.page == page
            &&& forall|p: u64| !#[trigger] s.resident.contains(p)
            &&& 0 <= i < ranges.len() && ranges[i].0 < len && ranges[i].1 > 0 ==> s.ensured(
                ranges,
            ).waves == 1
        }),
{
    let s = Fetched::nothing(len, page);
    lemma_page_sum_empty(len, page, pages_in(len, page));
    if 0 <= i < ranges.len() && ranges[i].0 < len && ranges[i].1 > 0 {
        let x = ranges[i].0 as int;
        vstd::arithmetic::div_mod::lemma_fundamental_div_mod(x, page as int);
        vstd::arithmetic::div_mod::lemma_mod_bound(x, page as int);
        let (q, m) = (x / page as int, x % page as int);
        assert(0 <= q <= x && q * page <= x && x < (q + 1) * page) by (nonlinear_arith)
            requires
                x == page * q + m,
                0 <= m < page,
                x >= 0,
                page > 0,
        ;
        lemma_ensure_fetches_what_is_missing(s, ranges, q as u64);
        assert(s.ensured(ranges).resident.contains(q as u64));
    }
}

} // verus!
