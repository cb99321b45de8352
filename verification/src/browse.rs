//! Reading an index by ranges: whether a plan is exact, which keys a fixture
//! probes, and what the measured searches say.

use crate::bytes::bytes_equal;
use crate::host::Search;
use crate::pages::{addressable, bytes_in, end_of, inside, range_bytes, within};
use crate::verdict::{verdict, verdict_of, Verdict};
use vstd::prelude::*;

verus! {

// ------------------------------------------------------------------- plans --

/// Whether two lists of ranges are the same.
pub fn same_ranges(a: &[(u64, u64)], b: &[(u64, u64)]) -> (r: bool)
    ensures
        r == (a@ == b@),
{
    if a.len() != b.len() {
        return false;
    }
    let mut i: usize = 0;
    while i < a.len()
        invariant
            i <= a@.len(),
            a@.len() == b@.len(),
            forall|j: int| 0 <= j < i ==> a@[j] == b@[j],
        decreases a.len() - i,
    {
        let x: (u64, u64) = a[i];
        let y: (u64, u64) = b[i];
        if x.0 != y.0 || x.1 != y.1 {
            assert(a@[i as int] != b@[i as int]);
            return false;
        }
        i = i + 1;
    }
    assert(a@ =~= b@);
    true
}

/// What the probes of one index came to.
#[derive(Clone, Copy, PartialEq, Eq, Structural, Debug)]
pub struct Planned {
    /// How many keys were probed.
    pub probes: usize,
    /// Whether every plan named exactly what was read.
    pub exact: bool,
    /// The most bytes that one key's plan names.
    pub widest_plan: u64,
    /// Keys whose plan names something to fetch.
    pub block_probes: usize,
    /// Keys that are answered from their index record.
    pub inline_probes: usize,
}

impl Planned {
    /// Nothing probed yet.
    pub fn new() -> (p: Planned)
        ensures
            p == (Planned {
                probes: 0,
                exact: true,
                widest_plan: 0,
                block_probes: 0,
                inline_probes: 0,
            }),
    {
        Planned { probes: 0, exact: true, widest_plan: 0, block_probes: 0, inline_probes: 0 }
    }

    /// Holds the plan of a key against what reading it read, and what counting
    /// it read. The read must be exactly the plan, and the count must read
    /// nothing. A key that is answered from its index record plans nothing.
    pub fn note_probe(
        &mut self,
        plan: &[(u64, u64)],
        read: &[(u64, u64)],
        counted: &[(u64, u64)],
    ) -> (ok: bool)
        requires
            old(self).probes < usize::MAX,
            old(self).block_probes < usize::MAX,
            old(self).inline_probes < usize::MAX,
            bytes_in(plan@) <= u64::MAX,
        ensures
            ok == (plan@ == read@ && counted@.len() == 0),
            final(self).probes == old(self).probes + 1,
            final(self).exact == (old(self).exact && ok),
            final(self).widest_plan == if bytes_in(plan@) > old(self).widest_plan {
                bytes_in(plan@)
            } else {
                old(self).widest_plan as nat
            },
            final(self).block_probes == old(self).block_probes + if plan@.len() > 0 {
                1int
            } else {
                0
            },
            final(self).inline_probes == old(self).inline_probes + if plan@.len() == 0 {
                1int
            } else {
                0
            },
    {
        let ok: bool = same_ranges(plan, read) && counted.len() == 0;
        self.probes = self.probes + 1;
        self.exact = self.exact && ok;
        let wide: u64 = range_bytes(plan);
        if wide > self.widest_plan {
            self.widest_plan = wide;
        }
        if plan.len() > 0 {
            self.block_probes = self.block_probes + 1;
        } else {
            self.inline_probes = self.inline_probes + 1;
        }
        ok
    }

    /// Holds a key that is not there against what was planned and read for it:
    /// nothing.
    pub fn note_absent(&mut self, plan: &[(u64, u64)], read: &[(u64, u64)]) -> (ok: bool)
        ensures
            ok == (plan@.len() == 0 && read@.len() == 0),
            *final(self) == (Planned { exact: old(self).exact && ok, ..*old(self) }),
    {
        let ok: bool = plan.len() == 0 && read.len() == 0;
        self.exact = self.exact && ok;
        ok
    }

    /// Holds the shared plan of all probes against what reading them read.
    pub fn note_shared(&mut self, plan: &[(u64, u64)], read: &[(u64, u64)]) -> (ok: bool)
        ensures
            ok == (plan@ == read@),
            *final(self) == (Planned { exact: old(self).exact && ok, ..*old(self) }),
    {
        let ok: bool = same_ranges(plan, read);
        self.exact = self.exact && ok;
        ok
    }
}

/// Whether a walk over a range of the dictionary kept to its two plans: the
/// second plan was made from the first alone, the walk read inside both, and
/// neither was empty.
pub fn walk_is_planned(
    first: &[(u64, u64)],
    second: &[(u64, u64)],
    after_plans: &[(u64, u64)],
    read: &[(u64, u64)],
) -> (r: bool)
    requires
        addressable(first@),
        addressable(second@),
        addressable(after_plans@),
        addressable(read@),
    ensures
        r == ((forall|i: int| 0 <= i < after_plans@.len() ==> inside(#[trigger] after_plans@[i], first@))
            && (forall|i: int|
            0 <= i < read@.len() ==> inside(#[trigger] read@[i], first@ + second@)) && first@.len()
            > 0 && second@.len() > 0),
{
    let mut both: Vec<(u64, u64)> = Vec::new();
    let mut i: usize = 0;
    while i < first.len()
        invariant
            i <= first@.len(),
            both@ =~= first@.take(i as int),
        decreases first.len() - i,
    {
        both.push(first[i]);
        i = i + 1;
    }
    let mut i: usize = 0;
    while i < second.len()
        invariant
            i <= second@.len(),
            both@ =~= first@ + second@.take(i as int),
        decreases second.len() - i,
    {
        both.push(second[i]);
        i = i + 1;
    }
    proof {
        assert(both@ =~= first@ + second@);
        assert forall|k: int| 0 <= k < both@.len() implies end_of(#[trigger] both@[k])
            <= u64::MAX by {
            if k < first@.len() {
                assert(both@[k] == first@[k]);
            } else {
                assert(both@[k] == second@[k - first@.len()]);
            }
        }
    }
    let a: bool = within(after_plans, first);
    let b: bool = within(read, &both);
    a && b && first.len() > 0 && second.len() > 0
}

// ------------------------------------------------------------------ probes --

/// What the engine tells of one probed key.
pub struct ProbeFacts {
    /// The offsets and the lengths of its extents within their blocks; `None`
    /// if the key is not there.
    pub extents: Option<Vec<(u64, u64)>>,
    /// The ranges of the file that reading it fetches; `None` if that could not
    /// be told.
    pub ranges: Option<Vec<(u64, u64)>>,
}

/// Whether nothing of a key lies in a range of the file, and something of it
/// lies elsewhere.
pub open spec fn clear_of(p: ProbeFacts, range: (u64, u64)) -> bool {
    match p.ranges {
        Some(r) => r@.len() > 0 && forall|i: int|
            0 <= i < r@.len() ==> end_of(#[trigger] r@[i]) <= range.0 || r@[i].0 >= end_of(range),
        None => false,
    }
}

/// Whether a key has one extent, and a place in the file.
pub open spec fn single_extent(p: ProbeFacts) -> bool {
    p.extents is Some && p.extents->0@.len() == 1 && p.ranges is Some && p.ranges->0@.len() > 0
}

/// The first key, at or behind `from`, that a range leaves alone; their number
/// if there is none.
pub open spec fn first_clear(probes: Seq<ProbeFacts>, range: (u64, u64), from: int) -> int
    decreases probes.len() - from,
{
    if from >= probes.len() {
        probes.len() as int
    } else if clear_of(probes[from], range) {
        from
    } else {
        first_clear(probes, range, from + 1)
    }
}

/// Whether key `k` can be damaged without touching some other: it has one
/// extent, and there is a key that its range leaves alone.
pub open spec fn suits(probes: Seq<ProbeFacts>, k: int) -> bool {
    single_extent(probes[k]) && first_clear(probes, probes[k].ranges->0@[0], 0) < probes.len()
}

/// Which byte is damaged, and whose answers must not change.
#[derive(Clone, Copy, PartialEq, Eq, Structural, Debug)]
pub struct DamageSite {
    /// The key whose byte is damaged.
    pub damaged: usize,
    /// The byte of the file.
    pub at: u64,
    /// A key that the damage cannot reach.
    pub intact: usize,
}

fn find_clear(probes: &Vec<ProbeFacts>, range: (u64, u64)) -> (k: usize)
    requires
        end_of(range) <= u64::MAX,
        forall|i: int|
            0 <= i < probes@.len() ==> ((#[trigger] probes@[i]).ranges matches Some(r) ==> addressable(
                r@,
            )),
    ensures
        k == first_clear(probes@, range, 0),
        k <= probes@.len(),
{
    let mut k: usize = 0;
    while k < probes.len()
        invariant
            k <= probes@.len(),
            end_of(range) <= u64::MAX,
            first_clear(probes@, range, 0) == first_clear(probes@, range, k as int),
            forall|i: int|
                0 <= i < probes@.len() ==> ((#[trigger] probes@[i]).ranges matches Some(r)
                    ==> addressable(r@)),
        decreases probes.len() - k,
    {
        let mut clear: bool = false;
        assert(probes@[k as int].ranges matches Some(r) ==> addressable(r@));
        match &probes[k].ranges {
            Some(r) => {
                clear = r.len() > 0;
                let mut i: usize = 0;
                while i < r.len()
                    invariant
                        i <= r@.len(),
                        end_of(range) <= u64::MAX,
                        addressable(r@),
                        clear == (r@.len() > 0 && forall|j: int|
                            0 <= j < i ==> end_of(#[trigger] r@[j]) <= range.0 || r@[j].0
                                >= end_of(range)),
                    decreases r.len() - i,
                {
                    let one: (u64, u64) = r[i];
                    assert(end_of(r@[i as int]) <= u64::MAX);
                    if !(one.0 + one.1 <= range.0 || one.0 >= range.0 + range.1) {
                        clear = false;
                    }
                    i = i + 1;
                }
            },
            None => {},
        }
        assert(clear == clear_of(probes@[k as int], range));
        if clear {
            return k;
        }
        k = k + 1;
    }
    k
}

/// The first key that can be damaged without touching some other: the byte in
/// the middle of its extent, and the first key that its range leaves alone.
pub fn damage_site(probes: &Vec<ProbeFacts>) -> (r: Option<DamageSite>)
    requires
        forall|i: int|
            0 <= i < probes@.len() ==> ((#[trigger] probes@[i]).ranges matches Some(r) ==> addressable(
                r@,
            )),
        forall|i: int|
            0 <= i < probes@.len() && single_extent(#[trigger] probes@[i])
                ==> probes@[i].ranges->0@[0].0 + probes@[i].extents->0@[0].0
                + probes@[i].extents->0@[0].1 <= u64::MAX,
    ensures
        r is Some <==> exists|k: int| 0 <= k < probes@.len() && #[trigger] suits(probes@, k),
        r matches Some(s) ==> {
            &&& s.damaged < probes@.len()
            &&& suits(probes@, s.damaged as int)
            &&& forall|k: int| 0 <= k < s.damaged ==> !#[trigger] suits(probes@, k)
            &&& s.intact == first_clear(
                probes@,
                probes@[s.damaged as int].ranges->0@[0],
                0,
            )
            &&& s.at == probes@[s.damaged as int].ranges->0@[0].0
                + probes@[s.damaged as int].extents->0@[0].0
                + probes@[s.damaged as int].extents->0@[0].1 / 2
        },
{
    let mut k: usize = 0;
    while k < probes.len()
        invariant
            k <= probes@.len(),
            forall|i: int| 0 <= i < k ==> !#[trigger] suits(probes@, i),
            forall|i: int|
                0 <= i < probes@.len() ==> ((#[trigger] probes@[i]).ranges matches Some(r)
                    ==> addressable(r@)),
            forall|i: int|
                0 <= i < probes@.len() && single_extent(#[trigger] probes@[i])
                    ==> probes@[i].ranges->0@[0].0 + probes@[i].extents->0@[0].0
                    + probes@[i].extents->0@[0].1 <= u64::MAX,
        decreases probes.len() - k,
    {
        let p: &ProbeFacts = &probes[k];
        assert(*p == probes@[k as int]);
        match (&p.extents, &p.ranges) {
            (Some(e), Some(r)) => {
                if e.len() == 1 && r.len() > 0 {
                    let range: (u64, u64) = r[0];
                    let ext: (u64, u64) = e[0];
                    proof {
                        assert(addressable(r@));
                        assert(end_of(r@[0]) <= u64::MAX);
                        assert(single_extent(probes@[k as int]));
                    }
                    let intact: usize = find_clear(probes, range);
                    if intact < probes.len() {
                        assert(suits(probes@, k as int));
                        return Some(
                            DamageSite { damaged: k, at: range.0 + ext.0 + ext.1 / 2, intact },
                        );
                    }
                }
            },
            _ => {},
        }
        assert(!suits(probes@, k as int));
        k = k + 1;
    }
    None
}

/// The key that must not change has nothing in the range that is damaged.
pub proof fn lemma_intact_is_clear(probes: Seq<ProbeFacts>, range: (u64, u64), from: int)
    requires
        0 <= from,
        first_clear(probes, range, from) < probes.len(),
    ensures
        from <= first_clear(probes, range, from),
        clear_of(probes[first_clear(probes, range, from)], range),
    decreases probes.len() - from,
{
    if from < probes.len() && !clear_of(probes[from], range) {
        lemma_intact_is_clear(probes, range, from + 1);
    }
}

/// The first probe that is clear of a range is the first: none before it is clear, and
/// where there is none, none is.
pub proof fn lemma_none_before_is_clear(probes: Seq<ProbeFacts>, range: (u64, u64), from: int, i: int)
    requires
        0 <= from <= i < probes.len(),
        i < first_clear(probes, range, from),
    ensures
        !clear_of(probes[i], range),
    decreases probes.len() - from,
{
    if from < i && !clear_of(probes[from], range) {
        lemma_none_before_is_clear(probes, range, from + 1, i);
    }
}

/// A probe that is clear of a range reads something, and no byte of the range.
pub proof fn lemma_clear_shares_no_byte(p: ProbeFacts, range: (u64, u64))
    requires
        range.1 > 0,
        p.ranges matches Some(r) ==> forall|i: int| 0 <= i < r@.len() ==> (#[trigger] r@[i]).1 > 0,
    ensures
        clear_of(p, range) <==> p.ranges is Some && p.ranges->0@.len() > 0 && forall|i: int, b: int|
            0 <= i < p.ranges->0@.len() && range.0 <= b < range.0 + range.1 ==> !#[trigger] covers(
                p.ranges->0@[i],
                b,
            ),
{
    if p.ranges is Some && p.ranges->0@.len() > 0 {
        let r = p.ranges->0@;
        if forall|i: int, b: int|
            0 <= i < r.len() && range.0 <= b < range.0 + range.1 ==> !#[trigger] covers(r[i], b) {
            assert forall|i: int| 0 <= i < r.len() implies end_of(#[trigger] r[i]) <= range.0
                || r[i].0 >= end_of(range) by {
                assert(!covers(r[i], range.0 as int));
                assert(!covers(r[i], r[i].0 as int) || r[i].0 < range.0 || r[i].0 >= end_of(range));
            }
        }
    }
}

/// Whether a byte lies in a range.
pub open spec fn covers(r: (u64, u64), b: int) -> bool {
    r.0 <= b < r.0 + r.1
}

/// A probe suits if all that it reads is one extent, and some probe, whichever it is, reads
/// none of the bytes of its first range.
pub proof fn lemma_suits_when(probes: Seq<ProbeFacts>, k: int, j: int)
    requires
        0 <= k < probes.len(),
        0 <= j < probes.len(),
    ensures
        suits(probes, k) ==> probes[k].extents is Some && probes[k].extents->0@.len() == 1
            && probes[k].ranges is Some && probes[k].ranges->0@.len() >= 1,
        probes[k].extents is Some && probes[k].extents->0@.len() == 1 && probes[k].ranges is Some
            && probes[k].ranges->0@.len() >= 1 && clear_of(probes[j], probes[k].ranges->0@[0])
            ==> suits(probes, k),
        suits(probes, k) ==> exists|i: int|
            0 <= i < probes.len() && clear_of(#[trigger] probes[i], probes[k].ranges->0@[0]),
{
    if probes[k].ranges is Some {
        let range = probes[k].ranges->0@[0];
        if first_clear(probes, range, 0) < probes.len() {
            lemma_intact_is_clear(probes, range, 0);
            assert(clear_of(probes[first_clear(probes, range, 0)], range));
        } else if clear_of(probes[j], range) {
            lemma_none_before_is_clear(probes, range, 0, j);
        }
    }
}

/// What the engine tells of one key of the dictionary.
#[derive(Clone, Copy, PartialEq, Eq, Structural, Debug)]
pub struct KeyFacts {
    /// Whether it is the key that is no text.
    pub binary: bool,
    /// Its postings.
    pub count: u64,
    /// The furthest offset of what reading it fetches, or zero.
    pub furthest: u64,
    /// Whether reading it fetches anything.
    pub blocked: bool,
}

/// Whether a key may be the rare one.
pub open spec fn may_be_rare(k: KeyFacts) -> bool {
    !k.binary && k.count >= 1
}

/// Whether one key is rarer than another: fewer postings, or as many and
/// further into the file.
pub open spec fn rarer(a: KeyFacts, b: KeyFacts) -> bool {
    a.count < b.count || (a.count == b.count && a.furthest > b.furthest)
}

/// The rare key: no other is rarer, and none before it is as rare.
pub open spec fn is_rarest(keys: Seq<KeyFacts>, r: int) -> bool {
    &&& 0 <= r < keys.len()
    &&& may_be_rare(keys[r])
    &&& forall|i: int|
        0 <= i < keys.len() && may_be_rare(#[trigger] keys[i]) ==> !rarer(keys[i], keys[r])
    &&& forall|i: int| 0 <= i < r && may_be_rare(#[trigger] keys[i]) ==> rarer(keys[r], keys[i])
}

/// The rare key of a dictionary, if any key has a posting.
pub fn rarest_key(keys: &[KeyFacts]) -> (r: Option<usize>)
    ensures
        r is Some <==> exists|i: int| 0 <= i < keys@.len() && may_be_rare(#[trigger] keys@[i]),
        r matches Some(k) ==> is_rarest(keys@, k as int),
{
    let mut best: Option<usize> = None;
    let mut i: usize = 0;
    while i < keys.len()
        invariant
            i <= keys@.len(),
            best is None ==> forall|j: int| 0 <= j < i ==> !may_be_rare(#[trigger] keys@[j]),
            best matches Some(b) ==> b < i && is_rarest(keys@.take(i as int), b as int),
        decreases keys.len() - i,
    {
        let k: KeyFacts = keys[i];
        let ghost t = keys@.take(i + 1);
        let ghost u = keys@.take(i as int);
        assert(forall|j: int| 0 <= j < i ==> #[trigger] t[j] == u[j]);
        if !k.binary && k.count >= 1 {
            let better: bool = match best {
                None => true,
                Some(b) => {
                    let m: KeyFacts = keys[b];
                    assert(m == u[b as int]);
                    k.count < m.count || (k.count == m.count && k.furthest > m.furthest)
                },
            };
            if better {
                proof {
                    assert(t[i as int] == k);
                    if let Some(b) = best {
                        assert forall|j: int| 0 <= j < i && may_be_rare(#[trigger] t[j]) implies rarer(
                            k,
                            t[j],
                        ) by {
                            assert(!rarer(u[j], u[b as int]));
                        }
                    }
                    assert(is_rarest(t, i as int));
                }
                best = Some(i);
            } else {
                proof {
                    if let Some(b) = best {
                        assert(t[b as int] == u[b as int]);
                        assert(is_rarest(t, b as int));
                    }
                }
            }
        } else {
            proof {
                if let Some(b) = best {
                    assert(t[b as int] == u[b as int]);
                    assert(is_rarest(t, b as int));
                }
            }
        }
        i = i + 1;
    }
    proof {
        assert(keys@.take(i as int) =~= keys@);
    }
    best
}

/// The common key: no other has more postings, and none before it as many.
pub open spec fn is_commonest(keys: Seq<KeyFacts>, r: int) -> bool {
    &&& 0 <= r < keys.len()
    &&& !keys[r].binary
    &&& forall|i: int|
        0 <= i < keys.len() && !(#[trigger] keys[i]).binary ==> keys[i].count <= keys[r].count
    &&& forall|i: int| 0 <= i < r && !(#[trigger] keys[i]).binary ==> keys[i].count < keys[r].count
}

/// The common key of a dictionary, if it has a text key.
pub fn commonest_key(keys: &[KeyFacts]) -> (r: Option<usize>)
    ensures
        r is Some <==> exists|i: int| 0 <= i < keys@.len() && !(#[trigger] keys@[i]).binary,
        r matches Some(k) ==> is_commonest(keys@, k as int),
{
    let mut best: Option<usize> = None;
    let mut i: usize = 0;
    while i < keys.len()
        invariant
            i <= keys@.len(),
            best is None ==> forall|j: int| 0 <= j < i ==> (#[trigger] keys@[j]).binary,
            best matches Some(b) ==> {
                &&& b < i
                &&& !keys@[b as int].binary
                &&& forall|j: int|
                    0 <= j < i && !(#[trigger] keys@[j]).binary ==> keys@[j].count
                        <= keys@[b as int].count
                &&& forall|j: int|
                    0 <= j < b && !(#[trigger] keys@[j]).binary ==> keys@[j].count
                        < keys@[b as int].count
            },
        decreases keys.len() - i,
    {
        let k: KeyFacts = keys[i];
        if !k.binary {
            let better: bool = match best {
                None => true,
                Some(b) => k.count > keys[b].count,
            };
            if better {
                best = Some(i);
            }
        }
        i = i + 1;
    }
    best
}

/// Whether a key may be the rare one whose postings lie in a block.
pub open spec fn may_be_blocked(k: KeyFacts) -> bool {
    !k.binary && k.blocked && k.count >= 1
}

/// The rarest key whose postings lie in a block: no other has fewer, and none
/// before it as few.
pub open spec fn is_rarest_blocked(keys: Seq<KeyFacts>, r: int) -> bool {
    &&& 0 <= r < keys.len()
    &&& may_be_blocked(keys[r])
    &&& forall|i: int|
        0 <= i < keys.len() && may_be_blocked(#[trigger] keys[i]) ==> keys[i].count
            >= keys[r].count
    &&& forall|i: int|
        0 <= i < r && may_be_blocked(#[trigger] keys[i]) ==> keys[i].count > keys[r].count
}

/// The rarest key whose postings lie in a block, if there is one.
pub fn rarest_blocked_key(keys: &[KeyFacts]) -> (r: Option<usize>)
    ensures
        r is Some <==> exists|i: int| 0 <= i < keys@.len() && may_be_blocked(#[trigger] keys@[i]),
        r matches Some(k) ==> is_rarest_blocked(keys@, k as int),
{
    let mut best: Option<usize> = None;
    let mut i: usize = 0;
    while i < keys.len()
        invariant
            i <= keys@.len(),
            best is None ==> forall|j: int| 0 <= j < i ==> !may_be_blocked(#[trigger] keys@[j]),
            best matches Some(b) ==> {
                &&& b < i
                &&& may_be_blocked(keys@[b as int])
                &&& forall|j: int|
                    0 <= j < i && may_be_blocked(#[trigger] keys@[j]) ==> keys@[j].count
                        >= keys@[b as int].count
                &&& forall|j: int|
                    0 <= j < b && may_be_blocked(#[trigger] keys@[j]) ==> keys@[j].count
                        > keys@[b as int].count
            },
        decreases keys.len() - i,
    {
        let k: KeyFacts = keys[i];
        if !k.binary && k.blocked && k.count >= 1 {
            let better: bool = match best {
                None => true,
                Some(b) => k.count < keys[b].count,
            };
            if better {
                best = Some(i);
            }
        }
        i = i + 1;
    }
    best
}

/// The key right behind another in byte order.
pub fn next_key(key: &[u8]) -> (n: Vec<u8>)
    ensures
        n@ == key@.push(0),
{
    let mut n: Vec<u8> = crate::bytes::to_owned(key);
    n.push(0);
    n
}

/// Nothing lies between a key and the one right behind it.
pub proof fn lemma_next_key(key: Seq<u8>, other: Seq<u8>)
    requires
        crate::bytes::bytes_le(key, other),
        crate::bytes::bytes_lt(other, key.push(0)),
    ensures
        other == key,
{
    let next = key.push(0);
    crate::bytes::lemma_lcp(other, next);
    crate::bytes::lemma_lcp(key, other);
    crate::bytes::lemma_lcp_symmetric(key, other);
    let q = crate::bytes::lcp(key, other);
    assert forall|i: int| 0 <= i < q implies other[i] == next[i] by {
        assert(key[i] == other[i]);
    }
    if q < key.len() {
        crate::bytes::lemma_lcp_unique(other, next, q);
    } else if other.len() == key.len() {
        assert(other =~= key);
    } else if other[q as int] == 0 {
        crate::bytes::lemma_lcp_unique(other, next, next.len());
    } else {
        crate::bytes::lemma_lcp_unique(other, next, q);
    }
}

// ------------------------------------------------- counts and dictionaries --

/// The rarest key: no text key with postings has fewer, none with as few lies further out,
/// and of those alike it is the first; so there is only one.
pub proof fn lemma_rarest_is_one(keys: Seq<KeyFacts>, r: int, i: int)
    requires
        is_rarest(keys, r),
        0 <= i < keys.len(),
        !keys[i].binary,
        keys[i].count >= 1,
    ensures
        !keys[r].binary && keys[r].count >= 1,
        keys[r].count <= keys[i].count,
        keys[r].count == keys[i].count ==> keys[r].furthest >= keys[i].furthest,
        keys[r].count == keys[i].count && keys[r].furthest == keys[i].furthest ==> r <= i,
        is_rarest(keys, i) ==> i == r,
{
    assert(may_be_rare(keys[i]));
    assert(!rarer(keys[i], keys[r]));
    if i < r {
        assert(rarer(keys[r], keys[i]));
    }
}

/// The commonest key: no text key has more postings, and of those with as many it is the
/// first; so there is only one.
pub proof fn lemma_commonest_is_one(keys: Seq<KeyFacts>, r: int, i: int)
    requires
        is_commonest(keys, r),
        0 <= i < keys.len(),
        !keys[i].binary,
    ensures
        !keys[r].binary,
        keys[r].count >= keys[i].count,
        keys[r].count == keys[i].count ==> r <= i,
        is_commonest(keys, i) ==> i == r,
{
}

/// The rarest key that fetches: no text key that fetches has fewer postings, and of those
/// with as few it is the first; so there is only one.
pub proof fn lemma_rarest_blocked_is_one(keys: Seq<KeyFacts>, r: int, i: int)
    requires
        is_rarest_blocked(keys, r),
        0 <= i < keys.len(),
        !keys[i].binary,
        keys[i].blocked,
        keys[i].count >= 1,
    ensures
        !keys[r].binary && keys[r].blocked && keys[r].count >= 1,
        keys[r].count <= keys[i].count,
        keys[r].count == keys[i].count ==> r <= i,
        is_rarest_blocked(keys, i) ==> i == r,
{
    assert(may_be_blocked(keys[i]));
}

/// What counting from the resident sections came to.
#[derive(Clone, Copy, PartialEq, Eq, Structural, Debug)]
pub struct Counted {
    /// Whether every count was told.
    pub all: bool,
    /// The keys that a scan of the counts gave.
    pub scanned: usize,
}

impl Counted {
    /// Nothing counted yet.
    pub fn new() -> (c: Counted)
        ensures
            c == (Counted { all: true, scanned: 0 }),
    {
        Counted { all: true, scanned: 0 }
    }

    /// Takes in a key that was probed: whether its values were counted, and how
    /// many bytes it stores.
    pub fn note_probe(&mut self, counted: bool, stored: u64)
        ensures
            *final(self) == (Counted {
                all: old(self).all && counted && stored > 0,
                ..*old(self)
            }),
    {
        self.all = self.all && counted && stored > 0;
    }

    /// Takes in a key that the scan gave.
    pub fn note_scanned(&mut self, counted: bool)
        requires
            old(self).scanned < usize::MAX,
        ensures
            *final(self) == (Counted {
                all: old(self).all && counted,
                scanned: (old(self).scanned + 1) as usize,
            }),
    {
        self.all = self.all && counted;
        self.scanned = self.scanned + 1;
    }

    /// Counts are answered from what is resident: nothing was read for them,
    /// every one was told, and the scan gave every key.
    pub fn resident(&self, reads: usize, keys: usize) -> (v: Verdict)
        ensures
            v == verdict_of(true, reads == 0 && self.all && self.scanned == keys),
    {
        verdict(true, reads == 0 && self.all && self.scanned == keys)
    }
}

/// Keys with their counts.
pub open spec fn key_counts(rows: Seq<(Vec<u8>, u64)>) -> Seq<(Seq<u8>, u64)> {
    Seq::new(rows.len(), |i: int| (rows[i].0@, rows[i].1))
}

/// Whether two walks of a dictionary gave the same keys with the same counts.
pub fn walks_agree(a: &[(Vec<u8>, u64)], b: &[(Vec<u8>, u64)]) -> (r: bool)
    ensures
        r == (key_counts(a@) == key_counts(b@)),
{
    let ghost x = key_counts(a@);
    let ghost y = key_counts(b@);
    if a.len() != b.len() {
        assert(x.len() != y.len());
        return false;
    }
    let mut i: usize = 0;
    while i < a.len()
        invariant
            i <= a@.len(),
            a@.len() == b@.len(),
            x == key_counts(a@),
            y == key_counts(b@),
            forall|j: int| 0 <= j < i ==> x[j] == y[j],
        decreases a.len() - i,
    {
        if a[i].1 != b[i].1 || !bytes_equal(&a[i].0, &b[i].0) {
            assert(x[i as int] != y[i as int]);
            return false;
        }
        i = i + 1;
    }
    assert(x =~= y);
    true
}

/// What the walks of a dictionary's ranges came to.
#[derive(Clone, Copy, PartialEq, Eq, Structural, Debug)]
pub struct Walks {
    /// Whether the open and every walk read what was planned, and every walk
    /// agreed with the whole reader.
    pub exact: bool,
}

impl Walks {
    /// The open, and no walk yet.
    pub fn new(open_exact: bool) -> (w: Walks)
        ensures
            w == (Walks { exact: open_exact }),
    {
        Walks { exact: open_exact }
    }

    /// Takes in one range's walk, and says whether it was right.
    pub fn note(&mut self, planned: bool, agrees: bool) -> (ok: bool)
        ensures
            ok == (planned && agrees),
            *final(self) == (Walks { exact: old(self).exact && ok }),
    {
        let ok: bool = planned && agrees;
        self.exact = self.exact && ok;
        ok
    }
}

// ---------------------------------------------------------------- verdicts --

/// What the reader that a browser downloads may weigh, packed.
pub const BUNDLE_BUDGET: u64 = 0x1_0000;

/// What may come on top of an empty module, packed.
pub const MARGINAL_BUDGET: u64 = 0xA000;

/// What the sizes of the reader say: it keeps to its budget, most of it is its
/// own, and its own part keeps to its budget too.
pub fn bundle_verdicts(packed: u64, floor_packed: u64) -> (r: (Verdict, Verdict, Verdict))
    ensures
        ({
            let own = if packed >= floor_packed {
                packed - floor_packed
            } else {
                0
            };
            r == (
                verdict_of(true, packed <= BUNDLE_BUDGET),
                verdict_of(true, own > floor_packed),
                verdict_of(true, own <= MARGINAL_BUDGET),
            )
        }),
{
    let own: u64 = packed.saturating_sub(floor_packed);
    (
        verdict(true, packed <= BUNDLE_BUDGET),
        verdict(true, own > floor_packed),
        verdict(true, own <= MARGINAL_BUDGET),
    )
}

/// Whether plans are exact on both indexes, and the probes tried what they are
/// about: a run that spans blocks, plans that are not one range, and keys that
/// plan a fetch.
pub fn plans_are_exact(
    wide: &Planned,
    wide_ranges: usize,
    seg: &Planned,
    seg_ranges: usize,
) -> (v: Verdict)
    ensures
        v == verdict_of(
            true,
            wide.exact && seg.exact && seg.widest_plan > 0x1_0000 && wide_ranges >= 2
                && seg_ranges >= 2 && wide.block_probes >= 1 && seg.block_probes >= 1,
        ),
{
    verdict(
        true,
        wide.exact && seg.exact && seg.widest_plan > 0x1_0000 && wide_ranges >= 2 && seg_ranges
            >= 2 && wide.block_probes >= 1 && seg.block_probes >= 1,
    )
}

/// Walks of a dictionary's ranges are right at both sizes of a page.
pub fn walks_are_exact(large: &Walks, small: &Walks) -> (v: Verdict)
    ensures
        v == verdict_of(true, large.exact && small.exact),
{
    verdict(true, large.exact && small.exact)
}

/// Compressing a segment saves enough of it and takes nothing from the open.
pub fn compression_pays(enough: bool, packed: &Search) -> (v: Verdict)
    ensures
        v == verdict_of(true, enough && packed.open_waves <= 1),
{
    verdict(true, enough && packed.open_waves <= 1)
}

/// The waves of a whole search.
pub open spec fn total_waves(s: Search) -> int {
    s.open_waves + s.lookup_waves + s.postings_waves
}

/// A segment opens in two waves where a store opens in three.
pub fn segment_opens_sooner(store: &Search, segment: &Search) -> (v: Verdict)
    ensures
        v == verdict_of(true, segment.open_waves == 2 && store.open_waves == 3),
{
    verdict(true, segment.open_waves == 2 && store.open_waves == 3)
}

/// With a reserve at the head, and a probe that covers it, the open is one
/// wave.
pub fn reserve_opens_at_once(reserve: &Search) -> (v: Verdict)
    ensures
        v == verdict_of(true, reserve.open_waves == 1),
{
    verdict(true, reserve.open_waves == 1)
}

/// With the directory there, a lookup is at most one wave on every shape; the
/// store's rare key takes two without.
pub fn directory_saves_a_wave(with: &[Search], rare_without: &Search) -> (v: Verdict)
    ensures
        v == verdict_of(
            true,
            (forall|i: int| 0 <= i < with@.len() ==> (#[trigger] with@[i]).lookup_waves <= 1)
                && rare_without.lookup_waves == 2,
        ),
{
    let mut i: usize = 0;
    let mut all: bool = true;
    while i < with.len()
        invariant
            i <= with@.len(),
            all == (forall|j: int| 0 <= j < i ==> (#[trigger] with@[j]).lookup_waves <= 1),
        decreases with.len() - i,
    {
        let s: Search = with[i];
        if s.lookup_waves > 1 {
            all = false;
        }
        i = i + 1;
    }
    verdict(true, all && rare_without.lookup_waves == 2)
}

/// A cold search for a common key is three waves at most.
pub fn common_key_in_three(best: &Search) -> (v: Verdict)
    requires
        total_waves(*best) <= u64::MAX,
    ensures
        v == verdict_of(true, total_waves(*best) <= 3),
{
    verdict(true, best.open_waves + best.lookup_waves + best.postings_waves <= 3)
}

/// A rare key's wave of postings reads two pages at most. Where there was no
/// such wave, nothing was tried.
pub fn rare_wave_is_small(rare: Option<&Search>, page: u64) -> (v: Verdict)
    requires
        2 * page <= u64::MAX,
    ensures
        v == match rare {
            Some(s) => verdict_of(s.postings_waves > 0, s.postings_bytes <= 2 * page),
            None => Verdict::NotExercised,
        },
{
    match rare {
        Some(s) => verdict(s.postings_waves > 0, s.postings_bytes <= 2 * page),
        None => Verdict::NotExercised,
    }
}

/// A segment answers a rare key at the dictionary: all its postings, and
/// nothing fetched for them.
pub fn rare_key_is_inline(segment: &Search, postings: u64) -> (v: Verdict)
    ensures
        v == verdict_of(
            true,
            segment.postings_waves == 0 && segment.postings_bytes == 0 && segment.postings
                == postings,
        ),
{
    verdict(
        true,
        segment.postings_waves == 0 && segment.postings_bytes == 0 && segment.postings == postings,
    )
}

/// Every wave of a search counts, whatever it was for.
pub proof fn lemma_every_wave_counts(a: Search, b: Search)
    requires
        a.open_waves <= b.open_waves,
        a.lookup_waves <= b.lookup_waves,
        a.postings_waves <= b.postings_waves,
    ensures
        total_waves(b) - total_waves(a) == (b.open_waves - a.open_waves) + (b.lookup_waves
            - a.lookup_waves) + (b.postings_waves - a.postings_waves),
        b.open_waves == 0 && b.lookup_waves == 0 && b.postings_waves == 0 ==> total_waves(b) == 0,
{
}

} // verus!
