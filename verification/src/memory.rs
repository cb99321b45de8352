//! How much memory a structure holds, by its own accounting: the room that its
//! vectors have, not only what they use.

use vstd::prelude::*;

verus! {

/// The largest `usize` in place of a sum that exceeds it.
pub open spec fn clamped(n: int) -> int {
    if n <= usize::MAX {
        n
    } else {
        usize::MAX as int
    }
}

/// Calls `Vec::shrink_to_fit`. Trusted: it gives room back and leaves the
/// elements as they are.
#[verifier::external_body]
pub(crate) fn shrink<T>(v: &mut Vec<T>)
    ensures
        final(v)@ == old(v)@,
{
    v.shrink_to_fit();
}

/// Calls `Vec::capacity`. Trusted: there is room for at least the elements that
/// are there. How much more there is, the allocator decides.
#[verifier::external_body]
pub(crate) fn room<T>(v: &Vec<T>) -> (c: usize)
    ensures
        c >= v@.len(),
{
    v.capacity()
}

/// `total` and `count` things of `each` bytes.
pub fn weigh(total: usize, count: usize, each: usize) -> (n: usize)
    ensures
        n == clamped(total + count * each),
{
    assert(count * each <= 0xffff_ffff_ffff_ffff * 0xffff_ffff_ffff_ffff) by (nonlinear_arith)
        requires
            count <= 0xffff_ffff_ffff_ffff,
            each <= 0xffff_ffff_ffff_ffff,
    ;
    let exact: u128 = total as u128 + (count as u128) * (each as u128);
    if exact <= usize::MAX as u128 {
        exact as usize
    } else {
        usize::MAX
    }
}

/// A vector, as the memory that it takes: the elements in it, and the bytes of
/// each.
pub type Part = (int, int);

/// What a structure is made of.
#[verifier::ext_equal]
pub struct Memory {
    /// Bytes that no vector's room changes.
    pub fixed: int,
    /// The vectors.
    pub parts: Seq<Part>,
}

/// The bytes that vectors take when each has so much room.
pub open spec fn weight(parts: Seq<Part>, rooms: Seq<int>) -> int
    decreases parts.len(),
{
    if parts.len() == 0 {
        0
    } else {
        weight(parts.drop_last(), rooms.drop_last()) + rooms.last() * parts.last().1
    }
}

impl Memory {
    /// No vector yet.
    pub open spec fn nothing() -> Memory {
        Memory { fixed: 0, parts: Seq::empty() }
    }

    /// One more vector.
    pub open spec fn with(self, len: nat, each: int) -> Memory {
        Memory { fixed: self.fixed, parts: self.parts.push((len as int, each)) }
    }

    /// More bytes that are fixed.
    pub open spec fn with_fixed(self, bytes: int) -> Memory {
        Memory { fixed: self.fixed + bytes, parts: self.parts }
    }

    /// Two structures.
    pub open spec fn and(self, other: Memory) -> Memory {
        Memory { fixed: self.fixed + other.fixed, parts: self.parts + other.parts }
    }

    /// Each vector has room for what is in it.
    pub open spec fn holds(self, rooms: Seq<int>) -> bool {
        &&& rooms.len() == self.parts.len()
        &&& forall|i: int| 0 <= i < rooms.len() ==> #[trigger] rooms[i] >= self.parts[i].0
    }

    /// The bytes that the structure takes when its vectors have so much room.
    pub open spec fn at(self, rooms: Seq<int>) -> int {
        self.fixed + weight(self.parts, rooms)
    }

    /// Whether the structure may take `n` bytes: its vectors' rooms, which the
    /// allocator chose, say so.
    pub open spec fn takes(self, n: int) -> bool {
        exists|rooms: Seq<int>| #[trigger] self.holds(rooms) && n == clamped(self.at(rooms))
    }

    /// The elements of each vector.
    pub open spec fn lens(self) -> Seq<int> {
        Seq::new(self.parts.len(), |i: int| self.parts[i].0)
    }

    /// The numbers are sizes.
    pub open spec fn sized(self) -> bool {
        &&& self.fixed >= 0
        &&& forall|i: int|
            0 <= i < self.parts.len() ==> (#[trigger] self.parts[i]).0 >= 0 && self.parts[i].1 >= 0
    }
}

/// More room weighs no less.
proof fn lemma_weight_monotone(parts: Seq<Part>, less: Seq<int>, more: Seq<int>)
    requires
        less.len() == parts.len() == more.len(),
        forall|i: int| 0 <= i < parts.len() ==> (#[trigger] parts[i]).1 >= 0,
        forall|i: int| 0 <= i < parts.len() ==> 0 <= #[trigger] less[i] <= more[i],
    ensures
        0 <= weight(parts, less) <= weight(parts, more),
    decreases parts.len(),
{
    if parts.len() > 0 {
        lemma_weight_monotone(parts.drop_last(), less.drop_last(), more.drop_last());
        let (a, b, e) = (less.last(), more.last(), parts.last().1);
        assert(0 <= a * e <= b * e) by (nonlinear_arith)
            requires
                0 <= a <= b,
                0 <= e,
        ;
    }
}

/// A structure takes no less than what is in it: its elements, at their sizes.
pub proof fn lemma_takes_what_is_in_it(m: Memory, n: int)
    requires
        m.sized(),
        m.takes(n),
    ensures
        n >= clamped(m.at(m.lens())),
{
    let rooms = choose|rooms: Seq<int>| #[trigger] m.holds(rooms) && n == clamped(m.at(rooms));
    lemma_weight_monotone(m.parts, m.lens(), rooms);
}

/// Vectors may have just the room that they need, or more, and never less.
pub proof fn lemma_rooms_are_at_least_contents(m: Memory, rooms: Seq<int>, i: int)
    requires
        0 <= i < m.parts.len(),
        m.holds(rooms),
    ensures
        rooms.len() == m.parts.len(),
        m.parts[i].0 <= rooms[i],
        m.holds(Seq::new(m.parts.len(), |j: int| m.parts[j].0)),
        m.holds(rooms.update(i, rooms[i] + 1)),
        !m.holds(rooms.update(i, m.parts[i].0 - 1)),
{
    let less = rooms.update(i, m.parts[i].0 - 1);
    assert(less[i] < m.parts[i].0);
    let more = rooms.update(i, rooms[i] + 1);
    assert forall|j: int| 0 <= j < more.len() implies #[trigger] more[j] >= m.parts[j].0 by {
        assert(rooms[j] >= m.parts[j].0);
    }
}

/// What is in a structure adds up vector by vector.
pub proof fn lemma_contents_add_up(m: Memory, other: Memory, len: nat, each: int, bytes: int)
    ensures
        Memory::nothing().at(Memory::nothing().lens()) == 0,
        m.with(len, each).at(m.with(len, each).lens()) == m.at(m.lens()) + len * each,
        m.with_fixed(bytes).at(m.with_fixed(bytes).lens()) == m.at(m.lens()) + bytes,
        m.and(other).at(m.and(other).lens()) == m.at(m.lens()) + other.at(other.lens()),
{
    let w = m.with(len, each);
    assert(w.parts.drop_last() =~= m.parts);
    assert(w.lens().drop_last() =~= m.lens());
    assert(w.lens().last() == len);
    assert(m.with_fixed(bytes).lens() =~= m.lens());
    assert(m.and(other).lens() =~= m.lens() + other.lens());
    lemma_weight_of_both(m.parts, other.parts, m.lens(), other.lens());
}

/// Vectors of two structures weigh what those of each do.
proof fn lemma_weight_of_both(a: Seq<Part>, b: Seq<Part>, x: Seq<int>, y: Seq<int>)
    requires
        a.len() == x.len(),
        b.len() == y.len(),
    ensures
        weight(a + b, x + y) == weight(a, x) + weight(b, y),
    decreases b.len(),
{
    if b.len() == 0 {
        assert(a + b =~= a && x + y =~= x);
    } else {
        assert((a + b).drop_last() =~= a + b.drop_last());
        assert((x + y).drop_last() =~= x + y.drop_last());
        lemma_weight_of_both(a, b.drop_last(), x, y.drop_last());
    }
}

// --------------------------------------------------------------- accounting --

/// Rooms as numbers.
pub open spec fn ints(rooms: Seq<usize>) -> Seq<int> {
    Seq::new(rooms.len(), |i: int| rooms[i] as int)
}

/// The rooms that vectors have, as they are listed.
pub struct Rooms {
    /// The rooms.
    pub list: Vec<usize>,
    /// The vectors that they are of.
    pub parts: Ghost<Seq<Part>>,
}

impl Rooms {
    /// There is room for what is in each vector.
    pub open spec fn wf(self) -> bool {
        &&& self.list@.len() == self.parts@.len()
        &&& forall|i: int|
            0 <= i < self.list@.len() ==> #[trigger] self.list@[i] >= self.parts@[i].0
    }

    /// No vector yet.
    pub fn new() -> (r: Rooms)
        ensures
            r.wf(),
            r.parts@ == Seq::<Part>::empty(),
    {
        Rooms { list: Vec::new(), parts: Ghost(Seq::empty()) }
    }

    /// Takes in a vector with elements of `each` bytes.
    pub fn vector<T>(&mut self, v: &Vec<T>, each: usize)
        requires
            old(self).wf(),
        ensures
            final(self).wf(),
            final(self).parts@ == old(self).parts@.push((v@.len() as int, each as int)),
    {
        self.list.push(room(v));
        proof {
            self.parts@ = self.parts@.push((v@.len() as int, each as int));
        }
    }
}

/// A sum over rooms that are given, as far as it has come.
pub struct Scale<'a> {
    /// The rooms.
    pub rooms: &'a [usize],
    /// How many of them were taken.
    pub next: usize,
    /// The bytes so far.
    pub total: usize,
    /// What the bytes are of.
    pub made: Ghost<Memory>,
}

impl<'a> Scale<'a> {
    /// The sum is that of what was taken.
    pub open spec fn wf(self) -> bool {
        &&& self.made@.sized()
        &&& self.next == self.made@.parts.len()
        &&& self.next <= self.rooms@.len()
        &&& self.total == clamped(self.made@.at(ints(self.rooms@.take(self.next as int))))
    }

    /// Adds a vector with `len` elements of `each` bytes, at the next room.
    pub fn vector(&mut self, Ghost(len): Ghost<nat>, each: usize)
        requires
            old(self).wf(),
            old(self).next < old(self).rooms@.len(),
        ensures
            final(self).wf(),
            final(self).rooms == old(self).rooms,
            final(self).made@ == old(self).made@.with(len, each as int),
    {
        let count: usize = self.rooms[self.next];
        proof {
            let m = self.made@;
            let w = m.with(len, each as int);
            let before = ints(self.rooms@.take(self.next as int));
            let after = ints(self.rooms@.take(self.next + 1));
            assert(w.parts.drop_last() =~= m.parts);
            assert(after.drop_last() =~= before);
            lemma_weight_positive(m.parts, before);
            assert(count * each >= 0) by (nonlinear_arith)
                requires
                    count >= 0,
                    each >= 0,
            ;
            self.made@ = w;
        }
        self.total = weigh(self.total, count, each);
        self.next = self.next + 1;
    }

    /// Adds `count` things of `each` bytes that no room changes.
    pub fn fixed(&mut self, count: usize, each: usize)
        requires
            old(self).wf(),
        ensures
            final(self).wf(),
            final(self).rooms == old(self).rooms,
            final(self).made@ == old(self).made@.with_fixed(count * each),
    {
        proof {
            lemma_weight_positive(
                self.made@.parts,
                ints(self.rooms@.take(self.next as int)),
            );
            assert(count * each >= 0) by (nonlinear_arith)
                requires
                    count >= 0,
                    each >= 0,
            ;
            self.made@ = self.made@.with_fixed(count * each);
        }
        self.total = weigh(self.total, count, each);
    }
}

/// Vectors with rooms take no negative number of bytes.
proof fn lemma_weight_positive(parts: Seq<Part>, rooms: Seq<int>)
    requires
        rooms.len() == parts.len(),
        forall|i: int| 0 <= i < parts.len() ==> (#[trigger] parts[i]).1 >= 0,
        forall|i: int| 0 <= i < rooms.len() ==> #[trigger] rooms[i] >= 0,
    ensures
        weight(parts, rooms) >= 0,
{
    lemma_weight_monotone(parts, rooms, rooms);
}

/// A structure that accounts for its memory.
pub trait Weighed {
    /// What the structure is made of.
    spec fn memory(&self) -> Memory;

    /// Lists the rooms of its vectors.
    fn list_rooms(&self, r: &mut Rooms)
        requires
            old(r).wf(),
        ensures
            final(r).wf(),
            final(r).parts@ == old(r).parts@ + self.memory().parts,
    ;

    /// Adds up its bytes, at the rooms that come next.
    fn weigh_on(&self, s: &mut Scale<'_>)
        requires
            old(s).wf(),
            old(s).next + self.memory().parts.len() <= old(s).rooms@.len(),
        ensures
            final(s).wf(),
            final(s).rooms == old(s).rooms,
            final(s).made@ == old(s).made@.and(self.memory()),
    ;
}

/// How much room each vector of a structure has. There is room for what is in
/// it; how much more there is, the allocator decides.
pub fn rooms_of<W: Weighed>(w: &W) -> (rooms: Vec<usize>)
    ensures
        w.memory().holds(ints(rooms@)),
{
    let mut r: Rooms = Rooms::new();
    w.list_rooms(&mut r);
    proof {
        assert(Seq::<Part>::empty() + w.memory().parts =~= w.memory().parts);
    }
    r.list
}

/// The bytes of a structure whose vectors have so much room, each.
pub fn bytes_at<W: Weighed>(w: &W, rooms: &[usize]) -> (n: usize)
    requires
        rooms@.len() == w.memory().parts.len(),
    ensures
        w.memory().sized(),
        n == clamped(w.memory().at(ints(rooms@))),
{
    let mut s: Scale<'_> = Scale { rooms, next: 0, total: 0, made: Ghost(Memory::nothing()) };
    proof {
        assert(ints(rooms@.take(0)) =~= Seq::<int>::empty());
    }
    w.weigh_on(&mut s);
    proof {
        assert(Memory::nothing().and(w.memory()) =~= w.memory());
        assert(rooms@.take(rooms@.len() as int) =~= rooms@);
    }
    s.total
}

/// The bytes that a structure takes with the room that its vectors have.
pub fn bytes_of<W: Weighed>(w: &W) -> (n: usize)
    ensures
        w.memory().sized(),
        w.memory().takes(n as int),
{
    let rooms: Vec<usize> = rooms_of(w);
    let n: usize = bytes_at(w, &rooms);
    proof {
        assert(w.memory().holds(ints(rooms@)));
    }
    n
}

} // verus!
