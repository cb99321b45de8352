//! Merge sort over values with a total order.

use crate::bytes::{bytes_le, bytes_less, lemma_le_transitive, lemma_order_total};
use vstd::prelude::*;
use vstd::seq_lib::lemma_multiset_commutative;

verus! {

/// Values that can be compared.
pub trait Sortable: Copy {
    /// This value is not after the other.
    spec fn not_after(self, other: Self) -> bool;

    /// Of two values one is not after the other.
    proof fn lemma_total(a: Self, b: Self)
        ensures
            a.not_after(b) || b.not_after(a),
    ;

    /// Not-after carries over.
    proof fn lemma_transitive(a: Self, b: Self, c: Self)
        requires
            a.not_after(b),
            b.not_after(c),
        ensures
            a.not_after(c),
    ;

    /// Whether this value is not after the other.
    fn at_most(&self, other: &Self) -> (r: bool)
        ensures
            r == self.not_after(*other),
    ;
}

impl Sortable for u64 {
    open spec fn not_after(self, other: u64) -> bool {
        self <= other
    }

    proof fn lemma_total(a: u64, b: u64) {
    }

    proof fn lemma_transitive(a: u64, b: u64, c: u64) {
    }

    fn at_most(&self, other: &u64) -> (r: bool) {
        *self <= *other
    }
}

/// Two numbers, ordered by the first and then by the second.
#[derive(Clone, Copy, PartialEq, Eq, Debug, Structural)]
pub struct Pair {
    pub a: u64,
    pub b: u64,
}

impl Sortable for Pair {
    open spec fn not_after(self, other: Pair) -> bool {
        self.a < other.a || (self.a == other.a && self.b <= other.b)
    }

    proof fn lemma_total(a: Pair, b: Pair) {
    }

    proof fn lemma_transitive(a: Pair, b: Pair, c: Pair) {
    }

    fn at_most(&self, other: &Pair) -> (r: bool) {
        self.a < other.a || (self.a == other.a && self.b <= other.b)
    }
}

impl<'a> Sortable for &'a [u8] {
    open spec fn not_after(self, other: &'a [u8]) -> bool {
        bytes_le(self@, other@)
    }

    proof fn lemma_total(a: &'a [u8], b: &'a [u8]) {
        lemma_order_total(a@, b@);
    }

    proof fn lemma_transitive(a: &'a [u8], b: &'a [u8], c: &'a [u8]) {
        lemma_le_transitive(a@, b@, c@);
    }

    fn at_most(&self, other: &&'a [u8]) -> (r: bool) {
        !bytes_less(other, self)
    }
}

/// Each value is not after any that follows it.
pub open spec fn in_order<T: Sortable>(s: Seq<T>) -> bool {
    forall|i: int, j: int| 0 <= i < j < s.len() ==> (#[trigger] s[i]).not_after(#[trigger] s[j])
}

/// Pushing what is not before the last keeps the order.
proof fn lemma_push_in_order<T: Sortable>(s: Seq<T>, x: T)
    requires
        in_order(s),
        s.len() > 0 ==> s.last().not_after(x),
    ensures
        in_order(s.push(x)),
{
    let t = s.push(x);
    assert forall|i: int, j: int| 0 <= i < j < t.len() implies (#[trigger] t[i]).not_after(
        #[trigger] t[j],
    ) by {
        if j == s.len() && i < s.len() - 1 {
            T::lemma_transitive(s[i], s.last(), x);
        }
    }
}

/// Merges two ordered lists.
fn merge<T: Sortable>(a: &Vec<T>, b: &Vec<T>) -> (out: Vec<T>)
    requires
        in_order(a@),
        in_order(b@),
    ensures
        in_order(out@),
        out@.to_multiset() == a@.to_multiset().add(b@.to_multiset()),
{
    let mut out: Vec<T> = Vec::new();
    let mut i: usize = 0;
    let mut j: usize = 0;
    proof {
        assert(a@.take(0) =~= Seq::<T>::empty());
        assert(b@.take(0) =~= Seq::<T>::empty());
        out@.to_multiset_ensures();
        assert(out@.to_multiset() =~= a@.take(0).to_multiset().add(b@.take(0).to_multiset()));
    }
    while i < a.len() || j < b.len()
        invariant
            i <= a@.len(),
            j <= b@.len(),
            in_order(a@),
            in_order(b@),
            in_order(out@),
            out@.to_multiset() == a@.take(i as int).to_multiset().add(
                b@.take(j as int).to_multiset(),
            ),
            out@.len() > 0 && i < a@.len() ==> out@.last().not_after(a@[i as int]),
            out@.len() > 0 && j < b@.len() ==> out@.last().not_after(b@[j as int]),
        decreases a.len() - i + (b.len() - j),
    {
        let from_a: bool = if i >= a.len() {
            false
        } else if j >= b.len() {
            true
        } else {
            a[i].at_most(&b[j])
        };
        let ghost before = out@;
        if from_a {
            let x: T = a[i];
            proof {
                lemma_push_in_order(before, x);
                if j < b@.len() {
                    T::lemma_total(x, b@[j as int]);
                }
                assert(a@.take(i + 1) =~= a@.take(i as int).push(x));
                a@.take(i as int).to_multiset_ensures();
                before.to_multiset_ensures();
                assert(before.push(x).to_multiset() =~= a@.take(i + 1).to_multiset().add(
                    b@.take(j as int).to_multiset(),
                ));
            }
            out.push(x);
            i = i + 1;
        } else {
            let x: T = b[j];
            proof {
                lemma_push_in_order(before, x);
                if i < a@.len() {
                    T::lemma_total(x, a@[i as int]);
                }
                assert(b@.take(j + 1) =~= b@.take(j as int).push(x));
                b@.take(j as int).to_multiset_ensures();
                before.to_multiset_ensures();
                assert(before.push(x).to_multiset() =~= a@.take(i as int).to_multiset().add(
                    b@.take(j + 1).to_multiset(),
                ));
            }
            out.push(x);
            j = j + 1;
        }
    }
    proof {
        assert(a@.take(i as int) =~= a@);
        assert(b@.take(j as int) =~= b@);
    }
    out
}

/// The values from `lo` up to `hi`, in order.
fn sort_range<T: Sortable>(v: &[T], lo: usize, hi: usize) -> (out: Vec<T>)
    requires
        lo <= hi <= v@.len(),
    ensures
        in_order(out@),
        out@.to_multiset() == v@.subrange(lo as int, hi as int).to_multiset(),
    decreases hi - lo,
{
    if hi - lo <= 1 {
        let mut out: Vec<T> = Vec::new();
        if lo < hi {
            out.push(v[lo]);
        }
        proof {
            assert(out@ =~= v@.subrange(lo as int, hi as int));
        }
        out
    } else {
        let mid: usize = lo + (hi - lo) / 2;
        let a: Vec<T> = sort_range(v, lo, mid);
        let b: Vec<T> = sort_range(v, mid, hi);
        proof {
            let x = v@.subrange(lo as int, mid as int);
            let y = v@.subrange(mid as int, hi as int);
            assert(v@.subrange(lo as int, hi as int) =~= x + y);
            lemma_multiset_commutative(x, y);
        }
        merge(&a, &b)
    }
}

/// The values of a list, in order.
pub fn sorted<T: Sortable>(v: &[T]) -> (out: Vec<T>)
    ensures
        in_order(out@),
        out@.to_multiset() == v@.to_multiset(),
        out@.len() == v@.len(),
{
    let out: Vec<T> = sort_range(v, 0, v.len());
    proof {
        assert(v@.subrange(0, v@.len() as int) =~= v@);
        out@.to_multiset_ensures();
        v@.to_multiset_ensures();
    }
    out
}

/// Lists with the same multiset hold the same values.
pub proof fn lemma_same_values<T>(a: Seq<T>, b: Seq<T>, x: T)
    requires
        a.to_multiset() == b.to_multiset(),
    ensures
        a.contains(x) <==> b.contains(x),
{
    a.to_multiset_ensures();
    b.to_multiset_ensures();
    assert(a.contains(x) <==> a.to_multiset().count(x) > 0);
    assert(b.contains(x) <==> b.to_multiset().count(x) > 0);
}

} // verus!
