//! What a store left behind by a crash still holds.

use vstd::prelude::*;

verus! {

/// How many keys are looked for.
pub const KEYS: usize = 3000;

/// Values per key, and in all.
#[derive(Clone, Copy, PartialEq, Eq, Structural, Debug)]
pub struct Survivors {
    /// The fewest values that a key holds.
    pub min: usize,
    /// The most values that a key holds.
    pub max: usize,
    /// The values of all keys.
    pub total: u64,
}

/// The sum of counts.
pub open spec fn sum_of(counts: Seq<usize>) -> nat
    decreases counts.len(),
{
    if counts.len() == 0 {
        0
    } else {
        sum_of(counts.drop_last()) + counts.last() as nat
    }
}

/// A sum is no smaller than that of its front.
proof fn lemma_sum_grows(counts: Seq<usize>, i: int)
    requires
        0 <= i <= counts.len(),
    ensures
        sum_of(counts.take(i)) <= sum_of(counts),
    decreases counts.len() - i,
{
    if i == counts.len() {
        assert(counts.take(i) =~= counts);
    } else {
        lemma_sum_grows(counts, i + 1);
        assert(counts.take(i + 1).drop_last() =~= counts.take(i));
    }
}

/// The fewest, the most and the sum of what the keys hold. With no key the
/// fewest is the largest number there is.
pub fn survivors(counts: &[usize]) -> (s: Survivors)
    requires
        sum_of(counts@) <= u64::MAX,
    ensures
        s.total == sum_of(counts@),
        forall|i: int| 0 <= i < counts@.len() ==> s.min <= #[trigger] counts@[i] <= s.max,
        counts@.len() > 0 ==> counts@.contains(s.min) && counts@.contains(s.max),
        counts@.len() == 0 ==> s.min == usize::MAX && s.max == 0,
{
    let mut s: Survivors = Survivors { min: usize::MAX, max: 0, total: 0 };
    let mut i: usize = 0;
    proof {
        assert(counts@.take(0) =~= Seq::<usize>::empty());
    }
    while i < counts.len()
        invariant
            i <= counts@.len(),
            sum_of(counts@) <= u64::MAX,
            s.total == sum_of(counts@.take(i as int)),
            forall|j: int| 0 <= j < i ==> s.min <= #[trigger] counts@[j] <= s.max,
            i > 0 ==> counts@.contains(s.min) && counts@.contains(s.max),
            i == 0 ==> s.min == usize::MAX && s.max == 0,
        decreases counts.len() - i,
    {
        let n: usize = counts[i];
        proof {
            lemma_sum_grows(counts@, i + 1);
            assert(counts@.take(i + 1).drop_last() =~= counts@.take(i as int));
            assert(counts@[i as int] == n);
        }
        s.total = s.total + n as u64;
        if n < s.min || i == 0 {
            s.min = n;
        }
        if n > s.max || i == 0 {
            s.max = n;
        }
        i = i + 1;
    }
    proof {
        assert(counts@.take(i as int) =~= counts@);
    }
    s
}

/// What two lists come to together is what they come to one by one.
pub proof fn lemma_sums_add_up(a: Seq<usize>, b: Seq<usize>)
    ensures
        sum_of(a + b) == sum_of(a) + sum_of(b),
        a.len() == 1 ==> sum_of(a) == a[0],
    decreases b.len(),
{
    reveal_with_fuel(sum_of, 2);
    if b.len() == 0 {
        assert(a + b =~= a);
    } else {
        lemma_sums_add_up(a, b.drop_last());
        assert((a + b).drop_last() =~= a + b.drop_last());
    }
}

} // verus!
