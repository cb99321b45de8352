//! One writer and many readers: what a reader may see of a state, and what it
//! may not.

use crate::bytes::push_bytes;
use crate::digits::{decimal, padded};
use crate::prefix::{be_bytes, push_be64};
use crate::text::same_text;
use vstd::prelude::*;

verus! {

/// How many keys there are.
pub const KEYS: usize = 2000;

/// How many rounds the writer runs.
pub const ROUNDS: usize = 60;

/// How many readers run beside it.
pub const READERS: usize = 4;

/// How far apart the keys are that a reader looks at.
pub const STRIDE: usize = 97;

/// The key of a number: a letter and at least eight decimal digits.
pub open spec fn key_of(k: nat) -> Seq<u8> {
    seq![107u8] + padded(k, 8)
}

/// The key of a number.
pub fn key(k: usize) -> (out: Vec<u8>)
    ensures
        out@ == key_of(k as nat),
{
    let mut out: Vec<u8> = Vec::new();
    out.push(107);
    push_bytes(&mut out, &decimal(k as u64, 8));
    proof {
        assert(out@ =~= key_of(k as nat));
    }
    out
}

/// When the space of what was overwritten may be used again.
#[derive(Clone, Copy, PartialEq, Eq, Structural, Debug)]
pub enum ReclaimPolicy {
    /// At once.
    Now,
    /// After eight more states.
    AfterEight,
    /// When the store is closed.
    OnClose,
    /// Not at all.
    Never,
    /// When no reader holds the state.
    AfterReads,
}

/// The policy of a name; the last one where no other is named.
pub open spec fn policy_named(name: Option<Seq<char>>) -> ReclaimPolicy {
    if name == Some("now"@) {
        ReclaimPolicy::Now
    } else if name == Some("delay"@) {
        ReclaimPolicy::AfterEight
    } else if name == Some("onclose"@) {
        ReclaimPolicy::OnClose
    } else if name == Some("never"@) {
        ReclaimPolicy::Never
    } else {
        ReclaimPolicy::AfterReads
    }
}

/// Every policy has its name, and where none of these is given it is the one that waits
/// for the readers.
pub proof fn lemma_policies_are_named(name: Option<Seq<char>>)
    ensures
        policy_named(name) is Now <==> name == Some("now"@),
        policy_named(name) is AfterEight <==> name == Some("delay"@),
        policy_named(name) is OnClose <==> name == Some("onclose"@),
        policy_named(name) is Never <==> name == Some("never"@),
        policy_named(name) is AfterReads <==> name != Some("now"@) && name != Some("delay"@) && name
            != Some("onclose"@) && name != Some("never"@),
{
    reveal_strlit("now");
    reveal_strlit("delay");
    reveal_strlit("onclose");
    reveal_strlit("never");
    assert("now"@.len() == 3 && "onclose"@.len() == 7);
    assert("delay"@[0] == 'd' && "never"@[0] == 'n');
}

/// The policy of a name; the last one where no other is named.
pub fn policy(name: Option<&str>) -> (p: ReclaimPolicy)
    ensures
        p == policy_named(
            match name {
                Some(n) => Some(n@),
                None => None,
            },
        ),
{
    match name {
        Some(n) => {
            if same_text(n, "now") {
                ReclaimPolicy::Now
            } else if same_text(n, "delay") {
                ReclaimPolicy::AfterEight
            } else if same_text(n, "onclose") {
                ReclaimPolicy::OnClose
            } else if same_text(n, "never") {
                ReclaimPolicy::Never
            } else {
                ReclaimPolicy::AfterReads
            }
        },
        None => ReclaimPolicy::AfterReads,
    }
}

/// The value that a round appends to a key: the round above the key, then a
/// filler, ninety-six bytes in all.
pub fn round_value(round: u64, k: u64) -> (v: Vec<u8>)
    ensures
        v@ == be_bytes(((round << 32) | k) as nat, 8) + Seq::new(88, |i: int| 120u8),
{
    let mut v: Vec<u8> = Vec::new();
    push_be64(&mut v, (round << 32) | k);
    push_bytes(&mut v, &vec![120u8; 88]);
    proof {
        assert(v@ =~= be_bytes(((round << 32) | k) as nat, 8) + Seq::new(88, |i: int| 120u8));
    }
    v
}

/// What one opening of the store shows of the keys that were looked at.
pub struct Sighting {
    /// The generation that was opened.
    pub generation: u64,
    /// For each key that could be read, the lengths of its values.
    pub lengths: Vec<Vec<usize>>,
    /// For each key whose read failed, the lengths of the values before that.
    pub broken: Vec<Vec<usize>>,
}

/// How many values are too short to be whole.
pub open spec fn short_values(lengths: Seq<usize>) -> nat
    decreases lengths.len(),
{
    if lengths.len() == 0 {
        0
    } else {
        short_values(lengths.drop_last()) + if lengths.last() < 4 {
            1nat
        } else {
            0nat
        }
    }
}

/// How many values of all keys are too short to be whole.
pub open spec fn all_short(keys: Seq<Vec<usize>>) -> nat
    decreases keys.len(),
{
    if keys.len() == 0 {
        0
    } else {
        all_short(keys.drop_last()) + short_values(keys.last()@)
    }
}

/// Whether two keys hold different numbers of values.
pub open spec fn uneven(keys: Seq<Vec<usize>>) -> bool {
    exists|i: int, j: int|
        0 <= i < keys.len() && 0 <= j < keys.len() && (#[trigger] keys[i])@.len() != (
        #[trigger] keys[j])@.len()
}

/// Short values are counted one by one, over a key's values and over keys: none is
/// counted exactly if every value has four bytes.
pub proof fn lemma_short_values_are_counted(lengths: Seq<usize>, keys: Seq<Vec<usize>>)
    ensures
        short_values(lengths) <= lengths.len(),
        short_values(lengths) == 0 <==> forall|i: int|
            0 <= i < lengths.len() ==> #[trigger] lengths[i] >= 4,
        short_values(lengths) == lengths.len() <==> forall|i: int|
            0 <= i < lengths.len() ==> #[trigger] lengths[i] < 4,
        all_short(keys) == 0 <==> forall|i: int, j: int|
            0 <= i < keys.len() && 0 <= j < keys[i]@.len() ==> #[trigger] keys[i]@[j] >= 4,
    decreases lengths.len(), keys.len(),
{
    if lengths.len() > 0 {
        let less = lengths.drop_last();
        lemma_short_values_are_counted(less, keys);
        assert forall|i: int| 0 <= i < less.len() implies less[i] == lengths[i] by {}
        assert(lengths[lengths.len() - 1] == lengths.last());
        if short_values(lengths) == 0 {
            assert forall|i: int| 0 <= i < lengths.len() implies #[trigger] lengths[i] >= 4 by {
                if i < less.len() {
                    assert(less[i] >= 4);
                }
            }
        }
        if forall|i: int| 0 <= i < lengths.len() ==> #[trigger] lengths[i] >= 4 {
            assert forall|i: int| 0 <= i < less.len() implies #[trigger] less[i] >= 4 by {
                assert(lengths[i] >= 4);
            }
        }
        if short_values(lengths) == lengths.len() {
            assert forall|i: int| 0 <= i < lengths.len() implies #[trigger] lengths[i] < 4 by {
                if i < less.len() {
                    assert(less[i] < 4);
                }
            }
        }
        if forall|i: int| 0 <= i < lengths.len() ==> #[trigger] lengths[i] < 4 {
            assert forall|i: int| 0 <= i < less.len() implies #[trigger] less[i] < 4 by {
                assert(lengths[i] < 4);
            }
        }
    } else {
        lemma_short_keys(keys);
    }
}

/// None is counted over keys exactly if every value of every key is long enough.
proof fn lemma_short_keys(keys: Seq<Vec<usize>>)
    ensures
        all_short(keys) == 0 <==> forall|i: int, j: int|
            0 <= i < keys.len() && 0 <= j < keys[i]@.len() ==> #[trigger] keys[i]@[j] >= 4,
    decreases keys.len(),
{
    if keys.len() > 0 {
        let less = keys.drop_last();
        lemma_short_keys(less);
        lemma_short_key(keys.last()@);
        let n = keys.len() - 1;
        assert(keys[n] == keys.last());
        if all_short(keys) == 0 {
            assert forall|i: int, j: int| 0 <= i < keys.len() && 0 <= j < keys[i]@.len() implies
                #[trigger] keys[i]@[j] >= 4 by {
                if i < n {
                    assert(less[i]@[j] >= 4);
                }
            }
        }
        if forall|i: int, j: int|
            0 <= i < keys.len() && 0 <= j < keys[i]@.len() ==> #[trigger] keys[i]@[j] >= 4 {
            assert forall|i: int, j: int| 0 <= i < less.len() && 0 <= j < less[i]@.len() implies
                #[trigger] less[i]@[j] >= 4 by {
                assert(keys[i]@[j] >= 4);
            }
            assert forall|j: int| 0 <= j < keys.last()@.len() implies #[trigger] keys.last()@[j]
                >= 4 by {
                assert(keys[n]@[j] >= 4);
            }
        }
    }
}

/// None of a key's values is counted exactly if each is long enough.
proof fn lemma_short_key(lengths: Seq<usize>)
    ensures
        short_values(lengths) == 0 <==> forall|i: int|
            0 <= i < lengths.len() ==> #[trigger] lengths[i] >= 4,
    decreases lengths.len(),
{
    if lengths.len() > 0 {
        let less = lengths.drop_last();
        lemma_short_key(less);
        if short_values(lengths) == 0 {
            assert forall|i: int| 0 <= i < lengths.len() implies #[trigger] lengths[i] >= 4 by {
                if i < less.len() {
                    assert(less[i] >= 4);
                }
            }
        }
        if forall|i: int| 0 <= i < lengths.len() ==> #[trigger] lengths[i] >= 4 {
            assert forall|i: int| 0 <= i < less.len() implies #[trigger] less[i] >= 4 by {
                assert(lengths[i] >= 4);
            }
            assert(lengths[lengths.len() - 1] >= 4);
        }
    }
}

fn count_short(lengths: &Vec<usize>) -> (n: usize)
    ensures
        n == short_values(lengths@),
        n <= lengths@.len(),
{
    let mut n: usize = 0;
    let mut i: usize = 0;
    proof {
        assert(lengths@.take(0) =~= Seq::<usize>::empty());
    }
    while i < lengths.len()
        invariant
            i <= lengths@.len(),
            n <= i,
            n == short_values(lengths@.take(i as int)),
        decreases lengths.len() - i,
    {
        proof {
            assert(lengths@.take(i + 1).drop_last() =~= lengths@.take(i as int));
        }
        if lengths[i] < 4 {
            n = n + 1;
        }
        i = i + 1;
    }
    proof {
        assert(lengths@.take(i as int) =~= lengths@);
    }
    n
}

fn all_even(keys: &Vec<Vec<usize>>) -> (r: bool)
    ensures
        r == !uneven(keys@),
{
    let mut i: usize = 1;
    while i < keys.len()
        invariant
            1 <= i,
            i <= keys@.len() || keys@.len() == 0,
            forall|j: int|
                0 <= j < i && j < keys@.len() ==> (#[trigger] keys@[j])@.len() == keys@[0]@.len(),
        decreases keys.len() - i,
    {
        if keys[i].len() != keys[0].len() {
            assert(keys@[i as int]@.len() != keys@[0]@.len());
            return false;
        }
        i = i + 1;
    }
    true
}

fn count_all_short(keys: &Vec<Vec<usize>>) -> (n: u128)
    ensures
        n == all_short(keys@),
        n <= keys@.len() * 0xffff_ffff_ffff_ffff,
{
    let mut n: u128 = 0;
    let mut i: usize = 0;
    proof {
        assert(keys@.take(0) =~= Seq::<Vec<usize>>::empty());
        assert(keys@.len() == keys.len());
    }
    while i < keys.len()
        invariant
            i <= keys@.len(),
            keys@.len() <= 0xffff_ffff_ffff_ffff,
            n == all_short(keys@.take(i as int)),
            n <= i * 0xffff_ffff_ffff_ffff,
        decreases keys.len() - i,
    {
        proof {
            assert(keys@.take(i + 1).drop_last() =~= keys@.take(i as int));
        }
        let c: usize = count_short(&keys[i]);
        n = n + c as u128;
        i = i + 1;
    }
    proof {
        assert(keys@.take(i as int) =~= keys@);
    }
    n
}

/// How many signs of a torn state one opening shows: a value too short to be
/// whole is one, and so are keys that hold different numbers of values.
pub fn torn_signs(s: &Sighting) -> (n: u128)
    requires
        s.lengths@.len() <= u32::MAX,
        s.broken@.len() <= u32::MAX,
    ensures
        n == all_short(s.lengths@) + all_short(s.broken@) + if uneven(s.lengths@) {
            1nat
        } else {
            0nat
        },
{
    let whole: u128 = count_all_short(&s.lengths);
    let broken: u128 = count_all_short(&s.broken);
    whole + broken + if all_even(&s.lengths) {
        0u128
    } else {
        1u128
    }
}

/// Takes note of a generation: whether it is below the highest one seen, and
/// the highest one seen from now on.
pub fn note_generation(high: &mut u64, generation: u64) -> (backwards: bool)
    ensures
        backwards == (generation < *old(high)),
        *final(high) == if generation > *old(high) {
            generation
        } else {
            *old(high)
        },
{
    let backwards: bool = generation < *high;
    if generation > *high {
        *high = generation;
    }
    backwards
}

} // verus!
