//! Filling a store: what is written, what is deleted and where a batch is
//! committed, one step at a time.

use vstd::prelude::*;

verus! {

/// One step of filling a store.
#[derive(Clone, Copy, PartialEq, Eq, Structural, Debug)]
pub enum LoadStep {
    /// Append a value under the key of this number.
    Append(u64),
    /// Delete the key of this number.
    Delete(u64),
    /// Commit what was written since the last commit.
    Commit,
}

/// The step that writes or deletes a key.
pub open spec fn touch(delete: bool, key: u64) -> LoadStep {
    if delete {
        LoadStep::Delete(key)
    } else {
        LoadStep::Append(key)
    }
}

/// The steps from `key` on, every `stride`-th key before `end`, when the count
/// stands at `done`: a commit wherever the count comes to a multiple of `batch`,
/// and one at the end if asked for.
pub open spec fn steps_from(
    delete: bool,
    key: int,
    end: int,
    stride: int,
    batch: int,
    closing: bool,
    done: int,
) -> Seq<LoadStep>
    decreases
            if key >= end {
                0
            } else {
                end - key
            },
{
    if key >= end || stride <= 0 {
        if closing {
            seq![LoadStep::Commit]
        } else {
            Seq::empty()
        }
    } else {
        let rest = steps_from(delete, key + stride, end, stride, batch, closing, done + 1);
        if (done + 1) % batch == 0 {
            seq![touch(delete, key as u64), LoadStep::Commit] + rest
        } else {
            seq![touch(delete, key as u64)] + rest
        }
    }
}

/// The filling of a store, as far as it has come.
#[derive(Clone, Copy, PartialEq, Eq, Structural, Debug)]
pub struct Load {
    /// Whether keys are deleted and not written.
    pub delete: bool,
    /// The next key.
    pub key: u64,
    /// The end of the keys.
    pub end: u64,
    /// How far one key is from the next.
    pub stride: u64,
    /// The keys of one batch.
    pub batch: u64,
    /// Whether the end is committed in any case.
    pub closing: bool,
    /// What was counted up to here.
    pub done: u64,
    /// Whether a commit comes next.
    pub due: bool,
}

impl Load {
    /// Whether the numbers are sound.
    pub open spec fn wf(self) -> bool {
        &&& self.stride > 0
        &&& self.batch > 0
        &&& self.done <= self.key
        &&& (self.key >= self.end || self.done + (self.end - self.key) <= self.end)
    }

    /// The steps that are left.
    pub open spec fn rest(self) -> Seq<LoadStep> {
        let after = steps_from(
            self.delete,
            self.key as int,
            self.end as int,
            self.stride as int,
            self.batch as int,
            self.closing,
            self.done as int,
        );
        if self.due {
            seq![LoadStep::Commit] + after
        } else {
            after
        }
    }

    /// Appends under the keys from `first` to `end`. The keys are counted from
    /// zero, so a batch ends at the same keys wherever the filling starts.
    pub fn append(first: u64, end: u64, batch: u64, closing: bool) -> (l: Load)
        requires
            batch > 0,
        ensures
            l.wf(),
            l.rest() == steps_from(
                false,
                first as int,
                end as int,
                1,
                batch as int,
                closing,
                first as int,
            ),
    {
        Load { delete: false, key: first, end, stride: 1, batch, closing, done: first, due: false }
    }

    /// Deletes every `stride`-th key before `end`, with a commit behind every
    /// `batch`-th of them and one at the end.
    pub fn delete(end: u64, stride: u64, batch: u64) -> (l: Load)
        requires
            batch > 0,
            stride > 0,
        ensures
            l.wf(),
            l.rest() == steps_from(true, 0, end as int, stride as int, batch as int, true, 0),
    {
        Load { delete: true, key: 0, end, stride, batch, closing: true, done: 0, due: false }
    }

    /// The next step, or nothing when all is done.
    pub fn next(&mut self) -> (s: Option<LoadStep>)
        requires
            old(self).wf(),
        ensures
            final(self).wf(),
            match s {
                Some(step) => {
                    &&& old(self).rest().len() > 0
                    &&& step == old(self).rest()[0]
                    &&& final(self).rest() == old(self).rest().drop_first()
                },
                None => old(self).rest().len() == 0 && *final(self) == *old(self),
            },
    {
        let ghost before = self.rest();
        if self.due {
            self.due = false;
            proof {
                assert(self.rest() =~= before.drop_first());
            }
            return Some(LoadStep::Commit);
        }
        if self.key >= self.end {
            if self.closing {
                self.closing = false;
                proof {
                    assert(self.rest() =~= before.drop_first());
                }
                return Some(LoadStep::Commit);
            }
            return None;
        }
        let k: u64 = self.key;
        let ghost after = steps_from(
            self.delete,
            k as int + self.stride,
            self.end as int,
            self.stride as int,
            self.batch as int,
            self.closing,
            self.done as int + 1,
        );
        self.done = self.done + 1;
        self.due = self.done % self.batch == 0;
        if self.end - k > self.stride {
            self.key = k + self.stride;
        } else {
            proof {
                assert(after =~= steps_from(
                    self.delete,
                    self.end as int,
                    self.end as int,
                    self.stride as int,
                    self.batch as int,
                    self.closing,
                    self.done as int,
                ));
            }
            self.key = self.end;
        }
        proof {
            if self.due {
                assert(self.rest() =~= before.drop_first());
            } else {
                assert(self.rest() =~= before.drop_first());
            }
        }
        if self.delete {
            Some(LoadStep::Delete(k))
        } else {
            Some(LoadStep::Append(k))
        }
    }
}

// -------------------------------------------------------------------- laws --

/// The keys that the steps touch, in order.
pub open spec fn touched(steps: Seq<LoadStep>) -> Seq<u64>
    decreases steps.len(),
{
    if steps.len() == 0 {
        Seq::empty()
    } else {
        match steps[0] {
            LoadStep::Append(k) => seq![k] + touched(steps.drop_first()),
            LoadStep::Delete(k) => seq![k] + touched(steps.drop_first()),
            LoadStep::Commit => touched(steps.drop_first()),
        }
    }
}

/// What is left uncommitted behind the steps, when `open` keys were before
/// them.
pub open spec fn uncommitted(steps: Seq<LoadStep>, open: int) -> int
    decreases steps.len(),
{
    if steps.len() == 0 {
        open
    } else {
        match steps[0] {
            LoadStep::Commit => uncommitted(steps.drop_first(), 0),
            _ => uncommitted(steps.drop_first(), open + 1),
        }
    }
}

/// Filling a store from key zero on writes every key once, in order.
pub proof fn lemma_load_writes_each_once(keys: u64, batch: u64, closing: bool)
    requires
        batch > 0,
    ensures
        touched(steps_from(false, 0, keys as int, 1, batch as int, closing, 0)) == Seq::new(
            keys as nat,
            |i: int| i as u64,
        ),
{
    lemma_touched(0, keys as int, batch as int, closing, 0);
    assert(Seq::new(keys as nat, |i: int| (0 + i) as u64) =~= Seq::new(
        keys as nat,
        |i: int| i as u64,
    ));
}

proof fn lemma_touched(key: int, end: int, batch: int, closing: bool, done: int)
    requires
        0 <= key,
        key <= end,
        batch > 0,
    ensures
        touched(steps_from(false, key, end, 1, batch, closing, done)) == Seq::new(
            (end - key) as nat,
            |i: int| (key + i) as u64,
        ),
    decreases end - key,
{
    let s = steps_from(false, key, end, 1, batch, closing, done);
    let want = Seq::new((end - key) as nat, |i: int| (key + i) as u64);
    if key >= end {
        if closing {
            assert(s.drop_first() =~= Seq::<LoadStep>::empty());
            assert(touched(s.drop_first()) =~= Seq::<u64>::empty());
        }
        assert(touched(s) =~= want);
    } else {
        lemma_touched(key + 1, end, batch, closing, done + 1);
        let rest = steps_from(false, key + 1, end, 1, batch, closing, done + 1);
        let tail = Seq::new((end - key - 1) as nat, |i: int| (key + 1 + i) as u64);
        if (done + 1) % batch == 0 {
            assert(s.drop_first() =~= seq![LoadStep::Commit] + rest);
            assert(s.drop_first().drop_first() =~= rest);
            assert(touched(s.drop_first()) == touched(rest));
        } else {
            assert(s.drop_first() =~= rest);
        }
        assert(seq![key as u64] + tail =~= want);
    }
}

/// What a filled store leaves uncommitted is less than a batch: the keys behind
/// the last whole batch, or nothing where the end is committed.
pub proof fn lemma_load_leaves_tail(keys: u64, batch: u64, closing: bool)
    requires
        batch > 0,
    ensures
        uncommitted(steps_from(false, 0, keys as int, 1, batch as int, closing, 0), 0) == if closing {
            0
        } else {
            keys as int % batch as int
        },
{
    vstd::arithmetic::div_mod::lemma_small_mod(0, batch as nat);
    lemma_tail(0, keys as int, batch as int, closing);
}

/// How a load goes. Of `n` keys, every `stride`th from the first one on, each is
/// written or deleted once and in order; operations are counted on from `done`, and
/// each one whose count is a multiple of the batch is followed by a commit; at the end
/// there is one more where the load is closed. There is nothing else.
pub proof fn lemma_load_goes_in_batches(
    delete: bool,
    key: int,
    end: int,
    stride: int,
    batch: int,
    closing: bool,
    done: int,
    n: int,
    j: int,
)
    requires
        0 <= key,
        0 <= n,
        0 <= done,
        0 < stride,
        0 < batch,
        end <= u64::MAX,
        key + n * stride >= end,
        n > 0 ==> key + (n - 1) * stride < end,
    ensures
        ({
            let s = steps_from(delete, key, end, stride, batch, closing, done);
            let at = j + (done + j) / batch - done / batch;
            &&& s.len() == n + ((done + n) / batch - done / batch) + if closing {
                1int
            } else {
                0
            }
            &&& 0 <= j < n ==> {
                &&& 0 <= at < s.len()
                &&& delete ==> s[at] == LoadStep::Delete((key + j * stride) as u64)
                &&& !delete ==> s[at] == LoadStep::Append((key + j * stride) as u64)
                &&& (done + j + 1) % batch == 0 ==> at + 1 < s.len() && s[at + 1]
                    == LoadStep::Commit
            }
            &&& closing ==> s.last() == LoadStep::Commit
        }),
    decreases n,
{
    let s = steps_from(delete, key, end, stride, batch, closing, done);
    if n == 0 {
        assert(0 * stride == 0) by (nonlinear_arith);
        assert(key >= end);
    } else {
        assert((n - 1) * stride >= 0) by (nonlinear_arith)
            requires
                n >= 1,
                stride > 0,
        ;
        assert(n * stride == (n - 1) * stride + stride) by (nonlinear_arith);
        assert(n > 1 ==> (n - 1) * stride == (n - 2) * stride + stride) by (nonlinear_arith);
        lemma_load_goes_in_batches(
            delete,
            key + stride,
            end,
            stride,
            batch,
            closing,
            done + 1,
            n - 1,
            j - 1,
        );
        let rest = steps_from(delete, key + stride, end, stride, batch, closing, done + 1);
        lemma_next_count(done, batch);
        let head = if (done + 1) % batch == 0 {
            seq![touch(delete, key as u64), LoadStep::Commit]
        } else {
            seq![touch(delete, key as u64)]
        };
        assert(s == head + rest);
        if closing {
            assert(s.last() == rest.last());
        }
        if 0 < j < n {
            assert(j * stride == (j - 1) * stride + stride) by (nonlinear_arith);
            let before = (j - 1) + (done + 1 + (j - 1)) / batch - (done + 1) / batch;
            let at = j + (done + j) / batch - done / batch;
            assert(at == head.len() + before);
            assert(s[at] == rest[before]);
            if (done + j + 1) % batch == 0 {
                assert(s[at + 1] == rest[before + 1]);
            }
        } else if j == 0 {
            assert(0 * stride == 0) by (nonlinear_arith);
            assert(s[0] == head[0]);
            vstd::arithmetic::div_mod::lemma_div_is_ordered(done, done + n, batch);
            if (done + 1) % batch == 0 {
                assert(s[1] == head[1]);
            }
        }
    }
}

/// One more operation fills a batch where its count is a multiple.
proof fn lemma_next_count(done: int, batch: int)
    requires
        0 <= done,
        0 < batch,
    ensures
        (done + 1) / batch == done / batch + if (done + 1) % batch == 0 {
            1int
        } else {
            0
        },
{
    let (q, r) = (done / batch, done % batch);
    vstd::arithmetic::div_mod::lemma_fundamental_div_mod(done, batch);
    vstd::arithmetic::div_mod::lemma_mod_bound(done, batch);
    assert(batch * q == q * batch && (q + 1) * batch == q * batch + batch) by (nonlinear_arith);
    if r + 1 < batch {
        vstd::arithmetic::div_mod::lemma_fundamental_div_mod_converse(done + 1, batch, q, r + 1);
    } else {
        vstd::arithmetic::div_mod::lemma_fundamental_div_mod_converse(done + 1, batch, q + 1, 0);
    }
}

proof fn lemma_tail(key: int, end: int, batch: int, closing: bool)
    requires
        0 <= key,
        key <= end,
        batch > 0,
    ensures
        uncommitted(steps_from(false, key, end, 1, batch, closing, key), key % batch) == if closing {
            0
        } else {
            end % batch
        },
    decreases end - key,
{
    let s = steps_from(false, key, end, 1, batch, closing, key);
    if key >= end {
        if closing {
            assert(s.drop_first() =~= Seq::<LoadStep>::empty());
            assert(uncommitted(s.drop_first(), 0) == 0);
        }
    } else {
        lemma_tail(key + 1, end, batch, closing);
        let rest = steps_from(false, key + 1, end, 1, batch, closing, key + 1);
        lemma_next_mod(key, batch);
        if (key + 1) % batch == 0 {
            assert(s.drop_first() =~= seq![LoadStep::Commit] + rest);
            assert(s.drop_first().drop_first() =~= rest);
            assert(uncommitted(s.drop_first(), key % batch + 1) == uncommitted(rest, 0));
        } else {
            assert(s.drop_first() =~= rest);
        }
    }
}

proof fn lemma_next_mod(k: int, n: int)
    requires
        0 <= k,
        n > 0,
    ensures
        (k + 1) % n == 0 || (k + 1) % n == k % n + 1,
{
    vstd::arithmetic::div_mod::lemma_fundamental_div_mod(k, n);
    let q = k / n;
    let r = k % n;
    assert(k == q * n + r) by (nonlinear_arith)
        requires
            k == n * q + r,
    ;
    if r + 1 < n {
        vstd::arithmetic::div_mod::lemma_fundamental_div_mod_converse(k + 1, n, q, r + 1);
    } else {
        assert((q + 1) * n == q * n + n) by (nonlinear_arith);
        vstd::arithmetic::div_mod::lemma_fundamental_div_mod_converse(k + 1, n, q + 1, 0);
    }
}

} // verus!
