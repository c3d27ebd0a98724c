use vstd::prelude::*;

use std::collections::VecDeque;

use crate::explorer::Branch;

verus! {

/// How many branches wait in all the buckets together.
pub open spec fn size(buckets: Seq<Seq<Branch>>) -> nat
    decreases buckets.len(),
{
    if buckets.len() == 0 {
        0
    } else {
        size(buckets.drop_last()) + buckets.last().len()
    }
}

/// Whether `b` waits in one of the buckets.
pub open spec fn holds(buckets: Seq<Seq<Branch>>, b: Branch) -> bool {
    exists|i: int, j: int| 0 <= i < buckets.len() && 0 <= j < buckets[i].len() && buckets[i][j] == b
}

/// The buckets, with empty ones added at the back until there are `n`.
pub open spec fn padded(buckets: Seq<Seq<Branch>>, n: nat) -> Seq<Seq<Branch>> {
    Seq::new(
        if buckets.len() >= n {
            buckets.len()
        } else {
            n
        },
        |i: int|
            if i < buckets.len() {
                buckets[i]
            } else {
                Seq::empty()
            },
    )
}

/// `i` is the lowest bucket that is not empty.
pub open spec fn lowest(buckets: Seq<Seq<Branch>>, i: int) -> bool {
    &&& 0 <= i < buckets.len()
    &&& buckets[i].len() > 0
    &&& forall|k: int| 0 <= k < i ==> #[trigger] buckets[k].len() == 0
}

proof fn lemma_size_update(buckets: Seq<Seq<Branch>>, i: int, s: Seq<Branch>)
    requires
        0 <= i < buckets.len(),
    ensures
        size(buckets.update(i, s)) == size(buckets) - buckets[i].len() + s.len(),
    decreases buckets.len(),
{
    let u = buckets.update(i, s);
    if i == buckets.len() - 1 {
        assert(u.drop_last() =~= buckets.drop_last());
    } else {
        assert(u.drop_last() =~= buckets.drop_last().update(i, s));
        lemma_size_update(buckets.drop_last(), i, s);
    }
}

proof fn lemma_size_padded(buckets: Seq<Seq<Branch>>, n: nat)
    ensures
        size(padded(buckets, n)) == size(buckets),
    decreases n,
{
    if n > buckets.len() {
        let p = padded(buckets, n);
        assert(p.drop_last() =~= padded(buckets, (n - 1) as nat));
        lemma_size_padded(buckets, (n - 1) as nat);
    } else {
        assert(padded(buckets, n) =~= buckets);
    }
}

/// An empty queue holds no branch.
pub proof fn lemma_empty_holds_nothing(buckets: Seq<Seq<Branch>>, b: Branch)
    requires
        size(buckets) == 0,
    ensures
        !holds(buckets, b),
{
    lemma_size_zero(buckets);
    if holds(buckets, b) {
        let (i, j) = choose|i: int, j: int|
            0 <= i < buckets.len() && 0 <= j < buckets[i].len() && buckets[i][j] == b;
        assert(buckets[i].len() == 0);
    }
}

proof fn lemma_size_zero(buckets: Seq<Seq<Branch>>)
    ensures
        size(buckets) == 0 <==> forall|k: int| 0 <= k < buckets.len() ==> #[trigger] buckets[k].len()
            == 0,
    decreases buckets.len(),
{
    if buckets.len() > 0 {
        let rest = buckets.drop_last();
        lemma_size_zero(rest);
        assert(forall|k: int| 0 <= k < rest.len() ==> #[trigger] rest[k] == buckets[k]);
        assert(buckets.last() == buckets[buckets.len() - 1]);
        if forall|k: int| 0 <= k < buckets.len() ==> #[trigger] buckets[k].len() == 0 {
            assert(buckets[buckets.len() - 1].len() == 0);
            assert(forall|k: int| 0 <= k < rest.len() ==> #[trigger] rest[k].len() == 0);
        }
        if size(buckets) == 0 {
            assert forall|k: int| 0 <= k < buckets.len() implies #[trigger] buckets[k].len() == 0 by {
                if k < rest.len() {
                    assert(rest[k].len() == 0);
                }
            }
        }
    }
}

/// A bucket queue of branches. A branch goes to the bucket whose index is the
/// size of its node's access record when it is pushed, and is dropped when that
/// size reaches `max_overlap`. Branches come out of the lowest bucket that is
/// not empty, first in first out.
pub struct WorkQueue {
    max_overlap: usize,
    queues: Vec<VecDeque<Branch>>,
}

impl View for WorkQueue {
    type V = Seq<Seq<Branch>>;

    closed spec fn view(&self) -> Seq<Seq<Branch>> {
        Seq::new(self.queues@.len(), |i: int| self.queues@[i]@)
    }
}

impl WorkQueue {
    pub closed spec fn max_overlap(&self) -> nat {
        self.max_overlap as nat
    }

    /// An empty queue that drops branches from level `max_overlap` on.
    pub fn new(max_overlap: usize) -> (r: WorkQueue)
        ensures
            r@ == Seq::<Seq<Branch>>::empty(),
            r.max_overlap() == max_overlap,
    {
        let r = WorkQueue { max_overlap, queues: Vec::new() };
        assert(r@ =~= Seq::<Seq<Branch>>::empty());
        r
    }

    /// Puts `branch` at the back of bucket `level`, or drops it when `level`
    /// is `max_overlap` or more.
    pub fn push(&mut self, branch: Branch, level: usize)
        ensures
            final(self).max_overlap() == old(self).max_overlap(),
            level >= old(self).max_overlap() ==> final(self)@ == old(self)@,
            level < old(self).max_overlap() ==> final(self)@ == padded(
                old(self)@,
                level as nat + 1,
            ).update(level as int, padded(old(self)@, level as nat + 1)[level as int].push(branch)),
            level < old(self).max_overlap() ==> size(final(self)@) == size(old(self)@) + 1,
            forall|b: Branch|
                #[trigger] holds(final(self)@, b) <==> (holds(old(self)@, b) || (b == branch && level
                    < old(self).max_overlap())),
    {
        if level >= self.max_overlap {
            return;
        }
        let ghost before = self@;
        while self.queues.len() <= level
            invariant
                self.max_overlap == old(self).max_overlap,
                before == old(self)@,
                before.len() <= self.queues@.len(),
                self.queues@.len() <= before.len() || self.queues@.len() <= level + 1,
                self@ == padded(before, self.queues@.len() as nat),
            decreases level + 1 - self.queues@.len(),
        {
            let ghost prev = self.queues@;
            self.queues.push(VecDeque::new());
            assert forall|i: int| 0 <= i < self.queues@.len() implies #[trigger] self@[i]
                == padded(before, self.queues@.len() as nat)[i] by {
                if i < prev.len() {
                    assert(self.queues@[i] == prev[i]);
                    assert(padded(before, prev.len() as nat)[i] == padded(before, self.queues@.len() as nat)[i]);
                } else {
                    assert(self.queues@[i]@ == Seq::<Branch>::empty());
                }
            }
            assert(self@ =~= padded(before, self.queues@.len() as nat));
        }
        let ghost p = self@;
        assert(p.len() == padded(before, level as nat + 1).len());
        assert(p =~= padded(before, level as nat + 1));
        self.queues[level].push_back(branch);
        proof {
            assert(self@ =~= p.update(level as int, p[level as int].push(branch)));
            lemma_size_padded(before, level as nat + 1);
            lemma_size_update(p, level as int, p[level as int].push(branch));
            assert forall|b: Branch| #[trigger]
                holds(self@, b) <==> (holds(before, b) || b == branch) by {
                if holds(self@, b) {
                    let (i, j) = choose|i: int, j: int|
                        0 <= i < self@.len() && 0 <= j < self@[i].len() && self@[i][j] == b;
                    if !(i == level && j == p[level as int].len()) {
                        assert(i < before.len());
                        assert(before[i][j] == b);
                    }
                }
                if holds(before, b) {
                    let (i, j) = choose|i: int, j: int|
                        0 <= i < before.len() && 0 <= j < before[i].len() && before[i][j] == b;
                    assert(self@[i][j] == b);
                }
                if b == branch {
                    assert(self@[level as int][p[level as int].len() as int] == b);
                }
            }
        }
    }

    /// Takes out the branch at the front of the lowest bucket that is not
    /// empty; `None` when every bucket is empty.
    pub fn next(&mut self) -> (r: Option<Branch>)
        ensures
            final(self).max_overlap() == old(self).max_overlap(),
            r is None <==> size(old(self)@) == 0,
            r is None ==> final(self)@ == old(self)@,
            r matches Some(b) ==> exists|i: int|
                #![trigger old(self)@[i]]
                lowest(old(self)@, i) && b == old(self)@[i][0] && final(self)@ == old(self)@.update(
                    i,
                    old(self)@[i].drop_first(),
                ),
            r matches Some(b) ==> holds(old(self)@, b) && size(final(self)@) + 1 == size(old(self)@),
            forall|b: Branch| #[trigger] holds(final(self)@, b) ==> holds(old(self)@, b),
            r matches Some(b) ==> forall|y: Branch|
                #[trigger] holds(old(self)@, y) && y != b ==> holds(final(self)@, y),
    {
        let ghost before = self@;
        proof {
            lemma_size_zero(before);
        }
        let mut i: usize = 0;
        while i < self.queues.len()
            invariant
                self.max_overlap == old(self).max_overlap,
                before == old(self)@,
                self@ == before,
                i <= self.queues@.len(),
                forall|k: int| 0 <= k < i ==> #[trigger] before[k].len() == 0,
            decreases self.queues@.len() - i,
        {
            if self.queues[i].len() > 0 {
                let b = self.queues[i].pop_front();
                proof {
                    assert(self@ =~= before.update(i as int, before[i as int].drop_first()));
                    lemma_size_update(before, i as int, before[i as int].drop_first());
                    assert(lowest(before, i as int));
                    assert(before[i as int][0] == b->0);
                    assert forall|x: Branch| #[trigger] holds(self@, x) implies holds(before, x) by {
                        let (k, j) = choose|k: int, j: int|
                            0 <= k < self@.len() && 0 <= j < self@[k].len() && self@[k][j] == x;
                        if k == i {
                            assert(before[k][j + 1] == x);
                        } else {
                            assert(before[k][j] == x);
                        }
                    }
                    assert forall|y: Branch| #[trigger] holds(before, y) && y != b->0 implies holds(
                        self@,
                        y,
                    ) by {
                        let (k, j) = choose|k: int, j: int|
                            0 <= k < before.len() && 0 <= j < before[k].len() && before[k][j] == y;
                        if k == i {
                            assert(j != 0);
                            assert(self@[k][j - 1] == y);
                        } else {
                            assert(self@[k][j] == y);
                        }
                    }
                }
                return b;
            }
            i = i + 1;
        }
        None
    }
}

} // verus!
