//! All the ways to pick so many items from a list, one after the other, with an item
//! free to be picked again: every tuple of the given length, in the order in which an
//! odometer counts.

use vstd::prelude::*;

verus! {

/// The number that a tuple of positions spells in the given base, first position
/// most significant.
pub open spec fn rank(indices: Seq<usize>, base: int) -> int
    decreases indices.len(),
{
    if indices.len() == 0 {
        0
    } else {
        rank(indices.drop_last(), base) * base + indices.last()
    }
}

/// Every position of the tuple is below the base.
pub open spec fn in_base(indices: Seq<usize>, base: int) -> bool {
    forall|i: int| 0 <= i < indices.len() ==> (#[trigger] indices[i]) < base
}

/// The base to the power of `n`: how many tuples of length `n` there are.
pub open spec fn tuples(base: int, n: nat) -> int
    decreases n,
{
    if n == 0 {
        1
    } else {
        tuples(base, (n - 1) as nat) * base
    }
}

/// The items that a tuple of positions picks.
pub open spec fn picked<T>(data: Seq<T>, indices: Seq<usize>) -> Seq<T> {
    Seq::new(indices.len(), |i: int| data[indices[i] as int])
}

/// A tuple in its base spells a number below the count of such tuples.
pub proof fn lemma_rank_bound(indices: Seq<usize>, base: int)
    requires
        in_base(indices, base),
    ensures
        0 <= rank(indices, base) < tuples(base, indices.len()),
    decreases indices.len(),
{
    if indices.len() > 0 {
        let front = indices.drop_last();
        assert forall|i: int| 0 <= i < front.len() implies (#[trigger] front[i]) < base by {
            assert(front[i] == indices[i]);
        }
        lemma_rank_bound(front, base);
        let r = rank(front, base);
        let t = tuples(base, front.len());
        let d = indices.last() as int;
        assert(indices[indices.len() - 1] < base);
        assert(0 <= r * base + d < t * base) by (nonlinear_arith)
            requires
                0 <= r < t,
                0 <= d < base,
        ;
    }
}

/// Two tuples of one length that spell the same number in their base are the same.
pub proof fn lemma_rank_injective(a: Seq<usize>, b: Seq<usize>, base: int)
    requires
        a.len() == b.len(),
        in_base(a, base),
        in_base(b, base),
        rank(a, base) == rank(b, base),
    ensures
        a == b,
    decreases a.len(),
{
    if a.len() > 0 {
        let fa = a.drop_last();
        let fb = b.drop_last();
        assert forall|i: int| 0 <= i < fa.len() implies (#[trigger] fa[i]) < base by {
            assert(fa[i] == a[i]);
        }
        assert forall|i: int| 0 <= i < fb.len() implies (#[trigger] fb[i]) < base by {
            assert(fb[i] == b[i]);
        }
        let ra = rank(fa, base);
        let rb = rank(fb, base);
        let da = a.last() as int;
        let db = b.last() as int;
        assert(a[a.len() - 1] < base);
        assert(b[b.len() - 1] < base);
        assert(ra == rb && da == db) by (nonlinear_arith)
            requires
                ra * base + da == rb * base + db,
                0 <= da < base,
                0 <= db < base,
        ;
        lemma_rank_injective(fa, fb, base);
        assert(a =~= fa.push(a.last()));
        assert(b =~= fb.push(b.last()));
    } else {
        assert(a =~= b);
    }
}

/// The tuple whose positions are all zero spells zero.
pub proof fn lemma_rank_of_first(indices: Seq<usize>, base: int)
    requires
        forall|i: int| 0 <= i < indices.len() ==> (#[trigger] indices[i]) == 0,
    ensures
        rank(indices, base) == 0,
    decreases indices.len(),
{
    if indices.len() > 0 {
        let front = indices.drop_last();
        assert forall|i: int| 0 <= i < front.len() implies (#[trigger] front[i]) == 0 by {
            assert(front[i] == indices[i]);
        }
        lemma_rank_of_first(front, base);
        assert(indices[indices.len() - 1] == 0);
        assert(0 * base + 0 == 0) by (nonlinear_arith);
    }
}

/// The tuple whose positions are all at the end of the base spells one less than the
/// count of tuples.
pub proof fn lemma_rank_of_last(indices: Seq<usize>, base: int)
    requires
        base >= 1,
        forall|i: int| 0 <= i < indices.len() ==> (#[trigger] indices[i]) == base - 1,
    ensures
        rank(indices, base) == tuples(base, indices.len()) - 1,
    decreases indices.len(),
{
    if indices.len() > 0 {
        let front = indices.drop_last();
        assert forall|i: int| 0 <= i < front.len() implies (#[trigger] front[i]) == base - 1 by {
            assert(front[i] == indices[i]);
        }
        lemma_rank_of_last(front, base);
        let t = tuples(base, front.len());
        assert(indices[indices.len() - 1] == base - 1);
        assert((t - 1) * base + (base - 1) == t * base - 1) by (nonlinear_arith);
    }
}

/// Counting on by one: where every position after `i` is at the end of the base and
/// position `i` is not, the tuple with position `i` one further and zeros after it
/// spells the next number.
pub proof fn lemma_rank_step(old: Seq<usize>, new: Seq<usize>, i: int, base: int)
    requires
        base >= 1,
        old.len() == new.len(),
        0 <= i < old.len(),
        old[i] + 1 < base,
        new[i] == old[i] + 1,
        forall|j: int| 0 <= j < i ==> new[j] == old[j],
        forall|j: int| i < j < old.len() ==> old[j] == base - 1 && new[j] == 0,
    ensures
        rank(new, base) == rank(old, base) + 1,
    decreases old.len(),
{
    let fo = old.drop_last();
    let fn_ = new.drop_last();
    if i == old.len() - 1 {
        assert(fo =~= fn_);
    } else {
        lemma_rank_step(fo, fn_, i, base);
        let r = rank(fo, base);
        assert(old[old.len() - 1] == base - 1);
        assert(new[new.len() - 1] == 0);
        assert((r + 1) * base + 0 == r * base + (base - 1) + 1) by (nonlinear_arith);
    }
}

/// The enumeration: the items to pick from, the tuple of positions that is next or
/// was last given out, and whether none was given out yet.
pub struct PermutationsWithReplacement<T> {
    pub data: Vec<T>,
    pub indices: Vec<usize>,
    pub first: bool,
}

impl<T: Copy> PermutationsWithReplacement<T> {
    /// The positions are positions of items, and before the first tuple is given out
    /// they are all that of the first item.
    pub open spec fn wf(&self) -> bool {
        &&& in_base(self.indices@, self.data@.len() as int)
        &&& self.first ==> forall|i: int|
            0 <= i < self.indices@.len() ==> #[trigger] self.indices@[i] == 0
    }

    /// How many tuples were given out.
    pub open spec fn given(&self) -> int {
        if self.first {
            0
        } else {
            rank(self.indices@, self.data@.len() as int) + 1
        }
    }

    /// Starts the enumeration of the tuples of `length` items of `data`.
    pub fn new(data: Vec<T>, length: usize) -> (r: Self)
        ensures
            r.data@ == data@,
            r.indices@ == Seq::new(length as nat, |i: int| 0usize),
            r.first,
            data@.len() > 0 || length == 0 ==> r.wf(),
    {
        let mut indices: Vec<usize> = Vec::new();
        let mut i: usize = 0;
        while i < length
            invariant
                i <= length,
                indices@ == Seq::new(i as nat, |i: int| 0usize),
            decreases length - i,
        {
            indices.push(0);
            assert(indices@ =~= Seq::new((i + 1) as nat, |i: int| 0usize));
            i += 1;
        }
        PermutationsWithReplacement { data, indices, first: true }
    }

    /// The items at the current positions.
    fn current(&self) -> (r: Vec<T>)
        requires
            self.wf(),
        ensures
            r@ == picked(self.data@, self.indices@),
    {
        let mut out: Vec<T> = Vec::new();
        let mut i: usize = 0;
        while i < self.indices.len()
            invariant
                i <= self.indices@.len(),
                self.wf(),
                out@ == picked(self.data@, self.indices@.take(i as int)),
            decreases self.indices@.len() - i,
        {
            out.push(self.data[self.indices[i]]);
            assert(out@ =~= picked(self.data@, self.indices@.take(i + 1)));
            i += 1;
        }
        assert(self.indices@.take(self.indices@.len() as int) =~= self.indices@);
        out
    }

    /// Gives out the next tuple: the first time the one of the first item throughout,
    /// then each time the one that counts on by one at the last position that can be
    /// moved on, with the positions after it back at the first item. `None` once the
    /// tuple of the last item throughout was given out.
    pub fn next(&mut self) -> (r: Option<Vec<T>>)
        requires
            old(self).wf(),
        ensures
            final(self).wf(),
            final(self).data@ == old(self).data@,
            final(self).indices@.len() == old(self).indices@.len(),
            !final(self).first,
            match r {
                Some(v) => {
                    &&& v@ == picked(final(self).data@, final(self).indices@)
                    &&& final(self).given() == old(self).given() + 1
                    &&& old(self).first ==> final(self).indices@ == old(self).indices@
                },
                None => {
                    &&& !old(self).first
                    &&& final(self).indices@ == old(self).indices@
                    &&& old(self).given() == tuples(
                        old(self).data@.len() as int,
                        old(self).indices@.len(),
                    )
                },
            },
    {
        if self.first {
            proof {
                lemma_rank_of_first(self.indices@, self.data@.len() as int);
            }
            self.first = false;
            return Some(self.current());
        }
        let n: usize = self.indices.len();
        let base: usize = self.data.len();
        let mut i: usize = n;
        while i > 0
            invariant
                i <= n,
                n == self.indices@.len(),
                base == self.data@.len(),
                *self == *old(self),
                !self.first,
                self.wf(),
                forall|j: int| i <= j < n ==> self.indices@[j] == base - 1,
            decreases i,
        {
            i -= 1;
            if self.indices[i] + 1 < base {
                let ghost before = self.indices@;
                let moved: usize = self.indices[i] + 1;
                self.indices.set(i, moved);
                let mut j: usize = i + 1;
                while j < n
                    invariant
                        i < j <= n,
                        n == self.indices@.len(),
                        n == before.len(),
                        base == self.data@.len(),
                        self.data@ == old(self).data@,
                        !self.first,
                        before[i as int] + 1 < base,
                        self.indices@[i as int] == before[i as int] + 1,
                        forall|k: int| 0 <= k < i ==> self.indices@[k] == before[k],
                        forall|k: int| i < k < j ==> self.indices@[k] == 0,
                        forall|k: int| j <= k < n ==> self.indices@[k] == before[k],
                    decreases n - j,
                {
                    self.indices.set(j, 0);
                    j += 1;
                }
                proof {
                    lemma_rank_step(before, self.indices@, i as int, base as int);
                    assert forall|k: int| 0 <= k < n implies (#[trigger] self.indices@[k])
                        < base by {
                        if k < i {
                            assert(before[k] < base);
                        }
                    }
                }
                return Some(self.current());
            }
        }
        proof {
            if base >= 1 {
                lemma_rank_of_last(self.indices@, base as int);
            } else {
                assert(n == 0) by {
                    if n > 0 {
                        assert(self.indices@[0] < base);
                    }
                }
            }
        }
        None
    }
}

} // verus!
