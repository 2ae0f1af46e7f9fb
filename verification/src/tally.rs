//! Sums that are checked against the range of their type.

use vstd::prelude::*;

verus! {

/// The sum of a list of 32-bit numbers.
pub open spec fn total_u32(s: Seq<u32>) -> int
    decreases s.len(),
{
    if s.len() == 0 {
        0
    } else {
        total_u32(s.drop_last()) + s.last()
    }
}

/// The sum of a list of 64-bit numbers.
pub open spec fn total_u64(s: Seq<u64>) -> int
    decreases s.len(),
{
    if s.len() == 0 {
        0
    } else {
        total_u64(s.drop_last()) + s.last()
    }
}

/// The sum of the first numbers of a list is at most the sum of all.
pub proof fn lemma_total_u32_prefix(s: Seq<u32>, n: int)
    requires
        0 <= n <= s.len(),
    ensures
        0 <= total_u32(s.take(n)) <= total_u32(s),
    decreases s.len(),
{
    if n == s.len() {
        assert(s.take(n) =~= s);
        if n > 0 {
            lemma_total_u32_prefix(s.drop_last(), n - 1);
        }
    } else {
        assert(s.drop_last().take(n) =~= s.take(n));
        lemma_total_u32_prefix(s.drop_last(), n);
    }
}

/// The sum of the first numbers of a list is at most the sum of all.
pub proof fn lemma_total_u64_prefix(s: Seq<u64>, n: int)
    requires
        0 <= n <= s.len(),
    ensures
        0 <= total_u64(s.take(n)) <= total_u64(s),
    decreases s.len(),
{
    if n == s.len() {
        assert(s.take(n) =~= s);
        if n > 0 {
            lemma_total_u64_prefix(s.drop_last(), n - 1);
        }
    } else {
        assert(s.drop_last().take(n) =~= s.take(n));
        lemma_total_u64_prefix(s.drop_last(), n);
    }
}

/// Adds up a list, unless the sum is above `u32::MAX`.
pub fn sum_u32(v: &[u32]) -> (r: Option<u32>)
    ensures
        r is Some <==> total_u32(v@) <= u32::MAX,
        r is Some ==> r->0 == total_u32(v@),
{
    let mut acc: u32 = 0;
    let mut i: usize = 0;
    assert(v@.take(0) =~= Seq::<u32>::empty());
    while i < v.len()
        invariant
            i <= v@.len(),
            acc == total_u32(v@.take(i as int)),
        decreases v@.len() - i,
    {
        assert(v@.take(i + 1).drop_last() =~= v@.take(i as int));
        proof {
            lemma_total_u32_prefix(v@, i + 1);
        }
        match acc.checked_add(v[i]) {
            Some(t) => {
                acc = t;
            },
            None => {
                return None;
            },
        }
        i += 1;
    }
    assert(v@.take(v@.len() as int) =~= v@);
    Some(acc)
}

/// Adds up a list, unless the sum is above `u64::MAX`.
pub fn sum_u64(v: &[u64]) -> (r: Option<u64>)
    ensures
        r is Some <==> total_u64(v@) <= u64::MAX,
        r is Some ==> r->0 == total_u64(v@),
{
    let mut acc: u64 = 0;
    let mut i: usize = 0;
    assert(v@.take(0) =~= Seq::<u64>::empty());
    while i < v.len()
        invariant
            i <= v@.len(),
            acc == total_u64(v@.take(i as int)),
        decreases v@.len() - i,
    {
        assert(v@.take(i + 1).drop_last() =~= v@.take(i as int));
        proof {
            lemma_total_u64_prefix(v@, i + 1);
        }
        match acc.checked_add(v[i]) {
            Some(t) => {
                acc = t;
            },
            None => {
                return None;
            },
        }
        i += 1;
    }
    assert(v@.take(v@.len() as int) =~= v@);
    Some(acc)
}

} // verus!
