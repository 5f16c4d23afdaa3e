//! The aggregator: one pass over the merged prime collection yields the
//! count, the sum, and the ten largest primes in descending order.

use vstd::prelude::*;
use crate::base::view_as_ints;

verus! {

/// The sum of a sequence of integers.
pub open spec fn seq_sum(s: Seq<int>) -> int
    decreases s.len(),
{
    if s.len() == 0 {
        0
    } else {
        seq_sum(s.drop_last()) + s.last()
    }
}

/// The aggregated outcome of a run: how many primes were found, their
/// sum, and the largest ones (at most ten), largest first.
#[derive(Debug, PartialEq, Eq)]
pub struct RunSummary {
    pub count: usize,
    pub sum: u64,
    pub top: Vec<usize>,
}

/// A strictly ascending sequence of integers drawn from `[0, bound)`
/// cannot have more than `bound` entries.
pub proof fn lemma_ascending_len_bound(s: Seq<int>, bound: int)
    requires
        bound >= 0,
        forall|i: int, j: int| 0 <= i < j < s.len() ==> s[i] < s[j],
        forall|i: int| 0 <= i < s.len() ==> 0 <= #[trigger] s[i] < bound,
    ensures
        s.len() <= bound,
    decreases s.len(),
{
    if s.len() > 0 {
        let front = s.drop_last();
        assert(forall|i: int| 0 <= i < front.len() ==> 0 <= #[trigger] front[i] < s.last());
        lemma_ascending_len_bound(front, s.last());
        assert(0 <= s[s.len() - 1] < bound);
    }
}

/// Scan the merged prime collection once and derive the run's summary:
/// the count, the sum (wide enough not to overflow for any supported
/// limit), and the largest primes — at most ten, largest first. The
/// collection must be strictly ascending, which the merge of base primes
/// and contiguous segment results guarantees.
pub fn aggregate(primes: &Vec<usize>) -> (s: RunSummary)
    requires
        forall|i: int, j: int| 0 <= i < j < primes@.len() ==> primes@[i] < primes@[j],
        forall|i: int| 0 <= i < primes@.len() ==> #[trigger] primes@[i] <= 0xffff_ffff,
        primes@.len() <= 0xffff_ffff,
    ensures
        s.count == primes@.len(),
        s.sum == seq_sum(view_as_ints(primes@)),
        s.top@.len() == (if primes@.len() < 10 { primes@.len() as int } else { 10int }),
        forall|t: int| 0 <= t < s.top@.len()
            ==> #[trigger] s.top@[t] == primes@[primes@.len() - 1 - t],
        forall|t1: int, t2: int| 0 <= t1 < t2 < s.top@.len() ==> s.top@[t1] > s.top@[t2],
        forall|i: int, t: int|
            0 <= i < primes@.len() - s.top@.len() && 0 <= t < s.top@.len()
                ==> primes@[i] < s.top@[t],
{
    let len = primes.len();
    let mut sum: u64 = 0;
    let mut i: usize = 0;
    assert(view_as_ints(primes@).subrange(0, 0) =~= Seq::<int>::empty());
    while i < len
        invariant
            i <= len,
            len == primes@.len(),
            len <= 0xffff_ffff,
            forall|t: int| 0 <= t < primes@.len() ==> #[trigger] primes@[t] <= 0xffff_ffff,
            sum as int == seq_sum(view_as_ints(primes@).subrange(0, i as int)),
            sum as int <= i as int * 0xffff_ffff,
        decreases len - i,
    {
        assert(i as int * 0xffff_ffff + 0xffff_ffff == (i as int + 1) * 0xffff_ffff)
            by (nonlinear_arith);
        assert((i as int + 1) * 0xffff_ffff <= 0xffff_ffff * 0xffff_ffff)
            by (nonlinear_arith)
            requires
                i as int + 1 <= 0xffff_ffff,
        ;
        let p = primes[i];
        sum = sum + (p as u64);
        proof {
            let v = view_as_ints(primes@);
            assert(v.subrange(0, i as int + 1).drop_last() =~= v.subrange(0, i as int));
            assert(v.subrange(0, i as int + 1).last() == p as int);
        }
        i = i + 1;
    }
    assert(view_as_ints(primes@).subrange(0, len as int) =~= view_as_ints(primes@));
    let k = if len < 10 {
        len
    } else {
        10
    };
    let mut top: Vec<usize> = Vec::new();
    let mut t: usize = 0;
    while t < k
        invariant
            t <= k,
            k <= len,
            len == primes@.len(),
            top@.len() == t,
            forall|u: int| 0 <= u < t ==> #[trigger] top@[u] == primes@[len - 1 - u],
        decreases k - t,
    {
        top.push(primes[len - 1 - t]);
        t = t + 1;
    }
    RunSummary { count: len, sum, top }
}

} // verus!
