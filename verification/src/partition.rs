//! The partitioner: splits `[sqrt_n, limit)` into contiguous near-equal
//! segments, one per worker, and the facts that make the split a cover
//! with no gaps and no overlaps.

use vstd::prelude::*;
use crate::number_theory::primes_in_range;
use crate::number_theory::lemma_primes_in_range_concat;

verus! {

/// The bounds of a segment list as mathematical integers.
pub open spec fn view_segs(s: Seq<(usize, usize)>) -> Seq<(int, int)> {
    s.map_values(|seg: (usize, usize)| (seg.0 as int, seg.1 as int))
}

/// The segments are non-empty as a list, each is a valid half-open
/// interval, consecutive segments share their boundary, and together
/// they run from `lo` to `hi`.
pub open spec fn contiguous(segs: Seq<(int, int)>, lo: int, hi: int) -> bool {
    &&& segs.len() >= 1
    &&& segs[0].0 == lo
    &&& segs[segs.len() - 1].1 == hi
    &&& forall|k: int| 0 <= k < segs.len() ==> (#[trigger] segs[k]).0 <= segs[k].1
    &&& forall|k: int| 0 <= k < segs.len() - 1 ==> (#[trigger] segs[k]).1 == segs[k + 1].0
}

/// The primes of each segment, in segment order.
pub open spec fn concat_primes(segs: Seq<(int, int)>) -> Seq<int>
    decreases segs.len(),
{
    if segs.len() == 0 {
        Seq::empty()
    } else {
        primes_in_range(segs[0].0, segs[0].1) + concat_primes(segs.drop_first())
    }
}

/// In a contiguous segment list every earlier segment ends no later than
/// a later one begins.
pub proof fn lemma_segments_ordered(segs: Seq<(int, int)>, k1: int, k2: int)
    requires
        forall|k: int| 0 <= k < segs.len() ==> (#[trigger] segs[k]).0 <= segs[k].1,
        forall|k: int| 0 <= k < segs.len() - 1 ==> (#[trigger] segs[k]).1 == segs[k + 1].0,
        0 <= k1 < k2 < segs.len(),
    ensures
        segs[k1].1 <= segs[k2].0,
    decreases k2 - k1,
{
    if k2 == k1 + 1 {
    } else {
        lemma_segments_ordered(segs, k1 + 1, k2);
    }
}

/// Sieving contiguous segments one after the other yields exactly the
/// primes of the whole range: the segments cover `[lo, hi)` without a
/// gap. Also places `lo` no later than `hi`.
pub proof fn lemma_partition_coverage(segs: Seq<(int, int)>, lo: int, hi: int)
    requires
        contiguous(segs, lo, hi),
    ensures
        lo <= hi,
        concat_primes(segs) == primes_in_range(lo, hi),
    decreases segs.len(),
{
    let tail = segs.drop_first();
    if segs.len() == 1 {
        assert(concat_primes(segs) =~= primes_in_range(lo, hi) + concat_primes(tail));
        assert(concat_primes(tail) =~= Seq::<int>::empty());
        assert(primes_in_range(lo, hi) + Seq::<int>::empty() =~= primes_in_range(lo, hi));
    } else {
        let b = segs[0].1;
        assert(contiguous(tail, b, hi)) by {
            assert(forall|k: int| 0 <= k < tail.len() ==> tail[k] == segs[k + 1]);
        }
        lemma_partition_coverage(tail, b, hi);
        lemma_primes_in_range_concat(lo, b, hi);
    }
}

/// The base range and the segments together cover `[2, limit)` exactly:
/// the primes below `sqrt_n` followed by the primes of each contiguous
/// segment, in order, are the primes below `limit`, each exactly once.
pub proof fn lemma_full_coverage(segs: Seq<(int, int)>, sqrt_n: int, limit: int)
    requires
        2 <= sqrt_n,
        contiguous(segs, sqrt_n, limit),
    ensures
        crate::number_theory::primes_below(sqrt_n) + concat_primes(segs)
            == crate::number_theory::primes_below(limit),
{
    lemma_partition_coverage(segs, sqrt_n, limit);
    lemma_primes_in_range_concat(2, sqrt_n, limit);
}

/// No overlaps: every point of `[lo, hi)` falls in exactly one segment of
/// a contiguous segment list.
pub proof fn lemma_partition_no_overlap(segs: Seq<(int, int)>, lo: int, hi: int, x: int)
    requires
        contiguous(segs, lo, hi),
        lo <= x < hi,
    ensures
        exists|k: int| 0 <= k < segs.len() && (#[trigger] segs[k]).0 <= x < segs[k].1,
        forall|k1: int, k2: int|
            0 <= k1 < segs.len() && 0 <= k2 < segs.len() && (#[trigger] segs[k1]).0 <= x
                < segs[k1].1 && (#[trigger] segs[k2]).0 <= x < segs[k2].1 ==> k1 == k2,
    decreases segs.len(),
{
    if x < segs[0].1 {
        assert(segs[0].0 <= x < segs[0].1);
    } else {
        let tail = segs.drop_first();
        assert(contiguous(tail, segs[0].1, hi)) by {
            assert(forall|k: int| 0 <= k < tail.len() ==> tail[k] == segs[k + 1]);
        }
        lemma_partition_no_overlap(tail, segs[0].1, hi, x);
        let k = choose|k: int| 0 <= k < tail.len() && (#[trigger] tail[k]).0 <= x < tail[k].1;
        assert(segs[k + 1].0 <= x < segs[k + 1].1);
    }
    assert forall|k1: int, k2: int|
        0 <= k1 < segs.len() && 0 <= k2 < segs.len() && (#[trigger] segs[k1]).0 <= x
            < segs[k1].1 && (#[trigger] segs[k2]).0 <= x < segs[k2].1 implies k1 == k2 by {
        if k1 < k2 {
            lemma_segments_ordered(segs, k1, k2);
        }
        if k2 < k1 {
            lemma_segments_ordered(segs, k2, k1);
        }
    }
}

/// Split `[sqrt_n, limit)` into `workers` contiguous segments of size
/// `(limit - sqrt_n) / workers`, the last one extended to end exactly at
/// `limit`. Every segment is a valid (possibly empty) half-open interval
/// inside `[sqrt_n, limit]`, whatever the worker count.
pub fn make_segments(limit: usize, sqrt_n: usize, workers: usize) -> (segs: Vec<(usize, usize)>)
    requires
        sqrt_n <= limit,
        workers >= 1,
    ensures
        segs@.len() == workers,
        contiguous(view_segs(segs@), sqrt_n as int, limit as int),
        forall|k: int| 0 <= k < segs@.len()
            ==> sqrt_n <= (#[trigger] segs@[k]).0 <= segs@[k].1 <= limit,
{
    let size = (limit - sqrt_n) / workers;
    proof {
        vstd::arithmetic::div_mod::lemma_fundamental_div_mod(
            limit as int - sqrt_n as int,
            workers as int,
        );
        assert(size as int * workers as int <= limit as int - sqrt_n as int)
            by (nonlinear_arith)
            requires
                limit as int - sqrt_n as int == workers as int * (size as int) + (
                (limit as int - sqrt_n as int) % workers as int),
                0 <= ((limit as int - sqrt_n as int) % workers as int),
        ;
    }
    let mut segs: Vec<(usize, usize)> = Vec::new();
    let mut lo = sqrt_n;
    let mut i: usize = 0;
    while i < workers
        invariant
            i <= workers,
            workers >= 1,
            sqrt_n <= limit,
            segs@.len() == i,
            size as int * workers as int <= limit as int - sqrt_n as int,
            i < workers ==> lo as int == sqrt_n as int + size as int * i as int,
            lo <= limit,
            i == workers ==> lo == limit,
            i > 0 ==> segs@[0].0 == sqrt_n,
            i > 0 ==> segs@[i - 1].1 == lo,
            forall|k: int| 0 <= k < i ==> sqrt_n <= (#[trigger] segs@[k]).0 <= segs@[k].1
                <= limit,
            forall|k: int| 0 <= k < i - 1 ==> (#[trigger] segs@[k]).1 == segs@[k + 1].0,
        decreases workers - i,
    {
        let hi: usize;
        if i == workers - 1 {
            hi = limit;
        } else {
            assert(size as int * (i as int + 1) <= limit as int - sqrt_n as int)
                by (nonlinear_arith)
                requires
                    size as int * workers as int <= limit as int - sqrt_n as int,
                    i as int + 1 <= workers as int,
                    size as int >= 0,
            ;
            assert(size as int * (i as int + 1) == size as int * i as int + size as int)
                by (nonlinear_arith);
            hi = lo + size;
        }
        segs.push((lo, hi));
        lo = hi;
        i = i + 1;
    }
    proof {
        let v = view_segs(segs@);
        assert(v.len() == workers);
        assert(forall|k: int| 0 <= k < v.len()
            ==> (#[trigger] v[k]).0 == segs@[k].0 as int && v[k].1 == segs@[k].1 as int);
        assert(contiguous(v, sqrt_n as int, limit as int));
    }
    segs
}

} // verus!
