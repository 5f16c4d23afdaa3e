//! The segment sieve: finds the primes in one sub-range `[low, high)` by
//! striking out multiples of the base primes.

use vstd::prelude::*;
use crate::base::view_as_ints;
use crate::number_theory::lemma_multiples_spaced;
use crate::number_theory::is_prime;
use crate::number_theory::primes_below;
use crate::number_theory::primes_in_range;
use crate::number_theory::lemma_composite_has_small_prime_factor;
use crate::number_theory::lemma_primes_in_range_concat;

verus! {

/// Joining the base primes (every prime below `low`) with one segment's
/// primes reproduces the full sieve below `high` exactly: no prime is
/// missed and none is counted twice.
pub proof fn lemma_segment_union(low: int, high: int)
    requires
        2 <= low <= high,
    ensures
        primes_below(low) + primes_in_range(low, high) == primes_below(high),
{
    lemma_primes_in_range_concat(2, low, high);
}

/// A segment marking array never strikes a prime: a cleared entry at
/// offset `v - low` means `v` is composite.
pub(crate) open spec fn seg_marks_sound(s: Seq<bool>, low: int) -> bool {
    forall|v: int| low <= v < low + s.len() && !s[v - low] ==> !is_prime(v)
}

/// Every value in the segment divisible by one of the first `t` base
/// primes has been struck.
pub(crate) open spec fn seg_marked(s: Seq<bool>, low: int, base: Seq<int>, t: int) -> bool {
    forall|v: int, u: int|
        low <= v < low + s.len() && 0 <= u < t && #[trigger] (v % base[u]) == 0 ==> !s[v - low]
}

/// Sieve one segment: returns the ascending sequence of all primes `p`
/// with `low <= p < high`, given the base primes. The base primes must
/// all lie below the segment and must include every prime whose square
/// is below `high`; the partitioner guarantees both.
pub fn calculate_segment(low: usize, high: usize, initial_primes: &Vec<usize>) -> (r: Vec<usize>)
    requires
        2 <= low <= high,
        high <= usize::MAX / 2,
        forall|t: int| 0 <= t < initial_primes@.len()
            ==> is_prime(#[trigger] initial_primes@[t] as int) && initial_primes@[t] < low,
        forall|p: int| is_prime(p) && p * p < high as int
            ==> view_as_ints(initial_primes@).contains(p),
    ensures
        view_as_ints(r@) == primes_in_range(low as int, high as int),
{
    let size = high - low;
    let mut arr: Vec<bool> = vec![true; size];
    assert(forall|j: int| 0 <= j < size ==> arr@[j]);
    let ghost base = view_as_ints(initial_primes@);
    let mut t: usize = 0;
    while t < initial_primes.len()
        invariant
            arr.len() == high - low,
            2 <= low <= high,
            high <= usize::MAX / 2,
            base == view_as_ints(initial_primes@),
            forall|u: int| 0 <= u < initial_primes@.len()
                ==> is_prime(#[trigger] initial_primes@[u] as int) && initial_primes@[u] < low,
            t <= initial_primes@.len(),
            seg_marks_sound(arr@, low as int),
            seg_marked(arr@, low as int, base, t as int),
        decreases initial_primes@.len() - t,
    {
        let p = initial_primes[t];
        assert(is_prime(p as int) && 2 <= p < low);
        let q = low / p;
        proof {
            vstd::arithmetic::div_mod::lemma_fundamental_div_mod(low as int, p as int);
            vstd::arithmetic::div_mod::lemma_mod_multiples_basic(q as int, p as int);
            vstd::arithmetic::div_mod::lemma_mod_add_multiples_vanish(
                (q * p) as int,
                p as int,
            );
        }
        assert(q * p <= low < q * p + p) by (nonlinear_arith)
            requires
                low as int == p as int * (q as int) + (low as int % p as int),
                0 <= (low as int % p as int) < (p as int),
        ;
        let m0 = if q * p >= low {
            q * p
        } else {
            q * p + p
        };
        assert(m0 as int % p as int == 0 && low <= m0 < low + p);
        proof {
            assert forall|v: int|
                low <= v < m0 && #[trigger] (v % p as int) == 0
                    implies !arr@[v - low as int] by {
                lemma_multiples_spaced(v, m0 as int, p as int);
            }
        }
        let mut i = m0;
        while i < high
            invariant
                arr.len() == high - low,
                2 <= low <= high,
                high <= usize::MAX / 2,
                base == view_as_ints(initial_primes@),
                forall|u: int| 0 <= u < initial_primes@.len()
                    ==> is_prime(#[trigger] initial_primes@[u] as int)
                        && initial_primes@[u] < low,
                t < initial_primes@.len(),
                p == initial_primes@[t as int],
                2 <= p < low,
                low <= m0 < low + p,
                m0 <= i,
                i as int % p as int == 0,
                seg_marks_sound(arr@, low as int),
                seg_marked(arr@, low as int, base, t as int),
                forall|v: int|
                    low <= v < i && #[trigger] (v % p as int) == 0 ==> !arr@[v - low as int],
            decreases high + p - i,
        {
            assert(!is_prime(i as int));
            arr[i - low] = false;
            proof {
                vstd::arithmetic::div_mod::lemma_mod_add_multiples_vanish(i as int, p as int);
                assert forall|v: int|
                    low <= v < i + p && #[trigger] (v % p as int) == 0
                        implies !arr@[v - low as int] by {
                    if i < v {
                        lemma_multiples_spaced(i as int, v, p as int);
                    }
                }
            }
            i = i + p;
        }
        assert(seg_marked(arr@, low as int, base, t as int + 1)) by {
            assert forall|v: int, u: int|
                low <= v < low + arr@.len() && 0 <= u < t as int + 1
                    && #[trigger] (v % base[u]) == 0 implies !arr@[v - low as int] by {
                if u == t as int {
                    assert(base[u] == p as int);
                    if v < m0 {
                        lemma_multiples_spaced(v, m0 as int, p as int);
                        assert(false);
                    }
                }
            }
        }
        t = t + 1;
    }
    assert(forall|v: int| low <= v < high ==> (arr@[v - low as int] <==> is_prime(v))) by {
        assert forall|v: int| low <= v < high && arr@[v - low as int] implies is_prime(v) by {
            if !is_prime(v) {
                lemma_composite_has_small_prime_factor(v);
                let pf = choose|pf: int|
                    is_prime(pf) && pf * pf <= v && #[trigger] (v % pf) == 0;
                assert(pf * pf < high as int);
                assert(base.contains(pf));
                let u = choose|u: int| 0 <= u < base.len() && base[u] == pf;
                assert(v % base[u] == 0);
            }
        }
    }
    let mut result: Vec<usize> = Vec::new();
    let mut i: usize = low;
    assert(view_as_ints(result@) =~= primes_in_range(low as int, low as int));
    while i < high
        invariant
            low <= i <= high,
            arr.len() == high - low,
            forall|v: int| low <= v < high ==> (arr@[v - low as int] <==> is_prime(v)),
            view_as_ints(result@) == primes_in_range(low as int, i as int),
        decreases high - i,
    {
        let ghost prev = result@;
        if arr[i - low] {
            result.push(i);
        }
        proof {
            lemma_primes_in_range_concat(low as int, i as int, i as int + 1);
            assert(primes_in_range(i as int + 1, i as int + 1) =~= Seq::<int>::empty());
            if is_prime(i as int) {
                assert(primes_in_range(i as int, i as int + 1) =~= seq![i as int]);
                assert(view_as_ints(result@) =~= view_as_ints(prev) + seq![i as int]);
            } else {
                assert(primes_in_range(i as int, i as int + 1) =~= Seq::<int>::empty());
                assert(primes_in_range(low as int, i as int + 1) =~= primes_in_range(
                    low as int,
                    i as int,
                ));
            }
        }
        i = i + 1;
    }
    result
}

} // verus!
