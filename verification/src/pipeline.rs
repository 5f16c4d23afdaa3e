//! The full pipeline: compute the base primes, partition the remaining
//! range, sieve every segment against the base primes, merge the results
//! in segment order, and aggregate them into a run summary.

use vstd::prelude::*;
use crate::aggregate::RunSummary;
use crate::aggregate::aggregate;
use crate::aggregate::seq_sum;
use crate::aggregate::lemma_ascending_len_bound;
use crate::base::sieve;
use crate::base::view_as_ints;
use crate::number_theory::is_prime;
use crate::number_theory::primes_below;
use crate::number_theory::primes_in_range;
use crate::number_theory::lemma_primes_in_range_props;
use crate::number_theory::lemma_primes_in_range_concat;
use crate::partition::make_segments;
use crate::segment::calculate_segment;

verus! {

/// Why a run could not be started.
#[derive(Debug, Clone, Copy, PartialEq, Eq, Structural)]
pub enum ConfigError {
    /// The worker count was zero: no segment could be dispatched.
    NoWorkers,
    /// The limit was below 2, so the range `[2, limit)` is malformed, or
    /// above what the sum accumulator and the address space support.
    LimitOutOfRange,
}

/// The configurations a run accepts: a range `[2, limit)` that is
/// non-empty, small enough for the 64-bit prime sum not to overflow and
/// for the marking arrays to be addressable, and at least one worker.
pub open spec fn valid_config(limit: int, workers: int) -> bool {
    &&& 2 <= limit
    &&& limit <= 0xffff_ffff
    &&& limit <= usize::MAX as int / 2
    &&& workers >= 1
}

/// What a finished run reports for a given limit: the count, sum, and
/// descending top (at most ten) of the primes below the limit.
pub open spec fn summary_matches(s: RunSummary, limit: int) -> bool {
    &&& s.count == primes_below(limit).len()
    &&& s.sum == seq_sum(primes_below(limit))
    &&& s.top@.len() == (if primes_below(limit).len() < 10 {
        primes_below(limit).len() as int
    } else {
        10int
    })
    &&& forall|t: int| 0 <= t < s.top@.len()
        ==> #[trigger] s.top@[t] as int == primes_below(limit)[primes_below(limit).len() - 1 - t]
}

/// The integer square root: the largest `r` with `r * r <= n`.
pub fn isqrt(n: usize) -> (r: usize)
    requires
        n <= usize::MAX / 2,
    ensures
        r <= n,
        r * r <= n,
        (r + 1) * (r + 1) > n,
{
    let mut r: usize = 0;
    while r + 1 <= n / (r + 1)
        invariant
            n <= usize::MAX / 2,
            r as int * r as int <= n,
            r <= n,
        decreases n - r,
    {
        proof {
            vstd::arithmetic::div_mod::lemma_fundamental_div_mod(n as int, r as int + 1);
        }
        assert((r as int + 1) * (r as int + 1) <= n) by (nonlinear_arith)
            requires
                r as int + 1 <= n as int / (r as int + 1),
                n as int == (r as int + 1) * (n as int / (r as int + 1)) + (n as int % (
                r as int + 1)),
                0 <= (n as int % (r as int + 1)),
        ;
        r = r + 1;
    }
    proof {
        vstd::arithmetic::div_mod::lemma_fundamental_div_mod(n as int, r as int + 1);
    }
    assert((r as int + 1) * (r as int + 1) > n) by (nonlinear_arith)
        requires
            r as int + 1 > n as int / (r as int + 1),
            n as int == (r as int + 1) * (n as int / (r as int + 1)) + (n as int % (
            r as int + 1)),
            (n as int % (r as int + 1)) < r as int + 1,
    ;
    r
}

/// Append every element of `src` to `dst`, keeping `src` usable.
fn append_all(dst: &mut Vec<usize>, src: &Vec<usize>)
    ensures
        final(dst)@ == old(dst)@ + src@,
{
    let mut i: usize = 0;
    assert(dst@ =~= old(dst)@ + src@.subrange(0, 0));
    while i < src.len()
        invariant
            i <= src@.len(),
            dst@ == old(dst)@ + src@.subrange(0, i as int),
        decreases src@.len() - i,
    {
        let ghost prev = dst@;
        dst.push(src[i]);
        proof {
            assert(prev.push(src@[i as int]) =~= old(dst)@ + src@.subrange(0, i as int + 1));
        }
        i = i + 1;
    }
    assert(src@.subrange(0, src@.len() as int) =~= src@);
}

/// Run the whole computation for the range `[2, limit)` with the given
/// worker count. Returns the summary exactly when the configuration is
/// valid; says which part of the configuration was rejected otherwise.
/// The summary does not depend on the worker count: any accepted worker
/// count yields the same count, sum, and top primes.
pub fn run(limit: usize, workers: usize) -> (r: Result<RunSummary, ConfigError>)
    ensures
        r is Ok <==> valid_config(limit as int, workers as int),
        r == Err::<RunSummary, ConfigError>(ConfigError::NoWorkers) <==> workers == 0,
        r == Err::<RunSummary, ConfigError>(ConfigError::LimitOutOfRange) <==> (workers >= 1
            && !(2 <= limit as int <= 0xffff_ffff && limit <= usize::MAX / 2)),
        r is Ok ==> summary_matches(r->Ok_0, limit as int),
{
    if workers == 0 {
        return Err(ConfigError::NoWorkers);
    }
    if !(limit >= 2 && (limit as u64) <= 0xffff_ffffu64 && limit <= usize::MAX / 2) {
        return Err(ConfigError::LimitOutOfRange);
    }
    let sqrt_n = isqrt(limit) + 1;
    assert(2 <= sqrt_n <= limit) by (nonlinear_arith)
        requires
            (sqrt_n as int - 1) * (sqrt_n as int - 1) <= limit as int,
            sqrt_n as int * sqrt_n as int > limit as int,
            sqrt_n >= 1,
            limit >= 2,
    ;
    let base = sieve(sqrt_n);
    proof {
        lemma_primes_in_range_props(2, sqrt_n as int);
    }
    let segs = make_segments(limit, sqrt_n, workers);
    let mut merged: Vec<usize> = Vec::new();
    append_all(&mut merged, &base);
    assert(view_as_ints(merged@) =~= view_as_ints(base@));
    let mut si: usize = 0;
    let ghost mut bnd: int = sqrt_n as int;
    while si < segs.len()
        invariant
            si <= segs@.len(),
            segs@.len() == workers,
            workers >= 1,
            2 <= sqrt_n <= limit,
            limit <= usize::MAX / 2,
            sqrt_n as int * sqrt_n as int > limit as int,
            view_as_ints(base@) == primes_below(sqrt_n as int),
            bnd == (if si == 0 {
                sqrt_n as int
            } else {
                segs@[si as int - 1].1 as int
            }),
            view_as_ints(merged@) == primes_in_range(2, bnd),
            forall|k: int| 0 <= k < segs@.len()
                ==> sqrt_n <= (#[trigger] segs@[k]).0 <= segs@[k].1 <= limit,
            forall|k: int| 0 <= k < segs@.len() - 1
                ==> (#[trigger] crate::partition::view_segs(segs@)[k]).1
                    == crate::partition::view_segs(segs@)[k + 1].0,
            crate::partition::view_segs(segs@)[0].0 == sqrt_n as int,
            crate::partition::view_segs(segs@)[segs@.len() - 1].1 == limit as int,
        decreases segs@.len() - si,
    {
        let (low, high) = segs[si];
        proof {
            lemma_primes_in_range_props(2, sqrt_n as int);
            assert(crate::partition::view_segs(segs@)[si as int].0 == low as int);
            if si > 0 {
                assert(crate::partition::view_segs(segs@)[si as int - 1].1
                    == crate::partition::view_segs(segs@)[si as int].0);
            }
            assert(low as int == bnd);
            assert forall|t: int| 0 <= t < base@.len()
                implies is_prime(#[trigger] base@[t] as int) && base@[t] < low by {
                assert(view_as_ints(base@)[t] == base@[t] as int);
            }
            assert forall|p: int| is_prime(p) && p * p < high as int
                implies view_as_ints(base@).contains(p) by {
                assert(p < sqrt_n as int) by (nonlinear_arith)
                    requires
                        p >= 2,
                        p * p < high as int,
                        high as int <= limit as int,
                        sqrt_n as int * sqrt_n as int > limit as int,
                        sqrt_n >= 2,
                ;
            }
        }
        let mut part = calculate_segment(low, high, &base);
        merged.append(&mut part);
        proof {
            assert(view_as_ints(merged@) =~= primes_in_range(2, bnd) + primes_in_range(
                low as int,
                high as int,
            ));
            lemma_primes_in_range_concat(2, bnd, high as int);
            bnd = high as int;
        }
        si = si + 1;
    }
    assert(bnd == limit as int);
    assert(view_as_ints(merged@) == primes_below(limit as int));
    proof {
        lemma_primes_in_range_props(2, limit as int);
        let v = view_as_ints(merged@);
        assert forall|i: int, j: int| 0 <= i < j < merged@.len()
            implies merged@[i] < merged@[j] by {
            assert(v[i] < v[j]);
        }
        assert forall|i: int| 0 <= i < merged@.len()
            implies #[trigger] merged@[i] <= 0xffff_ffff by {
            assert(2 <= v[i] < limit as int);
        }
        lemma_ascending_len_bound(v, limit as int);
    }
    let summary = aggregate(&merged);
    Ok(summary)
}

/// Running the pipeline twice on the same limit yields the same count,
/// the same sum, and the same top primes — whatever worker counts the
/// two runs used and however their segments were scheduled.
pub proof fn lemma_run_deterministic(s1: RunSummary, s2: RunSummary, limit: int)
    requires
        summary_matches(s1, limit),
        summary_matches(s2, limit),
    ensures
        s1.count == s2.count,
        s1.sum == s2.sum,
        s1.top@ == s2.top@,
{
    assert forall|t: int| 0 <= t < s1.top@.len() implies s1.top@[t] == s2.top@[t] by {
        assert(s1.top@[t] as int == s2.top@[t] as int);
    }
    assert(s1.top@ =~= s2.top@);
}

} // verus!
