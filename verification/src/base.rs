//! The base sieve: the classical Sieve of Eratosthenes over `[2, limit)`.

use vstd::prelude::*;
use crate::number_theory::is_prime;
use crate::number_theory::primes_in_range;
use crate::number_theory::primes_below;
use crate::number_theory::lemma_composite_has_small_prime_factor;
use crate::number_theory::lemma_multiples_spaced;
use crate::number_theory::lemma_primes_in_range_concat;

verus! {

/// The sequence of values a vector of machine integers holds, as
/// mathematical integers.
pub open spec fn view_as_ints(s: Seq<usize>) -> Seq<int> {
    s.map_values(|x: usize| x as int)
}

/// A marking array never marks a prime: a cleared entry is composite.
pub(crate) open spec fn marks_sound(s: Seq<bool>) -> bool {
    forall|j: int| 0 <= j < s.len() && !s[j] ==> !is_prime(j)
}

/// Every entry with a prime factor below `num` whose square does not
/// exceed the entry's index has been cleared.
pub(crate) open spec fn marked_below(s: Seq<bool>, num: int) -> bool {
    forall|j: int, p: int|
        0 <= j < s.len() && is_prime(p) && 2 <= p < num && #[trigger] (j % p) == 0 && p * p <= j
            ==> !s[j]
}

/// The classical Sieve of Eratosthenes: returns the ascending sequence of
/// all primes `p` with `2 <= p < limit`.
pub fn sieve(limit: usize) -> (r: Vec<usize>)
    requires
        limit <= usize::MAX / 2,
    ensures
        view_as_ints(r@) == primes_below(limit as int),
{
    if limit <= 2 {
        let r: Vec<usize> = Vec::new();
        assert(view_as_ints(r@) =~= primes_below(limit as int));
        return r;
    }
    let mut arr: Vec<bool> = vec![true; limit];
    assert(forall|j: int| 0 <= j < limit ==> arr@[j]);
    let mut num: usize = 2;
    while num <= limit / num
        invariant
            2 <= num,
            num <= limit,
            arr.len() == limit,
            limit <= usize::MAX / 2,
            marks_sound(arr@),
            marked_below(arr@, num as int),
        decreases limit - num,
    {
        proof {
            vstd::arithmetic::div_mod::lemma_fundamental_div_mod(limit as int, num as int);
        }
        assert(num * num <= limit) by (nonlinear_arith)
            requires
                num as int <= limit as int / num as int,
                limit as int == num as int * (limit as int / num as int) + limit as int
                    % num as int,
                0 <= limit as int % num as int,
                num >= 2,
        ;
        assert(num < limit) by (nonlinear_arith)
            requires
                num >= 2,
                num * num <= limit,
        ;
        if arr[num] {
            proof {
                if !is_prime(num as int) {
                    lemma_composite_has_small_prime_factor(num as int);
                    let p = choose|p: int|
                        is_prime(p) && p * p <= num as int && #[trigger] (num as int % p) == 0;
                    assert(p < num) by (nonlinear_arith)
                        requires
                            p >= 2,
                            p * p <= num as int,
                            num >= 2,
                    ;
                    assert(!arr@[num as int]);
                }
            }
            let mut i: usize = num * num;
            proof {
                vstd::arithmetic::div_mod::lemma_mod_multiples_basic(num as int, num as int);
            }
            while i < limit
                invariant
                    2 <= num <= limit,
                    arr.len() == limit,
                    limit <= usize::MAX / 2,
                    is_prime(num as int),
                    num * num <= i,
                    i as int % num as int == 0,
                    marks_sound(arr@),
                    marked_below(arr@, num as int),
                    forall|j: int|
                        num * num <= j < i && #[trigger] (j % num as int) == 0 ==> !arr@[j],
                decreases limit + num - i,
            {
                proof {
                    assert(!is_prime(i as int)) by {
                        assert(2 <= num < i) by (nonlinear_arith)
                            requires
                                num >= 2,
                                i >= num * num,
                        ;
                    }
                }
                arr[i] = false;
                proof {
                    vstd::arithmetic::div_mod::lemma_mod_add_multiples_vanish(
                        i as int,
                        num as int,
                    );
                    assert forall|j: int|
                        num * num <= j < i + num && #[trigger] (j % num as int) == 0
                            implies !arr@[j] by {
                        if i < j {
                            lemma_multiples_spaced(i as int, j, num as int);
                        }
                    }
                }
                i = i + num;
            }
            assert(marked_below(arr@, num as int + 1)) by {
                assert forall|j: int, p: int|
                    0 <= j < limit && is_prime(p) && 2 <= p < num as int + 1
                        && #[trigger] (j % p) == 0 && p * p <= j implies !arr@[j] by {
                    if p == num as int {
                        assert(j < i);
                    }
                }
            }
        } else {
            assert(marked_below(arr@, num as int + 1)) by {
                assert forall|j: int, p: int|
                    0 <= j < limit && is_prime(p) && 2 <= p < num as int + 1
                        && #[trigger] (j % p) == 0 && p * p <= j implies !arr@[j] by {
                    if p == num as int {
                        assert(!is_prime(num as int));
                    }
                }
            }
        }
        num = num + 1;
    }
    proof {
        vstd::arithmetic::div_mod::lemma_fundamental_div_mod(limit as int, num as int);
    }
    assert(num as int * num as int > limit as int) by (nonlinear_arith)
        requires
            num as int > limit as int / num as int,
            limit as int == num as int * (limit as int / num as int) + limit as int
                % num as int,
            (limit as int % num as int) < (num as int),
            num >= 2,
    ;
    assert(forall|j: int| 2 <= j < limit ==> (arr@[j] <==> is_prime(j))) by {
        assert forall|j: int| 2 <= j < limit && arr@[j] implies is_prime(j) by {
            if !is_prime(j) {
                lemma_composite_has_small_prime_factor(j);
                let p = choose|p: int|
                    is_prime(p) && p * p <= j && #[trigger] (j % p) == 0;
                assert(p < num) by (nonlinear_arith)
                    requires
                        p >= 2,
                        p * p <= j,
                        j < limit as int,
                        num as int * num as int > limit as int,
                        num >= 2,
                ;
            }
        }
    }
    let mut result: Vec<usize> = Vec::new();
    let mut i: usize = 2;
    assert(view_as_ints(result@) =~= primes_in_range(2, 2));
    while i < limit
        invariant
            2 <= i <= limit,
            arr.len() == limit,
            forall|j: int| 2 <= j < limit ==> (arr@[j] <==> is_prime(j)),
            view_as_ints(result@) == primes_in_range(2, i as int),
        decreases limit - i,
    {
        let ghost prev = result@;
        if arr[i] {
            result.push(i);
        }
        proof {
            lemma_primes_in_range_concat(2, i as int, i as int + 1);
            assert(primes_in_range(i as int + 1, i as int + 1) =~= Seq::<int>::empty());
            if is_prime(i as int) {
                assert(primes_in_range(i as int, i as int + 1) =~= seq![i as int]);
                assert(view_as_ints(result@) =~= view_as_ints(prev) + seq![i as int]);
            } else {
                assert(primes_in_range(i as int, i as int + 1) =~= Seq::<int>::empty());
                assert(primes_in_range(2, i as int + 1) =~= primes_in_range(2, i as int));
            }
        }
        i = i + 1;
    }
    result
}

} // verus!
