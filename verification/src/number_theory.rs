//! The mathematical vocabulary of the sieve: primality, divisibility
//! facts, and the canonical ascending sequence of primes in a range.

use vstd::prelude::*;
use vstd::arithmetic::div_mod::lemma_fundamental_div_mod;
use vstd::arithmetic::div_mod::lemma_mod_multiples_basic;
use vstd::arithmetic::div_mod::lemma_mod_self_0;

verus! {

/// A number is prime when it is at least 2 and no number from 2 up to
/// (but excluding) itself divides it.
pub open spec fn is_prime(p: int) -> bool {
    p >= 2 && forall|d: int| 2 <= d < p ==> #[trigger] (p % d) != 0
}

/// Divisibility passes through an intermediate divisor: if `a` divides `b`
/// and `b` divides `c`, then `a` divides `c`.
pub proof fn lemma_divides_transitive(a: int, b: int, c: int)
    requires
        a >= 1,
        b >= 1,
        b % a == 0,
        c % b == 0,
    ensures
        c % a == 0,
{
    let k1 = b / a;
    let k2 = c / b;
    lemma_fundamental_div_mod(b, a);
    lemma_fundamental_div_mod(c, b);
    assert(c == (k1 * k2) * a) by (nonlinear_arith)
        requires
            b == a * k1,
            c == b * k2,
    ;
    lemma_mod_multiples_basic(k1 * k2, a);
}

/// Two distinct multiples of `m` lie at least `m` apart.
pub proof fn lemma_multiples_spaced(a: int, b: int, m: int)
    requires
        m >= 1,
        a % m == 0,
        b % m == 0,
        a < b,
    ensures
        b - a >= m,
{
    lemma_fundamental_div_mod(a, m);
    lemma_fundamental_div_mod(b, m);
    assert(b - a >= m) by (nonlinear_arith)
        requires
            a == m * (a / m),
            b == m * (b / m),
            a < b,
            m >= 1,
    ;
}

/// Every integer at least 2 has a prime divisor no greater than itself.
pub proof fn lemma_has_prime_factor(n: int)
    requires
        n >= 2,
    ensures
        exists|p: int| is_prime(p) && 2 <= p <= n && #[trigger] (n % p) == 0,
    decreases n,
{
    if is_prime(n) {
        lemma_mod_self_0(n);
        assert(is_prime(n) && 2 <= n <= n && n % n == 0);
    } else {
        let d = choose|d: int| 2 <= d < n && #[trigger] (n % d) == 0;
        lemma_has_prime_factor(d);
        let p = choose|p: int| is_prime(p) && 2 <= p <= d && #[trigger] (d % p) == 0;
        lemma_divides_transitive(p, d, n);
        assert(is_prime(p) && 2 <= p <= n && n % p == 0);
    }
}

/// A composite number at least 2 has a prime divisor whose square does not
/// exceed it. This is what lets a sieve stop marking at the square root.
pub proof fn lemma_composite_has_small_prime_factor(n: int)
    requires
        n >= 2,
        !is_prime(n),
    ensures
        exists|p: int| is_prime(p) && p * p <= n && #[trigger] (n % p) == 0,
{
    let d = choose|d: int| 2 <= d < n && #[trigger] (n % d) == 0;
    let e = n / d;
    lemma_fundamental_div_mod(n, d);
    assert(e >= 2) by (nonlinear_arith)
        requires
            n == d * e,
            2 <= d < n,
    ;
    lemma_mod_multiples_basic(d, e);
    assert(n % e == 0) by {
        assert(n == d * e);
    }
    let f = if d <= e { d } else { e };
    assert(f * f <= n) by (nonlinear_arith)
        requires
            n == d * e,
            d >= 2,
            e >= 2,
            f == if d <= e { d } else { e },
    ;
    lemma_has_prime_factor(f);
    let p = choose|p: int| is_prime(p) && 2 <= p <= f && #[trigger] (f % p) == 0;
    lemma_divides_transitive(p, f, n);
    assert(p * p <= f * f) by (nonlinear_arith)
        requires
            2 <= p <= f,
    ;
    assert(is_prime(p) && p * p <= n && n % p == 0);
}

/// The ascending sequence of all primes in the half-open range `[lo, hi)`.
/// This is the canonical answer every sieve in the library is held to.
pub open spec fn primes_in_range(lo: int, hi: int) -> Seq<int>
    decreases hi - lo,
{
    if lo >= hi {
        Seq::empty()
    } else if is_prime(lo) {
        seq![lo] + primes_in_range(lo + 1, hi)
    } else {
        primes_in_range(lo + 1, hi)
    }
}

/// The ascending sequence of all primes below `n`.
pub open spec fn primes_below(n: int) -> Seq<int> {
    primes_in_range(2, n)
}

/// `primes_in_range(lo, hi)` holds exactly the primes in `[lo, hi)`, in
/// strictly ascending order.
pub proof fn lemma_primes_in_range_props(lo: int, hi: int)
    ensures
        forall|i: int| 0 <= i < primes_in_range(lo, hi).len()
            ==> is_prime(#[trigger] primes_in_range(lo, hi)[i])
                && lo <= primes_in_range(lo, hi)[i] < hi,
        forall|p: int| lo <= p < hi && is_prime(p) ==> primes_in_range(lo, hi).contains(p),
        forall|i: int, j: int| 0 <= i < j < primes_in_range(lo, hi).len()
            ==> primes_in_range(lo, hi)[i] < primes_in_range(lo, hi)[j],
    decreases hi - lo,
{
    if lo >= hi {
    } else {
        lemma_primes_in_range_props(lo + 1, hi);
        let rest = primes_in_range(lo + 1, hi);
        let whole = primes_in_range(lo, hi);
        if is_prime(lo) {
            assert(whole == seq![lo] + rest);
            assert(whole[0] == lo);
            assert(forall|i: int| 1 <= i < whole.len() ==> whole[i] == rest[i - 1]);
            assert forall|p: int| lo <= p < hi && is_prime(p) implies whole.contains(p) by {
                if p == lo {
                    assert(whole[0] == p);
                } else {
                    let k = choose|k: int| 0 <= k < rest.len() && rest[k] == p;
                    assert(whole[k + 1] == p);
                }
            }
        } else {
            assert(whole == rest);
            assert forall|p: int| lo <= p < hi && is_prime(p) implies whole.contains(p) by {
                assert(p != lo);
            }
        }
    }
}

/// Sieving two adjacent ranges and joining the results in order is the
/// same as sieving the joined range.
pub proof fn lemma_primes_in_range_concat(a: int, b: int, c: int)
    requires
        a <= b <= c,
    ensures
        primes_in_range(a, b) + primes_in_range(b, c) == primes_in_range(a, c),
    decreases b - a,
{
    if a >= b {
        assert(primes_in_range(a, b) + primes_in_range(b, c) =~= primes_in_range(b, c));
    } else {
        lemma_primes_in_range_concat(a + 1, b, c);
        if is_prime(a) {
            assert(primes_in_range(a, b) + primes_in_range(b, c) =~= seq![a]
                + (primes_in_range(a + 1, b) + primes_in_range(b, c)));
        } else {
            assert(primes_in_range(a, b) + primes_in_range(b, c) == primes_in_range(a + 1, b)
                + primes_in_range(b, c));
        }
    }
}

} // verus!
