//! Sieve of Eratosthenes.
use vstd::prelude::*;
use vstd::arithmetic::div_mod::{lemma_fundamental_div_mod, lemma_mod_multiples_basic};

verus! {

/// `n` is a prime number: at least 2 and without a divisor strictly between 1 and `n`.
pub open spec fn is_prime(n: int) -> bool {
    &&& n >= 2
    &&& forall|d: int| 2 <= d < n ==> #[trigger] (n % d) != 0
}

/// No divisor `d` with `2 <= d < bound` and `d * d <= n` divides `n`:
/// what the sieve knows of `n` once every `d < bound` has been crossed off.
pub open spec fn no_small_divisor(n: int, bound: int) -> bool {
    forall|d: int| 2 <= d < bound && d * d <= n ==> #[trigger] (n % d) != 0
}

/// `primes` lists, in strictly increasing order, exactly the primes below `bound`.
pub open spec fn lists_primes_below(primes: Seq<usize>, bound: int) -> bool {
    &&& forall|k: int| 0 <= k < primes.len() ==> #[trigger] primes[k] < bound
    &&& forall|k: int| 0 <= k < primes.len() ==> is_prime(#[trigger] primes[k] as int)
    &&& forall|k: int, l: int| 0 <= k < l < primes.len() ==> #[trigger] primes[k] < #[trigger] primes[l]
    &&& forall|m: int| 0 <= m < bound && is_prime(m) ==> exists|k: int| 0 <= k < primes.len() && #[trigger] primes[k] == m
}

proof fn lemma_divides_transitive(n: int, i: int, d: int)
    requires
        n >= 0,
        i > 0,
        d > 0,
        n % i == 0,
        i % d == 0,
    ensures
        n % d == 0,
{
    lemma_fundamental_div_mod(n, i);
    lemma_fundamental_div_mod(i, d);
    let a = n / i;
    let b = i / d;
    assert(n == i * a);
    assert(i == d * b);
    assert(n == (b * a) * d) by (nonlinear_arith)
        requires
            n == i * a,
            i == d * b,
    ;
    lemma_mod_multiples_basic(b * a, d);
}

/// A square of at least 4 is larger than its root.
proof fn lemma_root_below(d: int, n: int)
    requires
        d >= 2,
        d * d <= n,
    ensures
        d < n,
{
    assert(d < d * d) by (nonlinear_arith)
        requires
            d >= 2,
    ;
}

/// Once every candidate factor below `bound` is crossed off and `bound * bound`
/// exceeds `n`, having no small divisor is being prime.
proof fn lemma_no_small_divisor_is_prime(n: int, bound: int)
    requires
        n >= 2,
        bound >= 2,
        n < bound * bound,
    ensures
        no_small_divisor(n, bound) <==> is_prime(n),
{
    if is_prime(n) {
        assert forall|d: int| 2 <= d < bound && d * d <= n implies #[trigger] (n % d) != 0 by {
            lemma_root_below(d, n);
        }
    }
    if no_small_divisor(n, bound) {
        assert forall|d: int| 2 <= d < n implies #[trigger] (n % d) != 0 by {
            if n % d == 0 {
                lemma_fundamental_div_mod(n, d);
                let e = n / d;
                assert(n == d * e);
                assert(e >= 2) by (nonlinear_arith)
                    requires
                        n == d * e,
                        2 <= d < n,
                ;
                let m = if d <= e { d } else { e };
                assert(m * m <= n) by (nonlinear_arith)
                    requires
                        n == d * e,
                        m == d || m == e,
                        m <= d,
                        m <= e,
                        m >= 2,
                ;
                assert(m < bound) by (nonlinear_arith)
                    requires
                        m * m <= n,
                        n < bound * bound,
                        m >= 2,
                        bound >= 2,
                ;
                if m == e {
                    lemma_mod_multiples_basic(d, e);
                    assert(n == d * e);
                    assert((d * e) % e == 0);
                }
                assert(n % m == 0);
                assert(2 <= m < bound && m * m <= n);
                assert(n % m != 0);
            }
        }
    }
}

/// Crossing off the multiples of a composite `i` changes nothing: a smaller
/// divisor of `i` has already crossed them off.
proof fn lemma_composite_crossed_already(n: int, i: int)
    requires
        i >= 2,
        !no_small_divisor(i, i),
        no_small_divisor(n, i),
        i * i <= n,
    ensures
        n % i != 0,
{
    let d = choose|d: int| 2 <= d < i && d * d <= i && #[trigger] (i % d) == 0;
    if n % i == 0 {
        lemma_divides_transitive(n, i, d);
        assert(d * d <= n) by (nonlinear_arith)
            requires
                d * d <= i,
                i * i <= n,
                i >= 2,
        ;
        assert(n % d != 0);
    }
}

/// Returns all primes up to (and including) `limit`, in increasing order.
pub fn sieve(limit: usize) -> (primes: Vec<usize>)
    requires
        limit < usize::MAX / 2,
    ensures
        lists_primes_below(primes@, limit + 1),
{
    if limit < 2 {
        let primes: Vec<usize> = Vec::new();
        assert forall|m: int| 0 <= m < limit + 1 && is_prime(m) implies exists|k: int|
            0 <= k < primes@.len() && #[trigger] primes@[k] == m by {}
        return primes;
    }
    let mut candidate: Vec<bool> = Vec::new();
    let mut n: usize = 0;
    while n <= limit
        invariant
            n <= limit + 1,
            limit < usize::MAX / 2,
            candidate@.len() == n,
            forall|k: int| 0 <= k < n ==> #[trigger] candidate@[k],
        decreases limit + 1 - n,
    {
        candidate.push(true);
        n = n + 1;
    }
    candidate.set(0, false);
    candidate.set(1, false);
    assert forall|m: int| 2 <= m <= limit implies #[trigger] candidate@[m] == no_small_divisor(m, 2) by {}

    let mut i: usize = 2;
    while i <= limit / i
        invariant
            2 <= i <= limit,
            limit < usize::MAX / 2,
            candidate@.len() == limit + 1,
            !candidate@[0],
            !candidate@[1],
            forall|m: int| 2 <= m <= limit ==> #[trigger] candidate@[m] == no_small_divisor(m, i as int),
        decreases limit - i,
    {
        assert(i * i <= limit) by (nonlinear_arith)
            requires
                i <= limit / i,
                i >= 2,
        ;
        assert(i < limit && 4 <= i * i) by (nonlinear_arith)
            requires
                i * i <= limit,
                i >= 2,
        ;
        if candidate[i] {
            let mut j: usize = i * i;
            proof {
                lemma_mod_multiples_basic(i as int, i as int);
            }
            while j <= limit
                invariant
                    2 <= i <= limit,
                    i * i <= j,
                    4 <= j,
                    limit < usize::MAX / 2,
                    candidate@.len() == limit + 1,
                    j % i == 0,
                    !candidate@[0],
                    !candidate@[1],
                    forall|m: int|
                        2 <= m <= limit ==> #[trigger] candidate@[m] == (no_small_divisor(m, i as int)
                            && !(i * i <= m && m < j && m % (i as int) == 0)),
                decreases limit + i - j,
            {
                candidate.set(j, false);
                proof {
                    assert forall|m: int| 2 <= m <= limit implies #[trigger] candidate@[m] == (
                    no_small_divisor(m, i as int) && !(i * i <= m && m < j + i && m % (i as int) == 0)) by {
                        if j < m && m < j + i {
                            if m % (i as int) == 0 {
                                lemma_fundamental_div_mod(m, i as int);
                                lemma_fundamental_div_mod(j as int, i as int);
                                assert(false) by (nonlinear_arith)
                                    requires
                                        m == i * (m / (i as int)),
                                        j == i * (j / i),
                                        j < m < j + i,
                                        i > 0,
                                ;
                            }
                        }
                    }
                    lemma_mod_multiples_basic((j / i + 1) as int, i as int);
                    lemma_fundamental_div_mod(j as int, i as int);
                    assert(j + i == (j / i + 1) * i) by (nonlinear_arith)
                        requires
                            j == i * (j / i),
                    ;
                }
                j = j + i;
            }
            proof {
                assert forall|m: int| 2 <= m <= limit implies #[trigger] candidate@[m]
                    == no_small_divisor(m, i + 1) by {
                    if no_small_divisor(m, i as int) && !(i * i <= m && m % (i as int) == 0) {
                        assert forall|d: int| 2 <= d < i + 1 && d * d <= m implies #[trigger] (m % d)
                            != 0 by {
                            if d == i {
                            }
                        }
                    }
                }
            }
        } else {
            proof {
                assert(!no_small_divisor(i as int, i as int));
                assert forall|m: int| 2 <= m <= limit implies #[trigger] candidate@[m]
                    == no_small_divisor(m, i + 1) by {
                    if no_small_divisor(m, i as int) && i * i <= m {
                        lemma_composite_crossed_already(m, i as int);
                    }
                    if no_small_divisor(m, i as int) {
                        assert forall|d: int| 2 <= d < i + 1 && d * d <= m implies #[trigger] (m % d)
                            != 0 by {
                            if d == i {
                                lemma_composite_crossed_already(m, i as int);
                            }
                        }
                    }
                }
            }
        }
        i = i + 1;
    }
    proof {
        assert(limit < i * i) by (nonlinear_arith)
            requires
                i > limit / i,
                i >= 2,
        ;
        assert forall|m: int| 2 <= m <= limit implies #[trigger] candidate@[m] == is_prime(m) by {
            lemma_no_small_divisor_is_prime(m, i as int);
        }
    }

    let mut primes: Vec<usize> = Vec::new();
    let mut n: usize = 0;
    while n <= limit
        invariant
            n <= limit + 1,
            limit < usize::MAX / 2,
            candidate@.len() == limit + 1,
            !candidate@[0],
            !candidate@[1],
            forall|m: int| 2 <= m <= limit ==> #[trigger] candidate@[m] == is_prime(m),
            lists_primes_below(primes@, n as int),
        decreases limit + 1 - n,
    {
        if candidate[n] {
            let ghost before = primes@;
            primes.push(n);
            proof {
                assert(primes@[before.len() as int] == n);
                assert forall|m: int| 0 <= m < n + 1 && is_prime(m) implies exists|k: int|
                    0 <= k < primes@.len() && #[trigger] primes@[k] == m by {
                    if m < n {
                        let k = choose|k: int| 0 <= k < before.len() && #[trigger] before[k] == m;
                        assert(primes@[k] == m);
                    } else {
                        assert(primes@[before.len() as int] == m);
                    }
                }
            }
        } else {
            proof {
                assert forall|m: int| 0 <= m < n + 1 && is_prime(m) implies exists|k: int|
                    0 <= k < primes@.len() && #[trigger] primes@[k] == m by {
                    if m == n {
                        assert(!is_prime(m));
                    }
                }
            }
        }
        n = n + 1;
    }
    primes
}

} // verus!
