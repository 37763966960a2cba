use vstd::prelude::*;

verus! {

use vstd::arithmetic::div_mod::{lemma_fundamental_div_mod, lemma_mod_multiples_basic};

/// A number is prime when it is at least 2 and no integer in [2, n)
/// divides it.
pub open spec fn is_prime_spec(n: int) -> bool {
    n >= 2 && forall|d: int| 2 <= d < n ==> #[trigger] (n % d) != 0
}

/// Divisibility is transitive: when `b` divides `a` and `c` divides `b`,
/// `c` divides `a`.
proof fn lemma_divides_transitive(a: int, b: int, c: int)
    requires
        b >= 1,
        c >= 1,
        a % b == 0,
        b % c == 0,
    ensures
        a % c == 0,
{
    lemma_fundamental_div_mod(a, b);
    lemma_fundamental_div_mod(b, c);
    assert(a == ((b / c) * (a / b)) * c) by (nonlinear_arith)
        requires
            a == b * (a / b) + a % b,
            b == c * (b / c) + b % c,
            a % b == 0,
            b % c == 0,
    ;
    lemma_mod_multiples_basic((b / c) * (a / b), c);
}

/// Every divisor `d >= 2` of `n` has a prime divisor of `n` below it.
proof fn lemma_prime_factor_below(n: int, d: int) -> (q: int)
    requires
        n >= 2,
        2 <= d,
        n % d == 0,
    ensures
        2 <= q <= d,
        is_prime_spec(q),
        n % q == 0,
    decreases d,
{
    if is_prime_spec(d) {
        d
    } else {
        assert(exists|e: int| 2 <= e < d && #[trigger] (d % e) == 0);
        let e = choose|e: int| 2 <= e < d && #[trigger] (d % e) == 0;
        lemma_divides_transitive(n, d, e);
        lemma_prime_factor_below(n, e)
    }
}

/// A composite number has a prime factor no larger than its square root:
/// from any proper divisor of `n` a prime divisor `q` with `q * q <= n`
/// can be produced.
pub proof fn lemma_small_prime_factor(n: int, d: int) -> (q: int)
    requires
        2 <= d < n,
        n % d == 0,
    ensures
        2 <= q,
        q * q <= n,
        is_prime_spec(q),
        n % q == 0,
    decreases d,
{
    let p = lemma_prime_factor_below(n, d);
    if p * p <= n {
        p
    } else {
        lemma_fundamental_div_mod(n, p);
        let m = n / p;
        assert(n == p * m);
        assert(2 <= m < p) by (nonlinear_arith)
            requires
                n == p * m,
                p >= 2,
                n > p,
                p * p > n,
        ;
        lemma_mod_multiples_basic(p, m);
        lemma_small_prime_factor(n, m)
    }
}

/// Primality agrees with trial division by every integer `d` with
/// `2 <= d` and `d * d <= n`: `n >= 2` is prime exactly when no such `d`
/// divides it.
pub proof fn lemma_prime_iff_no_small_factor(n: int)
    requires
        n >= 2,
    ensures
        is_prime_spec(n) <==> (forall|d: int| 2 <= d && d * d <= n ==> #[trigger] (n % d) != 0),
{
    if is_prime_spec(n) {
        assert forall|d: int| 2 <= d && d * d <= n implies #[trigger] (n % d) != 0 by {
            assert(2 * d <= d * d) by (nonlinear_arith)
                requires
                    d >= 2,
            ;
            assert(2 <= d < n);
        }
    } else {
        let d0 = choose|d: int| 2 <= d < n && #[trigger] (n % d) == 0;
        let q = lemma_small_prime_factor(n, d0);
        assert(!(forall|d: int| 2 <= d && d * d <= n ==> #[trigger] (n % d) != 0));
    }
}

/// An even number other than 2 is not prime.
pub proof fn lemma_even_not_prime(n: int)
    requires
        n % 2 == 0,
        n != 2,
    ensures
        !is_prime_spec(n),
{
    if n >= 2 {
        assert(2 <= 2 < n);
        assert(!is_prime_spec(n));
    }
}

/// A prime other than 2 is odd.
pub proof fn lemma_prime_is_odd(q: int)
    requires
        is_prime_spec(q),
        q != 2,
    ensures
        q % 2 == 1,
{
    if q % 2 != 1 {
        assert(q % 2 == 0);
        lemma_even_not_prime(q);
    }
}

} // verus!
