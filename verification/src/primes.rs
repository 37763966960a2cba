use vstd::prelude::*;

verus! {

use crate::number_theory::{
    is_prime_spec,
    lemma_small_prime_factor,
    lemma_even_not_prime,
    lemma_prime_is_odd,
};
use vstd::arithmetic::div_mod::{
    lemma_fundamental_div_mod,
    lemma_fundamental_div_mod_converse_mod,
    lemma_mod_multiples_basic,
    lemma_mod_add_multiples_vanish,
};
use vstd::arithmetic::logarithm::{log, lemma_log0, lemma_log_s};
use vstd::arithmetic::power2::{
    pow2,
    lemma_pow2_pos,
    lemma_pow2_unfold,
    lemma_pow2_adds,
    lemma_pow2_strictly_increases,
    lemma2_to64,
    lemma2_to64_rest,
};

/// The ascending sequence of all primes strictly below `l`.
pub open spec fn primes_below(l: int) -> Seq<int>
    decreases l,
{
    if l <= 2 {
        Seq::empty()
    } else if is_prime_spec(l - 1) {
        primes_below(l - 1).push(l - 1)
    } else {
        primes_below(l - 1)
    }
}

/// The elements of a sequence of machine integers, as mathematical integers.
pub open spec fn as_ints(s: Seq<i32>) -> Seq<int> {
    s.map(|i: int, x: i32| x as int)
}

/// `primes_below(l)` holds exactly the primes in `[2, l)`, in strictly
/// ascending order.
pub proof fn lemma_primes_below_properties(l: int)
    ensures
        forall|i: int|
            0 <= i < primes_below(l).len() ==> 2 <= #[trigger] primes_below(l)[i]
                && primes_below(l)[i] < l && is_prime_spec(primes_below(l)[i]),
        forall|i: int, j: int|
            0 <= i < j < primes_below(l).len() ==> primes_below(l)[i] < primes_below(l)[j],
        forall|q: int| 2 <= q < l && is_prime_spec(q) ==> primes_below(l).contains(q),
    decreases l,
{
    if l <= 2 {
    } else {
        lemma_primes_below_properties(l - 1);
        assert forall|i: int|
            0 <= i < primes_below(l).len() implies 2 <= #[trigger] primes_below(l)[i]
            && primes_below(l)[i] < l && is_prime_spec(primes_below(l)[i]) by {
            if i < primes_below(l - 1).len() {
                assert(primes_below(l)[i] == primes_below(l - 1)[i]);
            }
        }
        assert forall|i: int, j: int|
            0 <= i < j < primes_below(l).len() implies primes_below(l)[i] < primes_below(
            l,
        )[j] by {
            if j < primes_below(l - 1).len() {
                assert(primes_below(l)[i] == primes_below(l - 1)[i]);
                assert(primes_below(l)[j] == primes_below(l - 1)[j]);
            } else {
                assert(primes_below(l)[i] == primes_below(l - 1)[i]);
                assert(primes_below(l - 1)[i] < l - 1);
            }
        }
        assert forall|q: int| 2 <= q < l && is_prime_spec(q) implies primes_below(l).contains(
            q,
        ) by {
            if q < l - 1 {
                assert(primes_below(l - 1).contains(q));
                let i = choose|i: int|
                    0 <= i < primes_below(l - 1).len() && #[trigger] primes_below(l - 1)[i] == q;
                assert(primes_below(l)[i] == q);
            } else {
                assert(primes_below(l).last() == l - 1);
            }
        }
    }
}

/// Trial-divides `n` by the primes of `p`, in ascending order, stopping as
/// soon as a divisor is found or a prime exceeds the square root of `n`.
/// Correctness needs `p` to hold every prime up to the square root of `n`.
fn trial_divide_by_primes(n: i32, p: &Vec<i32>) -> (r: bool)
    requires
        n >= 2,
        forall|i: int| 0 <= i < p@.len() ==> is_prime_spec(#[trigger] p@[i] as int),
        forall|i: int, j: int| 0 <= i < j < p@.len() ==> p@[i] < p@[j],
        forall|q: int|
            is_prime_spec(q) && q * q <= n ==> exists|i: int|
                0 <= i < p@.len() && #[trigger] p@[i] as int == q,
    ensures
        r == is_prime_spec(n as int),
{
    let mut k: usize = 0;
    while k < p.len()
        invariant
            n >= 2,
            k <= p@.len(),
            forall|i: int| 0 <= i < p@.len() ==> is_prime_spec(#[trigger] p@[i] as int),
            forall|i: int, j: int| 0 <= i < j < p@.len() ==> p@[i] < p@[j],
            forall|q: int|
                is_prime_spec(q) && q * q <= n ==> exists|i: int|
                    0 <= i < p@.len() && #[trigger] p@[i] as int == q,
            forall|j: int| 0 <= j < k ==> (n as int) % (#[trigger] p@[j] as int) != 0,
            forall|j: int| 0 <= j < k ==> (#[trigger] p@[j] as int) * (p@[j] as int) <= n,
        decreases p@.len() - k,
    {
        let q = p[k];
        proof {
            assert(0 <= (q as int) * (q as int) <= 0x3fffffff00000001) by (nonlinear_arith)
                requires
                    2 <= q as int <= 0x7fffffff,
            ;
        }
        if (q as i64) * (q as i64) > (n as i64) {
            proof {
                lemma_no_listed_factor_means_prime(n as int, p@, k as int);
            }
            return true;
        }
        if n % q == 0 {
            proof {
                assert(2 * (q as int) <= (q as int) * (q as int)) by (nonlinear_arith)
                    requires
                        q >= 2,
                ;
                assert(2 <= (q as int) && (q as int) < (n as int));
                assert(!is_prime_spec(n as int));
            }
            return false;
        }
        k += 1;
    }
    proof {
        lemma_no_listed_factor_means_prime(n as int, p@, p@.len() as int);
    }
    true
}

/// When a list holds every prime up to the square root of `n` in ascending
/// order, and no listed prime below index `k` divides `n` or exceeds that
/// square root, while the primes from index `k` on do exceed it, `n` is prime.
proof fn lemma_no_listed_factor_means_prime(n: int, s: Seq<i32>, k: int)
    requires
        n >= 2,
        0 <= k <= s.len(),
        forall|i: int| 0 <= i < s.len() ==> is_prime_spec(#[trigger] s[i] as int),
        forall|i: int, j: int| 0 <= i < j < s.len() ==> s[i] < s[j],
        forall|q: int|
            is_prime_spec(q) && q * q <= n ==> exists|i: int|
                0 <= i < s.len() && #[trigger] s[i] as int == q,
        forall|j: int| 0 <= j < k ==> (n as int) % (#[trigger] s[j] as int) != 0,
        k < s.len() ==> (s[k] as int) * (s[k] as int) > n,
    ensures
        is_prime_spec(n),
{
    if !is_prime_spec(n) {
        let d0 = choose|d: int| 2 <= d < n && #[trigger] (n % d) == 0;
        let f = lemma_small_prime_factor(n, d0);
        let w = choose|i: int| 0 <= i < s.len() && #[trigger] s[i] as int == f;
        if w >= k {
            assert(k < s.len());
            if w > k {
                assert(s[k] < s[w]);
            }
            assert((s[k] as int) <= f);
            assert(f * f > n) by (nonlinear_arith)
                requires
                    2 <= s[k] as int <= f,
                    (s[k] as int) * (s[k] as int) > n,
            ;
        }
        assert(false);
    }
}

proof fn lemma_as_ints_facts(s: Seq<i32>)
    ensures
        as_ints(s).len() == s.len(),
        forall|i: int| 0 <= i < s.len() ==> #[trigger] as_ints(s)[i] == s[i] as int,
{
}

/// A vector whose elements are the primes below `l` holds primes in `[2, l)`
/// only, in strictly ascending order, and misses none of them.
proof fn lemma_vec_matches_primes_below(s: Seq<i32>, l: int)
    requires
        as_ints(s) == primes_below(l),
    ensures
        forall|i: int|
            0 <= i < s.len() ==> 2 <= #[trigger] s[i] && s[i] < l && is_prime_spec(s[i] as int),
        forall|i: int, j: int| 0 <= i < j < s.len() ==> s[i] < s[j],
        forall|q: int|
            2 <= q < l && is_prime_spec(q) ==> exists|i: int|
                0 <= i < s.len() && #[trigger] s[i] as int == q,
{
    lemma_primes_below_properties(l);
    lemma_as_ints_facts(s);
    assert(s.len() == primes_below(l).len());
    assert forall|i: int|
        0 <= i < s.len() implies 2 <= #[trigger] s[i] && s[i] < l && is_prime_spec(
        s[i] as int,
    ) by {
        assert(as_ints(s)[i] == s[i] as int);
        assert(primes_below(l)[i] == s[i] as int);
    }
    assert forall|i: int, j: int| 0 <= i < j < s.len() implies s[i] < s[j] by {
        assert(primes_below(l)[i] == s[i] as int);
        assert(primes_below(l)[j] == s[j] as int);
    }
    assert forall|q: int| 2 <= q < l && is_prime_spec(q) implies exists|i: int|
        0 <= i < s.len() && #[trigger] s[i] as int == q by {
        assert(primes_below(l).contains(q));
        let w = choose|i: int| 0 <= i < primes_below(l).len() && #[trigger] primes_below(l)[i] == q;
        assert(s[w] as int == q);
    }
}

/// One and two more than an odd number are even and odd in turn.
proof fn lemma_parity_succ(n: int)
    requires
        n % 2 == 1,
    ensures
        (n + 1) % 2 == 0,
        (n + 2) % 2 == 1,
{
    lemma_fundamental_div_mod(n, 2);
    lemma_mod_multiples_basic(n / 2 + 1, 2);
    lemma_mod_add_multiples_vanish(n, 2);
}

/// Produces the ascending sequence of all primes strictly below `limit`,
/// seeding the sequence with the first primes and trial-dividing each
/// further odd candidate by the primes found so far.
pub fn generate_primes(limit: i32) -> (r: Vec<i32>)
    requires
        limit >= 0,
    ensures
        as_ints(r@) == primes_below(limit as int),
        forall|i: int|
            0 <= i < r@.len() ==> 2 <= #[trigger] r@[i] && r@[i] < limit && is_prime_spec(
                r@[i] as int,
            ),
        forall|i: int, j: int| 0 <= i < j < r@.len() ==> r@[i] < r@[j],
        forall|q: int|
            2 <= q < limit && is_prime_spec(q) ==> exists|i: int|
                0 <= i < r@.len() && #[trigger] r@[i] as int == q,
{
    let mut p: Vec<i32> = Vec::new();
    if limit > 2 {
        p.push(2);
    }
    if limit > 3 {
        p.push(3);
    }
    proof {
        assert(is_prime_spec(2));
        assert forall|d: int| 2 <= d < 3 implies #[trigger] (3int % d) != 0 by {
            assert(d == 2);
        }
        assert(is_prime_spec(3));
        assert(4int % 2 == 0);
        assert(!is_prime_spec(4));
        assert(primes_below(2) =~= Seq::<int>::empty());
        assert(primes_below(3) =~= seq![2int]);
        assert(primes_below(4) =~= seq![2int, 3int]);
        assert(primes_below(5) =~= seq![2int, 3int]);
        lemma_as_ints_facts(p@);
    }
    if limit <= 5 {
        proof {
            if limit <= 2 {
                assert(as_ints(p@) =~= primes_below(limit as int));
            } else if limit == 3 {
                assert(as_ints(p@) =~= seq![2int]);
            } else {
                assert(as_ints(p@) =~= seq![2int, 3int]);
            }
            assert(as_ints(p@) == primes_below(limit as int));
            lemma_vec_matches_primes_below(p@, limit as int);
        }
        return p;
    }
    proof {
        assert(as_ints(p@) =~= seq![2int, 3int]);
        assert(as_ints(p@) == primes_below(5));
    }
    let mut n: i32 = 5;
    while n < limit
        invariant
            6 <= limit,
            5 <= n,
            n <= limit + 1,
            n as int % 2 == 1,
            as_ints(p@) == primes_below(n as int),
        decreases limit + 1 - n,
    {
        proof {
            lemma_vec_matches_primes_below(p@, n as int);
            assert forall|q: int| is_prime_spec(q) && q * q <= n as int implies exists|i: int|
                0 <= i < p@.len() && #[trigger] p@[i] as int == q by {
                assert(2 * q <= q * q) by (nonlinear_arith)
                    requires
                        q >= 2,
                ;
                assert(2 <= q && q < n as int);
            }
        }
        let keep = trial_divide_by_primes(n, &p);
        if keep {
            p.push(n);
            proof {
                lemma_as_ints_facts(p@);
                assert(as_ints(p@) =~= primes_below(n as int).push(n as int));
                assert(primes_below(n as int + 1) == primes_below(n as int).push(n as int));
            }
        } else {
            proof {
                assert(primes_below(n as int + 1) == primes_below(n as int));
            }
        }
        proof {
            lemma_parity_succ(n as int);
            lemma_even_not_prime(n as int + 1);
            assert(primes_below(n as int + 2) == primes_below(n as int + 1));
        }
        n += 2;
    }
    proof {
        if n as int == limit as int + 1 {
            lemma_even_not_prime(limit as int);
            assert(primes_below(limit as int + 1) == primes_below(limit as int));
        }
        lemma_vec_matches_primes_below(p@, limit as int);
    }
    p
}

/// Reports whether the signed integer `n` is prime. Apart from the explicit
/// early cases, it generates the primes below `n / 2 + 1` and trial-divides
/// `n` by them in ascending order. Zero, one and every negative integer are
/// not prime.
pub fn is_prime(n: i32) -> (r: bool)
    ensures
        r == is_prime_spec(n as int),
        n <= 1 ==> r == false,
        n == 2 ==> r == true,
{
    if n == 2 {
        proof {
            assert(is_prime_spec(2));
        }
        return true;
    }
    if n <= 1 {
        return false;
    }
    let limit = n / 2 + 1;
    let p = generate_primes(limit);
    proof {
        lemma_fundamental_div_mod(n as int, 2);
        assert forall|q: int| is_prime_spec(q) && q * q <= n as int implies exists|i: int|
            0 <= i < p@.len() && #[trigger] p@[i] as int == q by {
            assert(2 * q <= q * q) by (nonlinear_arith)
                requires
                    q >= 2,
            ;
            assert(2 <= q && q < limit as int);
        }
    }
    trial_divide_by_primes(n, &p)
}

/// Tests whether a non-negative wide unsigned integer is prime by direct
/// trial division by every odd integer from 3 up to and including `n / 2`,
/// with no pre-generated sieve.
pub fn is_prime_lazy(n: u128) -> (r: bool)
    ensures
        r == is_prime_spec(n as int),
{
    if n == 1 {
        return false;
    }
    if n == 2 {
        return true;
    }
    if n % 2 == 0 {
        proof {
            lemma_even_not_prime(n as int);
        }
        return false;
    }
    let half = n / 2;
    let mut i: u128 = 3;
    while i <= half
        invariant
            n >= 3,
            n as int % 2 == 1,
            half == n / 2,
            3 <= i,
            i as int % 2 == 1,
            i <= half + 2,
            forall|j: int| 3 <= j < i && j % 2 == 1 ==> #[trigger] ((n as int) % j) != 0,
        decreases half + 2 - i,
    {
        if n % i == 0 {
            proof {
                lemma_fundamental_div_mod(n as int, 2);
                assert(2 <= (i as int) && (i as int) < (n as int) && (n as int) % (i as int)
                    == 0);
                assert(!is_prime_spec(n as int));
            }
            return false;
        }
        i += 2;
    }
    proof {
        if !is_prime_spec(n as int) {
            let d0 = choose|d: int| 2 <= d < n as int && #[trigger] ((n as int) % d) == 0;
            let q = lemma_small_prime_factor(n as int, d0);
            assert(q != 2);
            lemma_prime_is_odd(q);
            assert(2 * q <= q * q) by (nonlinear_arith)
                requires
                    q >= 2,
            ;
            lemma_fundamental_div_mod(n as int, 2);
            assert(q <= half);
            assert((n as int) % q != 0);
            assert(false);
        }
    }
    true
}

/// A remainder is unchanged when the divisor is negated.
proof fn lemma_mod_divisor_negation(m: int, d: int)
    requires
        d > 0,
    ensures
        m % (-d) == m % d,
{
    lemma_fundamental_div_mod(m, -d);
    let q = m / (-d);
    let r = m % (-d);
    assert(m == (-q) * d + r) by (nonlinear_arith)
        requires
            m == (-d) * q + r,
    ;
    lemma_fundamental_div_mod_converse_mod(m, d, -q, r);
}

/// Negating the dividend keeps an exact division exact.
proof fn lemma_neg_mod_zero(m: int, d: int)
    requires
        d != 0,
    ensures
        ((-m) % d == 0) == (m % d == 0),
{
    let dd = if d > 0 {
        d
    } else {
        -d
    };
    if d < 0 {
        lemma_mod_divisor_negation(m, dd);
        lemma_mod_divisor_negation(-m, dd);
    }
    if m % dd == 0 {
        lemma_fundamental_div_mod(m, dd);
        assert(-m == (-(m / dd)) * dd + 0) by (nonlinear_arith)
            requires
                m == dd * (m / dd) + 0,
        ;
        lemma_fundamental_div_mod_converse_mod(-m, dd, -(m / dd), 0);
    }
    if (-m) % dd == 0 {
        lemma_fundamental_div_mod(-m, dd);
        assert(m == (-((-m) / dd)) * dd + 0) by (nonlinear_arith)
            requires
                -m == dd * ((-m) / dd) + 0,
        ;
        lemma_fundamental_div_mod_converse_mod(m, dd, -((-m) / dd), 0);
    }
}

/// The verdict of trial division of `n` against the listed numbers from
/// index `k` on, in order: `false` on the first exact divisor, `true` on
/// the first positive entry whose square exceeds a non-negative `n`, and
/// `false` when the list runs out without reaching either outcome.
pub open spec fn trial_division_verdict_from(n: int, s: Seq<i32>, k: int) -> bool
    decreases s.len() - k,
{
    if k < 0 || k >= s.len() {
        false
    } else if n % (s[k] as int) == 0 {
        false
    } else if n >= 0 && s[k] > 0 && (s[k] as int) * (s[k] as int) > n {
        true
    } else {
        trial_division_verdict_from(n, s, k + 1)
    }
}

/// The verdict of trial division of `n` against a whole list of numbers.
pub open spec fn trial_division_verdict(n: int, s: Seq<i32>) -> bool {
    trial_division_verdict_from(n, s, 0)
}

/// Trial-divides `n` by the listed numbers in order, as an in-order sieve
/// step would: `false` on the first exact divisor, `true` on the first
/// positive entry whose square exceeds a non-negative `n`, and `false` when
/// the list is exhausted without reaching either outcome.
pub fn is_prime_list(n: i32, p: Vec<i32>) -> (r: bool)
    requires
        forall|i: int| 0 <= i < p@.len() ==> #[trigger] p@[i] != 0,
        n == i32::MIN ==> forall|i: int| 0 <= i < p@.len() ==> #[trigger] p@[i] != -1,
    ensures
        r == trial_division_verdict(n as int, p@),
{
    let mut k: usize = 0;
    while k < p.len()
        invariant
            k <= p@.len(),
            forall|i: int| 0 <= i < p@.len() ==> #[trigger] p@[i] != 0,
            n == i32::MIN ==> forall|i: int| 0 <= i < p@.len() ==> #[trigger] p@[i] != -1,
            trial_division_verdict(n as int, p@) == trial_division_verdict_from(
                n as int,
                p@,
                k as int,
            ),
        decreases p@.len() - k,
    {
        let q = p[k];
        let rem = n % q;
        proof {
            if n < 0 {
                lemma_neg_mod_zero(n as int, q as int);
            }
            assert((rem == 0) == ((n as int) % (q as int) == 0));
        }
        if rem == 0 {
            return false;
        }
        if n >= 0 && q > 0 {
            proof {
                assert(0 <= (q as int) * (q as int) <= 0x3fffffff00000001) by (nonlinear_arith)
                    requires
                        1 <= q as int <= 0x7fffffff,
                ;
            }
            if (q as i64) * (q as i64) > (n as i64) {
                return true;
            }
        }
        k += 1;
    }
    false
}

/// Two prime sequences generated for the same limit are identical: the
/// generated sequence is fully determined by its limit.
pub proof fn lemma_generate_primes_deterministic(a: Seq<i32>, b: Seq<i32>, limit: int)
    requires
        as_ints(a) == primes_below(limit),
        as_ints(b) == primes_below(limit),
    ensures
        a == b,
{
    lemma_as_ints_facts(a);
    lemma_as_ints_facts(b);
    assert(a.len() == b.len());
    assert forall|i: int| 0 <= i < a.len() implies a[i] == b[i] by {
        assert(as_ints(a)[i] == a[i] as int);
        assert(as_ints(b)[i] == b[i] as int);
    }
    assert(a =~= b);
}

/// The floor of the base-2 logarithm of `x`, found by repeated halving.
fn floor_log2(x: u128) -> (r: u32)
    requires
        x >= 1,
    ensures
        r as int == log(2, x as int),
{
    let mut v: u128 = x;
    let mut r: u32 = 0;
    proof {
        lemma2_to64();
        assert(pow2(0) * (x as int) == x as int);
    }
    while v >= 2
        invariant
            1 <= v <= x,
            log(2, x as int) == r + log(2, v as int),
            pow2(r as nat) * (v as int) <= x as int,
        decreases v,
    {
        proof {
            lemma_log_s(2, v as int);
            lemma_pow2_pos(r as nat);
            assert(r < 128) by {
                if r >= 128 {
                    lemma_pow2_adds(64, 64);
                    lemma2_to64_rest();
                    if r > 128 {
                        lemma_pow2_strictly_increases(128, r as nat);
                    }
                    assert(pow2(r as nat) * (v as int) >= pow2(r as nat)) by (nonlinear_arith)
                        requires
                            v >= 1,
                            pow2(r as nat) > 0,
                    ;
                    assert(false);
                }
            }
            lemma_pow2_unfold((r + 1) as nat);
            assert(pow2((r + 1) as nat) * ((v as int) / 2) <= pow2(r as nat) * (v as int))
                by (nonlinear_arith)
                requires
                    pow2((r + 1) as nat) == 2 * pow2(r as nat),
                    pow2(r as nat) > 0,
                    2 * ((v as int) / 2) <= v as int,
            ;
        }
        v = v / 2;
        r = r + 1;
    }
    proof {
        lemma_log0(2, v as int);
    }
    r
}

/// Reports whether `m` is a Mersenne prime: a prime of the form
/// 2^p - 1 with `p` itself prime. `m` passes exactly when `m` and the
/// floor of the base-2 logarithm of `m + 1` both pass the unbounded
/// primality test.
pub fn is_mersenne_prime(m: u128) -> (r: bool)
    ensures
        r == (is_prime_spec(m as int) && is_prime_spec(log(2, m as int + 1))),
{
    if is_prime_lazy(m) {
        proof {
            assert(u128::MAX as int == 3 * 113427455640312821154458202477256070485);
            lemma_mod_multiples_basic(113427455640312821154458202477256070485int, 3);
            assert((u128::MAX as int) % 3 == 0);
            assert(m != u128::MAX);
        }
        let p = floor_log2(m + 1);
        if is_prime_lazy(p as u128) {
            return true;
        }
    }
    false
}

} // verus!
