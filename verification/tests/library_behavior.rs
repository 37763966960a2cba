use bens_number_theory::primes::{generate_primes, is_mersenne_prime, is_prime, is_prime_list};

#[test]
fn generate_primes_expected_sequences() {
    assert_eq!(generate_primes(10), vec![2, 3, 5, 7]);
    assert_eq!(generate_primes(30), vec![2, 3, 5, 7, 11, 13, 17, 19, 23, 29]);
    assert_eq!(generate_primes(100).len(), 25);
}

#[test]
fn generate_primes_small_limits() {
    assert_eq!(generate_primes(0), Vec::<i32>::new());
    assert_eq!(generate_primes(1), Vec::<i32>::new());
    assert_eq!(generate_primes(2), Vec::<i32>::new());
    assert_eq!(generate_primes(3), vec![2]);
    assert_eq!(generate_primes(4), vec![2, 3]);
    assert_eq!(generate_primes(5), vec![2, 3]);
    assert_eq!(generate_primes(6), vec![2, 3, 5]);
}

#[test]
fn generate_primes_same_limit_same_sequence() {
    // The generator is a pure function of its limit.
    assert_eq!(generate_primes(50), generate_primes(50));
    assert_eq!(generate_primes(7), generate_primes(7));
}

#[test]
fn is_prime_examples() {
    assert_eq!(is_prime(9), false);
    assert_eq!(is_prime(11), true);
    assert_eq!(is_prime(2), true);
    assert_eq!(is_prime(3), true);
    assert_eq!(is_prime(4), false);
    assert_eq!(is_prime(5), true);
}

#[test]
fn is_prime_rejects_small_and_negative() {
    assert_eq!(is_prime(1), false);
    assert_eq!(is_prime(0), false);
    assert_eq!(is_prime(-1), false);
    assert_eq!(is_prime(-7), false);
    assert_eq!(is_prime(i32::MIN), false);
}

#[test]
fn is_prime_larger_values() {
    assert_eq!(is_prime(997), true);
    assert_eq!(is_prime(1001), false);
}

#[test]
fn is_prime_list_exhaustion_yields_false() {
    // No divisor found and no listed number past the square root: the
    // trial-division verdict falls back to false.
    assert_eq!(is_prime_list(5, vec![2]), false);
    assert_eq!(is_prime_list(11, vec![2, 3]), false);
}

#[test]
fn mersenne_prime_examples() {
    assert_eq!(is_mersenne_prime((2_u128.pow(2)) - 1), true);
    assert_eq!(is_mersenne_prime((2_u128.pow(3)) - 1), true);
    assert_eq!(is_mersenne_prime((2_u128.pow(4)) - 1), false);
    assert_eq!(is_mersenne_prime((2_u128.pow(5)) - 1), true);
    assert_eq!(is_mersenne_prime((2_u128.pow(13)) - 1), true);
}

#[test]
fn mersenne_prime_edge_cases() {
    assert_eq!(is_mersenne_prime(0), false);
    assert_eq!(is_mersenne_prime(1), false);
    assert_eq!(is_mersenne_prime(2), false);
    // 2^11 - 1 = 2047 = 23 * 89 is composite although 11 is prime.
    assert_eq!(is_mersenne_prime(2047), false);
    // 63 = 2^6 - 1 has a prime value test failure and a composite exponent.
    assert_eq!(is_mersenne_prime(63), false);
}
