pub mod number_theory;
pub mod primes;
