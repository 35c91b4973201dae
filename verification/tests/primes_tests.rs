use calculator::primes::is_prime;

#[test]
fn small_primes_are_found() {
    let primes: Vec<u64> = (2..60).filter(|n| is_prime(*n)).collect();
    assert_eq!(primes, vec![2, 3, 5, 7, 11, 13, 17, 19, 23, 29, 31, 37, 41, 43, 47, 53, 59]);
}

#[test]
fn zero_and_one_have_no_small_divisor() {
    assert!(is_prime(0));
    assert!(is_prime(1));
}

#[test]
fn squares_of_primes_are_not_prime() {
    assert!(!is_prime(4));
    assert!(!is_prime(9));
    assert!(!is_prime(25));
    assert!(!is_prime(49));
    assert!(!is_prime(65521 * 65521));
}

#[test]
fn large_numbers_do_not_overflow() {
    assert!(!is_prime(u64::MAX));
    assert!(!is_prime(u64::MAX - 1));
    assert!(is_prime(4294967311));
}
