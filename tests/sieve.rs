use algolib::SieveUsize;

#[test]
fn test_is_prime_via_new() {
    let mut sieve = SieveUsize::new();
    assert!(sieve.is_prime(2));
    assert!(sieve.is_prime(3));
    assert!(!sieve.is_prime(9));
    assert!(!sieve.is_prime(12));
    assert!(!sieve.is_prime(18));
    assert!(sieve.is_prime(7));
    assert!(sieve.is_prime(307));
    assert!(!sieve.is_prime(102));
}

#[test]
fn test_is_prime_via_with_capacity() {
    let mut sieve = SieveUsize::with_len(10);
    assert!(sieve.is_prime(2));
    assert!(sieve.is_prime(3));
    assert!(!sieve.is_prime(9));
    assert!(!sieve.is_prime(12));
    assert!(!sieve.is_prime(18));
    assert!(sieve.is_prime(7));
    assert!(sieve.is_prime(307));
    assert!(!sieve.is_prime(102));
}

#[test]
fn new_sieve_is_empty() {
    let sieve = SieveUsize::new();
    assert_eq!(sieve.len(), 0);
}

#[test]
fn with_len_sets_length() {
    assert_eq!(SieveUsize::with_len(42).len(), 42);
    assert_eq!(SieveUsize::with_len(10).len(), 10);
}

#[test]
fn one_is_not_prime() {
    let mut sieve = SieveUsize::new();
    assert!(!sieve.is_prime(1));
}

#[test]
fn growth_goes_to_power_of_two() {
    let mut sieve = SieveUsize::new();
    assert!(sieve.is_prime(2));
    assert_eq!(sieve.len(), 4);
    assert!(!sieve.is_prime(6));
    assert_eq!(sieve.len(), 8);
    assert!(sieve.is_prime(307));
    assert_eq!(sieve.len(), 512);
    assert!(!sieve.is_prime(100));
    assert_eq!(sieve.len(), 512);
}

#[test]
fn prime_numbers_below_bound() {
    let mut sieve = SieveUsize::new();
    assert_eq!(sieve.prime_numbers(0), Vec::<usize>::new());
    assert_eq!(sieve.prime_numbers(3), vec![2]);
    assert_eq!(sieve.prime_numbers(4), vec![2, 3]);
    assert_eq!(sieve.prime_numbers(12), vec![2, 3, 5, 7, 11]);
    assert_eq!(sieve.prime_numbers(30), vec![2, 3, 5, 7, 11, 13, 17, 19, 23, 29]);
}

#[test]
fn prime_factors() {
    let mut sieve = SieveUsize::new();
    assert_eq!(sieve.prime_factors_by_lookup(1), Vec::<usize>::new());
    assert_eq!(sieve.prime_factors_by_lookup(2), vec![2]);
    assert_eq!(sieve.prime_factors_by_lookup(15), vec![3, 5]);
    assert_eq!(sieve.prime_factors_by_lookup(84), vec![2, 2, 3, 7]);
    assert_eq!(sieve.prime_factors_by_lookup(1024), vec![2; 10]);
    assert_eq!(sieve.prime_factors_by_lookup(997), vec![997]);
}

#[test]
fn prime_factors_multiply_back() {
    let mut sieve = SieveUsize::with_len(5);
    for n in 1..2000usize {
        let f = sieve.prime_factors_by_lookup(n);
        assert_eq!(f.iter().product::<usize>(), n);
        for w in f.windows(2) {
            assert!(w[0] <= w[1]);
        }
        for &p in &f {
            assert!(sieve.is_prime(p));
        }
    }
}

#[test]
fn is_prime_matches_trial_division() {
    let mut sieve = SieveUsize::with_len(3);
    for x in 1..600usize {
        let expected = x >= 2 && (2..x).all(|d| x % d != 0);
        assert_eq!(sieve.is_prime(x), expected, "x = {}", x);
    }
}
