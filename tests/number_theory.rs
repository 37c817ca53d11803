use archimedes::{coprimes, gcd, is_prime};

#[test]
fn prime_test() {
    for num in 1..100 {
        let prime = is_prime(num);

        // An even number that is not 2 is not prime
        if num % 2 == 0 && num != 2 {
            assert!(!prime);
        }
    }
}

#[test]
fn gcd_test() {
    assert_eq!(gcd(54, 24), 6);
}

#[test]
fn coprime_test() {
    assert_eq!(coprimes(9), vec![2, 4, 5, 7, 8]);
}

fn naive_is_prime(n: u64) -> bool {
    n >= 2 && (2..n).all(|d| n % d != 0)
}

#[test]
fn is_prime_agrees_with_trial_division() {
    for n in 0..2000u64 {
        assert_eq!(is_prime(n), naive_is_prime(n), "{}", n);
    }
}

#[test]
fn is_prime_edge_cases() {
    assert!(!is_prime(0));
    assert!(!is_prime(1));
    assert!(is_prime(2));
    assert!(!is_prime(9));
    assert!(is_prime(13));
    assert!(!is_prime(49));
    assert!(!is_prime(121));
    assert!(!is_prime(169));
    assert!(is_prime(7919));
}

#[test]
fn gcd_with_zero() {
    assert_eq!(gcd(7, 0), 7);
    assert_eq!(gcd(0, 7), 7);
    assert_eq!(gcd(0, 0), 0);
    assert_eq!(gcd(24, 54), 6);
    assert_eq!(gcd(17, 5), 1);
    assert_eq!(gcd(u64::MAX, u64::MAX), u64::MAX);
}

#[test]
fn coprimes_small_and_composite() {
    assert_eq!(coprimes(0), Vec::<u64>::new());
    assert_eq!(coprimes(1), Vec::<u64>::new());
    assert_eq!(coprimes(2), Vec::<u64>::new());
    assert_eq!(coprimes(10), vec![3, 7, 9]);
    assert_eq!(coprimes(12), vec![5, 7, 11]);
    for n in 0..200u64 {
        let expected: Vec<u64> = (2..n).filter(|&k| gcd(k, n) == 1).collect();
        assert_eq!(coprimes(n), expected);
    }
}
