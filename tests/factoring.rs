use archimedes::factoring::factors;
use archimedes::factoring::prime_factors;
use archimedes::is_prime;

#[test]
fn factors_test() {
    for num in 1..100 {
        let factors = factors(num);

        // Every list of factors is 1 or more
        assert_ne!(factors.len(), 0);

        // Every list of factors starts at 1
        assert_eq!(factors[0], 1);

        // If a number is even, the second number in its list of factors is 2
        if num % 2 == 0 {
            assert_eq!(factors[1], 2);
        }

        // Some numbers have a specific number of factors
        match num {
            1 | 2 => assert_eq!(factors.len() as u64, num),
            3 | 5 | 7 | 11 | 13 | 17 | 19 | 23 | 29 => assert_eq!(factors.len(), 2),
            _ => {}
        }
    }
}

#[test]
fn prime_factors_test() {
    for num in 1..100 {
        let prime_factors = prime_factors(num);

        // Every number that is not 1 has at least 1 prime factor; 1 has none
        if num != 1 {
            assert_ne!(prime_factors.len(), 0);
        } else {
            assert_eq!(prime_factors.len(), 0);
        }

        // All even numbers have 2 as their first prime factor
        if num % 2 == 0 {
            assert_eq!(prime_factors[0], 2);
        }

        // A prime is its own only factor
        match num {
            3 | 5 | 7 | 11 | 13 | 17 | 23 | 29 => {
                assert_eq!(prime_factors.len(), 1);
                assert_eq!(prime_factors[0], num);
            }
            _ => {}
        }
    }
}

#[test]
fn factors_main_test() {
    for num in 1..100 {
        let factors = archimedes::factoring::factors::factors(num);

        assert_ne!(factors.len(), 0);
        assert_eq!(factors[0], 1);
        if num % 2 == 0 {
            assert_eq!(factors[1], 2);
        }
        match num {
            1 | 2 => assert_eq!(factors.len() as u64, num),
            3 | 5 | 7 | 11 | 13 | 17 | 19 | 23 | 29 => assert_eq!(factors.len(), 2),
            _ => {}
        }
    }
}

#[test]
fn prime_factors_main_test() {
    for num in 1..100 {
        let prime_factors = archimedes::factoring::prime_factors::prime_factors(num);

        if num != 1 {
            assert_ne!(prime_factors.len(), 0);
        } else {
            assert_eq!(prime_factors.len(), 0);
        }
        if num % 2 == 0 {
            assert_eq!(prime_factors[0], 2);
        }
        match num {
            3 | 5 | 7 | 11 | 13 | 17 | 23 | 29 => {
                assert_eq!(prime_factors.len(), 1);
                assert_eq!(prime_factors[0], num);
            }
            _ => {}
        }
    }
}

#[test]
fn all_prime_factors_are_prime() {
    for num in 1..100 {
        let prime_factors = archimedes::factoring::prime_factors::prime_factors(num);

        for factor in prime_factors {
            assert!(is_prime(factor));
        }
    }
}

#[test]
fn factors_are_ascending_and_end_with_the_number() {
    for num in 1..100u64 {
        let f = factors(num);
        assert!(f.windows(2).all(|w| w[0] < w[1]));
        assert_eq!(*f.last().unwrap(), num);
        for d in 1..=num {
            assert_eq!(f.contains(&d), num % d == 0);
        }
    }
}

#[test]
fn factors_of_small_and_composite_numbers() {
    assert_eq!(factors(0), Vec::<u64>::new());
    assert_eq!(factors(1), vec![1]);
    assert_eq!(factors(12), vec![1, 2, 3, 4, 6, 12]);
    assert_eq!(factors(36), vec![1, 2, 3, 4, 6, 9, 12, 18, 36]);
}

#[test]
fn factors_of_primes_are_one_and_themselves() {
    for p in [2u64, 3, 5, 7, 11, 13, 17, 19, 23, 29] {
        assert_eq!(factors(p), vec![1, p]);
        assert_eq!(prime_factors(p), vec![p]);
    }
}

#[test]
fn prime_factors_multiply_back() {
    assert_eq!(prime_factors(0), Vec::<u64>::new());
    assert_eq!(prime_factors(1), Vec::<u64>::new());
    assert_eq!(prime_factors(12), vec![2, 2, 3]);
    assert_eq!(prime_factors(360), vec![2, 2, 2, 3, 3, 5]);
    assert_eq!(prime_factors(600851475143), vec![71, 839, 1471, 6857]);
    for num in 1..2000u64 {
        let pf = prime_factors(num);
        assert_eq!(pf.iter().product::<u64>(), num);
        assert!(pf.windows(2).all(|w| w[0] <= w[1]));
        for p in pf {
            assert!(is_prime(p));
        }
    }
}
