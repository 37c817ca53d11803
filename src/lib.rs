pub mod divisibility;
pub mod factoring;
pub mod rational;

use vstd::prelude::*;

verus! {

use crate::divisibility::{
    divides, gcd_spec, is_prime_spec, lemma_divides_le, lemma_divides_mul, lemma_even_divisor,
    lemma_gcd, lemma_small_primes,
};
use crate::factoring::{is_increasing, lemma_prime_divides_product, prime_factors};
use vstd::arithmetic::div_mod::lemma_fundamental_div_mod;

/// Greatest common divisor of `a` and `b`; `gcd(a, 0) == a` and `gcd(0, b) == b`.
pub fn gcd(a: u64, b: u64) -> (r: u64)
    ensures
        r == gcd_spec(a as nat, b as nat),
        divides(r as nat, a as nat),
        divides(r as nat, b as nat),
        forall|d: nat| divides(d, a as nat) && divides(d, b as nat) ==> #[trigger] divides(d, r as nat),
    decreases b,
{
    proof {
        lemma_gcd(a as nat, b as nat);
    }
    if b == 0 {
        a
    } else {
        gcd(b, a % b)
    }
}

/// Whether `number` is prime, by trial division with odd divisors from seven up to
/// `number / 7`, after the small cases and the multiples of two, three and five.
pub fn is_prime(number: u64) -> (r: bool)
    ensures
        r == is_prime_spec(number as nat),
{
    let n = Ghost(number as nat);
    if number <= 14 {
        proof {
            lemma_small_primes(n@);
        }
        match number {
            1 | 9 => false,
            2 => true,
            _ => number % 2 == 1,
        }
    } else if number % 2 == 0 || number % 3 == 0 || number % 5 == 0 {
        proof {
            if number % 2 == 0 {
                assert(divides(2, n@));
            } else if number % 3 == 0 {
                assert(divides(3, n@));
            } else {
                assert(divides(5, n@));
            }
        }
        false
    } else {
        let start_factor: u64 = 7;
        let mut factor: u64 = start_factor;
        proof {
            assert forall|d: nat| 2 <= d < 7 implies !#[trigger] divides(d, n@) by {
                if d == 4 || d == 6 {
                    if divides(d, n@) {
                        lemma_even_divisor(d, n@);
                    }
                }
            }
        }
        while factor <= number / start_factor
            invariant
                n@ == number as nat,
                start_factor == 7,
                number > 14,
                number % 2 != 0,
                7 <= factor,
                factor == 7 || factor <= number / 7 + 2,
                factor % 2 == 1,
                forall|d: nat| 2 <= d < factor ==> !#[trigger] divides(d, n@),
            decreases number / 7 + 2 - factor,
        {
            if number % factor == 0 {
                proof {
                    assert(divides(factor as nat, n@));
                }
                return false;
            }
            proof {
                let e = (factor + 1) as nat;
                if divides(e, n@) {
                    lemma_even_divisor(e, n@);
                }
            }
            factor += 2;
        }
        proof {
            assert forall|d: nat| 2 <= d < n@ implies !#[trigger] divides(d, n@) by {
                if d >= factor && divides(d, n@) {
                    let q = n@ / d;
                    lemma_fundamental_div_mod(n@ as int, d as int);
                    assert(n@ == d * q);
                    assert(q < 7 && q >= 2) by (nonlinear_arith)
                        requires
                            n@ == d * q,
                            d >= n@ / 7 + 1,
                            d < n@,
                    ;
                    lemma_divides_mul(q, d);
                    assert(q * d == d * q) by (nonlinear_arith);
                }
            }
        }
        true
    }
}

/// `a` and `b` have a prime divisor in common.
pub open spec fn shares_prime_factor(a: nat, b: nat) -> bool {
    exists|p: nat| #[trigger] is_prime_spec(p) && divides(p, a) && divides(p, b)
}

/// Whether some value stands in both lists.
fn lists_intersect(xs: &Vec<u64>, ys: &Vec<u64>) -> (r: bool)
    ensures
        r <==> exists|x: u64| xs@.contains(x) && ys@.contains(x),
{
    let mut i: usize = 0;
    while i < xs.len()
        invariant
            i <= xs@.len(),
            forall|a: int, b: int| 0 <= a < i && 0 <= b < ys@.len() ==> xs@[a] != ys@[b],
        decreases xs@.len() - i,
    {
        let mut j: usize = 0;
        while j < ys.len()
            invariant
                i < xs@.len(),
                j <= ys@.len(),
                forall|a: int, b: int| 0 <= a < i && 0 <= b < ys@.len() ==> xs@[a] != ys@[b],
                forall|b: int| 0 <= b < j ==> xs@[i as int] != ys@[b],
            decreases ys@.len() - j,
        {
            if xs[i] == ys[j] {
                proof {
                    assert(xs@.contains(xs@[i as int]) && ys@.contains(xs@[i as int]));
                }
                return true;
            }
            j += 1;
        }
        i += 1;
    }
    proof {
        assert forall|x: u64| !(xs@.contains(x) && ys@.contains(x)) by {
            if xs@.contains(x) && ys@.contains(x) {
                let a = choose|a: int| 0 <= a < xs@.len() && xs@[a] == x;
                let b = choose|b: int| 0 <= b < ys@.len() && ys@[b] == x;
                assert(xs@[a] != ys@[b]);
            }
        }
    }
    false
}

/// The numbers in `[2, val)` that share no prime factor with `val`, ascending. Each
/// candidate's prime factors are compared with those of `val`.
pub fn coprimes(val: u64) -> (r: Vec<u64>)
    ensures
        is_increasing(r@),
        forall|k: u64|
            r@.contains(k) <==> 2 <= k < val && !shares_prime_factor(k as nat, val as nat),
{
    let input_factors = prime_factors(val);
    let mut to_ret: Vec<u64> = Vec::new();
    let mut guess: u64 = 2;

    while guess < val
        invariant
            2 <= guess,
            guess <= val || guess == 2,
            val >= 1 ==> crate::factoring::is_prime_factorization(val as nat, input_factors@),
            forall|i: int, j: int| 0 <= i < j < to_ret@.len() ==> to_ret@[i] < to_ret@[j],
            forall|i: int| 0 <= i < to_ret@.len() ==> #[trigger] to_ret@[i] < guess,
            forall|k: u64|
                #[trigger] to_ret@.contains(k) <==> 2 <= k < guess && !shares_prime_factor(
                    k as nat,
                    val as nat,
                ),
        decreases val - guess,
    {
        let guess_factors = prime_factors(guess);
        let shared = lists_intersect(&input_factors, &guess_factors);
        proof {
            if shared {
                let x = choose|x: u64| input_factors@.contains(x) && guess_factors@.contains(x);
                let i = choose|i: int| 0 <= i < input_factors@.len() && input_factors@[i] == x;
                assert(is_prime_spec(input_factors@[i] as nat));
                lemma_prime_divides_product(input_factors@, x);
                lemma_prime_divides_product(guess_factors@, x);
                assert(is_prime_spec(x as nat) && divides(x as nat, guess as nat) && divides(
                    x as nat,
                    val as nat,
                ));
            }
            if shares_prime_factor(guess as nat, val as nat) {
                let p = choose|p: nat| #[trigger] is_prime_spec(p) && divides(p, guess as nat) && divides(p, val as nat);
                lemma_divides_le(p, guess as nat);
                lemma_prime_divides_product(input_factors@, p as u64);
                lemma_prime_divides_product(guess_factors@, p as u64);
                assert(input_factors@.contains(p as u64) && guess_factors@.contains(p as u64));
            }
        }
        let ghost before = to_ret@;
        if !shared {
            to_ret.push(guess);
        }
        proof {
            assert forall|k: u64|
                #[trigger] to_ret@.contains(k) <==> 2 <= k < guess + 1 && !shares_prime_factor(
                    k as nat,
                    val as nat,
                ) by {
                if to_ret@.contains(k) {
                    let i = choose|i: int| 0 <= i < to_ret@.len() && to_ret@[i] == k;
                    if i < before.len() {
                        assert(before[i] == k);
                        assert(before.contains(k));
                    }
                }
                if 2 <= k < guess && !shares_prime_factor(k as nat, val as nat) {
                    assert(before.contains(k));
                    let i = choose|i: int| 0 <= i < before.len() && before[i] == k;
                    assert(to_ret@[i] == k);
                }
                if k == guess && !shared {
                    assert(to_ret@[to_ret@.len() - 1] == k);
                }
            }
        }
        guess += 1;
    }
    proof {
        assert forall|k: u64|
            to_ret@.contains(k) <==> 2 <= k < val && !shares_prime_factor(k as nat, val as nat) by {
            assert(to_ret@.contains(k) <==> 2 <= k < guess && !shares_prime_factor(
                k as nat,
                val as nat,
            ));
        }
    }
    to_ret
}

} // verus!
