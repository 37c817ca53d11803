use vstd::prelude::*;

verus! {

use crate::divisibility::{divides, is_prime_spec, lemma_divides_mul, lemma_divides_trans, lemma_even_divisor};
use crate::factoring::{is_prime_factorization, lemma_product_push, product};
use vstd::arithmetic::div_mod::lemma_fundamental_div_mod;

/// Below this bound no number from two up divides what is left to factor: the last
/// factor found, or two before any.
spec fn least_factor_bound(s: Seq<u64>) -> nat {
    if s.len() == 0 {
        2
    } else {
        s.last() as nat
    }
}

/// A quotient's divisors divide the number it came from.
proof fn lemma_quotient_divisor(d: nat, val: nat, q: nat)
    requires
        q > 0,
        divides(q, val),
        divides(d, val / q),
    ensures
        divides(d, val),
{
    lemma_fundamental_div_mod(val as int, q as int);
    lemma_divides_mul(val / q, q);
    assert((val / q) * q == q * (val / q)) by (nonlinear_arith);
    lemma_divides_trans(d, val / q, val);
}

/// The prime factors of `number` with multiplicity, smallest first: strips twos, then
/// finds each further factor as the least odd divisor from three up of what is left.
/// Zero and one have none.
pub fn prime_factors(number: u64) -> (r: Vec<u64>)
    ensures
        number == 0 ==> r@.len() == 0,
        number >= 1 ==> is_prime_factorization(number as nat, r@),
{
    let mut val: u64 = number;
    let mut to_ret: Vec<u64> = Vec::new();

    while val > 1
        invariant
            number == 0 ==> val == 0 && to_ret@.len() == 0,
            number >= 1 ==> val >= 1 && product(to_ret@) * val == number,
            forall|i: int| 0 <= i < to_ret@.len() ==> is_prime_spec(#[trigger] to_ret@[i] as nat),
            forall|i: int, j: int| 0 <= i < j < to_ret@.len() ==> to_ret@[i] <= to_ret@[j],
            forall|d: nat| 2 <= d < least_factor_bound(to_ret@) ==> !#[trigger] divides(d, val as nat),
        decreases val,
    {
        let ghost old_ret = to_ret@;
        let ghost old_val = val as nat;
        if val % 2 == 0 {
            proof {
                assert(divides(2, old_val));
                if to_ret@.len() > 0 {
                    assert(to_ret@.last() <= 2);
                }
                assert(is_prime_spec(2)) by {
                    assert forall|d: nat| 2 <= d < 2 implies !#[trigger] divides(d, 2) by {}
                }
                lemma_product_push(old_ret, 2);
                lemma_fundamental_div_mod(old_val as int, 2);
            }
            to_ret.push(2);
            val /= 2;
            proof {
                assert(product(to_ret@) * val == product(old_ret) * old_val) by (nonlinear_arith)
                    requires
                        product(to_ret@) == product(old_ret) * 2,
                        old_val == 2 * val + 0,
                ;
            }
        } else {
            let mut rem: u64 = 3;
            while rem <= val && val % rem != 0
                invariant
                    val == old_val,
                    val > 1,
                    val % 2 != 0,
                    3 <= rem,
                    rem % 2 == 1,
                    rem <= val + 2,
                    forall|d: nat| 2 <= d < rem ==> !#[trigger] divides(d, val as nat),
                decreases val + 2 - rem,
            {
                proof {
                    let e = (rem + 1) as nat;
                    if divides(e, val as nat) {
                        lemma_even_divisor(e, val as nat);
                    }
                    assert(divides(val as nat, val as nat));
                }
                rem += 2;
            }
            proof {
                assert(divides(val as nat, val as nat));
                assert(rem <= val);
                assert(divides(rem as nat, val as nat));
                assert forall|d: nat| 2 <= d < rem implies !#[trigger] divides(d, rem as nat) by {
                    if divides(d, rem as nat) {
                        lemma_divides_trans(d, rem as nat, val as nat);
                    }
                }
                if to_ret@.len() > 0 {
                    assert(to_ret@.last() <= rem);
                }
            }
            if rem <= val {
                proof {
                    lemma_product_push(old_ret, rem);
                    lemma_fundamental_div_mod(old_val as int, rem as int);
                }
                to_ret.push(rem);
                val /= rem;
                proof {
                    assert(product(to_ret@) * val == product(old_ret) * old_val) by (nonlinear_arith)
                        requires
                            product(to_ret@) == product(old_ret) * rem,
                            old_val == rem * val + 0,
                    ;
                    assert(1 <= val < old_val) by (nonlinear_arith)
                        requires
                            old_val == rem * val,
                            rem >= 3,
                            old_val > 1,
                    ;
                    assert forall|d: nat| 2 <= d < rem implies !#[trigger] divides(d, val as nat) by {
                        if divides(d, val as nat) {
                            lemma_quotient_divisor(d, old_val, rem as nat);
                        }
                    }
                }
            }
        }
    }
    proof {
        if number >= 1 {
            assert(val == 1);
        }
    }
    to_ret
}

} // verus!
