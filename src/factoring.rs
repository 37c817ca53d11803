pub mod factors;
pub mod prime_factors;

use vstd::prelude::*;

verus! {

use crate::divisibility::{
    divides, is_prime_spec, lemma_divides_le, lemma_divides_mul, lemma_divides_mul_right, lemma_euclid,
};

/// Product of a sequence of numbers; the empty product is one.
pub open spec fn product(s: Seq<u64>) -> int
    decreases s.len(),
{
    if s.len() == 0 {
        1
    } else {
        product(s.drop_last()) * s.last()
    }
}

/// Every element is at most the one after it.
pub open spec fn is_nondecreasing(s: Seq<u64>) -> bool {
    forall|i: int, j: int| 0 <= i < j < s.len() ==> s[i] <= s[j]
}

/// Every element is below the one after it.
pub open spec fn is_increasing(s: Seq<u64>) -> bool {
    forall|i: int, j: int| 0 <= i < j < s.len() ==> s[i] < s[j]
}

/// `s` lists the primes whose product is `n`, smallest first, each as often as it divides `n`.
pub open spec fn is_prime_factorization(n: nat, s: Seq<u64>) -> bool {
    &&& forall|i: int| 0 <= i < s.len() ==> is_prime_spec(#[trigger] s[i] as nat)
    &&& is_nondecreasing(s)
    &&& product(s) == n
}

/// `s` lists the positive divisors of `n` in ascending order.
pub open spec fn is_divisor_list(n: nat, s: Seq<u64>) -> bool {
    &&& is_increasing(s)
    &&& forall|d: u64|
        #![trigger s.contains(d)]
        #![trigger divides(d as nat, n)]
        s.contains(d) <==> 1 <= d <= n && divides(d as nat, n)
}

/// Appending a number multiplies the product by it.
pub proof fn lemma_product_push(s: Seq<u64>, x: u64)
    ensures
        product(s.push(x)) == product(s) * x,
{
    assert(s.push(x).drop_last() =~= s);
}

/// A product of numbers from two up is at least one, and at least two when there are any.
pub proof fn lemma_product_lower_bound(s: Seq<u64>)
    requires
        forall|i: int| 0 <= i < s.len() ==> #[trigger] s[i] >= 2,
    ensures
        product(s) >= 1,
        s.len() > 0 ==> product(s) >= 2,
    decreases s.len(),
{
    if s.len() > 0 {
        let t = s.drop_last();
        assert forall|i: int| 0 <= i < t.len() implies #[trigger] t[i] >= 2 by {
            assert(t[i] == s[i]);
        }
        lemma_product_lower_bound(t);
        assert(product(t) * s.last() >= 2) by (nonlinear_arith)
            requires
                product(t) >= 1,
                s.last() >= 2,
        ;
    }
}

/// The divisor list of a positive number is not empty, ascends, starts at one and ends
/// at the number itself; for an even number its second element is two.
pub proof fn lemma_divisor_list_shape(n: u64, s: Seq<u64>)
    requires
        n >= 1,
        is_divisor_list(n as nat, s),
    ensures
        s.len() > 0,
        is_increasing(s),
        s[0] == 1,
        s[s.len() - 1] == n,
        n % 2 == 0 ==> s.len() >= 2 && s[1] == 2,
{
    lemma_divides_mul(1, n as nat);
    assert(divides(1, n as nat));
    assert(divides(n as nat, n as nat)) by {
        lemma_divides_mul(n as nat, 1);
    }
    assert(s.contains(1u64));
    assert(s.contains(n));
    let i1 = choose|i: int| 0 <= i < s.len() && s[i] == 1u64;
    let iN = choose|i: int| 0 <= i < s.len() && s[i] == n;
    assert(s.contains(s[0]));
    assert(s.contains(s[s.len() - 1]));
    if i1 > 0 {
        assert(s[0] < s[i1]);
    }
    if iN < s.len() - 1 {
        assert(s[iN] < s[s.len() - 1]);
    }
    if n % 2 == 0 {
        assert(divides(2, n as nat));
        assert(s.contains(2u64));
        let i2 = choose|i: int| 0 <= i < s.len() && s[i] == 2u64;
        assert(i2 != 0);
        assert(s.contains(s[1]));
        if i2 > 1 {
            assert(s[1] < s[i2]);
        }
    }
}

/// A prime's divisors are one and itself.
pub proof fn lemma_divisor_list_of_prime(p: u64, s: Seq<u64>)
    requires
        is_prime_spec(p as nat),
        is_divisor_list(p as nat, s),
    ensures
        s == seq![1u64, p],
{
    lemma_divisor_list_shape(p, s);
    assert(s.len() >= 2) by {
        if s.len() == 1 {
            assert(s[0] == s[s.len() - 1]);
        }
    }
    if s.len() > 2 {
        assert(s.contains(s[1]));
        assert(s[0] < s[1] < s[s.len() - 1]);
        assert(!divides(s[1] as nat, p as nat));
    }
    assert(s =~= seq![1u64, p]);
}

/// A prime's factorization is the prime alone.
pub proof fn lemma_prime_factorization_of_prime(p: u64, s: Seq<u64>)
    requires
        is_prime_spec(p as nat),
        is_prime_factorization(p as nat, s),
    ensures
        s == seq![p],
{
    assert forall|i: int| 0 <= i < s.len() implies #[trigger] s[i] >= 2 by {
        assert(is_prime_spec(s[i] as nat));
    }
    lemma_product_lower_bound(s);
    let t = s.drop_last();
    assert forall|i: int| 0 <= i < t.len() implies #[trigger] t[i] >= 2 by {
        assert(t[i] == s[i]);
    }
    lemma_product_lower_bound(t);
    if s.len() >= 2 {
        let last = s.last() as nat;
        assert(product(s) == product(t) * last);
        lemma_divides_mul(last, product(t) as nat);
        assert(last * (product(t) as nat) == p) by (nonlinear_arith)
            requires
                p == product(t) * last,
        ;
        assert(last < p) by (nonlinear_arith)
            requires
                p == product(t) * last,
                product(t) >= 2,
                last >= 2,
        ;
        assert(!divides(last, p as nat));
    }
    assert(s.len() == 1);
    assert(t =~= Seq::<u64>::empty());
    assert(product(t) == 1);
    assert(product(s) == product(t) * s.last());
    assert(s[0] == p);
    assert(s =~= seq![p]);
}

/// The prime factors of a factorization are prime.
pub proof fn lemma_prime_factors_are_prime(n: nat, s: Seq<u64>)
    requires
        is_prime_factorization(n, s),
    ensures
        forall|i: int| 0 <= i < s.len() ==> is_prime_spec(#[trigger] s[i] as nat),
{
}

/// The factors of a factorization multiply back to the number, and one has none.
pub proof fn lemma_factorization_round_trip(n: nat, s: Seq<u64>)
    requires
        is_prime_factorization(n, s),
    ensures
        product(s) == n,
        n == 1 ==> s.len() == 0,
{
    assert forall|i: int| 0 <= i < s.len() implies #[trigger] s[i] >= 2 by {
        assert(is_prime_spec(s[i] as nat));
    }
    lemma_product_lower_bound(s);
}

/// A prime divides a product of primes exactly when it is one of them.
pub proof fn lemma_prime_divides_product(s: Seq<u64>, p: u64)
    requires
        forall|i: int| 0 <= i < s.len() ==> is_prime_spec(#[trigger] s[i] as nat),
        is_prime_spec(p as nat),
    ensures
        divides(p as nat, product(s) as nat) <==> s.contains(p),
    decreases s.len(),
{
    assert forall|i: int| 0 <= i < s.len() implies #[trigger] s[i] >= 2 by {
        assert(is_prime_spec(s[i] as nat));
    }
    lemma_product_lower_bound(s);
    if s.len() == 0 {
        if divides(p as nat, 1) {
            lemma_divides_le(p as nat, 1);
        }
    } else {
        let t = s.drop_last();
        let l = s.last();
        assert forall|i: int| 0 <= i < t.len() implies is_prime_spec(#[trigger] t[i] as nat) by {
            assert(t[i] == s[i]);
        }
        assert forall|i: int| 0 <= i < t.len() implies #[trigger] t[i] >= 2 by {
            assert(t[i] == s[i]);
        }
        lemma_product_lower_bound(t);
        lemma_prime_divides_product(t, p);
        let pt = product(t) as nat;
        assert(product(s) == pt * l);
        if s.contains(p) {
            let i = choose|i: int| 0 <= i < s.len() && s[i] == p;
            if i == s.len() - 1 {
                lemma_divides_mul(l as nat, pt);
                assert(l * pt == pt * l) by (nonlinear_arith);
            } else {
                assert(t[i] == p);
                lemma_divides_mul_right(p as nat, pt, l as nat);
            }
        }
        if divides(p as nat, product(s) as nat) {
            lemma_euclid(p as nat, pt, l as nat);
            if divides(p as nat, pt) {
                let i = choose|i: int| 0 <= i < t.len() && t[i] == p;
                assert(s[i] == p);
            } else {
                lemma_divides_le(p as nat, l as nat);
                assert(is_prime_spec(l as nat));
                assert(s[s.len() - 1] == p);
            }
        }
    }
}

/// Every positive divisor of `number`, ascending; see [`factors::factors`].
pub fn factors(number: u64) -> (r: Vec<u64>)
    ensures
        is_divisor_list(number as nat, r@),
{
    factors::factors(number)
}

/// The prime factors of `number` with multiplicity, ascending; see
/// [`prime_factors::prime_factors`].
pub fn prime_factors(number: u64) -> (r: Vec<u64>)
    ensures
        number == 0 ==> r@.len() == 0,
        number >= 1 ==> is_prime_factorization(number as nat, r@),
{
    prime_factors::prime_factors(number)
}

} // verus!
