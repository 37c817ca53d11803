use vstd::arithmetic::div_mod::*;
use vstd::arithmetic::mul::*;
use vstd::prelude::*;

verus! {

/// `d` divides `n`; zero divides zero only.
pub open spec fn divides(d: nat, n: nat) -> bool {
    if d == 0 {
        n == 0
    } else {
        n % d == 0
    }
}

/// `n` is prime: at least two, and no number strictly between one and `n` divides it.
pub open spec fn is_prime_spec(n: nat) -> bool {
    &&& n >= 2
    &&& forall|d: nat| 2 <= d < n ==> !#[trigger] divides(d, n)
}

/// Greatest common divisor, by Euclid's recursion.
pub open spec fn gcd_spec(a: nat, b: nat) -> nat
    decreases b,
{
    if b == 0 {
        a
    } else {
        gcd_spec(b, a % b)
    }
}

/// A number divides each of its multiples.
pub proof fn lemma_divides_mul(d: nat, k: nat)
    ensures
        divides(d, d * k),
{
    if d > 0 {
        lemma_mod_multiples_basic(k as int, d as int);
        lemma_mul_is_commutative(k as int, d as int);
    } else {
        assert(d * k == 0) by (nonlinear_arith)
            requires
                d == 0,
        ;
    }
}

/// A number is its divisor times the quotient by that divisor.
pub proof fn lemma_divides_quotient(d: nat, n: nat)
    requires
        d > 0,
        divides(d, n),
    ensures
        n == d * (n / d),
{
    lemma_fundamental_div_mod(n as int, d as int);
}

/// Divisibility is transitive.
pub proof fn lemma_divides_trans(a: nat, b: nat, c: nat)
    requires
        divides(a, b),
        divides(b, c),
    ensures
        divides(a, c),
{
    if a == 0 || b == 0 {
    } else {
        lemma_divides_quotient(a, b);
        lemma_divides_quotient(b, c);
        let k: nat = (b / a) * (c / b);
        assert(c == a * k) by (nonlinear_arith)
            requires
                b == a * (b / a),
                c == b * (c / b),
                k == (b / a) * (c / b),
        ;
        lemma_divides_mul(a, k);
    }
}

/// A positive number's divisors are no larger than it.
pub proof fn lemma_divides_le(d: nat, n: nat)
    requires
        n > 0,
        divides(d, n),
    ensures
        1 <= d <= n,
{
    lemma_divides_quotient(d, n);
    assert(d <= n) by (nonlinear_arith)
        requires
            n == d * (n / d),
            n > 0,
    ;
}

/// A common divisor of two numbers divides their sum.
pub proof fn lemma_divides_add(d: nat, a: nat, b: nat)
    requires
        divides(d, a),
        divides(d, b),
    ensures
        divides(d, a + b),
{
    if d > 0 {
        lemma_divides_quotient(d, a);
        lemma_divides_quotient(d, b);
        lemma_mul_is_distributive_add(d as int, (a / d) as int, (b / d) as int);
        lemma_divides_mul(d, a / d + b / d);
    }
}

/// A divisor of `a` divides every multiple of `a`.
pub proof fn lemma_divides_mul_right(d: nat, a: nat, k: nat)
    requires
        divides(d, a),
    ensures
        divides(d, a * k),
{
    lemma_divides_mul(a, k);
    lemma_divides_trans(d, a, a * k);
}

/// Euclid's step: the common divisors of `a` and `b` are those of `b` and `a % b`.
pub proof fn lemma_divides_mod(d: nat, a: nat, b: nat)
    requires
        b > 0,
        divides(d, b),
    ensures
        divides(d, a) <==> divides(d, a % b),
{
    lemma_fundamental_div_mod(a as int, b as int);
    let q: nat = a / b;
    let r: nat = a % b;
    assert(a == b * q + r);
    lemma_divides_mul_right(d, b, q);
    if divides(d, r) {
        lemma_divides_add(d, b * q, r);
    }
    if divides(d, a) && d > 0 {
        lemma_divides_quotient(d, a);
        lemma_divides_quotient(d, b * q);
        let m: nat = a / d;
        let j: nat = (b * q) / d;
        assert(r == d * (m - j)) by (nonlinear_arith)
            requires
                a == d * m,
                b * q == d * j,
                a == b * q + r,
        ;
        assert(m >= j) by (nonlinear_arith)
            requires
                d * m == d * j + r,
                d > 0,
        ;
        lemma_divides_mul(d, (m - j) as nat);
    }
}

/// The Euclidean recursion yields a common divisor that every common divisor divides.
pub proof fn lemma_gcd(a: nat, b: nat)
    ensures
        divides(gcd_spec(a, b), a),
        divides(gcd_spec(a, b), b),
        forall|d: nat|
            divides(d, a) && divides(d, b) ==> #[trigger] divides(d, gcd_spec(a, b)),
    decreases b,
{
    if b == 0 {
        lemma_divides_mul(a, 0);
    } else {
        lemma_gcd(b, a % b);
        let g = gcd_spec(a, b);
        lemma_divides_mod(g, a, b);
        assert forall|d: nat| divides(d, a) && divides(d, b) implies #[trigger] divides(
            d,
            gcd_spec(a, b),
        ) by {
            lemma_divides_mod(d, a, b);
        }
    }
}

/// Zero is neutral for the greatest common divisor, on either side.
pub proof fn lemma_gcd_with_zero(a: nat, b: nat)
    ensures
        gcd_spec(a, 0) == a,
        gcd_spec(0, b) == b,
{
    if b > 0 {
        assert(0nat % b == 0);
        assert(gcd_spec(0, b) == gcd_spec(b, 0));
    }
}

/// A common divisor of two numbers divides their difference.
pub proof fn lemma_divides_sub(d: nat, a: nat, b: nat)
    requires
        divides(d, a),
        divides(d, b),
        b <= a,
    ensures
        divides(d, (a - b) as nat),
{
    if d > 0 {
        lemma_divides_quotient(d, a);
        lemma_divides_quotient(d, b);
        let m: nat = a / d;
        let j: nat = b / d;
        assert(m >= j && a - b == d * (m - j)) by (nonlinear_arith)
            requires
                a == d * m,
                b == d * j,
                b <= a,
                d > 0,
        ;
        lemma_divides_mul(d, (m - j) as nat);
    }
}

proof fn lemma_euclid_below(p: nat, a: nat, b: nat)
    requires
        is_prime_spec(p),
        0 < a < p,
        divides(p, a * b),
    ensures
        divides(p, b),
    decreases a,
{
    if a > 1 {
        assert(!divides(a, p));
        let q: nat = p / a;
        let r: nat = p % a;
        lemma_fundamental_div_mod(p as int, a as int);
        assert(0 < r < a);
        lemma_divides_mul(p, b);
        lemma_divides_mul_right(p, a * b, q);
        assert(r * b == p * b - (a * b) * q && (a * b) * q <= p * b) by (nonlinear_arith)
            requires
                p == a * q + r,
        ;
        lemma_divides_sub(p, p * b, (a * b) * q);
        lemma_euclid_below(p, r, b);
    } else {
        assert(a * b == b) by (nonlinear_arith)
            requires
                a == 1,
        ;
    }
}

/// Euclid's lemma: a prime that divides a product divides one of its factors.
pub proof fn lemma_euclid(p: nat, a: nat, b: nat)
    requires
        is_prime_spec(p),
        divides(p, a * b),
    ensures
        divides(p, a) || divides(p, b),
{
    if !divides(p, a) {
        let q: nat = a / p;
        let r: nat = a % p;
        lemma_fundamental_div_mod(a as int, p as int);
        assert(0 < r < p);
        lemma_divides_mul(p, q * b);
        assert(r * b == a * b - p * (q * b) && p * (q * b) <= a * b) by (nonlinear_arith)
            requires
                a == p * q + r,
        ;
        lemma_divides_sub(p, a * b, p * (q * b));
        lemma_euclid_below(p, r, b);
    }
}

/// A number with an even divisor is even.
pub proof fn lemma_even_divisor(d: nat, n: nat)
    requires
        d % 2 == 0,
        divides(d, n),
    ensures
        n % 2 == 0,
{
    lemma_divides_trans(2, d, n);
}

/// No number in `[lo, n)` divides `n`, checked one candidate after another.
pub open spec fn no_divisor_from(n: nat, lo: nat) -> bool
    decreases n - lo,
{
    if lo >= n || lo == 0 {
        true
    } else {
        n % lo != 0 && no_divisor_from(n, lo + 1)
    }
}

proof fn lemma_no_divisor_from(n: nat, lo: nat, d: nat)
    requires
        no_divisor_from(n, lo),
        1 <= lo <= d < n,
    ensures
        !divides(d, n),
    decreases d - lo,
{
    if lo < d {
        lemma_no_divisor_from(n, lo + 1, d);
    }
}

/// The primes up to fourteen.
pub proof fn lemma_small_primes(n: nat)
    requires
        n <= 14,
    ensures
        is_prime_spec(n) <==> (n == 2 || n == 3 || n == 5 || n == 7 || n == 11 || n == 13),
{
    if n == 2 || n == 3 || n == 5 || n == 7 || n == 11 || n == 13 {
        reveal_with_fuel(no_divisor_from, 12);
        if n == 2 {
            assert(no_divisor_from(2, 2));
        } else if n == 3 {
            assert(no_divisor_from(3, 2));
        } else if n == 5 {
            assert(no_divisor_from(5, 2));
        } else if n == 7 {
            assert(no_divisor_from(7, 2));
        } else if n == 11 {
            assert(no_divisor_from(11, 2));
        } else {
            assert(no_divisor_from(13, 2));
        }
        assert forall|d: nat| 2 <= d < n implies !#[trigger] divides(d, n) by {
            lemma_no_divisor_from(n, 2, d);
        }
    } else if n == 4 || n == 6 || n == 8 || n == 10 || n == 12 || n == 14 {
        assert(divides(2, n));
    } else if n == 9 {
        assert(divides(3, n));
    }
}

} // verus!
