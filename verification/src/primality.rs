//! Primes, and the fact that a prime dividing a product divides a factor.

use crate::congruence::{lemma_mod_zero_is_multiple, lemma_multiple_mod};
use vstd::arithmetic::div_mod::*;
use vstd::arithmetic::mul::*;
use vstd::arithmetic::power::*;
use vstd::prelude::*;

verus! {

/// `d` divides `n`.
pub open spec fn divides(d: int, n: int) -> bool {
    n % d == 0
}

/// `n` is prime: it is at least two and nothing strictly between one and `n`
/// divides it.
pub open spec fn is_prime(n: int) -> bool {
    n >= 2 && forall|d: int| 1 < d < n ==> !#[trigger] divides(d, n)
}

/// `n` is a hard prime: a prime that leaves remainder one modulo four.
pub open spec fn is_hard_prime(n: int) -> bool {
    is_prime(n) && n % 4 == 1
}

/// Descent step of Euclid's lemma, for a first factor strictly between zero
/// and the prime.
proof fn lemma_euclid_descent(p: int, a: int, b: int)
    requires
        is_prime(p),
        0 < a < p,
        divides(p, a * b),
    ensures
        divides(p, b),
    decreases a,
{
    if a == 1 {
        assert(a * b == b) by (nonlinear_arith)
            requires
                a == 1,
        ;
    } else {
        let q = p / a;
        let r = p % a;
        lemma_fundamental_div_mod(p, a);
        lemma_mod_pos_bound(p, a);
        assert(!divides(a, p));
        let t = (a * b) / p;
        lemma_mod_zero_is_multiple(a * b, p);
        assert(r * b == p * (b - q * t)) by (nonlinear_arith)
            requires
                p == a * q + r,
                a * b == p * t,
        ;
        lemma_multiple_mod(p, b - q * t);
        lemma_euclid_descent(p, r, b);
    }
}

/// Euclid's lemma: a prime that divides a product divides one of the
/// factors.
pub proof fn lemma_prime_divides_product(p: int, a: int, b: int)
    requires
        is_prime(p),
        divides(p, a * b),
    ensures
        divides(p, a) || divides(p, b),
{
    let a0 = a % p;
    if a0 != 0 {
        lemma_mul_mod_noop_left(a, b, p);
        lemma_mod_bound(a, p);
        lemma_euclid_descent(p, a0, b);
    }
}

/// A prime that divides a power divides the base.
pub proof fn lemma_prime_divides_power(p: int, b: int, e: nat)
    requires
        is_prime(p),
        divides(p, pow(b, e)),
    ensures
        divides(p, b),
    decreases e,
{
    if e == 0 {
        lemma_pow0(b);
        lemma_small_mod(1, p as nat);
    } else {
        reveal(pow);
        lemma_prime_divides_product(p, b, pow(b, (e - 1) as nat));
        if !divides(p, b) {
            lemma_prime_divides_power(p, b, (e - 1) as nat);
        }
    }
}

/// Modulo a prime, one has exactly two square roots: one and minus one.
pub proof fn lemma_square_roots_of_one(p: int, z: int)
    requires
        is_prime(p),
        0 <= z < p,
        (z * z) % p == 1,
    ensures
        z == 1 || z == p - 1,
{
    lemma_small_mod(1, p as nat);
    assert((z - 1) * (z + 1) == z * z - 1) by (nonlinear_arith);
    lemma_mod_equivalence(z * z, 1, p);
    lemma_prime_divides_product(p, z - 1, z + 1);
    if divides(p, z - 1) {
        if z != 1 {
            if z == 0 {
                lemma_mod_equivalence(z, 1, p);
                lemma_small_mod(0, p as nat);
            } else {
                lemma_small_mod((z - 1) as nat, p as nat);
            }
        }
    } else {
        if z + 1 != p {
            lemma_small_mod((z + 1) as nat, p as nat);
        }
    }
}

} // verus!
