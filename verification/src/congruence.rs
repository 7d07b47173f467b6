//! Elementary facts about remainders and powers that the number-theoretic
//! proofs of this crate are assembled from.

use vstd::arithmetic::div_mod::*;
use vstd::arithmetic::mul::*;
use vstd::arithmetic::power::*;
use vstd::prelude::*;

verus! {

/// Every multiple of `m` leaves remainder zero.
pub proof fn lemma_multiple_mod(m: int, t: int)
    requires
        m > 0,
    ensures
        (m * t) % m == 0,
        (t * m) % m == 0,
{
    lemma_mod_multiples_basic(t, m);
    lemma_mul_is_commutative(m, t);
}

/// A number that leaves remainder zero is the modulus times its quotient.
pub proof fn lemma_mod_zero_is_multiple(n: int, m: int)
    requires
        m > 0,
        n % m == 0,
    ensures
        n == m * (n / m),
{
    lemma_fundamental_div_mod(n, m);
}

/// Congruent factors give congruent products.
pub proof fn lemma_mul_congruent(a: int, b: int, c: int, d: int, m: int)
    requires
        m > 0,
        a % m == b % m,
        c % m == d % m,
    ensures
        (a * c) % m == (b * d) % m,
{
    lemma_mul_mod_noop(a, c, m);
    lemma_mul_mod_noop(b, d, m);
}

/// Congruent bases give congruent powers.
pub proof fn lemma_pow_congruent(a: int, b: int, e: nat, m: int)
    requires
        m > 0,
        a % m == b % m,
    ensures
        pow(a, e) % m == pow(b, e) % m,
{
    lemma_pow_mod_noop(a, e, m);
    lemma_pow_mod_noop(b, e, m);
}

/// A power with a positive exponent is the base times the next lower power.
pub proof fn lemma_pow_unfold(b: int, e: nat)
    requires
        e > 0,
    ensures
        pow(b, e) == b * pow(b, (e - 1) as nat),
        pow(b, e) == pow(b, (e - 1) as nat) * b,
{
    reveal(pow);
    lemma_mul_is_commutative(b, pow(b, (e - 1) as nat));
}

/// Squaring a power doubles its exponent.
pub proof fn lemma_pow_square(b: int, e: nat)
    ensures
        pow(b, e) * pow(b, e) == pow(b, 2 * e),
{
    lemma_pow_adds(b, e, e);
}

} // verus!
