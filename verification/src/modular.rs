//! Modular exponentiation and what is computed from it directly: squares,
//! the Legendre symbol, powers of two and the 2-adic split of a number.

use crate::residue::{legendre, square_mod};
use vstd::arithmetic::div_mod::*;
use vstd::arithmetic::mul::*;
use vstd::arithmetic::power::*;
use vstd::arithmetic::power2::*;
use vstd::prelude::*;

verus! {

/// The moduli that the arithmetic of this crate accepts: at least two, and
/// small enough that the product of two residues fits in 128 bits.
pub open spec fn modulus_in_range(m: int) -> bool {
    2 <= m <= 0x1_0000_0000_0000_0000
}

/// `e` is the 2-adic valuation of `n`: `2^e` divides `n` and the quotient is
/// odd.
pub open spec fn is_two_adic_valuation(n: int, e: nat) -> bool {
    n % (pow2(e) as int) == 0 && (n / (pow2(e) as int)) % 2 == 1
}

/// The 2-adic valuation of a positive number: the exponent of the largest
/// power of two that divides it.
pub open spec fn two_adic_valuation(n: int) -> nat {
    choose|e: nat| is_two_adic_valuation(n, e)
}

/// Calls `mod_exp::mod_exp` on 128-bit operands.
///
/// That function reduces the base, then squares and multiplies from the
/// lowest bit of the exponent upward, reducing after every product; what it
/// returns is the power reduced modulo the modulus. It asserts
/// `modulus - 1 < u128::MAX / (modulus - 1)` and divides by `modulus - 1`
/// on the way, so it panics for a modulus below two or above `2^64`; the
/// precondition admits exactly the moduli for which the assertion holds.
#[verifier::external_body]
pub(crate) fn mod_pow(base: u128, exponent: u128, modulus: u128) -> (r: u128)
    requires
        modulus_in_range(modulus as int),
    ensures
        r == pow(base as int, exponent as nat) % (modulus as int),
{
    mod_exp::mod_exp(base, exponent, modulus)
}

/// Two to the power 128 is one more than the largest 128-bit number.
pub proof fn lemma_pow2_128()
    ensures
        pow2(128) == 0x1_0000_0000_0000_0000_0000_0000_0000_0000,
{
    lemma2_to64();
    lemma_pow2_adds(64, 64);
}

/// The product of two residues of a modulus in range fits in 128 bits.
pub proof fn lemma_residue_product_fits(x: int, y: int, m: int)
    requires
        modulus_in_range(m),
        0 <= x < m,
        0 <= y < m,
    ensures
        0 <= x * y <= u128::MAX,
{
    lemma_mul_nonnegative(x, y);
    lemma_mul_upper_bound(x, 0xffff_ffff_ffff_ffff, y, 0xffff_ffff_ffff_ffff);
}

/// A positive number is its odd cofactor times `2^e`, where `e` is its
/// 2-adic valuation; the power of two does not exceed the number, so `e` is
/// below the bit length of the number.
pub proof fn lemma_valuation_split(n: int, e: nat)
    requires
        n > 0,
        is_two_adic_valuation(n, e),
    ensures
        n == (n / (pow2(e) as int)) * pow2(e),
        (n / (pow2(e) as int)) % 2 == 1,
        0 < n / (pow2(e) as int) <= n,
        1 <= pow2(e) <= n,
        n <= u128::MAX ==> e < 128,
{
    let w = pow2(e) as int;
    let s = n / w;
    lemma_pow2_pos(e);
    lemma_fundamental_div_mod(n, w);
    lemma_div_pos_is_pos(n, w);
    lemma_mul_is_commutative(w, s);
    assert(s * w >= w && s * w >= s) by (nonlinear_arith)
        requires
            s >= 1,
            w >= 1,
    ;
    lemma_pow2_128();
    if e > 128 {
        lemma_pow2_strictly_increases(128, e);
    }
}

/// Every positive number has a 2-adic valuation.
proof fn lemma_valuation_exists(n: int) -> (e: nat)
    requires
        n > 0,
    ensures
        is_two_adic_valuation(n, e),
    decreases n,
{
    if n % 2 == 1 {
        lemma2_to64();
        0
    } else {
        let half = n / 2;
        let e0 = lemma_valuation_exists(half);
        let w0 = pow2(e0) as int;
        let s0 = half / w0;
        lemma_valuation_split(half, e0);
        lemma_pow2_unfold(e0 + 1);
        assert(n == s0 * (2 * w0)) by (nonlinear_arith)
            requires
                n == 2 * half,
                half == s0 * w0,
        ;
        lemma_fundamental_div_mod_converse(n, 2 * w0, s0, 0);
        e0 + 1
    }
}

/// The 2-adic valuation of a positive number is one.
pub proof fn lemma_two_adic_valuation(n: int)
    requires
        n > 0,
    ensures
        is_two_adic_valuation(n, two_adic_valuation(n)),
{
    let e = lemma_valuation_exists(n);
}

/// An exponent that is a 2-adic valuation of a positive number is its
/// 2-adic valuation.
pub proof fn lemma_two_adic_valuation_is(n: int, e: nat)
    requires
        n > 0,
        is_two_adic_valuation(n, e),
    ensures
        e == two_adic_valuation(n),
{
    lemma_valuation_unique(n, e, two_adic_valuation(n));
}

/// A positive number has only one 2-adic valuation.
pub proof fn lemma_valuation_unique(n: int, e1: nat, e2: nat)
    requires
        n > 0,
        is_two_adic_valuation(n, e1),
        is_two_adic_valuation(n, e2),
    ensures
        e1 == e2,
{
    if e1 < e2 {
        lemma_valuation_excludes_larger(n, e1, e2);
    } else if e2 < e1 {
        lemma_valuation_excludes_larger(n, e2, e1);
    }
}

/// Where a higher power of two divides `n`, the quotient of `n` by a lower
/// power that divides it is even.
proof fn lemma_valuation_excludes_larger(n: int, e1: nat, e2: nat)
    requires
        n > 0,
        e1 < e2,
        n % (pow2(e1) as int) == 0,
        n % (pow2(e2) as int) == 0,
    ensures
        (n / (pow2(e1) as int)) % 2 == 0,
{
    let w1 = pow2(e1) as int;
    let w2 = pow2(e2) as int;
    let d = pow2((e2 - e1 - 1) as nat) as int;
    let s1 = n / w1;
    let s2 = n / w2;
    lemma_pow2_pos(e1);
    lemma_pow2_pos(e2);
    lemma_fundamental_div_mod(n, w1);
    lemma_fundamental_div_mod(n, w2);
    lemma_pow2_adds(e1, (e2 - e1) as nat);
    lemma_pow2_unfold((e2 - e1) as nat);
    // n == w1 * s1 == w1 * (2 * d * s2), so s1 is even
    assert(w1 * (2 * d) * s2 == w1 * (2 * (d * s2))) by (nonlinear_arith);
    lemma_mul_equality_converse(w1, s1, 2 * (d * s2));
}

/// Squares `a` modulo `p`. The modulus has to lie between two and `2^64`.
pub fn square(a: u128, p: u128) -> (r: u128)
    requires
        modulus_in_range(p as int),
    ensures
        r == square_mod(a as int, p as int),
{
    proof {
        lemma_square_is_pow2(a as int);
    }
    mod_pow(a, 2, p)
}

/// Evaluates the Legendre symbol of `a` modulo `p` in its unsigned encoding:
/// one for a quadratic residue that `p` does not divide, zero where the
/// signed symbol would be minus one or zero. The modulus has to lie between
/// two and `2^64`; the classification holds for an odd prime.
pub fn legendre_symbol(a: u128, p: u128) -> (r: u128)
    requires
        modulus_in_range(p as int),
    ensures
        r == legendre(a as int, p as int),
{
    let ls = mod_pow(a, (p - 1) / 2, p);
    if ls == p - 1 {
        0
    } else {
        ls
    }
}

/// Computes `2^k`, for `k` below 128.
pub fn power_of_two(k: u32) -> (r: u128)
    requires
        k < 128,
    ensures
        r == pow2(k as nat),
{
    let mut r: u128 = 1;
    let mut i: u32 = 0;
    proof {
        lemma2_to64();
    }
    while i < k
        invariant
            i <= k,
            k < 128,
            r == pow2(i as nat),
        decreases k - i,
    {
        proof {
            lemma_pow2_unfold((i + 1) as nat);
            lemma_pow2_strictly_increases((i + 1) as nat, 128);
            lemma_pow2_128();
        }
        r = r * 2;
        i = i + 1;
    }
    r
}

/// Splits a positive number into its largest power-of-two factor and the
/// odd cofactor: returns `(e, s)` with `n == s * 2^e` and `s` odd.
pub fn two_adic_split(n: u128) -> (r: (u32, u128))
    requires
        n > 0,
    ensures
        r.0 == two_adic_valuation(n as int),
        r.1 == (n as int) / (pow2(r.0 as nat) as int),
        r.1 % 2 == 1,
        r.1 <= n,
        n == r.1 * pow2(r.0 as nat),
        is_two_adic_valuation(n as int, r.0 as nat),
        r.0 < 128,
{
    let mut s: u128 = n;
    let mut e: u32 = 0;
    proof {
        lemma2_to64();
    }
    while s % 2 == 0
        invariant
            0 < s <= n,
            n == s * pow2(e as nat),
            e < 128,
        decreases s,
    {
        proof {
            let half = (s / 2) as int;
            let w = pow2(e as nat) as int;
            lemma_pow2_unfold((e + 1) as nat);
            assert(s * w == half * (2 * w)) by (nonlinear_arith)
                requires
                    s == 2 * half,
            ;
            if e + 1 == 128 {
                lemma_pow2_128();
                assert(half * (2 * w) >= 2 * w) by (nonlinear_arith)
                    requires
                        half >= 1,
                        w >= 0,
                ;
            }
        }
        s = s / 2;
        e = e + 1;
    }
    proof {
        let w = pow2(e as nat) as int;
        lemma_pow2_pos(e as nat);
        lemma_fundamental_div_mod_converse(n as int, w, s as int, 0);
        lemma_two_adic_valuation_is(n as int, e as nat);
    }
    (e, s)
}

} // verus!
