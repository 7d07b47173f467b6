//! Square roots modulo a prime by the Tonelli-Shanks iteration.

use crate::congruence::{
    lemma_mul_congruent,
    lemma_pow_congruent,
    lemma_pow_square,
    lemma_pow_unfold,
};
use crate::modular::{
    is_two_adic_valuation,
    legendre_symbol,
    lemma_residue_product_fits,
    lemma_two_adic_valuation,
    lemma_two_adic_valuation_is,
    lemma_valuation_split,
    mod_pow,
    modulus_in_range,
    power_of_two,
    two_adic_split,
    two_adic_valuation,
};
use crate::primality::{is_prime, lemma_prime_divides_power, lemma_square_roots_of_one};
use crate::residue::{
    euler_exponent,
    is_root,
    legendre,
    lemma_euler_criterion,
    lemma_non_residue_exists,
    lemma_odd_prime,
    lemma_pow_of_multiple,
    square_mod,
};
use vstd::arithmetic::div_mod::*;
use vstd::arithmetic::mul::*;
use vstd::arithmetic::power::*;
use vstd::arithmetic::power2::*;
use vstd::prelude::*;

verus! {

/// `x` and `y` are the two square roots of `a` modulo `p`: both are nonzero
/// residues whose square is congruent to `a`, they are distinct, and each is
/// the negative of the other.
pub open spec fn is_root_pair(x: int, y: int, a: int, p: int) -> bool {
    is_root(x, a, p) && is_root(y, a, p) && x + y == p && x != y
}

/// `n` is the least number from two upward whose Legendre symbol modulo `p`
/// is zero.
pub open spec fn is_least_zero_symbol(n: int, p: int) -> bool {
    &&& 2 <= n
    &&& legendre(n, p) == 0
    &&& forall|j: int| 2 <= j < n ==> legendre(j, p) != 0
}

/// The least number from two upward whose Legendre symbol modulo `p` is
/// zero. For a prime above two it is the least quadratic non-residue.
pub open spec fn least_zero_symbol(p: int) -> int {
    choose|n: int| is_least_zero_symbol(n, p)
}

/// `m` is the least exponent below `r` for which `b^(2^m)` is congruent to
/// one modulo `p`, looked for below `r - 1`; where there is none, `r - 1`.
pub open spec fn is_order_exponent(m: nat, b: int, r: nat, p: int) -> bool {
    &&& m < r
    &&& forall|j: nat| j < m ==> pow(b, #[trigger] pow2(j)) % p != 1
    &&& m + 1 < r ==> pow(b, pow2(m)) % p == 1
}

/// The exponent that `is_order_exponent` describes.
pub open spec fn order_exponent_of(b: int, r: nat, p: int) -> nat {
    choose|m: nat| is_order_exponent(m, b, r, p)
}

/// The value on which the Tonelli-Shanks iteration ends when it starts
/// from `x`, `b`, `g` and `r`: as long as the order of `b` is `2^m` with
/// `0 < m < r`, the power `gs = g^(2^(r - m - 1))` is multiplied into `x`,
/// its square into `b`, and the round starts again with that square for `g`
/// and `m` for `r`.
pub open spec fn shanks_iterate(p: int, x: int, b: int, g: int, r: nat) -> int
    decreases r,
{
    let m = order_exponent_of(b, r, p);
    if 0 < m < r {
        let gs = pow(g, pow2((r - m - 1) as nat)) % p;
        let g2 = (gs * gs) % p;
        shanks_iterate(p, (x * gs) % p, (b * g2) % p, g2, m)
    } else {
        x
    }
}

/// The square root that the Tonelli-Shanks iteration yields for `a` modulo
/// `p`: with `p - 1 == s * 2^e`, `s` odd, and `n` the least number whose
/// Legendre symbol is zero, it starts from `a^((s + 1) / 2)`, `a^s`, `n^s`
/// and `e`.
pub open spec fn tonelli_shanks(a: int, p: int) -> int {
    let e = two_adic_valuation(p - 1);
    let s = ((p - 1) / (pow2(e) as int)) as nat;
    let n = least_zero_symbol(p);
    shanks_iterate(p, pow(a, ((s + 1) / 2) as nat) % p, pow(a, s) % p, pow(n, s) % p, e)
}

/// The result of a square-root extraction for `a` modulo `p`: the pair
/// `(0, 0)` where the Legendre symbol of `a` is not one; otherwise a residue
/// `x` and its negative, where `x` is the power `a^((p + 1) / 4)` if `p`
/// leaves remainder three modulo four, and the result of the Tonelli-Shanks
/// iteration if not.
pub open spec fn square_root_pair(a: int, p: int) -> (int, int) {
    if legendre(a, p) != 1 {
        (0, 0)
    } else {
        let x = if p % 4 == 3 {
            pow(a, ((p + 1) / 4) as nat) % p
        } else {
            tonelli_shanks(a, p)
        };
        (x, p - x)
    }
}

/// What the Tonelli-Shanks iteration maintains: `x^2` is congruent to
/// `a * b`, the order of `g` is exactly `2^r`, and the order of `b` divides
/// `2^(r - 1)`.
pub open spec fn shanks_state(p: int, a: int, x: int, b: int, g: int, r: nat) -> bool {
    &&& r >= 1
    &&& 0 <= x < p
    &&& 0 <= b < p
    &&& 0 <= g < p
    &&& (x * x) % p == (a * b) % p
    &&& pow(b, pow2((r - 1) as nat)) % p == 1
    &&& pow(g, pow2((r - 1) as nat)) % p == p - 1
}

/// A number whose Legendre symbol is one is not a multiple of the modulus,
/// and the modulus is above two.
pub proof fn lemma_legendre_one(a: int, p: int)
    requires
        p >= 2,
        legendre(a, p) == 1,
    ensures
        p > 2,
        a % p != 0,
        pow(a, euler_exponent(p)) % p == 1,
{
    if p == 2 {
        lemma_pow0(a);
    } else if a % p == 0 {
        lemma_pow_of_multiple(a, euler_exponent(p), p);
    }
}

/// The negative of a residue has the same square.
pub proof fn lemma_negative_square(x: int, p: int)
    requires
        p > 0,
    ensures
        square_mod(p - x, p) == square_mod(x, p),
{
    assert((p - x) * (p - x) == p * (p - 2 * x) + x * x) by (nonlinear_arith);
    lemma_mod_multiples_vanish(p - 2 * x, x * x, p);
}

/// A residue whose square is congruent to `a`, for an odd modulus that does
/// not divide `a`, forms a root pair with its negative.
pub proof fn lemma_root_pair(x: int, a: int, p: int)
    requires
        p > 2,
        p % 2 == 1,
        0 <= x < p,
        a % p != 0,
        square_mod(x, p) == a % p,
    ensures
        is_root_pair(x, p - x, a, p),
{
    lemma_negative_square(x, p);
    if x == 0 {
        assert(x * x == 0) by (nonlinear_arith)
            requires
                x == 0,
        ;
        lemma_small_mod(0, p as nat);
    }
}

/// Where the modulus leaves remainder three modulo four, the power with
/// exponent `(p + 1) / 4` is a square root of every number whose Euler power
/// is one.
pub proof fn lemma_fast_path(a: int, p: int)
    requires
        p > 2,
        p % 4 == 3,
        legendre(a, p) == 1,
    ensures
        is_root_pair(
            pow(a, ((p + 1) / 4) as nat) % p,
            p - pow(a, ((p + 1) / 4) as nat) % p,
            a,
            p,
        ),
{
    let h = ((p + 1) / 4) as nat;
    let k = euler_exponent(p);
    let w = pow(a, h);
    lemma_legendre_one(a, p);
    lemma_mul_mod_noop(w, w, p);
    lemma_pow_square(a, h);
    assert(2 * h == k + 1);
    lemma_pow_unfold(a, k + 1);
    lemma_mul_mod_noop_right(a, pow(a, k), p);
    assert(a * 1 == a);
    lemma_mod_bound(w, p);
    lemma_root_pair(w % p, a, p);
}

/// The starting values of the iteration satisfy its invariant.
proof fn lemma_shanks_init(p: int, a: int, n: int, s: nat, e: nat)
    requires
        p > 2,
        s % 2 == 1,
        e >= 1,
        p - 1 == s * pow2(e),
        pow(a, euler_exponent(p)) % p == 1,
        pow(n, euler_exponent(p)) % p == p - 1,
    ensures
        shanks_state(
            p,
            a,
            pow(a, ((s + 1) / 2) as nat) % p,
            pow(a, s) % p,
            pow(n, s) % p,
            e,
        ),
{
    let k = euler_exponent(p);
    let d = pow2((e - 1) as nat);
    let h = ((s + 1) / 2) as nat;
    lemma_pow2_unfold(e);
    assert(s * (2 * d) == 2 * (s * d)) by (nonlinear_arith);
    assert(k == s * d);
    // b and g
    lemma_pow_mod_noop(pow(a, s), d, p);
    lemma_pow_multiplies(a, s, d);
    lemma_pow_mod_noop(pow(n, s), d, p);
    lemma_pow_multiplies(n, s, d);
    // x
    let w = pow(a, h);
    lemma_mul_mod_noop(w, w, p);
    lemma_pow_square(a, h);
    assert(2 * h == s + 1);
    lemma_pow_unfold(a, s + 1);
    lemma_mul_mod_noop_right(a, pow(a, s), p);
    lemma_mod_bound(w, p);
    lemma_mod_bound(pow(a, s), p);
    lemma_mod_bound(pow(n, s), p);
}

/// Squaring the residue of `b^(2^m)` gives the residue of `b^(2^(m + 1))`.
proof fn lemma_square_step(b: int, m: nat, p: int)
    requires
        p > 0,
    ensures
        pow(pow(b, pow2(m)) % p, 2) % p == pow(b, pow2(m + 1)) % p,
{
    lemma_pow_mod_noop(pow(b, pow2(m)), 2, p);
    lemma_pow_multiplies(b, pow2(m), 2);
    lemma_pow2_unfold(m + 1);
}

/// One round of the iteration: where `2^m` is the order of `b` and
/// `1 <= m < r`, multiplying by the right power of `g` halves the order of
/// `b` at least once and keeps the invariant, with `m` in place of `r`.
proof fn lemma_shanks_step(p: int, a: int, x: int, b: int, g: int, r: nat, m: nat, gs: int)
    requires
        is_prime(p),
        shanks_state(p, a, x, b, g, r),
        1 <= m < r,
        pow(b, pow2(m)) % p == 1,
        pow(b, pow2((m - 1) as nat)) % p != 1,
        gs == pow(g, pow2((r - m - 1) as nat)) % p,
    ensures
        shanks_state(p, a, (x * gs) % p, (b * ((gs * gs) % p)) % p, (gs * gs) % p, m),
{
    let lo = pow2((m - 1) as nat);
    let up = pow2((r - m - 1) as nat);
    let big = pow(g, up);
    let g2 = (gs * gs) % p;
    let x2 = (x * gs) % p;
    let b2 = (b * g2) % p;
    lemma_mod_bound(gs * gs, p);
    lemma_mod_bound(x * gs, p);
    lemma_mod_bound(b * g2, p);
    lemma_small_mod(1, p as nat);

    // The new g is congruent to g^(2^(r - m)), so its order is 2^m.
    lemma_mul_mod_noop(big, big, p);
    lemma_pow_square(g, up);
    lemma_pow2_unfold((r - m) as nat);
    let gpow = pow(g, pow2((r - m) as nat));
    assert(g2 == gpow % p);
    lemma_mod_twice(gpow, p);
    lemma_pow_congruent(g2, gpow, lo, p);
    lemma_pow_multiplies(g, pow2((r - m) as nat), lo);
    lemma_pow2_adds((r - m) as nat, (m - 1) as nat);
    assert(pow(g2, lo) % p == p - 1);

    // b^(2^(m - 1)) squares to one and is not one, so it is minus one.
    let bl = pow(b, lo);
    let z = bl % p;
    lemma_mod_bound(bl, p);
    lemma_mul_mod_noop(bl, bl, p);
    lemma_pow_square(b, lo);
    lemma_pow2_unfold(m);
    lemma_square_roots_of_one(p, z);
    assert(z == p - 1);

    // The new b: (b * g2)^(2^(m - 1)) is congruent to (-1) * (-1).
    lemma_pow_mod_noop(b * g2, lo, p);
    lemma_pow_distributes(b, g2, lo);
    lemma_mul_mod_noop(bl, pow(g2, lo), p);
    assert((p - 1) * (p - 1) == p * (p - 2) + 1) by (nonlinear_arith);
    lemma_mod_multiples_vanish(p - 2, 1, p);
    assert(pow(b2, lo) % p == 1);

    // The new x: (x * gs)^2 is congruent to a * (b * g2).
    lemma_mul_mod_noop(x * gs, x * gs, p);
    assert((x * gs) * (x * gs) == (x * x) * (gs * gs)) by (nonlinear_arith);
    lemma_mod_twice(gs * gs, p);
    lemma_mul_congruent(x * x, a * b, gs * gs, g2, p);
    lemma_mul_is_associative(a, b, g2);
    lemma_mul_mod_noop_right(a, b * g2, p);
    assert((x2 * x2) % p == (a * b2) % p);
}

/// There is only one least number whose Legendre symbol is zero.
proof fn lemma_least_zero_symbol_is(n: int, p: int)
    requires
        is_least_zero_symbol(n, p),
    ensures
        n == least_zero_symbol(p),
{
    let c = least_zero_symbol(p);
    assert(is_least_zero_symbol(c, p));
    if n < c {
        assert(legendre(n, p) != 0);
    } else if c < n {
        assert(legendre(c, p) != 0);
    }
}

/// Looks for the least number from `i` upward whose Legendre symbol is zero;
/// the modulus itself is one.
proof fn lemma_zero_symbol_search(p: int, i: int) -> (n: int)
    requires
        p > 2,
        2 <= i <= p,
        forall|j: int| 2 <= j < i ==> legendre(j, p) != 0,
    ensures
        is_least_zero_symbol(n, p),
        n <= p,
    decreases p - i,
{
    if legendre(i, p) == 0 {
        i
    } else {
        if i == p {
            lemma_mod_self_0(p);
            lemma_pow_of_multiple(p, euler_exponent(p), p);
        }
        lemma_zero_symbol_search(p, i + 1)
    }
}

/// For a modulus above two the least number whose Legendre symbol is zero
/// exists and does not exceed the modulus; for a prime it lies below the
/// prime and is a quadratic non-residue.
pub proof fn lemma_least_zero_symbol(p: int)
    requires
        p > 2,
    ensures
        is_least_zero_symbol(least_zero_symbol(p), p),
        least_zero_symbol(p) <= p,
        is_prime(p) ==> least_zero_symbol(p) < p && pow(least_zero_symbol(p), euler_exponent(p))
            % p == p - 1,
{
    let n = lemma_zero_symbol_search(p, 2);
    lemma_least_zero_symbol_is(n, p);
    if is_prime(p) {
        let k = euler_exponent(p);
        let c = lemma_non_residue_exists(p);
        assert(legendre(c, p) == 0);
        if n > c {
            assert(legendre(c, p) != 0);
        }
        if pow(n, k) % p == 0 {
            lemma_prime_divides_power(p, n, k);
            lemma_small_mod(n as nat, p as nat);
        }
    }
}

/// There is only one order exponent.
proof fn lemma_order_exponent_is(m: nat, b: int, r: nat, p: int)
    requires
        is_order_exponent(m, b, r, p),
    ensures
        m == order_exponent_of(b, r, p),
{
    let c = order_exponent_of(b, r, p);
    assert(is_order_exponent(c, b, r, p));
    if m < c {
        assert(pow(b, pow2(m)) % p != 1);
    } else if c < m {
        assert(pow(b, pow2(c)) % p != 1);
    }
}

/// Looks for the order exponent from `i` upward.
proof fn lemma_order_exponent_search(b: int, r: nat, p: int, i: nat) -> (m: nat)
    requires
        i < r,
        forall|j: nat| j < i ==> pow(b, #[trigger] pow2(j)) % p != 1,
    ensures
        is_order_exponent(m, b, r, p),
    decreases r - i,
{
    if i + 1 >= r || pow(b, pow2(i)) % p == 1 {
        i
    } else {
        lemma_order_exponent_search(b, r, p, i + 1)
    }
}

/// For a positive `r` the order exponent exists.
proof fn lemma_order_exponent(b: int, r: nat, p: int)
    requires
        r >= 1,
    ensures
        is_order_exponent(order_exponent_of(b, r, p), b, r, p),
{
    let m = lemma_order_exponent_search(b, r, p, 0);
}

/// From a state that satisfies the invariant, the iteration ends on a
/// residue whose square is congruent to `a`.
proof fn lemma_shanks_iterate_root(p: int, a: int, x: int, b: int, g: int, r: nat)
    requires
        is_prime(p),
        shanks_state(p, a, x, b, g, r),
    ensures
        0 <= shanks_iterate(p, x, b, g, r) < p,
        square_mod(shanks_iterate(p, x, b, g, r), p) == a % p,
    decreases r,
{
    let m = order_exponent_of(b, r, p);
    lemma_order_exponent(b, r, p);
    assert(pow(b, pow2(m)) % p == 1);
    if m == 0 {
        lemma2_to64();
        lemma_pow1(b);
        lemma_small_mod(b as nat, p as nat);
        assert(b == 1);
        assert(a * 1 == a);
    } else {
        let gs = pow(g, pow2((r - m - 1) as nat)) % p;
        let g2 = (gs * gs) % p;
        assert(pow(b, pow2((m - 1) as nat)) % p != 1);
        lemma_shanks_step(p, a, x, b, g, r, m, gs);
        lemma_shanks_iterate_root(p, a, (x * gs) % p, (b * g2) % p, g2, m);
    }
}

/// Correctness of the Tonelli-Shanks iteration: modulo a prime, for a
/// number whose Legendre symbol is one, it yields a square root, which forms
/// a root pair with its negative.
pub proof fn lemma_tonelli_shanks_root(a: int, p: int)
    requires
        is_prime(p),
        legendre(a, p) == 1,
    ensures
        is_root_pair(tonelli_shanks(a, p), p - tonelli_shanks(a, p), a, p),
{
    let e = two_adic_valuation(p - 1);
    let s = ((p - 1) / (pow2(e) as int)) as nat;
    let n = least_zero_symbol(p);
    lemma_legendre_one(a, p);
    lemma_odd_prime(p);
    lemma_two_adic_valuation(p - 1);
    lemma_valuation_split(p - 1, e);
    lemma_least_zero_symbol(p);
    assert(e >= 1) by {
        if e == 0 {
            lemma2_to64();
            assert(s * pow2(0) == s) by (nonlinear_arith)
                requires
                    pow2(0) == 1,
            ;
        }
    }
    lemma_shanks_init(p, a, n, s, e);
    lemma_shanks_iterate_root(
        p,
        a,
        pow(a, ((s + 1) / 2) as nat) % p,
        pow(a, s) % p,
        pow(n, s) % p,
        e,
    );
    lemma_root_pair(tonelli_shanks(a, p), a, p);
}

/// Correctness of the square-root extraction: for a prime modulus, or one
/// that leaves remainder three modulo four, and a number whose Legendre
/// symbol is one, the result is the pair of its two square roots.
pub proof fn lemma_square_root_pair(a: int, p: int)
    requires
        p >= 2,
        is_prime(p) || p % 4 == 3,
        legendre(a, p) == 1,
    ensures
        is_root_pair(square_root_pair(a, p).0, square_root_pair(a, p).1, a, p),
{
    lemma_legendre_one(a, p);
    if p % 4 == 3 {
        lemma_fast_path(a, p);
    } else {
        lemma_tonelli_shanks_root(a, p);
    }
}

/// Round trip: for a prime `p` and a residue `a` below `p` whose Legendre
/// symbol is one, squaring either component of the square-root result
/// gives `a` back.
pub proof fn lemma_round_trip(a: int, p: int)
    requires
        is_prime(p),
        0 <= a < p,
        legendre(a, p) == 1,
    ensures
        square_mod(square_root_pair(a, p).0, p) == a,
        square_mod(square_root_pair(a, p).1, p) == a,
{
    lemma_square_root_pair(a, p);
    lemma_small_mod(a as nat, p as nat);
}

/// Root symmetry: for a prime `p`, the components of a square-root result
/// that are both nonzero add up to `p`; they differ where the Legendre
/// symbol is one, and are both zero where it is not.
pub proof fn lemma_root_symmetry(a: int, p: int)
    requires
        is_prime(p),
    ensures
        square_root_pair(a, p).0 != 0 && square_root_pair(a, p).1 != 0 ==> square_root_pair(
            a,
            p,
        ).0 + square_root_pair(a, p).1 == p,
        legendre(a, p) == 1 ==> square_root_pair(a, p).0 != square_root_pair(a, p).1,
        legendre(a, p) != 1 ==> square_root_pair(a, p) == (0int, 0int),
{
    if legendre(a, p) == 1 {
        lemma_square_root_pair(a, p);
    }
}

/// For a prime above two, the square-root result is `(0, 0)` exactly when
/// `a` has no nonzero square root.
pub proof fn lemma_sentinel_means_no_root(a: int, p: int)
    requires
        is_prime(p),
        p > 2,
    ensures
        square_root_pair(a, p) == (0int, 0int) <==> forall|z: int| !is_root(z, a, p),
{
    lemma_euler_criterion(p, a);
    if legendre(a, p) == 1 {
        lemma_square_root_pair(a, p);
    }
}

/// Finds the least number from two upward whose Legendre symbol modulo `p`
/// is zero.
fn least_non_residue(p: u128) -> (n: u128)
    requires
        modulus_in_range(p as int),
        p > 2,
    ensures
        n == least_zero_symbol(p as int),
        2 <= n <= p,
{
    proof {
        lemma_least_zero_symbol(p as int);
    }
    let mut n: u128 = 2;
    while legendre_symbol(n, p) != 0
        invariant
            modulus_in_range(p as int),
            2 <= n <= least_zero_symbol(p as int) <= p,
            is_least_zero_symbol(least_zero_symbol(p as int), p as int),
        decreases p - n,
    {
        n = n + 1;
    }
    n
}

/// Finds the order exponent of `b` below `r` by repeated squaring.
fn order_exponent(b: u128, r: u32, p: u128) -> (m: u32)
    requires
        modulus_in_range(p as int),
        b < p,
        1 <= r < 128,
    ensures
        m == order_exponent_of(b as int, r as nat, p as int),
        m < r,
{
    let mut m: u32 = 0;
    let mut t = b;
    proof {
        lemma2_to64();
        lemma_pow1(b as int);
        lemma_small_mod(b as nat, p as nat);
    }
    while t != 1 && m + 1 < r
        invariant
            modulus_in_range(p as int),
            m < r,
            r < 128,
            t < p,
            t == pow(b as int, pow2(m as nat)) % (p as int),
            forall|j: nat| j < m ==> pow(b as int, #[trigger] pow2(j)) % (p as int) != 1,
        decreases r - m,
    {
        proof {
            lemma_square_step(b as int, m as nat, p as int);
            lemma_mod_bound(pow(t as int, 2), p as int);
        }
        t = mod_pow(t, 2, p);
        m = m + 1;
    }
    proof {
        lemma_order_exponent_is(m as nat, b as int, r as nat, p as int);
    }
    m
}

/// The two square roots of `a` modulo `p`, or `(0, 0)` where `a` has none.
///
/// The pair `(0, 0)` is returned exactly when the Legendre symbol of `a` is
/// not one: for a non-residue, for a multiple of `p`, and for `p == 2`.
/// Otherwise the result is `x` and `p - x`, where `x` is `a^((p + 1) / 4)`
/// if `p` leaves remainder three modulo four and the result of the
/// Tonelli-Shanks iteration if not; for a prime `p` these are the two
/// square roots of `a`. The modulus has to lie between two and `2^64`.
pub fn square_root(a: u128, p: u128) -> (r: (u128, u128))
    requires
        modulus_in_range(p as int),
    ensures
        (r.0 as int, r.1 as int) == square_root_pair(a as int, p as int),
        is_prime(p as int) && legendre(a as int, p as int) == 1 ==> is_root_pair(
            r.0 as int,
            r.1 as int,
            a as int,
            p as int,
        ),
{
    square_root_with_exponent(a, p, None)
}

/// The two square roots of `a` modulo `p`, as `square_root` returns them,
/// for a caller that may already know the exponent of two in `p - 1`.
///
/// With `Some(e)` the factorisation of `p - 1` is taken from `e`, which has
/// to be the 2-adic valuation of `p - 1`; with `None` it is computed here.
pub fn square_root_with_exponent(a: u128, p: u128, exponent: Option<u32>) -> (r: (u128, u128))
    requires
        modulus_in_range(p as int),
        exponent matches Some(e) ==> is_two_adic_valuation(p - 1, e as nat),
    ensures
        (r.0 as int, r.1 as int) == square_root_pair(a as int, p as int),
        is_prime(p as int) && legendre(a as int, p as int) == 1 ==> is_root_pair(
            r.0 as int,
            r.1 as int,
            a as int,
            p as int,
        ),
{
    if legendre_symbol(a, p) != 1 {
        return (0, 0);
    }
    proof {
        lemma_legendre_one(a as int, p as int);
        lemma_small_mod(0, p as nat);
        if is_prime(p as int) {
            lemma_square_root_pair(a as int, p as int);
        }
    }
    // A Legendre symbol of one already excludes zero and the modulus two;
    // the two guards below only repeat that.
    if a == 0 {
        return (0, 0);
    } else if p == 2 {
        return (0, 0);
    } else if (p + 1) % 4 == 0 {
        let res1 = mod_pow(a, (p + 1) / 4, p);
        let res2 = p - res1;
        proof {
            lemma_mod_bound(pow(a as int, ((p + 1) / 4) as nat), p as int);
        }
        return (res1, res2);
    }
    // p - 1 == s * 2^e with s odd
    let (e, s) = match exponent {
        Some(e) => {
            proof {
                lemma_valuation_split(p - 1, e as nat);
                lemma_two_adic_valuation_is(p - 1, e as nat);
            }
            (e, (p - 1) / power_of_two(e))
        },
        None => two_adic_split(p - 1),
    };
    assert(e == two_adic_valuation(p - 1) && s == (p - 1) / (pow2(e as nat) as int) && s <= p - 1
        && e < 128);
    let n = least_non_residue(p);
    let mut x = mod_pow(a, (s + 1) / 2, p);
    let mut b = mod_pow(a, s, p);
    let mut g = mod_pow(n, s, p);
    let mut r = e;
    proof {
        lemma_mod_bound(pow(a as int, ((s + 1) / 2) as nat), p as int);
        lemma_mod_bound(pow(a as int, s as nat), p as int);
        lemma_mod_bound(pow(n as int, s as nat), p as int);
    }
    loop
        invariant
            modulus_in_range(p as int),
            x < p,
            b < p,
            g < p,
            r < 128,
            p % 4 != 3,
            legendre(a as int, p as int) == 1,
            is_prime(p as int) ==> is_root_pair(
                square_root_pair(a as int, p as int).0,
                square_root_pair(a as int, p as int).1,
                a as int,
                p as int,
            ),
            shanks_iterate(p as int, x as int, b as int, g as int, r as nat) == tonelli_shanks(
                a as int,
                p as int,
            ),
        decreases r,
    {
        if r == 0 {
            // only for an even modulus, which is not prime
            return (x, p - x);
        }
        let m = order_exponent(b, r, p);
        if m == 0 {
            return (x, p - x);
        }
        let gs = mod_pow(g, power_of_two(r - m - 1), p);
        proof {
            lemma_mod_bound(pow(g as int, pow2((r - m - 1) as nat)), p as int);
            lemma_residue_product_fits(gs as int, gs as int, p as int);
            lemma_residue_product_fits(x as int, gs as int, p as int);
            lemma_mod_bound(gs * gs, p as int);
            lemma_residue_product_fits(b as int, (gs * gs) % (p as int), p as int);
        }
        g = (gs * gs) % p;
        x = (x * gs) % p;
        b = (b * g) % p;
        r = m;
    }
}

} // verus!
