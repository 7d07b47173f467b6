//! Quadratic residues: the Legendre symbol, square roots modulo a prime, and
//! the existence of a non-residue for every odd prime.

use crate::congruence::{lemma_pow_congruent, lemma_pow_square, lemma_pow_unfold};
use crate::fermat::lemma_fermat_little;
use crate::polynomial::{eval, lemma_root_bound};
use crate::primality::{
    divides,
    is_prime,
    lemma_prime_divides_product,
    lemma_square_roots_of_one,
};
use vstd::arithmetic::div_mod::*;
use vstd::arithmetic::power::*;
use vstd::prelude::*;
use vstd::relations::*;
use vstd::set_lib::*;

verus! {

/// The exponent of Euler's criterion, `(p - 1) / 2`.
pub open spec fn euler_exponent(p: int) -> nat {
    ((p - 1) / 2) as nat
}

/// The Legendre symbol in its unsigned encoding: `a^((p - 1) / 2)` reduced
/// modulo `p`, with the residue `p - 1`, which stands for minus one, mapped
/// to zero. For an odd prime `p` the value is one exactly for the quadratic
/// residues that `p` does not divide, and zero otherwise.
pub open spec fn legendre(a: int, p: int) -> int {
    let ls = pow(a, euler_exponent(p)) % p;
    if ls == p - 1 {
        0
    } else {
        ls
    }
}

/// `a` squared, reduced modulo `p`.
pub open spec fn square_mod(a: int, p: int) -> int {
    (a * a) % p
}

/// `x` is a nonzero residue modulo `p` whose square is congruent to `a`.
pub open spec fn is_root(x: int, a: int, p: int) -> bool {
    0 < x < p && square_mod(x, p) == a % p
}

/// The coefficients, leading one first, of the polynomial `X^k - 1`.
spec fn power_minus_one(k: nat) -> spec_fn(nat) -> int {
    |i: nat|
        if i == 0 {
            1int
        } else if i == k {
            -1int
        } else {
            0int
        }
}

/// Cut off before its constant term, `X^k - 1` is a pure power of `X`.
proof fn lemma_eval_power_prefix(k: nat, j: nat, x: int)
    requires
        j < k,
    ensures
        eval(power_minus_one(k), j, x) == pow(x, j),
    decreases j,
{
    if j == 0 {
        lemma_pow0(x);
    } else {
        lemma_eval_power_prefix(k, (j - 1) as nat, x);
        lemma_pow_unfold(x, j);
    }
}

/// The coefficients of `power_minus_one(k)` evaluate to `x^k - 1`.
proof fn lemma_eval_power_minus_one(k: nat, x: int)
    requires
        k >= 1,
    ensures
        eval(power_minus_one(k), k, x) == pow(x, k) - 1,
{
    lemma_eval_power_prefix(k, (k - 1) as nat, x);
    lemma_pow_unfold(x, k);
}

/// A prime above two is odd.
pub proof fn lemma_odd_prime(p: int)
    requires
        is_prime(p),
        p > 2,
    ensures
        p % 2 == 1,
        2 * euler_exponent(p) == p - 1,
        euler_exponent(p) >= 1,
{
    assert(!divides(2, p));
}

/// If the modulus divides the base, a power with a positive exponent leaves
/// remainder zero.
pub proof fn lemma_pow_of_multiple(a: int, e: nat, p: int)
    requires
        p > 0,
        e > 0,
        a % p == 0,
    ensures
        pow(a, e) % p == 0,
{
    lemma_small_mod(0, p as nat);
    lemma_pow_congruent(a, 0, e, p);
    lemma0_pow(e);
}

/// Modulo a prime above two, the Euler power of a number that the prime does
/// not divide is one or minus one.
pub proof fn lemma_euler_power_is_unit(p: int, a: int)
    requires
        is_prime(p),
        p > 2,
        !divides(p, a),
    ensures
        pow(a, euler_exponent(p)) % p == 1 || pow(a, euler_exponent(p)) % p == p - 1,
{
    let k = euler_exponent(p);
    let w = pow(a, k);
    lemma_odd_prime(p);
    lemma_fermat_little(p, a);
    lemma_pow_square(a, k);
    lemma_mul_mod_noop(w, w, p);
    lemma_mod_bound(w, p);
    lemma_square_roots_of_one(p, w % p);
}

/// Every prime above two has a quadratic non-residue: a number between two
/// and `p - 1` whose Euler power is minus one.
pub proof fn lemma_non_residue_exists(p: int) -> (c: int)
    requires
        is_prime(p),
        p > 2,
    ensures
        2 <= c < p,
        pow(c, euler_exponent(p)) % p == p - 1,
{
    let k = euler_exponent(p);
    lemma_odd_prime(p);
    lemma_small_mod(1, p as nat);
    if forall|x: int| 1 <= x < p ==> #[trigger] pow(x, k) % p == 1 {
        let all = set_int_range(1, p);
        lemma_int_range(1, p);
        let coeff = power_minus_one(k);
        assert(coeff(0) == 1);
        assert forall|x: int| #[trigger] all.contains(x) implies 0 <= x < p && divides(
            p,
            eval(coeff, k, x),
        ) by {
            lemma_eval_power_minus_one(k, x);
            assert(pow(x, k) % p == 1);
            lemma_mod_equivalence(pow(x, k), 1, p);
        }
        lemma_root_bound(p, coeff, k, all);
        assert(false);
    }
    let c = choose|x: int| 1 <= x < p && pow(x, k) % p != 1;
    lemma_small_mod(c as nat, p as nat);
    lemma_euler_power_is_unit(p, c);
    if c == 1 {
        lemma1_pow(k);
    }
    c
}

/// Modulo a prime above two, the Legendre symbol is zero or one.
pub proof fn lemma_legendre_values(p: int, a: int)
    requires
        is_prime(p),
        p > 2,
    ensures
        legendre(a, p) == 0 || legendre(a, p) == 1,
        divides(p, a) ==> legendre(a, p) == 0,
{
    lemma_odd_prime(p);
    if divides(p, a) {
        lemma_pow_of_multiple(a, euler_exponent(p), p);
    } else {
        lemma_euler_power_is_unit(p, a);
    }
}

/// Modulo a prime, a number has at most two square roots, and each is the
/// negative of the other.
pub proof fn lemma_roots_are_opposite(p: int, a: int, x: int, y: int)
    requires
        is_prime(p),
        is_root(x, a, p),
        is_root(y, a, p),
    ensures
        y == x || y == p - x,
{
    lemma_mod_equivalence(x * x, y * y, p);
    assert(x * x - y * y == (x - y) * (x + y)) by (nonlinear_arith);
    lemma_prime_divides_product(p, x - y, x + y);
    if divides(p, x - y) {
        lemma_mod_equivalence(x, y, p);
        lemma_small_mod(x as nat, p as nat);
        lemma_small_mod(y as nat, p as nat);
    } else if x + y < p {
        lemma_small_mod((x + y) as nat, p as nat);
    } else if x + y > p {
        lemma_mod_self_0(p);
        lemma_mod_equivalence(x + y, x + y - p, p);
        lemma_small_mod((x + y - p) as nat, p as nat);
    }
}

/// Modulo a prime above two, the numbers from one to `(p - 1) / 2` have
/// pairwise distinct squares.
proof fn lemma_half_squares_distinct(p: int, x: int, y: int)
    requires
        is_prime(p),
        p > 2,
        1 <= x <= euler_exponent(p),
        1 <= y <= euler_exponent(p),
        square_mod(x, p) == square_mod(y, p),
    ensures
        x == y,
{
    lemma_odd_prime(p);
    lemma_mod_equivalence(x * x, y * y, p);
    assert(x * x - y * y == (x - y) * (x + y)) by (nonlinear_arith);
    lemma_prime_divides_product(p, x - y, x + y);
    if divides(p, x - y) {
        lemma_mod_equivalence(x, y, p);
        lemma_small_mod(x as nat, p as nat);
        lemma_small_mod(y as nat, p as nat);
    } else {
        lemma_small_mod((x + y) as nat, p as nat);
    }
}

/// Modulo a prime above two, the Euler power of the square of a nonzero
/// residue is one.
proof fn lemma_square_is_residue(p: int, x: int)
    requires
        is_prime(p),
        p > 2,
        0 < x < p,
    ensures
        pow(x * x, euler_exponent(p)) % p == 1,
{
    let k = euler_exponent(p);
    lemma_odd_prime(p);
    lemma_small_mod(x as nat, p as nat);
    lemma_fermat_little(p, x);
    lemma_pow_distributes(x, x, k);
    lemma_pow_square(x, k);
}

/// Euler's criterion: modulo a prime above two, the Legendre symbol of `a`
/// is one exactly when `a` has a nonzero square root.
pub proof fn lemma_euler_criterion(p: int, a: int)
    requires
        is_prime(p),
        p > 2,
    ensures
        legendre(a, p) == 1 <==> exists|x: int| is_root(x, a, p),
{
    let k = euler_exponent(p);
    lemma_odd_prime(p);
    lemma_small_mod(1, p as nat);
    if exists|x: int| is_root(x, a, p) {
        let x = choose|x: int| is_root(x, a, p);
        lemma_square_is_residue(p, x);
        lemma_pow_congruent(a, x * x, k, p);
    }
    if legendre(a, p) == 1 {
        let a0 = a % p;
        lemma_mod_bound(a, p);
        lemma_mod_twice(a, p);
        lemma_pow_congruent(a0, a, k, p);
        let f = |x: int| square_mod(x, p);
        let dom = set_int_range(1, k as int + 1);
        lemma_int_range(1, k as int + 1);
        let img = dom.map(f);
        assert forall|x1: int, x2: int|
            dom.contains(x1) && dom.contains(x2) && #[trigger] f(x1) == #[trigger] f(
                x2,
            ) implies x1 == x2 by {
            lemma_half_squares_distinct(p, x1, x2);
        }
        assert(injective_on(f, dom));
        lemma_map_size(dom, img, f);
        let coeff = power_minus_one(k);
        let roots = img.insert(a0);
        assert(coeff(0) == 1);
        assert forall|v: int| #[trigger] roots.contains(v) implies 0 <= v < p && divides(
            p,
            eval(coeff, k, v),
        ) by {
            lemma_eval_power_minus_one(k, v);
            if v != a0 {
                assert(img.contains(v));
                let x = choose|x: int| dom.contains(x) && v == f(x);
                lemma_mod_bound(x * x, p);
                lemma_mod_twice(x * x, p);
                lemma_square_is_residue(p, x);
                lemma_pow_congruent(v, x * x, k, p);
            }
            lemma_mod_equivalence(pow(v, k), 1, p);
        }
        lemma_root_bound(p, coeff, k, roots);
        assert(img.contains(a0));
        let x = choose|x: int| dom.contains(x) && a0 == f(x);
        assert(is_root(x, a, p));
    }
}

} // verus!
